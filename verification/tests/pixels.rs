use mean_image::pixels::PixelBuffer;

#[test]
fn new_grid_is_black() {
    let image = PixelBuffer::new(3, 2).expect("a grid of this size fits in memory");
    assert_eq!(image.width(), 3);
    assert_eq!(image.height(), 2);
    assert_eq!(image.as_bytes(), &[0u8; 18]);
}

#[test]
fn empty_grids_are_refused() {
    assert!(PixelBuffer::new(0, 5).is_none());
    assert!(PixelBuffer::new(5, 0).is_none());
    assert!(PixelBuffer::new(0, 0).is_none());
    assert!(PixelBuffer::from_raw(0, 0, Vec::new()).is_none());
    assert!(PixelBuffer::from_raw(0, 4, Vec::new()).is_none());
}

#[test]
fn raw_samples_must_fit_the_grid() {
    assert!(PixelBuffer::from_raw(2, 2, vec![0; 11]).is_none());
    assert!(PixelBuffer::from_raw(2, 2, vec![0; 13]).is_none());
    assert!(PixelBuffer::from_raw(u32::MAX, u32::MAX, vec![0; 12]).is_none());
    let samples: Vec<u8> = (0..12).collect();
    let image = PixelBuffer::from_raw(2, 2, samples.clone()).expect("twelve bytes are four pixels");
    assert_eq!(image.width(), 2);
    assert_eq!(image.height(), 2);
    assert_eq!(image.as_bytes(), &samples[..]);
}

#[test]
fn put_pixel_writes_three_bytes_of_one_pixel() {
    let mut image = PixelBuffer::new(3, 2).expect("a grid of this size fits in memory");
    image.put_pixel(0, 0, [1, 2, 3]);
    image.put_pixel(2, 0, [4, 5, 6]);
    image.put_pixel(1, 1, [7, 8, 9]);
    image.put_pixel(2, 1, [10, 11, 12]);
    assert_eq!(
        image.as_bytes(),
        &[1, 2, 3, 0, 0, 0, 4, 5, 6, 0, 0, 0, 7, 8, 9, 10, 11, 12]
    );
    image.put_pixel(2, 0, [0, 0, 0]);
    assert_eq!(&image.as_bytes()[6..9], &[0, 0, 0]);
    assert_eq!((image.width(), image.height()), (3, 2));
}
