use perlin_noise::render::{
    check_image_size, check_samples, check_slice, check_slices, default_slices, relief_map_divisors,
};
use perlin_noise::{Image, Lattice, NoiseError, Palette, MAX_SAMPLES};

fn lattice(dims: Vec<usize>) -> Lattice {
    Lattice::new(dims, 0).unwrap()
}

#[test]
fn only_wraps_fields_it_can_draw() {
    assert!(lattice(vec![4, 4]).check_renderable().is_ok());
    assert!(lattice(vec![4, 4, 2]).check_renderable().is_ok());
    assert!(lattice(vec![4, 4, 4, 1]).check_renderable().is_ok());
    assert_eq!(
        lattice(vec![4]).check_renderable(),
        Err(NoiseError::ImageDimensions { got: 1 })
    );
    assert_eq!(
        lattice(vec![4, 4, 4, 4, 4]).check_renderable(),
        Err(NoiseError::ImageDimensions { got: 5 })
    );
}

#[test]
fn each_mode_checks_its_own_dimension_count() {
    let flat = lattice(vec![4, 4]);
    assert_eq!(flat.expect_dims(2), Ok(()));
    assert_eq!(
        flat.expect_dims(3),
        Err(NoiseError::WrongDimensionCount { wanted: 3, got: 2 })
    );
    assert_eq!(
        flat.expect_dims(4),
        Err(NoiseError::WrongDimensionCount { wanted: 4, got: 2 })
    );
}

#[test]
fn the_colour_axis_follows_the_third_divisor() {
    let deep = lattice(vec![4, 4, 1]);
    assert_eq!(deep.color_axis(&[4, 4, 1]), Ok(2));
    assert_eq!(deep.color_axis(&[4, 4, 2]), Ok(3));
    assert_eq!(deep.color_axis(&[4, 4, 0]), Err(NoiseError::ZeroDivisor));
}

#[test]
fn channels_reject_impossible_slices() {
    let deep = Lattice::new(vec![4, 4, 1], 8).unwrap();
    // Two samples on the colour axis cannot fill three channels.
    let shallow = deep.color_axis(&[4, 4, 1]).unwrap();
    assert_eq!(default_slices(shallow), Err(NoiseError::ShallowColourAxis { depth: 2 }));
    let depth = deep.color_axis(&[4, 4, 2]).unwrap();
    assert_eq!(
        check_slices([0, 1, 3], depth),
        Err(NoiseError::SliceOutsideColourAxis { slice: 3, depth: 3 })
    );
    assert_eq!(check_slices([0, 1, 2], depth), Ok(()));
    assert_eq!(
        check_slice(3, depth),
        Err(NoiseError::SliceOutsideColourAxis { slice: 3, depth: 3 })
    );
}

#[test]
fn default_slices_span_the_colour_axis() {
    assert_eq!(default_slices(3), Ok([0, 1, 2]));
    assert_eq!(default_slices(9), Ok([0, 4, 8]));
    assert_eq!(default_slices(0), Err(NoiseError::ShallowColourAxis { depth: 0 }));
    assert_eq!(
        check_slices([5, 1, 7], 3),
        Err(NoiseError::SliceOutsideColourAxis { slice: 5, depth: 3 })
    );
    assert_eq!(check_slices([0, 1, 2], 3), Ok(()));
    assert_eq!(
        check_slice(3, 3),
        Err(NoiseError::SliceOutsideColourAxis { slice: 3, depth: 3 })
    );
    assert_eq!(check_slice(2, 3), Ok(()));
}

#[test]
fn pixel_sized_modes_need_pixels_and_samples() {
    assert_eq!(check_image_size(0, 80), Err(NoiseError::EmptyImage));
    assert_eq!(check_image_size(120, 0), Err(NoiseError::EmptyImage));
    assert_eq!(check_image_size(120, 80), Ok(()));
    assert_eq!(check_samples(0), Err(NoiseError::SampleCount { got: 0 }));
    assert_eq!(
        check_samples(MAX_SAMPLES + 1),
        Err(NoiseError::SampleCount { got: MAX_SAMPLES + 1 })
    );
    assert_eq!(check_samples(1), Ok(()));
    assert_eq!(check_samples(MAX_SAMPLES), Ok(()));
}

#[test]
fn relief_map_is_sampled_about_as_densely_as_the_hair() {
    // 80 rows over the 2 cells down, 120 columns over the 3 cells across.
    assert_eq!(relief_map_divisors(120, 80, &[2, 3]), [39, 39]);
    assert_eq!(relief_map_divisors(120, 80, &[4, 2]), [19, 59]);
    assert_eq!(relief_map_divisors(1, 1, &[4, 4]), [1, 1]);
    assert_eq!(relief_map_divisors(0, 0, &[4, 4]), [1, 1]);
}

#[test]
fn pixels_are_read_from_the_buffer() {
    let bytes: Vec<u8> = (0..4 * 3 * 3).map(|value| value as u8).collect();
    let image = Image::from_pixels(4, 3, 3, bytes.clone()).unwrap();
    assert_eq!(image.width(), 4);
    assert_eq!(image.height(), 3);
    assert_eq!(image.channels(), 3);
    for y in 0..image.height() {
        for x in 0..image.width() {
            let start = (y * image.width() + x) * 3;
            assert_eq!(image.pixel(x, y).unwrap(), &image.pixels()[start..start + 3]);
        }
    }
    assert!(image.pixel(image.width(), 0).is_none());
    assert!(image.pixel(0, image.height()).is_none());
    assert_eq!(image.into_pixels(), bytes);
}

#[test]
fn an_image_holds_exactly_its_pixels() {
    assert!(Image::from_pixels(2, 2, 1, vec![0; 4]).is_some());
    assert!(Image::from_pixels(2, 2, 1, vec![0; 5]).is_none());
    assert!(Image::from_pixels(2, 2, 3, vec![0; 4]).is_none());
    assert!(Image::from_pixels(usize::MAX, 2, 0, Vec::new()).is_none());
    let grey = Image::from_pixels(1, 1, 1, vec![128]).unwrap();
    assert_eq!(grey.pixel(0, 0), Some(&[128u8][..]));
}

#[test]
fn palettes_hold_their_stops() {
    assert_eq!(Palette::Gray.stops(), vec![[0, 0, 0], [255, 255, 255]]);
    assert_eq!(Palette::BlueRed.stops().len(), 3);
    assert_eq!(Palette::Heat.stops()[2], [255, 80, 0]);
    assert_eq!(Palette::Crimson.stops().len(), 8);
    assert_eq!(Palette::Azure.stops()[7], [78, 132, 234]);
    assert_eq!(Palette::Terrain.stops()[0], [12, 44, 92]);
    for palette in [
        Palette::Gray,
        Palette::BlueRed,
        Palette::Heat,
        Palette::Crimson,
        Palette::Azure,
        Palette::Terrain,
    ] {
        let stops = palette.stops();
        assert!(stops.len() >= 2);
        assert_ne!(stops[0], stops[stops.len() - 1]);
    }
}
