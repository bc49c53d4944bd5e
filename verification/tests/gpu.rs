use perlin_noise::gpu::{
    axes_buffer, check_buffer, dispatch_plan, params_buffer, params_words, shader_axes,
    shader_point_count,
};
use perlin_noise::{Buffer, NoiseError};

fn bytes_of(words: &[u32]) -> Vec<u8> {
    words.iter().flat_map(|word| word.to_ne_bytes()).collect()
}

#[test]
fn the_shader_indexes_points_in_32_bits() {
    assert_eq!(shader_point_count(17, 10), Err(NoiseError::ShaderDimensions));
    assert_eq!(shader_point_count(3, 100), Ok(100));
    assert_eq!(shader_point_count(16, u32::MAX as usize), Ok(u32::MAX));
    if usize::BITS > 32 {
        assert_eq!(
            shader_point_count(3, u32::MAX as usize + 1),
            Err(NoiseError::ShaderPointCount)
        );
    }
}

#[test]
fn buffers_must_fit_the_adapter() {
    assert_eq!(check_buffer(Buffer::Output, 10, 40), Ok(()));
    assert_eq!(
        check_buffer(Buffer::Gradient, 11, 40),
        Err(NoiseError::BufferTooLarge { buffer: Buffer::Gradient, needed: 44, budget: 40 })
    );
}

#[test]
fn axes_are_laid_out_group_by_group() {
    let words = shader_axes(&[2, 3], &[4, 5], &[16, 1], &[4, 1]).unwrap();
    assert_eq!(words, vec![2, 3, 4, 5, 16, 1, 4, 1]);
    let bytes = axes_buffer(&[2, 3], &[4, 5], &[16, 1], &[4, 1]).unwrap();
    assert_eq!(bytes, bytes_of(&[2, 3, 4, 5, 16, 1, 4, 1]));
    if usize::BITS > 32 {
        let big = u32::MAX as usize + 1;
        assert_eq!(shader_axes(&[2], &[4], &[big], &[1]), Err(NoiseError::ShaderIntegers));
        assert_eq!(axes_buffer(&[2], &[4], &[1], &[big]), Err(NoiseError::ShaderIntegers));
    }
}

#[test]
fn params_carry_the_corner_count() {
    assert_eq!(params_words(3, 100, 64), [3, 100, 64, 8]);
    assert_eq!(params_words(16, 1, 0), [16, 1, 0, 65536]);
    assert_eq!(params_buffer(3, 100, 64), bytes_of(&[3, 100, 64, 8]));
}

#[test]
fn dispatches_cover_every_point() {
    assert_eq!(dispatch_plan(0, 10), vec![(0, 0)]);
    assert_eq!(dispatch_plan(100, 10), vec![(0, 2)]);
    assert_eq!(dispatch_plan(1000, 4), vec![(0, 4), (256, 4), (512, 4), (768, 4)]);
    assert_eq!(dispatch_plan(1000, 3), vec![(0, 3), (192, 3), (384, 3), (576, 3), (768, 3), (960, 1)]);
    assert_eq!(dispatch_plan(100, u32::MAX), vec![(0, 2)]);
    let points = 22 * 8 + 1;
    let points = (points * points * points) as u32;
    let plan = dispatch_plan(points, 65535);
    assert_eq!(plan.len(), 2);
    assert_eq!(plan[1].0, 65535 * 64);
}
