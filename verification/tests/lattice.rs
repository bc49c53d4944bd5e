use perlin_noise::layout::{row_major_index, row_major_strides};
use perlin_noise::{Lattice, NoiseError, MAX_DIMS};

#[test]
fn rejects_invalid_dimensions() {
    assert_eq!(Lattice::new(vec![], 0).err(), Some(NoiseError::NoDimensions));
    assert_eq!(Lattice::new(vec![3, 0, 2], 0).err(), Some(NoiseError::ZeroDimension));
    assert_eq!(
        Lattice::new(vec![2; MAX_DIMS + 1], 0).err(),
        Some(NoiseError::TooManyDimensions)
    );
}

#[test]
fn the_first_failing_check_names_the_error() {
    // Too many axes is reported before the empty one among them.
    let mut dims = vec![0; MAX_DIMS + 1];
    dims[0] = 3;
    assert_eq!(Lattice::new(dims, 0).err(), Some(NoiseError::TooManyDimensions));
}

#[test]
fn a_lattice_too_large_to_count_is_refused() {
    let huge = 1usize << (usize::BITS / 2);
    assert_eq!(Lattice::new(vec![huge, huge], 0).err(), Some(NoiseError::Overflow));
    // The gradient components count too: n times the intersections.
    let half = usize::MAX / 2;
    assert_eq!(Lattice::new(vec![half, 1], 0).err(), Some(NoiseError::Overflow));
}

#[test]
fn lattice_shape_counts_intersections() {
    let lattice = Lattice::new(vec![3, 1, 2], 7).unwrap();
    assert_eq!(lattice.dims(), &[3, 1, 2]);
    assert_eq!(lattice.shape(), &[4, 2, 3]);
    assert_eq!(lattice.intersections(), 4 * 2 * 3);
    assert_eq!(lattice.strides(), &[6, 3, 1]);
    assert_eq!(lattice.seed(), 7);
}

#[test]
fn gradients_sit_in_row_major_order() {
    let lattice = Lattice::new(vec![3, 1, 2], 7).unwrap();
    assert_eq!(lattice.gradient_offset(&[0, 0, 0]), Some(0));
    assert_eq!(lattice.gradient_offset(&[1, 1, 2]), Some((6 + 3 + 2) * 3));
    assert_eq!(lattice.gradient_offset(&[3, 1, 2]), Some((24 - 1) * 3));
    assert_eq!(lattice.gradient_offset(&[4, 0, 0]), None);
    assert_eq!(lattice.gradient_offset(&[0, 0]), None);

    let mut seen = Vec::new();
    for x in 0..4 {
        for y in 0..2 {
            for z in 0..3 {
                seen.push(lattice.gradient_offset(&[x, y, z]).unwrap());
            }
        }
    }
    let expected: Vec<usize> = (0..24).map(|flat| flat * 3).collect();
    assert_eq!(seen, expected);
}

#[test]
fn corners_pick_the_upper_intersection_by_bit() {
    let lattice = Lattice::new(vec![3, 1, 2], 7).unwrap();
    // Bits 0 and 2 set: up on the first and third axes.
    assert_eq!(lattice.corner_offset(&[1, 0, 1], 0b101), (2 * 6 + 0 * 3 + 2) * 3);
    assert_eq!(lattice.corner_offset(&[1, 0, 1], 0), (6 + 1) * 3);
    assert_eq!(lattice.corner_offset(&[2, 0, 1], 0b111), (3 * 6 + 3 + 2) * 3);
}

#[test]
fn points_need_one_coordinate_per_dimension() {
    let lattice = Lattice::new(vec![8, 2, 11], 1).unwrap();
    assert_eq!(lattice.expect_coordinates(3), Ok(()));
    assert_eq!(
        lattice.expect_coordinates(2),
        Err(NoiseError::WrongCoordinateCount { expected: 3, got: 2 })
    );
}

#[test]
fn table_rejects_invalid_divisors() {
    let lattice = Lattice::new(vec![3, 2], 0).unwrap();
    assert_eq!(
        lattice.table_layout(&[2]).err(),
        Some(NoiseError::WrongDivisorCount { expected: 2, got: 1 })
    );
    assert_eq!(lattice.table_layout(&[2, 0]).err(), Some(NoiseError::ZeroDivisor));
    assert_eq!(lattice.table_layout(&[0, 2]).err(), Some(NoiseError::ZeroDivisor));
}

#[test]
fn table_overflow_is_found_axis_by_axis() {
    let lattice = Lattice::new(vec![2, 2], 0).unwrap();
    // The first axis overflows before the zero on the second is seen.
    assert_eq!(lattice.table_layout(&[usize::MAX, 0]).err(), Some(NoiseError::Overflow));
    assert_eq!(lattice.table_layout(&[0, usize::MAX]).err(), Some(NoiseError::ZeroDivisor));
    let half = usize::MAX / 4;
    assert_eq!(lattice.table_layout(&[half, half]).err(), Some(NoiseError::Overflow));
}

#[test]
fn table_shape_refines_each_axis_by_its_divisor() {
    let lattice = Lattice::new(vec![8, 2, 11], 77).unwrap();
    let (shape, count) = lattice.table_layout(&[2, 1, 4]).unwrap();
    assert_eq!(shape, vec![17, 3, 45]);
    assert_eq!(count, 17 * 3 * 45);
    assert_eq!(lattice.table_shape(&[2, 1, 4]).unwrap(), vec![17, 3, 45]);

    let line = Lattice::new(vec![4], 3).unwrap();
    assert_eq!(line.table_shape(&[4]).unwrap(), vec![17]);
}

#[test]
fn unit_divisors_keep_the_lattice() {
    let lattice = Lattice::new(vec![3, 4], 8).unwrap();
    assert_eq!(lattice.table_shape(&[1, 1]).unwrap(), lattice.shape().to_vec());
}

#[test]
fn table_points_fall_in_their_cells() {
    let lattice = Lattice::new(vec![4, 3, 2], 314).unwrap();
    let divisors = [3, 2, 5];
    let shape = lattice.table_shape(&divisors).unwrap();
    assert_eq!(shape, vec![13, 7, 11]);
    let strides = row_major_strides(&shape);
    assert_eq!(strides, vec![77, 11, 1]);

    // The far corner belongs to the last cell at a full step.
    let flat = 12 * 77 + 3 * 11 + 7;
    let (cells, steps) = lattice.table_point(flat, &divisors, &strides);
    assert_eq!(cells, vec![3, 1, 1]);
    assert_eq!(steps, vec![3, 1, 2]);

    // Every point comes back at index / divisor along each axis.
    for x in 0..13 {
        for y in 0..7 {
            for z in 0..11 {
                let index = [x, y, z];
                let flat = row_major_index(&shape, &index).unwrap();
                let (cells, steps) = lattice.table_point(flat, &divisors, &strides);
                for axis in 0..3 {
                    assert!(cells[axis] < lattice.dims()[axis]);
                    assert!(steps[axis] <= divisors[axis]);
                    assert_eq!(cells[axis] * divisors[axis] + steps[axis], index[axis]);
                }
            }
        }
    }
}

#[test]
fn strides_make_the_last_axis_contiguous() {
    assert_eq!(row_major_strides(&[4, 2, 3]), vec![6, 3, 1]);
    assert_eq!(row_major_strides(&[5]), vec![1]);
    assert_eq!(row_major_strides(&[]), Vec::<usize>::new());
    // The first size is never multiplied in.
    assert_eq!(row_major_strides(&[usize::MAX, 2]), vec![2, 1]);
}

#[test]
fn table_is_row_major_with_the_last_axis_contiguous() {
    let lattice = Lattice::new(vec![2, 3], 6).unwrap();
    let shape = lattice.table_shape(&[2, 2]).unwrap();
    assert_eq!(shape, vec![5, 7]);
    for x in 0..shape[0] {
        for y in 0..shape[1] {
            assert_eq!(row_major_index(&shape, &[x, y]), Some(x * shape[1] + y));
        }
    }
    assert_eq!(row_major_index(&shape, &[5, 0]), None);
    assert_eq!(row_major_index(&shape, &[0, 7]), None);
    assert_eq!(row_major_index(&shape, &[0]), None);
    assert_eq!(row_major_index(&[17, 3, 45], &[17, 0, 0]), None);
}

#[test]
fn stride_sum_and_row_major_index_agree() {
    let shape = [4, 2, 3];
    let strides = row_major_strides(&shape);
    for x in 0..4 {
        for y in 0..2 {
            for z in 0..3 {
                let sum = x * strides[0] + y * strides[1] + z * strides[2];
                assert_eq!(row_major_index(&shape, &[x, y, z]), Some(sum));
            }
        }
    }
}
