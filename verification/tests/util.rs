use pixel_sig::errors::PixelError;
use pixel_sig::keys::GeneratorSet;
use pixel_sig::util::{
    calculate_l, calculate_path_factor, calculate_path_factor_using_t_l, from_node_num_to_path,
    path_to_node_num, pow2_u128,
};

#[test]
fn depth_is_the_least_that_holds_all_periods() {
    assert_eq!(calculate_l(1), Ok(1));
    assert_eq!(calculate_l(2), Ok(2));
    assert_eq!(calculate_l(3), Ok(2));
    assert_eq!(calculate_l(4), Ok(3));
    assert_eq!(calculate_l(7), Ok(3));
    assert_eq!(calculate_l(8), Ok(4));
    assert_eq!(calculate_l(15), Ok(4));
    assert_eq!(calculate_l(65535), Ok(16));
    assert_eq!(calculate_l(65536), Ok(17));
}

#[test]
fn depth_of_no_period_is_an_error() {
    assert_eq!(calculate_l(0), Err(PixelError::InvalidMaxTimePeriod { t_max: 0 }));
}

#[test]
fn depth_beyond_the_largest_is_an_error() {
    let largest = (1u128 << 127) - 1;
    assert_eq!(calculate_l(largest), Ok(127));
    assert_eq!(
        calculate_l(largest + 1),
        Err(PixelError::InvalidMaxTimePeriod { t_max: largest + 1 })
    );
    assert_eq!(
        calculate_l(u128::MAX),
        Err(PixelError::InvalidMaxTimePeriod { t_max: u128::MAX })
    );
}

#[test]
fn powers_of_two() {
    assert_eq!(pow2_u128(0), 1);
    assert_eq!(pow2_u128(1), 2);
    assert_eq!(pow2_u128(10), 1024);
    assert_eq!(pow2_u128(127), 1u128 << 127);
}

#[test]
fn paths_of_the_tree_of_depth_three() {
    assert_eq!(from_node_num_to_path(1, 3), Ok(vec![]));
    assert_eq!(from_node_num_to_path(2, 3), Ok(vec![1]));
    assert_eq!(from_node_num_to_path(3, 3), Ok(vec![1, 1]));
    assert_eq!(from_node_num_to_path(4, 3), Ok(vec![1, 2]));
    assert_eq!(from_node_num_to_path(5, 3), Ok(vec![2]));
    assert_eq!(from_node_num_to_path(6, 3), Ok(vec![2, 1]));
    assert_eq!(from_node_num_to_path(7, 3), Ok(vec![2, 2]));
}

#[test]
fn paths_of_the_tree_of_depth_four() {
    assert_eq!(from_node_num_to_path(4, 4), Ok(vec![1, 1, 1]));
    assert_eq!(from_node_num_to_path(8, 4), Ok(vec![1, 2, 2]));
    assert_eq!(from_node_num_to_path(9, 4), Ok(vec![2]));
    assert_eq!(from_node_num_to_path(12, 4), Ok(vec![2, 1, 2]));
    assert_eq!(from_node_num_to_path(15, 4), Ok(vec![2, 2, 2]));
}

#[test]
fn path_of_no_node_is_an_error() {
    assert_eq!(from_node_num_to_path(0, 3), Err(PixelError::InvalidNodeNum { t: 0, l: 3 }));
    assert_eq!(from_node_num_to_path(8, 3), Err(PixelError::InvalidNodeNum { t: 8, l: 3 }));
    assert_eq!(from_node_num_to_path(1, 0), Err(PixelError::InvalidNodeNum { t: 1, l: 0 }));
    assert_eq!(from_node_num_to_path(1, 128), Err(PixelError::InvalidNodeNum { t: 1, l: 128 }));
}

#[test]
fn node_numbers_of_paths() {
    assert_eq!(path_to_node_num(&[], 3), Ok(1));
    assert_eq!(path_to_node_num(&[1], 3), Ok(2));
    assert_eq!(path_to_node_num(&[1, 1], 3), Ok(3));
    assert_eq!(path_to_node_num(&[1, 2], 3), Ok(4));
    assert_eq!(path_to_node_num(&[2], 3), Ok(5));
    assert_eq!(path_to_node_num(&[2, 1], 3), Ok(6));
    assert_eq!(path_to_node_num(&[2, 2], 3), Ok(7));
    assert_eq!(path_to_node_num(&[2, 1, 2], 4), Ok(12));
}

#[test]
fn node_number_of_no_path_is_an_error() {
    assert_eq!(path_to_node_num(&[1, 1, 1], 3), Err(PixelError::InvalidPath { l: 3 }));
    assert_eq!(path_to_node_num(&[1, 3], 3), Err(PixelError::InvalidPath { l: 3 }));
    assert_eq!(path_to_node_num(&[0], 3), Err(PixelError::InvalidPath { l: 3 }));
    assert_eq!(path_to_node_num(&[], 0), Err(PixelError::InvalidPath { l: 0 }));
    assert_eq!(path_to_node_num(&[], 128), Err(PixelError::InvalidPath { l: 128 }));
}

#[test]
fn paths_and_node_numbers_are_inverse() {
    for l in 1u8..=6 {
        let last = (1u128 << l) - 1;
        for t in 1..=last {
            let path = from_node_num_to_path(t, l).unwrap();
            assert!(path.len() < l as usize);
            assert_eq!(path_to_node_num(&path, l), Ok(t));
        }
    }
}

#[test]
fn path_at_the_largest_depth() {
    let last = u128::MAX >> 1;
    let path = from_node_num_to_path(last, 127).unwrap();
    assert_eq!(path, vec![2u8; 126]);
    assert_eq!(path_to_node_num(&path, 127), Ok(last));
    let deepest_left = from_node_num_to_path(127, 127).unwrap();
    assert_eq!(deepest_left, vec![1u8; 126]);
}

#[test]
fn path_factor_adds_a_generator_once_or_twice_for_each_step() {
    let gens = GeneratorSet::new(7, "path_factor").unwrap();
    let h = &gens.1;
    assert!(calculate_path_factor(&[], &gens).unwrap() == h[1]);
    assert!(calculate_path_factor(&[1], &gens).unwrap() == &h[1] + &h[2]);
    assert!(calculate_path_factor(&[2], &gens).unwrap() == &(&h[1] + &h[2]) + &h[2]);
    let expected = &(&(&h[1] + &h[2]) + &h[3]) + &h[3];
    assert!(calculate_path_factor(&[1, 2], &gens).unwrap() == expected);
    assert!(calculate_path_factor_using_t_l(4, 3, &gens).unwrap() == expected);
    assert!(calculate_path_factor_using_t_l(1, 3, &gens).unwrap() == h[1]);
}

#[test]
fn path_factor_needs_a_generator_for_each_step() {
    let gens = GeneratorSet::new(3, "short").unwrap();
    assert_eq!(gens.1.len(), 4);
    assert_eq!(
        calculate_path_factor(&[1, 1, 1], &gens).err(),
        Some(PixelError::NotEnoughGenerators { n: 5 })
    );
    assert_eq!(
        calculate_path_factor_using_t_l(8, 4, &gens).err(),
        Some(PixelError::NotEnoughGenerators { n: 5 })
    );
    assert_eq!(
        calculate_path_factor_using_t_l(16, 4, &gens).err(),
        Some(PixelError::InvalidNodeNum { t: 16, l: 4 })
    );
}
