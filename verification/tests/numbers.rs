use ordered_float::OrderedFloat;
use tree_search::percentile::weight_above;
use tree_search::rank::rank;
use tree_search::text::{align, decimal_of};
use tree_search::{argmax_count, argmax_single, percentile, x_of, y_of, Color, Double, Single};

const SAMPLES: [f32; 14] = [
    std::f32::NEG_INFINITY,
    std::f32::MIN,
    -1.5,
    -1.0,
    -1.0e-40,
    -0.0,
    0.0,
    1.0e-40,
    0.09,
    0.5,
    1.0,
    std::f32::MAX,
    std::f32::INFINITY,
    std::f32::NAN,
];

fn single(value: f32) -> Single {
    Single::from_bits(value.to_bits())
}

fn double(value: f64) -> Double {
    Double::from_bits(value.to_bits())
}

#[test]
fn ranks_are_ordered_as_ordered_floats_are() {
    let mut samples = SAMPLES.to_vec();
    samples.push(-std::f32::NAN);
    for &a in &samples {
        for &b in &samples {
            let ours = single(a).rank().cmp(&single(b).rank());
            assert_eq!(ours, OrderedFloat(a).cmp(&OrderedFloat(b)), "{} {}", a, b);
        }
    }
}

#[test]
fn single_precision_numbers_are_ordered_as_floats_are() {
    for &a in &SAMPLES {
        assert_eq!(single(a).is_nan(), a.is_nan());
        for &b in &SAMPLES {
            assert_eq!(single(a).at_most(single(b)), a <= b, "{} {}", a, b);
        }
    }
    assert_eq!(Single::zero(), single(0.0));
    assert_eq!(Single::half(), single(0.5));
    assert_eq!(Single::neg_infinity(), single(std::f32::NEG_INFINITY));
    assert_eq!(single(0.09).to_bits(), tree_search::single::GREEDY_BITS);
}

#[test]
fn double_precision_numbers_are_ordered_as_floats_are() {
    let samples: Vec<f64> = SAMPLES.iter().map(|&a| a as f64).collect();
    for &a in &samples {
        assert_eq!(double(a).is_nan(), a.is_nan());
        assert_eq!(double(a).is_tiny(), a < std::f64::MIN_POSITIVE);
        for &b in &samples {
            assert_eq!(double(a).at_most(double(b)), a <= b, "{} {}", a, b);
        }
    }
    assert_eq!(Double::zero(), double(0.0));
    assert!(double(std::f64::MIN_POSITIVE / 2.0).is_tiny());
    assert!(!double(std::f64::MIN_POSITIVE).is_tiny());
    assert_eq!(double(0.1).to_bits(), 0.1f64.to_bits());
}

#[test]
fn the_first_largest_number() {
    let singles = |values: &[f32]| values.iter().map(|&v| single(v)).collect::<Vec<Single>>();

    assert_eq!(argmax_single(&singles(&[0.5, 2.0, -1.0, 2.0])), Some(1));
    assert_eq!(argmax_single(&singles(&[-0.0, 0.0])), Some(0));
    assert_eq!(argmax_single(&singles(&[std::f32::NAN, -3.0])), Some(1));
    assert_eq!(argmax_single(&singles(&[std::f32::NEG_INFINITY, std::f32::INFINITY])), Some(1));
    assert_eq!(argmax_single(&singles(&[std::f32::NEG_INFINITY, std::f32::NAN])), None);
    assert_eq!(argmax_single(&vec![]), None);
    assert_eq!(argmax_count(&vec![3, 9, -2, 9]), Some(1));
    assert_eq!(argmax_count(&vec![-5]), Some(0));
    assert_eq!(argmax_count(&vec![]), None);
}

#[test]
fn ranking_is_stable() {
    let counts = vec![5, 0, 7, 5, 7, 1];

    assert_eq!(rank(&counts, &vec![0, 1, 2, 3, 4, 5]), vec![2, 4, 0, 3, 5, 1]);
    assert_eq!(rank(&counts, &vec![4, 3, 2, 0]), vec![4, 2, 3, 0]);
    assert_eq!(rank(&counts, &vec![]), Vec::<usize>::new());
}

#[test]
fn weighted_percentiles() {
    // 4 + 3 is the first sum of at least 5, and 1 + 2 is what is smaller
    assert_eq!(percentile(&vec![1, 2, 3, 4], 10, 50), (3, 3));
    assert_eq!(weight_above(&vec![1, 2, 3, 4], 10, 50), 7);
    // 50 + 30 + 15 is the first sum of at least 90
    assert_eq!(percentile(&vec![3, 15, 50, 2, 30], 100, 10), (15, 5));
    assert_eq!(weight_above(&vec![3, 15, 50, 2, 30], 100, 10), 95);
    // 50 + 40 is just enough
    assert_eq!(percentile(&vec![10, 50, 40], 100, 10), (40, 10));
    assert_eq!(percentile(&vec![9, 50, 40], 99, 10), (40, 9));
    assert_eq!(percentile(&vec![11, 50, 40], 101, 10), (11, 0));
    assert_eq!(weight_above(&vec![11, 50, 40], 101, 10), 101);
    // elements that are as large are not smaller
    assert_eq!(percentile(&vec![1, 2, 2, 2], 7, 50), (2, 1));
    assert_eq!(weight_above(&vec![1, 2, 2, 2], 7, 50), 4);
    assert_eq!(percentile(&vec![1, 1, 1], 3, 0), (1, 0));
    assert_eq!(percentile(&vec![4, 9], 13, 100), (9, 4));
    assert_eq!(percentile(&vec![7], 7, 10), (7, 0));
    // the integers agree with the product of floating point numbers
    for total in 1..2000i64 {
        let max_value = total as f64 * (1.0 - 0.1);
        for so_far in (total * 9 / 10 - 2).max(0)..total + 1 {
            assert_eq!(so_far as f64 >= max_value, 100 * so_far >= 90 * total);
        }
    }
}

#[test]
fn integers_in_base_ten() {
    for &n in &[0, 7, 10, 99, 100, 12_345, 2_147_483_647, -1, -10, -2_147_483_648] {
        assert_eq!(decimal_of(n), format!("{}", n));
    }
}

#[test]
fn text_is_aligned_to_the_right() {
    for text in ["", "c4", "pass", "abcde", "abcdef"] {
        assert_eq!(align(text, 5), format!("{: >5}", text));
    }
}

#[test]
fn coordinates_of_a_move() {
    for index in 0..361 {
        assert_eq!((x_of(index) as usize, y_of(index) as usize), (index % 19, index / 19));
    }
    assert_eq!(x_of(60) as usize + 19 * y_of(60) as usize, 60);
}

#[test]
fn the_other_player() {
    assert_eq!(Color::Black.opposite(), Color::White);
    assert_eq!(Color::White.opposite(), Color::Black);
}
