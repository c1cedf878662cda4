use std::cell::Cell;
use tree_search::{insert, Child, ChildMut, Color, Double, Lottery, Node, Single, PUCT};

fn single(value: f32) -> Single {
    Single::from_bits(value.to_bits())
}

fn float(value: Single) -> f32 {
    f32::from_bits(value.to_bits())
}

fn double(value: f64) -> Double {
    Double::from_bits(value.to_bits())
}

fn double_float(value: Double) -> f64 {
    f64::from_bits(value.to_bits())
}

fn grow(so_far: Double, count: i32, total: i64, temperature: Single) -> Double {
    let t = (float(temperature) as f64).recip();

    double(double_float(so_far) + (count as f64 / total as f64).powf(t))
}

/// A node in which the given moves were visited so often, each with its number of visits as
/// its value.
fn tree(visits: &[(usize, i32)]) -> Node {
    let prior: Vec<Single> = (0..362).map(|i| single(i as f32 / 1000.0)).collect();
    let mut root = Node::new(Color::Black, single(0.5), prior);

    for &(index, count) in visits {
        root.with_mut(index, |mut child: ChildMut| {
            let leaf = Node::new(Color::White, single(0.5), vec![single(0.0); 362]);
            child.set_count(count);
            child.set_value(single(count as f32));
            child.set_ptr(Some(Box::new(leaf)));
        });
    }
    root.total_count = visits.iter().map(|visit| visit.1).sum();
    root
}

#[test]
fn the_best_move_is_the_most_visited_one() {
    let root = tree(&[(7, 3), (300, 12), (20, 12), (5, 1)]);

    for &temperature in &[0.0, 0.09, -1.0, std::f32::NEG_INFINITY] {
        let (value, index) = root.best(single(temperature), &grow, |_| panic!());
        // of the two it is the one with the larger prior
        assert_eq!((float(value), index), (12.0, 300));
    }
    assert_eq!(root.most_visited().1, 300);
}

#[test]
fn without_visits_the_best_move_has_the_largest_prior() {
    let root = tree(&[]);
    assert_eq!(root.best(single(0.0), &grow, |_| panic!()).1, 361);

    let mut prior = vec![single(0.5); 362];
    prior[10] = single(std::f32::NAN);
    prior[20] = single(std::f32::INFINITY);
    let root = Node::new(Color::Black, single(0.25), prior);
    assert_eq!(float(root.best(single(0.0), &grow, |_| panic!()).0), 0.25);
    assert_eq!(root.best(single(0.0), &grow, |_| panic!()).1, 10);

    // of several equally good moves it is the last one
    let root = Node::new(Color::Black, single(0.25), vec![single(0.5); 362]);
    assert_eq!(root.most_visited().1, 361);
}

#[test]
fn popular_moves_take_part_in_the_lottery() {
    // 50 + 30 + 15 of 100 visits are the fewest that leave at most a tenth to others
    let root = tree(&[(90, 15), (40, 50), (61, 2), (60, 30), (10, 3)]);
    let lottery = root.lottery(single(1.0), &grow);
    assert_eq!(lottery.moves, vec![40, 60, 90]);
    let sums: Vec<f64> = lottery.sums.iter().map(|&s| double_float(s)).collect();
    let expected = [50.0 / 95.0, 80.0 / 95.0, 1.0];
    for (sum, expected) in sums.iter().zip(expected.iter()) {
        assert!((sum - expected).abs() < 1e-12);
    }
    assert_eq!(lottery.total(), lottery.sums[2]);

    // at a temperature of one half the weights are squared
    let lottery = root.lottery(single(0.5), &grow);
    let sums: Vec<f64> = lottery.sums.iter().map(|&s| double_float(s)).collect();
    assert!((sums[0] - 2500.0 / 9025.0).abs() < 1e-12);
    assert!((sums[2] - 3625.0 / 9025.0).abs() < 1e-12);
}

#[test]
fn all_moves_as_popular_as_the_last_one_take_part() {
    let root = tree(&[(3, 1), (2, 1), (1, 1), (0, 8)]);
    // 8 + 1 + 1 of 11 visits are enough, and all of the others are as popular
    assert_eq!(root.lottery(single(1.0), &grow).moves, vec![0, 1, 2, 3]);
}

#[test]
fn a_draw_picks_the_move_whose_share_it_falls_into() {
    let root = tree(&[(90, 15), (40, 50), (61, 2), (60, 30), (10, 3)]);
    let total = Cell::new(0.0);
    let pick = |share: f64| {
        root.best(single(1.0), &grow, |sum| {
            total.set(double_float(sum));
            double(share * double_float(sum))
        })
    };

    assert_eq!(pick(0.0).1, 40);
    assert!((total.get() - 1.0).abs() < 1e-12);
    assert_eq!(pick(0.5).1, 40);
    assert_eq!(pick(0.53).1, 60);
    assert_eq!(float(pick(0.84).0), 30.0);
    assert_eq!(pick(0.85).1, 90);
    assert_eq!(pick(0.999).1, 90);
}

#[test]
fn the_shares_do_not_depend_on_the_order_of_the_visits() {
    let a = tree(&[(5, 60), (3, 40)]);
    let b = tree(&[(3, 40), (5, 60)]);
    for k in 0..100 {
        let share = k as f64 / 100.0;
        let draw = |sum: Double| double(share * double_float(sum));
        assert_eq!(a.best(single(1.0), &grow, draw).1, b.best(single(1.0), &grow, draw).1);
        assert_eq!(a.best(single(1.0), &grow, draw).1, if share <= 0.4 { 3 } else { 5 });
    }
}

#[test]
fn at_infinite_temperature_all_shares_are_equal() {
    let root = tree(&[(8, 1), (9, 1), (7, 1), (6, 5)]);
    let lottery = root.lottery(single(std::f32::INFINITY), &grow);
    let sums: Vec<f64> = lottery.sums.iter().map(|&s| double_float(s)).collect();

    assert_eq!(lottery.moves, vec![6, 7, 8, 9]);
    assert_eq!(sums, vec![1.0, 2.0, 3.0, 4.0]);
}

#[test]
fn without_weights_a_move_is_picked_at_random() {
    let root = tree(&[(8, 2), (9, 1)]);
    let lottery = Lottery { moves: vec![8, 9], sums: vec![double(0.0), double(1e-310)] };
    let mut seen = vec![];

    for _ in 0..200 {
        let (value, index) = root.draw_from(&lottery, |_| panic!());
        assert_eq!(float(value), 0.5);
        assert!(index < 362);
        seen.push(index);
    }
    seen.sort();
    seen.dedup();
    assert!(seen.len() > 10);
}

#[test]
fn a_pick_is_the_first_sum_that_is_large_enough() {
    let sums = vec![double(0.25), double(0.25), double(1.0)];
    let lottery = Lottery { moves: vec![4, 5, 6], sums };

    assert_eq!(lottery.pick(double(0.0)), 4);
    assert_eq!(lottery.pick(double(0.25)), 4);
    assert_eq!(lottery.pick(double(0.26)), 6);
    assert_eq!(lottery.pick(double(1.0)), 6);
}

#[test]
fn softmax_is_the_share_of_the_visits() {
    let share = |count: i32, total: i64| single(count as f32 / total as f32);
    let probabilities = tree(&[(0, 1), (361, 3)]).softmax(&share);

    assert_eq!(probabilities.len(), 362);
    assert_eq!(float(probabilities[0]), 0.25);
    assert_eq!(float(probabilities[361]), 0.75);
    assert!((1..361).all(|i| float(probabilities[i]) == 0.0));
    assert!(tree(&[]).softmax(&share).iter().all(|&p| float(p) == 0.0));
}

#[test]
fn a_disqualified_move_is_neither_best_nor_popular() {
    let mut root = tree(&[(8, 20), (9, 1)]);
    root.disqualify(8);

    assert_eq!(root.most_visited().1, 9);
    assert_eq!(root.lottery(single(1.0), &grow).moves, vec![9]);
}

#[test]
fn values_are_averaged_from_the_point_of_view_of_each_player() {
    let complement = |value: Single| single(1.0 - float(value));
    let average = |prev: Single, value: Single, count: i32| {
        single(float(prev) + (float(value) - float(prev)) / count as f32)
    };
    let prior = vec![single(0.0); 362];
    let mut root = Node::new(Color::Black, single(0.5), prior.clone());
    let one = vec![(Color::Black, 1)];
    insert(&mut root, &one, Color::White, single(0.25), prior.clone(), 0, &complement, &average);
    assert_eq!(float(root.value_of(1)), 0.75);

    let two = vec![(Color::Black, 1), (Color::White, 2)];
    insert(&mut root, &two, Color::Black, single(0.25), prior, 0, &complement, &average);
    assert_eq!(float(root.value_of(1)), 0.5);
    let child = root.with(1, |child: Child| child.ptr()).unwrap();
    assert_eq!(float(child.value_of(2)), 0.75);
    assert_eq!(child.count_of(2), 1);
    assert_eq!(root.count_of(1), 2);
}

#[test]
fn a_visited_move_needs_no_node_to_be_picked() {
    let mut root = Node::new(Color::Black, single(0.5), vec![single(0.0); 362]);
    root.with_mut(5, |mut child: ChildMut| {
        child.set_count(3);
        child.set_value(single(0.75));
    });
    root.with_mut(2, |mut child: ChildMut| {
        child.set_count(1);
        child.set_value(single(0.25));
    });
    let pick = |share: f64| {
        let draw = |sum: Double| double(share * double_float(sum));
        let (value, index) = root.best(single(1.0), &grow, draw);
        (float(value), index)
    };

    assert_eq!(pick(0.0), (0.25, 2));
    assert_eq!(pick(0.25), (0.25, 2));
    assert_eq!(pick(0.26), (0.75, 5));
    assert_eq!(pick(0.99), (0.75, 5));
    assert_eq!(root.most_visited().1, 5);
}

#[test]
fn the_backup_needs_no_node_at_the_end_of_the_trace() {
    let complement = |value: Single| single(1.0 - float(value));
    let average = |prev: Single, value: Single, count: i32| {
        single(float(prev) + (float(value) - float(prev)) / count as f32)
    };
    let mut root = Node::new(Color::Black, single(0.5), vec![single(0.0); 362]);
    let trace = vec![(Color::Black, 60)];
    PUCT::update(&mut root, &trace, 0, Color::White, single(0.25), 3, &complement, &average);

    assert_eq!(float(root.value_of(60)), 0.75);
    assert_eq!(root.count_of(60), 1);
    assert_eq!(root.with(60, |child: Child| child.vcount()), -3);
    assert_eq!(root.vtotal_count, -3);
    assert_eq!(root.total_count, 1);
    assert_eq!(float(root.value_of(61)), 0.5);
}

#[test]
fn a_disqualified_move_is_never_returned() {
    for &temperature in &[0.0, 0.1, 1.0, 100.0, std::f32::INFINITY] {
        let mut root = tree(&[(8, 1000), (9, 1), (10, 1)]);
        root.disqualify(8);
        for k in 0..20 {
            let draw = |sum: Double| double(k as f64 / 20.0 * double_float(sum));
            let (_, index) = root.best(single(temperature), &grow, draw);
            assert!(index == 9 || index == 10);
        }
    }
}

#[test]
fn one_move_alone_is_picked_at_any_temperature() {
    let root = tree(&[(8, 18), (9, 1), (10, 1)]);
    assert!(root.is_decided());
    assert!(!tree(&[(8, 17), (9, 2), (10, 1)]).is_decided());
    assert!(!tree(&[]).is_decided());

    for &temperature in &[0.5, std::f32::INFINITY, std::f32::NAN] {
        for k in 0..10 {
            let draw = |sum: Double| double(k as f64 / 10.0 * double_float(sum));
            let (value, index) = root.best(single(temperature), &grow, draw);
            assert_eq!((float(value), index), (18.0, 8));
        }
    }
}
