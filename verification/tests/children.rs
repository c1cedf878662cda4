use tree_search::children::SmallChildrenResult;
use tree_search::{
    BigChildrenImpl, Child, ChildMut, ChildrenImpl, Color, Node, Single, SmallChildrenImpl, FPU,
    PUCT,
};

fn single(value: f32) -> Single {
    Single::from_bits(value.to_bits())
}

fn float(value: Single) -> f32 {
    f32::from_bits(value.to_bits())
}

fn empty() -> ChildrenImpl {
    ChildrenImpl::Small(SmallChildrenImpl::with_value(single(0.5)))
}

fn visit(children: &mut ChildrenImpl, index: usize, count: i32, value: f32) {
    children.with_mut(
        index,
        |mut child: ChildMut| {
            child.set_count(count);
            child.set_vcount(-count);
            child.set_value(single(value));
            child.set_expanding(true);
        },
        single(0.5),
    );
}

fn visited(children: &ChildrenImpl) -> Vec<usize> {
    let mut out = vec![];
    let mut iter = children.nonzero();
    while let Some(index) = iter.next() {
        out.push(index);
    }
    out
}

#[test]
fn a_fresh_child_is_blank() {
    let child = Child::with_value(single(0.25));

    assert_eq!(child.count(), 0);
    assert_eq!(child.vcount(), 0);
    assert_eq!(float(child.value()), 0.25);
    assert!(!child.expanding());
    assert!(child.ptr().is_none());
}

#[test]
fn a_child_reads_back_what_was_set() {
    let mut children = empty();
    children.with_mut(
        17,
        |mut child: ChildMut| {
            assert_eq!(float(child.value()), 0.5);
            child.set_count(12);
            child.set_vcount(-3);
            child.set_value(single(0.75));
            child.set_expanding(true);
            let prior = vec![single(0.0); 362];
            child.set_ptr(Some(Box::new(Node::new(Color::White, single(0.1), prior))));
            assert_eq!(child.count(), 12);
            assert_eq!(child.vcount(), -3);
            assert_eq!(float(child.value()), 0.75);
            assert!(child.expanding());
            assert!(child.ptr().is_some());
        },
        single(0.5),
    );

    let (count, vcount, value, expanding) = children.with(
        17,
        |child: Child| (child.count(), child.vcount(), child.value(), child.expanding()),
        single(0.5),
    );
    assert_eq!((count, vcount, float(value), expanding), (12, -3, 0.75, true));
    let color =
        children.with(17, |child: Child| child.ptr().map(|node| node.color), single(0.5));
    assert_eq!(color, Some(Color::White));
    assert_eq!(children.with(18, |child: Child| child.count(), single(0.5)), 0);
    assert_eq!(float(children.with(18, |child: Child| child.value(), single(0.3))), 0.3);
}

#[test]
fn virtual_visits_keep_sixteen_bits() {
    let mut children = empty();
    children.with_mut(0, |mut child: ChildMut| child.set_vcount(40_000), single(0.5));

    assert_eq!(children.with(0, |child: Child| child.vcount(), single(0.5)), -25_536);
}

#[test]
fn slots_are_found_taken_and_used_up() {
    let mut children = empty();
    for index in 0..8 {
        visit(&mut children, 300 - index, index as i32, 0.0);
    }
    if let ChildrenImpl::Small(small) = &children {
        assert_eq!(small.find_index_fast(297), Some(3));
        assert_eq!(small.find_index_fast(3), None);
        assert_eq!(small.find_index_fast(297 + 65_536), None);
        assert_eq!(small.find_empty_fast(), None);
        assert!(matches!(small.find_index(293), SmallChildrenResult::Found(7)));
        assert!(matches!(small.find_index(292), SmallChildrenResult::Overflow));
    } else {
        panic!();
    }

    let mut children = empty();
    visit(&mut children, 300, 1, 0.0);
    visit(&mut children, 0, 1, 0.0);
    if let ChildrenImpl::Small(small) = &children {
        assert_eq!(small.find_empty_fast(), Some(2));
        assert!(matches!(small.find_index(5), SmallChildrenResult::NotFound(2)));
    } else {
        panic!();
    }
}

#[test]
fn the_ninth_move_makes_a_node_dense_and_equivalent() {
    let mut children = empty();
    for k in 0..8 {
        visit(&mut children, 40 * k + 1, 10 - k as i32, 0.1 * k as f32);
    }
    assert!(matches!(children, ChildrenImpl::Small(_)));
    visit(&mut children, 41, 99, 0.9);
    assert!(matches!(children, ChildrenImpl::Small(_)));

    visit(&mut children, 361, 7, 0.7);
    assert!(matches!(children, ChildrenImpl::Big(_)));
    for k in 0..8 {
        let (count, vcount, value, expanding) = children.with(
            40 * k + 1,
            |child: Child| (child.count(), child.vcount(), child.value(), child.expanding()),
            single(0.5),
        );
        let expected = if k == 1 { (99, 0.9) } else { (10 - k as i32, 0.1 * k as f32) };
        assert_eq!((count, float(value)), expected);
        assert_eq!(vcount, -count);
        assert!(expanding);
    }
    assert_eq!(children.with(361, |child: Child| child.count(), single(0.5)), 7);
    assert_eq!(children.with(2, |child: Child| child.count(), single(0.5)), 0);
    assert_eq!(float(children.with(2, |child: Child| child.value(), single(0.0))), 0.5);
    if let ChildrenImpl::Big(big) = &children {
        assert!((362..368).all(|i| big.count[i] == 0 && big.vcount[i] == 0));
        assert!((362..368).all(|i| float(big.value[i]) == 0.5));
    }
}

#[test]
fn a_dense_node_from_a_sparse_one() {
    let mut small = SmallChildrenImpl::with_value(single(0.5));
    small.indices[0] = 100;
    small.count[0] = 3;
    small.vcount[0] = 2;
    small.value[0] = single(0.8);
    let big = BigChildrenImpl::from_small(small, single(0.25));

    assert_eq!(big.count[100], 3);
    assert_eq!(big.vcount[100], 2);
    assert_eq!(float(big.value[100]), 0.8);
    assert_eq!(big.count[101], 0);
    assert_eq!(float(big.value[101]), 0.25);
    assert_eq!(float(Child::from_big(&big, 100).value()), 0.8);
    assert!((362..368).all(|i| big.count[i] == 0 && big.vcount[i] == 0));
}

#[test]
fn scattered_values() {
    let mut children = empty();
    visit(&mut children, 3, 1, 0.125);
    visit(&mut children, 2, 1, 0.25);
    let sparse = children.value(single(0.75));
    assert_eq!(sparse.len(), 368);
    assert_eq!(float(sparse[2]), 0.25);
    assert_eq!(float(sparse[3]), 0.125);
    assert_eq!(float(sparse[4]), 0.75);
    assert_eq!(float(sparse[367]), 0.75);

    for index in 10..20 {
        visit(&mut children, index, 1, 1.0);
    }
    let dense = children.value(single(0.75));
    assert_eq!(dense.len(), 368);
    assert_eq!(float(dense[2]), 0.25);
    assert_eq!(float(dense[4]), 0.75);
    assert_eq!(float(dense[15]), 1.0);
    assert_eq!(float(dense[367]), 0.75);
}

#[test]
fn unvisited_children_have_the_default_value_in_both_forms() {
    let big =
        BigChildrenImpl::from_small(SmallChildrenImpl::with_value(single(0.5)), single(0.5));
    let dense = ChildrenImpl::Big(Box::new(big)).value(single(0.25));
    assert!((0..362).all(|i| float(dense[i]) == 0.25));

    // a child that was touched and not visited has it too, one that was disqualified has not
    let mut children = empty();
    visit(&mut children, 7, 0, 0.5);
    visit(&mut children, 8, 0, std::f32::NEG_INFINITY);
    visit(&mut children, 9, 1, 0.625);
    let sparse = children.value(single(0.25));
    for index in 10..20 {
        visit(&mut children, index, 0, 0.5);
    }
    assert!(matches!(children, ChildrenImpl::Big(_)));
    assert_eq!(children.value(single(0.25)), sparse);
    assert_eq!(float(sparse[7]), 0.25);
    assert_eq!(float(sparse[8]), std::f32::NEG_INFINITY);
    assert_eq!(float(sparse[9]), 0.625);
}

#[test]
fn the_first_play_urgency_is_applied_where_the_count_is_zero() {
    let reduce = |value: Single, n: i64| single(float(value) - n as f32);
    let mut small = SmallChildrenImpl::with_value(single(0.5));
    small.indices[0] = 3;
    small.count[0] = 2;
    small.indices[1] = 4;
    small.vcount[1] = 1;
    let mut sparse = vec![single(9.0); 362];
    FPU::apply_small(&mut sparse, &small, 2, &reduce);
    let big = BigChildrenImpl::from_small(small, single(0.5));
    let mut dense = vec![single(9.0); 370];
    FPU::apply_big(&mut dense, &big, 2, &reduce);

    // one that only has a virtual visit was never visited
    assert_eq!(float(dense[3]), 9.0);
    assert_eq!(float(dense[4]), 7.0);
    assert_eq!(float(dense[5]), 7.0);
    assert_eq!(float(dense[368]), 9.0);
    assert_eq!(sparse[..], dense[..362]);
}

#[test]
fn scores_do_not_depend_on_the_storage() {
    let explore = |value: Single, prior: Single, n: i64, count: i64| {
        single(float(value) + float(prior) * n as f32 / (1 + count) as f32)
    };
    let prior: Vec<Single> = (0..362).map(|i| single(i as f32)).collect();
    let mut sparse = Node::new(Color::Black, single(0.5), prior.clone());
    let mut dense = Node::new(Color::Black, single(0.5), prior);
    for node in [&mut sparse, &mut dense] {
        visit(&mut node.children, 300, 2, 0.75);
        visit(&mut node.children, 20, 1, 0.25);
        node.total_count = 3;
        node.vtotal_count = 1;
    }
    if let ChildrenImpl::Small(small) = dense.children {
        let big = BigChildrenImpl::from_small(small, single(0.125));
        dense.children = ChildrenImpl::Big(Box::new(big));
    }

    let mut a = vec![single(0.5); 400];
    let mut b = a.clone();
    PUCT::get(&sparse, &mut a, &explore);
    PUCT::get(&dense, &mut b, &explore);
    assert_eq!(a, b);
    assert_eq!(float(a[20]), 0.5 + 20.0 * 4.0);
    assert_eq!(float(a[300]), 0.5 + 300.0 * 4.0);
    assert_eq!(float(a[10]), 0.5 + 10.0 * 4.0);
    assert!((362..400).all(|i| float(a[i]) == 0.5));
}

#[test]
fn the_most_visited_child() {
    let mut children = empty();
    assert_eq!(children.argmax_count(), 0);
    visit(&mut children, 200, 4, 0.0);
    visit(&mut children, 100, 4, 0.0);
    // a sparse node returns the first one that was touched
    assert_eq!(children.argmax_count(), 200);
    visit(&mut children, 5, 6, 0.0);
    assert_eq!(children.argmax_count(), 5);

    for index in 10..16 {
        visit(&mut children, index, 6, 0.0);
    }
    // a dense one returns the smallest
    assert!(matches!(children, ChildrenImpl::Big(_)));
    assert_eq!(children.argmax_count(), 5);
    visit(&mut children, 361, 7, 0.0);
    assert_eq!(children.argmax_count(), 361);
}

#[test]
fn the_child_with_the_largest_value() {
    let mut children = empty();
    // every move has the value that the node started with
    assert_eq!(children.argmax_value(), 0);
    visit(&mut children, 0, 1, 0.25);
    assert_eq!(children.argmax_value(), 1);
    visit(&mut children, 77, 1, 0.75);
    assert_eq!(children.argmax_value(), 77);

    for index in 10..20 {
        visit(&mut children, index, 1, 0.0);
    }
    assert_eq!(children.argmax_value(), 77);
    visit(&mut children, 19, 1, 2.0);
    assert_eq!(children.argmax_value(), 19);
}

#[test]
fn visited_children_come_in_the_order_of_their_storage() {
    let mut children = empty();
    visit(&mut children, 50, 1, 0.0);
    visit(&mut children, 40, 0, 0.0);
    visit(&mut children, 30, 2, 0.0);
    assert_eq!(visited(&children), vec![50, 30]);

    for index in 60..70 {
        visit(&mut children, index, 0, 0.0);
    }
    assert_eq!(visited(&children), vec![30, 50]);
}

#[test]
fn a_node_hands_out_its_children() {
    let mut node = Node::new(Color::Black, single(0.375), vec![single(0.0); 400]);
    assert_eq!(float(node.with(8, |child: Child| child.value())), 0.375);
    let before = node.with_mut(8, |mut child: ChildMut| {
        let before = child.value();
        child.set_value(single(1.0));
        before
    });
    assert_eq!(float(before), 0.375);
    assert_eq!(float(node.with(8, |child: Child| child.value())), 1.0);
    assert_eq!(float(node.value_of(8)), 1.0);
    assert_eq!(node.count_of(8), 0);
    assert!(node.node_of(8).is_none());
    assert_eq!(node.counts(), vec![0; 362]);
}
