use rand::rngs::SmallRng;
use rand::{Rng, SeedableRng};
use tree_search::{can_insert, insert, probe, Child, Color, Node, NodeTrace, Placement, Single};

const VLOSS_CNT: i32 = 3;
const UCT_EXP: f32 = 0.9;

fn single(value: f32) -> Single {
    Single::from_bits(value.to_bits())
}

fn float(value: Single) -> f32 {
    f32::from_bits(value.to_bits())
}

fn explore(value: Single, prior: Single, n: i64, count: i64) -> Single {
    let sqrt_n = ((1 + n) as f32).sqrt();
    let exp_bonus = UCT_EXP * sqrt_n / (1 + count) as f32;

    single(float(value) + float(prior) * exp_bonus)
}

fn reduce(value: Single, _n: i64) -> Single {
    single((float(value) - 0.22).max(0.0))
}

fn complement(value: Single) -> Single {
    single(1.0 - float(value))
}

fn average(prev: Single, value: Single, count: i32) -> Single {
    single(float(prev) + (float(value) - float(prev)) / count as f32)
}

fn probe_once(root: &mut Node, board: &mut Vec<Placement>) -> Option<NodeTrace> {
    probe(root, board, VLOSS_CNT, &explore, &reduce)
}

fn insert_once(root: &mut Node, trace: &NodeTrace, color: Color, value: f32, prior: Vec<Single>) {
    assert!(can_insert(root, trace));

    insert(root, trace, color, single(value), prior, VLOSS_CNT, &complement, &average);
}

/// Inserts a node that was not probed for.
fn insert_plain(root: &mut Node, i: usize, color: Color, value: f32, prior: Vec<Single>) {
    let trace = vec![(root.color, i)];
    assert!(can_insert(root, &trace));

    insert(root, &trace, color, single(value), prior, 0, &complement, &average);
}

fn vcount(node: &Node, i: usize) -> i32 {
    node.with(i, |child: Child| child.vcount())
}

fn count(node: &Node, i: usize) -> i32 {
    node.with(i, |child: Child| child.count())
}

fn value(node: &Node, i: usize) -> f32 {
    float(node.with(i, |child: Child| child.value()))
}

fn singles(values: Vec<f32>) -> Vec<Single> {
    values.into_iter().map(single).collect()
}

/// Random priors, normalized, and negative infinity for each point with a stone on it.
fn get_prior_distribution(rng: &mut SmallRng, board: &[Placement]) -> Vec<Single> {
    let mut prior: Vec<f32> = (0..368).map(|_| rng.gen::<f32>()).collect();

    for stone in board {
        prior[19 * stone.y as usize + stone.x as usize] = std::f32::NEG_INFINITY;
    }

    let sum: f32 = prior.iter().filter(|p| p.is_finite()).sum();

    singles(prior.into_iter().map(|p| if p.is_finite() { p / sum } else { p }).collect())
}

fn seeded() -> SmallRng {
    SmallRng::from_seed([1, 2, 3, 4, 5, 6, 7, 8, 9, 10, 11, 12, 13, 14, 15, 16])
}

#[test]
fn visit_order() {
    let mut choices = vec![];
    let mut rng = seeded();
    let mut root = Node::new(
        Color::Black,
        single(0.5),
        get_prior_distribution(&mut rng, &[]),
    );

    loop {
        let trace = probe_once(&mut root, &mut vec![]);

        if let Some(trace) = trace {
            assert_eq!(trace.len(), 1);

            // check that we are not re-visiting a node that we have not yet finished
            // expanding.
            let i = trace[0].1;

            assert!(!choices.contains(&i));
            choices.push(i);

            // check that the virtual loss has been correctly applied.
            assert_eq!(vcount(&root, i), VLOSS_CNT);
            assert_eq!(root.vtotal_count, choices.len() as i32 * VLOSS_CNT);

            // check that all nodes that were visited before this had larger prior
            // value.
            let prior_i = float(root.prior[i]);

            for &other_i in &choices {
                assert!(float(root.prior[other_i]) >= prior_i);
            }
        } else {
            // check that we did not double-add any virtual loss
            for &other_i in &choices {
                assert_eq!(vcount(&root, other_i), VLOSS_CNT);
            }

            assert_eq!(root.vtotal_count, choices.len() as i32 * VLOSS_CNT);
            break;
        }

        assert!(choices.len() < 362);
    }
}

#[test]
fn virtual_loss() {
    let mut board = vec![];
    let mut rng = seeded();
    let mut root = Node::new(
        Color::Black,
        single(0.5),
        get_prior_distribution(&mut rng, &board),
    );

    if let Some(trace) = probe_once(&mut root, &mut board) {
        let i = trace[0].1;

        // check that the virtual loss was applied
        assert_eq!(vcount(&root, i), VLOSS_CNT);
        assert_eq!(root.vtotal_count, VLOSS_CNT);

        // check that the virtual loss is un-applied after we update this move, and
        // that we we increase the `count` instead.
        let other_prior = get_prior_distribution(&mut rng, &board);
        let other_value = 0.9;

        insert_once(&mut root, &trace, Color::Black, other_value, other_prior);

        assert_eq!(vcount(&root, i), 0);
        assert_eq!(root.vtotal_count, 0);
        assert_eq!(count(&root, i), 1);
        assert_eq!(root.total_count, 1);
    } else {
        panic!();
    }
}

#[test]
fn value_update() {
    let mut board = vec![];
    let mut root = Node::new(
        Color::Black,
        single(0.5),
        singles((0..362).map(|i| if i == 60 { 1.0 } else { 0.0 }).collect()),
    );

    // to setup a scenario where we have two parallel probes that will both update
    // the same node value we need to pre-expand a node.
    let other_prior: Vec<Single> =
        singles((0..362).map(|i| if i == 61 || i == 62 { 0.5 } else { 0.0 }).collect());
    let trace = probe_once(&mut root, &mut board).unwrap();

    insert_once(&mut root, &trace, Color::Black, 0.9, other_prior.clone());
    assert!({
        let value = value(&root, 60);

        value >= 0.8999 && value <= 0.9001
    });
    assert_eq!(count(&root, 60), 1);
    assert_eq!(root.total_count, 1);
    assert_eq!(vcount(&root, 60), 0);
    assert_eq!(root.vtotal_count, 0);

    // two parallel probes in the same sub-tree.
    let trace_1 = probe_once(&mut root, &mut vec![]).unwrap();
    let trace_2 = probe_once(&mut root, &mut vec![]).unwrap();

    assert_eq!(trace_1[0].1, 60);
    assert_eq!(trace_2[0].1, 60);
    assert!(trace_1[1].1 == 61 || trace_2[1].1 == 61);
    assert!(trace_1[1].1 == 62 || trace_2[1].1 == 62);

    // the value of the root sub-tree should remain unchanged, but the virtual loss
    // should have increased.
    assert_eq!(value(&root, 60), 0.9);
    assert_eq!(count(&root, 60), 1);
    assert_eq!(root.total_count, 1);
    assert_eq!(vcount(&root, 60), 2 * VLOSS_CNT);
    assert_eq!(root.vtotal_count, 2 * VLOSS_CNT);

    // check update after the first probe is inserted
    insert_once(&mut root, &trace_1, Color::White, 0.2, other_prior.clone());

    assert_eq!(value(&root, 60), 0.85);
    assert_eq!(count(&root, 60), 2);
    assert_eq!(root.total_count, 2);
    assert_eq!(vcount(&root, 60), VLOSS_CNT);
    assert_eq!(root.vtotal_count, VLOSS_CNT);

    // check update after the second probe is inserted
    insert_once(&mut root, &trace_2, Color::White, 0.3, other_prior.clone());

    assert_eq!(value(&root, 60), 0.8);
    assert_eq!(count(&root, 60), 3);
    assert_eq!(root.total_count, 3);
    assert_eq!(vcount(&root, 60), 0);
    assert_eq!(root.vtotal_count, 0);
}

#[test]
fn probe_then_insert_restores_the_virtual_losses_at_every_depth() {
    let mut rng = seeded();
    let mut root = Node::new(Color::Black, single(0.5), get_prior_distribution(&mut rng, &[]));
    let mut deepest = 0;

    for n in 0..60 {
        let mut board = vec![];
        let trace = probe_once(&mut root, &mut board).unwrap();
        let stones = trace.iter().filter(|step| step.1 != 361).count();

        assert_eq!(board.len(), stones);
        assert_eq!(root.vtotal_count, VLOSS_CNT);
        assert_eq!(vcount(&root, trace[0].1), VLOSS_CNT);
        deepest = deepest.max(trace.len());

        let color = if trace.len() % 2 == 0 { Color::Black } else { Color::White };
        let prior = get_prior_distribution(&mut rng, &board);
        insert_once(&mut root, &trace, color, 0.4 + 0.003 * n as f32, prior);

        // every node on the way has no virtual loss left, and is as often visited as its
        // moves are in all
        let mut current = &root;
        for step in trace.iter() {
            assert_eq!(current.vtotal_count, 0);
            assert_eq!(current.color, step.0);
            assert_eq!(vcount(current, step.1), 0);
            assert_eq!(current.total_count, (0..362).map(|i| count(current, i)).sum::<i32>());
            current = current.with(step.1, |child: Child| child.ptr()).unwrap();
        }
        assert_eq!(current.total_count, 0);
    }

    assert_eq!(root.size(), 60);
    assert!(deepest > 1);
}

#[test]
fn a_failed_probe_changes_nothing() {
    // only one move has a score, so that the second probe finds it being expanded
    let prior: Vec<f32> =
        (0..362).map(|i| if i == 7 { 1.0 } else { std::f32::NEG_INFINITY }).collect();
    let mut root = Node::new(Color::Black, single(0.5), singles(prior.clone()));
    let trace = probe_once(&mut root, &mut vec![]).unwrap();
    insert_once(&mut root, &trace, Color::White, 0.5, singles(prior));

    let mut board = vec![];
    let trace = probe_once(&mut root, &mut board).unwrap();
    assert_eq!(trace, vec![(Color::Black, 7), (Color::White, 7)]);
    assert_eq!(
        board,
        vec![
            Placement { color: Color::Black, x: 7, y: 0 },
            Placement { color: Color::White, x: 7, y: 0 },
        ]
    );

    assert!(probe_once(&mut root, &mut vec![]).is_none());
    assert_eq!(root.vtotal_count, VLOSS_CNT);
    assert_eq!(vcount(&root, 7), VLOSS_CNT);
    assert_eq!(count(&root, 7), 1);
    let child = root.with(7, |child: Child| child.ptr()).unwrap();
    assert_eq!(child.vtotal_count, VLOSS_CNT);
    assert_eq!(vcount(child, 7), VLOSS_CNT);
}

#[test]
fn a_probe_without_any_score_fails() {
    let mut root =
        Node::new(Color::White, single(0.5), singles(vec![std::f32::NEG_INFINITY; 362]));
    let mut board = vec![];

    assert!(probe_once(&mut root, &mut board).is_none());
    assert_eq!(root.vtotal_count, 0);
    assert!(board.is_empty());
}

#[test]
fn two_passes_in_a_row_end_a_probe() {
    let pass: Vec<f32> = (0..362).map(|i| if i == 361 { 1.0 } else { 0.0 }).collect();
    let mut root = Node::new(Color::Black, single(0.5), singles(pass.clone()));

    let trace = probe_once(&mut root, &mut vec![]).unwrap();
    assert_eq!(trace, vec![(Color::Black, 361)]);
    insert_once(&mut root, &trace, Color::White, 0.5, singles(pass.clone()));
    let first = root.with(361, |child: Child| child.ptr()).unwrap();
    assert_eq!(first.pass_count, 1);

    // the second pass ends the game, whether or not there is a node below it
    let mut board = vec![];
    let trace = probe_once(&mut root, &mut board).unwrap();
    assert_eq!(trace, vec![(Color::Black, 361), (Color::White, 361)]);
    assert!(board.is_empty());
    insert_once(&mut root, &trace, Color::Black, 0.5, singles(pass.clone()));

    let trace = probe_once(&mut root, &mut vec![]).unwrap();
    assert_eq!(trace.len(), 2);
    insert_once(&mut root, &trace, Color::Black, 0.75, singles(pass));
    let first = root.with(361, |child: Child| child.ptr()).unwrap();
    let second = first.with(361, |child: Child| child.ptr()).unwrap();
    assert_eq!(second.pass_count, 2);
    assert_eq!(float(second.initial_value), 0.5);
    assert_eq!(count(first, 361), 2);
    assert_eq!(root.size(), 3);
}

#[test]
fn a_trace_has_to_lead_down_the_tree() {
    let root = Node::new(Color::Black, single(0.5), singles(vec![0.0; 362]));

    assert!(can_insert(&root, &vec![]));
    assert!(can_insert(&root, &vec![(Color::Black, 361)]));
    assert!(!can_insert(&root, &vec![(Color::Black, 362)]));
    assert!(!can_insert(&root, &vec![(Color::Black, 0), (Color::White, 1)]));

    let mut full = Node::new(Color::Black, single(0.5), singles(vec![0.0; 362]));
    full.total_count = std::i32::MAX;
    assert!(!can_insert(&full, &vec![(Color::Black, 0)]));
    let mut passed = Node::new(Color::Black, single(0.5), singles(vec![0.0; 362]));
    passed.pass_count = std::i16::MAX;
    assert!(can_insert(&passed, &vec![(Color::Black, 0)]));
    assert!(!can_insert(&passed, &vec![(Color::Black, 361)]));
}

#[test]
fn an_empty_trace_inserts_nothing() {
    let mut root = Node::new(Color::Black, single(0.5), singles(vec![0.0; 362]));
    insert_once(&mut root, &vec![], Color::White, 0.25, vec![]);

    assert_eq!(root.size(), 0);
    assert!((0..362).all(|i| count(&root, i) == 0));
}

#[test]
fn select_prefers_visited_moves_when_the_urgency_of_others_is_reduced() {
    let mut root = Node::new(Color::Black, single(0.5), singles(vec![0.0; 362]));
    insert_plain(&mut root, 9, Color::Black, 0.4, singles(vec![0.0; 362]));

    // without the reduction the first untouched move is worth more
    let mut plain = Node::new(Color::Black, single(0.5), singles(vec![0.0; 362]));
    insert_plain(&mut plain, 9, Color::Black, 0.4, singles(vec![0.0; 362]));
    assert_eq!(plain.select(false, VLOSS_CNT, &explore, &reduce), Some(0));

    // with it they are worth 0.28, and the visited move 0.4
    assert_eq!(root.select(true, VLOSS_CNT, &explore, &reduce), Some(9));
    assert_eq!(root.vtotal_count, VLOSS_CNT);
    assert_eq!(vcount(&root, 9), VLOSS_CNT);
}

#[test]
fn forward_gives_back_what_was_inserted() {
    let mut root = Node::new(Color::Black, single(0.5), singles(vec![0.0; 362]));
    let prior: Vec<f32> = (0..362).map(|i| i as f32).collect();
    insert_plain(&mut root, 40, Color::White, 0.3, singles(prior));

    let next = root.forward(40).unwrap();
    assert_eq!(next.color, Color::White);
    assert_eq!(float(next.initial_value), 0.3);
    assert_eq!(next.pass_count, 0);
    assert_eq!(next.size(), 0);
    assert_eq!(float(next.prior[17]), 17.0);
    assert_eq!(float(next.prior[362]), std::f32::NEG_INFINITY);
    let (value, index) = next.prior();
    assert_eq!((float(value), index), (361.0, 361));
}

#[test]
fn forward_to_a_move_without_a_node() {
    let mut root = Node::new(Color::Black, single(0.5), singles(vec![1.0; 362]));
    root.pass_count = 4;
    assert!(root.forward(3).is_none());

    let mut root = Node::new(Color::Black, single(0.5), singles(vec![1.0; 362]));
    root.pass_count = 4;
    let next = root.forward(361).unwrap();
    assert_eq!(next.color, Color::White);
    assert_eq!(next.pass_count, 5);
    assert_eq!(float(next.initial_value), 0.5);
    assert!((0..362).all(|i| float(next.prior[i]) == 0.0));
}

#[test]
fn the_largest_prior() {
    let mut prior = vec![0.25f32; 362];
    prior[50] = 0.75;
    prior[51] = 0.75;
    prior[52] = std::f32::NAN;
    let root = Node::new(Color::Black, single(0.5), singles(prior));
    let (value, index) = root.prior();
    assert_eq!((float(value), index), (0.75, 50));

    let none = Node::new(Color::Black, single(0.5), singles(vec![std::f32::NEG_INFINITY; 362]));
    let (value, index) = none.prior();
    assert_eq!((float(value), index), (std::f32::NEG_INFINITY, 361));
}

#[test]
fn a_disqualified_move_is_not_chosen() {
    let mut root = Node::new(Color::Black, single(0.5), singles(vec![0.1; 362]));
    insert_plain(&mut root, 5, Color::Black, 1.0, singles(vec![0.1; 362]));
    insert_plain(&mut root, 6, Color::Black, 0.9, singles(vec![0.1; 362]));
    root.disqualify(5);

    assert_eq!(count(&root, 5), 0);
    assert_eq!(value(&root, 5), std::f32::NEG_INFINITY);
    assert!(root.with(5, |child: Child| child.ptr()).is_some());
    assert_eq!(root.select(false, VLOSS_CNT, &explore, &reduce), Some(6));
    assert_eq!(root.most_visited().1, 6);
}

/// Whether each node, here and below, has as many virtual losses as its moves have in all.
fn is_accounted(node: &Node) -> bool {
    let vtotal: i32 = (0..362).map(|i| vcount(node, i)).sum();

    vtotal == node.vtotal_count
        && (0..362).all(|i| node.node_of(i).map(is_accounted).unwrap_or(true))
}

#[test]
fn virtual_losses_are_accounted_for_while_several_probes_are_under_way() {
    let mut rng = seeded();
    let mut root = Node::new(Color::Black, single(0.5), get_prior_distribution(&mut rng, &[]));

    for round in 0..12 {
        let mut traces: Vec<NodeTrace> = vec![];
        for _ in 0..4 {
            if let Some(trace) = probe_once(&mut root, &mut vec![]) {
                assert!(!traces.contains(&trace));
                traces.push(trace);
            }
            assert!(is_accounted(&root));
        }
        assert_eq!(root.vtotal_count, traces.len() as i32 * VLOSS_CNT);

        // the virtual losses do not depend on the order of the insertions
        if round % 2 == 0 {
            traces.reverse();
        }
        for trace in traces {
            let color = if trace.len() % 2 == 0 { Color::Black } else { Color::White };
            let prior = get_prior_distribution(&mut rng, &[]);
            insert_once(&mut root, &trace, color, 0.5, prior);
            assert!(is_accounted(&root));
        }
        assert_eq!(root.vtotal_count, 0);
    }
}
