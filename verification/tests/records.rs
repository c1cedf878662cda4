use tree_search::{
    insert, to_pretty, to_sgf, ChildMut, Color, GreedyPath, Node, Position, PrettyVertex, Single,
};

fn single(value: f32) -> Single {
    Single::from_bits(value.to_bits())
}

fn float(value: Single) -> f32 {
    f32::from_bits(value.to_bits())
}

fn coordinate(x: usize, y: usize) -> String {
    let letter = |i: usize| (b'a' + i as u8) as char;

    format!("{}{}", letter(x), letter(y))
}

fn explore(value: Single, prior: Single, n: i64, count: i64) -> Single {
    single(float(value) + float(prior) * ((1 + n) as f32).sqrt() / (1 + count) as f32)
}

fn number(value: Single, decimals: usize) -> String {
    format!("{:.*}", decimals, float(value))
}

fn percent(value: Single, width: usize, decimals: usize) -> String {
    format!("{:width$.*}", decimals, 100.0 * float(value), width = width)
}

fn accumulate(so_far: Single, count: i32, value: Single) -> Single {
    let weighted = count as f32 * float(value);

    if weighted.is_finite() { single(float(so_far) + weighted) } else { so_far }
}

fn mean(total: Single, n: i32) -> Single {
    single(float(total) / n as f32)
}

fn add(root: &mut Node, path: &[(Color, usize)], color: Color, value: f32) {
    let prior = (0..362).map(|i| single(if i == 361 { 0.125 } else { 0.25 })).collect();
    let complement = |value: Single| single(1.0 - float(value));
    let average = |prev: Single, value: Single, count: i32| {
        single(float(prev) + (float(value) - float(prev)) / count as f32)
    };

    insert(root, &path.to_vec(), color, single(value), prior, 0, &complement, &average);
}

/// Move 20 is visited twice, once on the way to a pass, and move 3 once.
fn tree() -> Node {
    let prior = (0..362).map(|i| single(if i == 361 { 0.125 } else { 0.25 })).collect();
    let mut root = Node::new(Color::Black, single(0.5), prior);
    add(&mut root, &[(Color::Black, 3)], Color::Black, 0.25);
    add(&mut root, &[(Color::Black, 20)], Color::White, 0.5);
    add(&mut root, &[(Color::Black, 20), (Color::White, 361)], Color::White, 0.25);
    root
}

fn empty_board() -> Position {
    Position { cells: vec![None; 361], komi: single(7.5) }
}

#[test]
fn a_game_record_without_meta_data() {
    let root = tree();
    let board = empty_board();
    let text = to_sgf(&root, &board, false, coordinate).render(&explore, &number);

    assert_eq!(
        text,
        "(;B[bb]C[prior 0.2500 value 0.6250 (visits 2 / total 3) uct 0.7917]\
         (;W[tt]C[prior 0.1250 value 0.2500 (visits 1 / total 1) uct 0.3384]))\
         (;B[da]C[prior 0.2500 value 0.2500 (visits 1 / total 3) uct 0.5000])"
    );
}

#[test]
fn a_game_record_with_meta_data() {
    let root = tree();
    let mut board = empty_board();
    board.cells[19] = Some(Color::White);
    board.cells[2] = Some(Color::Black);
    let text = to_sgf(&root, &board, true, coordinate).render(&explore, &number);

    assert_eq!(
        text,
        "(;GM[1]FF[4]SZ[19]RU[Chinese]KM[7.5]PL[B]AB[ca]AW[ab]LB[bb:1]LB[da:2]\
         (;B[bb]C[prior 0.2500 value 0.6250 (visits 2 / total 3) uct 0.7917]\
         (;W[tt]C[prior 0.1250 value 0.2500 (visits 1 / total 1) uct 0.3384]))\
         (;B[da]C[prior 0.2500 value 0.2500 (visits 1 / total 3) uct 0.5000]))"
    );
}

#[test]
fn the_record_of_an_unexplored_tree_is_empty() {
    let root = Node::new(Color::White, single(0.5), vec![single(0.0); 362]);
    let board = empty_board();

    assert_eq!(to_sgf(&root, &board, false, coordinate).render(&explore, &number), "");
    assert_eq!(
        to_sgf(&root, &board, true, coordinate).render(&explore, &number),
        "(;GM[1]FF[4]SZ[19]RU[Chinese]KM[7.5]PL[W])"
    );
}

#[test]
fn ten_moves_are_labelled() {
    let mut root = Node::new(Color::Black, single(0.5), vec![single(0.0); 362]);
    for i in 0..12 {
        add(&mut root, &[(Color::Black, i)], Color::White, 0.5);
    }
    let mut text = String::new();
    root.as_sgf(&mut text, true, &coordinate, &explore, &number);

    assert!(text.starts_with("LB[aa:1]LB[ba:2]LB[ca:3]"));
    assert!(text.contains("LB[ja:10](;B[aa]"));
    assert!(text.contains("(;B[la]"));
}

#[test]
fn names_of_moves() {
    let name = |inner: usize| PrettyVertex { inner }.render();

    assert_eq!(name(0), "a1");
    assert_eq!(name(7), "h1");
    assert_eq!(name(8), "j1");
    assert_eq!(name(18), "t1");
    assert_eq!(name(19), "a2");
    assert_eq!(name(360), "t19");
    assert_eq!(name(361), "pass");
}

#[test]
fn the_most_visited_path() {
    let root = tree();
    let mut path = GreedyPath { current: &root };

    assert_eq!(path.next(), Some(20));
    assert_eq!(path.next(), Some(361));
    assert_eq!(path.next(), None);
    assert_eq!(path.next(), None);
}

#[test]
fn a_tree_for_humans() {
    let root = tree();
    let text = to_pretty(&root).render(false, &accumulate, &mean, &percent);

    // the average is (2 * 0.625 + 0.25) / 3
    assert_eq!(
        text,
        "Nodes: 3, Win: 50.0%, PV: b2 pass\n\
         \u{20}  b2 ->       1 (W: 62.50%) (N: 25.00%) PV: b2 pass\n\
         \u{20}  d1 ->       0 (W: 25.00%) (N: 25.00%) PV: d1 \n"
    );
}

#[test]
fn only_ten_moves_are_listed_unless_all_are_asked_for() {
    let mut root = Node::new(Color::Black, single(0.5), vec![single(0.0); 362]);
    for i in 0..12 {
        add(&mut root, &[(Color::Black, 361 - i)], Color::White, 0.5);
    }
    let lines = |verbose: bool| {
        to_pretty(&root).render(verbose, &accumulate, &mean, &percent).lines().count()
    };

    assert_eq!(lines(false), 11);
    assert_eq!(lines(true), 13);
    let text = to_pretty(&root).render(true, &accumulate, &mean, &percent);
    assert!(text.contains(" pass ->       0 (W: 50.00%) (N:  0.00%) PV: pass \n"));
}

#[test]
fn a_visited_move_needs_no_node_to_be_recorded() {
    let mut root = Node::new(Color::Black, single(0.5), vec![single(0.0); 362]);
    root.total_count = 3;
    root.with_mut(361, |mut child: ChildMut| {
        child.set_count(2);
        child.set_value(single(0.25));
    });
    root.with_mut(0, |mut child: ChildMut| {
        child.set_count(1);
        child.set_value(single(0.75));
    });
    let mut text = String::new();
    root.as_sgf(&mut text, true, &coordinate, &explore, &number);

    assert_eq!(
        text,
        "LB[aa:2]\
         (;B[tt]C[prior 0.0000 value 0.2500 (visits 2 / total 3) uct 0.2500])\
         (;B[aa]C[prior 0.0000 value 0.7500 (visits 1 / total 3) uct 0.7500])"
    );
}
