use maze_gen::generator::{generate, Traversal};
use maze_gen::grid::Maze;
use maze_gen::node::{Node, Wall};
use rand::rngs::StdRng;
use rand::SeedableRng;

fn open_pairs(m: &Maze) -> usize {
    let mut n = 0;
    for y in 0..m.height() {
        for x in 0..m.width() {
            let c = m.get(x, y);
            if c.east == Wall::Down {
                n += 1;
            }
            if c.south == Wall::Down {
                n += 1;
            }
        }
    }
    n
}

fn visited_cells(m: &Maze) -> usize {
    let mut n = 0;
    for y in 0..m.height() {
        for x in 0..m.width() {
            if m.get(x, y).visited {
                n += 1;
            }
        }
    }
    n
}

fn open_neighbors(m: &Maze, x: usize, y: usize) -> Vec<(usize, usize)> {
    let c = m.get(x, y);
    let mut r = vec![];
    if c.north == Wall::Down {
        r.push((x, y - 1));
    }
    if c.south == Wall::Down {
        r.push((x, y + 1));
    }
    if c.west == Wall::Down {
        r.push((x - 1, y));
    }
    if c.east == Wall::Down {
        r.push((x + 1, y));
    }
    r
}

fn reachable_count(m: &Maze, root: (usize, usize)) -> usize {
    let w = m.width();
    let mut seen = vec![false; w * m.height()];
    let mut todo = vec![root];
    seen[root.0 + root.1 * w] = true;
    let mut n = 0;
    while let Some((x, y)) = todo.pop() {
        n += 1;
        for (a, b) in open_neighbors(m, x, y) {
            if !seen[a + b * w] {
                seen[a + b * w] = true;
                todo.push((a, b));
            }
        }
    }
    n
}

fn walls_agree(m: &Maze) -> bool {
    for y in 0..m.height() {
        for x in 0..m.width() {
            let c = m.get(x, y);
            if x + 1 < m.width() && c.east != m.get(x + 1, y).west {
                return false;
            }
            if y + 1 < m.height() && c.south != m.get(x, y + 1).north {
                return false;
            }
        }
    }
    true
}

fn build(w: usize, h: usize, seed: u64) -> (Maze, usize) {
    let mut m = Maze::new(w, h);
    let mut rng = StdRng::seed_from_u64(seed);
    let steps = generate(&mut m, (0, 0), &mut rng);
    (m, steps)
}

fn same_cells(a: &Maze, b: &Maze) -> bool {
    for y in 0..a.height() {
        for x in 0..a.width() {
            if a.get(x, y) != b.get(x, y) {
                return false;
            }
        }
    }
    true
}

#[test]
fn new_node_is_closed_and_unvisited() {
    let n = Node::new();
    assert!(!n.visited);
    assert_eq!(n.north, Wall::Up);
    assert_eq!(n.east, Wall::Up);
    assert_eq!(n.south, Wall::Up);
    assert_eq!(n.west, Wall::Up);
}

#[test]
fn new_maze_is_fresh() {
    let m = Maze::new(4, 3);
    assert_eq!(m.width(), 4);
    assert_eq!(m.height(), 3);
    for y in 0..3 {
        for x in 0..4 {
            assert_eq!(m.get(x, y), Node::new());
        }
    }
}

#[test]
fn neighbor_counts_by_position() {
    let m = Maze::new(4, 3);
    assert_eq!(m.get_neighbors(0, 0).len(), 2);
    assert_eq!(m.get_neighbors(3, 0).len(), 2);
    assert_eq!(m.get_neighbors(0, 2).len(), 2);
    assert_eq!(m.get_neighbors(3, 2).len(), 2);
    assert_eq!(m.get_neighbors(1, 0).len(), 3);
    assert_eq!(m.get_neighbors(0, 1).len(), 3);
    assert_eq!(m.get_neighbors(3, 1).len(), 3);
    assert_eq!(m.get_neighbors(2, 2).len(), 3);
    assert_eq!(m.get_neighbors(1, 1).len(), 4);
    assert_eq!(m.get_neighbors(2, 1).len(), 4);
}

#[test]
fn one_by_one_cell_has_no_neighbors() {
    let m = Maze::new(1, 1);
    assert!(m.get_neighbors(0, 0).is_empty());
}

#[test]
fn neighbors_are_sorted() {
    let m = Maze::new(3, 3);
    assert_eq!(m.get_neighbors(1, 1), vec![(0, 1), (1, 0), (1, 2), (2, 1)]);
    assert_eq!(m.get_neighbors(0, 0), vec![(0, 1), (1, 0)]);
    assert_eq!(m.get_neighbors(2, 2), vec![(1, 2), (2, 1)]);
}

#[test]
fn single_row_neighbors_are_east_and_west() {
    let m = Maze::new(5, 1);
    assert_eq!(m.get_neighbors(2, 0), vec![(1, 0), (3, 0)]);
    assert_eq!(m.get_neighbors(0, 0), vec![(1, 0)]);
    assert_eq!(m.get_neighbors(4, 0), vec![(3, 0)]);
}

#[test]
fn carve_opens_both_sides() {
    let mut m = Maze::new(3, 3);
    m.carve((1, 1), (2, 1));
    assert_eq!(m.get(1, 1).east, Wall::Down);
    assert_eq!(m.get(2, 1).west, Wall::Down);
    m.carve((1, 1), (1, 0));
    assert_eq!(m.get(1, 1).north, Wall::Down);
    assert_eq!(m.get(1, 0).south, Wall::Down);
    assert_eq!(m.get(1, 1).west, Wall::Up);
    assert_eq!(m.get(1, 1).south, Wall::Up);
    assert!(walls_agree(&m));
    assert_eq!(open_pairs(&m), 2);
}

#[test]
fn unvisited_neighbors_skip_visited_cells() {
    let mut m = Maze::new(3, 3);
    m.mark_visited((0, 1));
    assert!(m.get(0, 1).visited);
    assert_eq!(m.unvisited_neighbors(1, 1), vec![(1, 0), (1, 2), (2, 1)]);
}

#[test]
fn three_by_three_is_a_spanning_tree() {
    let (m, steps) = build(3, 3, 7);
    assert_eq!(visited_cells(&m), 9);
    assert_eq!(open_pairs(&m), 8);
    for y in 0..3 {
        for x in 0..3 {
            assert!(!open_neighbors(&m, x, y).is_empty());
        }
    }
    assert_eq!(reachable_count(&m, (0, 0)), 9);
    assert_eq!(steps, 17);
}

#[test]
fn one_by_one_is_done_at_once() {
    let mut m = Maze::new(1, 1);
    let mut rng = StdRng::seed_from_u64(1);
    let steps = generate(&mut m, (0, 0), &mut rng);
    assert_eq!(steps, 1);
    let c = m.get(0, 0);
    assert!(c.visited);
    assert_eq!(c.north, Wall::Up);
    assert_eq!(c.east, Wall::Up);
    assert_eq!(c.south, Wall::Up);
    assert_eq!(c.west, Wall::Up);
}

#[test]
fn single_row_is_a_line() {
    let (m, _) = build(5, 1, 3);
    for x in 0..5 {
        let c = m.get(x, 0);
        assert!(c.visited);
        assert_eq!(c.north, Wall::Up);
        assert_eq!(c.south, Wall::Up);
        assert_eq!(c.west == Wall::Down, x > 0);
        assert_eq!(c.east == Wall::Down, x < 4);
    }
}

#[test]
fn single_column_is_a_line() {
    let (m, _) = build(1, 4, 5);
    for y in 0..4 {
        let c = m.get(0, y);
        assert_eq!(c.north == Wall::Down, y > 0);
        assert_eq!(c.south == Wall::Down, y < 3);
        assert_eq!(c.east, Wall::Up);
        assert_eq!(c.west, Wall::Up);
    }
}

#[test]
fn larger_mazes_are_spanning_trees() {
    for (w, h, seed) in [(10, 10, 1u64), (7, 5, 2), (2, 9, 3), (20, 3, 4)] {
        let (m, steps) = build(w, h, seed);
        assert_eq!(visited_cells(&m), w * h);
        assert_eq!(open_pairs(&m), w * h - 1);
        assert_eq!(reachable_count(&m, (0, 0)), w * h);
        assert!(walls_agree(&m));
        assert_eq!(steps, 2 * w * h - 1);
    }
}

#[test]
fn border_walls_stay_closed() {
    let (m, _) = build(6, 4, 11);
    for x in 0..6 {
        assert_eq!(m.get(x, 0).north, Wall::Up);
        assert_eq!(m.get(x, 3).south, Wall::Up);
    }
    for y in 0..4 {
        assert_eq!(m.get(0, y).west, Wall::Up);
        assert_eq!(m.get(5, y).east, Wall::Up);
    }
}

#[test]
fn same_seed_gives_same_maze() {
    let (a, _) = build(8, 6, 42);
    let (b, _) = build(8, 6, 42);
    assert!(same_cells(&a, &b));
}

#[test]
fn same_picks_give_same_maze() {
    let run = || {
        let mut m = Maze::new(4, 4);
        let mut t = Traversal::start(&mut m, (0, 0));
        let mut done = t.is_done();
        let mut turn = 0usize;
        while !done {
            let c = t.candidates(&m);
            let pick = if c.is_empty() { None } else { Some(c[turn % c.len()]) };
            done = t.step(&mut m, pick);
            turn += 1;
        }
        (m, turn)
    };
    let (a, ta) = run();
    let (b, tb) = run();
    assert!(same_cells(&a, &b));
    assert_eq!(ta, tb);
    assert_eq!(ta, 31);
    assert_eq!(open_pairs(&a), 15);
}

#[test]
fn traversal_step_by_hand() {
    let mut m = Maze::new(2, 2);
    let mut t = Traversal::start(&mut m, (0, 0));
    assert!(m.get(0, 0).visited);
    assert!(!t.is_done());
    assert_eq!(t.candidates(&m), vec![(0, 1), (1, 0)]);
    assert!(!t.step(&mut m, Some((1, 0))));
    assert_eq!(m.get(0, 0).east, Wall::Down);
    assert_eq!(m.get(1, 0).west, Wall::Down);
    assert!(m.get(1, 0).visited);
    assert_eq!(t.candidates(&m), vec![(1, 1)]);
    assert!(!t.step(&mut m, Some((1, 1))));
    assert_eq!(t.candidates(&m), vec![(0, 1)]);
    assert!(!t.step(&mut m, Some((0, 1))));
    assert_eq!(t.candidates(&m), Vec::<(usize, usize)>::new());
    assert!(!t.step(&mut m, None));
    assert!(!t.step(&mut m, None));
    assert!(!t.step(&mut m, None));
    assert!(t.step(&mut m, None));
    assert!(t.is_done());
    assert_eq!(open_pairs(&m), 3);
    assert_eq!(m.get(0, 0).south, Wall::Up);
}

#[test]
fn root_other_than_corner() {
    let mut m = Maze::new(5, 5);
    let mut rng = StdRng::seed_from_u64(9);
    let steps = generate(&mut m, (2, 3), &mut rng);
    assert_eq!(steps, 49);
    assert_eq!(visited_cells(&m), 25);
    assert_eq!(open_pairs(&m), 24);
    assert_eq!(reachable_count(&m, (2, 3)), 25);
}
