use vstd::prelude::*;
use rand::rngs::StdRng;
use crate::grid::{
    adjacent, lemma_count_le, lemma_count_update, lemma_count_zero, lemma_count_full,
    lemma_index, lemma_neighbors_exact, neighbors_of, open_count, open_toward, open_weight,
    unvisited_neighbors_of, visited_count, visited_weight, Coord, GridView, Maze,
};
use crate::node::Node;
use crate::random::choose_one;

verus! {

/// `chosen` is an acceptable pick among `cands`: nothing when there is no candidate, otherwise
/// one of them.
pub open spec fn valid_choice(cands: Seq<Coord>, chosen: Option<Coord>) -> bool {
    match chosen {
        None => cands.len() == 0,
        Some(n) => cands.contains(n),
    }
}

/// One traversal step from the grid `v` and the stack `stack`, given the pick made among the
/// unvisited neighbors of the cell on top: with a pick, the passage to it is opened, it is marked
/// visited and pushed above the current cell; without one, the current cell is dropped.
pub open spec fn next_state(v: GridView, stack: Seq<Coord>, chosen: Option<Coord>) -> (
    GridView,
    Seq<Coord>,
) {
    match chosen {
        Some(n) => (v.carved(stack.last(), n).marked(n), stack.push(n)),
        None => (v, stack.drop_last()),
    }
}

/// `p` is a walk through the grid that crosses only open walls.
pub open spec fn is_path(v: GridView, p: Seq<Coord>) -> bool {
    &&& p.len() > 0
    &&& forall|i: int| 0 <= i < p.len() ==> v.in_bounds(#[trigger] p[i])
    &&& forall|i: int| 0 <= i < p.len() - 1 ==> #[trigger] v.is_open(p[i], p[i + 1])
}

/// `b` can be reached from `a` by crossing open walls only.
pub open spec fn reachable(v: GridView, a: Coord, b: Coord) -> bool {
    exists|p: Seq<Coord>| #[trigger] is_path(v, p) && p[0] == a && p.last() == b
}

/// The grid and stack after taking the picks of `picks` in order, one per step, from `v` and
/// `stack`.
pub open spec fn replay(v: GridView, stack: Seq<Coord>, picks: Seq<Option<Coord>>) -> (
    GridView,
    Seq<Coord>,
)
    decreases picks.len(),
{
    if picks.len() == 0 {
        (v, stack)
    } else {
        let s = replay(v, stack, picks.drop_last());
        next_state(s.0, s.1, picks.last())
    }
}

/// Two traversals of fresh grids of the same size from the same root, given the same picks,
/// leave the same cells and in particular the same open walls.
pub proof fn lemma_same_picks_same_maze(
    v1: GridView,
    v2: GridView,
    root: Coord,
    picks: Seq<Option<Coord>>,
)
    requires
        v1.wf(),
        v2.wf(),
        v1.is_fresh(),
        v2.is_fresh(),
        v1.width == v2.width,
        v1.height == v2.height,
    ensures
        replay(v1.marked(root), seq![root], picks) == replay(v2.marked(root), seq![root], picks),
        forall|a: Coord, b: Coord|
            #[trigger] replay(v1.marked(root), seq![root], picks).0.is_open(a, b) <==> replay(
                v2.marked(root),
                seq![root],
                picks,
            ).0.is_open(a, b),
{
    assert(v1.cells =~= v2.cells);
    assert(v1 == v2);
}

/// What holds of the grid and the stack between any two steps of a traversal from `root`.
pub open spec fn traversal_inv(v: GridView, root: Coord, stack: Seq<Coord>) -> bool {
    &&& v.wf()
    &&& v.in_bounds(root)
    &&& v.at(root).visited
    &&& forall|k: int|
        0 <= k < stack.len() ==> v.in_bounds(#[trigger] stack[k]) && v.at(stack[k]).visited
    &&& forall|c: Coord|
        v.in_bounds(c) && !(#[trigger] v.at(c)).visited ==> v.at(c) == Node::closed()
    &&& forall|c: Coord, d: Coord|
        v.in_bounds(c) && v.in_bounds(d) && adjacent(c, d) && (#[trigger] v.at(c)).visited
            && !stack.contains(c) ==> (#[trigger] v.at(d)).visited
    &&& forall|c: Coord| v.in_bounds(c) && (#[trigger] v.at(c)).visited ==> reachable(v, root, c)
    &&& open_count(v.cells) + 1 == visited_count(v.cells)
    &&& visited_count(v.cells) <= v.cells.len()
    &&& stack.len() <= visited_count(v.cells)
}

/// What a filter keeps was in the sequence.
proof fn lemma_filter_within(s: Seq<Coord>, pred: spec_fn(Coord) -> bool, x: Coord)
    requires
        s.filter(pred).contains(x),
    ensures
        s.contains(x),
    decreases s.len(),
{
    reveal(Seq::filter);
    if s.len() > 0 {
        let t = s.drop_last();
        if x == s.last() {
            assert(s[s.len() - 1] == x);
        } else {
            let f = s.filter(pred);
            let i = choose|i: int| 0 <= i < f.len() && f[i] == x;
            if pred(s.last()) {
                assert(t.filter(pred)[i] == x);
            }
            assert(t.filter(pred).contains(x));
            lemma_filter_within(t, pred, x);
            let j = choose|j: int| 0 <= j < t.len() && t[j] == x;
            assert(s[j] == x);
        }
    }
}

/// The cells after opening the passage from `a` to `b` and marking `b` visited.
proof fn lemma_carve_mark_at(v: GridView, a: Coord, b: Coord)
    requires
        v.wf(),
        v.in_bounds(a),
        v.in_bounds(b),
        adjacent(a, b),
    ensures
        ({
            let w = v.carved(a, b).marked(b);
            &&& w.width == v.width
            &&& w.height == v.height
            &&& w.cells.len() == v.cells.len()
            &&& w.at(a) == open_toward(v.at(a), a, b)
            &&& w.at(b) == (Node { visited: true, ..open_toward(v.at(b), b, a) })
            &&& forall|c: Coord|
                v.in_bounds(c) && c != a && c != b ==> #[trigger] w.at(c) == v.at(c)
        }),
{
    let w = v.carved(a, b).marked(b);
    lemma_index(v);
    assert(v.index(a) != v.index(b));
    assert forall|c: Coord| v.in_bounds(c) && c != a && c != b implies #[trigger] w.at(c) == v.at(
        c,
    ) by {
        assert(v.index(c) != v.index(a));
        assert(v.index(c) != v.index(b));
    }
}

/// Opening a passage and marking a cell closes no passage that was open, so walks survive.
proof fn lemma_path_kept(v: GridView, a: Coord, b: Coord, p: Seq<Coord>)
    requires
        v.wf(),
        v.in_bounds(a),
        v.in_bounds(b),
        adjacent(a, b),
        is_path(v, p),
    ensures
        is_path(v.carved(a, b).marked(b), p),
{
    let w = v.carved(a, b).marked(b);
    lemma_carve_mark_at(v, a, b);
    assert forall|i: int| 0 <= i < p.len() - 1 implies #[trigger] w.is_open(p[i], p[i + 1]) by {
        assert(v.is_open(p[i], p[i + 1]));
        assert(v.in_bounds(p[i]));
    }
}

/// A step keeps the traversal invariant, and a pick adds one visited cell.
proof fn lemma_step(v: GridView, root: Coord, stack: Seq<Coord>, chosen: Option<Coord>)
    requires
        traversal_inv(v, root, stack),
        stack.len() > 0,
        valid_choice(unvisited_neighbors_of(v, stack.last()), chosen),
    ensures
        traversal_inv(next_state(v, stack, chosen).0, root, next_state(v, stack, chosen).1),
        next_state(v, stack, chosen).0.width == v.width,
        next_state(v, stack, chosen).0.height == v.height,
        visited_count(next_state(v, stack, chosen).0.cells) == visited_count(v.cells) + if chosen
            is Some {
            1int
        } else {
            0int
        },
{
    let cur = stack.last();
    assert(stack[stack.len() - 1] == cur);
    lemma_neighbors_exact(v.width, v.height, cur);
    let nbs = neighbors_of(v.width, v.height, cur);
    let pred = |d: Coord| !v.at(d).visited;
    broadcast use vstd::seq_lib::group_filter_ensures;

    match chosen {
        Some(n) => {
            let f = nbs.filter(pred);
            let i = choose|i: int| 0 <= i < f.len() && f[i] == n;
            assert(pred(f[i]));
            lemma_filter_within(nbs, pred, n);
            assert(v.in_bounds(n) && adjacent(cur, n));
            assert(!v.at(n).visited);
            let w = v.carved(cur, n).marked(n);
            let s2 = stack.push(n);
            lemma_carve_mark_at(v, cur, n);
            assert(w.wf()) by {
                assert(v.carved(cur, n).wf()) by {
                    crate::grid::lemma_carved_wf(v, cur, n);
                }
                crate::grid::lemma_marked_wf(v.carved(cur, n), n);
            }
            assert(v.wall_between(cur, n) == v.wall_between(n, cur));
            lemma_index(v);
            let c0 = v.cells;
            let ia = v.index(cur);
            let ib = v.index(n);
            let c1 = c0.update(ia, open_toward(v.at(cur), cur, n));
            let c2 = c1.update(ib, open_toward(v.at(n), n, cur));
            let c3 = c2.update(ib, Node { visited: true, ..open_toward(v.at(n), n, cur) });
            assert(c2[ib] == open_toward(v.at(n), n, cur));
            assert(c1[ib] == v.at(n));
            assert(w.cells == c3);
            lemma_count_update(c0, ia, open_toward(v.at(cur), cur, n), open_weight());
            lemma_count_update(c1, ib, open_toward(v.at(n), n, cur), open_weight());
            lemma_count_update(
                c2,
                ib,
                Node { visited: true, ..open_toward(v.at(n), n, cur) },
                open_weight(),
            );
            lemma_count_update(c0, ia, open_toward(v.at(cur), cur, n), visited_weight());
            lemma_count_update(c1, ib, open_toward(v.at(n), n, cur), visited_weight());
            lemma_count_update(
                c2,
                ib,
                Node { visited: true, ..open_toward(v.at(n), n, cur) },
                visited_weight(),
            );
            assert(open_count(w.cells) == open_count(v.cells) + 1);
            assert(visited_count(w.cells) == visited_count(v.cells) + 1);
            lemma_count_le(w.cells, visited_weight());
            assert forall|c: Coord| w.in_bounds(c) && (#[trigger] w.at(c)).visited implies reachable(
                w,
                root,
                c,
            ) by {
                if c == n {
                    assert(v.at(cur).visited);
                    assert(reachable(v, root, cur));
                    let p = choose|p: Seq<Coord>| #[trigger] is_path(v, p) && p[0] == root && p.last()
                        == cur;
                    lemma_path_kept(v, cur, n, p);
                    let q = p.push(n);
                    assert(w.is_open(cur, n));
                    assert forall|i: int| 0 <= i < q.len() - 1 implies #[trigger] w.is_open(
                        q[i],
                        q[i + 1],
                    ) by {
                        if i < p.len() - 1 {
                            assert(q[i] == p[i] && q[i + 1] == p[i + 1]);
                        } else {
                            assert(q[i] == cur && q[i + 1] == n);
                        }
                    }
                    assert forall|i: int| 0 <= i < q.len() implies w.in_bounds(#[trigger] q[i]) by {
                        if i < p.len() {
                            assert(q[i] == p[i]);
                        }
                    }
                    assert(is_path(w, q));
                } else {
                    if c != cur {
                        assert(w.at(c) == v.at(c));
                    }
                    assert(v.at(c).visited);
                    let p = choose|p: Seq<Coord>| #[trigger] is_path(v, p) && p[0] == root && p.last()
                        == c;
                    lemma_path_kept(v, cur, n, p);
                    assert(is_path(w, p));
                }
            }
            assert forall|k: int| 0 <= k < s2.len() implies w.in_bounds(#[trigger] s2[k])
                && w.at(s2[k]).visited by {
                if k < stack.len() {
                    assert(stack[k] == s2[k]);
                }
            }
            assert forall|c: Coord| w.in_bounds(c) && !(#[trigger] w.at(c)).visited implies w.at(c)
                == Node::closed() by {
                assert(c != n && c != cur);
            }
            assert forall|c: Coord, d: Coord|
                w.in_bounds(c) && w.in_bounds(d) && adjacent(c, d) && (#[trigger] w.at(c)).visited
                    && !s2.contains(c) implies (#[trigger] w.at(d)).visited by {
                assert(s2[stack.len() as int] == n);
                assert(c != n);
                if c == cur {
                    assert(s2[stack.len() - 1] == cur);
                }
                assert(v.at(c).visited);
                if !stack.contains(c) {
                    assert(v.at(d).visited);
                } else {
                    let k = choose|k: int| 0 <= k < stack.len() && stack[k] == c;
                    assert(s2[k] == c);
                }
                if d != cur && d != n {
                    assert(w.at(d) == v.at(d));
                }
            }
        },
        None => {
            let s2 = stack.drop_last();
            assert forall|k: int| 0 <= k < s2.len() implies v.in_bounds(#[trigger] s2[k])
                && v.at(s2[k]).visited by {
                assert(stack[k] == s2[k]);
            }
            assert forall|c: Coord, d: Coord|
                v.in_bounds(c) && v.in_bounds(d) && adjacent(c, d) && (#[trigger] v.at(c)).visited
                    && !s2.contains(c) implies (#[trigger] v.at(d)).visited by {
                if c == cur {
                    assert(nbs.contains(d));
                    if !v.at(d).visited {
                        assert(pred(d));
                        assert(nbs.filter(pred).contains(d));
                    }
                } else if stack.contains(c) {
                    let k = choose|k: int| 0 <= k < stack.len() && stack[k] == c;
                    assert(k != stack.len() - 1);
                    assert(s2[k] == c);
                }
            }
        },
    }
}

/// Taxicab distance between two positions.
pub open spec fn distance(a: Coord, b: Coord) -> nat {
    (if a.0 >= b.0 { a.0 - b.0 } else { b.0 - a.0 }) as nat + (if a.1 >= b.1 {
        a.1 - b.1
    } else {
        b.1 - a.1
    }) as nat
}

/// In a grid where visiting spreads to every adjacent cell, a visited root makes every cell
/// visited.
proof fn lemma_spread_visits(v: GridView, root: Coord, c: Coord)
    requires
        v.wf(),
        v.in_bounds(root),
        v.at(root).visited,
        v.in_bounds(c),
        forall|a: Coord, b: Coord|
            v.in_bounds(a) && v.in_bounds(b) && adjacent(a, b) && (#[trigger] v.at(a)).visited
                ==> (#[trigger] v.at(b)).visited,
    ensures
        v.at(c).visited,
    decreases distance(c, root),
{
    if c != root {
        let d: Coord = if c.0 > root.0 {
            ((c.0 - 1) as usize, c.1)
        } else if c.0 < root.0 {
            ((c.0 + 1) as usize, c.1)
        } else if c.1 > root.1 {
            (c.0, (c.1 - 1) as usize)
        } else {
            (c.0, (c.1 + 1) as usize)
        };
        lemma_spread_visits(v, root, d);
        assert(v.at(d).visited);
    }
}

/// A randomized depth-first traversal in progress: the stack holds the path from the root to
/// the active cell.
pub struct Traversal {
    stack: Vec<Coord>,
    root: Ghost<Coord>,
}

impl View for Traversal {
    type V = Seq<Coord>;

    closed spec fn view(&self) -> Seq<Coord> {
        self.stack@
    }
}

impl Traversal {
    /// The cell the traversal started from.
    pub closed spec fn root(&self) -> Coord {
        self.root@
    }

    /// Starts a traversal of a fresh grid at `root`, which is marked visited and pushed.
    pub fn start(maze: &mut Maze, root: Coord) -> (t: Traversal)
        requires
            old(maze).wf(),
            old(maze)@.is_fresh(),
            old(maze)@.in_bounds(root),
        ensures
            final(maze)@ == old(maze)@.marked(root),
            t@ == seq![root],
            t.root() == root,
            traversal_inv(final(maze)@, root, t@),
            visited_count(final(maze)@.cells) == 1,
    {
        let ghost v0 = maze@;
        maze.mark_visited(root);
        let mut stack: Vec<Coord> = Vec::new();
        stack.push(root);
        proof {
            let v = maze@;
            lemma_index(v0);
            let i = v0.index(root);
            assert(0 <= i < v0.cells.len());
            assert(v.at(root).visited);
            assert forall|c: Coord| v.in_bounds(c) && c != root implies #[trigger] v.at(c) == Node::closed() by {
                assert(v0.index(c) != i);
                assert(v0.cells[v0.index(c)] == Node::closed());
            }
            assert(v0.cells[i] == Node::closed());
            assert forall|j: int| 0 <= j < v0.cells.len() implies #[trigger] (open_weight())(v0.cells[j]) == 0 by {
                assert(v0.cells[j] == Node::closed());
            }
            assert forall|j: int| 0 <= j < v0.cells.len() implies #[trigger] (visited_weight())(v0.cells[j]) == 0 by {
                assert(v0.cells[j] == Node::closed());
            }
            lemma_count_zero(v0.cells, open_weight());
            lemma_count_zero(v0.cells, visited_weight());
            let n = Node { visited: true, ..v0.at(root) };
            lemma_count_update(v0.cells, i, n, open_weight());
            lemma_count_update(v0.cells, i, n, visited_weight());
            assert(v.cells == v0.cells.update(i, n));
            lemma_count_le(v.cells, visited_weight());
            assert(stack@ =~= seq![root]);
            assert forall|c: Coord| v.in_bounds(c) && (#[trigger] v.at(c)).visited implies reachable(
                v,
                root,
                c,
            ) by {
                let p = seq![root];
                assert(is_path(v, p));
            }
            assert forall|c: Coord, d: Coord|
                v.in_bounds(c) && v.in_bounds(d) && adjacent(c, d) && (#[trigger] v.at(c)).visited
                    && !stack@.contains(c) implies (#[trigger] v.at(d)).visited by {
                assert(stack@[0] == root);
            }
        }
        Traversal { stack, root: Ghost(root) }
    }

    /// Whether the stack is empty, so that the traversal is over.
    pub fn is_done(&self) -> (r: bool)
        ensures
            r == (self@.len() == 0),
    {
        self.stack.len() == 0
    }

    /// The unvisited neighbors of the active cell, the candidates for the next pick.
    pub fn candidates(&self, maze: &Maze) -> (r: Vec<Coord>)
        requires
            traversal_inv(maze@, self.root(), self@),
            self@.len() > 0,
        ensures
            r@ == unvisited_neighbors_of(maze@, self@.last()),
    {
        let top = self.stack[self.stack.len() - 1];
        assert(self@[self@.len() - 1] == top);
        maze.unvisited_neighbors(top.0, top.1)
    }

    /// Takes one step: pops the active cell and, when `chosen` names one of its unvisited
    /// neighbors, opens the passage to it, marks it visited and pushes both cells back. Returns
    /// whether the traversal is over.
    pub fn step(&mut self, maze: &mut Maze, chosen: Option<Coord>) -> (done: bool)
        requires
            traversal_inv(old(maze)@, old(self).root(), old(self)@),
            old(self)@.len() > 0,
            valid_choice(unvisited_neighbors_of(old(maze)@, old(self)@.last()), chosen),
        ensures
            (final(maze)@, final(self)@) == next_state(old(maze)@, old(self)@, chosen),
            final(self).root() == old(self).root(),
            traversal_inv(final(maze)@, final(self).root(), final(self)@),
            done == (final(self)@.len() == 0),
            visited_count(final(maze)@.cells) == visited_count(old(maze)@.cells) + if chosen
                is Some {
                1int
            } else {
                0int
            },
    {
        let ghost v0 = maze@;
        let ghost s0 = self@;
        proof {
            lemma_step(v0, self.root(), s0, chosen);
        }
        let cur = self.stack.pop().unwrap();
        assert(cur == s0.last());
        match chosen {
            Some(n) => {
                proof {
                    lemma_neighbors_exact(v0.width, v0.height, cur);
                    let nbs = neighbors_of(v0.width, v0.height, cur);
                    lemma_filter_within(nbs, |d: Coord| !v0.at(d).visited, n);
                }
                maze.carve(cur, n);
                maze.mark_visited(n);
                self.stack.push(cur);
                self.stack.push(n);
                assert(self@ =~= s0.push(n));
            },
            None => {
                assert(self@ =~= s0.drop_last());
            },
        }
        self.stack.len() == 0
    }
}

/// Carves a perfect maze into the fresh grid `maze` by a randomized depth-first traversal from
/// `root`, drawing each pick from `rng`. Returns the number of steps taken.
pub fn generate(maze: &mut Maze, root: Coord, rng: &mut StdRng) -> (steps: usize)
    requires
        old(maze).wf(),
        old(maze)@.is_fresh(),
        old(maze)@.in_bounds(root),
        2 * old(maze)@.width * old(maze)@.height <= usize::MAX,
    ensures
        final(maze).wf(),
        final(maze)@.width == old(maze)@.width,
        final(maze)@.height == old(maze)@.height,
        forall|c: Coord| final(maze)@.in_bounds(c) ==> (#[trigger] final(maze)@.at(c)).visited,
        forall|c: Coord| final(maze)@.in_bounds(c) ==> #[trigger] reachable(final(maze)@, root, c),
        visited_count(final(maze)@.cells) == old(maze)@.width * old(maze)@.height,
        open_count(final(maze)@.cells) + 1 == old(maze)@.width * old(maze)@.height,
        steps == 2 * old(maze)@.width * old(maze)@.height - 1,
{
    let ghost w = maze@.width;
    let ghost h = maze@.height;
    let mut t = Traversal::start(maze, root);
    let mut steps: usize = 0;
    let mut done = false;
    while !done
        invariant
            traversal_inv(maze@, root, t@),
            t.root() == root,
            maze@.width == w,
            maze@.height == h,
            done == (t@.len() == 0),
            2 * w * h <= usize::MAX,
            steps + t@.len() + 1 == 2 * visited_count(maze@.cells),
        decreases 2 * (maze@.cells.len() - visited_count(maze@.cells)) + t@.len(),
    {
        let cands = t.candidates(maze);
        let chosen = choose_one(rng, &cands);
        assert(2 * w * h == 2 * (w * h)) by (nonlinear_arith);
        done = t.step(maze, chosen);
        steps = steps + 1;
    }
    proof {
        let v = maze@;
        assert forall|a: Coord, b: Coord|
            v.in_bounds(a) && v.in_bounds(b) && adjacent(a, b) && (#[trigger] v.at(a)).visited
                implies (#[trigger] v.at(b)).visited by {
            assert(!t@.contains(a));
        }
        assert forall|c: Coord| v.in_bounds(c) implies (#[trigger] v.at(c)).visited by {
            lemma_spread_visits(v, root, c);
        }
        assert forall|c: Coord| v.in_bounds(c) implies #[trigger] reachable(v, root, c) by {
            assert(v.at(c).visited);
        }
        lemma_index(v);
        assert forall|i: int| 0 <= i < v.cells.len() implies #[trigger] (visited_weight())(v.cells[i]) == 1 by {
            let c: Coord = ((i % (w as int)) as usize, (i / (w as int)) as usize);
            assert(v.in_bounds(c) && v.index(c) == i) by {
                assert(0 <= i % (w as int) < w && i / (w as int) < h && (i % (w as int)) + (i / (w as int)) * w == i) by (nonlinear_arith)
                    requires 0 <= i < w * h, w > 0;
            }
            assert(v.at(c).visited);
        }
        lemma_count_full(v.cells, visited_weight());
        assert(2 * w * h == 2 * (w * h)) by (nonlinear_arith);
    }
    steps
}

} // verus!
