use vstd::prelude::*;
use crate::node::{Node, Wall};

verus! {

/// A grid position `(x, y)`: `x` counts columns from the west edge, `y` rows from the north edge.
pub type Coord = (usize, usize);

/// Two positions one step apart, horizontally or vertically.
pub open spec fn adjacent(a: Coord, b: Coord) -> bool {
    (a.1 == b.1 && (a.0 + 1 == b.0 || b.0 + 1 == a.0)) || (a.0 == b.0 && (a.1 + 1 == b.1 || b.1
        + 1 == a.1))
}

/// The side of the cell `n`, standing at `from`, that faces the adjacent position `to`.
pub open spec fn wall_toward(n: Node, from: Coord, to: Coord) -> Wall {
    if to.0 == from.0 + 1 {
        n.east
    } else if to.0 + 1 == from.0 {
        n.west
    } else if to.1 == from.1 + 1 {
        n.south
    } else {
        n.north
    }
}

/// The cell `n`, standing at `from`, with its side facing `to` taken down.
pub open spec fn open_toward(n: Node, from: Coord, to: Coord) -> Node {
    if to.0 == from.0 + 1 {
        Node { east: Wall::Down, ..n }
    } else if to.0 + 1 == from.0 {
        Node { west: Wall::Down, ..n }
    } else if to.1 == from.1 + 1 {
        Node { south: Wall::Down, ..n }
    } else {
        Node { north: Wall::Down, ..n }
    }
}

/// The positions next to `c` inside a `w` by `h` grid, in increasing order of `(x, y)`.
pub open spec fn neighbors_of(w: nat, h: nat, c: Coord) -> Seq<Coord> {
    let x = c.0;
    let y = c.1;
    (if x > 0 { seq![((x - 1) as usize, y)] } else { Seq::empty() }) + (if y > 0 {
        seq![(x, (y - 1) as usize)]
    } else {
        Seq::empty()
    }) + (if y + 1 < h { seq![(x, (y + 1) as usize)] } else { Seq::empty() }) + (if x + 1 < w {
        seq![((x + 1) as usize, y)]
    } else {
        Seq::empty()
    })
}

/// How many passages a cell opens to the east and to the south; over a grid whose border is
/// closed this counts every open passage exactly once.
pub open spec fn node_open(n: Node) -> nat {
    (if n.east == Wall::Down { 1nat } else { 0nat }) + (if n.south == Wall::Down { 1nat } else { 0nat })
}

pub open spec fn node_visited(n: Node) -> nat {
    if n.visited { 1nat } else { 0nat }
}

/// The sum of `f` over the cells of `s`.
pub open spec fn count_by(s: Seq<Node>, f: spec_fn(Node) -> nat) -> nat
    decreases s.len(),
{
    if s.len() == 0 {
        0
    } else {
        count_by(s.drop_last(), f) + f(s.last())
    }
}

/// The number of open passages between adjacent cells.
pub open spec fn open_count(s: Seq<Node>) -> nat {
    count_by(s, open_weight())
}

pub open spec fn open_weight() -> spec_fn(Node) -> nat {
    |n: Node| node_open(n)
}

pub open spec fn visited_weight() -> spec_fn(Node) -> nat {
    |n: Node| node_visited(n)
}

/// The number of cells marked visited.
pub open spec fn visited_count(s: Seq<Node>) -> nat {
    count_by(s, visited_weight())
}

/// The mathematical content of a maze: its size and its cells in row-major order.
pub struct GridView {
    pub width: nat,
    pub height: nat,
    pub cells: Seq<Node>,
}

impl GridView {
    pub open spec fn in_bounds(self, c: Coord) -> bool {
        c.0 < self.width && c.1 < self.height
    }

    pub open spec fn index(self, c: Coord) -> int {
        c.0 + c.1 * self.width
    }

    pub open spec fn at(self, c: Coord) -> Node {
        self.cells[self.index(c)]
    }

    /// The wall of the cell at `a` that faces `b`.
    pub open spec fn wall_between(self, a: Coord, b: Coord) -> Wall {
        wall_toward(self.at(a), a, b)
    }

    /// `a` and `b` are adjacent cells of the grid with a passage between them.
    pub open spec fn is_open(self, a: Coord, b: Coord) -> bool {
        self.in_bounds(a) && self.in_bounds(b) && adjacent(a, b) && self.wall_between(a, b)
            == Wall::Down
    }

    /// Each wall between two adjacent cells reads the same from both sides.
    pub open spec fn symmetric(self) -> bool {
        forall|a: Coord, b: Coord|
            self.in_bounds(a) && self.in_bounds(b) && adjacent(a, b) ==> #[trigger] self.wall_between(
                a,
                b,
            ) == self.wall_between(b, a)
    }

    /// No wall on the outer edge of the grid is open.
    pub open spec fn border_closed(self) -> bool {
        forall|c: Coord|
            self.in_bounds(c) ==> {
                &&& (c.0 == 0 ==> (#[trigger] self.at(c)).west == Wall::Up)
                &&& (c.1 == 0 ==> self.at(c).north == Wall::Up)
                &&& (c.0 + 1 == self.width ==> self.at(c).east == Wall::Up)
                &&& (c.1 + 1 == self.height ==> self.at(c).south == Wall::Up)
            }
    }

    pub open spec fn wf(self) -> bool {
        &&& self.cells.len() == self.width * self.height
        &&& self.width <= usize::MAX
        &&& self.height <= usize::MAX
        &&& self.width * self.height <= usize::MAX
        &&& self.symmetric()
        &&& self.border_closed()
    }

    /// Every cell is closed on all sides and unvisited.
    pub open spec fn is_fresh(self) -> bool {
        forall|i: int| 0 <= i < self.cells.len() ==> #[trigger] self.cells[i] == Node::closed()
    }

    /// The grid after the passage between `a` and `b` is opened from both sides.
    pub open spec fn carved(self, a: Coord, b: Coord) -> GridView {
        GridView {
            cells: self.cells.update(self.index(a), open_toward(self.at(a), a, b)).update(
                self.index(b),
                open_toward(self.at(b), b, a),
            ),
            ..self
        }
    }

    /// The grid after the cell at `c` is marked visited.
    pub open spec fn marked(self, c: Coord) -> GridView {
        GridView { cells: self.cells.update(self.index(c), Node { visited: true, ..self.at(c) }), ..self }
    }
}

proof fn lemma_index_bound(w: nat, h: nat, x: nat, y: nat)
    requires
        x < w,
        y < h,
    ensures
        0 <= x + y * w < w * h,
{
    assert(0 <= x + y * w < w * h) by (nonlinear_arith)
        requires
            x < w,
            y < h,
    ;
}

proof fn lemma_index_unique(w: nat, x1: nat, y1: nat, x2: nat, y2: nat)
    requires
        x1 < w,
        x2 < w,
        x1 + y1 * w == x2 + y2 * w,
    ensures
        x1 == x2,
        y1 == y2,
{
    if y1 < y2 {
        assert(y1 * w + w <= y2 * w) by (nonlinear_arith)
            requires
                y1 < y2,
        ;
    } else if y2 < y1 {
        assert(y2 * w + w <= y1 * w) by (nonlinear_arith)
            requires
                y2 < y1,
        ;
    }
}

/// Positions inside the grid have distinct indices, all within the cell sequence.
pub proof fn lemma_index(v: GridView)
    ensures
        forall|c: Coord| v.in_bounds(c) ==> 0 <= #[trigger] v.index(c) < v.width * v.height,
        forall|a: Coord, b: Coord|
            v.in_bounds(a) && v.in_bounds(b) && #[trigger] v.index(a) == #[trigger] v.index(b)
                ==> a == b,
{
    assert forall|c: Coord| v.in_bounds(c) implies 0 <= #[trigger] v.index(c) < v.width
        * v.height by {
        lemma_index_bound(v.width, v.height, c.0 as nat, c.1 as nat);
    }
    assert forall|a: Coord, b: Coord|
        v.in_bounds(a) && v.in_bounds(b) && #[trigger] v.index(a) == #[trigger] v.index(
            b,
        ) implies a == b by {
        lemma_index_unique(v.width, a.0 as nat, a.1 as nat, b.0 as nat, b.1 as nat);
    }
}

/// Opening a passage between two adjacent cells keeps the grid well formed.
pub proof fn lemma_carved_wf(v0: GridView, a: Coord, b: Coord)
    requires
        v0.wf(),
        v0.in_bounds(a),
        v0.in_bounds(b),
        adjacent(a, b),
    ensures
        v0.carved(a, b).wf(),
        forall|c: Coord| v0.in_bounds(c) && c != a && c != b ==> #[trigger] v0.carved(a, b).at(c) == v0.at(c),
{
    let v = v0.carved(a, b);
    lemma_index(v0);
    assert(v.cells.len() == v0.cells.len());
    assert forall|c: Coord| v.in_bounds(c) && c != a && c != b implies #[trigger] v.at(c) == v0.at(
        c,
    ) by {
        assert(v.index(c) != v.index(a));
        assert(v.index(c) != v.index(b));
    }
    assert(v.at(b) == open_toward(v0.at(b), b, a));
    assert(v.at(a) == open_toward(v0.at(a), a, b)) by {
        assert(v.index(a) != v.index(b));
    }
    assert forall|p: Coord, q: Coord|
        v.in_bounds(p) && v.in_bounds(q) && adjacent(p, q) implies #[trigger] v.wall_between(p, q)
        == v.wall_between(q, p) by {
        assert(v0.wall_between(p, q) == v0.wall_between(q, p));
        if p == a || p == b || q == a || q == b {
        } else {
            assert(v.at(p) == v0.at(p));
            assert(v.at(q) == v0.at(q));
        }
    }
    assert forall|c: Coord| v.in_bounds(c) implies {
        &&& (c.0 == 0 ==> (#[trigger] v.at(c)).west == Wall::Up)
        &&& (c.1 == 0 ==> v.at(c).north == Wall::Up)
        &&& (c.0 + 1 == v.width ==> v.at(c).east == Wall::Up)
        &&& (c.1 + 1 == v.height ==> v.at(c).south == Wall::Up)
    } by {
        assert(v0.in_bounds(c));
        assert(v0.at(c) == v0.at(c));
    }
}

/// Replacing one cell changes a sum over the cells by the difference of the two values.
pub proof fn lemma_count_update(s: Seq<Node>, i: int, n: Node, f: spec_fn(Node) -> nat)
    requires
        0 <= i < s.len(),
    ensures
        count_by(s.update(i, n), f) + f(s[i]) == count_by(s, f) + f(n),
    decreases s.len(),
{
    let t = s.update(i, n);
    if i == s.len() - 1 {
        assert(t.drop_last() =~= s.drop_last());
    } else {
        assert(t.drop_last() =~= s.drop_last().update(i, n));
        lemma_count_update(s.drop_last(), i, n, f);
    }
}

/// A sum of values of at most one is at most the number of cells.
pub proof fn lemma_count_le(s: Seq<Node>, f: spec_fn(Node) -> nat)
    requires
        forall|n: Node| #[trigger] f(n) <= 1,
    ensures
        count_by(s, f) <= s.len(),
    decreases s.len(),
{
    if s.len() > 0 {
        lemma_count_le(s.drop_last(), f);
    }
}

/// A sum of zeros is zero.
pub proof fn lemma_count_zero(s: Seq<Node>, f: spec_fn(Node) -> nat)
    requires
        forall|i: int| 0 <= i < s.len() ==> #[trigger] f(s[i]) == 0,
    ensures
        count_by(s, f) == 0,
    decreases s.len(),
{
    if s.len() > 0 {
        let t = s.drop_last();
        assert forall|i: int| 0 <= i < t.len() implies #[trigger] f(t[i]) == 0 by {
            assert(t[i] == s[i]);
        }
        lemma_count_zero(t, f);
    }
}

/// A sum of ones over every cell is the number of cells.
pub proof fn lemma_count_full(s: Seq<Node>, f: spec_fn(Node) -> nat)
    requires
        forall|i: int| 0 <= i < s.len() ==> #[trigger] f(s[i]) == 1,
    ensures
        count_by(s, f) == s.len(),
    decreases s.len(),
{
    if s.len() > 0 {
        let t = s.drop_last();
        assert forall|i: int| 0 <= i < t.len() implies #[trigger] f(t[i]) == 1 by {
            assert(t[i] == s[i]);
        }
        lemma_count_full(t, f);
    }
}

/// The neighbor sequence holds exactly the adjacent positions inside the grid, each once.
pub proof fn lemma_neighbors_exact(w: nat, h: nat, c: Coord)
    requires
        c.0 < w <= usize::MAX,
        c.1 < h <= usize::MAX,
    ensures
        forall|d: Coord|
            #[trigger] neighbors_of(w, h, c).contains(d) <==> (d.0 < w && d.1 < h && adjacent(c, d)),
        neighbors_of(w, h, c).no_duplicates(),
{
    let s = neighbors_of(w, h, c);
    let x = c.0;
    let y = c.1;
    let s1: Seq<Coord> = if x > 0 { seq![((x - 1) as usize, y)] } else { Seq::empty() };
    let s2: Seq<Coord> = if y > 0 { seq![(x, (y - 1) as usize)] } else { Seq::empty() };
    let s3: Seq<Coord> = if y + 1 < h { seq![(x, (y + 1) as usize)] } else { Seq::empty() };
    let s4: Seq<Coord> = if x + 1 < w { seq![((x + 1) as usize, y)] } else { Seq::empty() };
    assert(s =~= s1 + s2 + s3 + s4);
    assert forall|i: int, j: int| 0 <= i < s.len() && 0 <= j < s.len() && i != j implies s[i]
        != s[j] by {
        let k1 = s1.len() as int;
        let k2 = k1 + s2.len();
        let k3 = k2 + s3.len();
        assert(i < k1 ==> s[i] == s1[i]);
        assert(k1 <= i < k2 ==> s[i] == s2[i - k1]);
        assert(k2 <= i < k3 ==> s[i] == s3[i - k2]);
        assert(k3 <= i ==> s[i] == s4[i - k3]);
        assert(j < k1 ==> s[j] == s1[j]);
        assert(k1 <= j < k2 ==> s[j] == s2[j - k1]);
        assert(k2 <= j < k3 ==> s[j] == s3[j - k2]);
        assert(k3 <= j ==> s[j] == s4[j - k3]);
    }
    assert forall|d: Coord| #[trigger] s.contains(d) <==> (d.0 < w && d.1 < h && adjacent(c, d)) by {
        if s.contains(d) {
            let i = choose|i: int| 0 <= i < s.len() && s[i] == d;
            if i < s1.len() {
                assert(s[i] == s1[i]);
            } else if i < s1.len() + s2.len() {
                assert(s[i] == s2[i - s1.len()]);
            } else if i < s1.len() + s2.len() + s3.len() {
                assert(s[i] == s3[i - s1.len() - s2.len()]);
            } else {
                assert(s[i] == s4[i - s1.len() - s2.len() - s3.len()]);
            }
        }
        if d.0 < w && d.1 < h && adjacent(c, d) {
            if d.0 + 1 == x {
                assert(s[0] == d);
            } else if d.1 + 1 == y {
                assert(s[s1.len() as int] == d);
            } else if d.1 == y + 1 {
                assert(s[(s1.len() + s2.len()) as int] == d);
            } else {
                assert(s[(s1.len() + s2.len() + s3.len()) as int] == d);
            }
        }
    }
}

/// Corner cells of a grid at least two cells wide and high have two neighbors, other border
/// cells three, inner cells four; the one cell of a one-by-one grid has none.
pub proof fn lemma_neighbor_count(w: nat, h: nat, c: Coord)
    requires
        c.0 < w <= usize::MAX,
        c.1 < h <= usize::MAX,
    ensures
        ({
            let n = neighbors_of(w, h, c).len();
            let on_x_edge = c.0 == 0 || c.0 + 1 == w;
            let on_y_edge = c.1 == 0 || c.1 + 1 == h;
            &&& w >= 2 && h >= 2 && on_x_edge && on_y_edge ==> n == 2
            &&& w >= 2 && h >= 2 && (on_x_edge != on_y_edge) ==> n == 3
            &&& !on_x_edge && !on_y_edge ==> n == 4
            &&& w == 1 && h == 1 ==> n == 0
        }),
{
}

/// The positions next to `c` whose cells are not yet visited, in neighbor order.
pub open spec fn unvisited_neighbors_of(v: GridView, c: Coord) -> Seq<Coord> {
    neighbors_of(v.width, v.height, c).filter(|d: Coord| !v.at(d).visited)
}

/// Marking a cell visited keeps the grid well formed.
pub proof fn lemma_marked_wf(v0: GridView, c: Coord)
    requires
        v0.wf(),
        v0.in_bounds(c),
    ensures
        v0.marked(c).wf(),
{
    lemma_index(v0);
    let v = v0.marked(c);
    
    assert forall|d: Coord| v.in_bounds(d) implies #[trigger] v.at(d).north == v0.at(d).north
        && v.at(d).east == v0.at(d).east && v.at(d).south == v0.at(d).south && v.at(d).west
        == v0.at(d).west by {
        if d != c {
            assert(v.index(d) != v.index(c));
        }
    }
    assert forall|p: Coord, q: Coord|
        v.in_bounds(p) && v.in_bounds(q) && adjacent(p, q) implies #[trigger] v.wall_between(
        p,
        q,
    ) == v.wall_between(q, p) by {
        assert(v0.wall_between(p, q) == v0.wall_between(q, p));
        assert(v.at(p).north == v0.at(p).north);
        assert(v.at(q).north == v0.at(q).north);
    }
    assert forall|d: Coord| v.in_bounds(d) implies {
        &&& (d.0 == 0 ==> (#[trigger] v.at(d)).west == Wall::Up)
        &&& (d.1 == 0 ==> v.at(d).north == Wall::Up)
        &&& (d.0 + 1 == v.width ==> v.at(d).east == Wall::Up)
        &&& (d.1 + 1 == v.height ==> v.at(d).south == Wall::Up)
    } by {
        assert(v0.in_bounds(d));
        assert(v.at(d).north == v0.at(d).north);
    }
}

/// A fixed-size rectangular grid of cells, addressed by `(x, y)`.
pub struct Maze {
    width: usize,
    height: usize,
    cells: Vec<Node>,
}

impl View for Maze {
    type V = GridView;

    closed spec fn view(&self) -> GridView {
        GridView { width: self.width as nat, height: self.height as nat, cells: self.cells@ }
    }
}

impl Maze {
    pub open spec fn wf(&self) -> bool {
        self@.wf()
    }

    /// A `width` by `height` grid whose cells are all closed and unvisited.
    pub fn new(width: usize, height: usize) -> (r: Maze)
        requires
            width * height <= usize::MAX,
        ensures
            r.wf(),
            r@.width == width,
            r@.height == height,
            r@.is_fresh(),
    {
        let n: usize = width * height;
        let mut cells: Vec<Node> = Vec::new();
        let mut i: usize = 0;
        while i < n
            invariant
                i <= n,
                cells@.len() == i,
                forall|j: int| 0 <= j < i ==> #[trigger] cells@[j] == Node::closed(),
            decreases n - i,
        {
            cells.push(Node::new());
            i = i + 1;
        }
        let r = Maze { width, height, cells };
        proof {
            lemma_index(r@);
        }
        r
    }

    pub fn width(&self) -> (r: usize)
        ensures
            r == self@.width,
    {
        self.width
    }

    pub fn height(&self) -> (r: usize)
        ensures
            r == self@.height,
    {
        self.height
    }

    /// The cell at `(x, y)`.
    pub fn get(&self, x: usize, y: usize) -> (r: Node)
        requires
            self.wf(),
            self@.in_bounds((x, y)),
        ensures
            r == self@.at((x, y)),
    {
        proof {
            lemma_index(self@);
            assert(0 <= self@.index((x, y)) < self@.width * self@.height);
        }
        self.cells[x + y * self.width]
    }

    /// The positions next to `(x, y)` inside the grid, in increasing order of `(x, y)`.
    pub fn get_neighbors(&self, x: usize, y: usize) -> (r: Vec<Coord>)
        requires
            self@.in_bounds((x, y)),
        ensures
            r@ == neighbors_of(self@.width, self@.height, (x, y)),
    {
        let mut r: Vec<Coord> = Vec::new();
        if x > 0 {
            r.push((x - 1, y));
        }
        if y > 0 {
            r.push((x, y - 1));
        }
        if y + 1 < self.height {
            r.push((x, y + 1));
        }
        if x + 1 < self.width {
            r.push((x + 1, y));
        }
        assert(r@ =~= neighbors_of(self@.width, self@.height, (x, y)));
        r
    }

    /// Opens the passage between the adjacent cells at `a` and `b`, on both sides at once.
    pub fn carve(&mut self, a: Coord, b: Coord)
        requires
            old(self).wf(),
            old(self)@.in_bounds(a),
            old(self)@.in_bounds(b),
            adjacent(a, b),
        ensures
            final(self).wf(),
            final(self)@ == old(self)@.carved(a, b),
    {
        proof {
            lemma_index(self@);
            assert(0 <= self@.index(a) < self@.width * self@.height);
            assert(0 <= self@.index(b) < self@.width * self@.height);
        }
        let ia = a.0 + a.1 * self.width;
        let ib = b.0 + b.1 * self.width;
        let mut na = self.cells[ia];
        let mut nb = self.cells[ib];
        if b.0 == a.0 + 1 {
            na.east = Wall::Down;
            nb.west = Wall::Down;
        } else if b.0 + 1 == a.0 {
            na.west = Wall::Down;
            nb.east = Wall::Down;
        } else if b.1 == a.1 + 1 {
            na.south = Wall::Down;
            nb.north = Wall::Down;
        } else {
            na.north = Wall::Down;
            nb.south = Wall::Down;
        }
        let ghost v0 = self@;
        self.cells.set(ia, na);
        self.cells.set(ib, nb);
        proof {
            assert(self@ =~= v0.carved(a, b));
            lemma_carved_wf(v0, a, b);
        }
    }

    /// Marks the cell at `c` visited.
    pub fn mark_visited(&mut self, c: Coord)
        requires
            old(self).wf(),
            old(self)@.in_bounds(c),
        ensures
            final(self).wf(),
            final(self)@ == old(self)@.marked(c),
    {
        proof {
            lemma_index(self@);
            assert(0 <= self@.index(c) < self@.width * self@.height);
        }
        let i = c.0 + c.1 * self.width;
        let mut n = self.cells[i];
        n.visited = true;
        let ghost v0 = self@;
        self.cells.set(i, n);
        proof {
            assert(self@ =~= v0.marked(c));
            lemma_marked_wf(v0, c);
        }
    }

    /// The positions next to `(x, y)` whose cells are not yet visited, in neighbor order.
    pub fn unvisited_neighbors(&self, x: usize, y: usize) -> (r: Vec<Coord>)
        requires
            self.wf(),
            self@.in_bounds((x, y)),
        ensures
            r@ == unvisited_neighbors_of(self@, (x, y)),
    {
        let nb = self.get_neighbors(x, y);
        let ghost pred = |d: Coord| !self@.at(d).visited;
        let mut r: Vec<Coord> = Vec::new();
        let mut i: usize = 0;
        proof {
            lemma_neighbors_exact(self@.width, self@.height, (x, y));
        }
        while i < nb.len()
            invariant
                self.wf(),
                i <= nb@.len(),
                nb@ == neighbors_of(self@.width, self@.height, (x, y)),
                forall|d: Coord| #[trigger] nb@.contains(d) ==> self@.in_bounds(d),
                pred == (|d: Coord| !self@.at(d).visited),
                r@ == nb@.take(i as int).filter(pred),
            decreases nb@.len() - i,
        {
            let d = nb[i];
            assert(nb@.contains(d));
            let cell = self.get(d.0, d.1);
            if !cell.visited {
                r.push(d);
            }
            proof {
                reveal(Seq::filter);
                let t = nb@.take(i + 1);
                assert(t.drop_last() =~= nb@.take(i as int));
                assert(t.last() == d);
                assert(cell == self@.at(d));
                assert(pred(d) == !cell.visited);
            }
            i = i + 1;
        }
        assert(nb@.take(nb@.len() as int) =~= nb@);
        assert(r@ == nb@.filter(pred));
        r
    }
}

/// In a well-formed maze the wall between two adjacent cells is open from one side exactly when
/// it is open from the other.
pub proof fn lemma_walls_agree(m: &Maze, a: Coord, b: Coord)
    requires
        m.wf(),
        m@.in_bounds(a),
        m@.in_bounds(b),
        adjacent(a, b),
    ensures
        m@.wall_between(a, b) == m@.wall_between(b, a),
        m@.is_open(a, b) <==> m@.is_open(b, a),
{
    assert(m@.wall_between(a, b) == m@.wall_between(b, a));
}

} // verus!
