//! Vector paths that outline the dark modules of a bitmap.
//!
//! The outline is modelled as a graph on the corners of the modules: an
//! edge separates a dark module from a light one (or from the outside). The
//! graph is decomposed into Eulerian circuits (Hierholzer's algorithm), and
//! the circuits are compressed into relative horizontal and vertical draws.
use vstd::prelude::*;
use super::{Bitmap, BitmapConversionError};

verus! {

/// A segment of a vector graphics path.
///
/// This is used by [path()](Bitmap::path); see there for more details.
#[derive(Debug, Clone, Copy, PartialEq, Eq, Structural)]
pub enum PathSegment {
    /// A relative move without drawing, which begins a new subpath.
    ///
    /// The first entry is the horizontal distance `dx`, the second the
    /// vertical distance `dy`. This is like `m` in an SVG path, where the
    /// order of `dx` and `dy` is switched.
    ///
    /// A list of segments returned by [path()](Bitmap::path) does _not_
    /// start with this: the first path starts implicitly.
    Move(isize, isize),
    /// A horizontal draw, relative distance; like `h` in an SVG path.
    Horizontal(isize),
    /// A vertical draw, relative distance; like `v` in an SVG path.
    Vertical(isize),
    /// Closes the current (sub)path; like `z` in an SVG path.
    Close,
}

/// One step along the outline: a jump to a node, or a step to a neighbouring node.
#[derive(Debug, Clone, Copy)]
pub enum MicroStep {
    Jump((isize, isize)),
    Step((isize, isize)),
}

/// The direction of a position on an edge.
#[derive(Debug, Clone, Copy, PartialEq, Eq, Structural)]
pub enum Direction {
    Up,
    Down,
    Right,
    Left,
}

impl Direction {
    /// The opposite direction.
    pub fn flip(self) -> (r: Direction)
        ensures
            r == (match self {
                Direction::Up => Direction::Down,
                Direction::Down => Direction::Up,
                Direction::Right => Direction::Left,
                Direction::Left => Direction::Right,
            }),
    {
        match self {
            Direction::Up => Direction::Down,
            Direction::Down => Direction::Up,
            Direction::Right => Direction::Left,
            Direction::Left => Direction::Right,
        }
    }
}

/// An oriented position in the graph, on the left edge (vertical directions)
/// or the top edge (horizontal directions) of cell `(i, j)`.
#[derive(Debug, Clone, Copy, PartialEq, Eq, Structural)]
pub struct Position {
    pub i: isize,
    pub j: isize,
    pub dir: Direction,
}

/// Whether the coordinates leave room for a step in every direction.
pub open spec fn small(p: Position) -> bool {
    0 <= p.i < isize::MAX && 0 <= p.j < isize::MAX
}

impl Position {
    /// The node that the position points to.
    pub fn end_node(&self) -> (r: (isize, isize))
        requires
            small(*self),
        ensures
            r == (match self.dir {
                Direction::Up | Direction::Left => (self.i, self.j),
                Direction::Down => ((self.i + 1) as isize, self.j),
                Direction::Right => (self.i, (self.j + 1) as isize),
            }),
    {
        match self.dir {
            Direction::Up | Direction::Left => (self.i, self.j),
            Direction::Down => (self.i + 1, self.j),
            Direction::Right => (self.i, self.j + 1),
        }
    }

    /// The node that the position comes from.
    pub fn start_node(&self) -> (r: (isize, isize))
        requires
            small(*self),
        ensures
            r == self.flip_spec().end_node_spec(),
    {
        self.flip().end_node()
    }

    /// The node that the position points to.
    pub open spec fn end_node_spec(self) -> (isize, isize) {
        match self.dir {
            Direction::Up | Direction::Left => (self.i, self.j),
            Direction::Down => ((self.i + 1) as isize, self.j),
            Direction::Right => (self.i, (self.j + 1) as isize),
        }
    }

    /// The same edge in the opposite direction.
    pub open spec fn flip_spec(self) -> Position {
        Position {
            i: self.i,
            j: self.j,
            dir: match self.dir {
                Direction::Up => Direction::Down,
                Direction::Down => Direction::Up,
                Direction::Right => Direction::Left,
                Direction::Left => Direction::Right,
            },
        }
    }

    /// The same edge in the opposite direction.
    pub fn flip(&self) -> (r: Position)
        ensures
            r == self.flip_spec(),
    {
        Position { i: self.i, j: self.j, dir: self.dir.flip() }
    }

    /// The position straight ahead.
    pub fn straight(&self) -> (r: Position)
        requires
            small(*self),
        ensures
            r.dir == self.dir,
            -1 <= r.i <= self.i + 1,
            -1 <= r.j <= self.j + 1,
    {
        let (i, j) = match self.dir {
            Direction::Up => (self.i - 1, self.j),
            Direction::Down => (self.i + 1, self.j),
            Direction::Right => (self.i, self.j + 1),
            Direction::Left => (self.i, self.j - 1),
        };
        Position { i, j, dir: self.dir }
    }

    /// The position after a left turn.
    pub fn left(&self) -> (r: Position)
        requires
            small(*self),
        ensures
            -1 <= r.i <= self.i + 1,
            -1 <= r.j <= self.j + 1,
    {
        let (i, j, dir) = match self.dir {
            Direction::Up => (self.i, self.j - 1, Direction::Left),
            Direction::Down => (self.i + 1, self.j, Direction::Right),
            Direction::Right => (self.i - 1, self.j + 1, Direction::Up),
            Direction::Left => (self.i, self.j, Direction::Down),
        };
        Position { i, j, dir }
    }

    /// The position after a right turn.
    pub fn right(&self) -> (r: Position)
        requires
            small(*self),
        ensures
            -1 <= r.i <= self.i + 1,
            -1 <= r.j <= self.j + 1,
    {
        let (i, j, dir) = match self.dir {
            Direction::Up => (self.i, self.j, Direction::Right),
            Direction::Down => (self.i + 1, self.j - 1, Direction::Left),
            Direction::Right => (self.i, self.j + 1, Direction::Down),
            Direction::Left => (self.i - 1, self.j, Direction::Up),
        };
        Position { i, j, dir }
    }
}

/// The two edges that belong to a cell: its left and its top side.
#[derive(Debug, Clone, Copy, PartialEq, Eq, Structural)]
pub struct Edge {
    pub left: bool,
    pub top: bool,
}

/// The number of edge sides that are set.
pub open spec fn edge_count(s: Seq<Edge>) -> nat
    decreases s.len(),
{
    if s.len() == 0 {
        0
    } else {
        edge_count(s.drop_last()) + (if s.last().left { 1nat } else { 0nat }) + (if s.last().top { 1nat } else { 0nat })
    }
}

/// The number of sides of one edge that are set.
pub open spec fn sides(e: Edge) -> nat {
    (if e.left { 1nat } else { 0nat }) + (if e.top { 1nat } else { 0nat })
}

/// Replacing one entry changes the count by the difference of its sides.
proof fn lemma_edge_count_update(s: Seq<Edge>, k: int, e: Edge)
    requires
        0 <= k < s.len(),
    ensures
        edge_count(s.update(k, e)) + sides(s[k]) == edge_count(s) + sides(e),
    decreases s.len(),
{
    if k < s.len() - 1 {
        lemma_edge_count_update(s.drop_last(), k, e);
        assert(s.update(k, e).drop_last() =~= s.drop_last().update(k, e));
    } else {
        assert(s.update(k, e).drop_last() =~= s.drop_last());
    }
}

/// When no side is set, the count is 0.
proof fn lemma_edge_count_zero(s: Seq<Edge>)
    requires
        forall|k: int| 0 <= k < s.len() ==> !(#[trigger] s[k]).left && !s[k].top,
    ensures
        edge_count(s) == 0,
    decreases s.len(),
{
    if s.len() > 0 {
        lemma_edge_count_zero(s.drop_last());
    }
}

/// The graph of the outline: cell `(i, j)` for `0 <= i <= height` and
/// `0 <= j <= width`, row by row, holds the left and top edge of the module
/// `(i, j)`.
#[derive(Debug, PartialEq, Eq)]
pub struct Graph {
    pub edges: Vec<Edge>,
    pub width: usize,
    pub height: usize,
    /// All edges before this index are known to be removed.
    pub edge_hint: usize,
}

impl Graph {
    /// The dimensions of the graph fit the target architecture.
    pub open spec fn wf(&self) -> bool {
        &&& (self.width + 1) * (self.height + 1) <= usize::MAX
        &&& self.width + 1 <= isize::MAX
        &&& self.height + 1 <= isize::MAX
        &&& self.edges@.len() == (self.width + 1) * (self.height + 1)
    }

    /// Whether `(i, j)` is a cell of the graph.
    pub open spec fn spec_has_cell(&self, i: int, j: int) -> bool {
        0 <= i <= self.height && 0 <= j <= self.width
    }

    /// Whether `(i, j)` is a cell of the graph.
    pub fn has_cell(&self, i: isize, j: isize) -> (r: bool)
        ensures
            r == self.spec_has_cell(i as int, j as int),
    {
        if i < 0 || j < 0 {
            return false;
        }
        (i as usize) <= self.height && (j as usize) <= self.width
    }

    /// The index of cell `(i, j)`, if it is one.
    pub fn edge_index(&self, i: isize, j: isize) -> (r: Option<usize>)
        requires
            self.wf(),
        ensures
            self.spec_has_cell(i as int, j as int) ==> (r matches Some(k) && k == i * (self.width + 1) + j),
            !self.spec_has_cell(i as int, j as int) ==> r is None,
            r matches Some(k) ==> k < self.edges@.len(),
    {
        if !self.has_cell(i, j) {
            return None;
        }
        let row = i as usize;
        let column = j as usize;
        let stride = self.width + 1;
        proof {
            assert(row * stride + column < stride * (self.height + 1)) by (nonlinear_arith)
                requires row <= self.height, column < stride;
            assert(stride * (self.height + 1) == (self.width + 1) * (self.height + 1));
        }
        Some(row * stride + column)
    }

    /// The edges of cell `(i, j)`, if it is one.
    pub fn edge(&self, i: isize, j: isize) -> (r: Option<Edge>)
        requires
            self.wf(),
        ensures
            self.spec_has_cell(i as int, j as int) ==> r == Some(self.edges@[i * (self.width + 1) + j]),
            !self.spec_has_cell(i as int, j as int) ==> r is None,
    {
        match self.edge_index(i, j) {
            Some(k) => {
                Some(self.edges[k])
            },
            None => None,
        }
    }

    /// Whether the left edge of cell `(i, j)` is part of the graph.
    pub fn left(&self, i: isize, j: isize) -> (r: bool)
        requires
            self.wf(),
        ensures
            r == (self.spec_has_cell(i as int, j as int) && self.edges@[i * (self.width + 1) + j].left),
    {
        match self.edge(i, j) {
            Some(e) => e.left,
            None => false,
        }
    }

    /// Whether the top edge of cell `(i, j)` is part of the graph.
    pub fn top(&self, i: isize, j: isize) -> (r: bool)
        requires
            self.wf(),
        ensures
            r == (self.spec_has_cell(i as int, j as int) && self.edges@[i * (self.width + 1) + j].top),
    {
        match self.edge(i, j) {
            Some(e) => e.top,
            None => false,
        }
    }

    /// Whether the edge under the position is part of the graph.
    pub open spec fn spec_has_edge(&self, p: Position) -> bool {
        &&& self.spec_has_cell(p.i as int, p.j as int)
        &&& match p.dir {
            Direction::Left | Direction::Right => self.edges@[p.i * (self.width + 1) + p.j].top,
            Direction::Up | Direction::Down => self.edges@[p.i * (self.width + 1) + p.j].left,
        }
    }

    /// Whether the edge under the position is part of the graph.
    pub fn has_edge(&self, pos: &Position) -> (r: bool)
        requires
            self.wf(),
        ensures
            r == self.spec_has_edge(*pos),
    {
        match pos.dir {
            Direction::Left | Direction::Right => self.top(pos.i, pos.j),
            Direction::Up | Direction::Down => self.left(pos.i, pos.j),
        }
    }

    /// The first of the positions straight ahead, left and right whose edge
    /// is part of the graph.
    pub fn can_step(&self, pos: &Position) -> (r: Option<Position>)
        requires
            self.wf(),
            small(*pos),
        ensures
            r matches Some(p) ==> self.spec_has_edge(p),
    {
        let s = pos.straight();
        if self.has_edge(&s) {
            return Some(s);
        }
        let l = pos.left();
        if self.has_edge(&l) {
            return Some(l);
        }
        let r = pos.right();
        if self.has_edge(&r) {
            return Some(r);
        }
        None
    }

    /// A position that can be reached from `pos`, trying straight ahead,
    /// left and right in this order, and whether there was more than one.
    pub fn follow(&self, pos: &Position) -> (r: (Option<Position>, bool))
        requires
            self.wf(),
            small(*pos),
        ensures
            r.0 matches Some(p) ==> self.spec_has_edge(p),
    {
        let mut found: Option<Position> = None;
        let mut alternatives = false;
        let candidates = [pos.straight(), pos.left(), pos.right()];
        let mut k: usize = 0;
        while k < 3
            invariant
                self.wf(),
                k <= 3,
                found matches Some(p) ==> self.spec_has_edge(p),
            decreases 3 - k,
        {
            let c = candidates[k];
            if self.has_edge(&c) {
                if found.is_none() {
                    found = Some(c);
                } else {
                    alternatives = true;
                }
            }
            k += 1;
        }
        (found, alternatives)
    }

    /// Removes one side of the cell at `index`; false when it was not set.
    fn remove_side(&mut self, index: Option<usize>, top: bool) -> (r: bool)
        requires
            old(self).wf(),
            index matches Some(k) ==> k < old(self).edges@.len(),
        ensures
            final(self).wf(),
            final(self).width == old(self).width,
            final(self).height == old(self).height,
            final(self).edge_hint == old(self).edge_hint,
            edge_count(final(self).edges@) + (if r { 1nat } else { 0nat }) == edge_count(old(self).edges@),
    {
        match index {
            None => false,
            Some(k) => {
                let e = self.edges[k];
                let was = if top { e.top } else { e.left };
                if was {
                    let new_edge = if top { Edge { left: e.left, top: false } } else { Edge { left: false, top: e.top } };
                    proof { lemma_edge_count_update(self.edges@, k as int, new_edge); }
                    self.edges.set(k, new_edge);
                }
                was
            },
        }
    }

    /// Removes the top edge of cell `(i, j)`; false when it was not part of the graph.
    pub fn remove_top(&mut self, i: isize, j: isize) -> (r: bool)
        requires
            old(self).wf(),
        ensures
            final(self).wf(),
            final(self).width == old(self).width,
            final(self).height == old(self).height,
            final(self).edge_hint == old(self).edge_hint,
            edge_count(final(self).edges@) + (if r { 1nat } else { 0nat }) == edge_count(old(self).edges@),
    {
        let index = self.edge_index(i, j);
        self.remove_side(index, true)
    }

    /// Removes the left edge of cell `(i, j)`; false when it was not part of the graph.
    pub fn remove_left(&mut self, i: isize, j: isize) -> (r: bool)
        requires
            old(self).wf(),
        ensures
            final(self).wf(),
            final(self).width == old(self).width,
            final(self).height == old(self).height,
            final(self).edge_hint == old(self).edge_hint,
            edge_count(final(self).edges@) + (if r { 1nat } else { 0nat }) == edge_count(old(self).edges@),
    {
        let index = self.edge_index(i, j);
        self.remove_side(index, false)
    }

    /// Removes the edge under the position; false when it was not part of the graph.
    pub fn remove_edge(&mut self, pos: &Position) -> (r: bool)
        requires
            old(self).wf(),
        ensures
            final(self).wf(),
            final(self).width == old(self).width,
            final(self).height == old(self).height,
            final(self).edge_hint == old(self).edge_hint,
            edge_count(final(self).edges@) + (if r { 1nat } else { 0nat }) == edge_count(old(self).edges@),
    {
        match pos.dir {
            Direction::Left | Direction::Right => self.remove_top(pos.i, pos.j),
            Direction::Up | Direction::Down => self.remove_left(pos.i, pos.j),
        }
    }

    /// A position on an edge that is left in the graph, `None` when there is none.
    pub fn edge_left(&mut self) -> (r: Option<Position>)
        requires
            old(self).wf(),
        ensures
            final(self).edges@ == old(self).edges@,
            final(self).width == old(self).width,
            final(self).height == old(self).height,
            final(self).wf(),
            edge_count(old(self).edges@) == 0 ==> r is None,
            r matches Some(p) ==> final(self).spec_has_edge(p) && small(p),
    {
        let hint = self.edge_hint;
        let stride = self.width + 1;
        let n = self.edges.len();
        let mut idx: usize = hint;
        while idx < n
            invariant
                self.wf(),
                n == self.edges@.len(),
                stride == self.width + 1,
                self.edges@ == old(self).edges@,
                self.width == old(self).width,
                self.height == old(self).height,
                hint <= idx || n <= hint,
            decreases n - idx,
        {
            let edge = self.edges[idx];
            if edge.left || edge.top {
                proof {
                    if edge_count(self.edges@) == 0 {
                        lemma_edge_count_update(self.edges@, idx as int, Edge { left: false, top: false });
                    }
                    vstd::arithmetic::div_mod::lemma_fundamental_div_mod(idx as int, stride as int);
                    assert(idx / stride <= self.height) by (nonlinear_arith)
                        requires idx < n, n == stride * (self.height + 1), stride >= 1,
                            idx == stride * (idx / stride) + idx % stride, idx % stride >= 0;
                }
                let i = idx / stride;
                let j = idx % stride;
                self.edge_hint = idx;
                let pos = Position { i: i as isize, j: j as isize, dir: if edge.top { Direction::Right } else { Direction::Up } };
                proof {
                    assert(pos.i * (self.width + 1) + pos.j == idx) by (nonlinear_arith)
                        requires pos.i == idx / stride, pos.j == idx % stride, stride == self.width + 1,
                            idx == stride * (idx / stride) + idx % stride;
                }
                return Some(pos);
            }
            idx += 1;
        }
        self.edge_hint = n;
        None
    }
}

/// Which side of a cell an edge is.
pub enum EdgeSide {
    Left,
    Top,
}

/// Sets one side of the cell at `index`.
fn set_edge(edges: &mut Vec<Edge>, index: usize, side: EdgeSide) -> (r: Result<(), BitmapConversionError>)
    ensures
        final(edges)@.len() == old(edges)@.len(),
        index < old(edges)@.len() ==> r is Ok,
        forall|k: int| 0 <= k < old(edges)@.len() && k != index ==> #[trigger] final(edges)@[k] == old(edges)@[k],
        index < old(edges)@.len() ==> (match side {
            EdgeSide::Left => final(edges)@[index as int] == Edge { left: true, top: old(edges)@[index as int].top },
            EdgeSide::Top => final(edges)@[index as int] == Edge { left: old(edges)@[index as int].left, top: true },
        }),
{
    if index >= edges.len() {
        return Err(BitmapConversionError::InternalError("path edge outside of the graph"));
    }
    let e = edges[index];
    match side {
        EdgeSide::Left => edges.set(index, Edge { left: true, top: e.top }),
        EdgeSide::Top => edges.set(index, Edge { left: e.left, top: true }),
    }
    Ok(())
}

/// Whether the module in row `i` and column `j` of `bits` (`w` modules per
/// row, `h` rows) is dark; positions outside are light.
pub open spec fn module_dark(bits: Seq<bool>, w: int, h: int, i: int, j: int) -> bool {
    0 <= i < h && 0 <= j < w && bits[i * w + j]
}

/// The edges of cell `(i, j)` of the outline: a side is set where the module
/// `(i, j)` and its neighbour on that side differ.
pub open spec fn outline_edge(bits: Seq<bool>, w: int, h: int, i: int, j: int) -> Edge {
    Edge {
        left: module_dark(bits, w, h, i, j) != module_dark(bits, w, h, i, j - 1),
        top: module_dark(bits, w, h, i, j) != module_dark(bits, w, h, i - 1, j),
    }
}

/// Whether the module `(a, b)` comes before `(i, j)` row by row.
spec fn before_module(a: int, b: int, i: int, j: int) -> bool {
    a < i || (a == i && b < j)
}

/// The edges of cell `(a, b)` that the dark modules before `(i, j)` set.
spec fn partial_edge(bits: Seq<bool>, w: int, h: int, a: int, b: int, i: int, j: int) -> Edge {
    let d = module_dark(bits, w, h, a, b);
    let dl = module_dark(bits, w, h, a, b - 1);
    let dt = module_dark(bits, w, h, a - 1, b);
    Edge {
        left: (before_module(a, b, i, j) && d && !dl) || (before_module(a, b - 1, i, j) && dl && !d),
        top: (before_module(a, b, i, j) && d && !dt) || (before_module(a - 1, b, i, j) && dt && !d),
    }
}

/// No module before `(i, j)` is dark.
spec fn light_before(bits: Seq<bool>, w: int, h: int, i: int, j: int) -> bool {
    forall|a: int, b: int| #[trigger] before_module(a, b, i, j) ==> !module_dark(bits, w, h, a, b)
}

/// What the edge hint is after the modules before `(i, j)`: the cell of the
/// first dark module, if there is one.
spec fn hint_before(hint: Option<usize>, bits: Seq<bool>, w: int, h: int, i: int, j: int) -> bool {
    match hint {
        None => light_before(bits, w, h, i, j),
        Some(c) => exists|a: int, b: int| {
            &&& before_module(a, b, i, j)
            &&& module_dark(bits, w, h, a, b)
            &&& light_before(bits, w, h, a, b)
            &&& c == a * (w + 1) + b
        },
    }
}

/// The edges hold what the dark modules before `(i, j)` set.
spec fn edges_set_before(edges: Seq<Edge>, bits: Seq<bool>, w: int, h: int, i: int, j: int) -> bool {
    forall|a: int, b: int| 0 <= a <= h && 0 <= b <= w ==> #[trigger] edges[a * (w + 1) + b] == partial_edge(
        bits, w, h, a, b, i, j)
}

/// Handling the module `(i, j)` moves the edges on to the next module.
proof fn lemma_edges_step(
    e0: Seq<Edge>,
    e1: Seq<Edge>,
    bits: Seq<bool>,
    w: int,
    h: int,
    i: int,
    j: int,
)
    requires
        0 <= i < h,
        0 <= j < w,
        bits.len() == w * h,
        e0.len() == (w + 1) * (h + 1),
        e1.len() == e0.len(),
        edges_set_before(e0, bits, w, h, i, j),
        !module_dark(bits, w, h, i, j) ==> e1 == e0,
        module_dark(bits, w, h, i, j) ==> {
            let c = i * (w + 1) + j;
            &&& e1[c] == Edge {
                left: e0[c].left || !module_dark(bits, w, h, i, j - 1),
                top: e0[c].top || !module_dark(bits, w, h, i - 1, j),
            }
            &&& e1[c + 1] == Edge { left: e0[c + 1].left || !module_dark(bits, w, h, i, j + 1), top: e0[c + 1].top }
            &&& e1[c + w + 1] == Edge {
                left: e0[c + w + 1].left,
                top: e0[c + w + 1].top || !module_dark(bits, w, h, i + 1, j),
            }
            &&& forall|k: int| 0 <= k < e0.len() && k != c && k != c + 1 && k != c + w + 1 ==> #[trigger] e1[k]
                == e0[k]
        },
    ensures
        edges_set_before(e1, bits, w, h, i, j + 1),
{
    let gw = w + 1;
    assert forall|a: int, b: int| 0 <= a <= h && 0 <= b <= w implies #[trigger] e1[a * gw + b] == partial_edge(
        bits, w, h, a, b, i, j + 1) by {
        assert(e0[a * gw + b] == partial_edge(bits, w, h, a, b, i, j));
        if module_dark(bits, w, h, i, j) {
            let c = i * gw + j;
            assert(0 <= a * gw + b < gw * (h + 1)) by (nonlinear_arith)
                requires
                    0 <= a <= h,
                    0 <= b <= w,
                    gw == w + 1,
            ;
            if a * gw + b == c {
                crate::lemma_row_major_unique(a, b, i, j, gw);
            } else if a * gw + b == c + 1 {
                crate::lemma_row_major_unique(a, b, i, j + 1, gw);
            } else if a * gw + b == c + w + 1 {
                assert(c + w + 1 == (i + 1) * gw + j) by (nonlinear_arith)
                    requires
                        c == i * gw + j,
                        gw == w + 1,
                ;
                crate::lemma_row_major_unique(a, b, i + 1, j, gw);
            } else {
                if a == i && b == j {
                    assert(false);
                }
                if a == i && b == j + 1 {
                    assert(false);
                }
                if a == i + 1 && b == j {
                    assert(a * gw + b == c + w + 1) by (nonlinear_arith)
                        requires
                            c == i * gw + j,
                            gw == w + 1,
                            a == i + 1,
                            b == j,
                    ;
                }
            }
        }
    }
}

/// The edge hint moves on over the module `(i, j)`.
proof fn lemma_hint_step(
    hint: Option<usize>,
    old_hint: Option<usize>,
    bits: Seq<bool>,
    w: int,
    h: int,
    i: int,
    j: int,
)
    requires
        0 <= i < h,
        0 <= j < w,
        hint_before(old_hint, bits, w, h, i, j),
        !module_dark(bits, w, h, i, j) ==> hint == old_hint,
        module_dark(bits, w, h, i, j) ==> hint == (match old_hint {
            Some(c) => Some(c),
            None => Some((i * (w + 1) + j) as usize),
        }),
        i * (w + 1) + j <= usize::MAX,
    ensures
        hint_before(hint, bits, w, h, i, j + 1),
{
    match old_hint {
        None => {
            if module_dark(bits, w, h, i, j) {
                assert(before_module(i, j, i, j + 1));
            } else {
                assert forall|a: int, b: int| #[trigger] before_module(a, b, i, j + 1) implies !module_dark(
                    bits, w, h, a, b) by {
                    if !(a == i && b == j) {
                        assert(before_module(a, b, i, j));
                    }
                }
            }
        },
        Some(c) => {
            let (a, b) = choose|a: int, b: int| {
                &&& before_module(a, b, i, j)
                &&& module_dark(bits, w, h, a, b)
                &&& light_before(bits, w, h, a, b)
                &&& c == a * (w + 1) + b
            };
            assert(before_module(a, b, i, j + 1));
        },
    }
}

/// The edge hint moves on from the end of row `i` to the start of the next.
proof fn lemma_hint_next_row(hint: Option<usize>, bits: Seq<bool>, w: int, h: int, i: int)
    requires
        0 <= i < h,
        0 <= w,
        hint_before(hint, bits, w, h, i, w),
    ensures
        hint_before(hint, bits, w, h, i + 1, 0),
{
    match hint {
        None => {
            assert forall|a: int, b: int| #[trigger] before_module(a, b, i + 1, 0) implies !module_dark(
                bits, w, h, a, b) by {
                if a <= i && (a < i || b < w) {
                    assert(before_module(a, b, i, w));
                }
            }
        },
        Some(c) => {
            let (a, b) = choose|a: int, b: int| {
                &&& before_module(a, b, i, w)
                &&& module_dark(bits, w, h, a, b)
                &&& light_before(bits, w, h, a, b)
                &&& c == a * (w + 1) + b
            };
            assert(before_module(a, b, i + 1, 0));
        },
    }
}

/// The cells before the hint have no edge.
proof fn lemma_hint_clear(edges: Seq<Edge>, hint: int, opt: Option<usize>, bits: Seq<bool>, w: int, h: int)
    requires
        0 <= w,
        0 <= h,
        edges.len() == (w + 1) * (h + 1),
        forall|a: int, b: int| 0 <= a <= h && 0 <= b <= w ==> #[trigger] edges[a * (w + 1) + b] == outline_edge(
            bits, w, h, a, b),
        hint_before(opt, bits, w, h, h, 0),
        hint == (match opt {
            Some(c) => c as int,
            None => edges.len() as int,
        }),
    ensures
        hint <= edges.len(),
        forall|k: int| 0 <= k < hint ==> !(#[trigger] edges[k]).left && !edges[k].top,
{
    let gw = w + 1;
    let (a0, b0) = match opt {
        Some(c) => choose|a: int, b: int| {
            &&& before_module(a, b, h, 0)
            &&& module_dark(bits, w, h, a, b)
            &&& light_before(bits, w, h, a, b)
            &&& c == a * (w + 1) + b
        },
        None => (h + 1, 0),
    };
    if opt is Some {
        assert(a0 * gw + b0 < gw * (h + 1)) by (nonlinear_arith)
            requires
                0 <= a0 < h,
                0 <= b0 < w,
                gw == w + 1,
        ;
    } else {
        assert(hint == (h + 1) * gw) by (nonlinear_arith)
            requires
                hint == gw * (h + 1),
        ;
    }
    assert forall|k: int| 0 <= k < hint implies !(#[trigger] edges[k]).left && !edges[k].top by {
        crate::lemma_split_index(k, gw);
        let a = k / gw;
        let b = k % gw;
        assert(k == a * gw + b);
        assert(before_module(a, b, a0, b0)) by {
            if !(a < a0 || (a == a0 && b < b0)) {
                if a > a0 {
                    assert(a * gw + b >= a0 * gw + gw) by (nonlinear_arith)
                        requires
                            a >= a0 + 1,
                            0 <= b,
                            gw > 0,
                    ;
                }
            }
        }
        assert(a <= h) by (nonlinear_arith)
            requires
                k == a * gw + b,
                0 <= b,
                k < gw * (h + 1),
                gw > 0,
        ;
        assert(edges[a * gw + b] == outline_edge(bits, w, h, a, b));
        match opt {
            Some(_) => {
                assert(before_module(a, b - 1, a0, b0));
                assert(before_module(a - 1, b, a0, b0));
            },
            None => {
                assert(before_module(a, b, h, 0) || !module_dark(bits, w, h, a, b));
                assert(before_module(a, b - 1, h, 0) || !module_dark(bits, w, h, a, b - 1));
                assert(before_module(a - 1, b, h, 0) || !module_dark(bits, w, h, a - 1, b));
            },
        }
    }
}

/// The graph of the outline of the dark modules of `bits`, `width` modules
/// per row and `height` rows.
///
/// An edge is set where a dark module borders a light one or the outside.
pub fn bits_to_edge_graph(bits: &[bool], width: usize, height: usize) -> (r: Result<Graph, BitmapConversionError>)
    ensures
        r matches Ok(g) ==> g.wf() && g.width == width && g.height == height,
        r matches Ok(g) ==> forall|i: int, j: int| 0 <= i <= height && 0 <= j <= width ==> #[trigger] g.edges@[i * (
            width + 1) + j] == outline_edge(bits@, width as int, height as int, i, j),
        r matches Ok(g) ==> ((forall|k: int| 0 <= k < bits@.len() ==> !(#[trigger] bits@[k]))
            ==> forall|k: int| 0 <= k < g.edges@.len() ==> !(#[trigger] g.edges@[k]).left && !g.edges@[k].top),
        r matches Ok(g) ==> g.edge_hint <= g.edges@.len() && forall|k: int| 0 <= k < g.edge_hint ==> !(
            #[trigger] g.edges@[k]).left && !g.edges@[k].top,
        width * height <= usize::MAX && bits@.len() != width * height
            ==> r == Err::<Graph, BitmapConversionError>(BitmapConversionError::DataSize),
        bits@.len() == width * height && (width + 1) * (height + 1) <= usize::MAX && width + 1 <= isize::MAX
            && height + 1 <= isize::MAX ==> r is Ok,
{
    proof {
        assert(width * height <= (width + 1) * (height + 1)) by (nonlinear_arith);
    }
    let expected_bits = match width.checked_mul(height) {
        Some(v) => v,
        None => return Err(BitmapConversionError::ArithmeticOverflow),
    };
    if bits.len() != expected_bits {
        return Err(BitmapConversionError::DataSize);
    }
    let graph_width = match width.checked_add(1) {
        Some(v) => v,
        None => return Err(BitmapConversionError::ArithmeticOverflow),
    };
    let graph_height = match height.checked_add(1) {
        Some(v) => v,
        None => return Err(BitmapConversionError::ArithmeticOverflow),
    };
    if graph_width > isize::MAX as usize || graph_height > isize::MAX as usize {
        return Err(BitmapConversionError::ArithmeticOverflow);
    }
    let edge_count = match graph_width.checked_mul(graph_height) {
        Some(v) => v,
        None => return Err(BitmapConversionError::ArithmeticOverflow),
    };
    let mut edges: Vec<Edge> = vec![Edge { left: false, top: false }; edge_count];
    let mut edge_hint: Option<usize> = None;
    let ghost (w, h) = (width as int, height as int);
    proof {
        assert forall|a: int, b: int| 0 <= a <= h && 0 <= b <= w implies #[trigger] edges@[a * (w + 1) + b]
            == partial_edge(bits@, w, h, a, b, 0, 0) by {
            assert(0 <= a * (w + 1) + b < (w + 1) * (h + 1)) by (nonlinear_arith)
                requires
                    0 <= a <= h,
                    0 <= b <= w,
            ;
        }
    }

    let mut i: usize = 0;
    while i < height
        invariant
            edges@.len() == edge_count,
            edge_count == graph_width * graph_height,
            graph_width == width + 1,
            graph_height == height + 1,
            w == width && h == height,
            bits@.len() == width * height,
            bits@.len() <= usize::MAX,
            i <= height,
            edges_set_before(edges@, bits@, w, h, i as int, 0),
            hint_before(edge_hint, bits@, w, h, i as int, 0),
        decreases height - i,
    {
        let mut j: usize = 0;
        while j < width
            invariant
                edges@.len() == edge_count,
                edge_count == graph_width * graph_height,
                graph_width == width + 1,
                graph_height == height + 1,
                w == width && h == height,
                bits@.len() == width * height,
                bits@.len() <= usize::MAX,
                i < height,
                j <= width,
                edges_set_before(edges@, bits@, w, h, i as int, j as int),
                hint_before(edge_hint, bits@, w, h, i as int, j as int),
            decreases width - j,
        {
            proof {
                assert(i * width + j < width * height) by (nonlinear_arith)
                    requires i < height, j < width;
                assert(i * graph_width + j + graph_width + 1 <= graph_width * graph_height) by (nonlinear_arith)
                    requires i < height, j < width, graph_width == width + 1, graph_height == height + 1;
            }
            proof {
                assert(i * width + width <= width * height) by (nonlinear_arith)
                    requires i < height;
                assert(i * width <= i * width + j);
                if i >= 1 {
                    assert(i * width >= width) by (nonlinear_arith)
                        requires i >= 1;
                    assert((i - 1) * width + j == i * width + j - width) by (nonlinear_arith);
                }
                if i + 1 < height {
                    assert(i * width + j + width < width * height) by (nonlinear_arith)
                        requires i + 1 < height, j < width;
                    assert((i + 1) * width + j == i * width + j + width) by (nonlinear_arith);
                }
            }
            let idx = i * width + j;
            let ghost e0 = edges@;
            let ghost old_hint = edge_hint;
            if bits[idx] {
                let cell = i * graph_width + j;
                if edge_hint.is_none() {
                    edge_hint = Some(cell);
                }
                let left_open = j == 0 || !bits[idx - 1];
                let top_open = if i == 0 { true } else { !bits[idx - width] };
                let right_open = j == width - 1 || !bits[idx + 1];
                let bottom_open = if i == height - 1 { true } else { !bits[idx + width] };
                proof {
                    assert(left_open == !module_dark(bits@, w, h, i as int, j - 1));
                    assert(top_open == !module_dark(bits@, w, h, i - 1, j as int));
                    assert(right_open == !module_dark(bits@, w, h, i as int, j + 1));
                    assert(bottom_open == !module_dark(bits@, w, h, i + 1, j as int));
                }
                let ghost e1 = edges@;
                if left_open {
                    set_edge(&mut edges, cell, EdgeSide::Left)?;
                }
                let ghost e2 = edges@;
                if top_open {
                    set_edge(&mut edges, cell, EdgeSide::Top)?;
                }
                let ghost e3 = edges@;
                if right_open {
                    set_edge(&mut edges, cell + 1, EdgeSide::Left)?;
                }
                let ghost e4 = edges@;
                if bottom_open {
                    set_edge(&mut edges, cell + graph_width, EdgeSide::Top)?;
                }
                proof {
                    let c = cell as int;
                    assert(edges@[c] == Edge { left: e0[c].left || left_open, top: e0[c].top || top_open });
                    assert(edges@[c + 1] == Edge { left: e0[c + 1].left || right_open, top: e0[c + 1].top });
                    assert(edges@[c + w + 1] == Edge {
                        left: e0[c + w + 1].left,
                        top: e0[c + w + 1].top || bottom_open,
                    });
                    assert forall|k: int| 0 <= k < e0.len() && k != c && k != c + 1 && k != c + w + 1
                        implies #[trigger] edges@[k] == e0[k] by {
                        assert(e4[k] == e3[k] && e3[k] == e2[k] && e2[k] == e1[k]);
                    }
                }
            }
            proof {
                lemma_edges_step(e0, edges@, bits@, w, h, i as int, j as int);
                lemma_hint_step(edge_hint, old_hint, bits@, w, h, i as int, j as int);
            }
            j += 1;
        }
        proof {
            assert forall|a: int, b: int| 0 <= a <= h && 0 <= b <= w implies #[trigger] edges@[a * (w + 1) + b]
                == partial_edge(bits@, w, h, a, b, i + 1, 0) by {
                assert(edges@[a * (w + 1) + b] == partial_edge(bits@, w, h, a, b, i as int, w));
            }
            lemma_hint_next_row(edge_hint, bits@, w, h, i as int);
        }
        i += 1;
    }
    proof {
        assert forall|a: int, b: int| 0 <= a <= h && 0 <= b <= w implies #[trigger] edges@[a * (w + 1) + b]
            == outline_edge(bits@, w, h, a, b) by {
            assert(edges@[a * (w + 1) + b] == partial_edge(bits@, w, h, a, b, h, 0));
        }
        if forall|k: int| 0 <= k < bits@.len() ==> !(#[trigger] bits@[k]) {
            assert forall|k: int| 0 <= k < edges@.len() implies !(#[trigger] edges@[k]).left && !edges@[k].top by {
                let a = k / (w + 1);
                let b = k % (w + 1);
                crate::lemma_split_index(k, w + 1);
                assert(a <= h) by (nonlinear_arith)
                    requires
                        k == a * (w + 1) + b,
                        0 <= b,
                        k < (w + 1) * (h + 1),
                        w + 1 > 0,
                ;
                assert(edges@[a * (w + 1) + b] == outline_edge(bits@, w, h, a, b));
                if 0 <= a < h && 0 <= b < w {
                    assert(0 <= a * w + b < w * h) by (nonlinear_arith)
                        requires
                            0 <= a < h,
                            0 <= b < w,
                    ;
                    assert(!bits@[a * w + b]);
                }
                if 0 <= a < h && 0 <= b - 1 < w {
                    assert(0 <= a * w + b - 1 < w * h) by (nonlinear_arith)
                        requires
                            0 <= a < h,
                            0 <= b - 1 < w,
                    ;
                    assert(!bits@[a * w + (b - 1)]);
                }
                if 0 <= a - 1 < h && 0 <= b < w {
                    assert(0 <= (a - 1) * w + b < w * h) by (nonlinear_arith)
                        requires
                            0 <= a - 1 < h,
                            0 <= b < w,
                    ;
                    assert(!bits@[(a - 1) * w + b]);
                }
            }
        }
    }
    let hint = match edge_hint {
        Some(h) => h,
        None => edges.len(),
    };
    proof {
        lemma_hint_clear(edges@, hint as int, edge_hint, bits@, w, h);
    }
    Ok(Graph { edges, width, height, edge_hint: hint })
}

/// `left + right`, or an overflow error.
fn checked_add(left: isize, right: isize) -> (r: Result<isize, BitmapConversionError>)
    ensures
        isize::MIN <= left + right <= isize::MAX ==> r == Ok::<isize, BitmapConversionError>((left + right) as isize),
        !(isize::MIN <= left + right <= isize::MAX) ==> r == Err::<isize, BitmapConversionError>(
            BitmapConversionError::ArithmeticOverflow),
{
    match left.checked_add(right) {
        Some(v) => Ok(v),
        None => Err(BitmapConversionError::ArithmeticOverflow),
    }
}

/// `left - right`, or an overflow error.
fn checked_sub(left: isize, right: isize) -> (r: Result<isize, BitmapConversionError>)
    ensures
        isize::MIN <= left - right <= isize::MAX ==> r == Ok::<isize, BitmapConversionError>((left - right) as isize),
        !(isize::MIN <= left - right <= isize::MAX) ==> r == Err::<isize, BitmapConversionError>(
            BitmapConversionError::ArithmeticOverflow),
{
    match left.checked_sub(right) {
        Some(v) => Ok(v),
        None => Err(BitmapConversionError::ArithmeticOverflow),
    }
}

/// Joins consecutive steps in one direction into one draw, and turns jumps
/// into a close followed by a move. The result ends with a close.
pub fn compress_path(micro_steps: &Vec<MicroStep>) -> (r: Result<Vec<PathSegment>, BitmapConversionError>)
    ensures
        r matches Ok(v) ==> v@.len() >= 1 && v@.last() == PathSegment::Close,
{
    let mut steps: Vec<PathSegment> = Vec::new();
    let mut pos: (isize, isize) = (0, 0);
    // The step in progress.
    let mut step_wip: Option<PathSegment> = None;
    let mut k: usize = 0;
    while k < micro_steps.len()
        invariant
            k <= micro_steps@.len(),
            step_wip matches Some(s) ==> (s is Horizontal || s is Vertical),
        decreases micro_steps@.len() - k,
    {
        match micro_steps[k] {
            MicroStep::Step((i, j)) => {
                match step_wip {
                    // Extend the step in progress when possible.
                    Some(PathSegment::Horizontal(m)) if i == pos.0 => {
                        let distance = checked_sub(j, pos.1)?;
                        step_wip = Some(PathSegment::Horizontal(checked_add(m, distance)?));
                    },
                    Some(PathSegment::Vertical(m)) if j == pos.1 => {
                        let distance = checked_sub(i, pos.0)?;
                        step_wip = Some(PathSegment::Vertical(checked_add(m, distance)?));
                    },
                    // Start a new step.
                    other => {
                        if let Some(o) = other {
                            steps.push(o);
                        }
                        if i == pos.0 {
                            step_wip = Some(PathSegment::Horizontal(checked_sub(j, pos.1)?));
                        } else {
                            step_wip = Some(PathSegment::Vertical(checked_sub(i, pos.0)?));
                        }
                    },
                }
                pos = (i, j);
            },
            MicroStep::Jump((i, j)) => {
                // Drop the step in progress; the close draws it.
                step_wip = None;
                steps.push(PathSegment::Close);
                let dx = checked_sub(j, pos.1)?;
                let dy = checked_sub(i, pos.0)?;
                steps.push(PathSegment::Move(dx, dy));
                pos = (i, j);
            },
        }
        k += 1;
    }
    steps.push(PathSegment::Close);
    Ok(steps)
}

/// `elements` with `inserted` inserted before position `at`.
fn splice(elements: &Vec<MicroStep>, at: usize, inserted: &Vec<MicroStep>) -> (r: Vec<MicroStep>)
    requires
        at <= elements@.len(),
    ensures
        r@ == elements@.subrange(0, at as int) + inserted@ + elements@.subrange(at as int, elements@.len() as int),
{
    let mut out: Vec<MicroStep> = Vec::new();
    let mut k: usize = 0;
    while k < at
        invariant
            at <= elements@.len(),
            k <= at,
            out@ == elements@.subrange(0, k as int),
        decreases at - k,
    {
        out.push(elements[k]);
        k += 1;
        assert(out@ =~= elements@.subrange(0, k as int));
    }
    let mut k: usize = 0;
    while k < inserted.len()
        invariant
            at <= elements@.len(),
            k <= inserted@.len(),
            out@ == elements@.subrange(0, at as int) + inserted@.subrange(0, k as int),
        decreases inserted@.len() - k,
    {
        out.push(inserted[k]);
        k += 1;
        assert(out@ =~= elements@.subrange(0, at as int) + inserted@.subrange(0, k as int));
    }
    let mut k: usize = at;
    while k < elements.len()
        invariant
            at <= k <= elements@.len(),
            out@ == elements@.subrange(0, at as int) + inserted@ + elements@.subrange(at as int, k as int),
        decreases elements@.len() - k,
    {
        assert(inserted@.subrange(0, inserted@.len() as int) =~= inserted@);
        out.push(elements[k]);
        k += 1;
        assert(out@ =~= elements@.subrange(0, at as int) + inserted@ + elements@.subrange(at as int, k as int));
    }
    assert(inserted@.subrange(0, inserted@.len() as int) =~= inserted@);
    out
}

impl Bitmap {
    /// Vector path drawing instructions for the bitmap: relative draws,
    /// relative moves and closes.
    ///
    /// The path shows the bitmap when it is filled with the even-odd rule
    /// (SVG and PDF support it). The coordinate system is that of
    /// [pixels()](Self::pixels); only relative coordinates are returned.
    ///
    /// The outline is modelled as a graph, which is decomposed into Eulerian circuits.
    pub fn path(&self) -> (r: Result<Vec<PathSegment>, BitmapConversionError>)
        requires
            self.wf(),
        ensures
            (forall|k: int| 0 <= k < self.spec_bits().len() ==> !(#[trigger] self.spec_bits()[k]))
                ==> (r matches Ok(v) && v@.len() == 0),
            r matches Ok(v) ==> v@.len() == 0 || v@.last() == PathSegment::Close,
    {
        proof {
            vstd::arithmetic::div_mod::lemma_fundamental_div_mod(self.spec_bits().len() as int, self.spec_width());
            assert(self.spec_bits().len() == self.spec_width() * self.spec_height()) by (nonlinear_arith)
                requires self.spec_bits().len() == self.spec_width() * ((self.spec_bits().len() as int) / self.spec_width())
                    + (self.spec_bits().len() as int) % self.spec_width(),
                    (self.spec_bits().len() as int) % self.spec_width() == 0,
                    self.spec_height() == (self.spec_bits().len() as int) / self.spec_width();
        }
        let mut graph = bits_to_edge_graph(self.bits(), self.width(), self.height())?;
        proof {
            if forall|k: int| 0 <= k < self.spec_bits().len() ==> !(#[trigger] self.spec_bits()[k]) {
                lemma_edge_count_zero(graph.edges@);
            }
        }
        let mut pos = match graph.edge_left() {
            Some(p) => p,
            None => return Ok(Vec::new()),
        };
        let ghost dark = !(forall|k: int| 0 <= k < self.spec_bits().len() ==> !(#[trigger] self.spec_bits()[k]));
        assert(dark);
        let mut elements: Vec<MicroStep> = Vec::new();
        let mut alternatives: Vec<(usize, Position)> = Vec::new();
        let mut insert: usize = 0;
        // Loop over the Eulerian tours of the graph (there may be several).
        loop
            invariant
                graph.wf(),
                small(pos),
                dark == !(forall|k: int| 0 <= k < self.spec_bits().len() ==> !(#[trigger] self.spec_bits()[k])),
                dark,
                forall|q: int| 0 <= q < alternatives@.len() ==> small(#[trigger] alternatives@[q].1),
            decreases edge_count(graph.edges@),
        {
            let ghost outer_count = edge_count(graph.edges@);
            // Complete an Eulerian tour, by Hierholzer's algorithm.
            loop
                invariant
                    graph.wf(),
                    small(pos),
                    dark == !(forall|k: int| 0 <= k < self.spec_bits().len() ==> !(#[trigger] self.spec_bits()[k])),
                    dark,
                    forall|q: int| 0 <= q < alternatives@.len() ==> small(#[trigger] alternatives@[q].1),
                    edge_count(graph.edges@) <= outer_count,
                ensures
                    graph.wf(),
                    edge_count(graph.edges@) < outer_count,
                decreases edge_count(graph.edges@),
            {
                let mut local_loop: Vec<MicroStep> = Vec::new();
                let insert_pos = insert;
                if !graph.remove_edge(&pos) {
                    return Err(BitmapConversionError::InternalError("Eulerian path without a start edge"));
                }
                let ghost tour_count = edge_count(graph.edges@);
                let start = pos.start_node();
                local_loop.push(MicroStep::Step(pos.end_node()));
                insert = match insert.checked_add(1) {
                    Some(v) => v,
                    None => return Err(BitmapConversionError::ArithmeticOverflow),
                };
                // Walk until the start node is reached again.
                loop
                    invariant
                        graph.wf(),
                        small(pos),
                        dark == !(forall|k: int| 0 <= k < self.spec_bits().len() ==> !(#[trigger] self.spec_bits()[k])),
                        dark,
                        forall|q: int| 0 <= q < alternatives@.len() ==> small(#[trigger] alternatives@[q].1),
                        edge_count(graph.edges@) <= tour_count,
                        tour_count < outer_count,
                    decreases edge_count(graph.edges@),
                {
                    let (new_pos, had_alternatives) = graph.follow(&pos);
                    if had_alternatives {
                        alternatives.push((insert, pos));
                    }
                    pos = match new_pos {
                        Some(p) => p,
                        None => return Err(BitmapConversionError::InternalError("Eulerian path without a next edge")),
                    };
                    proof {
                        assert(graph.spec_has_cell(pos.i as int, pos.j as int));
                    }
                    if !graph.remove_edge(&pos) {
                        return Err(BitmapConversionError::InternalError("Eulerian path edge not removed"));
                    }
                    let end = pos.end_node();
                    local_loop.push(MicroStep::Step(end));
                    if end.0 == start.0 && end.1 == start.1 {
                        break;
                    }
                    insert = match insert.checked_add(1) {
                        Some(v) => v,
                        None => return Err(BitmapConversionError::ArithmeticOverflow),
                    };
                }
                if insert_pos > elements.len() {
                    return Err(BitmapConversionError::InternalError("Eulerian path insert position out of range"));
                }
                elements = splice(&elements, insert_pos, &local_loop);

                // Are there edges left for this tour?
                let mut next: Option<(usize, Position)> = None;
                let mut a: usize = 0;
                while a < alternatives.len()
                    invariant
                        graph.wf(),
                        a <= alternatives@.len(),
                        next matches Some((_, p)) ==> graph.spec_has_edge(p),
                        forall|q: int| 0 <= q < alternatives@.len() ==> small(#[trigger] alternatives@[q].1),
                    decreases alternatives@.len() - a,
                {
                    if next.is_none() {
                        let (idx, pos_alt) = alternatives[a];
                        if let Some(new_pos) = graph.can_step(&pos_alt) {
                            next = Some((idx, new_pos));
                        }
                    }
                    a += 1;
                }
                alternatives.clear();
                match next {
                    Some((idx, new_pos)) => {
                        pos = new_pos;
                        insert = idx;
                    },
                    None => break,
                }
            }

            // Start a new tour if edges are left in the graph.
            match graph.edge_left() {
                Some(new_pos) => {
                    elements.push(MicroStep::Jump(new_pos.start_node()));
                    pos = new_pos;
                    insert = elements.len();
                },
                None => break,
            }
        }
        compress_path(&elements)
    }
}

} // verus!
