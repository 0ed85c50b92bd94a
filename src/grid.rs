use vstd::prelude::*;

verus! {

/// The four states a Wireworld cell can be in.
#[derive(Debug, PartialEq, Eq, Structural, Copy, Clone)]
pub enum CellType {
    Empty,
    ElectronHead,
    ElectronTail,
    Conductor,
}

/// The coordinates of the rectangle `[min_x, max_x] x [cy, max_y]` that come
/// at or after `(cx, cy)` in row-major order: the rest of row `cy` from `cx`
/// on, then every later row whole.
pub open spec fn range_from(cx: int, cy: int, min_x: int, max_x: int, max_y: int) -> Seq<
    (usize, usize),
>
    decreases max_y - cy + 1, max_x - cx + 1,
{
    if cy > max_y || cx > max_x {
        Seq::empty()
    } else if cx < max_x {
        seq![(cx as usize, cy as usize)] + range_from(cx + 1, cy, min_x, max_x, max_y)
    } else {
        seq![(cx as usize, cy as usize)] + range_from(min_x, cy + 1, min_x, max_x, max_y)
    }
}

/// Every coordinate of the rectangle `[min_x, max_x] x [min_y, max_y]`,
/// row by row (ascending `y`), each row in ascending `x`.
pub open spec fn range_seq(min_x: int, max_x: int, min_y: int, max_y: int) -> Seq<(usize, usize)> {
    range_from(min_x, min_y, min_x, max_x, max_y)
}

/// Enumerates a rectangle of coordinates in row-major order.
pub struct TwoDimensionRangeIterator {
    current_x: usize,
    current_y: usize,
    min_x: usize,
    max_x: usize,
    min_y: usize,
    max_y: usize,
    done: bool,
}

impl TwoDimensionRangeIterator {
    /// The position of a live iterator lies inside its rectangle.
    pub closed spec fn wf(&self) -> bool {
        !self.done ==> {
            &&& self.min_x <= self.current_x <= self.max_x
            &&& self.min_y <= self.current_y <= self.max_y
        }
    }

    /// The coordinates still to come, in the order they will come.
    pub closed spec fn remaining(&self) -> Seq<(usize, usize)> {
        if self.done {
            Seq::empty()
        } else {
            range_from(
                self.current_x as int,
                self.current_y as int,
                self.min_x as int,
                self.max_x as int,
                self.max_y as int,
            )
        }
    }

    /// An enumeration of `[min_x, max_x] x [min_y, max_y]`; empty when either
    /// bound pair is reversed.
    pub fn new(min_x: usize, max_x: usize, min_y: usize, max_y: usize) -> (r:
        TwoDimensionRangeIterator)
        ensures
            r.wf(),
            r.remaining() == range_seq(min_x as int, max_x as int, min_y as int, max_y as int),
    {
        let r = TwoDimensionRangeIterator {
            current_x: min_x,
            current_y: min_y,
            min_x,
            max_x,
            min_y,
            max_y,
            done: min_x > max_x || min_y > max_y,
        };
        proof {
            if r.done {
                reveal_with_fuel(range_from, 1);
            }
        }
        r
    }

    /// Hands out the next coordinate, or `None` once the rectangle is used up.
    pub fn next(&mut self) -> (r: Option<(usize, usize)>)
        requires
            old(self).wf(),
        ensures
            final(self).wf(),
            match r {
                None => old(self).remaining().len() == 0 && final(self).remaining() == old(
                    self,
                ).remaining(),
                Some(c) => old(self).remaining().len() > 0 && c == old(self).remaining()[0]
                    && final(self).remaining() == old(self).remaining().drop_first(),
            },
    {
        if self.done {
            return None;
        }
        let current = (self.current_x, self.current_y);
        let ghost rest = range_from(
            self.current_x as int,
            self.current_y as int,
            self.min_x as int,
            self.max_x as int,
            self.max_y as int,
        );
        if self.current_x < self.max_x {
            self.current_x = self.current_x + 1;
        } else {
            self.current_x = self.min_x;
            if self.current_y < self.max_y {
                self.current_y = self.current_y + 1;
            } else {
                self.done = true;
                assert(range_from(
                    self.min_x as int,
                    self.current_y as int + 1,
                    self.min_x as int,
                    self.max_x as int,
                    self.max_y as int,
                ) == Seq::<(usize, usize)>::empty());
            }
        }
        assert(rest.drop_first() =~= self.remaining());
        Some(current)
    }

    /// All the coordinates still to come, in order.
    pub fn collect(self) -> (r: Vec<(usize, usize)>)
        requires
            self.wf(),
        ensures
            r@ == self.remaining(),
    {
        let ghost all = self.remaining();
        let mut it = self;
        let mut out: Vec<(usize, usize)> = Vec::new();
        loop
            invariant
                it.wf(),
                all == out@ + it.remaining(),
            ensures
                out@ == all,
            decreases it.remaining().len(),
        {
            match it.next() {
                None => {
                    assert(all =~= out@);
                    break;
                },
                Some(c) => {
                    out.push(c);
                    assert(all =~= out@ + it.remaining());
                },
            }
        }
        out
    }
}

/// `a` comes strictly before `b` in row-major order.
pub open spec fn row_major_lt(a: (usize, usize), b: (usize, usize)) -> bool {
    a.1 < b.1 || (a.1 == b.1 && a.0 < b.0)
}

/// Each coordinate of `s` comes strictly before every later one in row-major order.
pub open spec fn row_major_sorted(s: Seq<(usize, usize)>) -> bool {
    forall|i: int, j: int| 0 <= i < j < s.len() ==> row_major_lt(#[trigger] s[i], #[trigger] s[j])
}

/// Shape of `range_from`: its length, the bounds of its coordinates, its
/// strict row-major order, and that it holds every coordinate of its part
/// of the rectangle.
proof fn lemma_range_from(cx: int, cy: int, min_x: int, max_x: int, max_y: int)
    requires
        0 <= min_x <= cx <= max_x <= usize::MAX,
        0 <= cy <= max_y <= usize::MAX,
    ensures
        range_from(cx, cy, min_x, max_x, max_y).len() == (max_x - cx + 1) + (max_y - cy) * (
        max_x - min_x + 1),
        row_major_sorted(range_from(cx, cy, min_x, max_x, max_y)),
        forall|i: int|
            0 <= i < range_from(cx, cy, min_x, max_x, max_y).len() ==> {
                let p = #[trigger] range_from(cx, cy, min_x, max_x, max_y)[i];
                &&& min_x <= p.0 <= max_x
                &&& cy <= p.1 <= max_y
                &&& p.1 == cy ==> cx <= p.0
            },
        forall|p: (usize, usize)|
            min_x <= p.0 <= max_x && cy <= p.1 <= max_y && (p.1 == cy ==> cx <= p.0)
                ==> #[trigger] range_from(cx, cy, min_x, max_x, max_y).contains(p),
    decreases max_y - cy + 1, max_x - cx + 1,
{
    let s = range_from(cx, cy, min_x, max_x, max_y);
    let cols = max_x - min_x + 1;
    let head = (cx as usize, cy as usize);
    let t = if cx < max_x {
        range_from(cx + 1, cy, min_x, max_x, max_y)
    } else {
        range_from(min_x, cy + 1, min_x, max_x, max_y)
    };
    assert(s == seq![head] + t);
    if cx < max_x {
        lemma_range_from(cx + 1, cy, min_x, max_x, max_y);
    } else if cy < max_y {
        lemma_range_from(min_x, cy + 1, min_x, max_x, max_y);
        assert((max_y - cy - 1) * cols + cols == (max_y - cy) * cols) by (nonlinear_arith);
    } else {
        assert(t.len() == 0);
        assert((max_y - cy) * cols == 0) by (nonlinear_arith)
            requires
                max_y - cy == 0,
        ;
    }
    assert forall|i: int| 0 < i < s.len() implies s[i] == t[i - 1] && row_major_lt(
        head,
        #[trigger] s[i],
    ) by {}
    assert forall|i: int, j: int| 0 <= i < j < s.len() implies row_major_lt(
        #[trigger] s[i],
        #[trigger] s[j],
    ) by {
        if i > 0 {
            assert(s[i] == t[i - 1] && s[j] == t[j - 1]);
        }
    }
    assert forall|p: (usize, usize)|
        min_x <= p.0 <= max_x && cy <= p.1 <= max_y && (p.1 == cy ==> cx <= p.0) implies #[trigger] s.contains(
        p,
    ) by {
        if p == head {
            assert(s[0] == p);
        } else {
            assert(t.contains(p));
            let k = choose|k: int| 0 <= k < t.len() && t[k] == p;
            assert(s[k + 1] == p);
        }
    }
}

/// A rectangular range, `[min_x, max_x] x [min_y, max_y]`, is enumerated in
/// strict row-major order, stays inside the rectangle, holds every
/// coordinate of it, and has exactly `(max_x - min_x + 1) * (max_y - min_y + 1)`
/// items.
pub proof fn lemma_range_seq_row_major(min_x: usize, max_x: usize, min_y: usize, max_y: usize)
    requires
        min_x <= max_x,
        min_y <= max_y,
    ensures
        range_seq(min_x as int, max_x as int, min_y as int, max_y as int).len() == (max_x - min_x
            + 1) * (max_y - min_y + 1),
        row_major_sorted(range_seq(min_x as int, max_x as int, min_y as int, max_y as int)),
        forall|i: int|
            0 <= i < range_seq(min_x as int, max_x as int, min_y as int, max_y as int).len() ==> {
                let p = #[trigger] range_seq(
                    min_x as int,
                    max_x as int,
                    min_y as int,
                    max_y as int,
                )[i];
                &&& min_x <= p.0 <= max_x
                &&& min_y <= p.1 <= max_y
            },
        forall|p: (usize, usize)|
            min_x <= p.0 <= max_x && min_y <= p.1 <= max_y ==> #[trigger] range_seq(
                min_x as int,
                max_x as int,
                min_y as int,
                max_y as int,
            ).contains(p),
{
    let cols = max_x - min_x + 1;
    let rows = max_y - min_y + 1;
    lemma_range_from(min_x as int, min_y as int, min_x as int, max_x as int, max_y as int);
    assert(cols + (max_y - min_y) * cols == cols * rows) by (nonlinear_arith)
        requires
            rows == max_y - min_y + 1,
    ;
}

/// Lowest index of the window of width three around `c`, clamped to `[0, len)`.
pub open spec fn window_low(c: int, len: int) -> int {
    if c == 0 {
        0
    } else if c - 1 < len - 1 {
        c - 1
    } else {
        len - 1
    }
}

/// Highest index of the window of width three around `c`, clamped to `[0, len)`.
pub open spec fn window_high(c: int, len: int) -> int {
    if c + 1 < len - 1 {
        c + 1
    } else {
        len - 1
    }
}

/// Holds of every coordinate but `(x, y)`.
pub open spec fn not_at(x: usize, y: usize) -> spec_fn((usize, usize)) -> bool {
    |p: (usize, usize)| p != (x, y)
}

/// The Moore neighborhood of `(x, y)` in a `width x height` grid: the clamped
/// 3x3 window around it in row-major order, without the center.
pub open spec fn moore_seq(x: usize, y: usize, width: usize, height: usize) -> Seq<(usize, usize)> {
    range_seq(
        window_low(x as int, width as int),
        window_high(x as int, width as int),
        window_low(y as int, height as int),
        window_high(y as int, height as int),
    ).filter(not_at(x, y))
}

/// `c` clamped into the window's lower bound, as `saturating_sub` then
/// clamping to `[0, len - 1]` computes it.
fn lower_bound(c: usize, len: usize) -> (r: usize)
    requires
        len >= 1,
    ensures
        r == window_low(c as int, len as int),
{
    let s = c.saturating_sub(1);
    if s > len - 1 {
        len - 1
    } else {
        s
    }
}

/// `c` clamped into the window's upper bound, as `saturating_add` then
/// clamping to `[0, len - 1]` computes it.
fn upper_bound(c: usize, len: usize) -> (r: usize)
    requires
        len >= 1,
    ensures
        r == window_high(c as int, len as int),
{
    let s = c.saturating_add(1);
    if s > len - 1 {
        len - 1
    } else {
        s
    }
}

/// The coordinates around `(x, y)` that lie inside a `width x height` grid,
/// in row-major order, without `(x, y)` itself.
pub fn get_moore_neighborhood_iterator(x: usize, y: usize, width: usize, height: usize) -> (r: Vec<
    (usize, usize),
>)
    requires
        width >= 1,
        height >= 1,
    ensures
        r@ == moore_seq(x, y, width, height),
{
    let min_x = lower_bound(x, width);
    let max_x = upper_bound(x, width);
    let min_y = lower_bound(y, height);
    let max_y = upper_bound(y, height);
    let mut it = TwoDimensionRangeIterator::new(min_x, max_x, min_y, max_y);
    let ghost all = it.remaining();
    let ghost keep = not_at(x, y);
    let ghost mut k: int = 0;
    let mut out: Vec<(usize, usize)> = Vec::new();
    loop
        invariant
            it.wf(),
            0 <= k <= all.len(),
            it.remaining() == all.skip(k),
            out@ == all.take(k).filter(keep),
            keep == not_at(x, y),
        ensures
            out@ == all.filter(keep),
        decreases it.remaining().len(),
    {
        match it.next() {
            None => {
                assert(all.take(k) =~= all);
                break;
            },
            Some(c) => {
                proof {
                    assert(all.take(k + 1) =~= all.take(k).push(c));
                    all.take(k).lemma_filter_push(c, keep);
                    assert(it.remaining() =~= all.skip(k + 1));
                    k = k + 1;
                }
                if c.0 != x || c.1 != y {
                    out.push(c);
                }
            },
        }
    }
    out
}

/// Filtering a sequence whose every item passes leaves it as it is.
proof fn lemma_filter_keeps_all(s: Seq<(usize, usize)>, keep: spec_fn((usize, usize)) -> bool)
    requires
        forall|i: int| 0 <= i < s.len() ==> keep(#[trigger] s[i]),
    ensures
        s.filter(keep) == s,
    decreases s.len(),
{
    reveal(Seq::filter);
    if s.len() > 0 {
        lemma_filter_keeps_all(s.drop_last(), keep);
        assert(s.drop_last().push(s.last()) =~= s);
    }
}

/// Removing one coordinate from a sorted sequence that holds it shortens the
/// sequence by exactly one.
proof fn lemma_filter_removes_one(s: Seq<(usize, usize)>, x: usize, y: usize)
    requires
        row_major_sorted(s),
        s.contains((x, y)),
    ensures
        s.filter(not_at(x, y)).len() == s.len() - 1,
    decreases s.len(),
{
    reveal(Seq::filter);
    let init = s.drop_last();
    assert(row_major_sorted(init)) by {
        assert forall|i: int, j: int| 0 <= i < j < init.len() implies row_major_lt(
            #[trigger] init[i],
            #[trigger] init[j],
        ) by {
            assert(init[i] == s[i] && init[j] == s[j]);
        }
    }
    if s.last() == (x, y) {
        assert forall|i: int| 0 <= i < init.len() implies not_at(x, y)(#[trigger] init[i]) by {
            assert(init[i] == s[i]);
            assert(row_major_lt(s[i], s[s.len() - 1]));
        }
        lemma_filter_keeps_all(init, not_at(x, y));
    } else {
        let k = choose|k: int| 0 <= k < s.len() && s[k] == (x, y);
        assert(init[k] == (x, y));
        lemma_filter_removes_one(init, x, y);
    }
}

/// Every neighbor of a cell lies inside the grid, within one step of the
/// cell in each direction, and is not the cell itself; every such coordinate
/// is a neighbor.
pub proof fn lemma_moore_seq_members(x: usize, y: usize, width: usize, height: usize)
    requires
        x < width,
        y < height,
    ensures
        forall|i: int|
            0 <= i < moore_seq(x, y, width, height).len() ==> {
                let p = #[trigger] moore_seq(x, y, width, height)[i];
                &&& p.0 < width && p.1 < height
                &&& x - 1 <= p.0 <= x + 1 && y - 1 <= p.1 <= y + 1
                &&& p != (x, y)
            },
        forall|p: (usize, usize)|
            p.0 < width && p.1 < height && x - 1 <= p.0 <= x + 1 && y - 1 <= p.1 <= y + 1 && p != (
            x,
            y,
        ) ==> #[trigger] moore_seq(x, y, width, height).contains(p),
{
    let lx = window_low(x as int, width as int) as usize;
    let hx = window_high(x as int, width as int) as usize;
    let ly = window_low(y as int, height as int) as usize;
    let hy = window_high(y as int, height as int) as usize;
    let r = range_seq(lx as int, hx as int, ly as int, hy as int);
    let keep = not_at(x, y);
    lemma_range_seq_row_major(lx, hx, ly, hy);
    broadcast use Seq::lemma_filter_pred, Seq::lemma_filter_contains_rev;

    assert forall|i: int| 0 <= i < r.filter(keep).len() implies {
        let p = #[trigger] r.filter(keep)[i];
        &&& p.0 < width && p.1 < height
        &&& x - 1 <= p.0 <= x + 1 && y - 1 <= p.1 <= y + 1
        &&& p != (x, y)
    } by {
        let p = r.filter(keep)[i];
        assert(r.filter(keep).contains(p));
        assert(r.contains(p));
        assert(keep(p));
    }
    assert forall|p: (usize, usize)|
        p.0 < width && p.1 < height && x - 1 <= p.0 <= x + 1 && y - 1 <= p.1 <= y + 1 && p != (
        x,
        y,
    ) implies #[trigger] r.filter(keep).contains(p) by {
        assert(r.contains(p));
        let k = choose|k: int| 0 <= k < r.len() && r[k] == p;
        r.lemma_filter_contains(keep, k);
    }
}

/// In a grid at least two cells wide and high, a corner cell has exactly 3
/// neighbors, any other cell on the border has 5, and an interior cell has 8.
pub proof fn lemma_moore_seq_count(x: usize, y: usize, width: usize, height: usize)
    requires
        2 <= width,
        2 <= height,
        x < width,
        y < height,
    ensures
        ({
            let edge_x = x == 0 || x == width - 1;
            let edge_y = y == 0 || y == height - 1;
            moore_seq(x, y, width, height).len() == if edge_x && edge_y {
                3int
            } else if edge_x || edge_y {
                5int
            } else {
                8int
            }
        }),
{
    let lx = window_low(x as int, width as int) as usize;
    let hx = window_high(x as int, width as int) as usize;
    let ly = window_low(y as int, height as int) as usize;
    let hy = window_high(y as int, height as int) as usize;
    let r = range_seq(lx as int, hx as int, ly as int, hy as int);
    lemma_range_seq_row_major(lx, hx, ly, hy);
    assert(r.contains((x, y)));
    lemma_filter_removes_one(r, x, y);
    let cols = hx - lx + 1;
    let rows = hy - ly + 1;
    assert(cols == if x == 0 || x == width - 1 { 2int } else { 3int });
    assert(rows == if y == 0 || y == height - 1 { 2int } else { 3int });
    assert(cols * rows == if cols == 2 && rows == 2 { 4int } else if cols == 2 || rows == 2 {
        6int
    } else {
        9int
    }) by (nonlinear_arith)
        requires
            cols == 2 || cols == 3,
            rows == 2 || rows == 3,
    ;
}

/// A cell inside a grid has at most 8 neighbors.
pub proof fn lemma_moore_seq_at_most_eight(x: usize, y: usize, width: usize, height: usize)
    requires
        x < width,
        y < height,
    ensures
        moore_seq(x, y, width, height).len() <= 8,
{
    let lx = window_low(x as int, width as int) as usize;
    let hx = window_high(x as int, width as int) as usize;
    let ly = window_low(y as int, height as int) as usize;
    let hy = window_high(y as int, height as int) as usize;
    let r = range_seq(lx as int, hx as int, ly as int, hy as int);
    lemma_range_seq_row_major(lx, hx, ly, hy);
    assert(r.contains((x, y)));
    lemma_filter_removes_one(r, x, y);
    let cols = hx - lx + 1;
    let rows = hy - ly + 1;
    assert(cols * rows <= 9) by (nonlinear_arith)
        requires
            1 <= cols <= 3,
            1 <= rows <= 3,
    ;
}

/// A nonempty rectangle of cell states, one row per `y`, all rows as wide,
/// each side addressable by a `usize`.
pub open spec fn is_grid(g: Seq<Seq<CellType>>) -> bool {
    &&& 1 <= g.len() <= usize::MAX
    &&& 1 <= g[0].len() <= usize::MAX
    &&& forall|y: int| 0 <= y < g.len() ==> (#[trigger] g[y]).len() == g[0].len()
}

/// Number of columns of a grid.
pub open spec fn grid_width(g: Seq<Seq<CellType>>) -> int {
    g[0].len() as int
}

/// Number of rows of a grid.
pub open spec fn grid_height(g: Seq<Seq<CellType>>) -> int {
    g.len() as int
}

/// The states of the neighbors of `(x, y)`, in the order of `moore_seq`.
pub open spec fn neighbor_states(g: Seq<Seq<CellType>>, x: usize, y: usize) -> Seq<CellType> {
    moore_seq(x, y, grid_width(g) as usize, grid_height(g) as usize).map_values(
        |p: (usize, usize)| g[p.1 as int][p.0 as int],
    )
}

/// A fixed-size rectangular array of cell states, addressed by `(x, y)`
/// with `x` horizontal and `y` vertical.
pub struct Grid {
    cells: Vec<Vec<CellType>>,
}

impl View for Grid {
    type V = Seq<Seq<CellType>>;

    /// Row `y`, column `x` of the view is the cell at `(x, y)`.
    closed spec fn view(&self) -> Seq<Seq<CellType>> {
        self.cells@.map_values(|row: Vec<CellType>| row@)
    }
}

impl Grid {
    /// The grid is a nonempty rectangle.
    pub open spec fn wf(&self) -> bool {
        is_grid(self@)
    }

    /// A `width x height` grid whose cell `(x, y)` is what
    /// `initial_cell_producer(x, y)` returned.
    pub fn new<F: Fn(usize, usize) -> CellType>(
        width: usize,
        height: usize,
        initial_cell_producer: F,
    ) -> (r: Grid)
        requires
            width >= 1,
            height >= 1,
            forall|x: usize, y: usize|
                x < width && y < height ==> initial_cell_producer.requires((x, y)),
        ensures
            r.wf(),
            grid_width(r@) == width,
            grid_height(r@) == height,
            forall|x: usize, y: usize|
                x < width && y < height ==> initial_cell_producer.ensures(
                    (x, y),
                    #[trigger] r@[y as int][x as int],
                ),
    {
        let mut vec_grid: Vec<Vec<CellType>> = Vec::with_capacity(height);
        let mut y: usize = 0;
        while y < height
            invariant
                y <= height,
                vec_grid@.len() == y,
                forall|x: usize, y: usize|
                    x < width && y < height ==> initial_cell_producer.requires((x, y)),
                forall|j: int| 0 <= j < y ==> (#[trigger] vec_grid@[j])@.len() == width,
                forall|x: usize, j: usize|
                    x < width && j < y ==> initial_cell_producer.ensures(
                        (x, j),
                        #[trigger] vec_grid@[j as int]@[x as int],
                    ),
            decreases height - y,
        {
            let mut row: Vec<CellType> = Vec::with_capacity(width);
            let mut x: usize = 0;
            while x < width
                invariant
                    x <= width,
                    y < height,
                    row@.len() == x,
                    forall|x: usize, y: usize|
                        x < width && y < height ==> initial_cell_producer.requires((x, y)),
                    forall|i: usize|
                        i < x ==> initial_cell_producer.ensures((i, y), #[trigger] row@[i as int]),
                decreases width - x,
            {
                row.push(initial_cell_producer(x, y));
                x = x + 1;
            }
            vec_grid.push(row);
            y = y + 1;
        }
        let r = Grid { cells: vec_grid };
        assert(r@.len() == height);
        assert(r@[0].len() == width);
        r
    }

    /// Number of columns.
    pub fn get_width(&self) -> (r: usize)
        requires
            self.wf(),
        ensures
            r == grid_width(self@),
    {
        self.cells[0].len()
    }

    /// Number of rows.
    pub fn get_height(&self) -> (r: usize)
        requires
            self.wf(),
        ensures
            r == grid_height(self@),
    {
        self.cells.len()
    }

    /// The state of the cell at `(x, y)`.
    pub fn get_cell(&self, x: usize, y: usize) -> (r: CellType)
        requires
            self.wf(),
            x < grid_width(self@),
            y < grid_height(self@),
        ensures
            r == self@[y as int][x as int],
    {
        self.cells[y][x]
    }

    /// Overwrites the state of the cell at `(x, y)`.
    pub fn set_cell(&mut self, x: usize, y: usize, value: CellType)
        requires
            old(self).wf(),
            x < grid_width(old(self)@),
            y < grid_height(old(self)@),
        ensures
            final(self)@ == old(self)@.update(y as int, old(self)@[y as int].update(x as int, value)),
            final(self).wf(),
    {
        assert(self.cells@[y as int]@ == old(self)@[y as int]);
        self.cells[y][x] = value;
        assert(self@ =~= old(self)@.update(y as int, old(self)@[y as int].update(x as int, value)));
    }

    /// The states of the neighbors of `(center_x, center_y)`, in row-major
    /// order of their coordinates.
    pub fn get_moore_neighborhood_around(&self, center_x: usize, center_y: usize) -> (r: Vec<
        CellType,
    >)
        requires
            self.wf(),
        ensures
            r@ == neighbor_states(self@, center_x, center_y),
    {
        let coords = get_moore_neighborhood_iterator(
            center_x,
            center_y,
            self.get_width(),
            self.get_height(),
        );
        proof {
            broadcast use Seq::lemma_filter_pred, Seq::lemma_filter_contains_rev;
            let w = grid_width(self@) as usize;
            let h = grid_height(self@) as usize;
            let lx = window_low(center_x as int, w as int) as usize;
            let hx = window_high(center_x as int, w as int) as usize;
            let ly = window_low(center_y as int, h as int) as usize;
            let hy = window_high(center_y as int, h as int) as usize;
            lemma_range_seq_row_major(lx, hx, ly, hy);
            let r = range_seq(lx as int, hx as int, ly as int, hy as int);
            assert forall|i: int| 0 <= i < coords@.len() implies (#[trigger] coords@[i]).0 < w
                && coords@[i].1 < h by {
                assert(r.filter(not_at(center_x, center_y)).contains(coords@[i]));
                assert(r.contains(coords@[i]));
            }
        }
        let mut out: Vec<CellType> = Vec::new();
        let mut i: usize = 0;
        while i < coords.len()
            invariant
                self.wf(),
                i <= coords@.len(),
                coords@ == moore_seq(
                    center_x,
                    center_y,
                    grid_width(self@) as usize,
                    grid_height(self@) as usize,
                ),
                forall|k: int|
                    0 <= k < coords@.len() ==> (#[trigger] coords@[k]).0 < grid_width(self@)
                        && coords@[k].1 < grid_height(self@),
                out@ == neighbor_states(self@, center_x, center_y).take(i as int),
            decreases coords@.len() - i,
        {
            let (x, y) = coords[i];
            out.push(self.get_cell(x, y));
            i = i + 1;
            assert(out@ =~= neighbor_states(self@, center_x, center_y).take(i as int));
        }
        assert(out@ =~= neighbor_states(self@, center_x, center_y));
        out
    }
}

} // verus!
