use vstd::prelude::*;
use crate::grid::{
    CellType, Grid, is_grid, grid_width, grid_height, neighbor_states,
    lemma_moore_seq_at_most_eight,
};

verus! {

/// Holds of an electron head.
pub open spec fn is_head() -> spec_fn(CellType) -> bool {
    |c: CellType| c == CellType::ElectronHead
}

/// How many of `s` are electron heads.
pub open spec fn head_count(s: Seq<CellType>) -> nat {
    s.filter(is_head()).len()
}

/// The Wireworld rule: the next state of a cell in state `c` with `heads`
/// electron heads among its neighbors.
pub open spec fn next_state(c: CellType, heads: nat) -> CellType {
    match c {
        CellType::Empty => CellType::Empty,
        CellType::ElectronHead => CellType::ElectronTail,
        CellType::ElectronTail => CellType::Conductor,
        CellType::Conductor => if heads == 1 || heads == 2 {
            CellType::ElectronHead
        } else {
            CellType::Conductor
        },
    }
}

/// The state that cell `(x, y)` of `g` takes in the next generation.
pub open spec fn next_cell_state(g: Seq<Seq<CellType>>, x: int, y: int) -> CellType {
    next_state(g[y][x], head_count(neighbor_states(g, x as usize, y as usize)))
}

/// One generation: every cell of `g` takes its next state, each computed
/// from `g` alone.
pub open spec fn step(g: Seq<Seq<CellType>>) -> Seq<Seq<CellType>> {
    Seq::new(
        grid_height(g) as nat,
        |y: int| Seq::new(grid_width(g) as nat, |x: int| next_cell_state(g, x, y)),
    )
}

/// `n` generations after `g`.
pub open spec fn steps(g: Seq<Seq<CellType>>, n: nat) -> Seq<Seq<CellType>>
    decreases n,
{
    if n == 0 {
        g
    } else {
        step(steps(g, (n - 1) as nat))
    }
}

/// `(x, y)` addresses a cell of `g`.
pub open spec fn in_bounds(g: Seq<Seq<CellType>>, x: usize, y: usize) -> bool {
    x < grid_width(g) && y < grid_height(g)
}

/// `g` with one seed `(x, y, state)` applied, or unchanged where the seed
/// lies outside it.
pub open spec fn apply_seed(g: Seq<Seq<CellType>>, seed: (usize, usize, CellType)) -> Seq<
    Seq<CellType>,
> {
    if in_bounds(g, seed.0, seed.1) {
        g.update(seed.1 as int, g[seed.1 as int].update(seed.0 as int, seed.2))
    } else {
        g
    }
}

/// `g` with the seeds applied in order, so that a later seed for a cell
/// wins over an earlier one.
pub open spec fn apply_seeds(g: Seq<Seq<CellType>>, seeds: Seq<(usize, usize, CellType)>) -> Seq<
    Seq<CellType>,
>
    decreases seeds.len(),
{
    if seeds.len() == 0 {
        g
    } else {
        apply_seed(apply_seeds(g, seeds.drop_last()), seeds.last())
    }
}

/// Holds of a seed that lies outside `g`.
pub open spec fn out_of_bounds(g: Seq<Seq<CellType>>) -> spec_fn((usize, usize, CellType)) -> bool {
    |seed: (usize, usize, CellType)| !in_bounds(g, seed.0, seed.1)
}

/// The character that shows a cell in the text snapshot.
pub open spec fn glyph(c: CellType) -> char {
    match c {
        CellType::Empty => ' ',
        CellType::ElectronHead => '#',
        CellType::ElectronTail => '~',
        CellType::Conductor => '+',
    }
}

/// One line of the text snapshot: a glyph per cell, then a newline.
pub open spec fn row_text(row: Seq<CellType>) -> Seq<char> {
    row.map_values(|c: CellType| glyph(c)).push('\n')
}

/// The text snapshot of `g`: its rows, top to bottom, one line each.
pub open spec fn text_of(g: Seq<Seq<CellType>>) -> Seq<char>
    decreases g.len(),
{
    if g.len() == 0 {
        Seq::empty()
    } else {
        text_of(g.drop_last()) + row_text(g.last())
    }
}

/// Relies on `String::push`: appends one character at the end.
#[verifier::external_body]
fn push_char(s: &mut String, c: char)
    ensures
        final(s)@ == old(s)@.push(c),
{
    s.push(c)
}

/// The glyph of a cell.
fn cell_glyph(c: CellType) -> (r: char)
    ensures
        r == glyph(c),
{
    match c {
        CellType::Empty => ' ',
        CellType::ElectronHead => '#',
        CellType::ElectronTail => '~',
        CellType::Conductor => '+',
    }
}

/// The next state of a cell in state `current` with `heads` electron heads
/// around it.
fn next_cell(current: CellType, heads: usize) -> (r: CellType)
    ensures
        r == next_state(current, heads as nat),
{
    match current {
        CellType::Empty => CellType::Empty,
        CellType::ElectronHead => CellType::ElectronTail,
        CellType::ElectronTail => CellType::Conductor,
        CellType::Conductor => {
            if heads == 1 || heads == 2 {
                CellType::ElectronHead
            } else {
                CellType::Conductor
            }
        },
    }
}

/// Produces an empty cell wherever it is asked for one.
fn empty_cell(_x: usize, _y: usize) -> (c: CellType)
    ensures
        c == CellType::Empty,
{
    CellType::Empty
}

/// A Wireworld simulation: the current generation in a read grid, and a
/// write grid of the same size in which the next one is built.
pub struct Environment {
    read_grid: Grid,
    write_grid: Grid,
}

impl View for Environment {
    type V = Seq<Seq<CellType>>;

    /// The current generation.
    closed spec fn view(&self) -> Seq<Seq<CellType>> {
        self.read_grid@
    }
}

impl Environment {
    /// The write buffer, where the next generation is built.
    pub closed spec fn staged(&self) -> Seq<Seq<CellType>> {
        self.write_grid@
    }

    /// Both grids are nonempty rectangles of the same size.
    pub closed spec fn wf(&self) -> bool {
        &&& self.read_grid.wf()
        &&& self.write_grid.wf()
        &&& grid_width(self.read_grid@) == grid_width(self.write_grid@)
        &&& grid_height(self.read_grid@) == grid_height(self.write_grid@)
    }

    /// Width and height of the simulation.
    pub open spec fn dims(&self) -> (int, int) {
        (grid_width(self@), grid_height(self@))
    }

    /// A `width x height` simulation whose cell `(x, y)` starts as what
    /// `initial_cell_producer(x, y)` returned.
    pub fn new<F: Fn(usize, usize) -> CellType + Copy>(
        width: usize,
        height: usize,
        initial_cell_producer: F,
    ) -> (r: Environment)
        requires
            width >= 1,
            height >= 1,
            forall|x: usize, y: usize|
                x < width && y < height ==> initial_cell_producer.requires((x, y)),
        ensures
            r.wf(),
            is_grid(r@),
            r.dims() == (width as int, height as int),
            forall|x: usize, y: usize|
                x < width && y < height ==> initial_cell_producer.ensures(
                    (x, y),
                    #[trigger] r@[y as int][x as int],
                ),
    {
        let read_grid = Grid::new(width, height, initial_cell_producer);
        let write_grid = Grid::new(width, height, initial_cell_producer);
        Environment { read_grid, write_grid }
    }

    /// A `width x height` simulation with every cell empty.
    pub fn new_empty(width: usize, height: usize) -> (r: Environment)
        requires
            width >= 1,
            height >= 1,
        ensures
            r.wf(),
            is_grid(r@),
            r.dims() == (width as int, height as int),
            forall|x: int, y: int|
                0 <= x < width && 0 <= y < height ==> #[trigger] r@[y][x] == CellType::Empty,
    {
        let r = Self::new(width, height, empty_cell);
        assert forall|x: int, y: int| 0 <= x < width && 0 <= y < height implies #[trigger] r@[y][x]
            == CellType::Empty by {
            assert(r@[(y as usize) as int][(x as usize) as int] == CellType::Empty);
        }
        r
    }

    /// Exchanges the roles of the two grids.
    fn swap_grids(&mut self)
        requires
            old(self).wf(),
        ensures
            final(self).wf(),
            final(self)@ == old(self).staged(),
            final(self).staged() == old(self)@,
    {
        core::mem::swap(&mut self.read_grid, &mut self.write_grid);
    }

    /// The state of the cell at `(x, y)` in the current generation.
    pub fn get_cell(&self, x: usize, y: usize) -> (r: CellType)
        requires
            self.wf(),
            in_bounds(self@, x, y),
        ensures
            r == self@[y as int][x as int],
    {
        self.read_grid.get_cell(x, y)
    }

    /// Writes `cell_type` at `(x, y)` of the write buffer; the current
    /// generation is left as it is.
    pub fn set_cell(&mut self, x: usize, y: usize, cell_type: CellType)
        requires
            old(self).wf(),
            in_bounds(old(self)@, x, y),
        ensures
            final(self).wf(),
            is_grid(final(self)@),
            final(self)@ == old(self)@,
            final(self).staged() == old(self).staged().update(
                y as int,
                old(self).staged()[y as int].update(x as int, cell_type),
            ),
    {
        self.write_grid.set_cell(x, y, cell_type);
    }

    /// `(width, height)` of the simulation.
    pub fn get_dimensions(&self) -> (r: (usize, usize))
        requires
            self.wf(),
        ensures
            r.0 == grid_width(self@),
            r.1 == grid_height(self@),
    {
        (self.read_grid.get_width(), self.read_grid.get_height())
    }

    /// Applies `cells` in order to the current generation, each `(x, y,
    /// state)` setting one cell; seeds outside the grid are skipped and
    /// handed back, in order, and the others still apply.
    pub fn bulk_set_readable(&mut self, cells: Vec<(usize, usize, CellType)>) -> (skipped: Vec<
        (usize, usize, CellType),
    >)
        requires
            old(self).wf(),
        ensures
            final(self).wf(),
            is_grid(final(self)@),
            final(self).dims() == old(self).dims(),
            final(self)@ == apply_seeds(old(self)@, cells@),
            final(self).staged() == old(self).staged(),
            skipped@ == cells@.filter(out_of_bounds(old(self)@)),
    {
        let ghost g = self@;
        let (width, height) = self.get_dimensions();
        let mut skipped: Vec<(usize, usize, CellType)> = Vec::new();
        let mut i: usize = 0;
        while i < cells.len()
            invariant
                self.wf(),
                self.staged() == old(self).staged(),
                g == old(self)@,
                width == grid_width(g),
                height == grid_height(g),
                grid_width(self@) == width,
                grid_height(self@) == height,
                i <= cells@.len(),
                self@ == apply_seeds(g, cells@.take(i as int)),
                skipped@ == cells@.take(i as int).filter(out_of_bounds(g)),
            decreases cells@.len() - i,
        {
            let (x, y, cell_type) = cells[i];
            proof {
                let done = cells@.take(i as int);
                assert(cells@.take(i + 1) =~= done.push(cells@[i as int]));
                assert(cells@.take(i + 1).drop_last() =~= done);
                done.lemma_filter_push(cells@[i as int], out_of_bounds(g));
            }
            if x < width && y < height {
                self.read_grid.set_cell(x, y, cell_type);
            } else {
                skipped.push((x, y, cell_type));
            }
            i = i + 1;
        }
        assert(cells@.take(i as int) =~= cells@);
        skipped
    }

    /// The current generation as text: one line per row, top to bottom, one
    /// character per cell (`' '` empty, `'#'` head, `'~'` tail, `'+'`
    /// conductor), each line ended by a newline.
    pub fn render_text(&self) -> (r: String)
        requires
            self.wf(),
        ensures
            r@ == text_of(self@),
    {
        let ghost g = self@;
        let (width, height) = self.get_dimensions();
        let mut output = String::new();
        let mut y: usize = 0;
        while y < height
            invariant
                self.wf(),
                g == self@,
                width == grid_width(g),
                height == grid_height(g),
                y <= height,
                output@ == text_of(g.take(y as int)),
            decreases height - y,
        {
            let ghost row = g[y as int];
            let mut x: usize = 0;
            while x < width
                invariant
                    self.wf(),
                    g == self@,
                    width == grid_width(g),
                    height == grid_height(g),
                    y < height,
                    x <= width,
                    row == g[y as int],
                    row.len() == width,
                    output@ == text_of(g.take(y as int)) + row.take(x as int).map_values(
                        |c: CellType| glyph(c),
                    ),
                decreases width - x,
            {
                push_char(&mut output, cell_glyph(self.get_cell(x, y)));
                assert(row.take(x + 1).map_values(|c: CellType| glyph(c)) =~= row.take(
                    x as int,
                ).map_values(|c: CellType| glyph(c)).push(glyph(row[x as int])));
                x = x + 1;
            }
            push_char(&mut output, '\n');
            proof {
                assert(row.take(x as int) =~= row);
                assert(g.take(y + 1).drop_last() =~= g.take(y as int));
                assert(g.take(y + 1).last() == row);
            }
            y = y + 1;
        }
        assert(g.take(y as int) =~= g);
        output
    }

    /// Advances the simulation by one generation: each cell of the new
    /// generation is computed from the old generation alone, into the write
    /// buffer, which then becomes the current generation.
    pub fn advance(&mut self)
        requires
            old(self).wf(),
        ensures
            final(self).wf(),
            is_grid(final(self)@),
            final(self).dims() == old(self).dims(),
            final(self)@ == step(old(self)@),
            final(self).staged() == old(self)@,
    {
        let ghost g = self@;
        let height = self.read_grid.get_height();
        let width = self.read_grid.get_width();
        let mut y: usize = 0;
        while y < height
            invariant
                self.wf(),
                self@ == g,
                height == grid_height(g),
                width == grid_width(g),
                y <= height,
                forall|j: int, i: int|
                    0 <= j < y && 0 <= i < width ==> #[trigger] self.staged()[j][i]
                        == next_cell_state(g, i, j),
            decreases height - y,
        {
            let mut x: usize = 0;
            while x < width
                invariant
                    self.wf(),
                    self@ == g,
                    height == grid_height(g),
                    width == grid_width(g),
                    y < height,
                    x <= width,
                    forall|j: int, i: int|
                        0 <= j < y && 0 <= i < width ==> #[trigger] self.staged()[j][i]
                            == next_cell_state(g, i, j),
                    forall|i: int|
                        0 <= i < x ==> #[trigger] self.staged()[y as int][i] == next_cell_state(
                            g,
                            i,
                            y as int,
                        ),
                decreases width - x,
            {
                let next_cell_type = match self.get_cell(x, y) {
                    CellType::Conductor => {
                        let neighbors = self.read_grid.get_moore_neighborhood_around(x, y);
                        let found_heads = count_heads(&neighbors);
                        next_cell(CellType::Conductor, found_heads)
                    },
                    current => next_cell(current, 0),
                };
                assert(next_cell_type == next_cell_state(g, x as int, y as int));
                self.set_cell(x, y, next_cell_type);
                x = x + 1;
            }
            y = y + 1;
        }
        proof {
            let next = step(g);
            assert forall|j: int| 0 <= j < grid_height(g) implies #[trigger] self.staged()[j]
                =~= next[j] by {}
            assert(self.staged() =~= next);
        }
        self.swap_grids();
    }
}

/// How many electron heads `cells` holds.
fn count_heads(cells: &Vec<CellType>) -> (r: usize)
    ensures
        r == head_count(cells@),
{
    let mut found_heads: usize = 0;
    let mut i: usize = 0;
    while i < cells.len()
        invariant
            i <= cells@.len(),
            found_heads == head_count(cells@.take(i as int)),
            found_heads <= i,
        decreases cells@.len() - i,
    {
        proof {
            assert(cells@.take(i + 1) =~= cells@.take(i as int).push(cells@[i as int]));
            cells@.take(i as int).lemma_filter_push(cells@[i as int], is_head());
        }
        if cells[i] == CellType::ElectronHead {
            found_heads = found_heads + 1;
        }
        i = i + 1;
    }
    assert(cells@.take(i as int) =~= cells@);
    found_heads
}

/// Every cell has a defined next state: with at most 8 electron heads
/// around it, an empty cell stays empty, a head becomes a tail, a tail
/// becomes a conductor, and a conductor becomes a head exactly when 1 or 2
/// of its neighbors are heads.
pub proof fn lemma_transition_total(g: Seq<Seq<CellType>>, x: usize, y: usize)
    requires
        is_grid(g),
        in_bounds(g, x, y),
    ensures
        head_count(neighbor_states(g, x, y)) <= 8,
        step(g)[y as int][x as int] == next_cell_state(g, x as int, y as int),
        g[y as int][x as int] == CellType::Empty ==> step(g)[y as int][x as int] == CellType::Empty,
        g[y as int][x as int] == CellType::ElectronHead ==> step(g)[y as int][x as int]
            == CellType::ElectronTail,
        g[y as int][x as int] == CellType::ElectronTail ==> step(g)[y as int][x as int]
            == CellType::Conductor,
        g[y as int][x as int] == CellType::Conductor ==> (step(g)[y as int][x as int]
            == CellType::ElectronHead <==> (head_count(neighbor_states(g, x, y)) == 1
            || head_count(neighbor_states(g, x, y)) == 2)),
        g[y as int][x as int] == CellType::Conductor ==> (step(g)[y as int][x as int]
            == CellType::Conductor || step(g)[y as int][x as int] == CellType::ElectronHead),
{
    lemma_moore_seq_at_most_eight(
        x,
        y,
        grid_width(g) as usize,
        grid_height(g) as usize,
    );
    neighbor_states(g, x, y).lemma_filter_len(is_head());
}

/// Within one generation a cell sees only the old generation: two grids of
/// the same size that agree on a cell and on the states of its neighbors
/// give that cell the same next state, whatever else differs.
pub proof fn lemma_step_is_local(g1: Seq<Seq<CellType>>, g2: Seq<Seq<CellType>>, x: usize, y: usize)
    requires
        is_grid(g1),
        is_grid(g2),
        grid_width(g1) == grid_width(g2),
        grid_height(g1) == grid_height(g2),
        in_bounds(g1, x, y),
        g1[y as int][x as int] == g2[y as int][x as int],
        neighbor_states(g1, x, y) == neighbor_states(g2, x, y),
    ensures
        step(g1)[y as int][x as int] == step(g2)[y as int][x as int],
{
}

/// A grid of empty cells stays empty under any number of generations.
pub proof fn lemma_empty_stays_empty(g: Seq<Seq<CellType>>, n: nat)
    requires
        is_grid(g),
        forall|y: int, x: int|
            0 <= y < grid_height(g) && 0 <= x < grid_width(g) ==> #[trigger] g[y][x]
                == CellType::Empty,
    ensures
        steps(g, n) == g,
    decreases n,
{
    if n > 0 {
        lemma_empty_stays_empty(g, (n - 1) as nat);
        assert forall|y: int| 0 <= y < grid_height(g) implies #[trigger] step(g)[y] =~= g[y] by {}
        assert(step(g) =~= g);
    }
}

} // verus!
