//! The collapse engine: cells that hold a superposition of candidate tiles,
//! and a rectangular grid that collapses them one by one, propagating the
//! adjacency constraints to their neighbors.
//!
//! Cells are stored in one flat array and name their neighbors by index into
//! it, so the grid is the only owner of cell state. A cell's options are
//! indices into the grid's tile catalog.

use vstd::prelude::*;

use rand::Rng;

use crate::direction::{lemma_opposite_involution, opp, Direction};
use crate::tile_data::{compatible, tile_like, tiles_like, Matches, Socket, TileData};

verus! {

/// The signal that a cell's option set became empty: no tile satisfies all
/// adjacency constraints, so the puzzle has no consistent completion from
/// the current state.
#[derive(Debug, PartialEq, Eq, Structural)]
pub struct ContradictionError;

/// Relies on `rand::Rng::gen_range` on `rand::thread_rng()`: a draw from the
/// range `0..bound`, which always lies below `bound`; the range must not be
/// empty, or `gen_range` panics.
#[verifier::external_body]
fn random_below(bound: u128) -> (r: u128)
    requires
        bound > 0,
    ensures
        r < bound,
{
    rand::thread_rng().gen_range(0..bound)
}

/// The total weight of the catalog tiles that `opts` names.
pub open spec fn weights_sum(tiles: Seq<TileData>, opts: Seq<usize>) -> int
    decreases opts.len(),
{
    if opts.len() == 0 {
        0
    } else {
        weights_sum(tiles, opts.drop_last()) + tiles[opts.last() as int].weight
    }
}

/// A prefix of an option list never weighs more than the whole list.
proof fn lemma_weights_sum_prefix_le(tiles: Seq<TileData>, opts: Seq<usize>, m: int)
    requires
        0 <= m <= opts.len(),
    ensures
        weights_sum(tiles, opts.subrange(0, m)) <= weights_sum(tiles, opts),
    decreases opts.len() - m,
{
    if m == opts.len() {
        assert(opts.subrange(0, m) =~= opts);
    } else {
        assert(opts.subrange(0, m + 1).drop_last() =~= opts.subrange(0, m));
        lemma_weights_sum_prefix_le(tiles, opts, m + 1);
    }
}

/// A mutable superposition: the candidate tiles still open for one grid
/// position, and the indices of the up to four neighboring cells.
#[verifier::ext_equal]
pub struct Cell {
    /// Indices into the grid's tile catalog, in catalog order.
    pub options: Vec<usize>,
    /// Index of the cell above, when there is one.
    pub up: Option<usize>,
    /// Index of the cell to the right, when there is one.
    pub right: Option<usize>,
    /// Index of the cell below, when there is one.
    pub down: Option<usize>,
    /// Index of the cell to the left, when there is one.
    pub left: Option<usize>,
}

impl Cell {
    /// The neighbor relation on side `d`.
    pub open spec fn neighbor_spec(&self, d: Direction) -> Option<usize> {
        match d {
            Direction::Up => self.up,
            Direction::Right => self.right,
            Direction::Down => self.down,
            Direction::Left => self.left,
        }
    }

    /// Every option names a tile of a catalog of `n_tiles` entries.
    pub open spec fn options_in_range(&self, n_tiles: int) -> bool {
        forall|k: int| 0 <= k < self.options@.len() ==> (#[trigger] self.options@[k]) < n_tiles
    }

    /// Every neighbor relation points into a grid of `n_cells` cells.
    pub open spec fn neighbors_in_range(&self, n_cells: int) -> bool {
        &&& (self.up matches Some(j) ==> j < n_cells)
        &&& (self.right matches Some(j) ==> j < n_cells)
        &&& (self.down matches Some(j) ==> j < n_cells)
        &&& (self.left matches Some(j) ==> j < n_cells)
    }

    /// A cell seeded with the given candidate set; neighbor relations are
    /// unset until the grid wires them.
    pub fn new(initial_options: Vec<usize>) -> (c: Cell)
        ensures
            c.options@ == initial_options@,
            c.up is None,
            c.right is None,
            c.down is None,
            c.left is None,
    {
        Cell { options: initial_options, up: None, right: None, down: None, left: None }
    }

    /// Establishes the neighbor relation on side `dir`; the other sides and
    /// the options are untouched.
    pub fn set_neigh(&mut self, dir: Direction, neigh: usize)
        ensures
            final(self).neighbor_spec(dir) == Some(neigh),
            forall|d: Direction| d != dir ==> #[trigger] final(self).neighbor_spec(d) == old(
                self,
            ).neighbor_spec(d),
            final(self).options@ == old(self).options@,
    {
        match dir {
            Direction::Up => self.up = Some(neigh),
            Direction::Right => self.right = Some(neigh),
            Direction::Down => self.down = Some(neigh),
            Direction::Left => self.left = Some(neigh),
        }
    }

    /// The number of candidates still open: the cell's entropy.
    pub fn entropy(&self) -> (r: usize)
        ensures
            r == self.options@.len(),
    {
        self.options.len()
    }

    /// Whether exactly one candidate remains.
    pub fn collapsed(&self) -> (r: bool)
        ensures
            r == (self.options@.len() == 1),
    {
        self.options.len() == 1
    }

    /// The single remaining candidate when the cell is collapsed, `None`
    /// otherwise.
    pub fn collapsed_result(&self) -> (r: Option<usize>)
        ensures
            self.options@.len() == 1 ==> r == Some(self.options@[0]),
            self.options@.len() != 1 ==> r is None,
    {
        if self.options.len() == 1 {
            Some(self.options[0])
        } else {
            None
        }
    }

    /// A weighted random draw over the current options: replaces the option
    /// set with the single chosen candidate. Fails with `ContradictionError`
    /// exactly when the option set is empty at call time, and then leaves
    /// the cell untouched — no candidate is fabricated. The grid, as owner
    /// of the neighbor graph, runs the propagation that follows a draw.
    pub fn collapse_random(&mut self, tiles: &Vec<TileData>) -> (r: Result<
        (),
        ContradictionError,
    >)
        requires
            old(self).options_in_range(tiles@.len() as int),
            forall|t: int| 0 <= t < tiles@.len() ==> (#[trigger] tiles@[t]).weight >= 1,
        ensures
            final(self).up == old(self).up,
            final(self).right == old(self).right,
            final(self).down == old(self).down,
            final(self).left == old(self).left,
            r is Err <==> old(self).options@.len() == 0,
            r is Err ==> final(self).options@ == old(self).options@,
            r is Ok ==> final(self).options@.len() == 1 && old(self).options@.contains(
                final(self).options@[0],
            ),
    {
        let n = self.options.len();
        if n == 0 {
            return Err(ContradictionError);
        }
        let ghost opts = self.options@;
        let ghost tls = tiles@;
        let ghost m_top: u128 = u64::MAX as u128;

        // Total probability mass, summed in u128 so it cannot overflow.
        let mut total: u128 = 0;
        let mut k: usize = 0;
        while k < n
            invariant
                n == opts.len(),
                self.options@ == opts,
                tiles@ == tls,
                forall|j: int| 0 <= j < opts.len() ==> (#[trigger] opts[j]) < tls.len(),
                forall|t: int| 0 <= t < tls.len() ==> (#[trigger] tls[t]).weight >= 1,
                m_top == u64::MAX as u128,
                k <= n,
                total == weights_sum(tls, opts.subrange(0, k as int)),
                total >= k,
                total <= k as u128 * m_top,
            decreases n - k,
        {
            let t = self.options[k];
            let w = tiles[t].weight;
            proof {
                assert(opts.subrange(0, k + 1).drop_last() =~= opts.subrange(0, k as int));
                assert((k as u128 + 1) * m_top == k as u128 * m_top + m_top) by (nonlinear_arith);
                assert((k as u128 + 1) * m_top <= 18446744073709551616u128 * m_top)
                    by (nonlinear_arith)
                    requires
                        k as u128 + 1 <= 18446744073709551616u128,
                        m_top == u64::MAX as u128,
                ;
            }
            total = total + (w as u128);
            k += 1;
        }
        proof {
            assert(opts.subrange(0, n as int) =~= opts);
        }

        let pick = random_below(total);

        // Walk the options until the cumulative weight passes the draw.
        let mut idx: usize = 0;
        let t0 = self.options[0];
        let mut acc: u128 = tiles[t0].weight as u128;
        proof {
            assert(weights_sum(tls, opts.subrange(0, 0)) == 0);
            assert(opts.subrange(0, 1).drop_last() =~= opts.subrange(0, 0));
            assert(opts.subrange(0, 1).last() == opts[0]);
            assert(weights_sum(tls, opts.subrange(0, 1)) == tls[opts[0] as int].weight);
            lemma_weights_sum_prefix_le(tls, opts, 1);
        }
        while pick >= acc
            invariant
                n == opts.len(),
                self.options@ == opts,
                tiles@ == tls,
                forall|j: int| 0 <= j < opts.len() ==> (#[trigger] opts[j]) < tls.len(),
                forall|t: int| 0 <= t < tls.len() ==> (#[trigger] tls[t]).weight >= 1,
                idx < n,
                acc == weights_sum(tls, opts.subrange(0, idx + 1)),
                acc <= weights_sum(tls, opts),
                total == weights_sum(tls, opts),
                pick < total,
            decreases n - idx,
        {
            idx += 1;
            proof {
                if idx == n {
                    assert(opts.subrange(0, n as int) =~= opts);
                }
            }
            assert(idx < n);
            let t = self.options[idx];
            let w = tiles[t].weight;
            proof {
                assert(opts.subrange(0, idx + 1).drop_last() =~= opts.subrange(0, idx as int));
                lemma_weights_sum_prefix_le(tls, opts, idx + 1);
            }
            acc = acc + (w as u128);
        }

        let chosen = self.options[idx];
        self.options = vec![chosen];
        Ok(())
    }

    /// The neighbor relation on side `d`.
    pub fn neighbor(&self, d: Direction) -> (r: Option<usize>)
        ensures
            r == self.neighbor_spec(d),
    {
        match d {
            Direction::Up => self.up,
            Direction::Right => self.right,
            Direction::Down => self.down,
            Direction::Left => self.left,
        }
    }
}

/// The cell at linear index `i` is wired to its lattice neighbors: row
/// neighbors one index away, column neighbors one row width away, and no
/// relation past an edge — no wraparound. `count` is the total cell count.
pub open spec fn wired(cells: Seq<Cell>, w: int, count: int, i: int) -> bool {
    let c = cells[i];
    &&& c.up == if i >= w {
        Some((i - w) as usize)
    } else {
        None::<usize>
    }
    &&& c.down == if i + w < count {
        Some((i + w) as usize)
    } else {
        None::<usize>
    }
    &&& c.left == if i % w != 0 {
        Some((i - 1) as usize)
    } else {
        None::<usize>
    }
    &&& c.right == if i % w != w - 1 {
        Some((i + 1) as usize)
    } else {
        None::<usize>
    }
}

/// Some option of the neighbor presents a socket on side `d` that `s` is
/// compatible with.
pub open spec fn option_matches(
    tiles: Seq<TileData>,
    s: Seq<char>,
    opts: Seq<usize>,
    d: Direction,
) -> bool {
    exists|k: int|
        0 <= k < opts.len() && compatible(
            s,
            tiles[(#[trigger] opts[k]) as int].sockets.spec_get(d),
        )
}

/// Tile `t` is feasible for cell `i` on side `d`: either there is no
/// neighbor there, or some option of the neighbor faces it with a
/// compatible socket.
pub open spec fn dir_ok(g: TileGrid, i: int, t: int, d: Direction) -> bool {
    match g.cells@[i].neighbor_spec(d) {
        None => true,
        Some(j) => option_matches(
            g.tiles@,
            g.tiles@[t].sockets.spec_get(d),
            g.cells@[j as int].options@,
            opp(d),
        ),
    }
}

/// Tile `t` is feasible for cell `i` on all four sides: the intersection of
/// the four independent feasibility sets.
pub open spec fn allowed(g: TileGrid, i: int, t: int) -> bool {
    &&& dir_ok(g, i, t, Direction::Up)
    &&& dir_ok(g, i, t, Direction::Right)
    &&& dir_ok(g, i, t, Direction::Down)
    &&& dir_ok(g, i, t, Direction::Left)
}

/// Cells `b` and `a` hold the same options and the same neighbor relations.
pub open spec fn cell_same(b: Cell, a: Cell) -> bool {
    &&& b.options@ == a.options@
    &&& b.up == a.up
    &&& b.right == a.right
    &&& b.down == a.down
    &&& b.left == a.left
}

/// Grids `b` and `a` are observably the same: same shape, same catalog,
/// and the same options and wiring in every cell.
pub open spec fn same_cells(a: TileGrid, b: TileGrid) -> bool {
    &&& b.width == a.width
    &&& b.height == a.height
    &&& b.tiles == a.tiles
    &&& b.cells@.len() == a.cells@.len()
    &&& forall|j: int| 0 <= j < a.cells@.len() ==> cell_same(#[trigger] b.cells@[j], a.cells@[j])
}

/// `a` reads as `b` with zero or more elements deleted: an order-preserving
/// subsequence.
pub open spec fn is_subsequence(a: Seq<usize>, b: Seq<usize>) -> bool
    decreases a.len() + b.len(),
{
    if a.len() == 0 {
        true
    } else if b.len() == 0 {
        false
    } else if a.last() == b.last() {
        is_subsequence(a.drop_last(), b.drop_last())
    } else {
        is_subsequence(a, b.drop_last())
    }
}

/// Every sequence is a subsequence of itself.
pub proof fn lemma_subsequence_refl(s: Seq<usize>)
    ensures
        is_subsequence(s, s),
    decreases s.len(),
{
    if s.len() > 0 {
        lemma_subsequence_refl(s.drop_last());
    }
}

/// Deleting the last element keeps a subsequence a subsequence.
proof fn lemma_subsequence_drop_last(a: Seq<usize>, b: Seq<usize>)
    requires
        is_subsequence(a, b),
        a.len() > 0,
    ensures
        is_subsequence(a.drop_last(), b),
    decreases b.len(),
{
    if a.last() == b.last() {
        let a2 = a.drop_last();
        if a2.len() > 0 {
            lemma_subsequence_drop_last(a2, b.drop_last());
        }
    } else {
        lemma_subsequence_drop_last(a, b.drop_last());
        let a2 = a.drop_last();
        if a2.len() > 0 && a2.last() == b.last() {
            lemma_subsequence_drop_last(a2, b.drop_last());
        }
    }
}

/// Being a subsequence is transitive.
pub proof fn lemma_subsequence_trans(a: Seq<usize>, b: Seq<usize>, c: Seq<usize>)
    requires
        is_subsequence(a, b),
        is_subsequence(b, c),
    ensures
        is_subsequence(a, c),
    decreases b.len() + c.len(),
{
    if a.len() == 0 {
    } else if b.last() == c.last() {
        if a.last() == b.last() {
            lemma_subsequence_trans(a.drop_last(), b.drop_last(), c.drop_last());
        } else {
            lemma_subsequence_trans(a, b.drop_last(), c.drop_last());
            if a.last() == c.last() {
                lemma_subsequence_drop_last(a, c.drop_last());
            }
        }
    } else {
        lemma_subsequence_trans(a, b, c.drop_last());
        if a.last() == c.last() {
            lemma_subsequence_drop_last(a, c.drop_last());
        }
    }
}

/// A filtered sequence is an order-preserving subsequence of the original.
pub proof fn lemma_filter_subsequence(s: Seq<usize>, pred: spec_fn(usize) -> bool)
    ensures
        is_subsequence(s.filter(pred), s),
    decreases s.len(),
{
    reveal(Seq::filter);
    if s.len() == 0 {
        assert(s.filter(pred) =~= s);
    } else {
        lemma_filter_subsequence(s.drop_last(), pred);
        let f = s.filter(pred);
        if pred(s.last()) {
            assert(f.drop_last() =~= s.drop_last().filter(pred));
        } else {
            if f.len() > 0 && f.last() == s.last() {
                lemma_subsequence_drop_last(f, s.drop_last());
            }
        }
    }
}

/// A sequence that holds `t` has the one-element sequence of `t` as a
/// subsequence.
pub proof fn lemma_contains_singleton_subsequence(s: Seq<usize>, t: usize)
    requires
        s.contains(t),
    ensures
        is_subsequence(seq![t], s),
    decreases s.len(),
{
    let a = seq![t];
    assert(s.len() > 0) by {
        let q = choose|q: int| 0 <= q < s.len() && s[q] == t;
    }
    assert(a.len() == 1 && a.last() == t);
    if s.last() == t {
        assert(a.drop_last().len() == 0);
        assert(is_subsequence(a.drop_last(), s.drop_last()));
    } else {
        assert(s.drop_last().contains(t)) by {
            let q = choose|q: int| 0 <= q < s.len() && s[q] == t;
            assert(s.drop_last()[q] == t);
        }
        lemma_contains_singleton_subsequence(s.drop_last(), t);
    }
}

/// Cell `b` is cell `a` with the same neighbor relations and at most the
/// same options: an order-preserving selection of `a`'s candidates.
pub open spec fn cell_narrowed(b: Cell, a: Cell) -> bool {
    &&& b.up == a.up
    &&& b.right == a.right
    &&& b.down == a.down
    &&& b.left == a.left
    &&& b.options@.len() <= a.options@.len()
    &&& is_subsequence(b.options@, a.options@)
    &&& forall|k: int| 0 <= k < b.options@.len() ==> a.options@.contains(#[trigger] b.options@[k])
}

/// Grid `b` is grid `a` after zero or more narrowing steps: same shape,
/// same catalog, and every cell narrowed.
pub open spec fn narrowed(a: TileGrid, b: TileGrid) -> bool {
    &&& b.width == a.width
    &&& b.height == a.height
    &&& b.tiles == a.tiles
    &&& b.cells@.len() == a.cells@.len()
    &&& forall|j: int|
        0 <= j < a.cells@.len() ==> cell_narrowed(#[trigger] b.cells@[j], a.cells@[j])
}

/// Narrowing is reflexive.
pub proof fn lemma_narrowed_refl(a: TileGrid)
    ensures
        narrowed(a, a),
{
    assert forall|j: int| 0 <= j < a.cells@.len() implies cell_narrowed(
        #[trigger] a.cells@[j],
        a.cells@[j],
    ) by {
        lemma_cell_narrowed_refl(a.cells@[j]);
    }
}

/// Narrowing is transitive.
pub proof fn lemma_narrowed_trans(a: TileGrid, b: TileGrid, c: TileGrid)
    requires
        narrowed(a, b),
        narrowed(b, c),
    ensures
        narrowed(a, c),
{
    assert forall|j: int| 0 <= j < a.cells@.len() implies cell_narrowed(
        #[trigger] c.cells@[j],
        a.cells@[j],
    ) by {
        assert(cell_narrowed(b.cells@[j], a.cells@[j]));
        assert(cell_narrowed(c.cells@[j], b.cells@[j]));
        lemma_subsequence_trans(c.cells@[j].options@, b.cells@[j].options@, a.cells@[j].options@);
        assert forall|k: int| 0 <= k < c.cells@[j].options@.len() implies a.cells@[
            j
        ].options@.contains(#[trigger] c.cells@[j].options@[k]) by {
            let x = c.cells@[j].options@[k];
            assert(b.cells@[j].options@.contains(x));
            let m = choose|m: int|
                0 <= m < b.cells@[j].options@.len() && b.cells@[j].options@[m] == x;
            assert(a.cells@[j].options@.contains(b.cells@[j].options@[m]));
        }
    }
}

/// Filtering one more element appends it exactly when the predicate holds.
proof fn lemma_filter_push(s: Seq<usize>, x: usize, pred: spec_fn(usize) -> bool)
    ensures
        s.push(x).filter(pred) == if pred(x) {
            s.filter(pred).push(x)
        } else {
            s.filter(pred)
        },
{
    reveal(Seq::filter);
    assert(s.push(x).drop_last() =~= s);
    assert(s.push(x).last() == x);
}

/// A filter whose predicate holds of every element keeps the sequence
/// unchanged.
pub proof fn lemma_filter_all(s: Seq<usize>, pred: spec_fn(usize) -> bool)
    requires
        forall|k: int| 0 <= k < s.len() ==> pred(#[trigger] s[k]),
    ensures
        s.filter(pred) == s,
    decreases s.len(),
{
    reveal(Seq::filter);
    if s.len() == 0 {
        assert(s.filter(pred) =~= s);
    } else {
        assert(forall|k: int|
            0 <= k < s.drop_last().len() ==> pred(#[trigger] s.drop_last()[k]));
        lemma_filter_all(s.drop_last(), pred);
        assert(s.drop_last().push(s.last()) =~= s);
    }
}

/// The sum of all cells' option counts: the grid's total entropy, the
/// measure that bounds the propagation wave.
pub open spec fn total_entropy(cells: Seq<Cell>) -> nat
    decreases cells.len(),
{
    if cells.len() == 0 {
        0
    } else {
        total_entropy(cells.drop_last()) + cells.last().options@.len()
    }
}

/// Narrowing never raises the total entropy: option counts are bounded
/// below by zero and never increase, so the sum over the grid is a
/// decreasing measure of the propagation wave.
pub proof fn lemma_narrowed_total_entropy(a: TileGrid, b: TileGrid)
    requires
        narrowed(a, b),
    ensures
        total_entropy(b.cells@) <= total_entropy(a.cells@),
{
    lemma_pointwise_entropy_le(a.cells@, b.cells@);
}

/// A cell-by-cell bound on option counts bounds the entropy sums.
proof fn lemma_pointwise_entropy_le(a: Seq<Cell>, b: Seq<Cell>)
    requires
        b.len() == a.len(),
        forall|j: int|
            0 <= j < a.len() ==> (#[trigger] b[j]).options@.len() <= a[j].options@.len(),
    ensures
        total_entropy(b) <= total_entropy(a),
    decreases a.len(),
{
    if a.len() > 0 {
        assert(forall|j: int|
            0 <= j < a.drop_last().len() ==> (#[trigger] b.drop_last()[j]).options@.len() <= a.drop_last()[j].options@.len());
        lemma_pointwise_entropy_le(a.drop_last(), b.drop_last());
        assert(b.last().options@.len() <= a.last().options@.len());
    }
}

/// Replacing one cell shifts the total entropy by the difference of the two
/// option counts.
proof fn lemma_total_entropy_update(cells: Seq<Cell>, i: int, c: Cell)
    requires
        0 <= i < cells.len(),
    ensures
        total_entropy(cells.update(i, c)) + cells[i].options@.len() == total_entropy(cells)
            + c.options@.len(),
    decreases cells.len(),
{
    if i == cells.len() - 1 {
        assert(cells.update(i, c).drop_last() =~= cells.drop_last());
        assert(cells.update(i, c).last() == c);
    } else {
        assert(cells.update(i, c).drop_last() =~= cells.drop_last().update(i, c));
        assert(cells.update(i, c).last() == cells.last());
        lemma_total_entropy_update(cells.drop_last(), i, c);
    }
}

/// A fixed-size rectangular arrangement of cells, owning them exclusively,
/// together with the tile catalog they draw from.
#[verifier::ext_equal]
pub struct TileGrid {
    /// The cells, row by row: the cell at `(x, y)` has index `y * width + x`.
    pub cells: Vec<Cell>,
    /// The shared, read-only tile catalog; options are indices into it.
    pub tiles: Vec<TileData>,
    /// Number of columns.
    pub width: usize,
    /// Number of rows.
    pub height: usize,
}

impl TileGrid {
    /// Well-formedness: positive dimensions, a non-empty catalog of positive
    /// weights, one cell per position, every option a catalog index, and
    /// every cell wired to its lattice neighbors.
    pub open spec fn wf(&self) -> bool {
        &&& self.width >= 1
        &&& self.height >= 1
        &&& self.tiles@.len() >= 1
        &&& self.cells@.len() == self.width * self.height
        &&& forall|t: int| 0 <= t < self.tiles@.len() ==> (#[trigger] self.tiles@[t]).weight >= 1
        &&& forall|i: int|
            0 <= i < self.cells@.len() ==> (#[trigger] self.cells@[i]).options_in_range(
                self.tiles@.len() as int,
            )
        &&& forall|i: int|
            0 <= i < self.cells@.len() ==> (#[trigger] self.cells@[i]).neighbors_in_range(
                self.cells@.len() as int,
            )
        &&& forall|i: int|
            0 <= i < self.cells@.len() ==> wired(
                self.cells@,
                self.width as int,
                self.cells@.len() as int,
                i,
            )
    }

    /// Whether some option of cell `j` presents a socket on side `od` that
    /// `sock` is compatible with.
    fn option_matches_exec(&self, j: usize, sock: &Socket, od: Direction) -> (r: bool)
        requires
            self.wf(),
            j < self.cells@.len(),
        ensures
            r == option_matches(self.tiles@, sock@, self.cells@[j as int].options@, od),
    {
        let m = self.cells[j].options.len();
        let mut k: usize = 0;
        while k < m
            invariant
                self.wf(),
                j < self.cells@.len(),
                m == self.cells@[j as int].options@.len(),
                k <= m,
                forall|q: int|
                    0 <= q < k ==> !compatible(
                        sock@,
                        self.tiles@[(#[trigger] self.cells@[j as int].options@[q]) as int].sockets.spec_get(
                            od,
                        ),
                    ),
            decreases m - k,
        {
            let o = self.cells[j].options[k];
            proof {
                assert(self.cells@[j as int].options_in_range(self.tiles@.len() as int));
            }
            if sock.matches(self.tiles[o].sockets.get(od)) {
                proof {
                    assert(compatible(
                        sock@,
                        self.tiles@[self.cells@[j as int].options@[k as int] as int].sockets.spec_get(
                            od,
                        ),
                    ));
                }
                return true;
            }
            k += 1;
        }
        false
    }

    /// Whether tile `t` is feasible for cell `i` on side `d`.
    fn dir_ok_exec(&self, i: usize, t: usize, d: Direction) -> (r: bool)
        requires
            self.wf(),
            i < self.cells@.len(),
            t < self.tiles@.len(),
        ensures
            r == dir_ok(*self, i as int, t as int, d),
    {
        match self.cells[i].neighbor(d) {
            None => true,
            Some(j) => {
                proof {
                    assert(self.cells@[i as int].neighbors_in_range(self.cells@.len() as int));
                }
                let sock = self.tiles[t].sockets.get(d);
                let od = d.opposite();
                self.option_matches_exec(j, sock, od)
            },
        }
    }

    /// Whether tile `t` is feasible for cell `i` on all four sides.
    fn allowed_exec(&self, i: usize, t: usize) -> (r: bool)
        requires
            self.wf(),
            i < self.cells@.len(),
            t < self.tiles@.len(),
        ensures
            r == allowed(*self, i as int, t as int),
    {
        if !self.dir_ok_exec(i, t, Direction::Up) {
            return false;
        }
        if !self.dir_ok_exec(i, t, Direction::Right)  {
            return false;
        }
        if !self.dir_ok_exec(i, t, Direction::Down) {
            return false;
        }
        if !self.dir_ok_exec(i, t, Direction::Left) {
            return false;
        }
        true
    }

    /// One re-filtering pass over cell `i`: keeps exactly the options that
    /// are feasible against every live neighbor's current options. Never
    /// grows the option set; every other cell is untouched.
    pub fn recalculate_options(&mut self, i: usize)
        requires
            old(self).wf(),
            i < old(self).cells@.len(),
        ensures
            final(self).wf(),
            final(self).width == old(self).width,
            final(self).height == old(self).height,
            final(self).tiles == old(self).tiles,
            final(self).cells@.len() == old(self).cells@.len(),
            forall|j: int|
                0 <= j < old(self).cells@.len() && j != i ==> final(self).cells@[j] == old(
                    self,
                ).cells@[j],
            final(self).cells@[i as int].options@ == old(self).cells@[i as int].options@.filter(
                |t: usize| allowed(*old(self), i as int, t as int),
            ),
            final(self).cells@[i as int].options@.len() <= old(self).cells@[
                i as int
            ].options@.len(),
            narrowed(*old(self), *final(self)),
    {
        let ghost g0 = *self;
        let ghost opts = g0.cells@[i as int].options@;
        let ghost pred = |t: usize| allowed(g0, i as int, t as int);
        let n_opts = self.cells[i].options.len();
        let mut kept: Vec<usize> = Vec::new();
        proof {
            reveal(Seq::filter);
            assert(opts.subrange(0, 0).filter(pred) =~= Seq::<usize>::empty());
        }
        let mut k: usize = 0;
        while k < n_opts
            invariant
                *self == g0,
                g0.wf(),
                i < g0.cells@.len(),
                opts == g0.cells@[i as int].options@,
                pred == (|t: usize| allowed(g0, i as int, t as int)),
                n_opts == opts.len(),
                k <= n_opts,
                kept@ == opts.subrange(0, k as int).filter(pred),
                forall|q: int| 0 <= q < kept@.len() ==> (#[trigger] kept@[q]) < g0.tiles@.len(),
                forall|q: int| 0 <= q < kept@.len() ==> opts.contains(#[trigger] kept@[q]),
            decreases n_opts - k,
        {
            let t = self.cells[i].options[k];
            proof {
                assert(g0.cells@[i as int].options_in_range(g0.tiles@.len() as int));
            }
            let keep = self.allowed_exec(i, t);
            proof {
                assert(opts.subrange(0, k + 1) =~= opts.subrange(0, k as int).push(
                    opts[k as int],
                ));
                lemma_filter_push(opts.subrange(0, k as int), opts[k as int], pred);
            }
            if keep {
                kept.push(t);
            }
            k += 1;
        }
        proof {
            assert(opts.subrange(0, n_opts as int) =~= opts);
            broadcast use vstd::seq_lib::group_filter_ensures;

            assert(opts.filter(pred).len() <= opts.len());
        }
        let up = self.cells[i].up;
        let right = self.cells[i].right;
        let down = self.cells[i].down;
        let left = self.cells[i].left;
        let newcell = Cell { options: kept, up, right, down, left };
        self.cells[i] = newcell;
        proof {
            assert(self.cells@ =~= g0.cells@.update(i as int, newcell));
            assert forall|j: int| 0 <= j < self.cells@.len() implies wired(
                self.cells@,
                self.width as int,
                self.cells@.len() as int,
                j,
            ) by {
                assert(wired(g0.cells@, g0.width as int, g0.cells@.len() as int, j));
            }
            assert forall|j: int| 0 <= j < self.cells@.len() implies (
            #[trigger] self.cells@[j]).options_in_range(self.tiles@.len() as int) by {
                assert(g0.cells@[j].options_in_range(g0.tiles@.len() as int));
            }
            assert forall|j: int| 0 <= j < self.cells@.len() implies (
            #[trigger] self.cells@[j]).neighbors_in_range(self.cells@.len() as int) by {
                assert(g0.cells@[j].neighbors_in_range(g0.cells@.len() as int));
            }
            assert forall|j: int| 0 <= j < g0.cells@.len() implies cell_narrowed(
                #[trigger] self.cells@[j],
                g0.cells@[j],
            ) by {
                if j == i {
                    lemma_filter_subsequence(
                        g0.cells@[j].options@,
                        |t: usize| allowed(g0, i as int, t as int),
                    );
                } else {
                    lemma_cell_narrowed_refl(g0.cells@[j]);
                }
            }
        }
    }
}

impl TileGrid {
    /// The propagation wave: re-filters the neighbors of cell `i` and,
    /// whenever a cell's option count strictly shrank, that cell's own
    /// neighbors in turn, draining an explicit pending queue. The wave
    /// terminates because the grid's total entropy strictly decreases on
    /// every shrinking hop, although the neighbor graph has cycles.
    #[verifier::rlimit(100)]
    fn notify_neighbors(&mut self, i: usize)
        requires
            old(self).wf(),
            i < old(self).cells@.len(),
        ensures
            final(self).wf(),
            narrowed(*old(self), *final(self)),
            forall|j: int|
                0 <= j < final(self).cells@.len() ==> (#[trigger] cell_stable(*final(self), j))
                    || neighborhood_unchanged(*old(self), *final(self), j),
            forall|d: Direction|
                (#[trigger] old(self).cells@[i as int].neighbor_spec(d)) matches Some(nb)
                    ==> cell_stable(*final(self), nb as int),
            forall|s: TileGrid|
                #[trigger] consistent_refinement(s, *old(self)) ==> options_contained(
                    s,
                    *final(self),
                ),
    {
        let ghost g0 = *self;
        proof {
            lemma_narrowed_refl(g0);
            assert(self.cells@[i as int].neighbors_in_range(self.cells@.len() as int));
        }
        let mut queue: Vec<usize> = Vec::new();
        let c_up = self.cells[i].up;
        if let Some(x) = c_up {
            queue.push(x);
        }
        let ghost s1 = queue@;
        let c_right = self.cells[i].right;
        if let Some(x) = c_right {
            queue.push(x);
        }
        let ghost s2 = queue@;
        let c_down = self.cells[i].down;
        if let Some(x) = c_down {
            queue.push(x);
        }
        let ghost s3 = queue@;
        let c_left = self.cells[i].left;
        if let Some(x) = c_left {
            queue.push(x);
        }
        proof {
            let sq = queue@;
            assert(forall|q: int| 0 <= q < s1.len() ==> #[trigger] s2[q] == s1[q]);
            assert(forall|q: int| 0 <= q < s2.len() ==> #[trigger] s3[q] == s2[q]);
            assert(forall|q: int| 0 <= q < s3.len() ==> #[trigger] sq[q] == s3[q]);
            if let Some(x) = c_up {
                let q = s1.len() - 1;
                assert(s1[q] == x);
                assert(s2[q] == x);
                assert(s3[q] == x);
                assert(sq[q] == x);
                assert(sq.contains(x));
            }
            if let Some(x) = c_right {
                let q = s2.len() - 1;
                assert(s2[q] == x);
                assert(s3[q] == x);
                assert(sq[q] == x);
                assert(sq.contains(x));
            }
            if let Some(x) = c_down {
                let q = s3.len() - 1;
                assert(s3[q] == x);
                assert(sq[q] == x);
                assert(sq.contains(x));
            }
            if let Some(x) = c_left {
                assert(sq[sq.len() - 1] == x);
                assert(sq.contains(x));
            }
            assert forall|nb: usize| #[trigger] points_to(g0, i as int, nb) implies queue@.contains(
                nb,
            ) by {
                let d = choose|d: Direction| g0.cells@[i as int].neighbor_spec(d) == Some(nb);
                match d {
                    Direction::Up => {
                        assert(c_up == Some(nb));
                    },
                    Direction::Right => {
                        assert(c_right == Some(nb));
                    },
                    Direction::Down => {
                        assert(c_down == Some(nb));
                    },
                    Direction::Left => {
                        assert(c_left == Some(nb));
                    },
                }
            }
        }
        while queue.len() > 0
            invariant
                self.wf(),
                narrowed(g0, *self),
                self.cells@.len() == g0.cells@.len(),
                i < g0.cells@.len(),
                forall|q: int|
                    0 <= q < queue@.len() ==> (#[trigger] queue@[q]) < self.cells@.len(),
                forall|j: int|
                    0 <= j < self.cells@.len() ==> (#[trigger] cell_stable(*self, j))
                        || queue@.contains(j as usize) || neighborhood_unchanged(g0, *self, j),
                forall|nb: usize|
                    #[trigger] points_to(g0, i as int, nb) ==> queue@.contains(nb) || cell_stable(
                        *self,
                        nb as int,
                    ),
                forall|s: TileGrid|
                    #[trigger] consistent_refinement(s, g0) ==> options_contained(s, *self),
            decreases 4 * total_entropy(self.cells@) + queue@.len(),
        {
            let ghost q_start = queue@;
            let j_opt = queue.pop();
            let j = j_opt.unwrap();
            let ghost q_popped = queue@;
            let ghost g_pre = *self;
            let before = self.cells[j].options.len();
            self.recalculate_options(j);
            let after = self.cells[j].options.len();
            proof {
                lemma_narrowed_trans(g0, g_pre, *self);
                assert(self.cells@ =~= g_pre.cells@.update(j as int, self.cells@[j as int]));
                lemma_total_entropy_update(g_pre.cells@, j as int, self.cells@[j as int]);
            }
            let ghost n_up: Option<usize> = None;
            let ghost n_right: Option<usize> = None;
            let ghost n_down: Option<usize> = None;
            let ghost n_left: Option<usize> = None;
            let ghost qa = queue@;
            let ghost qb = queue@;
            let ghost qc = queue@;
            let ghost qd = queue@;
            if after < before {
                proof {
                    assert(self.cells@[j as int].neighbors_in_range(self.cells@.len() as int));
                }
                let up = self.cells[j].up;
                let right = self.cells[j].right;
                let down = self.cells[j].down;
                let left = self.cells[j].left;
                proof {
                    n_up = up;
                    n_right = right;
                    n_down = down;
                    n_left = left;
                }
                if let Some(x) = up {
                    queue.push(x);
                }
                proof {
                    qb = queue@;
                }
                if let Some(x) = right {
                    queue.push(x);
                }
                proof {
                    qc = queue@;
                }
                if let Some(x) = down {
                    queue.push(x);
                }
                proof {
                    qd = queue@;
                }
                if let Some(x) = left {
                    queue.push(x);
                }
            }
            proof {
                broadcast use vstd::std_specs::vec::axiom_spec_len;

                assert(self.cells.len() == self.cells@.len());
                let gq = queue@;
                if after < before {
                    // Everything that sat in the queue after the pop is
                    // still there, and every neighbor of `j` now is.
                    assert(forall|q: int| 0 <= q < qa.len() ==> #[trigger] qb[q] == qa[q]);
                    assert(forall|q: int| 0 <= q < qb.len() ==> #[trigger] qc[q] == qb[q]);
                    assert(forall|q: int| 0 <= q < qc.len() ==> #[trigger] qd[q] == qc[q]);
                    assert(forall|q: int| 0 <= q < qd.len() ==> #[trigger] gq[q] == qd[q]);
                    assert forall|y: usize| #[trigger] qa.contains(y) implies gq.contains(y) by {
                        let q = choose|q: int| 0 <= q < qa.len() && qa[q] == y;
                        assert(qb[q] == y);
                        assert(qc[q] == y);
                        assert(qd[q] == y);
                        assert(gq[q] == y);
                    }
                    if let Some(x) = n_up {
                        let q = qa.len() as int;
                        assert(qb[q] == x);
                        assert(qc[q] == x);
                        assert(qd[q] == x);
                        assert(gq[q] == x);
                        assert(gq.contains(x));
                    }
                    if let Some(x) = n_right {
                        let q = qb.len() as int;
                        assert(qc[q] == x);
                        assert(qd[q] == x);
                        assert(gq[q] == x);
                        assert(gq.contains(x));
                    }
                    if let Some(x) = n_down {
                        let q = qc.len() as int;
                        assert(qd[q] == x);
                        assert(gq[q] == x);
                        assert(gq.contains(x));
                    }
                    if let Some(x) = n_left {
                        let q = qd.len() as int;
                        assert(gq[q] == x);
                        assert(gq.contains(x));
                    }
                    assert(forall|d2: Direction|
                        (#[trigger] self.cells@[j as int].neighbor_spec(d2)) matches Some(x)
                            ==> gq.contains(x));
                }
                // The pending-work invariant survives the step.
                let pred = |t: usize| allowed(g_pre, j as int, t as int);
                assert(self.cells@[j as int].options@ == g_pre.cells@[j as int].options@.filter(
                    pred,
                ));
                // The freshly filtered cell is stable against its
                // neighbors, which this pass did not touch.
                lemma_no_self_neighbor(g_pre, j as int);
                assert forall|k: int|
                    0 <= k < self.cells@[j as int].options@.len() implies allowed(
                    *self,
                    j as int,
                    (#[trigger] self.cells@[j as int].options@[k]) as int,
                ) by {
                    g_pre.cells@[j as int].options@.lemma_filter_pred(pred, k);
                    assert(pred(self.cells@[j as int].options@[k]));
                    lemma_allowed_frame(
                        g_pre,
                        *self,
                        j as int,
                        self.cells@[j as int].options@[k] as int,
                    );
                }
                assert(cell_stable(*self, j as int));
                assert forall|j2: int| 0 <= j2 < self.cells@.len() implies ((
                #[trigger] cell_stable(*self, j2)) || queue@.contains(j2 as usize)
                    || neighborhood_unchanged(g0, *self, j2)) by {
                    if j2 == j as int {
                        assert(cell_stable(*self, j2));
                    } else if q_start.contains(j2 as usize) {
                        let qi = choose|q: int| 0 <= q < q_start.len() && q_start[q] == j2 as usize;
                        assert(q_start[q_start.len() - 1] == j);
                        assert(j2 as usize != j);
                        assert(qi < q_start.len() - 1);
                        assert(q_popped[qi] == j2 as usize);
                        assert(q_popped.contains(j2 as usize));
                        if after < before {
                            assert(qa == q_popped);
                            assert(qa.contains(j2 as usize));
                            assert(gq.contains(j2 as usize));
                        } else {
                            assert(queue@ == q_popped);
                        }
                        assert(queue@.contains(j2 as usize));
                    } else {
                        let saw_j = exists|d: Direction|
                            g_pre.cells@[j2].neighbor_spec(d) == Some(j);
                        if saw_j && after < before {
                            let d = choose|d: Direction|
                                g_pre.cells@[j2].neighbor_spec(d) == Some(j);
                            assert(self.cells@[j2].neighbor_spec(d) == Some(j));
                            lemma_neighbor_symmetry(*self, j2, d, j);
                            assert(queue@.contains(j2 as usize));
                        } else {
                            // Everything cell `j2` can see kept its options.
                            assert(forall|mi: int|
                                0 <= mi < self.cells@.len() && mi != j as int ==> (
                                #[trigger] self.cells@[mi]).options@ == g_pre.cells@[mi].options@);
                            if saw_j {
                                assert(after == before);
                                lemma_filter_len_eq_id(g_pre.cells@[j as int].options@, pred);
                                assert(self.cells@[j as int].options@ == g_pre.cells@[
                                    j as int
                                ].options@);
                            }
                            assert(g_pre.cells@[j2].neighbors_in_range(g_pre.cells@.len() as int));
                            assert(forall|d: Direction| #[trigger] self.cells@[j2].neighbor_spec(d)
                                == g_pre.cells@[j2].neighbor_spec(d));
                            assert(forall|d: Direction|
                                (#[trigger] g_pre.cells@[j2].neighbor_spec(d)) matches Some(m)
                                    ==> self.cells@[m as int].options@ == g_pre.cells@[
                                m as int
                            ].options@);
                            if cell_stable(g_pre, j2) {
                                lemma_cell_stable_frame(g_pre, *self, j2);
                            } else {
                                assert(neighborhood_unchanged(g0, g_pre, j2));
                                assert(forall|d: Direction|
                                    (#[trigger] self.cells@[j2].neighbor_spec(d)) matches Some(m)
                                        ==> self.cells@[m as int].options@ == g0.cells@[
                                    m as int
                                ].options@);
                                assert(neighborhood_unchanged(g0, *self, j2));
                            }
                        }
                    }
                }
                // The direct neighbors of `i` stay pending or stable.
                assert forall|nb: usize| #[trigger] points_to(g0, i as int, nb) implies (
                queue@.contains(nb) || cell_stable(*self, nb as int)) by {
                    let dnb = choose|d: Direction|
                        g0.cells@[i as int].neighbor_spec(d) == Some(nb);
                    assert(cell_narrowed(self.cells@[i as int], g0.cells@[i as int]));
                    assert(self.cells@[i as int].neighbor_spec(dnb) == Some(nb));
                    assert(self.cells@[i as int].neighbors_in_range(self.cells@.len() as int));
                    assert(nb < g0.cells@.len());
                    if nb as int == j as int {
                        assert(cell_stable(*self, nb as int));
                    } else if q_start.contains(nb) {
                        let qi = choose|q: int| 0 <= q < q_start.len() && q_start[q] == nb;
                        assert(q_start[q_start.len() - 1] == j);
                        assert(qi < q_start.len() - 1);
                        assert(q_popped[qi] == nb);
                        assert(q_popped.contains(nb));
                        if after < before {
                            assert(qa == q_popped);
                            assert(qa.contains(nb));
                            assert(gq.contains(nb));
                        } else {
                            assert(queue@ == q_popped);
                        }
                        assert(queue@.contains(nb));
                    } else {
                        assert(cell_stable(g_pre, nb as int));
                        let nbi = nb as int;
                        let saw_j = exists|d: Direction|
                            g_pre.cells@[nbi].neighbor_spec(d) == Some(j);
                        if saw_j && after < before {
                            let d = choose|d: Direction|
                                g_pre.cells@[nbi].neighbor_spec(d) == Some(j);
                            assert(self.cells@[nbi].neighbor_spec(d) == Some(j));
                            lemma_neighbor_symmetry(*self, nbi, d, j);
                            assert(queue@.contains(nb));
                        } else {
                            assert(forall|mi: int|
                                0 <= mi < self.cells@.len() && mi != j as int ==> (
                                #[trigger] self.cells@[mi]).options@ == g_pre.cells@[mi].options@);
                            if saw_j {
                                assert(after == before);
                                lemma_filter_len_eq_id(g_pre.cells@[j as int].options@, pred);
                            }
                            assert(g_pre.cells@[nbi].neighbors_in_range(
                                g_pre.cells@.len() as int,
                            ));
                            assert(forall|d: Direction| #[trigger] self.cells@[
                                nbi
                            ].neighbor_spec(d) == g_pre.cells@[nbi].neighbor_spec(d));
                            assert(forall|d: Direction|
                                (#[trigger] g_pre.cells@[nbi].neighbor_spec(d)) matches Some(m)
                                    ==> self.cells@[m as int].options@ == g_pre.cells@[
                                m as int
                            ].options@);
                            lemma_cell_stable_frame(g_pre, *self, nbi);
                        }
                    }
                }
                // No self-consistent narrowing of the start state loses an
                // option to this pass: each of its options stays feasible.
                assert forall|s: TileGrid| #[trigger] consistent_refinement(s, g0) implies
                    options_contained(s, *self) by {
                    assert(options_contained(s, g_pre));
                    assert(same_frame(s, g_pre)) by {
                        assert forall|m: int| 0 <= m < s.cells@.len() implies {
                            &&& (#[trigger] s.cells@[m]).up == g_pre.cells@[m].up
                            &&& s.cells@[m].right == g_pre.cells@[m].right
                            &&& s.cells@[m].down == g_pre.cells@[m].down
                            &&& s.cells@[m].left == g_pre.cells@[m].left
                        } by {
                            assert(cell_narrowed(g_pre.cells@[m], g0.cells@[m]));
                        }
                    }
                    assert forall|j2: int, k: int|
                        0 <= j2 < s.cells@.len() && 0 <= k < s.cells@[j2].options@.len() implies
                        self.cells@[j2].options@.contains(
                        #[trigger] s.cells@[j2].options@[k]) by {
                        let t = s.cells@[j2].options@[k];
                        assert(g_pre.cells@[j2].options@.contains(t));
                        if j2 == j as int {
                            assert(cell_stable(s, j2));
                            assert(allowed(s, j2, t as int));
                            lemma_refinement_allowed(s, g_pre, j2, t as int);
                            let m = choose|m: int|
                                0 <= m < g_pre.cells@[j2].options@.len() && g_pre.cells@[
                                    j2
                                ].options@[m] == t;
                            g_pre.cells@[j2].options@.lemma_filter_contains(pred, m);
                            assert(g_pre.cells@[j2].options@.filter(pred).contains(t));
                        } else {
                            assert(self.cells@[j2] == g_pre.cells@[j2]);
                        }
                    }
                }
            }
        }
        proof {
            assert forall|nb: usize| #[trigger] points_to(g0, i as int, nb) implies cell_stable(
                *self,
                nb as int,
            ) by {
                assert(!queue@.contains(nb));
            }
            if let Some(nb) = g0.cells@[i as int].up {
                assert(g0.cells@[i as int].neighbor_spec(Direction::Up) == Some(nb));
                assert(points_to(g0, i as int, nb));
                assert(cell_stable(*self, nb as int));
            }
            if let Some(nb) = g0.cells@[i as int].right {
                assert(g0.cells@[i as int].neighbor_spec(Direction::Right) == Some(nb));
                assert(points_to(g0, i as int, nb));
                assert(cell_stable(*self, nb as int));
            }
            if let Some(nb) = g0.cells@[i as int].down {
                assert(g0.cells@[i as int].neighbor_spec(Direction::Down) == Some(nb));
                assert(points_to(g0, i as int, nb));
                assert(cell_stable(*self, nb as int));
            }
            if let Some(nb) = g0.cells@[i as int].left {
                assert(g0.cells@[i as int].neighbor_spec(Direction::Left) == Some(nb));
                assert(points_to(g0, i as int, nb));
                assert(cell_stable(*self, nb as int));
            }
            assert(forall|d: Direction|
                (#[trigger] g0.cells@[i as int].neighbor_spec(d)) matches Some(nb)
                    ==> cell_stable(*self, nb as int));
        }
    }
}

/// What holds of grid `g1` after cell `i` of grid `g0` was committed to
/// the single candidate `t` and the change propagated: same shape and
/// catalog, every other cell narrowed, and cell `i` keeping at most the
/// one chosen candidate — propagation may have emptied it again.
pub open spec fn collapsed_outcome(g0: TileGrid, g1: TileGrid, i: int, t: usize) -> bool {
    &&& g1.width == g0.width
    &&& g1.height == g0.height
    &&& g1.tiles == g0.tiles
    &&& g1.cells@.len() == g0.cells@.len()
    &&& forall|j: int|
        0 <= j < g0.cells@.len() && j != i ==> cell_narrowed(#[trigger] g1.cells@[j], g0.cells@[j])
    &&& g1.cells@[i].up == g0.cells@[i].up
    &&& g1.cells@[i].right == g0.cells@[i].right
    &&& g1.cells@[i].down == g0.cells@[i].down
    &&& g1.cells@[i].left == g0.cells@[i].left
    &&& g1.cells@[i].options@.len() <= 1
    &&& is_subsequence(g1.cells@[i].options@, g0.cells@[i].options@)
    &&& forall|k: int| 0 <= k < g1.cells@[i].options@.len() ==> g1.cells@[i].options@[k] == t
}

/// Replacing cell `i` by a cell with the same neighbor relations whose
/// options all name catalog tiles keeps the grid well-formed.
proof fn lemma_wf_update(g0: TileGrid, g1: TileGrid, i: int, c: Cell)
    requires
        g0.wf(),
        0 <= i < g0.cells@.len(),
        g1.cells@ =~= g0.cells@.update(i, c),
        g1.width == g0.width,
        g1.height == g0.height,
        g1.tiles == g0.tiles,
        c.up == g0.cells@[i].up,
        c.right == g0.cells@[i].right,
        c.down == g0.cells@[i].down,
        c.left == g0.cells@[i].left,
        c.options_in_range(g0.tiles@.len() as int),
    ensures
        g1.wf(),
{
    assert forall|j: int| 0 <= j < g1.cells@.len() implies (#[trigger] g1.cells@[j]).options_in_range(
        g1.tiles@.len() as int,
    ) by {
        assert(g0.cells@[j].options_in_range(g0.tiles@.len() as int));
    }
    assert forall|j: int| 0 <= j < g1.cells@.len() implies (
    #[trigger] g1.cells@[j]).neighbors_in_range(g1.cells@.len() as int) by {
        assert(g0.cells@[j].neighbors_in_range(g0.cells@.len() as int));
    }
    assert forall|j: int| 0 <= j < g1.cells@.len() implies wired(
        g1.cells@,
        g1.width as int,
        g1.cells@.len() as int,
        j,
    ) by {
        assert(wired(g0.cells@, g0.width as int, g0.cells@.len() as int, j));
    }
}

/// A wave that settled against the committed grid has settled against the
/// pre-commit grid: the two differ only in cell `i` holding `t` alone.
proof fn lemma_wave_settled_from_commit(
    g0: TileGrid,
    g_mid: TileGrid,
    g1: TileGrid,
    i: int,
    t: usize,
)
    requires
        0 <= i < g0.cells@.len(),
        g_mid.cells@.len() == g0.cells@.len(),
        g_mid.cells@[i].options@ == seq![t],
        forall|m: int|
            0 <= m < g0.cells@.len() && m != i ==> (#[trigger] g_mid.cells@[m]).options@
                == g0.cells@[m].options@,
        g1.wf(),
        g1.cells@.len() == g_mid.cells@.len(),
        forall|j: int|
            0 <= j < g1.cells@.len() ==> (#[trigger] cell_stable(g1, j))
                || neighborhood_unchanged(g_mid, g1, j),
    ensures
        wave_settled(g0, g1, i, t),
{
    assert forall|j: int| 0 <= j < g1.cells@.len() implies ((#[trigger] cell_stable(g1, j))
        || untouched_after_commit(g0, g1, i, t, j)) by {
        if !cell_stable(g1, j) {
            assert(neighborhood_unchanged(g_mid, g1, j));
            assert(forall|m: int|
                0 <= m < g_mid.cells@.len() ==> (#[trigger] g_mid.cells@[m]).options@
                    == committed_options(g0, i, t, m));
            assert(g1.cells@[j].neighbors_in_range(g1.cells@.len() as int));
            assert(g1.cells@[j].options@ == committed_options(g0, i, t, j));
            assert(forall|d: Direction|
                (#[trigger] g1.cells@[j].neighbor_spec(d)) matches Some(m) ==> g1.cells@[
                    m as int
                ].options@ == committed_options(g0, i, t, m as int));
            assert(untouched_after_commit(g0, g1, i, t, j));
        }
    }
}

impl TileGrid {
    /// Commits cell `i` to the single candidate `tile` and propagates the
    /// change: the deterministic core of a collapse, which the weighted
    /// random draw feeds. Returns `false`, changing nothing, when `tile`
    /// is not currently a candidate of cell `i`.
    pub fn collapse_to(&mut self, i: usize, tile: usize) -> (r: bool)
        requires
            old(self).wf(),
            i < old(self).cells@.len(),
        ensures
            final(self).wf(),
            r == old(self).cells@[i as int].options@.contains(tile),
            !r ==> *final(self) == *old(self),
            r ==> collapsed_outcome(*old(self), *final(self), i as int, tile),
            r ==> wave_settled(*old(self), *final(self), i as int, tile),
            r ==> (forall|d: Direction|
                (#[trigger] old(self).cells@[i as int].neighbor_spec(d)) matches Some(nb)
                    ==> cell_stable(*final(self), nb as int)),
            r ==> (forall|s: TileGrid|
                #[trigger] refines_commit(s, *old(self), i as int, tile) ==> options_contained(
                    s,
                    *final(self),
                )),
    {
        let ghost g0 = *self;
        let ghost opts = g0.cells@[i as int].options@;
        let n = self.cells[i].options.len();
        let mut found = false;
        let mut k: usize = 0;
        while k < n
            invariant
                *self == g0,
                i < g0.cells@.len(),
                opts == g0.cells@[i as int].options@,
                n == opts.len(),
                k <= n,
                found == exists|q: int| 0 <= q < k && opts[q] == tile,
            decreases n - k,
        {
            if self.cells[i].options[k] == tile {
                found = true;
            }
            k += 1;
        }
        if !found {
            proof {
                assert(!opts.contains(tile));
            }
            return false;
        }
        proof {
            assert(opts.contains(tile));
            assert(g0.cells@[i as int].options_in_range(g0.tiles@.len() as int));
            let q = choose|q: int| 0 <= q < opts.len() && opts[q] == tile;
            assert(opts[q] < g0.tiles@.len());
        }
        let up = self.cells[i].up;
        let right = self.cells[i].right;
        let down = self.cells[i].down;
        let left = self.cells[i].left;
        let newcell = Cell { options: vec![tile], up, right, down, left };
        self.cells[i] = newcell;
        proof {
            assert(self.cells@ =~= g0.cells@.update(i as int, newcell));
            lemma_wf_update(g0, *self, i as int, newcell);
        }
        let ghost g_mid = *self;
        self.notify_neighbors(i);
        proof {
            assert forall|j: int| 0 <= j < g0.cells@.len() && j != i implies cell_narrowed(
                #[trigger] self.cells@[j],
                g0.cells@[j],
            ) by {
                assert(cell_narrowed(self.cells@[j], g_mid.cells@[j]));
                assert(g_mid.cells@[j] == g0.cells@[j]);
            }
            assert(cell_narrowed(self.cells@[i as int], g_mid.cells@[i as int]));
            assert forall|k2: int| 0 <= k2 < self.cells@[i as int].options@.len() implies self.cells@[
                i as int
            ].options@[k2] == tile by {
                assert(g_mid.cells@[i as int].options@.contains(self.cells@[i as int].options@[k2]));
            }
            assert(g_mid.cells@[i as int].options@ =~= seq![tile]);
            lemma_contains_singleton_subsequence(g0.cells@[i as int].options@, tile);
            lemma_subsequence_trans(
                self.cells@[i as int].options@,
                g_mid.cells@[i as int].options@,
                g0.cells@[i as int].options@,
            );
            lemma_wave_settled_from_commit(g0, g_mid, *self, i as int, tile);
            assert(forall|d: Direction| #[trigger] g0.cells@[i as int].neighbor_spec(d)
                == g_mid.cells@[i as int].neighbor_spec(d));
            assert(forall|d: Direction|
                (#[trigger] g0.cells@[i as int].neighbor_spec(d)) matches Some(nb)
                    ==> cell_stable(*self, nb as int));
            assert forall|s: TileGrid| #[trigger] refines_commit(s, g0, i as int, tile) implies
                options_contained(s, *self) by {
                assert(same_frame(s, g_mid)) by {
                    assert forall|m: int| 0 <= m < s.cells@.len() implies {
                        &&& (#[trigger] s.cells@[m]).up == g_mid.cells@[m].up
                        &&& s.cells@[m].right == g_mid.cells@[m].right
                        &&& s.cells@[m].down == g_mid.cells@[m].down
                        &&& s.cells@[m].left == g_mid.cells@[m].left
                    } by {
                        if m != i as int {
                            assert(g_mid.cells@[m] == g0.cells@[m]);
                        }
                    }
                }
                assert forall|j2: int, k: int|
                    0 <= j2 < s.cells@.len() && 0 <= k < s.cells@[j2].options@.len() implies
                    g_mid.cells@[j2].options@.contains(#[trigger] s.cells@[j2].options@[k]) by {
                    assert(committed_options(g0, i as int, tile, j2).contains(
                        s.cells@[j2].options@[k],
                    ));
                    if j2 == i as int {
                        assert(g_mid.cells@[j2].options@ == seq![tile]);
                    } else {
                        assert(g_mid.cells@[j2].options@ == g0.cells@[j2].options@);
                    }
                }
                assert(consistent_refinement(s, g_mid));
                assert(options_contained(s, *self));
            }
        }
        true
    }

    /// Collapses cell `i` by a weighted random draw over its current
    /// options and propagates the change. Fails with `ContradictionError`,
    /// leaving the grid untouched, exactly when the option set is empty.
    pub fn collapse_random(&mut self, i: usize) -> (r: Result<(), ContradictionError>)
        requires
            old(self).wf(),
            i < old(self).cells@.len(),
        ensures
            final(self).wf(),
            r is Err <==> old(self).cells@[i as int].options@.len() == 0,
            r is Err ==> same_cells(*old(self), *final(self)),
            r is Ok ==> exists|t: usize|
                old(self).cells@[i as int].options@.contains(t) && collapsed_outcome(
                    *old(self),
                    *final(self),
                    i as int,
                    t,
                ) && wave_settled(*old(self), *final(self), i as int, t) && (forall|s: TileGrid|
                    #[trigger] refines_commit(s, *old(self), i as int, t) ==> options_contained(
                        s,
                        *final(self),
                    )),
            r is Ok ==> (forall|d: Direction|
                (#[trigger] old(self).cells@[i as int].neighbor_spec(d)) matches Some(nb)
                    ==> cell_stable(*final(self), nb as int)),
    {
        let ghost g0 = *self;
        let mut cell = self.cells.remove(i);
        proof {
            assert(g0.cells@[i as int].options_in_range(g0.tiles@.len() as int));
        }
        let res = cell.collapse_random(&self.tiles);
        let ghost c1 = cell;
        self.cells.insert(i, cell);
        proof {
            assert(self.cells@ =~= g0.cells@.update(i as int, c1));
        }
        match res {
            Err(e) => {
                proof {
                    lemma_wf_update(g0, *self, i as int, c1);
                    assert(cell_same(c1, g0.cells@[i as int]));
                    assert forall|j: int| 0 <= j < g0.cells@.len() implies cell_same(
                        #[trigger] self.cells@[j],
                        g0.cells@[j],
                    ) by {
                        if j != i {
                            assert(self.cells@[j] == g0.cells@[j]);
                        }
                    }
                }
                Err(e)
            },
            Ok(_u) => {
                proof {
                    lemma_wf_update(g0, *self, i as int, c1);
                }
                let ghost g_mid = *self;
                let ghost t_chosen = c1.options@[0];
                self.notify_neighbors(i);
                proof {
                    assert forall|j: int| 0 <= j < g0.cells@.len() && j != i implies cell_narrowed(
                        #[trigger] self.cells@[j],
                        g0.cells@[j],
                    ) by {
                        assert(cell_narrowed(self.cells@[j], g_mid.cells@[j]));
                        assert(g_mid.cells@[j] == g0.cells@[j]);
                    }
                    assert(cell_narrowed(self.cells@[i as int], g_mid.cells@[i as int]));
                    assert forall|k2: int|
                        0 <= k2 < self.cells@[i as int].options@.len() implies self.cells@[
                        i as int
                    ].options@[k2] == t_chosen by {
                        assert(g_mid.cells@[i as int].options@.contains(
                            self.cells@[i as int].options@[k2],
                        ));
                    }
                    assert(g_mid.cells@[i as int].options@ =~= seq![t_chosen]);
                    lemma_contains_singleton_subsequence(
                        g0.cells@[i as int].options@,
                        t_chosen,
                    );
                    lemma_subsequence_trans(
                        self.cells@[i as int].options@,
                        g_mid.cells@[i as int].options@,
                        g0.cells@[i as int].options@,
                    );
                    assert(collapsed_outcome(g0, *self, i as int, t_chosen));
                    lemma_wave_settled_from_commit(g0, g_mid, *self, i as int, t_chosen);
                    assert(forall|d: Direction| #[trigger] g0.cells@[i as int].neighbor_spec(d)
                        == g_mid.cells@[i as int].neighbor_spec(d));
                    assert(forall|d: Direction|
                        (#[trigger] g0.cells@[i as int].neighbor_spec(d)) matches Some(nb)
                            ==> cell_stable(*self, nb as int));
                    assert forall|s: TileGrid|
                        #[trigger] refines_commit(s, g0, i as int, t_chosen) implies
                        options_contained(s, *self) by {
                        assert(same_frame(s, g_mid)) by {
                            assert forall|m: int| 0 <= m < s.cells@.len() implies {
                                &&& (#[trigger] s.cells@[m]).up == g_mid.cells@[m].up
                                &&& s.cells@[m].right == g_mid.cells@[m].right
                                &&& s.cells@[m].down == g_mid.cells@[m].down
                                &&& s.cells@[m].left == g_mid.cells@[m].left
                            } by {
                                if m != i as int {
                                    assert(g_mid.cells@[m] == g0.cells@[m]);
                                }
                            }
                        }
                        assert forall|j2: int, k: int|
                            0 <= j2 < s.cells@.len() && 0 <= k < s.cells@[j2].options@.len()
                            implies g_mid.cells@[j2].options@.contains(
                            #[trigger] s.cells@[j2].options@[k]) by {
                            assert(committed_options(g0, i as int, t_chosen, j2).contains(
                                s.cells@[j2].options@[k],
                            ));
                            if j2 == i as int {
                                assert(g_mid.cells@[j2].options@ == seq![t_chosen]);
                            } else {
                                assert(g_mid.cells@[j2].options@ == g0.cells@[j2].options@);
                            }
                        }
                        assert(consistent_refinement(s, g_mid));
                        assert(options_contained(s, *self));
                    }
                }
                Ok(())
            },
        }
    }

    /// Scans the unresolved cells; when none remain this is a no-op.
    /// Otherwise collapses one cell chosen uniformly at random among those
    /// attaining the minimum entropy. A contradiction — an empty cell — is
    /// reported to the caller with nothing rolled back: earlier committed
    /// propagation stays in place.
    pub fn collapse_lowest_entropy(&mut self) -> (r: Result<(), ContradictionError>)
        requires
            old(self).wf(),
        ensures
            final(self).wf(),
            (forall|j: int|
                0 <= j < old(self).cells@.len() ==> (#[trigger] old(self).cells@[j]).options@.len()
                    == 1) ==> r is Ok && *final(self) == *old(self),
            r is Err <==> (exists|j: int|
                0 <= j < old(self).cells@.len() && (#[trigger] old(self).cells@[j]).options@.len()
                    == 0),
            r is Err ==> same_cells(*old(self), *final(self)),
            (exists|j: int|
                0 <= j < old(self).cells@.len() && (#[trigger] old(self).cells@[j]).options@.len()
                    != 1) ==> (exists|i: int|
                {
                    &&& 0 <= i < old(self).cells@.len()
                    &&& (#[trigger] old(self).cells@[i]).options@.len() != 1
                    &&& (forall|j: int|
                        0 <= j < old(self).cells@.len() && (
                        #[trigger] old(self).cells@[j]).options@.len() != 1 ==> old(
                            self,
                        ).cells@[j].options@.len() >= old(self).cells@[i].options@.len())
                    &&& (old(self).cells@[i].options@.len() == 0 ==> r is Err)
                    &&& (old(self).cells@[i].options@.len() > 0 ==> r is Ok && (exists|t: usize|
                        old(self).cells@[i].options@.contains(t) && collapsed_outcome(
                            *old(self),
                            *final(self),
                            i,
                            t,
                        ) && wave_settled(*old(self), *final(self), i, t) && (forall|s: TileGrid|
                            #[trigger] refines_commit(s, *old(self), i, t) ==> options_contained(
                                s,
                                *final(self),
                            ))))
                    &&& (old(self).cells@[i].options@.len() > 0 ==> (forall|d: Direction|
                        (#[trigger] old(self).cells@[i].neighbor_spec(d)) matches Some(nb)
                            ==> cell_stable(*final(self), nb as int)))
                }),
    {
        let ghost g0 = *self;
        let n = self.cells.len();
        let mut min: usize = 0;
        let mut found = false;
        let mut k: usize = 0;
        while k < n
            invariant
                *self == g0,
                n == g0.cells@.len(),
                k <= n,
                !found ==> (forall|j: int|
                    0 <= j < k ==> (#[trigger] g0.cells@[j]).options@.len() == 1),
                found ==> min != 1,
                found ==> (exists|j: int|
                    0 <= j < k && (#[trigger] g0.cells@[j]).options@.len() == min),
                found ==> (forall|j: int|
                    0 <= j < k && (#[trigger] g0.cells@[j]).options@.len() != 1
                        ==> g0.cells@[j].options@.len() >= min),
            decreases n - k,
        {
            let e = self.cells[k].options.len();
            if e != 1 {
                if !found || e < min {
                    min = e;
                    found = true;
                }
            }
            k += 1;
        }
        if !found {
            return Ok(());
        }
        let mut cand: Vec<usize> = Vec::new();
        k = 0;
        while k < n
            invariant
                *self == g0,
                n == g0.cells@.len(),
                k <= n,
                forall|q: int|
                    0 <= q < cand@.len() ==> (#[trigger] cand@[q]) < n && g0.cells@[
                        cand@[q] as int
                    ].options@.len() == min,
                forall|j: int|
                    0 <= j < k && (#[trigger] g0.cells@[j]).options@.len() == min ==> (exists|
                        q: int,
                    |
                        0 <= q < cand@.len() && (#[trigger] cand@[q]) as int == j),
            decreases n - k,
        {
            let ghost cand_old = cand@;
            if self.cells[k].options.len() == min {
                cand.push(k);
            }
            proof {
                assert forall|j: int|
                    0 <= j < k + 1 && (#[trigger] g0.cells@[j]).options@.len() == min implies (
                exists|q: int| 0 <= q < cand@.len() && (#[trigger] cand@[q]) as int == j) by {
                    if j < k {
                        let q0 = choose|q: int|
                            0 <= q < cand_old.len() && (#[trigger] cand_old[q]) as int == j;
                        assert(cand@[q0] as int == j);
                    } else {
                        assert(cand@[cand@.len() - 1] as int == j);
                    }
                }
            }
            k += 1;
        }
        proof {
            let j0 = choose|j: int| 0 <= j < n && (#[trigger] g0.cells@[j]).options@.len() == min;
            assert(exists|q: int| 0 <= q < cand@.len() && (#[trigger] cand@[q]) as int == j0);
        }
        let pick128 = random_below(cand.len() as u128);
        let pick = pick128 as usize;
        let i = cand[pick];
        let res = self.collapse_random(i);
        proof {
            if (forall|j: int|
                0 <= j < g0.cells@.len() ==> (#[trigger] g0.cells@[j]).options@.len() == 1) {
                let jw = choose|j: int|
                    0 <= j < n && (#[trigger] g0.cells@[j]).options@.len() == min;
                assert(g0.cells@[jw].options@.len() == 1);
                assert(false);
            }
            if res is Err {
                assert(g0.cells@[i as int].options@.len() == 0);
            }
            if (exists|j: int|
                0 <= j < g0.cells@.len() && (#[trigger] g0.cells@[j]).options@.len() == 0) {
                let j1 = choose|j: int|
                    0 <= j < g0.cells@.len() && (#[trigger] g0.cells@[j]).options@.len() == 0;
                assert(g0.cells@[j1].options@.len() >= min);
                assert(min == 0);
                assert(res is Err);
            }
            if res is Ok {
                let t = choose|t: usize|
                    g0.cells@[i as int].options@.contains(t) && collapsed_outcome(
                        g0,
                        *self,
                        i as int,
                        t,
                    ) && wave_settled(g0, *self, i as int, t) && (forall|s: TileGrid|
                        #[trigger] refines_commit(s, g0, i as int, t) ==> options_contained(
                            s,
                            *self,
                        ));
                assert({
                    &&& 0 <= (i as int) < g0.cells@.len()
                    &&& g0.cells@[i as int].options@.len() != 1
                    &&& (forall|j: int|
                        0 <= j < g0.cells@.len() && (#[trigger] g0.cells@[j]).options@.len() != 1
                            ==> g0.cells@[j].options@.len() >= g0.cells@[i as int].options@.len())
                    &&& (g0.cells@[i as int].options@.len() > 0 ==> res is Ok && g0.cells@[
                        i as int
                    ].options@.contains(t) && collapsed_outcome(g0, *self, i as int, t)
                        && wave_settled(g0, *self, i as int, t) && (forall|s: TileGrid|
                            #[trigger] refines_commit(s, g0, i as int, t) ==> options_contained(
                                s,
                                *self,
                            )))
                    &&& (g0.cells@[i as int].options@.len() > 0 ==> (forall|d: Direction|
                        (#[trigger] g0.cells@[i as int].neighbor_spec(d)) matches Some(nb)
                            ==> cell_stable(*self, nb as int)))
                });
            } else {
                assert({
                    &&& 0 <= (i as int) < g0.cells@.len()
                    &&& g0.cells@[i as int].options@.len() != 1
                    &&& (forall|j: int|
                        0 <= j < g0.cells@.len() && (#[trigger] g0.cells@[j]).options@.len() != 1
                            ==> g0.cells@[j].options@.len() >= g0.cells@[i as int].options@.len())
                    &&& (g0.cells@[i as int].options@.len() == 0 ==> res is Err)
                });
            }
        }
        res
    }
}

/// The option list of a fresh cell: every catalog index, in catalog order.
fn full_options(k: usize) -> (r: Vec<usize>)
    ensures
        r@ == Seq::new(k as nat, |t: int| t as usize),
{
    let mut v: Vec<usize> = Vec::new();
    proof {
        assert(v@ =~= Seq::new(0nat, |t: int| t as usize));
    }
    let mut t: usize = 0;
    while t < k
        invariant
            t <= k,
            v@ == Seq::new(t as nat, |q: int| q as usize),
        decreases k - t,
    {
        v.push(t);
        proof {
            assert(v@ =~= Seq::new((t + 1) as nat, |q: int| q as usize));
        }
        t += 1;
    }
    v
}

/// An independent copy of an index list.
fn copy_indices(v: &Vec<usize>) -> (r: Vec<usize>)
    ensures
        r@ == v@,
{
    let mut r: Vec<usize> = Vec::new();
    let n = v.len();
    let mut k: usize = 0;
    while k < n
        invariant
            k <= n,
            n == v@.len(),
            r@ == v@.subrange(0, k as int),
        decreases n - k,
    {
        r.push(v[k]);
        proof {
            assert(v@.subrange(0, (k + 1) as int) =~= v@.subrange(0, k as int).push(v@[k as int]));
        }
        k += 1;
    }
    proof {
        assert(v@.subrange(0, n as int) =~= v@);
    }
    r
}

/// Position arithmetic on the row-major lattice.
proof fn lemma_grid_index_bounds(x: int, y: int, w: int, h: int)
    by (nonlinear_arith)
    requires
        0 <= x < w,
        0 <= y < h,
    ensures
        y * w + x < w * h,
        y >= 1 ==> y * w + x >= w,
        y < h - 1 ==> y * w + x + w < w * h,
        y == h - 1 ==> y * w + x + w >= w * h,
{
}

impl TileGrid {
    /// Number of columns.
    pub fn width(&self) -> (r: usize)
        ensures
            r == self.width,
    {
        self.width
    }

    /// Number of rows.
    pub fn height(&self) -> (r: usize)
        ensures
            r == self.height,
    {
        self.height
    }

    /// Builds a `width` by `height` grid whose every cell is seeded with the
    /// full catalog, wiring every adjacent pair's neighbor relations
    /// symmetrically, with no wraparound. Returns `None` exactly on the
    /// degenerate inputs — a zero dimension or an empty catalog — from which
    /// no collapse could ever succeed.
    pub fn new(tiles: Vec<TileData>, width: usize, height: usize) -> (r: Option<TileGrid>)
        requires
            width * height <= usize::MAX,
            forall|t: int| 0 <= t < tiles@.len() ==> (#[trigger] tiles@[t]).weight >= 1,
        ensures
            r is None <==> (width == 0 || height == 0 || tiles@.len() == 0),
            r matches Some(g) ==> {
                &&& g.wf()
                &&& g.width == width
                &&& g.height == height
                &&& g.tiles == tiles
                &&& g.cells@.len() == width * height
                &&& forall|p: int|
                    0 <= p < g.cells@.len() ==> (#[trigger] g.cells@[p]).options@ == Seq::new(
                        tiles@.len(),
                        |t: int| t as usize,
                    )
                &&& forall|p: int|
                    0 <= p < g.cells@.len() ==> (#[trigger] g.cells@[p]).options@.len()
                        == tiles@.len()
            },
    {
        if width == 0 || height == 0 || tiles.len() == 0 {
            return None;
        }
        let count = width * height;
        let ghost k_tiles = tiles@.len();
        let ghost full = Seq::new(k_tiles, |t: int| t as usize);
        let mut cells: Vec<Cell> = Vec::new();
        let mut y: usize = 0;
        while y < height
            invariant
                1 <= width,
                1 <= height,
                k_tiles == tiles@.len(),
                1 <= k_tiles,
                full == Seq::new(k_tiles, |t: int| t as usize),
                count == width * height,
                y <= height,
                cells@.len() == y * width,
                cells@.len() <= count,
                forall|p: int| 0 <= p < cells@.len() ==> (#[trigger] cells@[p]).options@ == full,
                forall|p: int|
                    0 <= p < cells@.len() ==> (#[trigger] cells@[p]).neighbors_in_range(
                        count as int,
                    ),
                forall|p: int|
                    0 <= p < cells@.len() ==> wired(cells@, width as int, count as int, p),
            decreases height - y,
        {
            let mut x: usize = 0;
            while x < width
                invariant
                    1 <= width,
                    1 <= height,
                    k_tiles == tiles@.len(),
                    1 <= k_tiles,
                    full == Seq::new(k_tiles, |t: int| t as usize),
                    count == width * height,
                    y < height,
                    x <= width,
                    cells@.len() == y * width + x,
                    cells@.len() <= count,
                    forall|p: int|
                        0 <= p < cells@.len() ==> (#[trigger] cells@[p]).options@ == full,
                    forall|p: int|
                        0 <= p < cells@.len() ==> (#[trigger] cells@[p]).neighbors_in_range(
                            count as int,
                        ),
                    forall|p: int|
                        0 <= p < cells@.len() ==> wired(cells@, width as int, count as int, p),
                decreases width - x,
            {
                let i = cells.len();
                proof {
                    lemma_grid_index_bounds(x as int, y as int, width as int, height as int);
                    if x + 1 < width {
                        lemma_grid_index_bounds(
                            x as int + 1,
                            y as int,
                            width as int,
                            height as int,
                        );
                    }
                    vstd::arithmetic::div_mod::lemma_fundamental_div_mod_converse(
                        i as int,
                        width as int,
                        y as int,
                        x as int,
                    );
                }
                let up = if y > 0 {
                    Some(i - width)
                } else {
                    None
                };
                let down = if y + 1 < height {
                    Some(i + width)
                } else {
                    None
                };
                let left = if x > 0 {
                    Some(i - 1)
                } else {
                    None
                };
                let right = if x + 1 < width {
                    Some(i + 1)
                } else {
                    None
                };
                let opts = full_options(tiles.len());
                let ghost cells_old = cells@;
                let c = Cell { options: opts, up, right, down, left };
                cells.push(c);
                proof {
                    assert(cells@ =~= cells_old.push(c));
                    assert(wired(cells@, width as int, count as int, i as int));
                    assert forall|p: int| 0 <= p < cells_old.len() implies wired(
                        cells@,
                        width as int,
                        count as int,
                        p,
                    ) by {
                        assert(wired(cells_old, width as int, count as int, p));
                        assert(cells@[p] == cells_old[p]);
                    }
                }
                x += 1;
            }
            proof {
                assert(y as int * width as int + width as int == (y as int + 1) * (width as int))
                    by (nonlinear_arith);
            }
            y += 1;
        }
        proof {
            assert(cells@.len() == height as int * width as int);
            assert(height as int * width as int == width as int * height as int)
                by (nonlinear_arith);
        }
        let g = TileGrid { cells, tiles, width, height };
        proof {
            assert forall|p: int| 0 <= p < g.cells@.len() implies (
            #[trigger] g.cells@[p]).options_in_range(g.tiles@.len() as int) by {
                assert(g.cells@[p].options@ == full);
                assert forall|q: int| 0 <= q < full.len() implies (#[trigger] full[q])
                    < k_tiles by {
                    assert(full[q] == q as usize);
                }
            }
        }
        Some(g)
    }

    /// Restores every cell's option set to the full catalog, discarding all
    /// progress: the engine's sole failure-recovery mechanism, a complete
    /// restart. Dimensions, catalog and wiring are untouched.
    pub fn reset(&mut self)
        requires
            old(self).wf(),
        ensures
            final(self).wf(),
            final(self).width == old(self).width,
            final(self).height == old(self).height,
            final(self).tiles == old(self).tiles,
            final(self).cells@.len() == old(self).cells@.len(),
            forall|p: int|
                0 <= p < old(self).cells@.len() ==> {
                    &&& (#[trigger] final(self).cells@[p]).options@ == Seq::new(
                        old(self).tiles@.len(),
                        |t: int| t as usize,
                    )
                    &&& final(self).cells@[p].options@.len() == old(self).tiles@.len()
                    &&& final(self).cells@[p].up == old(self).cells@[p].up
                    &&& final(self).cells@[p].right == old(self).cells@[p].right
                    &&& final(self).cells@[p].down == old(self).cells@[p].down
                    &&& final(self).cells@[p].left == old(self).cells@[p].left
                },
    {
        let ghost g0 = *self;
        let ghost full = Seq::new(g0.tiles@.len(), |t: int| t as usize);
        let n = self.cells.len();
        let k = self.tiles.len();
        let mut j: usize = 0;
        while j < n
            invariant
                g0.wf(),
                n == g0.cells@.len(),
                k == g0.tiles@.len(),
                full == Seq::new(g0.tiles@.len(), |t: int| t as usize),
                j <= n,
                self.width == g0.width,
                self.height == g0.height,
                self.tiles == g0.tiles,
                self.cells@.len() == g0.cells@.len(),
                forall|p: int|
                    0 <= p < j ==> {
                        &&& (#[trigger] self.cells@[p]).options@ == full
                        &&& self.cells@[p].up == g0.cells@[p].up
                        &&& self.cells@[p].right == g0.cells@[p].right
                        &&& self.cells@[p].down == g0.cells@[p].down
                        &&& self.cells@[p].left == g0.cells@[p].left
                    },
                forall|p: int| j <= p < n ==> #[trigger] self.cells@[p] == g0.cells@[p],
            decreases n - j,
        {
            let opts = full_options(k);
            let up = self.cells[j].up;
            let right = self.cells[j].right;
            let down = self.cells[j].down;
            let left = self.cells[j].left;
            self.cells[j] = Cell { options: opts, up, right, down, left };
            j += 1;
        }
        proof {
            assert forall|q: int| 0 <= q < full.len() implies (#[trigger] full[q])
                < g0.tiles@.len() by {
                assert(full[q] == q as usize);
            }
            assert forall|p: int| 0 <= p < self.cells@.len() implies (
            #[trigger] self.cells@[p]).options_in_range(self.tiles@.len() as int) by {
                assert(self.cells@[p].options@ == full);
            }
            assert forall|p: int| 0 <= p < self.cells@.len() implies (
            #[trigger] self.cells@[p]).neighbors_in_range(self.cells@.len() as int) by {
                assert(g0.cells@[p].neighbors_in_range(g0.cells@.len() as int));
            }
            assert forall|p: int| 0 <= p < self.cells@.len() implies wired(
                self.cells@,
                self.width as int,
                self.cells@.len() as int,
                p,
            ) by {
                assert(wired(g0.cells@, g0.width as int, g0.cells@.len() as int, p));
            }
        }
    }

    /// An independent grid of the same dimensions and catalog whose cells'
    /// options are copied from `self` at the moment of the call; the copy's
    /// neighbor relations are its own, not shared with the original.
    pub fn snapshot(&self) -> (g: TileGrid)
        requires
            self.wf(),
        ensures
            g.wf(),
            g.width == self.width,
            g.height == self.height,
            tiles_like(g.tiles@, self.tiles@),
            g.cells@.len() == self.cells@.len(),
            forall|p: int|
                0 <= p < self.cells@.len() ==> cell_same(#[trigger] g.cells@[p], self.cells@[p]),
    {
        let kt = self.tiles.len();
        let mut tiles2: Vec<TileData> = Vec::new();
        let mut t: usize = 0;
        while t < kt
            invariant
                kt == self.tiles@.len(),
                t <= kt,
                tiles2@.len() == t,
                forall|q: int| 0 <= q < t ==> tile_like(#[trigger] tiles2@[q], self.tiles@[q]),
            decreases kt - t,
        {
            let copy = self.tiles[t].duplicate();
            tiles2.push(copy);
            t += 1;
        }
        let n = self.cells.len();
        let mut cells2: Vec<Cell> = Vec::new();
        let mut j: usize = 0;
        while j < n
            invariant
                n == self.cells@.len(),
                j <= n,
                cells2@.len() == j,
                forall|p: int| 0 <= p < j ==> cell_same(#[trigger] cells2@[p], self.cells@[p]),
            decreases n - j,
        {
            let opts = copy_indices(&self.cells[j].options);
            let up = self.cells[j].up;
            let right = self.cells[j].right;
            let down = self.cells[j].down;
            let left = self.cells[j].left;
            cells2.push(Cell { options: opts, up, right, down, left });
            j += 1;
        }
        let g = TileGrid { cells: cells2, tiles: tiles2, width: self.width, height: self.height };
        proof {
            assert forall|q: int| 0 <= q < g.tiles@.len() implies (#[trigger] g.tiles@[q]).weight
                >= 1 by {
                assert(tile_like(g.tiles@[q], self.tiles@[q]));
            }
            assert forall|p: int| 0 <= p < g.cells@.len() implies (
            #[trigger] g.cells@[p]).options_in_range(g.tiles@.len() as int) by {
                assert(cell_same(g.cells@[p], self.cells@[p]));
                assert(self.cells@[p].options_in_range(self.tiles@.len() as int));
            }
            assert forall|p: int| 0 <= p < g.cells@.len() implies (
            #[trigger] g.cells@[p]).neighbors_in_range(g.cells@.len() as int) by {
                assert(cell_same(g.cells@[p], self.cells@[p]));
                assert(self.cells@[p].neighbors_in_range(self.cells@.len() as int));
            }
            assert forall|p: int| 0 <= p < g.cells@.len() implies wired(
                g.cells@,
                g.width as int,
                g.cells@.len() as int,
                p,
            ) by {
                assert(cell_same(g.cells@[p], self.cells@[p]));
                assert(wired(self.cells@, self.width as int, self.cells@.len() as int, p));
            }
        }
        g
    }
}

/// The neighbor graph of a well-formed grid is symmetric: when cell `i`'s
/// relation on side `d` points to cell `j`, cell `j`'s relation on the
/// opposite side points back to cell `i`.
pub proof fn lemma_neighbor_symmetry(g: TileGrid, i: int, d: Direction, j: usize)
    requires
        g.wf(),
        0 <= i < g.cells@.len(),
        g.cells@[i].neighbor_spec(d) == Some(j),
    ensures
        j < g.cells@.len(),
        g.cells@[j as int].neighbor_spec(opp(d)) == Some(i as usize),
{
    broadcast use vstd::std_specs::vec::axiom_spec_len;

    assert(g.cells.len() == g.cells@.len());
    let w = g.width as int;
    let count = g.cells@.len() as int;
    assert(wired(g.cells@, w, count, i));
    let q = i / w;
    let r = i % w;
    vstd::arithmetic::div_mod::lemma_fundamental_div_mod(i, w);
    assert(i == w * q + r);
    match d {
        Direction::Up => {
            assert(j as int == i - w);
            assert(wired(g.cells@, w, count, j as int));
        },
        Direction::Down => {
            assert(j as int == i + w);
            assert(wired(g.cells@, w, count, j as int));
        },
        Direction::Left => {
            assert(r != 0);
            assert(j as int == i - 1);
            assert(wired(g.cells@, w, count, j as int));
            vstd::arithmetic::div_mod::lemma_fundamental_div_mod_converse(j as int, w, q, r - 1);
            assert(j as int % w == r - 1);
        },
        Direction::Right => {
            assert(r != w - 1);
            assert(j as int == i + 1);
            assert(wired(g.cells@, w, count, j as int));
            vstd::arithmetic::div_mod::lemma_fundamental_div_mod_converse(j as int, w, q, r + 1);
            assert(j as int % w == r + 1);
        },
    }
}

/// One of cell `i`'s neighbor relations points to cell `nb`.
pub open spec fn points_to(g: TileGrid, i: int, nb: usize) -> bool {
    exists|d: Direction| g.cells@[i].neighbor_spec(d) == Some(nb)
}

/// Every option that cell `j` still holds satisfies the adjacency
/// constraints against its neighbors' current options.
pub open spec fn cell_stable(g: TileGrid, j: int) -> bool {
    forall|k: int|
        0 <= k < g.cells@[j].options@.len() ==> allowed(
            g,
            j,
            (#[trigger] g.cells@[j].options@[k]) as int,
        )
}

/// Every option of every cell already satisfies the adjacency constraints
/// against its neighbors' current options.
pub open spec fn stable(g: TileGrid) -> bool {
    forall|i: int| 0 <= i < g.cells@.len() ==> #[trigger] cell_stable(g, i)
}

/// Neither cell `j` nor any neighbor of it changed options between `g0`
/// and `g1`: the propagation wave never reached cell `j`.
pub open spec fn neighborhood_unchanged(g0: TileGrid, g1: TileGrid, j: int) -> bool {
    &&& g1.cells@[j].options@ == g0.cells@[j].options@
    &&& forall|d: Direction|
        (#[trigger] g1.cells@[j].neighbor_spec(d)) matches Some(m) ==> g1.cells@[
            m as int
        ].options@ == g0.cells@[m as int].options@
}

/// The options cells hold right after cell `i` was committed to the single
/// candidate `t` in grid `g0`, before any propagation.
pub open spec fn committed_options(g0: TileGrid, i: int, t: usize, m: int) -> Seq<usize> {
    if m == i {
        seq![t]
    } else {
        g0.cells@[m].options@
    }
}

/// Cell `j` and its whole neighborhood still read as right after the
/// commit of `t` at cell `i`: the wave never reached them.
pub open spec fn untouched_after_commit(
    g0: TileGrid,
    g1: TileGrid,
    i: int,
    t: usize,
    j: int,
) -> bool {
    &&& g1.cells@[j].options@ == committed_options(g0, i, t, j)
    &&& forall|d: Direction|
        (#[trigger] g1.cells@[j].neighbor_spec(d)) matches Some(m) ==> g1.cells@[
            m as int
        ].options@ == committed_options(g0, i, t, m as int)
}

/// The propagation wave after committing `t` at cell `i` of `g0` has
/// settled in `g1`: every cell either satisfies all its adjacency
/// constraints, or lies outside the wave with its whole neighborhood
/// unchanged since the commit. On its own this says nothing of how far
/// the wave reached — the commit state itself satisfies it — so the
/// collapse contracts pair it with the clause that every direct neighbor
/// of cell `i` ends stable, which a skipped wave would violate.
pub open spec fn wave_settled(g0: TileGrid, g1: TileGrid, i: int, t: usize) -> bool {
    forall|j: int|
        0 <= j < g1.cells@.len() ==> (#[trigger] cell_stable(g1, j)) || untouched_after_commit(
            g0,
            g1,
            i,
            t,
            j,
        )
}

/// `s` has the same shape, catalog and neighbor wiring as `g`.
pub open spec fn same_frame(s: TileGrid, g: TileGrid) -> bool {
    &&& s.width == g.width
    &&& s.height == g.height
    &&& s.tiles == g.tiles
    &&& s.cells@.len() == g.cells@.len()
    &&& forall|j: int|
        0 <= j < s.cells@.len() ==> {
            &&& (#[trigger] s.cells@[j]).up == g.cells@[j].up
            &&& s.cells@[j].right == g.cells@[j].right
            &&& s.cells@[j].down == g.cells@[j].down
            &&& s.cells@[j].left == g.cells@[j].left
        }
}

/// Cell by cell, every option `s` holds, `g` holds too.
pub open spec fn options_contained(s: TileGrid, g: TileGrid) -> bool {
    forall|j: int, k: int|
        0 <= j < s.cells@.len() && 0 <= k < s.cells@[j].options@.len() ==> g.cells@[
            j
        ].options@.contains(#[trigger] s.cells@[j].options@[k])
}

/// `s` is a self-consistent narrowing of `g`: same frame, options drawn
/// from `g`'s, and every option supported by some option of each neighbor
/// within `s` itself.
pub open spec fn consistent_refinement(s: TileGrid, g: TileGrid) -> bool {
    &&& same_frame(s, g)
    &&& options_contained(s, g)
    &&& stable(s)
}

/// `s` is a self-consistent state drawn from the commit of `t` at cell `i`
/// of `g0` — the grid as it reads right after the commit, before any
/// propagation.
pub open spec fn refines_commit(s: TileGrid, g0: TileGrid, i: int, t: usize) -> bool {
    &&& same_frame(s, g0)
    &&& forall|j: int, k: int|
        0 <= j < s.cells@.len() && 0 <= k < s.cells@[j].options@.len() ==> committed_options(
            g0,
            i,
            t,
            j,
        ).contains(#[trigger] s.cells@[j].options@[k])
    &&& stable(s)
}

/// An option that `s` supports is feasible in any containing grid `g`:
/// feasibility asks only for one supporting option per neighbor, and `s`
/// provides it.
proof fn lemma_refinement_allowed(s: TileGrid, g: TileGrid, j: int, t: int)
    requires
        g.wf(),
        0 <= j < g.cells@.len(),
        same_frame(s, g),
        options_contained(s, g),
        allowed(s, j, t),
    ensures
        allowed(g, j, t),
{
    assert(g.cells@[j].neighbors_in_range(g.cells@.len() as int));
    assert forall|d: Direction| #[trigger] dir_ok(g, j, t, d) by {
        assert(dir_ok(s, j, t, d)) by {
            match d {
                Direction::Up => {},
                Direction::Right => {},
                Direction::Down => {},
                Direction::Left => {},
            }
        }
        assert(s.cells@[j].neighbor_spec(d) == g.cells@[j].neighbor_spec(d));
        match g.cells@[j].neighbor_spec(d) {
            Some(m) => {
                let mi = m as int;
                let sock = g.tiles@[t].sockets.spec_get(d);
                assert(option_matches(s.tiles@, sock, s.cells@[mi].options@, opp(d)));
                let k = choose|k: int|
                    0 <= k < s.cells@[mi].options@.len() && compatible(
                        sock,
                        s.tiles@[(s.cells@[mi].options@[k]) as int].sockets.spec_get(opp(d)),
                    );
                let u = s.cells@[mi].options@[k];
                assert(g.cells@[mi].options@.contains(u));
                let k2 = choose|k2: int|
                    0 <= k2 < g.cells@[mi].options@.len() && g.cells@[mi].options@[k2] == u;
                assert(compatible(
                    sock,
                    g.tiles@[(g.cells@[mi].options@[k2]) as int].sockets.spec_get(opp(d)),
                ));
                assert(option_matches(g.tiles@, sock, g.cells@[mi].options@, opp(d)));
            },
            None => {},
        }
    }
}

/// Feasibility of a tile for cell `j` depends only on `j`'s neighbor
/// relations and the options its neighbors hold.
proof fn lemma_allowed_frame(g1: TileGrid, g2: TileGrid, j: int, t: int)
    requires
        g2.tiles == g1.tiles,
        g2.cells@[j].up == g1.cells@[j].up,
        g2.cells@[j].right == g1.cells@[j].right,
        g2.cells@[j].down == g1.cells@[j].down,
        g2.cells@[j].left == g1.cells@[j].left,
        forall|d: Direction|
            (#[trigger] g1.cells@[j].neighbor_spec(d)) matches Some(m) ==> g2.cells@[
                m as int
            ].options@ == g1.cells@[m as int].options@,
    ensures
        allowed(g2, j, t) == allowed(g1, j, t),
{
    assert forall|d: Direction| #[trigger] dir_ok(g2, j, t, d) == dir_ok(g1, j, t, d) by {
        assert(g2.cells@[j].neighbor_spec(d) == g1.cells@[j].neighbor_spec(d));
        match g1.cells@[j].neighbor_spec(d) {
            Some(m) => {
                assert(g2.cells@[m as int].options@ == g1.cells@[m as int].options@);
            },
            None => {},
        }
    }
    assert(dir_ok(g2, j, t, Direction::Up) == dir_ok(g1, j, t, Direction::Up));
    assert(dir_ok(g2, j, t, Direction::Right) == dir_ok(g1, j, t, Direction::Right));
    assert(dir_ok(g2, j, t, Direction::Down) == dir_ok(g1, j, t, Direction::Down));
    assert(dir_ok(g2, j, t, Direction::Left) == dir_ok(g1, j, t, Direction::Left));
}

/// A cell's stability depends only on its own options, its neighbor
/// relations, and its neighbors' options.
proof fn lemma_cell_stable_frame(g1: TileGrid, g2: TileGrid, j: int)
    requires
        0 <= j < g1.cells@.len(),
        g2.tiles == g1.tiles,
        g2.cells@[j].up == g1.cells@[j].up,
        g2.cells@[j].right == g1.cells@[j].right,
        g2.cells@[j].down == g1.cells@[j].down,
        g2.cells@[j].left == g1.cells@[j].left,
        g2.cells@[j].options@ == g1.cells@[j].options@,
        forall|d: Direction|
            (#[trigger] g1.cells@[j].neighbor_spec(d)) matches Some(m) ==> g2.cells@[
                m as int
            ].options@ == g1.cells@[m as int].options@,
        cell_stable(g1, j),
    ensures
        cell_stable(g2, j),
{
    assert forall|k: int| 0 <= k < g2.cells@[j].options@.len() implies allowed(
        g2,
        j,
        (#[trigger] g2.cells@[j].options@[k]) as int,
    ) by {
        let t = g2.cells@[j].options@[k] as int;
        assert(allowed(g1, j, g1.cells@[j].options@[k] as int));
        lemma_allowed_frame(g1, g2, j, t);
    }
}

/// A filter that drops nothing by count changes nothing at all.
proof fn lemma_filter_len_eq_id(s: Seq<usize>, pred: spec_fn(usize) -> bool)
    requires
        s.filter(pred).len() == s.len(),
    ensures
        s.filter(pred) == s,
    decreases s.len(),
{
    reveal(Seq::filter);
    if s.len() == 0 {
        assert(s.filter(pred) =~= s);
    } else {
        s.drop_last().lemma_filter_len(pred);
        if pred(s.last()) {
            lemma_filter_len_eq_id(s.drop_last(), pred);
            assert(s.drop_last().push(s.last()) =~= s);
        } else {
            assert(false);
        }
    }
}

/// No cell of a well-formed grid is its own neighbor.
proof fn lemma_no_self_neighbor(g: TileGrid, j: int)
    requires
        g.wf(),
        0 <= j < g.cells@.len(),
    ensures
        forall|d: Direction| #[trigger] g.cells@[j].neighbor_spec(d) != Some(j as usize),
{
    broadcast use vstd::std_specs::vec::axiom_spec_len;

    assert(g.cells.len() == g.cells@.len());
    let w = g.width as int;
    let count = g.cells@.len() as int;
    assert(wired(g.cells@, w, count, j));
    assert forall|d: Direction| #[trigger] g.cells@[j].neighbor_spec(d) != Some(j as usize) by {
        match d {
            Direction::Up => {
                if j >= w {
                    assert((j - w) as usize != j as usize);
                }
            },
            Direction::Down => {
                if j + w < count {
                    assert((j + w) as usize != j as usize);
                }
            },
            Direction::Left => {
                if j % w != 0 {
                    assert(j >= 1) by {
                        if j == 0 {
                            vstd::arithmetic::div_mod::lemma_small_mod(0nat, w as nat);
                        }
                    }
                    assert((j - 1) as usize != j as usize);
                }
            },
            Direction::Right => {
                if j % w != w - 1 {
                    assert((j + 1) as usize != j as usize);
                }
            },
        }
    }
}

/// Every option that a neighbor of a collapsed cell retains faces the
/// committed tile: the socket it turns toward the collapsed cell mirrors
/// `t`'s socket on the side between them. This follows from the collapse
/// contracts alone — the neighbor ends stable, and the collapsed cell
/// holds at most `t`.
pub proof fn lemma_survivors_face_committed(
    g0: TileGrid,
    g1: TileGrid,
    i: int,
    t: usize,
    d: Direction,
    nb: usize,
)
    requires
        g0.wf(),
        0 <= i < g0.cells@.len(),
        g0.cells@[i].neighbor_spec(d) == Some(nb),
        collapsed_outcome(g0, g1, i, t),
        cell_stable(g1, nb as int),
    ensures
        forall|k: int|
            0 <= k < g1.cells@[nb as int].options@.len() ==> compatible(
                g1.tiles@[(#[trigger] g1.cells@[nb as int].options@[k]) as int].sockets.spec_get(
                    opp(d),
                ),
                g1.tiles@[t as int].sockets.spec_get(d),
            ),
{
    broadcast use vstd::std_specs::vec::axiom_spec_len;

    assert(g0.cells.len() == g0.cells@.len());
    assert(g0.cells@[i].neighbors_in_range(g0.cells@.len() as int));
    lemma_neighbor_symmetry(g0, i, d, nb);
    lemma_no_self_neighbor(g0, i);
    let nbi = nb as int;
    assert(nbi != i);
    assert(cell_narrowed(g1.cells@[nbi], g0.cells@[nbi]));
    assert(g1.cells@[nbi].neighbor_spec(opp(d)) == Some(i as usize)) by {
        match d {
            Direction::Up => {},
            Direction::Right => {},
            Direction::Down => {},
            Direction::Left => {},
        }
    }
    assert forall|k: int| 0 <= k < g1.cells@[nbi].options@.len() implies compatible(
        g1.tiles@[(#[trigger] g1.cells@[nbi].options@[k]) as int].sockets.spec_get(opp(d)),
        g1.tiles@[t as int].sockets.spec_get(d),
    ) by {
        let u = g1.cells@[nbi].options@[k];
        assert(allowed(g1, nbi, u as int));
        assert(dir_ok(g1, nbi, u as int, opp(d))) by {
            match d {
                Direction::Up => {},
                Direction::Right => {},
                Direction::Down => {},
                Direction::Left => {},
            }
        }
        lemma_opposite_involution(d);
        let opts_i = g1.cells@[i].options@;
        let sock = g1.tiles@[u as int].sockets.spec_get(opp(d));
        assert(option_matches(g1.tiles@, sock, opts_i, d));
        let kk = choose|kk: int|
            0 <= kk < opts_i.len() && compatible(
                sock,
                g1.tiles@[(opts_i[kk]) as int].sockets.spec_get(d),
            );
        assert(opts_i[kk] == t);
    }
}

/// The contradiction scenario: when no candidate the neighbor held can
/// face the committed tile, the wave leaves the neighbor with no options
/// at all, and the next collapse attempt reports `ContradictionError`.
pub proof fn lemma_incompatible_commit_empties_neighbor(
    g0: TileGrid,
    g1: TileGrid,
    i: int,
    t: usize,
    d: Direction,
    nb: usize,
)
    requires
        g0.wf(),
        0 <= i < g0.cells@.len(),
        g0.cells@[i].neighbor_spec(d) == Some(nb),
        collapsed_outcome(g0, g1, i, t),
        cell_stable(g1, nb as int),
        forall|k: int|
            0 <= k < g0.cells@[nb as int].options@.len() ==> !compatible(
                g0.tiles@[(#[trigger] g0.cells@[nb as int].options@[k]) as int].sockets.spec_get(
                    opp(d),
                ),
                g0.tiles@[t as int].sockets.spec_get(d),
            ),
    ensures
        g1.cells@[nb as int].options@.len() == 0,
{
    lemma_survivors_face_committed(g0, g1, i, t, d, nb);
    lemma_no_self_neighbor(g0, i);
    let nbi = nb as int;
    assert(g0.cells@[i].neighbors_in_range(g0.cells@.len() as int));
    assert(cell_narrowed(g1.cells@[nbi], g0.cells@[nbi]));
    if g1.cells@[nbi].options@.len() > 0 {
        let u = g1.cells@[nbi].options@[0];
        assert(g0.cells@[nbi].options@.contains(u));
        let q = choose|q: int|
            0 <= q < g0.cells@[nbi].options@.len() && g0.cells@[nbi].options@[q] == u;
        assert(!compatible(
            g0.tiles@[u as int].sockets.spec_get(opp(d)),
            g0.tiles@[t as int].sockets.spec_get(d),
        ));
        assert(compatible(
            g1.tiles@[u as int].sockets.spec_get(opp(d)),
            g1.tiles@[t as int].sockets.spec_get(d),
        ));
        assert(false);
    }
}

/// Fixed point of propagation: on a stable grid, the re-filtering pass
/// that `recalculate_options` performs keeps every cell's options exactly
/// as they are — re-invoking it on any cell produces no further change.
pub proof fn lemma_stable_fixed_point(g: TileGrid, i: int)
    requires
        g.wf(),
        stable(g),
        0 <= i < g.cells@.len(),
    ensures
        g.cells@[i].options@.filter(|t: usize| allowed(g, i, t as int)) == g.cells@[i].options@,
{
    let opts = g.cells@[i].options@;
    let pred = |t: usize| allowed(g, i, t as int);
    assert(cell_stable(g, i));
    assert forall|k: int| 0 <= k < opts.len() implies pred(#[trigger] opts[k]) by {
        assert(allowed(g, i, g.cells@[i].options@[k] as int));
    }
    lemma_filter_all(opts, pred);
}

/// A cell narrows to itself.
proof fn lemma_cell_narrowed_refl(c: Cell)
    ensures
        cell_narrowed(c, c),
{
    lemma_subsequence_refl(c.options@);
    assert forall|k: int| 0 <= k < c.options@.len() implies c.options@.contains(
        #[trigger] c.options@[k],
    ) by {
    }
}

} // verus!
