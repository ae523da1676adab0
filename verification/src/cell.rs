use vstd::prelude::*;

verus! {

/// The finest resolution of the grid; the coarsest is 0.
pub const MAX_RESOLUTION: u8 = 15;

/// Whether `bits` is the 64-bit form of a cell index of the grid: what
/// `h3o::CellIndex::try_from` accepts.
pub uninterp spec fn cell_index_valid(bits: u64) -> bool;

/// The cells that `h3o::CellIndex::compact` yields for `cells`, in the order
/// in which it yields them.
pub uninterp spec fn compacted_cells(cells: Seq<u64>) -> Seq<u64>;

/// The cells that `h3o::CellIndex::children` yields for the cell `bits` at
/// `resolution`, in the order in which it yields them.
pub uninterp spec fn cell_children(bits: u64, resolution: u8) -> Seq<u64>;

/// The resolution that the 64-bit form `bits` of a cell index carries.
pub open spec fn spec_resolution(bits: u64) -> u8 {
    ((bits >> 52) & 0xf) as u8
}

/// The digits below `resolution`, all set: the pattern of the unused digits
/// of an index at that resolution.
pub open spec fn spec_unused_mask(resolution: u8) -> u64 {
    ((1u64 << ((3 * (15 - resolution)) as u64)) - 1) as u64
}

/// The index at `resolution` that lies above `bits`: the resolution field is
/// replaced and every digit below `resolution` is marked unused.
pub open spec fn spec_parent(bits: u64, resolution: u8) -> u64 {
    ((bits & !(0xfu64 << 52)) | ((resolution as u64) << 52)) | spec_unused_mask(resolution)
}

/// `above` is a strictly coarser cell that contains `below`.
pub open spec fn is_ancestor(above: u64, below: u64) -> bool {
    &&& spec_resolution(above) < spec_resolution(below)
    &&& spec_parent(below, spec_resolution(above)) == above
}

/// `above` is `below` itself or one of its ancestors.
pub open spec fn covers_cell(above: u64, below: u64) -> bool {
    above == below || is_ancestor(above, below)
}

/// Some cell of `cells` is `cell` or one of its ancestors.
pub open spec fn covered_by(cells: Seq<u64>, cell: u64) -> bool {
    exists|j: int| 0 <= j < cells.len() && covers_cell(#[trigger] cells[j], cell)
}

/// A `usize` can count the children that a cell has fifteen resolutions
/// further down, as it can on machines with words of 64 bits.
pub open spec fn words_count_children() -> bool {
    usize::MAX >= 4_747_561_509_943
}

/// `above` is a member of `cells` or an ancestor of one.
pub open spec fn covers_some(above: u64, cells: Seq<u64>) -> bool {
    exists|i: int| 0 <= i < cells.len() && covers_cell(above, #[trigger] cells[i])
}

/// `cells` holds every child that `parent` has at the next resolution.
pub open spec fn holds_all_children(cells: Seq<u64>, parent: u64) -> bool {
    let children = cell_children(parent, (spec_resolution(parent) + 1) as u8);
    children.len() > 0 && forall|i: int|
        0 <= i < children.len() ==> cells.contains(#[trigger] children[i])
}

/// Of no cell does `cells` hold all the children: no group of children is
/// left that could be replaced by its parent.
pub open spec fn no_complete_group(cells: Seq<u64>) -> bool {
    forall|parent: u64|
        cell_index_valid(parent) && spec_resolution(parent) < 15 ==> !#[trigger] holds_all_children(
            cells,
            parent,
        )
}

/// Every member of `cells` is a cell index.
pub open spec fn all_valid(cells: Seq<u64>) -> bool {
    forall|i: int| 0 <= i < cells.len() ==> cell_index_valid(#[trigger] cells[i])
}

/// Every member of `cells` has the resolution `resolution`.
pub open spec fn all_at_resolution(cells: Seq<u64>, resolution: u8) -> bool {
    forall|i: int| 0 <= i < cells.len() ==> spec_resolution(#[trigger] cells[i]) == resolution
}

/// All members of `cells` share one resolution.
pub open spec fn same_resolution(cells: Seq<u64>) -> bool {
    forall|i: int, j: int|
        0 <= i < cells.len() && 0 <= j < cells.len() ==> spec_resolution(#[trigger] cells[i])
            == spec_resolution(#[trigger] cells[j])
}

/// A resolution read from an index is one of the sixteen.
pub proof fn lemma_resolution_in_range(bits: u64)
    by (bit_vector)
    ensures
        spec_resolution(bits) <= 15,
{
}

/// The index computed for a resolution carries that resolution.
pub proof fn lemma_parent_resolution(bits: u64, resolution: u8)
    by (bit_vector)
    requires
        resolution <= 15,
    ensures
        spec_resolution(spec_parent(bits, resolution)) == resolution,
{
}

/// Stepping up to `mid` and from there to `top` arrives where one step to
/// `top` does.
pub proof fn lemma_parent_of_parent(bits: u64, mid: u8, top: u8)
    by (bit_vector)
    requires
        top <= mid <= 15,
    ensures
        spec_parent(spec_parent(bits, mid), top) == spec_parent(bits, top),
{
}

/// An ancestor of an ancestor is an ancestor.
pub proof fn lemma_ancestor_transitive(a: u64, b: u64, c: u64)
    requires
        is_ancestor(a, b),
        is_ancestor(b, c),
    ensures
        is_ancestor(a, c),
{
    lemma_resolution_in_range(b);
    lemma_parent_of_parent(c, spec_resolution(b), spec_resolution(a));
}

/// What covers a cell covers everything that the cell covers.
pub proof fn lemma_covers_transitive(a: u64, b: u64, c: u64)
    requires
        covers_cell(a, b),
        covers_cell(b, c),
    ensures
        covers_cell(a, c),
{
    if is_ancestor(a, b) && is_ancestor(b, c) {
        lemma_ancestor_transitive(a, b, c);
    }
}

/// Whether this machine's words are wide enough to compact cells: whether
/// a `usize` can count the children of a cell fifteen resolutions down.
pub fn can_count_children() -> (wide: bool)
    ensures
        wide == words_count_children(),
{
    usize::MAX as u128 >= 4_747_561_509_943u128
}

/// The resolution that an index carries, as `h3o::CellIndex::resolution`
/// reads it from the index.
pub fn resolution_of(bits: u64) -> (resolution: u8)
    ensures
        resolution == spec_resolution(bits),
        resolution <= MAX_RESOLUTION,
{
    let field: u64 = (bits >> 52) & 0xf;
    assert(field <= 15) by (bit_vector)
        requires
            field == (bits >> 52) & 0xf,
    ;
    field as u8
}

/// The index at `resolution` above `bits`, as `h3o::CellIndex::parent`
/// computes it for a cell and a resolution that is not finer than the cell.
pub fn parent_of(bits: u64, resolution: u8) -> (parent: u64)
    requires
        resolution <= MAX_RESOLUTION,
    ensures
        parent == spec_parent(bits, resolution),
        spec_resolution(parent) == resolution,
{
    let shift: u64 = 3 * (15 - resolution as u64);
    let top: u64 = 1u64 << shift;
    assert(top >= 1 && (top - 1) as u64 == spec_unused_mask(resolution)) by (bit_vector)
        requires
            resolution <= 15,
            shift == 3 * (15 - resolution as u64),
            top == 1u64 << shift,
    ;
    let unused: u64 = top - 1;
    proof {
        lemma_parent_resolution(bits, resolution);
    }
    ((bits & !(0xfu64 << 52)) | ((resolution as u64) << 52)) | unused
}

/// `h3o::CellIndex::try_from` on a `u64`: whether the grid accepts `bits` as
/// a cell index. The answer is the definition of `cell_index_valid`.
#[verifier::external_body]
pub(crate) fn is_cell_index(bits: u64) -> (ok: bool)
    ensures
        ok == cell_index_valid(bits),
{
    h3o::CellIndex::try_from(bits).is_ok()
}

/// `h3o::CellIndex::compact`, which counts children in a `usize`. It fails
/// exactly when two of the cells are equal or differ in resolution.
/// Otherwise it yields cell indexes, named by
/// `compacted_cells`: complete groups of children are replaced by their
/// parent, so that no complete group is left among them. Every given cell
/// finds itself or one of its ancestors among them, and each of them is a
/// given cell or an ancestor of one.
#[verifier::external_body]
pub(crate) fn compact_cells(cells: Vec<u64>) -> (out: Result<Vec<u64>, h3o::error::CompactionError>)
    requires
        all_valid(cells@),
        words_count_children(),
    ensures
        (out is Ok) == (cells@.no_duplicates() && same_resolution(cells@)),
        out is Ok ==> out->Ok_0@ == compacted_cells(cells@),
        out is Ok ==> all_valid(out->Ok_0@),
        out is Ok ==> forall|i: int|
            0 <= i < cells@.len() ==> covered_by(out->Ok_0@, #[trigger] cells@[i]),
        out is Ok ==> forall|j: int|
            0 <= j < out->Ok_0@.len() ==> covers_some(#[trigger] out->Ok_0@[j], cells@),
        out is Ok ==> no_complete_group(out->Ok_0@),
{
    let indexes = cells.into_iter().map(
        |bits| h3o::CellIndex::try_from(bits).expect("a cell index"),
    );
    h3o::CellIndex::compact(indexes).map(|found| found.map(u64::from).collect())
}

/// `h3o::CellIndex::children`: the cells at `resolution` inside the cell
/// `bits`, named by `cell_children`. Each is a cell index at `resolution`
/// and is `bits` itself or has `bits` above it.
#[verifier::external_body]
pub(crate) fn children_of(bits: u64, resolution: u8) -> (out: Vec<u64>)
    requires
        cell_index_valid(bits),
        resolution <= MAX_RESOLUTION,
    ensures
        out@ == cell_children(bits, resolution),
        all_valid(out@),
        all_at_resolution(out@, resolution),
        forall|i: int| 0 <= i < out@.len() ==> covers_cell(bits, #[trigger] out@[i]),
{
    let cell = h3o::CellIndex::try_from(bits).expect("a cell index");
    let level = h3o::Resolution::try_from(resolution).expect("a resolution");
    cell.children(level).map(u64::from).collect()
}

/// A cell of the hexagonal grid, held as its 64-bit index.
#[derive(Clone, Copy, Debug, PartialEq, Eq, Hash)]
pub struct Cell {
    bits: u64,
}

impl View for Cell {
    type V = u64;

    closed spec fn view(&self) -> u64 {
        self.bits
    }
}

impl Cell {
    #[verifier::type_invariant]
    spec fn holds_cell_index(self) -> bool {
        cell_index_valid(self.bits)
    }

    /// The cell with the index `bits`, where `bits` is a cell index.
    pub fn from_bits(bits: u64) -> (cell: Option<Cell>)
        ensures
            cell is Some <==> cell_index_valid(bits),
            cell is Some ==> cell->Some_0@ == bits,
    {
        if is_cell_index(bits) {
            Some(Cell { bits })
        } else {
            None
        }
    }

    /// The 64-bit index of the cell.
    pub fn bits(&self) -> (bits: u64)
        ensures
            bits == self@,
            cell_index_valid(bits),
    {
        proof {
            use_type_invariant(self);
        }
        self.bits
    }

    /// The resolution of the cell, from 0 (coarsest) to 15.
    pub fn resolution(&self) -> (resolution: u8)
        ensures
            resolution == spec_resolution(self@),
            resolution <= MAX_RESOLUTION,
    {
        resolution_of(self.bits)
    }

    /// A cell from an index that is known to be one.
    pub(crate) fn from_valid(bits: u64) -> (cell: Cell)
        requires
            cell_index_valid(bits),
        ensures
            cell@ == bits,
    {
        Cell { bits }
    }
}

} // verus!
