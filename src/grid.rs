//! A generic rectangular grid whose cells keep a stable identity.

use vstd::prelude::*;
use crate::text::{
    chars_of, lemma_split_append, lines_of, push_char, split_lines, text_lines, views,
};

verus! {

/// A value that a grid cell can hold, written as one character in text form.
pub trait CellValue: Copy + Sized {
    /// The character that stands for this value.
    spec fn glyph(self) -> char;

    /// The value that a character stands for, if any.
    spec fn from_glyph(c: char) -> Option<Self>;

    /// Reading back the character of a value gives the value.
    proof fn lemma_glyph_round_trip(self)
        ensures
            Self::from_glyph(self.glyph()) == Some(self),
    ;

    fn to_char(&self) -> (c: char)
        ensures
            c == self.glyph(),
    ;

    fn from_char(c: char) -> (r: Option<Self>)
        ensures
            r == Self::from_glyph(c),
    ;

    fn same(&self, other: &Self) -> (r: bool)
        ensures
            r == (*self == *other),
    ;
}

impl CellValue for bool {
    open spec fn glyph(self) -> char {
        if self { 'y' } else { 'n' }
    }

    open spec fn from_glyph(c: char) -> Option<bool> {
        if c == 'y' { Some(true) } else if c == 'n' { Some(false) } else { None }
    }

    proof fn lemma_glyph_round_trip(self) {
    }

    fn to_char(&self) -> (c: char) {
        if *self { 'y' } else { 'n' }
    }

    fn from_char(c: char) -> (r: Option<bool>) {
        if c == 'y' {
            Some(true)
        } else if c == 'n' {
            Some(false)
        } else {
            None
        }
    }

    fn same(&self, other: &bool) -> (r: bool) {
        *self == *other
    }
}


/// Why a grid access failed.
#[derive(Debug, Clone, Copy, PartialEq, Eq, Structural)]
pub enum GridError {
    /// A row or column index lies outside the grid.
    OutOfRange,
    /// The seed of a region query lies outside the grid.
    InvalidIndex,
}

/// Why a text could not be read as a grid or a board.
#[derive(Debug, Clone, Copy, PartialEq, Eq, Structural)]
pub enum ParseError {
    InvalidCharacter,
    NotEnoughLines,
    NotEnoughChars,
    InvalidValue,
}

/// One cell of a grid: its identity, its position and its value.
#[derive(Debug, Clone, Copy)]
pub struct Cell<T> {
    pub id: u64,
    pub row: usize,
    pub column: usize,
    pub value: T,
}

impl<T: CellValue> Cell<T> {
    pub fn row(&self) -> (r: usize)
        ensures
            r == self.row,
    {
        self.row
    }

    pub fn column(&self) -> (c: usize)
        ensures
            c == self.column,
    {
        self.column
    }

    pub fn value(&self) -> (v: T)
        ensures
            v == self.value,
    {
        self.value
    }

    pub fn id(&self) -> (i: u64)
        ensures
            i == self.id,
    {
        self.id
    }

    /// A detached cell at a position, with the identity 0.
    pub fn from(row: usize, column: usize, value: T) -> (c: Cell<T>)
        ensures
            c.id == 0,
            c.row == row,
            c.column == column,
            c.value == value,
    {
        Cell { id: 0, row, column, value }
    }
}

/// Two cells are equal when they stand at the same position with the same value; the
/// identity is not compared.
impl<T: CellValue> PartialEq for Cell<T> {
    fn eq(&self, other: &Cell<T>) -> (r: bool) {
        self.row == other.row && self.column == other.column && self.value.same(&other.value)
    }
}

impl<T: CellValue> vstd::std_specs::cmp::PartialEqSpecImpl for Cell<T> {
    open spec fn obeys_eq_spec() -> bool {
        true
    }

    open spec fn eq_spec(&self, other: &Cell<T>) -> bool {
        self.row == other.row && self.column == other.column && self.value == other.value
    }
}

/// A position in a grid, as (row, column).
pub type Pos = (int, int);

pub open spec fn in_grid<T>(g: Seq<Seq<Cell<T>>>, p: Pos) -> bool {
    0 <= p.0 < g.len() && 0 <= p.1 < g[p.0].len()
}

pub open spec fn value_at<T>(g: Seq<Seq<Cell<T>>>, p: Pos) -> T {
    g[p.0][p.1].value
}

/// All rows have the length of the first.
pub open spec fn is_rectangular<T>(g: Seq<Seq<T>>) -> bool {
    forall|i: int| 0 <= i < g.len() ==> #[trigger] g[i].len() == g[0].len()
}

/// The number of columns of a rectangular grid (0 without rows).
pub open spec fn width_of<T>(g: Seq<Seq<T>>) -> nat {
    if g.len() == 0 { 0 } else { g[0].len() }
}

/// A grid of cells is well formed when it is rectangular, each cell records its own
/// position, and the identities are distinct and below `bound`.
pub open spec fn well_formed<T>(g: Seq<Seq<Cell<T>>>, bound: u64) -> bool {
    &&& is_rectangular(g)
    &&& forall|i: int, j: int|
        0 <= i < g.len() && 0 <= j < g[i].len() ==> {
            &&& (#[trigger] g[i][j]).row == i
            &&& g[i][j].column == j
            &&& g[i][j].id < bound
        }
    &&& forall|i1: int, j1: int, i2: int, j2: int|
        in_grid(g, (i1, j1)) && in_grid(g, (i2, j2)) && (i1 != i2 || j1 != j2)
            ==> #[trigger] g[i1][j1].id != #[trigger] g[i2][j2].id
}

/// The values of a grid of cells.
pub open spec fn values_of<T>(g: Seq<Seq<Cell<T>>>) -> Seq<Seq<T>> {
    Seq::new(g.len(), |i: int| Seq::new(g[i].len(), |j: int| g[i][j].value))
}

/// Two positions that differ by one step along a row or a column.
pub open spec fn adjacent(a: Pos, b: Pos) -> bool {
    (a.0 == b.0 && (a.1 == b.1 + 1 || b.1 == a.1 + 1)) || (a.1 == b.1 && (a.0 == b.0 + 1
        || b.0 == a.0 + 1))
}

pub open spec fn pos_of(p: (usize, usize)) -> Pos {
    (p.0 as int, p.1 as int)
}

pub open spec fn cell_pos<T>(c: Cell<T>) -> Pos {
    (c.row as int, c.column as int)
}

/// A walk through the grid by orthogonal steps over cells that all hold the value of its
/// first cell.
pub open spec fn is_path<T>(g: Seq<Seq<Cell<T>>>, path: Seq<Pos>) -> bool {
    &&& path.len() > 0
    &&& forall|k: int|
        0 <= k < path.len() ==> in_grid(g, #[trigger] path[k]) && value_at(g, path[k])
            == value_at(g, path[0])
    &&& forall|k: int| 0 <= k < path.len() - 1 ==> adjacent(#[trigger] path[k], path[k + 1])
}

/// `p` can be reached from `s` by orthogonal steps through cells of the value of `s`.
pub open spec fn reachable<T>(g: Seq<Seq<Cell<T>>>, s: Pos, p: Pos) -> bool {
    exists|path: Seq<Pos>| #[trigger] is_path(g, path) && path[0] == s && path.last() == p
}

/// `q` borders the region of `s`: it is next to a cell of the region and holds another value.
pub open spec fn in_perimeter<T>(g: Seq<Seq<Cell<T>>>, s: Pos, q: Pos) -> bool {
    &&& in_grid(g, q)
    &&& value_at(g, q) != value_at(g, s)
    &&& exists|p: Pos| #[trigger] reachable(g, s, p) && adjacent(p, q)
}

/// A mask with the shape of the grid.
pub open spec fn fits<T>(m: Seq<Vec<bool>>, g: Seq<Seq<Cell<T>>>) -> bool {
    m.len() == g.len() && forall|i: int| 0 <= i < g.len() ==> (#[trigger] m[i])@.len() == g[i].len()
}

pub open spec fn marked(m: Seq<Vec<bool>>, p: Pos) -> bool {
    m[p.0]@[p.1]
}

pub open spec fn has_pos(v: Seq<(usize, usize)>, p: Pos) -> bool {
    exists|k: int| 0 <= k < v.len() && pos_of(#[trigger] v[k]) == p
}

pub open spec fn distinct<A>(v: Seq<A>) -> bool {
    forall|k1: int, k2: int| 0 <= k1 < v.len() && 0 <= k2 < v.len() && k1 != k2 ==> v[k1] != v[k2]
}

spec fn unmarked_in_row(r: Seq<bool>) -> nat
    decreases r.len(),
{
    if r.len() == 0 {
        0
    } else {
        unmarked_in_row(r.drop_last()) + if r.last() { 0nat } else { 1nat }
    }
}

spec fn unmarked(m: Seq<Vec<bool>>) -> nat
    decreases m.len(),
{
    if m.len() == 0 {
        0
    } else {
        unmarked(m.drop_last()) + unmarked_in_row(m.last()@)
    }
}

proof fn lemma_mark_row(r: Seq<bool>, j: int)
    requires
        0 <= j < r.len(),
        !r[j],
    ensures
        unmarked_in_row(r.update(j, true)) + 1 == unmarked_in_row(r),
    decreases r.len(),
{
    if j < r.len() - 1 {
        assert(r.update(j, true).drop_last() =~= r.drop_last().update(j, true));
        lemma_mark_row(r.drop_last(), j);
    } else {
        assert(r.update(j, true).drop_last() =~= r.drop_last());
    }
}

proof fn lemma_mark(m: Seq<Vec<bool>>, m2: Seq<Vec<bool>>, i: int, j: int)
    requires
        0 <= i < m.len(),
        0 <= j < m[i]@.len(),
        !m[i]@[j],
        m2.len() == m.len(),
        m2[i]@ == m[i]@.update(j, true),
        forall|k: int| 0 <= k < m.len() && k != i ==> #[trigger] m2[k]@ == m[k]@,
    ensures
        unmarked(m2) + 1 == unmarked(m),
    decreases m.len(),
{
    if i < m.len() - 1 {
        lemma_mark(m.drop_last(), m2.drop_last(), i, j);
        assert(m2.last()@ == m.last()@);
    } else {
        lemma_mark_row(m[i]@, j);
        assert forall|k: int| 0 <= k < m.len() - 1 implies #[trigger] m2.drop_last()[k]@
            == m.drop_last()[k]@ by {
        }
        lemma_unmarked_same(m.drop_last(), m2.drop_last());
    }
}

proof fn lemma_unmarked_same(m: Seq<Vec<bool>>, m2: Seq<Vec<bool>>)
    requires
        m2.len() == m.len(),
        forall|k: int| 0 <= k < m.len() ==> #[trigger] m2[k]@ == m[k]@,
    ensures
        unmarked(m2) == unmarked(m),
    decreases m.len(),
{
    if m.len() > 0 {
        lemma_unmarked_same(m.drop_last(), m2.drop_last());
        assert(m2.last()@ == m.last()@);
    }
}

proof fn lemma_has_pos_push(v: Seq<(usize, usize)>, x: (usize, usize), p: Pos)
    ensures
        has_pos(v, p) || pos_of(x) == p ==> has_pos(v.push(x), p),
{
    if pos_of(x) == p {
        assert(pos_of(v.push(x)[v.len() as int]) == p);
    } else if has_pos(v, p) {
        let k = choose|k: int| 0 <= k < v.len() && pos_of(#[trigger] v[k]) == p;
        assert(v.push(x)[k] == v[k]);
    }
}

proof fn lemma_cells_distinct<T>(cells: Seq<Cell<T>>, ps: Seq<(usize, usize)>)
    requires
        distinct(ps),
        cells.len() == ps.len(),
        forall|l: int| 0 <= l < cells.len() ==> cell_pos(#[trigger] cells[l]) == pos_of(ps[l]),
    ensures
        distinct(cells.map_values(|c: Cell<T>| cell_pos(c))),
{
    let cp = cells.map_values(|c: Cell<T>| cell_pos(c));
    assert forall|k1: int, k2: int| 0 <= k1 < cp.len() && 0 <= k2 < cp.len() && k1 != k2
        implies cp[k1] != cp[k2] by {
        assert(cell_pos(cells[k1]) == pos_of(ps[k1]));
        assert(cell_pos(cells[k2]) == pos_of(ps[k2]));
    }
}

/// One more step from a reachable cell, onto a cell of the same value.
proof fn lemma_reach_step<T>(g: Seq<Seq<Cell<T>>>, s: Pos, p: Pos, q: Pos)
    requires
        reachable(g, s, p),
        in_grid(g, q),
        adjacent(p, q),
        value_at(g, q) == value_at(g, s),
    ensures
        reachable(g, s, q),
{
    let path = choose|path: Seq<Pos>| #[trigger] is_path(g, path) && path[0] == s && path.last() == p;
    let longer = path.push(q);
    assert(longer[longer.len() - 2] == p);
    assert(is_path(g, longer));
    assert(longer.last() == q);
}

pub proof fn lemma_reach_value<T>(g: Seq<Seq<Cell<T>>>, s: Pos, p: Pos)
    requires
        reachable(g, s, p),
    ensures
        in_grid(g, p),
        in_grid(g, s),
        value_at(g, p) == value_at(g, s),
{
    let path = choose|path: Seq<Pos>| #[trigger] is_path(g, path) && path[0] == s && path.last() == p;
    assert(path[path.len() - 1] == p);
    assert(in_grid(g, path[0]));
}

proof fn lemma_reach_self<T>(g: Seq<Seq<Cell<T>>>, s: Pos)
    requires
        in_grid(g, s),
    ensures
        reachable(g, s, s),
{
    let path = seq![s];
    assert(is_path(g, path));
}

/// A marked set that holds the seed and is closed under same-value steps holds every cell
/// reachable from the seed.
proof fn lemma_closed_holds_reachable<T>(g: Seq<Seq<Cell<T>>>, m: Seq<Vec<bool>>, s: Pos, p: Pos)
    requires
        fits(m, g),
        marked(m, s),
        forall|a: Pos, b: Pos|
            in_grid(g, a) && in_grid(g, b) && #[trigger] marked(m, a) && #[trigger] adjacent(a, b)
                && value_at(g, b) == value_at(g, a) ==> marked(m, b),
        reachable(g, s, p),
    ensures
        marked(m, p),
{
    let path = choose|path: Seq<Pos>| #[trigger] is_path(g, path) && path[0] == s && path.last() == p;
    lemma_path_marked(g, m, path, path.len() - 1);
}

proof fn lemma_path_marked<T>(g: Seq<Seq<Cell<T>>>, m: Seq<Vec<bool>>, path: Seq<Pos>, k: int)
    requires
        fits(m, g),
        is_path(g, path),
        marked(m, path[0]),
        forall|a: Pos, b: Pos|
            in_grid(g, a) && in_grid(g, b) && #[trigger] marked(m, a) && #[trigger] adjacent(a, b)
                && value_at(g, b) == value_at(g, a) ==> marked(m, b),
        0 <= k < path.len(),
    ensures
        marked(m, path[k]),
    decreases k,
{
    if k > 0 {
        lemma_path_marked(g, m, path, k - 1);
        assert(adjacent(path[k - 1], path[k]));
        assert(in_grid(g, path[k - 1]) && in_grid(g, path[k]));
        assert(value_at(g, path[k]) == value_at(g, path[0]));
        assert(value_at(g, path[k - 1]) == value_at(g, path[0]));
    }
}

/// Two grids are equal when they hold the same values; identities are not compared.
impl<T: CellValue> PartialEq for Arr2d<T> {
    fn eq(&self, other: &Arr2d<T>) -> (r: bool) {
        self.same_values(other)
    }
}

impl<T: CellValue> vstd::std_specs::cmp::PartialEqSpecImpl for Arr2d<T> {
    open spec fn obeys_eq_spec() -> bool {
        true
    }

    open spec fn eq_spec(&self, other: &Arr2d<T>) -> bool {
        self.values() == other.values()
    }
}

/// The text of a sequence of lines, each followed by a line break.
pub open spec fn lines_text(ls: Seq<Seq<char>>) -> Seq<char>
    decreases ls.len(),
{
    if ls.len() == 0 {
        Seq::empty()
    } else {
        lines_text(ls.drop_last()) + ls.last().push('\n')
    }
}

/// Each row of values as a line of characters.
pub open spec fn glyph_rows<T: CellValue>(g: Seq<Seq<T>>) -> Seq<Seq<char>> {
    Seq::new(g.len(), |i: int| Seq::new(g[i].len(), |j: int| g[i][j].glyph()))
}

/// Every character of the lines stands for a value.
pub open spec fn glyphs_known<T: CellValue>(lines: Seq<Seq<char>>) -> bool {
    forall|i: int, j: int|
        0 <= i < lines.len() && 0 <= j < lines[i].len() ==> (#[trigger] T::from_glyph(lines[i][j])) is Some
}

/// The grid of values that lines of characters describe, one line per row.
pub open spec fn parse_grid<T: CellValue>(lines: Seq<Seq<char>>) -> Result<Seq<Seq<T>>, ParseError> {
    if !glyphs_known::<T>(lines) {
        Err(ParseError::InvalidCharacter)
    } else if !is_rectangular(lines) || lines.len() * width_of(lines) >= u64::MAX {
        Err(ParseError::InvalidValue)
    } else {
        Ok(Seq::new(lines.len(), |i: int| Seq::new(lines[i].len(), |j: int| T::from_glyph(lines[i][j])->Some_0)))
    }
}

/// Splitting the text of lines without line breaks gives the lines back, and an empty piece
/// after the last line break.
pub proof fn lemma_split_lines_text(ls: Seq<Seq<char>>)
    requires
        forall|i: int, k: int| 0 <= i < ls.len() && 0 <= k < ls[i].len() ==> #[trigger] ls[i][k] != '\n',
    ensures
        split_lines(lines_text(ls)) == ls.push(Seq::empty()),
    decreases ls.len(),
{
    if ls.len() == 0 {
        assert(split_lines(Seq::<char>::empty()) =~= ls.push(Seq::empty()));
    } else {
        let front = ls.drop_last();
        let l = ls.last();
        lemma_split_lines_text(front);
        let t = lines_text(front);
        assert forall|k: int| 0 <= k < l.len() implies #[trigger] l[k] != '\n' by {
            assert(ls[ls.len() - 1][k] != '\n');
        }
        lemma_split_append(t, l);
        let whole = lines_text(ls);
        assert(whole =~= (t + l).push('\n'));
        assert(whole.drop_last() =~= t + l);
        assert(front.push(Seq::<char>::empty()).drop_last() =~= front);
        assert(Seq::<char>::empty() + l =~= l);
        assert(split_lines(t + l) =~= ls);
    }
}

pub proof fn lemma_lines_text_concat(a: Seq<Seq<char>>, b: Seq<Seq<char>>)
    ensures
        lines_text(a + b) == lines_text(a) + lines_text(b),
    decreases b.len(),
{
    if b.len() == 0 {
        assert(a + b =~= a);
        assert(lines_text(a) + lines_text(b) =~= lines_text(a));
    } else {
        lemma_lines_text_concat(a, b.drop_last());
        assert((a + b).drop_last() =~= a + b.drop_last());
        assert((a + b).last() == b.last());
        assert(lines_text(a + b) =~= lines_text(a) + lines_text(b));
    }
}

/// Reading back the lines of a grid's values gives the values.
pub proof fn lemma_parse_glyph_rows<T: CellValue>(g: Seq<Seq<T>>)
    requires
        is_rectangular(g),
        g.len() * width_of(g) < u64::MAX,
    ensures
        parse_grid::<T>(glyph_rows(g)) == Ok::<Seq<Seq<T>>, ParseError>(g),
{
    let ls = glyph_rows(g);
    assert forall|i: int, j: int| 0 <= i < ls.len() && 0 <= j < ls[i].len() implies (#[trigger] T::from_glyph(ls[i][j])) is Some by {
        g[i][j].lemma_glyph_round_trip();
    }
    assert forall|i: int| 0 <= i < ls.len() implies #[trigger] ls[i].len() == ls[0].len() by {
        assert(g[i].len() == g[0].len());
    }
    assert(width_of(ls) == width_of(g));
    let back = parse_grid::<T>(ls)->Ok_0;
    assert forall|i: int| 0 <= i < g.len() implies #[trigger] back[i] =~= g[i] by {
        assert forall|j: int| 0 <= j < g[i].len() implies #[trigger] back[i][j] == g[i][j] by {
            g[i][j].lemma_glyph_round_trip();
        }
    }
    assert(back =~= g);
}

/// A rectangular grid of cells, each with an identity that it keeps for its lifetime.
#[derive(Debug)]
pub struct Arr2d<T> {
    contents: Vec<Vec<Cell<T>>>,
    next_id: u64,
}

impl<T> View for Arr2d<T> {
    type V = Seq<Seq<Cell<T>>>;

    closed spec fn view(&self) -> Seq<Seq<Cell<T>>> {
        Seq::new(self.contents@.len(), |i: int| self.contents@[i]@)
    }
}

impl<T: CellValue> Arr2d<T> {
    /// Every identity in the grid lies below this bound; new cells take identities from it.
    pub closed spec fn id_bound(&self) -> u64 {
        self.next_id
    }

    pub open spec fn wf(&self) -> bool {
        well_formed(self@, self.id_bound())
    }

    /// The values of the grid.
    pub open spec fn values(&self) -> Seq<Seq<T>> {
        values_of(self@)
    }

    /// A grid without rows.
    pub fn new() -> (a: Arr2d<T>)
        ensures
            a.wf(),
            a@.len() == 0,
    {
        Arr2d { contents: Vec::new(), next_id: 1 }
    }

    pub fn rows(&self) -> (n: usize)
        ensures
            n == self@.len(),
    {
        self.contents.len()
    }

    /// The length of a row.
    pub fn columns(&self, row: usize) -> (n: usize)
        requires
            row < self@.len(),
        ensures
            n == self@[row as int].len(),
    {
        self.contents[row].len()
    }

    /// The identity that the next new cell would take.
    pub fn next_id(&self) -> (n: u64)
        ensures
            n == self.id_bound(),
    {
        self.next_id
    }

    pub fn get_cell(&self, row: usize, column: usize) -> (r: Result<Cell<T>, GridError>)
        ensures
            in_grid(self@, (row as int, column as int)) <==> r is Ok,
            r is Ok ==> r->Ok_0 == self@[row as int][column as int],
            r is Err ==> r->Err_0 == GridError::OutOfRange,
    {
        if row < self.contents.len() && column < self.contents[row].len() {
            Ok(self.contents[row][column])
        } else {
            Err(GridError::OutOfRange)
        }
    }

    pub fn get(&self, row: usize, column: usize) -> (r: Result<T, GridError>)
        ensures
            in_grid(self@, (row as int, column as int)) <==> r is Ok,
            r is Ok ==> r->Ok_0 == self@[row as int][column as int].value,
            r is Err ==> r->Err_0 == GridError::OutOfRange,
    {
        if row < self.contents.len() && column < self.contents[row].len() {
            Ok(self.contents[row][column].value)
        } else {
            Err(GridError::OutOfRange)
        }
    }

    pub fn set(&mut self, row: usize, column: usize, value: T) -> (r: Result<(), GridError>)
        requires
            old(self).wf(),
        ensures
            final(self).wf(),
            final(self).id_bound() == old(self).id_bound(),
            in_grid(old(self)@, (row as int, column as int)) <==> r is Ok,
            r is Err ==> r->Err_0 == GridError::OutOfRange && final(self)@ == old(self)@,
            r is Ok ==> final(self)@ == old(self)@.update(
                row as int,
                old(self)@[row as int].update(
                    column as int,
                    Cell { value, ..old(self)@[row as int][column as int] },
                ),
            ),
    {
        if row < self.contents.len() && column < self.contents[row].len() {
            let old_cell = self.contents[row][column];
            self.contents[row][column] = Cell { value, ..old_cell };
            proof {
                assert(self@ =~= old(self)@.update(
                    row as int,
                    old(self)@[row as int].update(column as int, Cell { value, ..old_cell }),
                ));
            }
            Ok(())
        } else {
            Err(GridError::OutOfRange)
        }
    }

    /// A grid holding the given values; identities are numbered from 1 in row-major order.
    /// The rows must all have one length, and the cells must be fewer than `u64::MAX`.
    pub fn from_contents(contents: Vec<Vec<T>>) -> (a: Arr2d<T>)
        requires
            is_rectangular(contents@.map_values(|r: Vec<T>| r@)),
            contents@.len() * width_of(contents@.map_values(|r: Vec<T>| r@)) < u64::MAX,
        ensures
            a.wf(),
            a@.len() == contents@.len(),
            forall|i: int| 0 <= i < a@.len() ==> #[trigger] a@[i].len() == contents@[i]@.len(),
            forall|i: int, j: int|
                0 <= i < a@.len() && 0 <= j < a@[i].len() ==> (#[trigger] a@[i][j]).value
                    == contents@[i]@[j],
    {
        let ghost rows = contents@.map_values(|r: Vec<T>| r@);
        let ghost w = width_of(rows);
        let mut out: Vec<Vec<Cell<T>>> = Vec::new();
        let mut id: u64 = 1;
        let mut i: usize = 0;
        while i < contents.len()
            invariant
                rows == contents@.map_values(|r: Vec<T>| r@),
                w == width_of(rows),
                is_rectangular(rows),
                contents@.len() * w < u64::MAX,
                i <= contents@.len(),
                out@.len() == i,
                id as int == 1 + i * w,
                forall|k: int| 0 <= k < i ==> #[trigger] out@[k]@.len() == w,
                forall|k: int, j: int|
                    0 <= k < i && 0 <= j < w ==> {
                        &&& (#[trigger] out@[k]@[j]).row == k
                        &&& out@[k]@[j].column == j
                        &&& out@[k]@[j].id == 1 + k * w + j
                        &&& out@[k]@[j].value == contents@[k]@[j]
                    },
            decreases contents@.len() - i,
        {
            assert(rows[i as int] == contents@[i as int]@);
            let src = &contents[i];
            let mut line: Vec<Cell<T>> = Vec::new();
            let mut j: usize = 0;
            while j < src.len()
                invariant
                    i < contents@.len(),
                    src == contents@[i as int],
                    src@.len() == w,
                    contents@.len() * w < u64::MAX,
                    j <= w,
                    line@.len() == j,
                    id as int == 1 + i * w + j,
                    forall|l: int|
                        0 <= l < j ==> {
                            &&& (#[trigger] line@[l]).row == i
                            &&& line@[l].column == l
                            &&& line@[l].id == 1 + i * w + l
                            &&& line@[l].value == src@[l]
                        },
                decreases w - j,
            {
                proof {
                    assert(i * w + j < contents@.len() * w) by (nonlinear_arith)
                        requires
                            i < contents@.len(),
                            j < w,
                    ;
                }
                line.push(Cell { id, row: i, column: j, value: src[j] });
                id = id + 1;
                j = j + 1;
            }
            out.push(line);
            proof {
                assert((i + 1) * w == i * w + w) by (nonlinear_arith);
            }
            i = i + 1;
        }
        let a = Arr2d { contents: out, next_id: id };
        proof {
            assert forall|k: int| 0 <= k < a@.len() implies #[trigger] a@[k].len() == contents@[k]@.len() by {
                assert(rows[k] == contents@[k]@);
            }
            assert forall|k: int| 0 <= k < a@.len() implies #[trigger] a@[k].len() == a@[0].len() by {
            }
            assert forall|i1: int, j1: int, i2: int, j2: int|
                in_grid(a@, (i1, j1)) && in_grid(a@, (i2, j2)) && (i1 != i2 || j1 != j2)
                implies #[trigger] a@[i1][j1].id != #[trigger] a@[i2][j2].id by {
                assert(a@[i1][j1] == out@[i1]@[j1]);
                assert(a@[i2][j2] == out@[i2]@[j2]);
                if i1 == i2 {
                } else if i1 < i2 {
                    assert(i1 * w + j1 < i2 * w + j2) by (nonlinear_arith)
                        requires
                            i1 < i2,
                            0 <= j1 < w,
                            0 <= j2,
                    ;
                } else {
                    assert(i2 * w + j2 < i1 * w + j1) by (nonlinear_arith)
                        requires
                            i2 < i1,
                            0 <= j2 < w,
                            0 <= j1,
                    ;
                }
            }
            assert forall|k: int, j: int| 0 <= k < a@.len() && 0 <= j < a@[k].len() implies
                (#[trigger] a@[k][j]).id < id by {
                assert(a@[k][j] == out@[k]@[j]);
                assert(k * w + j < contents@.len() * w) by (nonlinear_arith)
                    requires
                        0 <= k < contents@.len(),
                        0 <= j < w,
                ;
            }
        }
        a
    }

    /// Appends a row at the bottom; its cells take fresh identities. A row whose length differs
    /// from the grid's width is refused with `OutOfRange`. The identities must not run out
    /// (see `next_id`).
    pub fn add_row(&mut self, row: Vec<T>) -> (r: Result<(), GridError>)
        requires
            old(self).wf(),
            old(self).id_bound() + row@.len() < u64::MAX,
        ensures
            final(self).wf(),
            old(self)@.len() > 0 && row@.len() != old(self)@[0].len() ==> r is Err
                && final(self)@ == old(self)@,
            old(self)@.len() == 0 || row@.len() == old(self)@[0].len() ==> r is Ok
                && final(self)@.len() == old(self)@.len() + 1
                && final(self)@.subrange(0, old(self)@.len() as int) == old(self)@
                && values_of(final(self)@).last() == row@,
            r is Err ==> r->Err_0 == GridError::OutOfRange,
    {
        if self.contents.len() > 0 && row.len() != self.contents[0].len() {
            return Err(GridError::OutOfRange);
        }
        let ghost before = self@;
        let i = self.contents.len();
        let mut line: Vec<Cell<T>> = Vec::new();
        let mut j: usize = 0;
        while j < row.len()
            invariant
                j <= row@.len(),
                line@.len() == j,
                old(self).next_id as int + row@.len() < u64::MAX,
                self@ == before,
                well_formed(before, old(self).next_id),
                i == before.len(),
                old(self).next_id <= self.next_id,
                self.next_id == old(self).next_id + j,
                forall|l: int|
                    0 <= l < j ==> {
                        &&& (#[trigger] line@[l]).row == i
                        &&& line@[l].column == l
                        &&& old(self).next_id <= line@[l].id < self.next_id
                        &&& line@[l].id == old(self).next_id + l
                        &&& line@[l].value == row@[l]
                    },
            decreases row@.len() - j,
        {
            line.push(Cell { id: self.next_id, row: i, column: j, value: row[j] });
            self.next_id = self.next_id + 1;
            j = j + 1;
        }
        self.contents.push(line);
        proof {
            assert(self@ =~= before.push(line@));
            assert(values_of(self@).last() =~= row@);
            assert(self@.subrange(0, before.len() as int) =~= before);
        }
        Ok(())
    }

    /// The positions next to (row, column) that lie in the grid: left, right, above, below.
    pub(crate) fn neighbour_positions(&self, row: usize, column: usize) -> (r: Vec<(usize, usize)>)
        requires
            self.wf(),
        ensures
            r@.len() <= 4,
            distinct(r@),
            forall|k: int|
                0 <= k < r@.len() ==> in_grid(self@, pos_of(#[trigger] r@[k])) && adjacent(
                    (row as int, column as int),
                    pos_of(r@[k]),
                ),
            forall|q: Pos|
                in_grid(self@, q) && adjacent((row as int, column as int), q) ==> #[trigger] has_pos(
                    r@,
                    q,
                ),
    {
        let mut r: Vec<(usize, usize)> = Vec::new();
        let n = self.contents.len();
        let ghost left: Pos = (row as int, column - 1);
        let ghost right: Pos = (row as int, column + 1);
        let ghost up: Pos = (row - 1, column as int);
        let ghost down: Pos = (row + 1, column as int);
        if column > 0 && row < n && column - 1 < self.contents[row].len() {
            r.push((row, column - 1));
            proof { lemma_has_pos_push(Seq::empty(), (row, (column - 1) as usize), left); }
        }
        assert(in_grid(self@, left) ==> has_pos(r@, left));
        if row < n && column < usize::MAX && column + 1 < self.contents[row].len() {
            let ghost prev = r@;
            r.push((row, column + 1));
            proof {
                lemma_has_pos_push(prev, (row, (column + 1) as usize), left);
                lemma_has_pos_push(prev, (row, (column + 1) as usize), right);
            }
        }
        assert(in_grid(self@, left) ==> has_pos(r@, left));
        assert(in_grid(self@, right) ==> has_pos(r@, right));
        if row > 0 && row - 1 < n && column < self.contents[row - 1].len() {
            let ghost prev = r@;
            r.push((row - 1, column));
            proof {
                lemma_has_pos_push(prev, ((row - 1) as usize, column), left);
                lemma_has_pos_push(prev, ((row - 1) as usize, column), right);
                lemma_has_pos_push(prev, ((row - 1) as usize, column), up);
            }
        }
        assert(in_grid(self@, left) ==> has_pos(r@, left));
        assert(in_grid(self@, right) ==> has_pos(r@, right));
        assert(in_grid(self@, up) ==> has_pos(r@, up));
        if row < usize::MAX && row + 1 < n && column < self.contents[row + 1].len() {
            let ghost prev = r@;
            r.push((row + 1, column));
            proof {
                lemma_has_pos_push(prev, ((row + 1) as usize, column), left);
                lemma_has_pos_push(prev, ((row + 1) as usize, column), right);
                lemma_has_pos_push(prev, ((row + 1) as usize, column), up);
                lemma_has_pos_push(prev, ((row + 1) as usize, column), down);
            }
        }
        assert(in_grid(self@, left) ==> has_pos(r@, left));
        assert(in_grid(self@, right) ==> has_pos(r@, right));
        assert(in_grid(self@, up) ==> has_pos(r@, up));
        assert(in_grid(self@, down) ==> has_pos(r@, down));
        r
    }

    /// The cells next to (row, column) along a row or a column, at most four.
    pub fn get_neighbours(&self, row: usize, column: usize) -> (r: Vec<Cell<T>>)
        requires
            self.wf(),
        ensures
            r@.len() <= 4,
            distinct(r@.map_values(|c: Cell<T>| cell_pos(c))),
            forall|k: int|
                0 <= k < r@.len() ==> {
                    &&& in_grid(self@, cell_pos(#[trigger] r@[k]))
                    &&& adjacent((row as int, column as int), cell_pos(r@[k]))
                    &&& r@[k] == self@[r@[k].row as int][r@[k].column as int]
                },
            forall|q: Pos|
                in_grid(self@, q) && adjacent((row as int, column as int), q) ==> exists|k: int|
                    0 <= k < r@.len() && #[trigger] cell_pos(r@[k]) == q,
    {
        let ps = self.neighbour_positions(row, column);
        let mut r: Vec<Cell<T>> = Vec::new();
        let mut k: usize = 0;
        while k < ps.len()
            invariant
                self.wf(),
                k <= ps@.len(),
                r@.len() == k,
                forall|l: int|
                    0 <= l < ps@.len() ==> in_grid(self@, pos_of(#[trigger] ps@[l])),
                forall|l: int| 0 <= l < k ==> #[trigger] r@[l] == self@[ps@[l].0 as int][ps@[l].1 as int],
            decreases ps@.len() - k,
        {
            let p = ps[k];
            assert(in_grid(self@, pos_of(ps@[k as int])));
            r.push(self.contents[p.0][p.1]);
            k = k + 1;
        }
        proof {
            assert forall|l: int| 0 <= l < r@.len() implies cell_pos(#[trigger] r@[l]) == pos_of(ps@[l]) by {
                assert(in_grid(self@, pos_of(ps@[l])));
            }
            let cp = r@.map_values(|c: Cell<T>| cell_pos(c));
            assert forall|k1: int, k2: int| 0 <= k1 < cp.len() && 0 <= k2 < cp.len() && k1 != k2
                implies cp[k1] != cp[k2] by {
                assert(cell_pos(r@[k1]) == pos_of(ps@[k1]));
                assert(cell_pos(r@[k2]) == pos_of(ps@[k2]));
            }
            assert forall|q: Pos| in_grid(self@, q) && adjacent((row as int, column as int), q)
                implies exists|k: int| 0 <= k < r@.len() && #[trigger] cell_pos(r@[k]) == q by {
                assert(has_pos(ps@, q));
                let k = choose|k: int| 0 <= k < ps@.len() && pos_of(#[trigger] ps@[k]) == q;
                assert(cell_pos(r@[k]) == pos_of(ps@[k]));
            }
        }
        r
    }

    /// A mask of the grid's shape with nothing marked.
    pub(crate) fn blank_mask(&self) -> (m: Vec<Vec<bool>>)
        ensures
            fits(m@, self@),
            forall|p: Pos| in_grid(self@, p) ==> !#[trigger] marked(m@, p),
    {
        let mut m: Vec<Vec<bool>> = Vec::new();
        let mut i: usize = 0;
        while i < self.contents.len()
            invariant
                i <= self@.len(),
                m@.len() == i,
                forall|k: int| 0 <= k < i ==> (#[trigger] m@[k])@.len() == self@[k].len(),
                forall|k: int, l: int| 0 <= k < i && 0 <= l < m@[k]@.len() ==> !#[trigger] m@[k]@[l],
            decreases self@.len() - i,
        {
            let mut line: Vec<bool> = Vec::new();
            let mut j: usize = 0;
            while j < self.contents[i].len()
                invariant
                    i < self@.len(),
                    j <= self@[i as int].len(),
                    line@.len() == j,
                    forall|l: int| 0 <= l < j ==> !#[trigger] line@[l],
                decreases self@[i as int].len() - j,
            {
                line.push(false);
                j = j + 1;
            }
            m.push(line);
            i = i + 1;
        }
        m
    }

    /// The region of (row, column): the cells reachable from it through cells of its value,
    /// each once, in the order a depth-first walk meets them, with a mask of the same cells.
    pub(crate) fn region(&self, row: usize, column: usize) -> (r: (Vec<(usize, usize)>, Vec<Vec<bool>>))
        requires
            self.wf(),
            in_grid(self@, (row as int, column as int)),
        ensures
            fits(r.1@, self@),
            forall|p: Pos| in_grid(self@, p) ==> (#[trigger] marked(r.1@, p) <==> reachable(self@, (row as int, column as int), p)),
            distinct(r.0@),
            forall|k: int| 0 <= k < r.0@.len() ==> reachable(self@, (row as int, column as int), pos_of(#[trigger] r.0@[k])),
            forall|p: Pos| reachable(self@, (row as int, column as int), p) ==> #[trigger] has_pos(r.0@, p),
    {
        let ghost g = self@;
        let ghost s: Pos = (row as int, column as int);
        let target = self.contents[row][column].value;
        let mut seen = self.blank_mask();
        let mut stack: Vec<(usize, usize)> = Vec::new();
        let mut order: Vec<(usize, usize)> = Vec::new();
        let ghost before = seen@;
        assert(!marked(before, s));
        seen[row][column] = true;
        proof {
            lemma_reach_self(g, s);
            lemma_mark(before, seen@, row as int, column as int);
        }
        stack.push((row, column));
        proof {
            assert forall|p: Pos| in_grid(g, p) && #[trigger] marked(seen@, p) implies p == s by {
                if p != s {
                    assert(marked(before, p));
                }
            }
            assert(pos_of(stack@[0]) == s);
        }
        while stack.len() > 0
            invariant
                self.wf(),
                g == self@,
                s == (row as int, column as int),
                in_grid(g, s),
                target == value_at(g, s),
                fits(seen@, g),
                marked(seen@, s),
                forall|p: Pos| in_grid(g, p) && #[trigger] marked(seen@, p) ==> reachable(g, s, p),
                forall|k: int| 0 <= k < stack@.len() ==> in_grid(g, pos_of(#[trigger] stack@[k])) && marked(seen@, pos_of(stack@[k])),
                forall|k: int| 0 <= k < order@.len() ==> in_grid(g, pos_of(#[trigger] order@[k])) && marked(seen@, pos_of(order@[k])),
                forall|p: Pos| in_grid(g, p) && #[trigger] marked(seen@, p) ==> has_pos(stack@, p) || has_pos(order@, p),
                distinct(stack@),
                distinct(order@),
                forall|k1: int, k2: int| 0 <= k1 < stack@.len() && 0 <= k2 < order@.len() ==> #[trigger] stack@[k1] != #[trigger] order@[k2],
                forall|k: int, q: Pos|
                    0 <= k < order@.len() && in_grid(g, q) && #[trigger] adjacent(pos_of(#[trigger] order@[k]), q) && value_at(g, q) == target ==> marked(seen@, q),
            decreases 2 * unmarked(seen@) + stack@.len(),
        {
            let ghost measure = 2 * unmarked(seen@) + stack@.len();
            let ghost old_stack = stack@;
            let p = stack.pop().unwrap();
            proof {
                assert(old_stack.last() == p);
                assert(stack@ == old_stack.drop_last());
                assert(reachable(g, s, pos_of(p)));
                lemma_reach_value(g, s, pos_of(p));
                assert forall|q: Pos| in_grid(g, q) && #[trigger] marked(seen@, q) implies has_pos(stack@, q) || has_pos(order@, q) || q == pos_of(p) by {
                    if has_pos(old_stack, q) {
                        let k = choose|k: int| 0 <= k < old_stack.len() && pos_of(#[trigger] old_stack[k]) == q;
                        if k < old_stack.len() - 1 {
                            assert(stack@[k] == old_stack[k]);
                        }
                    }
                }
            }
            let nbrs = self.neighbour_positions(p.0, p.1);
            let mut k: usize = 0;
            while k < nbrs.len()
                invariant
                    self.wf(),
                    g == self@,
                    s == (row as int, column as int),
                    in_grid(g, s),
                    target == value_at(g, s),
                    in_grid(g, pos_of(p)),
                    marked(seen@, pos_of(p)),
                    value_at(g, pos_of(p)) == target,
                    reachable(g, s, pos_of(p)),
                    fits(seen@, g),
                    marked(seen@, s),
                    k <= nbrs@.len(),
                    nbrs@.len() <= 4,
                    distinct(nbrs@),
                    forall|l: int| 0 <= l < nbrs@.len() ==> in_grid(g, pos_of(#[trigger] nbrs@[l])) && adjacent(pos_of(p), pos_of(nbrs@[l])),
                    forall|q: Pos| in_grid(g, q) && adjacent(pos_of(p), q) ==> #[trigger] has_pos(nbrs@, q),
                    forall|q: Pos| in_grid(g, q) && #[trigger] marked(seen@, q) ==> reachable(g, s, q),
                    forall|l: int| 0 <= l < stack@.len() ==> in_grid(g, pos_of(#[trigger] stack@[l])) && marked(seen@, pos_of(stack@[l])),
                    forall|l: int| 0 <= l < order@.len() ==> in_grid(g, pos_of(#[trigger] order@[l])) && marked(seen@, pos_of(order@[l])),
                    forall|q: Pos| in_grid(g, q) && #[trigger] marked(seen@, q) ==> has_pos(stack@, q) || has_pos(order@, q) || q == pos_of(p),
                    distinct(stack@),
                    distinct(order@),
                    forall|k1: int, k2: int| 0 <= k1 < stack@.len() && 0 <= k2 < order@.len() ==> #[trigger] stack@[k1] != #[trigger] order@[k2],
                    forall|l: int| 0 <= l < stack@.len() ==> #[trigger] stack@[l] != p,
                    forall|l: int| 0 <= l < order@.len() ==> #[trigger] order@[l] != p,
                    forall|l: int, q: Pos|
                        0 <= l < order@.len() && in_grid(g, q) && #[trigger] adjacent(pos_of(#[trigger] order@[l]), q) && value_at(g, q) == target ==> marked(seen@, q),
                    forall|l: int| 0 <= l < k && value_at(g, pos_of(#[trigger] nbrs@[l])) == target ==> marked(seen@, pos_of(nbrs@[l])),
                    2 * unmarked(seen@) + stack@.len() < measure,
                decreases nbrs@.len() - k,
            {
                let q = nbrs[k];
                assert(in_grid(g, pos_of(nbrs@[k as int])));
                if !seen[q.0][q.1] && self.contents[q.0][q.1].value.same(&target) {
                    let ghost before = seen@;
                    let ghost stack_before = stack@;
                    seen[q.0][q.1] = true;
                    proof {
                        lemma_mark(before, seen@, q.0 as int, q.1 as int);
                        lemma_reach_step(g, s, pos_of(p), pos_of(q));
                        assert forall|x: Pos| in_grid(g, x) && #[trigger] marked(seen@, x) implies reachable(g, s, x) by {
                            if x != pos_of(q) {
                                assert(marked(before, x));
                            }
                        }
                    }
                    stack.push(q);
                    proof {
                        assert(stack@.last() == q);
                        assert forall|x: Pos| in_grid(g, x) && #[trigger] marked(seen@, x) implies has_pos(stack@, x) || has_pos(order@, x) || x == pos_of(p) by {
                            if x == pos_of(q) {
                                assert(pos_of(stack@[stack@.len() - 1]) == x);
                            } else {
                                assert(marked(before, x));
                                if has_pos(stack_before, x) {
                                    let l = choose|l: int| 0 <= l < stack_before.len() && pos_of(#[trigger] stack_before[l]) == x;
                                    assert(stack@[l] == stack_before[l]);
                                }
                            }
                        }
                        assert forall|l: int| 0 <= l < stack_before.len() implies #[trigger] stack_before[l] != q by {
                            assert(marked(before, pos_of(stack_before[l])));
                        }
                        assert forall|l: int| 0 <= l < order@.len() implies #[trigger] order@[l] != q by {
                            assert(marked(before, pos_of(order@[l])));
                        }
                        assert forall|l: int| 0 <= l < k + 1 && value_at(g, pos_of(#[trigger] nbrs@[l])) == target implies marked(seen@, pos_of(nbrs@[l])) by {
                            if l < k {
                                assert(marked(before, pos_of(nbrs@[l])));
                            }
                        }
                    }
                }
                k = k + 1;
            }
            let ghost order_before = order@;
            order.push(p);
            proof {
                assert(order@.last() == p);
                assert forall|x: Pos| in_grid(g, x) && #[trigger] marked(seen@, x) implies has_pos(stack@, x) || has_pos(order@, x) by {
                    if x == pos_of(p) {
                        assert(pos_of(order@[order@.len() - 1]) == x);
                    } else if has_pos(order_before, x) {
                        let l = choose|l: int| 0 <= l < order_before.len() && pos_of(#[trigger] order_before[l]) == x;
                        assert(order@[l] == order_before[l]);
                    }
                }
                assert forall|l: int, q: Pos|
                    0 <= l < order@.len() && in_grid(g, q) && #[trigger] adjacent(pos_of(#[trigger] order@[l]), q) && value_at(g, q) == target
                    implies marked(seen@, q) by {
                    if l == order@.len() - 1 {
                        assert(has_pos(nbrs@, q));
                        let m = choose|m: int| 0 <= m < nbrs@.len() && pos_of(#[trigger] nbrs@[m]) == q;
                        assert(value_at(g, pos_of(nbrs@[m])) == target);
                    } else {
                        assert(order@[l] == order_before[l]);
                    }
                }
                assert forall|k1: int, k2: int| 0 <= k1 < stack@.len() && 0 <= k2 < order@.len() implies #[trigger] stack@[k1] != #[trigger] order@[k2] by {
                    if k2 < order@.len() - 1 {
                        assert(order@[k2] == order_before[k2]);
                    }
                }
            }
        }
        proof {
            assert forall|a: Pos, b: Pos|
                in_grid(g, a) && in_grid(g, b) && #[trigger] marked(seen@, a) && #[trigger] adjacent(a, b)
                    && value_at(g, b) == value_at(g, a) implies marked(seen@, b) by {
                assert(has_pos(order@, a));
                let l = choose|l: int| 0 <= l < order@.len() && pos_of(#[trigger] order@[l]) == a;
                lemma_reach_value(g, s, a);
            }
            assert forall|p: Pos| reachable(g, s, p) implies #[trigger] has_pos(order@, p) by {
                lemma_reach_value(g, s, p);
                lemma_closed_holds_reachable(g, seen@, s, p);
            }
            assert forall|p: Pos| in_grid(g, p) implies (#[trigger] marked(seen@, p) <==> reachable(g, s, p)) by {
                if reachable(g, s, p) {
                    lemma_closed_holds_reachable(g, seen@, s, p);
                }
            }
        }
        (order, seen)
    }

    /// The cells at the given positions, in their order.
    fn cells_at(&self, ps: &Vec<(usize, usize)>) -> (r: Vec<Cell<T>>)
        requires
            self.wf(),
            forall|l: int| 0 <= l < ps@.len() ==> in_grid(self@, pos_of(#[trigger] ps@[l])),
        ensures
            r@.len() == ps@.len(),
            forall|l: int|
                0 <= l < r@.len() ==> #[trigger] r@[l] == self@[ps@[l].0 as int][ps@[l].1 as int]
                    && cell_pos(r@[l]) == pos_of(ps@[l]),
    {
        let mut r: Vec<Cell<T>> = Vec::new();
        let mut k: usize = 0;
        while k < ps.len()
            invariant
                self.wf(),
                k <= ps@.len(),
                r@.len() == k,
                forall|l: int| 0 <= l < ps@.len() ==> in_grid(self@, pos_of(#[trigger] ps@[l])),
                forall|l: int|
                    0 <= l < k ==> #[trigger] r@[l] == self@[ps@[l].0 as int][ps@[l].1 as int]
                        && cell_pos(r@[l]) == pos_of(ps@[l]),
            decreases ps@.len() - k,
        {
            let p = ps[k];
            assert(in_grid(self@, pos_of(ps@[k as int])));
            r.push(self.contents[p.0][p.1]);
            k = k + 1;
        }
        r
    }

    /// Every cell reachable from (row, column) by orthogonal steps through cells of the same
    /// value, each exactly once, the seed included.
    pub fn flood_fill(&self, row: usize, column: usize) -> (r: Result<Vec<Cell<T>>, GridError>)
        requires
            self.wf(),
        ensures
            in_grid(self@, (row as int, column as int)) <==> r is Ok,
            r is Err ==> r->Err_0 == GridError::InvalidIndex,
            r is Ok ==> {
                let cells = r->Ok_0@;
                &&& distinct(cells.map_values(|c: Cell<T>| cell_pos(c)))
                &&& forall|k: int|
                    0 <= k < cells.len() ==> {
                        &&& reachable(self@, (row as int, column as int), cell_pos(#[trigger] cells[k]))
                        &&& cells[k] == self@[cells[k].row as int][cells[k].column as int]
                    }
                &&& forall|p: Pos|
                    reachable(self@, (row as int, column as int), p) ==> exists|k: int|
                        0 <= k < cells.len() && #[trigger] cell_pos(cells[k]) == p
            },
    {
        if row >= self.contents.len() || column >= self.contents[row].len() {
            return Err(GridError::InvalidIndex);
        }
        let (order, _mask) = self.region(row, column);
        proof {
            assert forall|l: int| 0 <= l < order@.len() implies in_grid(self@, pos_of(#[trigger] order@[l])) by {
                lemma_reach_value(self@, (row as int, column as int), pos_of(order@[l]));
            }
        }
        let cells = self.cells_at(&order);
        proof {
            lemma_cells_distinct(cells@, order@);
            assert forall|p: Pos| reachable(self@, (row as int, column as int), p) implies exists|k: int|
                0 <= k < cells@.len() && #[trigger] cell_pos(cells@[k]) == p by {
                assert(has_pos(order@, p));
                let k = choose|k: int| 0 <= k < order@.len() && pos_of(#[trigger] order@[k]) == p;
                assert(cell_pos(cells@[k]) == pos_of(order@[k]));
            }
            assert forall|k: int| 0 <= k < cells@.len() implies reachable(self@, (row as int, column as int), cell_pos(#[trigger] cells@[k])) by {
                assert(cell_pos(cells@[k]) == pos_of(order@[k]));
            }
        }
        Ok(cells)
    }

    /// The positions that border the region of (row, column), each once.
    pub(crate) fn perimeter_positions(&self, row: usize, column: usize) -> (r: Vec<(usize, usize)>)
        requires
            self.wf(),
            in_grid(self@, (row as int, column as int)),
        ensures
            distinct(r@),
            forall|k: int| 0 <= k < r@.len() ==> in_perimeter(self@, (row as int, column as int), pos_of(#[trigger] r@[k])),
            forall|q: Pos| in_perimeter(self@, (row as int, column as int), q) ==> #[trigger] has_pos(r@, q),
    {
        let ghost g = self@;
        let ghost s: Pos = (row as int, column as int);
        let target = self.contents[row][column].value;
        let (order, _mask) = self.region(row, column);
        let mut seen = self.blank_mask();
        let mut out: Vec<(usize, usize)> = Vec::new();
        let mut i: usize = 0;
        while i < order.len()
            invariant
                self.wf(),
                g == self@,
                s == (row as int, column as int),
                in_grid(g, s),
                target == value_at(g, s),
                i <= order@.len(),
                forall|k: int| 0 <= k < order@.len() ==> reachable(g, s, pos_of(#[trigger] order@[k])),
                forall|p: Pos| reachable(g, s, p) ==> #[trigger] has_pos(order@, p),
                fits(seen@, g),
                distinct(out@),
                forall|k: int| 0 <= k < out@.len() ==> in_perimeter(g, s, pos_of(#[trigger] out@[k])) && marked(seen@, pos_of(out@[k])),
                forall|q: Pos| in_grid(g, q) && #[trigger] marked(seen@, q) ==> has_pos(out@, q),
                forall|l: int, q: Pos|
                    0 <= l < i && in_grid(g, q) && #[trigger] adjacent(pos_of(#[trigger] order@[l]), q) && value_at(g, q) != target ==> marked(seen@, q),
            decreases order@.len() - i,
        {
            let p = order[i];
            proof {
                lemma_reach_value(g, s, pos_of(p));
            }
            let nbrs = self.neighbour_positions(p.0, p.1);
            let mut k: usize = 0;
            while k < nbrs.len()
                invariant
                    self.wf(),
                    g == self@,
                    s == (row as int, column as int),
                    in_grid(g, s),
                    target == value_at(g, s),
                    i < order@.len(),
                    p == order@[i as int],
                    reachable(g, s, pos_of(p)),
                    k <= nbrs@.len(),
                    forall|l: int| 0 <= l < nbrs@.len() ==> in_grid(g, pos_of(#[trigger] nbrs@[l])) && adjacent(pos_of(p), pos_of(nbrs@[l])),
                    fits(seen@, g),
                    distinct(out@),
                    forall|l: int| 0 <= l < out@.len() ==> in_perimeter(g, s, pos_of(#[trigger] out@[l])) && marked(seen@, pos_of(out@[l])),
                    forall|q: Pos| in_grid(g, q) && #[trigger] marked(seen@, q) ==> has_pos(out@, q),
                    forall|l: int, q: Pos|
                        0 <= l < i && in_grid(g, q) && #[trigger] adjacent(pos_of(#[trigger] order@[l]), q) && value_at(g, q) != target ==> marked(seen@, q),
                    forall|l: int| 0 <= l < k && value_at(g, pos_of(#[trigger] nbrs@[l])) != target ==> marked(seen@, pos_of(nbrs@[l])),
                decreases nbrs@.len() - k,
            {
                let q = nbrs[k];
                assert(in_grid(g, pos_of(nbrs@[k as int])));
                if !seen[q.0][q.1] && !self.contents[q.0][q.1].value.same(&target) {
                    let ghost before = seen@;
                    let ghost out_before = out@;
                    seen[q.0][q.1] = true;
                    out.push(q);
                    proof {
                        assert(out@.last() == q);
                        assert(in_perimeter(g, s, pos_of(q)));
                        assert forall|l: int| 0 <= l < out@.len() implies in_perimeter(g, s, pos_of(#[trigger] out@[l])) && marked(seen@, pos_of(out@[l])) by {
                            if l < out@.len() - 1 {
                                assert(out@[l] == out_before[l]);
                                assert(marked(before, pos_of(out_before[l])));
                            }
                        }
                        assert forall|x: Pos| in_grid(g, x) && #[trigger] marked(seen@, x) implies has_pos(out@, x) by {
                            lemma_has_pos_push(out_before, q, x);
                            if x != pos_of(q) {
                                assert(marked(before, x));
                            }
                        }
                        assert forall|l1: int, l2: int| 0 <= l1 < out@.len() && 0 <= l2 < out@.len() && l1 != l2 implies out@[l1] != out@[l2] by {
                            if l1 < out@.len() - 1 {
                                assert(marked(before, pos_of(out_before[l1])));
                            }
                            if l2 < out@.len() - 1 {
                                assert(marked(before, pos_of(out_before[l2])));
                            }
                        }
                        assert forall|l: int, x: Pos|
                            0 <= l < i && in_grid(g, x) && #[trigger] adjacent(pos_of(#[trigger] order@[l]), x) && value_at(g, x) != target implies marked(seen@, x) by {
                            assert(marked(before, x));
                        }
                        assert forall|l: int| 0 <= l < k + 1 && value_at(g, pos_of(#[trigger] nbrs@[l])) != target implies marked(seen@, pos_of(nbrs@[l])) by {
                            if l < k {
                                assert(marked(before, pos_of(nbrs@[l])));
                            }
                        }
                    }
                }
                k = k + 1;
            }
            proof {
                assert forall|l: int, q: Pos|
                    0 <= l < i + 1 && in_grid(g, q) && #[trigger] adjacent(pos_of(#[trigger] order@[l]), q) && value_at(g, q) != target implies marked(seen@, q) by {
                    if l == i {
                        assert(has_pos(nbrs@, q));
                        let m = choose|m: int| 0 <= m < nbrs@.len() && pos_of(#[trigger] nbrs@[m]) == q;
                    }
                }
            }
            i = i + 1;
        }
        proof {
            assert forall|q: Pos| in_perimeter(g, s, q) implies #[trigger] has_pos(out@, q) by {
                let p = choose|p: Pos| #[trigger] reachable(g, s, p) && adjacent(p, q);
                assert(has_pos(order@, p));
                let l = choose|l: int| 0 <= l < order@.len() && pos_of(#[trigger] order@[l]) == p;
                lemma_reach_value(g, s, p);
                assert(adjacent(pos_of(order@[l]), q));
            }
        }
        out
    }

    /// The cells that border the region of (row, column) and hold another value, each once.
    pub fn get_perimeter(&self, row: usize, column: usize) -> (r: Result<Vec<Cell<T>>, GridError>)
        requires
            self.wf(),
        ensures
            in_grid(self@, (row as int, column as int)) <==> r is Ok,
            r is Err ==> r->Err_0 == GridError::InvalidIndex,
            r is Ok ==> {
                let cells = r->Ok_0@;
                &&& distinct(cells.map_values(|c: Cell<T>| cell_pos(c)))
                &&& forall|k: int|
                    0 <= k < cells.len() ==> {
                        &&& in_perimeter(self@, (row as int, column as int), cell_pos(#[trigger] cells[k]))
                        &&& cells[k] == self@[cells[k].row as int][cells[k].column as int]
                    }
                &&& forall|q: Pos|
                    in_perimeter(self@, (row as int, column as int), q) ==> exists|k: int|
                        0 <= k < cells.len() && #[trigger] cell_pos(cells[k]) == q
            },
    {
        if row >= self.contents.len() || column >= self.contents[row].len() {
            return Err(GridError::InvalidIndex);
        }
        let ps = self.perimeter_positions(row, column);
        let cells = self.cells_at(&ps);
        proof {
            lemma_cells_distinct(cells@, ps@);
            assert forall|q: Pos| in_perimeter(self@, (row as int, column as int), q) implies exists|k: int|
                0 <= k < cells@.len() && #[trigger] cell_pos(cells@[k]) == q by {
                assert(has_pos(ps@, q));
                let k = choose|k: int| 0 <= k < ps@.len() && pos_of(#[trigger] ps@[k]) == q;
                assert(cell_pos(cells@[k]) == pos_of(ps@[k]));
            }
            assert forall|k: int| 0 <= k < cells@.len() implies in_perimeter(self@, (row as int, column as int), cell_pos(#[trigger] cells@[k])) by {
                assert(cell_pos(cells@[k]) == pos_of(ps@[k]));
            }
        }
        Ok(cells)
    }

    /// The grid as text: one line per row, one character per cell.
    pub fn to_str(&self) -> (r: String)
        requires
            self.wf(),
        ensures
            r@ == lines_text(glyph_rows(self.values())),
    {
        let ghost gr = glyph_rows(self.values());
        let mut out = String::new();
        let mut i: usize = 0;
        while i < self.contents.len()
            invariant
                gr == glyph_rows(self.values()),
                i <= self@.len(),
                out@ == lines_text(gr.subrange(0, i as int)),
            decreases self@.len() - i,
        {
            let ghost start = out@;
            let mut j: usize = 0;
            while j < self.contents[i].len()
                invariant
                    gr == glyph_rows(self.values()),
                    i < self@.len(),
                    j <= self@[i as int].len(),
                    out@ == start + gr[i as int].subrange(0, j as int),
                decreases self@[i as int].len() - j,
            {
                let c = self.contents[i][j].value.to_char();
                push_char(&mut out, c);
                proof {
                    assert(gr[i as int][j as int] == c);
                    assert(gr[i as int].subrange(0, j + 1) =~= gr[i as int].subrange(0, j as int).push(c));
                }
                j = j + 1;
            }
            push_char(&mut out, '\n');
            proof {
                assert(gr[i as int].subrange(0, j as int) =~= gr[i as int]);
                assert(gr.subrange(0, i + 1).drop_last() =~= gr.subrange(0, i as int));
                assert(out@ =~= lines_text(gr.subrange(0, i + 1)));
            }
            i = i + 1;
        }
        assert(gr.subrange(0, i as int) =~= gr);
        out
    }

    /// A grid read from lines of characters, one line per row. A character that stands for no
    /// value is `InvalidCharacter`; lines of different lengths, or too many cells to number,
    /// are `InvalidValue`.
    pub fn from_lines(lines: &Vec<Vec<char>>) -> (r: Result<Arr2d<T>, ParseError>)
        ensures
            parse_grid::<T>(views(lines@)) is Err ==> r is Err && r->Err_0 == parse_grid::<T>(views(lines@))->Err_0,
            parse_grid::<T>(views(lines@)) is Ok ==> r is Ok && r->Ok_0.wf() && r->Ok_0.values() == parse_grid::<T>(views(lines@))->Ok_0,
    {
        let ghost ls = views(lines@);
        let mut rows: Vec<Vec<T>> = Vec::new();
        let mut i: usize = 0;
        while i < lines.len()
            invariant
                ls == views(lines@),
                i <= lines@.len(),
                rows@.len() == i,
                forall|k: int, j: int| 0 <= k < i && 0 <= j < ls[k].len() ==> (#[trigger] T::from_glyph(ls[k][j])) is Some,
                forall|k: int| 0 <= k < i ==> (#[trigger] rows@[k])@.len() == ls[k].len(),
                forall|k: int, j: int| 0 <= k < i && 0 <= j < ls[k].len() ==> (#[trigger] rows@[k]@[j]) == T::from_glyph(ls[k][j])->Some_0,
            decreases lines@.len() - i,
        {
            let line = &lines[i];
            assert(ls[i as int] == line@);
            let mut vals: Vec<T> = Vec::new();
            let mut j: usize = 0;
            while j < line.len()
                invariant
                    ls == views(lines@),
                    i < lines@.len(),
                    ls[i as int] == line@,
                    j <= line@.len(),
                    vals@.len() == j,
                    forall|l: int| 0 <= l < j ==> (#[trigger] T::from_glyph(line@[l])) is Some && vals@[l] == T::from_glyph(line@[l])->Some_0,
                decreases line@.len() - j,
            {
                match T::from_char(line[j]) {
                    Some(v) => {
                        vals.push(v);
                    },
                    None => {
                        assert(!glyphs_known::<T>(ls)) by {
                            assert(T::from_glyph(ls[i as int][j as int]) is None);
                        }
                        return Err(ParseError::InvalidCharacter);
                    },
                }
                j = j + 1;
            }
            rows.push(vals);
            i = i + 1;
        }
        assert(glyphs_known::<T>(ls));
        let n = rows.len();
        let mut w: usize = 0;
        if n > 0 {
            w = rows[0].len();
        }
        let mut k: usize = 0;
        while k < n
            invariant
                ls == views(lines@),
                glyphs_known::<T>(ls),
                n == rows@.len() == ls.len(),
                w == width_of(ls),
                forall|l: int| 0 <= l < n ==> (#[trigger] rows@[l])@.len() == ls[l].len(),
                k <= n,
                forall|l: int| 0 <= l < k ==> #[trigger] ls[l].len() == ls[0].len(),
            decreases n - k,
        {
            if rows[k].len() != w {
                assert(!is_rectangular(ls)) by {
                    assert(ls[k as int].len() != ls[0].len());
                }
                return Err(ParseError::InvalidValue);
            }
            k = k + 1;
        }
        assert(is_rectangular(ls));
        if w > 0 && (n as u64) > (u64::MAX - 1) / (w as u64) {
            proof {
                assert(n * w >= u64::MAX) by (nonlinear_arith)
                    requires
                        w > 0,
                        n > (u64::MAX - 1) as int / w as int,
                ;
            }
            return Err(ParseError::InvalidValue);
        }
        proof {
            if w > 0 {
                assert(n * w < u64::MAX) by (nonlinear_arith)
                    requires
                        w > 0,
                        n <= (u64::MAX - 1) as int / w as int,
                ;
            }
            let rv = rows@.map_values(|r: Vec<T>| r@);
            assert forall|l: int| 0 <= l < rv.len() implies #[trigger] rv[l].len() == rv[0].len() by {
                assert(rv[l] == rows@[l]@);
            }
            assert(width_of(rv) == w);
        }
        let a = Arr2d::from_contents(rows);
        proof {
            let vals = parse_grid::<T>(ls)->Ok_0;
            assert(a.values() =~= vals) by {
                assert forall|x: int| 0 <= x < vals.len() implies #[trigger] a.values()[x] =~= vals[x] by {
                    assert forall|y: int| 0 <= y < vals[x].len() implies #[trigger] a.values()[x][y] == vals[x][y] by {
                        assert(a@[x][y].value == rows@[x]@[y]);
                    }
                }
            }
        }
        Ok(a)
    }

    /// A grid read from text: each non-blank line, trimmed, is a row.
    pub fn from_str(s: &str) -> (r: Result<Arr2d<T>, ParseError>)
        ensures
            parse_grid::<T>(text_lines(s@)) is Err ==> r is Err && r->Err_0 == parse_grid::<T>(text_lines(s@))->Err_0,
            parse_grid::<T>(text_lines(s@)) is Ok ==> r is Ok && r->Ok_0.wf() && r->Ok_0.values() == parse_grid::<T>(text_lines(s@))->Ok_0,
    {
        let cs = chars_of(s);
        let lines = lines_of(&cs);
        Self::from_lines(&lines)
    }

    /// A grid of `height` rows and `width` columns. Cells inside both grids keep their value
    /// and identity; the others hold `filler` and take fresh identities, which must not run
    /// out (see `next_id`).
    pub fn expand(&self, width: usize, height: usize, filler: T) -> (a: Arr2d<T>)
        requires
            self.wf(),
            self.id_bound() + width * height < u64::MAX,
        ensures
            a.wf(),
            a.id_bound() >= self.id_bound(),
            a@.len() == height,
            forall|i: int| 0 <= i < height ==> #[trigger] a@[i].len() == width,
            forall|i: int, j: int|
                0 <= i < height && 0 <= j < width ==> if in_grid(self@, (i, j)) {
                    #[trigger] a@[i][j] == self@[i][j]
                } else {
                    a@[i][j].value == filler && a@[i][j].id >= self.id_bound()
                },
    {
        let ghost g = self@;
        let mut out: Vec<Vec<Cell<T>>> = Vec::new();
        let mut id: u64 = self.next_id;
        let mut i: usize = 0;
        while i < height
            invariant
                self.wf(),
                g == self@,
                self.next_id + width * height < u64::MAX,
                i <= height,
                out@.len() == i,
                self.next_id <= id,
                id as int <= self.next_id + i * width,
                forall|k: int| 0 <= k < i ==> (#[trigger] out@[k])@.len() == width,
                forall|k: int, j: int|
                    0 <= k < i && 0 <= j < width ==> {
                        &&& (#[trigger] out@[k]@[j]).row == k
                        &&& out@[k]@[j].column == j
                        &&& out@[k]@[j].id < id
                        &&& if in_grid(g, (k, j)) {
                            out@[k]@[j] == g[k][j]
                        } else {
                            out@[k]@[j].value == filler && out@[k]@[j].id >= self.next_id
                        }
                    },
                forall|k1: int, j1: int, k2: int, j2: int|
                    0 <= k1 < i && 0 <= j1 < width && 0 <= k2 < i && 0 <= j2 < width && (k1 != k2 || j1 != j2)
                        ==> #[trigger] out@[k1]@[j1].id != #[trigger] out@[k2]@[j2].id,
            decreases height - i,
        {
            let mut line: Vec<Cell<T>> = Vec::new();
            let mut j: usize = 0;
            let ghost id0 = id;
            while j < width
                invariant
                    self.wf(),
                    g == self@,
                    self.next_id + width * height < u64::MAX,
                    i < height,
                    j <= width,
                    line@.len() == j,
                    self.next_id <= id0 <= id,
                    id0 as int <= self.next_id + i * width,
                    id as int <= id0 + j,
                    forall|k: int, l: int|
                        0 <= k < i && 0 <= l < width ==> (#[trigger] out@[k]@[l]).id < id0,
                    forall|l: int|
                        0 <= l < j ==> {
                            &&& (#[trigger] line@[l]).row == i
                            &&& line@[l].column == l
                            &&& line@[l].id < id
                            &&& if in_grid(g, (i as int, l)) {
                                line@[l] == g[i as int][l]
                            } else {
                                line@[l].value == filler && id0 <= line@[l].id
                            }
                        },
                    forall|l1: int, l2: int| 0 <= l1 < j && 0 <= l2 < j && l1 != l2 ==> #[trigger] line@[l1].id != #[trigger] line@[l2].id,
                decreases width - j,
            {
                if i < self.contents.len() && j < self.contents[i].len() {
                    line.push(self.contents[i][j]);
                    proof {
                        assert forall|l1: int, l2: int| 0 <= l1 < j + 1 && 0 <= l2 < j + 1 && l1 != l2 implies #[trigger] line@[l1].id != #[trigger] line@[l2].id by {
                            if l1 < j && l2 < j {
                            } else {
                                let o = if l1 == j { l2 } else { l1 };
                                if in_grid(g, (i as int, o)) {
                                    assert(in_grid(g, (i as int, j as int)));
                                } else {
                                    assert(line@[o].id >= id0);
                                }
                            }
                        }
                    }
                } else {
                    proof {
                        assert(i * width + j < width * height) by (nonlinear_arith)
                            requires
                                i < height,
                                j < width,
                        ;
                    }
                    line.push(Cell { id, row: i, column: j, value: filler });
                    id = id + 1;
                }
                j = j + 1;
            }
            proof {
                assert((i + 1) * width == i * width + width) by (nonlinear_arith);
                assert forall|k1: int, j1: int, k2: int, j2: int|
                    0 <= k1 < i + 1 && 0 <= j1 < width && 0 <= k2 < i + 1 && 0 <= j2 < width && (k1 != k2 || j1 != j2)
                    implies #[trigger] out@.push(line)[k1]@[j1].id != #[trigger] out@.push(line)[k2]@[j2].id by {
                    let o = out@.push(line);
                    if k1 < i && k2 < i {
                        assert(o[k1] == out@[k1] && o[k2] == out@[k2]);
                    } else if k1 == i && k2 == i {
                        assert(o[k1]@ == line@);
                    } else {
                        let (ka, ja, kb, jb) = if k1 == i { (k1, j1, k2, j2) } else { (k2, j2, k1, j1) };
                        assert(o[ka]@ == line@);
                        assert(o[kb] == out@[kb]);
                        if in_grid(g, (ka, ja)) {
                            if in_grid(g, (kb, jb)) {
                            } else {
                                assert(o[kb]@[jb].id >= self.next_id);
                                assert(g[ka][ja].id < self.next_id);
                            }
                        } else {
                            assert(o[ka]@[ja].id >= id0);
                        }
                    }
                }
            }
            out.push(line);
            i = i + 1;
        }
        let a = Arr2d { contents: out, next_id: id };
        proof {
            assert forall|k: int| 0 <= k < a@.len() implies #[trigger] a@[k].len() == a@[0].len() by {}
            assert forall|k: int, j: int| 0 <= k < height && 0 <= j < width implies if in_grid(self@, (k, j)) {
                    #[trigger] a@[k][j] == self@[k][j]
                } else {
                    a@[k][j].value == filler && a@[k][j].id >= self.id_bound()
                } by {
                assert(a@[k][j] == out@[k]@[j]);
            }
            assert forall|i1: int, j1: int, i2: int, j2: int|
                in_grid(a@, (i1, j1)) && in_grid(a@, (i2, j2)) && (i1 != i2 || j1 != j2)
                implies #[trigger] a@[i1][j1].id != #[trigger] a@[i2][j2].id by {
                assert(a@[i1][j1] == out@[i1]@[j1]);
                assert(a@[i2][j2] == out@[i2]@[j2]);
            }
            assert forall|k: int, j: int| 0 <= k < a@.len() && 0 <= j < a@[k].len() implies {
                &&& (#[trigger] a@[k][j]).row == k
                &&& a@[k][j].column == j
                &&& a@[k][j].id < id
            } by {
                assert(a@[k][j] == out@[k]@[j]);
            }
        }
        a
    }

    /// Whether two grids hold the same values, position by position.
    pub fn same_values(&self, other: &Arr2d<T>) -> (r: bool)
        ensures
            r == (self.values() == other.values()),
    {
        if self.contents.len() != other.contents.len() {
            assert(self.values().len() != other.values().len());
            return false;
        }
        let mut i: usize = 0;
        while i < self.contents.len()
            invariant
                self@.len() == other@.len(),
                i <= self@.len(),
                forall|k: int| 0 <= k < i ==> #[trigger] self.values()[k] == other.values()[k],
            decreases self@.len() - i,
        {
            if self.contents[i].len() != other.contents[i].len() {
                assert(self.values()[i as int].len() != other.values()[i as int].len());
                return false;
            }
            let mut j: usize = 0;
            while j < self.contents[i].len()
                invariant
                    self@.len() == other@.len(),
                    i < self@.len(),
                    self@[i as int].len() == other@[i as int].len(),
                    j <= self@[i as int].len(),
                    forall|l: int| 0 <= l < j ==> self@[i as int][l].value == other@[i as int][l].value,
                decreases self@[i as int].len() - j,
            {
                if !self.contents[i][j].value.same(&other.contents[i][j].value) {
                    assert(self.values()[i as int][j as int] != other.values()[i as int][j as int]);
                    return false;
                }
                j = j + 1;
            }
            assert(self.values()[i as int] =~= other.values()[i as int]);
            i = i + 1;
        }
        assert(self.values() =~= other.values());
        true
    }

    /// All cells, row by row.
    pub fn all_cells(&self) -> (r: Vec<Cell<T>>)
        requires
            self.wf(),
        ensures
            r@ == self@.flatten(),
    {
        let mut out: Vec<Cell<T>> = Vec::new();
        let mut i: usize = 0;
        while i < self.contents.len()
            invariant
                i <= self@.len(),
                out@ == self@.subrange(0, i as int).flatten(),
            decreases self@.len() - i,
        {
            let mut j: usize = 0;
            let ghost start = out@;
            while j < self.contents[i].len()
                invariant
                    i < self@.len(),
                    j <= self@[i as int].len(),
                    out@ == start + self@[i as int].subrange(0, j as int),
                decreases self@[i as int].len() - j,
            {
                out.push(self.contents[i][j]);
                proof {
                    assert(self@[i as int].subrange(0, j + 1) =~= self@[i as int].subrange(0, j as int).push(self@[i as int][j as int]));
                }
                j = j + 1;
            }
            proof {
                assert(self@.subrange(0, i + 1) =~= self@.subrange(0, i as int).push(self@[i as int]));
                self@.subrange(0, i as int).lemma_flatten_push(self@[i as int]);
                assert(self@[i as int].subrange(0, j as int) =~= self@[i as int]);
            }
            i = i + 1;
        }
        proof {
            assert(self@.subrange(0, i as int) =~= self@);
        }
        out
    }
}

} // verus!
