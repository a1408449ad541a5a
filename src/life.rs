//! Conway's game of life on a grid: each generation follows from the number of live cells
//! among the eight around each cell.

use vstd::prelude::*;
use crate::grid::{
    in_grid, parse_grid, values_of, Arr2d, Cell, CellValue, ParseError,
};
use crate::text::text_lines;

verus! {

#[derive(Debug, Clone, Copy, PartialEq, Eq, Structural)]
pub enum GolCell {
    Alive,
    Dead,
}

impl CellValue for GolCell {
    open spec fn glyph(self) -> char {
        match self {
            GolCell::Alive => 'x',
            GolCell::Dead => '-',
        }
    }

    open spec fn from_glyph(c: char) -> Option<GolCell> {
        if c == 'x' {
            Some(GolCell::Alive)
        } else if c == '-' {
            Some(GolCell::Dead)
        } else {
            None
        }
    }

    proof fn lemma_glyph_round_trip(self) {
    }

    fn to_char(&self) -> (c: char) {
        match self {
            GolCell::Alive => 'x',
            GolCell::Dead => '-',
        }
    }

    fn from_char(c: char) -> (r: Option<GolCell>) {
        if c == 'x' {
            Some(GolCell::Alive)
        } else if c == '-' {
            Some(GolCell::Dead)
        } else {
            None
        }
    }

    fn same(&self, other: &GolCell) -> (r: bool) {
        *self == *other
    }
}

/// 1 when (r, c) lies in the grid and is alive, else 0.
pub open spec fn alive_at(g: Seq<Seq<Cell<GolCell>>>, r: int, c: int) -> nat {
    if in_grid(g, (r, c)) && g[r][c].value == GolCell::Alive { 1 } else { 0 }
}

/// The live cells among the eight around (r, c).
pub open spec fn live_neighbours(g: Seq<Seq<Cell<GolCell>>>, r: int, c: int) -> nat {
    alive_at(g, r - 1, c - 1) + alive_at(g, r - 1, c) + alive_at(g, r - 1, c + 1) + alive_at(g, r, c - 1)
        + alive_at(g, r, c + 1) + alive_at(g, r + 1, c - 1) + alive_at(g, r + 1, c) + alive_at(g, r + 1, c + 1)
}

/// A live cell with two or three live neighbours lives on; a dead cell with three comes
/// alive; every other cell is dead in the next generation.
pub open spec fn next_state_of(cell: GolCell, n: int) -> GolCell {
    if cell == GolCell::Alive && (n == 2 || n == 3) {
        GolCell::Alive
    } else if cell == GolCell::Dead && n == 3 {
        GolCell::Alive
    } else {
        GolCell::Dead
    }
}

/// The values of the next generation.
pub open spec fn step(g: Seq<Seq<Cell<GolCell>>>) -> Seq<Seq<GolCell>> {
    Seq::new(g.len(), |i: int| Seq::new(g[i].len(), |j: int| next_state_of(g[i][j].value, live_neighbours(g, i, j) as int)))
}

/// A game of life: the current generation, and a second grid of the same shape that the
/// next generation is written into.
#[derive(Debug)]
pub struct GameOfLife {
    current: Arr2d<GolCell>,
    spare: Arr2d<GolCell>,
}

impl GameOfLife {
    pub closed spec fn state(&self) -> Seq<Seq<Cell<GolCell>>> {
        self.current@
    }

    pub closed spec fn wf(&self) -> bool {
        &&& self.current.wf()
        &&& self.spare.wf()
        &&& self.current@.len() == self.spare@.len()
        &&& forall|i: int| 0 <= i < self.current@.len() ==> #[trigger] self.current@[i].len() == self.spare@[i].len()
    }

    pub closed spec fn id_room(&self, cells: int) -> bool {
        &&& self.current.id_bound() + cells < u64::MAX
        &&& self.spare.id_bound() + cells < u64::MAX
    }

    /// Whether both grids can give `width * height` new cells fresh identities, as `expand`
    /// needs.
    pub fn has_id_room(&self, width: usize, height: usize) -> (r: bool)
        ensures
            r == self.id_room(width * height),
    {
        let cells = match (width as u64).checked_mul(height as u64) {
            Some(c) => c,
            None => return false,
        };
        self.current.next_id() < u64::MAX - cells && self.spare.next_id() < u64::MAX - cells
    }

    pub fn next_state(state: (GolCell, u8)) -> (c: GolCell)
        ensures
            c == next_state_of(state.0, state.1 as int),
    {
        match state {
            (GolCell::Alive, 2) | (GolCell::Alive, 3) => GolCell::Alive,
            (GolCell::Dead, 3) => GolCell::Alive,
            _ => GolCell::Dead,
        }
    }

    /// A game read from text: each non-blank line, trimmed, is a row.
    pub fn from_str(as_str: &str) -> (r: Result<GameOfLife, ParseError>)
        ensures
            parse_grid::<GolCell>(text_lines(as_str@)) is Err ==> r is Err && r->Err_0 == parse_grid::<GolCell>(text_lines(as_str@))->Err_0,
            parse_grid::<GolCell>(text_lines(as_str@)) is Ok ==> r is Ok && r->Ok_0.wf() && values_of(r->Ok_0.state()) == parse_grid::<GolCell>(text_lines(as_str@))->Ok_0,
    {
        let current = match Arr2d::from_str(as_str) {
            Ok(b) => b,
            Err(e) => return Err(e),
        };
        let spare = match Arr2d::from_str(as_str) {
            Ok(b) => b,
            Err(e) => return Err(e),
        };
        let r = GameOfLife { current, spare };
        proof {
            assert(r.current.values() == r.spare.values());
            assert(r.current@.len() == r.current.values().len());
            assert(r.spare@.len() == r.spare.values().len());
            assert forall|i: int| 0 <= i < r.current@.len() implies #[trigger] r.current@[i].len() == r.spare@[i].len() by {
                assert(r.current.values()[i].len() == r.current@[i].len());
                assert(r.spare.values()[i].len() == r.spare@[i].len());
            }
        }
        Ok(r)
    }

    /// The current generation as text.
    pub fn to_str(&self) -> (r: String)
        requires
            self.wf(),
        ensures
            r@ == crate::grid::lines_text(crate::grid::glyph_rows(values_of(self.state()))),
    {
        self.current.to_str()
    }

    pub fn current_state(&self) -> (a: &Arr2d<GolCell>)
        ensures
            a@ == self.state(),
    {
        &self.current
    }

    /// Resizes the game to `height` rows of `width` cells; new cells are dead. The grids must
    /// have room for the new identities (see `has_id_room`).
    pub fn expand(&mut self, width: usize, height: usize)
        requires
            old(self).wf(),
            old(self).id_room(width * height),
        ensures
            final(self).wf(),
            final(self).state().len() == height,
            forall|i: int| 0 <= i < height ==> #[trigger] final(self).state()[i].len() == width,
            forall|i: int, j: int|
                0 <= i < height && 0 <= j < width ==> #[trigger] final(self).state()[i][j].value == if in_grid(old(self).state(), (i, j)) {
                    old(self).state()[i][j].value
                } else {
                    GolCell::Dead
                },
    {
        self.current = self.current.expand(width, height, GolCell::Dead);
        self.spare = self.spare.expand(width, height, GolCell::Dead);
    }

    /// The live cells among the eight around (r, c).
    fn count_neighbours(arr2d: &Arr2d<GolCell>, r: usize, c: usize) -> (n: u8)
        requires
            arr2d.wf(),
            in_grid(arr2d@, (r as int, c as int)),
        ensures
            n == live_neighbours(arr2d@, r as int, c as int),
    {
        let ghost g = arr2d@;
        let rows = arr2d.rows();
        let columns = arr2d.columns(r);
        assert(forall|i: int| 0 <= i < g.len() ==> #[trigger] g[i].len() == columns);
        let top = r > 0;
        let left = c > 0;
        let bottom = r < rows - 1;
        let right = c < columns - 1;
        let mut n: u8 = 0;
        if top && left && arr2d.get(r - 1, c - 1).unwrap() == GolCell::Alive {
            n = n + 1;
        }
        if top && arr2d.get(r - 1, c).unwrap() == GolCell::Alive {
            n = n + 1;
        }
        if top && right && arr2d.get(r - 1, c + 1).unwrap() == GolCell::Alive {
            n = n + 1;
        }
        if left && arr2d.get(r, c - 1).unwrap() == GolCell::Alive {
            n = n + 1;
        }
        if right && arr2d.get(r, c + 1).unwrap() == GolCell::Alive {
            n = n + 1;
        }
        if bottom && left && arr2d.get(r + 1, c - 1).unwrap() == GolCell::Alive {
            n = n + 1;
        }
        if bottom && arr2d.get(r + 1, c).unwrap() == GolCell::Alive {
            n = n + 1;
        }
        if bottom && right && arr2d.get(r + 1, c + 1).unwrap() == GolCell::Alive {
            n = n + 1;
        }
        n
    }

    /// Moves the game one generation on.
    pub fn iterate(&mut self)
        requires
            old(self).wf(),
        ensures
            final(self).wf(),
            values_of(final(self).state()) == step(old(self).state()),
    {
        let ghost g = self.current@;
        let mut r: usize = 0;
        while r < self.current.rows()
            invariant
                self.wf(),
                g == self.current@,
                r <= g.len(),
                forall|i: int, j: int| 0 <= i < r && 0 <= j < g[i].len() ==> #[trigger] self.spare@[i][j].value == next_state_of(g[i][j].value, live_neighbours(g, i, j) as int),
            decreases g.len() - r,
        {
            let mut c: usize = 0;
            while c < self.current.columns(r)
                invariant
                    self.wf(),
                    g == self.current@,
                    r < g.len(),
                    c <= g[r as int].len(),
                    forall|i: int, j: int| 0 <= i < r && 0 <= j < g[i].len() ==> #[trigger] self.spare@[i][j].value == next_state_of(g[i][j].value, live_neighbours(g, i, j) as int),
                    forall|j: int| 0 <= j < c ==> #[trigger] self.spare@[r as int][j].value == next_state_of(g[r as int][j].value, live_neighbours(g, r as int, j) as int),
                decreases g[r as int].len() - c,
            {
                let n = Self::count_neighbours(&self.current, r, c);
                let v = self.current.get(r, c).unwrap();
                let _ = self.spare.set(r, c, Self::next_state((v, n)));
                c = c + 1;
            }
            r = r + 1;
        }
        std::mem::swap(&mut self.current, &mut self.spare);
        proof {
            assert forall|i: int| 0 <= i < g.len() implies #[trigger] values_of(self.current@)[i] =~= step(g)[i] by {}
            assert(values_of(self.current@) =~= step(g));
        }
    }
}

/// Two games are equal when their current generations hold the same values.
impl PartialEq for GameOfLife {
    fn eq(&self, other: &GameOfLife) -> (r: bool) {
        self.current.same_values(&other.current)
    }
}

impl vstd::std_specs::cmp::PartialEqSpecImpl for GameOfLife {
    open spec fn obeys_eq_spec() -> bool {
        true
    }

    open spec fn eq_spec(&self, other: &GameOfLife) -> bool {
        values_of(self.state()) == values_of(other.state())
    }
}

} // verus!
