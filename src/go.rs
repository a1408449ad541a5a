//! A turn-based stone game on a grid: stones are placed one at a time, groups without
//! liberties are captured, and suicide and immediate recapture (ko) are refused.

use vstd::prelude::*;
use crate::grid::{
    adjacent, cell_pos, distinct, fits, glyph_rows, has_pos, in_grid, in_perimeter, is_rectangular,
    lemma_lines_text_concat, lemma_parse_glyph_rows, lemma_reach_value, lemma_split_lines_text,
    lines_text, marked, parse_grid, pos_of, reachable, value_at, values_of, width_of, Arr2d, Cell,
    CellValue, GridError, ParseError, Pos,
};
use crate::text::{
    chars_between, chars_of, is_ws, lemma_clean_nonempty, lemma_clean_plain, lemma_nat_text,
    lines_of, nat_text, parse_count, push_char, push_chars, push_decimal, read_count, split_lines,
    text_lines, views,
};

verus! {

#[derive(Debug, Clone, Copy, PartialEq, Eq, Structural)]
pub enum GoPlayer {
    White,
    Black,
}

/// What became of the last move.
#[derive(Debug, Clone, Copy, PartialEq, Eq, Structural)]
pub enum LastMove {
    Legal,
    IllegalKo,
    IllegalSuicidal,
}

/// The content of one point of the board. A pending stone is placed but not yet validated.
#[derive(Debug, Clone, Copy, PartialEq, Eq, Structural)]
pub enum GoCell {
    White,
    WhitePending,
    Black,
    BlackPending,
    Empty,
}

/// Why a move is refused.
#[derive(Debug, Clone, Copy, PartialEq, Eq, Structural)]
pub enum IllegalReason {
    /// The point is taken or lies off the board.
    Occupied,
    /// The move would repeat one of the two latest captures.
    Ko,
    /// The stone would have no liberty and capture nothing.
    Suicidal,
}

#[derive(Debug, Clone, Copy, PartialEq, Eq, Structural)]
pub enum GoBoardError {
    IllegalMove(IllegalReason),
    /// A stone that belongs to no player: never returned by a well-formed board.
    InvalidPlayer,
    NoPendingFound,
    WrongPlayerTurn,
}

pub open spec fn other_player(p: GoPlayer) -> GoPlayer {
    match p {
        GoPlayer::White => GoPlayer::Black,
        GoPlayer::Black => GoPlayer::White,
    }
}

pub open spec fn stone_of(p: GoPlayer) -> GoCell {
    match p {
        GoPlayer::White => GoCell::White,
        GoPlayer::Black => GoCell::Black,
    }
}

pub open spec fn pending_of(p: GoPlayer) -> GoCell {
    match p {
        GoPlayer::White => GoCell::WhitePending,
        GoPlayer::Black => GoCell::BlackPending,
    }
}

pub open spec fn owner_of(c: GoCell) -> Option<GoPlayer> {
    match c {
        GoCell::White | GoCell::WhitePending => Some(GoPlayer::White),
        GoCell::Black | GoCell::BlackPending => Some(GoPlayer::Black),
        GoCell::Empty => None,
    }
}

pub open spec fn is_pending(c: GoCell) -> bool {
    c == GoCell::WhitePending || c == GoCell::BlackPending
}

impl GoPlayer {
    pub fn other(&self) -> (r: GoPlayer)
        ensures
            r == other_player(*self),
    {
        match *self {
            GoPlayer::White => GoPlayer::Black,
            GoPlayer::Black => GoPlayer::White,
        }
    }

    /// The pending stone of this player.
    pub fn into_pending(self) -> (c: GoCell)
        ensures
            c == pending_of(self),
    {
        match self {
            GoPlayer::White => GoCell::WhitePending,
            GoPlayer::Black => GoCell::BlackPending,
        }
    }

    /// The settled stone of this player.
    pub fn stone(self) -> (c: GoCell)
        ensures
            c == stone_of(self),
    {
        match self {
            GoPlayer::White => GoCell::White,
            GoPlayer::Black => GoCell::Black,
        }
    }
}

impl GoCell {
    /// The player a stone belongs to, pending or not.
    pub fn player(&self) -> (r: Option<GoPlayer>)
        ensures
            r == owner_of(*self),
    {
        match self {
            GoCell::White => Some(GoPlayer::White),
            GoCell::WhitePending => Some(GoPlayer::White),
            GoCell::Black => Some(GoPlayer::Black),
            GoCell::BlackPending => Some(GoPlayer::Black),
            GoCell::Empty => None,
        }
    }
}

impl CellValue for GoCell {
    open spec fn glyph(self) -> char {
        match self {
            GoCell::White => 'W',
            GoCell::WhitePending => 'w',
            GoCell::Black => 'B',
            GoCell::BlackPending => 'b',
            GoCell::Empty => '-',
        }
    }

    open spec fn from_glyph(c: char) -> Option<GoCell> {
        if c == 'W' {
            Some(GoCell::White)
        } else if c == 'w' {
            Some(GoCell::WhitePending)
        } else if c == 'B' {
            Some(GoCell::Black)
        } else if c == 'b' {
            Some(GoCell::BlackPending)
        } else if c == '-' {
            Some(GoCell::Empty)
        } else {
            None
        }
    }

    proof fn lemma_glyph_round_trip(self) {
    }

    fn to_char(&self) -> (c: char) {
        match self {
            GoCell::White => 'W',
            GoCell::WhitePending => 'w',
            GoCell::Black => 'B',
            GoCell::BlackPending => 'b',
            GoCell::Empty => '-',
        }
    }

    fn from_char(c: char) -> (r: Option<GoCell>) {
        if c == 'W' {
            Some(GoCell::White)
        } else if c == 'w' {
            Some(GoCell::WhitePending)
        } else if c == 'B' {
            Some(GoCell::Black)
        } else if c == 'b' {
            Some(GoCell::BlackPending)
        } else if c == '-' {
            Some(GoCell::Empty)
        } else {
            None
        }
    }

    fn same(&self, other: &GoCell) -> (r: bool) {
        *self == *other
    }
}

/// `q` comes before `p` when the board is read row by row.
pub open spec fn before(q: Pos, p: Pos) -> bool {
    q.0 < p.0 || (q.0 == p.0 && q.1 < p.1)
}

/// `p` holds the first pending stone of the board, read row by row.
pub open spec fn first_pending(g: Seq<Seq<Cell<GoCell>>>, p: Pos) -> bool {
    &&& in_grid(g, p)
    &&& is_pending(value_at(g, p))
    &&& forall|q: Pos| in_grid(g, q) && before(q, p) ==> !is_pending(#[trigger] value_at(g, q))
}

pub open spec fn no_pending(g: Seq<Seq<Cell<GoCell>>>) -> bool {
    forall|q: Pos| in_grid(g, q) ==> !is_pending(#[trigger] value_at(g, q))
}

/// The group at `n` touches an empty point.
pub open spec fn has_liberty(g: Seq<Seq<Cell<GoCell>>>, n: Pos) -> bool {
    exists|q: Pos| #[trigger] in_perimeter(g, n, q) && value_at(g, q) == GoCell::Empty
}

/// `x` belongs to a group of `opponent` next to `p` that has no liberty.
pub open spec fn captured(g: Seq<Seq<Cell<GoCell>>>, p: Pos, opponent: GoPlayer, x: Pos) -> bool {
    exists|n: Pos|
        #![trigger reachable(g, n, x)]
        in_grid(g, n) && adjacent(p, n) && value_at(g, n) == stone_of(opponent) && !has_liberty(g, n)
            && reachable(g, n, x)
}

/// Whether each point of the board is captured by a stone at `p`.
pub open spec fn capture_mask(g: Seq<Seq<Cell<GoCell>>>, p: Pos, opponent: GoPlayer) -> Seq<Seq<bool>> {
    Seq::new(g.len(), |i: int| Seq::new(g[i].len(), |j: int| captured(g, p, opponent, (i, j))))
}

/// The marked positions of row `i`, among its first `j` columns, left to right.
pub open spec fn marked_in_row(r: Seq<bool>, i: int, j: int) -> Seq<Pos>
    decreases j,
{
    if j <= 0 {
        Seq::empty()
    } else if r[j - 1] {
        marked_in_row(r, i, j - 1).push((i, j - 1))
    } else {
        marked_in_row(r, i, j - 1)
    }
}

/// The marked positions of the first `i` rows, read row by row.
pub open spec fn marked_upto(m: Seq<Seq<bool>>, i: int) -> Seq<Pos>
    decreases i,
{
    if i <= 0 {
        Seq::empty()
    } else {
        marked_upto(m, i - 1) + marked_in_row(m[i - 1], i - 1, m[i - 1].len() as int)
    }
}

/// The marked positions, read row by row.
pub open spec fn marked_list(m: Seq<Seq<bool>>) -> Seq<Pos> {
    marked_upto(m, m.len() as int)
}

/// "row,column".
pub open spec fn pos_text(p: Pos) -> Seq<char> {
    crate::text::nat_text(p.0 as nat) + seq![','] + crate::text::nat_text(p.1 as nat)
}

/// The positions as text, joined by `-`.
pub open spec fn signature(ps: Seq<Pos>) -> Seq<char>
    decreases ps.len(),
{
    if ps.len() == 0 {
        Seq::empty()
    } else if ps.len() == 1 {
        pos_text(ps[0])
    } else {
        signature(ps.drop_last()) + seq!['-'] + pos_text(ps.last())
    }
}

/// The recent capture signatures after one more is recorded: at most the last two stay.
pub open spec fn record(h: Seq<Seq<char>>, s: Seq<char>) -> Seq<Seq<char>> {
    let h2 = h.push(s);
    if h2.len() > 2 {
        h2.subrange(h2.len() - 2, h2.len() as int)
    } else {
        h2
    }
}


pub open spec fn mask_view(m: Seq<Vec<bool>>) -> Seq<Seq<bool>> {
    m.map_values(|r: Vec<bool>| r@)
}

/// Some point next to `p` is empty.
pub open spec fn empty_neighbour(g: Seq<Seq<Cell<GoCell>>>, p: Pos) -> bool {
    exists|q: Pos| in_grid(g, q) && #[trigger] adjacent(p, q) && value_at(g, q) == GoCell::Empty
}

/// The board with the value at `p` replaced.
pub open spec fn with_value(g: Seq<Seq<Cell<GoCell>>>, p: Pos, v: GoCell) -> Seq<Seq<Cell<GoCell>>> {
    g.update(p.0, g[p.0].update(p.1, Cell { value: v, ..g[p.0][p.1] }))
}

/// The board after a stone of `who` settles at `p` and the marked points are cleared.
pub open spec fn settled(g: Seq<Seq<Cell<GoCell>>>, p: Pos, caps: Seq<Seq<bool>>, who: GoPlayer) -> Seq<Seq<Cell<GoCell>>> {
    Seq::new(
        g.len(),
        |i: int|
            Seq::new(
                g[i].len(),
                |j: int|
                    Cell {
                        value: if (i, j) == p {
                            stone_of(who)
                        } else if caps[i][j] {
                            GoCell::Empty
                        } else {
                            g[i][j].value
                        },
                        ..g[i][j]
                    },
            ),
    )
}

/// The board with the marked points emptied.
pub open spec fn settled_except(g: Seq<Seq<Cell<GoCell>>>, caps: Seq<Seq<bool>>) -> Seq<Seq<Cell<GoCell>>> {
    Seq::new(
        g.len(),
        |i: int| Seq::new(g[i].len(), |j: int| if caps[i][j] { Cell { value: GoCell::Empty, ..g[i][j] } } else { g[i][j] }),
    )
}

/// The points captured by a stone at `p`, read row by row.
pub open spec fn capture_list(g: Seq<Seq<Cell<GoCell>>>, p: Pos, opponent: GoPlayer) -> Seq<Pos> {
    marked_list(capture_mask(g, p, opponent))
}

/// The value of a `key=value` line whose key is `name`: the line holds exactly one `=`.
pub open spec fn read_kv(line: Seq<char>, name: Seq<char>) -> Option<Seq<char>> {
    if line.len() > name.len() && line.subrange(0, name.len() as int) == name && line[name.len() as int] == '='
        && !line.subrange(name.len() + 1 as int, line.len() as int).contains('=') {
        Some(line.subrange(name.len() + 1 as int, line.len() as int))
    } else {
        None
    }
}

pub open spec fn turn_key() -> Seq<char> {
    seq!['t', 'u', 'r', 'n']
}

pub open spec fn last_move_key() -> Seq<char> {
    seq!['l', 'a', 's', 't', '_', 'm', 'o', 'v', 'e']
}

pub open spec fn white_key() -> Seq<char> {
    seq!['c', 'a', 'p', 't', 'u', 'r', 'e', 's', 'W']
}

pub open spec fn black_key() -> Seq<char> {
    seq!['c', 'a', 'p', 't', 'u', 'r', 'e', 's', 'B']
}

/// The text of each move status.
pub open spec fn status_text(m: LastMove) -> Seq<char> {
    match m {
        LastMove::Legal => seq!['o', 'k'],
        LastMove::IllegalKo => seq!['i', 'l', 'l', 'e', 'g', 'a', 'l', '_', 'k', 'o'],
        LastMove::IllegalSuicidal => seq!['i', 'l', 'l', 'e', 'g', 'a', 'l', '_', 's', 'u', 'i', 'c', 'i', 'd', 'a', 'l'],
    }
}

pub open spec fn player_glyph(p: GoPlayer) -> char {
    match p {
        GoPlayer::White => 'W',
        GoPlayer::Black => 'B',
    }
}

/// The `turn=` line: its value's first character names the player.
pub open spec fn parse_turn(line: Seq<char>) -> Result<GoPlayer, ParseError> {
    match read_kv(line, turn_key()) {
        None => Err(ParseError::InvalidValue),
        Some(v) => if v.len() == 0 {
            Err(ParseError::NotEnoughChars)
        } else if v[0] == 'W' {
            Ok(GoPlayer::White)
        } else if v[0] == 'B' {
            Ok(GoPlayer::Black)
        } else {
            Err(ParseError::InvalidCharacter)
        },
    }
}

pub open spec fn parse_status(line: Seq<char>) -> Result<LastMove, ParseError> {
    match read_kv(line, last_move_key()) {
        None => Err(ParseError::InvalidValue),
        Some(v) => if v == status_text(LastMove::Legal) {
            Ok(LastMove::Legal)
        } else if v == status_text(LastMove::IllegalKo) {
            Ok(LastMove::IllegalKo)
        } else if v == status_text(LastMove::IllegalSuicidal) {
            Ok(LastMove::IllegalSuicidal)
        } else {
            Err(ParseError::InvalidValue)
        },
    }
}

pub open spec fn parse_captures(line: Seq<char>, key: Seq<char>) -> Result<u64, ParseError> {
    match read_kv(line, key) {
        None => Err(ParseError::InvalidValue),
        Some(v) => match parse_count(v) {
            None => Err(ParseError::InvalidValue),
            Some(n) => Ok(n),
        },
    }
}

/// What a board text holds, line by line: turn, last move, white's and black's captures,
/// and the board's values; or the first error met.
pub open spec fn parse_board(lines: Seq<Seq<char>>) -> Result<(GoPlayer, LastMove, u64, u64, Seq<Seq<GoCell>>), ParseError> {
    if lines.len() <= 4 {
        Err(ParseError::NotEnoughLines)
    } else {
        match parse_turn(lines[0]) {
            Err(e) => Err(e),
            Ok(t) => match parse_status(lines[1]) {
                Err(e) => Err(e),
                Ok(m) => match parse_captures(lines[2], white_key()) {
                    Err(e) => Err(e),
                    Ok(w) => match parse_captures(lines[3], black_key()) {
                        Err(e) => Err(e),
                        Ok(b) => match parse_grid::<GoCell>(lines.subrange(4, lines.len() as int)) {
                            Err(e) => Err(e),
                            Ok(g) => Ok((t, m, w, b, g)),
                        },
                    },
                },
            },
        }
    }
}

/// The text of a board: four `key=value` lines, then one line per row.
pub open spec fn board_text(t: GoPlayer, m: LastMove, w: u64, b: u64, g: Seq<Seq<GoCell>>) -> Seq<char> {
    turn_key() + seq!['=', player_glyph(t), '\n'] + last_move_key() + seq!['='] + status_text(m) + seq!['\n']
        + white_key() + seq!['='] + nat_text(w as nat) + seq!['\n'] + black_key() + seq!['='] + nat_text(b as nat)
        + seq!['\n'] + lines_text(glyph_rows(g))
}

fn same_chars(a: &Vec<char>, b: &Vec<char>) -> (r: bool)
    ensures
        r == (a@ == b@),
{
    if a.len() != b.len() {
        return false;
    }
    let mut i: usize = 0;
    while i < a.len()
        invariant
            a@.len() == b@.len(),
            i <= a@.len(),
            forall|k: int| 0 <= k < i ==> a@[k] == b@[k],
        decreases a@.len() - i,
    {
        if a[i] != b[i] {
            return false;
        }
        i = i + 1;
    }
    assert(a@ =~= b@);
    true
}

/// The state of a game: whose turn it is, what became of the last move, how many stones
/// each player has captured, the signatures of the two latest captures, and the board.
#[derive(Debug)]
pub struct GoBoard {
    whos_turn: GoPlayer,
    last_move: LastMove,
    white_captures: u64,
    black_captures: u64,
    last_captures: Vec<String>,
    board: Arr2d<GoCell>,
}

impl GoBoard {
    pub closed spec fn turn(&self) -> GoPlayer {
        self.whos_turn
    }

    pub closed spec fn status(&self) -> LastMove {
        self.last_move
    }

    pub closed spec fn captures_of(&self, p: GoPlayer) -> u64 {
        match p {
            GoPlayer::White => self.white_captures,
            GoPlayer::Black => self.black_captures,
        }
    }

    /// The signatures of the latest captures, oldest first.
    pub closed spec fn recent(&self) -> Seq<Seq<char>> {
        self.last_captures@.map_values(|s: String| s@)
    }

    pub closed spec fn grid(&self) -> Seq<Seq<Cell<GoCell>>> {
        self.board@
    }

    pub closed spec fn grid_bound(&self) -> u64 {
        self.board.id_bound()
    }

    pub open spec fn wf(&self) -> bool {
        &&& crate::grid::well_formed(self.grid(), self.grid_bound())
        &&& self.recent().len() <= 2
    }

    /// A move at `p` refused: the point is emptied and the reason recorded, nothing else moves.
    pub open spec fn refused(&self, g: Seq<Seq<Cell<GoCell>>>, p: Pos, status: LastMove, after: GoBoard) -> bool {
        &&& after.grid() == with_value(g, p, GoCell::Empty)
        &&& after.status() == status
        &&& after.turn() == self.turn()
        &&& after.captures_of(GoPlayer::White) == self.captures_of(GoPlayer::White)
        &&& after.captures_of(GoPlayer::Black) == self.captures_of(GoPlayer::Black)
        &&& after.recent() == self.recent()
        &&& after.grid_bound() == self.grid_bound()
    }

    /// What resolving the pending stone at `p` of the board `g` yields, from this state's turn,
    /// counters and capture history: the result `r` and the state `after`.
    pub open spec fn resolves(&self, g: Seq<Seq<Cell<GoCell>>>, p: Pos, r: Result<(), GoBoardError>, after: GoBoard) -> bool {
        let who = owner_of(value_at(g, p))->Some_0;
        let opp = other_player(who);
        let caps = capture_list(g, p, opp);
        let sig = signature(caps);
        if who != self.turn() {
            &&& r == Err::<(), GoBoardError>(GoBoardError::WrongPlayerTurn)
            &&& after.grid() == g
            &&& after.status() == self.status()
            &&& after.turn() == self.turn()
            &&& after.captures_of(GoPlayer::White) == self.captures_of(GoPlayer::White)
            &&& after.captures_of(GoPlayer::Black) == self.captures_of(GoPlayer::Black)
            &&& after.recent() == self.recent()
            &&& after.grid_bound() == self.grid_bound()
        } else if caps.len() > 0 && self.recent().contains(sig) {
            r == Err::<(), GoBoardError>(GoBoardError::IllegalMove(IllegalReason::Ko))
                && self.refused(g, p, LastMove::IllegalKo, after)
        } else if caps.len() == 0 && !empty_neighbour(g, p) {
            r == Err::<(), GoBoardError>(GoBoardError::IllegalMove(IllegalReason::Suicidal))
                && self.refused(g, p, LastMove::IllegalSuicidal, after)
        } else {
            &&& r == Ok::<(), GoBoardError>(())
            &&& after.grid() == settled(g, p, capture_mask(g, p, opp), who)
            &&& after.status() == LastMove::Legal
            &&& after.turn() == opp
            &&& after.captures_of(who) == self.captures_of(who) + caps.len()
            &&& after.captures_of(opp) == self.captures_of(opp)
            &&& after.recent() == if caps.len() > 0 { record(self.recent(), sig) } else { self.recent() }
            &&& after.grid_bound() == self.grid_bound()
        }
    }

    /// The counter of the player to move can take every stone of the board.
    pub open spec fn room_to_count(&self) -> bool {
        self.captures_of(self.turn()) + self.grid().len() * width_of(self.grid()) <= u64::MAX
    }

    /// The first pending stone, reading the board row by row.
    fn locate_pending(&self) -> (r: Option<(usize, usize)>)
        requires
            self.wf(),
        ensures
            r is None ==> no_pending(self.grid()),
            r is Some ==> first_pending(self.grid(), pos_of(r->Some_0)),
    {
        let ghost g = self.grid();
        let mut i: usize = 0;
        while i < self.board.rows()
            invariant
                self.wf(),
                g == self.grid(),
                i <= g.len(),
                forall|q: Pos| in_grid(g, q) && q.0 < i ==> !is_pending(#[trigger] value_at(g, q)),
            decreases g.len() - i,
        {
            let mut j: usize = 0;
            while j < self.board.columns(i)
                invariant
                    self.wf(),
                    g == self.grid(),
                    i < g.len(),
                    j <= g[i as int].len(),
                    forall|q: Pos| in_grid(g, q) && (q.0 < i || (q.0 == i && q.1 < j)) ==> !is_pending(#[trigger] value_at(g, q)),
                decreases g[i as int].len() - j,
            {
                let v = self.board.get(i, j).unwrap();
                if v == GoCell::WhitePending || v == GoCell::BlackPending {
                    return Some((i, j));
                }
                j = j + 1;
            }
            i = i + 1;
        }
        None
    }

    /// Whether the group at (row, column) touches an empty point.
    pub fn has_liberties(&self, row: usize, column: usize) -> (r: Result<bool, GridError>)
        requires
            self.wf(),
        ensures
            in_grid(self.grid(), (row as int, column as int)) <==> r is Ok,
            r is Ok ==> r->Ok_0 == has_liberty(self.grid(), (row as int, column as int)),
            r is Err ==> r->Err_0 == GridError::InvalidIndex,
    {
        if row >= self.board.rows() || column >= self.board.columns(row) {
            return Err(GridError::InvalidIndex);
        }
        let ghost g = self.grid();
        let ghost s: Pos = (row as int, column as int);
        let ps = self.board.perimeter_positions(row, column);
        let mut k: usize = 0;
        while k < ps.len()
            invariant
                self.wf(),
                g == self.grid(),
                k <= ps@.len(),
                s == (row as int, column as int),
                in_grid(g, s),
                forall|l: int| 0 <= l < ps@.len() ==> in_perimeter(g, s, pos_of(#[trigger] ps@[l])),
                forall|l: int| 0 <= l < k ==> value_at(g, pos_of(#[trigger] ps@[l])) != GoCell::Empty,
            decreases ps@.len() - k,
        {
            let q = ps[k];
            assert(in_perimeter(g, s, pos_of(ps@[k as int])));
            if self.board.get(q.0, q.1).unwrap() == GoCell::Empty {
                assert(in_perimeter(g, s, pos_of(q)) && value_at(g, pos_of(q)) == GoCell::Empty);
                return Ok(true);
            }
            k = k + 1;
        }
        proof {
            assert forall|q: Pos| #[trigger] in_perimeter(g, s, q) implies value_at(g, q) != GoCell::Empty by {
                assert(has_pos(ps@, q));
                let l = choose|l: int| 0 <= l < ps@.len() && pos_of(#[trigger] ps@[l]) == q;
            }
        }
        Ok(false)
    }

    /// The empty points that touch the group at (row, column), each once.
    pub fn get_liberties(&self, row: usize, column: usize) -> (r: Result<Vec<Cell<GoCell>>, GridError>)
        requires
            self.wf(),
        ensures
            in_grid(self.grid(), (row as int, column as int)) <==> r is Ok,
            r is Err ==> r->Err_0 == GridError::InvalidIndex,
            r is Ok ==> {
                let cells = r->Ok_0@;
                &&& distinct(cells.map_values(|c: Cell<GoCell>| cell_pos(c)))
                &&& forall|k: int|
                    0 <= k < cells.len() ==> {
                        &&& in_perimeter(self.grid(), (row as int, column as int), cell_pos(#[trigger] cells[k]))
                        &&& cells[k].value == GoCell::Empty
                        &&& cells[k] == self.grid()[cells[k].row as int][cells[k].column as int]
                    }
                &&& forall|q: Pos|
                    in_perimeter(self.grid(), (row as int, column as int), q) && value_at(self.grid(), q) == GoCell::Empty
                        ==> exists|k: int| 0 <= k < cells.len() && #[trigger] cell_pos(cells[k]) == q
            },
    {
        let ghost g = self.grid();
        let ghost s: Pos = (row as int, column as int);
        let all = match self.board.get_perimeter(row, column) {
            Ok(c) => c,
            Err(e) => return Err(e),
        };
        let mut out: Vec<Cell<GoCell>> = Vec::new();
        let ghost idx: Seq<int> = Seq::empty();
        let mut k: usize = 0;
        while k < all.len()
            invariant
                g == self.grid(),
                k <= all@.len(),
                distinct(all@.map_values(|c: Cell<GoCell>| cell_pos(c))),
                forall|l: int| 0 <= l < all@.len() ==> {
                    &&& in_perimeter(g, s, cell_pos(#[trigger] all@[l]))
                    &&& all@[l] == g[all@[l].row as int][all@[l].column as int]
                },
                idx.len() == out@.len(),
                forall|m: int| 0 <= m < idx.len() ==> 0 <= #[trigger] idx[m] < k && out@[m] == all@[idx[m]],
                forall|m1: int, m2: int| 0 <= m1 < m2 < idx.len() ==> #[trigger] idx[m1] < #[trigger] idx[m2],
                forall|m: int| 0 <= m < out@.len() ==> (#[trigger] out@[m]).value == GoCell::Empty,
                forall|l: int| 0 <= l < k && (#[trigger] all@[l]).value == GoCell::Empty ==> exists|m: int| 0 <= m < out@.len() && #[trigger] cell_pos(out@[m]) == cell_pos(all@[l]),
            decreases all@.len() - k,
        {
            let c = all[k];
            if c.value == GoCell::Empty {
                let ghost old_out = out@;
                out.push(c);
                proof {
                    idx = idx.push(k as int);
                    assert(cell_pos(out@[out@.len() - 1]) == cell_pos(all@[k as int]));
                    assert forall|l: int| 0 <= l < k + 1 && (#[trigger] all@[l]).value == GoCell::Empty implies exists|m: int| 0 <= m < out@.len() && #[trigger] cell_pos(out@[m]) == cell_pos(all@[l]) by {
                        if l < k {
                            let m = choose|m: int| 0 <= m < old_out.len() && #[trigger] cell_pos(old_out[m]) == cell_pos(all@[l]);
                            assert(out@[m] == old_out[m]);
                        } else {
                            assert(cell_pos(out@[out@.len() - 1]) == cell_pos(all@[l]));
                        }
                    }
                }
            }
            k = k + 1;
        }
        proof {
            let cp = out@.map_values(|c: Cell<GoCell>| cell_pos(c));
            let ap = all@.map_values(|c: Cell<GoCell>| cell_pos(c));
            assert forall|m1: int, m2: int| 0 <= m1 < cp.len() && 0 <= m2 < cp.len() && m1 != m2 implies cp[m1] != cp[m2] by {
                if m1 < m2 {
                    assert(idx[m1] < idx[m2]);
                } else {
                    assert(idx[m2] < idx[m1]);
                }
                assert(ap[idx[m1]] != ap[idx[m2]]);
            }
            assert forall|k2: int| 0 <= k2 < out@.len() implies {
                &&& in_perimeter(g, s, cell_pos(#[trigger] out@[k2]))
                &&& out@[k2].value == GoCell::Empty
                &&& out@[k2] == g[out@[k2].row as int][out@[k2].column as int]
            } by {
                assert(out@[k2] == all@[idx[k2]]);
            }
            assert forall|q: Pos| in_perimeter(g, s, q) && value_at(g, q) == GoCell::Empty
                implies exists|m: int| 0 <= m < out@.len() && #[trigger] cell_pos(out@[m]) == q by {
                let l = choose|l: int| 0 <= l < all@.len() && #[trigger] cell_pos(all@[l]) == q;
                assert(all@[l].value == GoCell::Empty);
            }
        }
        Ok(out)
    }
}


/// Some neighbour among the first `k` of `nbrs` holds a stone of `opponent` whose group has
/// no liberty and reaches `x`.
pub open spec fn caught_by(g: Seq<Seq<Cell<GoCell>>>, nbrs: Seq<(usize, usize)>, k: int, opponent: GoPlayer, x: Pos) -> bool {
    exists|l: int|
        0 <= l < k && value_at(g, pos_of(#[trigger] nbrs[l])) == stone_of(opponent) && !has_liberty(g, pos_of(nbrs[l]))
            && reachable(g, pos_of(nbrs[l]), x)
}

/// Marks in `m` every point that `other` marks.
fn merge(m: &mut Vec<Vec<bool>>, other: &Vec<Vec<bool>>)
    requires
        old(m)@.len() == other@.len(),
        forall|i: int| 0 <= i < other@.len() ==> (#[trigger] old(m)@[i])@.len() == other@[i]@.len(),
    ensures
        final(m)@.len() == other@.len(),
        forall|i: int| 0 <= i < other@.len() ==> (#[trigger] final(m)@[i])@.len() == other@[i]@.len(),
        forall|i: int, j: int| 0 <= i < other@.len() && 0 <= j < other@[i]@.len() ==> #[trigger] final(m)@[i]@[j] == (old(m)@[i]@[j] || other@[i]@[j]),
{
    let mut i: usize = 0;
    while i < other.len()
        invariant
            i <= other@.len(),
            m@.len() == other@.len(),
            forall|k: int| 0 <= k < other@.len() ==> (#[trigger] m@[k])@.len() == other@[k]@.len(),
            forall|k: int, j: int| 0 <= k < i && 0 <= j < other@[k]@.len() ==> #[trigger] m@[k]@[j] == (old(m)@[k]@[j] || other@[k]@[j]),
            forall|k: int| i <= k < other@.len() ==> #[trigger] m@[k] == old(m)@[k],
        decreases other@.len() - i,
    {
        let mut j: usize = 0;
        while j < other[i].len()
            invariant
                i < other@.len(),
                j <= other@[i as int]@.len(),
                m@.len() == other@.len(),
                forall|k: int| 0 <= k < other@.len() ==> (#[trigger] m@[k])@.len() == other@[k]@.len(),
                forall|k: int, l: int| 0 <= k < i && 0 <= l < other@[k]@.len() ==> #[trigger] m@[k]@[l] == (old(m)@[k]@[l] || other@[k]@[l]),
                forall|k: int| i < k < other@.len() ==> #[trigger] m@[k] == old(m)@[k],
                forall|l: int| 0 <= l < j ==> #[trigger] m@[i as int]@[l] == (old(m)@[i as int]@[l] || other@[i as int]@[l]),
                forall|l: int| j <= l < other@[i as int]@.len() ==> #[trigger] m@[i as int]@[l] == old(m)@[i as int]@[l],
            decreases other@[i as int]@.len() - j,
        {
            if other[i][j] {
                m[i][j] = true;
            }
            j = j + 1;
        }
        i = i + 1;
    }
}

proof fn lemma_marked_row_len(r: Seq<bool>, i: int, j: int)
    requires
        0 <= j,
    ensures
        marked_in_row(r, i, j).len() <= j,
    decreases j,
{
    if j > 0 {
        lemma_marked_row_len(r, i, j - 1);
    }
}

proof fn lemma_marked_upto_len(m: Seq<Seq<bool>>, i: int, w: int)
    requires
        0 <= i <= m.len(),
        0 <= w,
        forall|k: int| 0 <= k < m.len() ==> #[trigger] m[k].len() == w,
    ensures
        marked_upto(m, i).len() <= i * w,
    decreases i,
{
    if i > 0 {
        lemma_marked_upto_len(m, i - 1, w);
        lemma_marked_row_len(m[i - 1], i - 1, m[i - 1].len() as int);
        assert((i - 1) * w + w == i * w) by (nonlinear_arith);
    }
}

/// The marked points read row by row, with their signature.
fn capture_signature(m: &Vec<Vec<bool>>) -> (r: (String, Vec<(usize, usize)>))
    ensures
        r.1@.map_values(|p: (usize, usize)| pos_of(p)) == marked_list(mask_view(m@)),
        r.0@ == signature(marked_list(mask_view(m@))),
{
    let ghost mv = mask_view(m@);
    let mut sig = String::new();
    let mut list: Vec<(usize, usize)> = Vec::new();
    let mut i: usize = 0;
    while i < m.len()
        invariant
            mv == mask_view(m@),
            i <= m@.len(),
            list@.map_values(|p: (usize, usize)| pos_of(p)) == marked_upto(mv, i as int),
            sig@ == signature(marked_upto(mv, i as int)),
        decreases m@.len() - i,
    {
        let mut j: usize = 0;
        assert(mv[i as int] == m@[i as int]@);
        while j < m[i].len()
            invariant
                mv == mask_view(m@),
                i < m@.len(),
                mv[i as int] == m@[i as int]@,
                j <= m@[i as int]@.len(),
                list@.map_values(|p: (usize, usize)| pos_of(p)) == marked_upto(mv, i as int) + marked_in_row(mv[i as int], i as int, j as int),
                sig@ == signature(marked_upto(mv, i as int) + marked_in_row(mv[i as int], i as int, j as int)),
            decreases m@[i as int]@.len() - j,
        {
            if m[i][j] {
                let ghost ps = marked_upto(mv, i as int) + marked_in_row(mv[i as int], i as int, j as int);
                let ghost x: Pos = (i as int, j as int);
                if list.len() > 0 {
                    push_char(&mut sig, '-');
                }
                push_decimal(&mut sig, i as u64);
                push_char(&mut sig, ',');
                push_decimal(&mut sig, j as u64);
                let ghost old_list = list@;
                list.push((i, j));
                proof {
                    assert(marked_in_row(mv[i as int], i as int, j + 1) == marked_in_row(mv[i as int], i as int, j as int).push(x));
                    assert(marked_upto(mv, i as int) + marked_in_row(mv[i as int], i as int, j + 1) =~= ps.push(x));
                    assert(list@.map_values(|p: (usize, usize)| pos_of(p)) =~= old_list.map_values(|p: (usize, usize)| pos_of(p)).push(x));
                    assert(ps.push(x).drop_last() =~= ps);
                    assert(ps.len() == old_list.len());
                    if ps.len() == 0 {
                        assert(sig@ =~= pos_text(x));
                    } else {
                        assert(sig@ =~= signature(ps) + seq!['-'] + pos_text(x));
                    }
                }
            } else {
                assert(marked_in_row(mv[i as int], i as int, j + 1) == marked_in_row(mv[i as int], i as int, j as int));
            }
            j = j + 1;
        }
        proof {
            assert(marked_upto(mv, i + 1) == marked_upto(mv, i as int) + marked_in_row(mv[i as int], i as int, mv[i as int].len() as int));
        }
        i = i + 1;
    }
    (sig, list)
}

impl GoBoard {
    /// Which points a stone at (row, column) captures from `opponent`: the groups of
    /// `opponent` next to it that have no liberty left.
    fn calculate_captures(&self, row: usize, column: usize, opponent: GoPlayer) -> (m: Vec<Vec<bool>>)
        requires
            self.wf(),
            in_grid(self.grid(), (row as int, column as int)),
        ensures
            fits(m@, self.grid()),
            mask_view(m@) == capture_mask(self.grid(), (row as int, column as int), opponent),
    {
        let ghost g = self.grid();
        let ghost p: Pos = (row as int, column as int);
        let nbrs = self.board.neighbour_positions(row, column);
        let mut m = self.board.blank_mask();
        let target = opponent.stone();
        let mut k: usize = 0;
        while k < nbrs.len()
            invariant
                self.wf(),
                g == self.grid(),
                target == stone_of(opponent),
                k <= nbrs@.len(),
                forall|l: int| 0 <= l < nbrs@.len() ==> in_grid(g, pos_of(#[trigger] nbrs@[l])) && adjacent(p, pos_of(nbrs@[l])),
                fits(m@, g),
                forall|x: Pos| in_grid(g, x) ==> (#[trigger] marked(m@, x) <==> caught_by(g, nbrs@, k as int, opponent, x)),
            decreases nbrs@.len() - k,
        {
            let n = nbrs[k];
            assert(in_grid(g, pos_of(nbrs@[k as int])));
            let v = self.board.get(n.0, n.1).unwrap();
            let mut caught = false;
            if v == target {
                let free = self.has_liberties(n.0, n.1).unwrap();
                if !free {
                    caught = true;
                    let (_order, region) = self.board.region(n.0, n.1);
                    let ghost before = m@;
                    merge(&mut m, &region);
                    proof {
                        assert forall|x: Pos| in_grid(g, x) implies (#[trigger] marked(m@, x) <==> caught_by(g, nbrs@, k + 1, opponent, x)) by {
                            assert(marked(m@, x) == (marked(before, x) || marked(region@, x)));
                            if marked(region@, x) {
                                assert(reachable(g, pos_of(nbrs@[k as int]), x));
                            }
                            if caught_by(g, nbrs@, k + 1, opponent, x) {
                                let l = choose|l: int|
                                    0 <= l < k + 1 && value_at(g, pos_of(#[trigger] nbrs@[l])) == stone_of(opponent) && !has_liberty(g, pos_of(nbrs@[l]))
                                        && reachable(g, pos_of(nbrs@[l]), x);
                                if l < k {
                                    assert(caught_by(g, nbrs@, k as int, opponent, x));
                                }
                            }
                        }
                    }
                }
            }
            proof {
                if !caught {
                    assert forall|x: Pos| in_grid(g, x) implies (#[trigger] marked(m@, x) <==> caught_by(g, nbrs@, k + 1, opponent, x)) by {
                        if caught_by(g, nbrs@, k + 1, opponent, x) {
                            let l = choose|l: int|
                                0 <= l < k + 1 && value_at(g, pos_of(#[trigger] nbrs@[l])) == stone_of(opponent) && !has_liberty(g, pos_of(nbrs@[l]))
                                    && reachable(g, pos_of(nbrs@[l]), x);
                            if l < k {
                                assert(caught_by(g, nbrs@, k as int, opponent, x));
                            }
                        }
                    }
                }
            }
            k = k + 1;
        }
        proof {
            let cm = capture_mask(g, p, opponent);
            assert forall|x: Pos| in_grid(g, x) implies (#[trigger] marked(m@, x) <==> captured(g, p, opponent, x)) by {
                if captured(g, p, opponent, x) {
                    let n = choose|n: Pos| in_grid(g, n) && adjacent(p, n) && value_at(g, n) == stone_of(opponent) && !has_liberty(g, n)
                        && #[trigger] reachable(g, n, x);
                    assert(has_pos(nbrs@, n));
                    let l = choose|l: int| 0 <= l < nbrs@.len() && pos_of(#[trigger] nbrs@[l]) == n;
                    assert(caught_by(g, nbrs@, nbrs@.len() as int, opponent, x));
                }
                if caught_by(g, nbrs@, nbrs@.len() as int, opponent, x) {
                    let l = choose|l: int|
                        0 <= l < nbrs@.len() && value_at(g, pos_of(#[trigger] nbrs@[l])) == stone_of(opponent) && !has_liberty(g, pos_of(nbrs@[l]))
                            && reachable(g, pos_of(nbrs@[l]), x);
                    assert(in_grid(g, pos_of(nbrs@[l])));
                }
            }
            assert forall|i: int| 0 <= i < g.len() implies #[trigger] mask_view(m@)[i] =~= cm[i] by {
                assert forall|j: int| 0 <= j < g[i].len() implies #[trigger] mask_view(m@)[i][j] == cm[i][j] by {
                    assert(marked(m@, (i, j)) <==> captured(g, p, opponent, (i, j)));
                }
            }
            assert(mask_view(m@) =~= cm);
        }
        m
    }

    /// Clears every marked point.
    fn clear_marked(&mut self, m: &Vec<Vec<bool>>)
        requires
            old(self).wf(),
            fits(m@, old(self).grid()),
        ensures
            final(self).wf(),
            final(self).grid() == settled_except(old(self).grid(), mask_view(m@)),
            final(self).grid_bound() == old(self).grid_bound(),
            final(self).turn() == old(self).turn(),
            final(self).status() == old(self).status(),
            final(self).recent() == old(self).recent(),
            final(self).captures_of(GoPlayer::White) == old(self).captures_of(GoPlayer::White),
            final(self).captures_of(GoPlayer::Black) == old(self).captures_of(GoPlayer::Black),
    {
        let ghost g = self.grid();
        let mut i: usize = 0;
        while i < m.len()
            invariant
                self.wf(),
                fits(m@, g),
                self.grid_bound() == old(self).grid_bound(),
                self.turn() == old(self).turn(),
                self.status() == old(self).status(),
                self.recent() == old(self).recent(),
                self.white_captures == old(self).white_captures,
                self.black_captures == old(self).black_captures,
                g == old(self).grid(),
                i <= g.len(),
                self.grid().len() == g.len(),
                forall|a: int| 0 <= a < g.len() ==> #[trigger] self.grid()[a].len() == g[a].len(),
                forall|a: int, b: int| 0 <= a < g.len() && 0 <= b < g[a].len() ==> #[trigger] self.grid()[a][b] == if a < i && m@[a]@[b] { Cell { value: GoCell::Empty, ..g[a][b] } } else { g[a][b] },
            decreases g.len() - i,
        {
            let mut j: usize = 0;
            while j < m[i].len()
                invariant
                    self.wf(),
                    fits(m@, g),
                    self.grid_bound() == old(self).grid_bound(),
                    self.turn() == old(self).turn(),
                    self.status() == old(self).status(),
                    self.recent() == old(self).recent(),
                    self.white_captures == old(self).white_captures,
                    self.black_captures == old(self).black_captures,
                    g == old(self).grid(),
                    i < g.len(),
                    j <= g[i as int].len(),
                    self.grid().len() == g.len(),
                    forall|a: int| 0 <= a < g.len() ==> #[trigger] self.grid()[a].len() == g[a].len(),
                    forall|a: int, b: int| 0 <= a < g.len() && 0 <= b < g[a].len() ==> #[trigger] self.grid()[a][b] == if (a < i || (a == i && b < j)) && m@[a]@[b] { Cell { value: GoCell::Empty, ..g[a][b] } } else { g[a][b] },
                decreases g[i as int].len() - j,
            {
                if m[i][j] {
                    let _ = self.board.set(i, j, GoCell::Empty);
                }
                j = j + 1;
            }
            i = i + 1;
        }
        proof {
            let want = settled_except(g, mask_view(m@));
            assert forall|a: int| 0 <= a < g.len() implies #[trigger] self.grid()[a] =~= want[a] by {
                assert forall|b: int| 0 <= b < g[a].len() implies #[trigger] self.grid()[a][b] == want[a][b] by {
                    assert(mask_view(m@)[a] == m@[a]@);
                }
            }
            assert(self.grid() =~= want);
        }
    }

    /// Records the signature of a capture; only the two latest stay.
    fn record_capture(&mut self, signature: String)
        requires
            old(self).recent().len() <= 2,
        ensures
            final(self).recent() == record(old(self).recent(), signature@),
            final(self).recent().len() <= 2,
            final(self).board == old(self).board,
            final(self).turn() == old(self).turn(),
            final(self).status() == old(self).status(),
            final(self).white_captures == old(self).white_captures,
            final(self).black_captures == old(self).black_captures,
    {
        let ghost h = self.recent();
        self.last_captures.push(signature);
        assert(self.recent() =~= h.push(signature@));
        if self.last_captures.len() > 2 {
            let ghost h2 = self.recent();
            let _ = self.last_captures.remove(0);
            assert(self.recent() =~= h2.subrange(1, 3));
        }
    }

    /// Resolves the pending stone: the first one, reading the board row by row. Opponent
    /// groups next to it left without a liberty are captured; a capture that repeats one of
    /// the two latest is refused as ko, and a stone that captures nothing and has no empty
    /// neighbour is refused as suicidal. A refused stone is taken off the board and the
    /// reason recorded; nothing else changes. The counter of the player to move must have
    /// room for every stone of the board (see `room_to_count`).
    pub fn iterate(&mut self) -> (r: Result<(), GoBoardError>)
        requires
            old(self).wf(),
            old(self).room_to_count(),
        ensures
            final(self).wf(),
            no_pending(old(self).grid()) ==> r == Err::<(), GoBoardError>(GoBoardError::NoPendingFound) && *final(self) == *old(self),
            forall|p: Pos| #[trigger] first_pending(old(self).grid(), p) ==> old(self).resolves(old(self).grid(), p, r, *final(self)),
    {
        let ghost g = self.grid();
        let pos = match self.locate_pending() {
            Some(p) => p,
            None => return Err(GoBoardError::NoPendingFound),
        };
        let ghost p = pos_of(pos);
        proof {
            assert forall|q: Pos| #[trigger] first_pending(g, q) implies q == p by {
                if q != p {
                    if before(q, p) {
                        assert(!is_pending(value_at(g, q)));
                    } else {
                        assert(before(p, q));
                        assert(!is_pending(value_at(g, p)));
                    }
                }
            }
        }
        let v = self.board.get(pos.0, pos.1).unwrap();
        let who = match v.player() {
            Some(w) => w,
            None => return Err(GoBoardError::InvalidPlayer),
        };
        if who != self.whos_turn {
            return Err(GoBoardError::WrongPlayerTurn);
        }
        let opp = who.other();
        let mask = self.calculate_captures(pos.0, pos.1, opp);
        let (sig, list) = capture_signature(&mask);
        let count = list.len();
        proof {
            assert(list@.len() == list@.map_values(|q: (usize, usize)| pos_of(q)).len());
            assert(count == capture_list(g, p, opp).len());
        }
        if count > 0 {
            if let Err(e) = self.check_ko(&sig) {
                self.last_move = LastMove::IllegalKo;
                let _ = self.board.set(pos.0, pos.1, GoCell::Empty);
                return Err(e);
            }
        }
        if let Err(e) = self.check_suicidal(pos.0, pos.1, count) {
            self.last_move = LastMove::IllegalSuicidal;
            let _ = self.board.set(pos.0, pos.1, GoCell::Empty);
            return Err(e);
        }
        self.clear_marked(&mask);
        let ghost cleared = self.grid();
        let _ = self.board.set(pos.0, pos.1, who.stone());
        proof {
            let want = settled(g, p, capture_mask(g, p, opp), who);
            assert forall|a: int| 0 <= a < g.len() implies #[trigger] self.grid()[a] =~= want[a] by {
                assert forall|b: int| 0 <= b < g[a].len() implies #[trigger] self.grid()[a][b] == want[a][b] by {
                    assert(cleared[a][b] == settled_except(g, mask_view(mask@))[a][b]);
                }
            }
            assert(self.grid() =~= want);
            let mv = mask_view(mask@);
            assert forall|k: int| 0 <= k < mv.len() implies #[trigger] mv[k].len() == width_of(g) by {
                assert(mv[k] == mask@[k]@);
            }
            lemma_marked_upto_len(mv, mv.len() as int, width_of(g) as int);
        }
        match who {
            GoPlayer::White => {
                self.white_captures = self.white_captures + count as u64;
            },
            GoPlayer::Black => {
                self.black_captures = self.black_captures + count as u64;
            },
        }
        if count > 0 {
            self.record_capture(sig);
        }
        self.last_move = LastMove::Legal;
        self.whos_turn = opp;
        Ok(())
    }

    /// Places a stone of the player to move at (row, column) and resolves it as `iterate`
    /// does. A point that is taken or off the board is refused and nothing changes. The board
    /// must wait for a move (no pending stone, see `has_pending`), and the counter of the
    /// player to move must have room for every stone of the board.
    pub fn make_move(&mut self, row: usize, column: usize) -> (r: Result<(), GoBoardError>)
        requires
            old(self).wf(),
            old(self).room_to_count(),
            no_pending(old(self).grid()),
        ensures
            final(self).wf(),
            !(in_grid(old(self).grid(), (row as int, column as int)) && value_at(old(self).grid(), (row as int, column as int)) == GoCell::Empty)
                ==> r == Err::<(), GoBoardError>(GoBoardError::IllegalMove(IllegalReason::Occupied)) && *final(self) == *old(self),
            in_grid(old(self).grid(), (row as int, column as int)) && value_at(old(self).grid(), (row as int, column as int)) == GoCell::Empty
                ==> old(self).resolves(with_value(old(self).grid(), (row as int, column as int), pending_of(old(self).turn())), (row as int, column as int), r, *final(self)),
    {
        let ghost g = self.grid();
        let ghost p: Pos = (row as int, column as int);
        match self.board.get(row, column) {
            Ok(v) => {
                if v != GoCell::Empty {
                    return Err(GoBoardError::IllegalMove(IllegalReason::Occupied));
                }
            },
            Err(_) => {
                return Err(GoBoardError::IllegalMove(IllegalReason::Occupied));
            },
        }
        let _ = self.board.set(row, column, self.whos_turn.into_pending());
        let ghost placed = *self;
        proof {
            let g2 = self.grid();
            assert(g2 == with_value(g, p, pending_of(old(self).turn())));
            assert(first_pending(g2, p)) by {
                assert forall|q: Pos| in_grid(g2, q) && before(q, p) implies !is_pending(#[trigger] value_at(g2, q)) by {
                    assert(value_at(g2, q) == value_at(g, q));
                }
            }
        }
        let r = self.iterate();
        proof {
            assert(placed.resolves(placed.grid(), p, r, *self));
        }
        r
    }

    /// The value of `line` as `name=value`.
    fn read_kv(line: &Vec<char>, name: &Vec<char>) -> (r: Option<Vec<char>>)
        ensures
            r is None <==> read_kv(line@, name@) is None,
            r is Some ==> r->Some_0@ == read_kv(line@, name@)->Some_0,
    {
        let n = name.len();
        if line.len() <= n {
            return None;
        }
        let mut i: usize = 0;
        while i < n
            invariant
                n == name@.len() < line@.len(),
                i <= n,
                forall|k: int| 0 <= k < i ==> line@[k] == name@[k],
            decreases n - i,
        {
            if line[i] != name[i] {
                assert(line@.subrange(0, n as int)[i as int] != name@[i as int]);
                return None;
            }
            i = i + 1;
        }
        assert(line@.subrange(0, n as int) =~= name@);
        if line[n] != '=' {
            return None;
        }
        let mut k: usize = n + 1;
        while k < line.len()
            invariant
                n == name@.len() < line@.len(),
                line@.subrange(0, n as int) == name@,
                line@[n as int] == '=',
                n + 1 <= k <= line@.len(),
                forall|l: int| n + 1 <= l < k ==> line@[l] != '=',
            decreases line@.len() - k,
        {
            if line[k] == '=' {
                assert(line@.subrange(n + 1, line@.len() as int)[k - n - 1] == '=');
                assert(line@.subrange(n + 1, line@.len() as int).contains('='));
                return None;
            }
            k = k + 1;
        }
        let ghost rest = line@.subrange(n + 1, line@.len() as int);
        assert(!rest.contains('=')) by {
            if rest.contains('=') {
                let j = choose|j: int| 0 <= j < rest.len() && #[trigger] rest[j] == '=';
                assert(line@[n + 1 + j] == '=');
            }
        }
        Some(chars_between(line, n + 1, line.len()))
    }

    /// A board read from its text form: four `key=value` lines (turn, last_move, capturesW,
    /// capturesB), then one line per row with one character per point. Blank lines and
    /// white space at either end of a line are ignored. The capture history starts empty.
    pub fn from_str(as_str: &str) -> (r: Result<GoBoard, ParseError>)
        ensures
            parse_board(text_lines(as_str@)) is Err ==> r == Err::<GoBoard, ParseError>(parse_board(text_lines(as_str@))->Err_0),
            parse_board(text_lines(as_str@)) is Ok ==> r is Ok && {
                let (t, m, w, b, g) = parse_board(text_lines(as_str@))->Ok_0;
                let board = r->Ok_0;
                &&& board.wf()
                &&& board.turn() == t
                &&& board.status() == m
                &&& board.captures_of(GoPlayer::White) == w
                &&& board.captures_of(GoPlayer::Black) == b
                &&& board.recent().len() == 0
                &&& values_of(board.grid()) == g
            },
    {
        let cs = chars_of(as_str);
        let lines = lines_of(&cs);
        let ghost ls = text_lines(as_str@);
        assert(views(lines@) == ls);
        if lines.len() <= 4 {
            return Err(ParseError::NotEnoughLines);
        }
        proof {
            assert(ls[0] == lines@[0]@);
            assert(ls[1] == lines@[1]@);
            assert(ls[2] == lines@[2]@);
            assert(ls[3] == lines@[3]@);
        }
        let turn_name: Vec<char> = vec!['t', 'u', 'r', 'n'];
        let whos_turn = match Self::read_kv(&lines[0], &turn_name) {
            None => return Err(ParseError::InvalidValue),
            Some(v) => {
                if v.len() == 0 {
                    return Err(ParseError::NotEnoughChars);
                } else if v[0] == 'W' {
                    GoPlayer::White
                } else if v[0] == 'B' {
                    GoPlayer::Black
                } else {
                    return Err(ParseError::InvalidCharacter);
                }
            },
        };
        let status_name: Vec<char> = vec!['l', 'a', 's', 't', '_', 'm', 'o', 'v', 'e'];
        let last_move = match Self::read_kv(&lines[1], &status_name) {
            None => return Err(ParseError::InvalidValue),
            Some(v) => {
                let ok_text: Vec<char> = vec!['o', 'k'];
                let ko_text: Vec<char> = vec!['i', 'l', 'l', 'e', 'g', 'a', 'l', '_', 'k', 'o'];
                let suicidal_text: Vec<char> = vec!['i', 'l', 'l', 'e', 'g', 'a', 'l', '_', 's', 'u', 'i', 'c', 'i', 'd', 'a', 'l'];
                if same_chars(&v, &ok_text) {
                    LastMove::Legal
                } else if same_chars(&v, &ko_text) {
                    LastMove::IllegalKo
                } else if same_chars(&v, &suicidal_text) {
                    LastMove::IllegalSuicidal
                } else {
                    return Err(ParseError::InvalidValue);
                }
            },
        };
        let white_name: Vec<char> = vec!['c', 'a', 'p', 't', 'u', 'r', 'e', 's', 'W'];
        let white_captures = match Self::read_kv(&lines[2], &white_name) {
            None => return Err(ParseError::InvalidValue),
            Some(v) => match read_count(&v, 0) {
                None => {
                    assert(v@.subrange(0, v@.len() as int) =~= v@);
                    return Err(ParseError::InvalidValue);
                },
                Some(n) => {
                    assert(v@.subrange(0, v@.len() as int) =~= v@);
                    n
                },
            },
        };
        let black_name: Vec<char> = vec!['c', 'a', 'p', 't', 'u', 'r', 'e', 's', 'B'];
        let black_captures = match Self::read_kv(&lines[3], &black_name) {
            None => return Err(ParseError::InvalidValue),
            Some(v) => match read_count(&v, 0) {
                None => {
                    assert(v@.subrange(0, v@.len() as int) =~= v@);
                    return Err(ParseError::InvalidValue);
                },
                Some(n) => {
                    assert(v@.subrange(0, v@.len() as int) =~= v@);
                    n
                },
            },
        };
        let mut body: Vec<Vec<char>> = Vec::new();
        let mut k: usize = 4;
        while k < lines.len()
            invariant
                4 <= k <= lines@.len(),
                views(lines@) == ls,
                views(body@) == ls.subrange(4, k as int),
            decreases lines@.len() - k,
        {
            let line = chars_between(&lines[k], 0, lines[k].len());
            let ghost before = body@;
            body.push(line);
            proof {
                assert(ls[k as int] == lines@[k as int]@);
                assert(lines@[k as int]@.subrange(0, lines@[k as int]@.len() as int) =~= lines@[k as int]@);
                assert(views(body@) =~= views(before).push(line@));
                assert(ls.subrange(4, k + 1) =~= ls.subrange(4, k as int).push(ls[k as int]));
            }
            k = k + 1;
        }
        let board = match Arr2d::<GoCell>::from_lines(&body) {
            Ok(b) => b,
            Err(e) => return Err(e),
        };
        let r = GoBoard {
            whos_turn,
            last_move,
            white_captures,
            black_captures,
            last_captures: Vec::new(),
            board,
        };
        assert(r.recent() =~= Seq::<Seq<char>>::empty());
        Ok(r)
    }

    /// The board in its text form, as `from_str` reads it.
    pub fn to_str(&self) -> (r: String)
        requires
            self.wf(),
        ensures
            r@ == board_text(self.turn(), self.status(), self.captures_of(GoPlayer::White), self.captures_of(GoPlayer::Black), values_of(self.grid())),
    {
        let mut out = String::new();
        let turn_line: Vec<char> = vec!['t', 'u', 'r', 'n', '='];
        push_chars(&mut out, &turn_line);
        match self.whos_turn {
            GoPlayer::White => push_char(&mut out, 'W'),
            GoPlayer::Black => push_char(&mut out, 'B'),
        }
        push_char(&mut out, '\n');
        let status_line: Vec<char> = vec!['l', 'a', 's', 't', '_', 'm', 'o', 'v', 'e', '='];
        push_chars(&mut out, &status_line);
        let status: Vec<char> = match self.last_move {
            LastMove::Legal => vec!['o', 'k'],
            LastMove::IllegalKo => vec!['i', 'l', 'l', 'e', 'g', 'a', 'l', '_', 'k', 'o'],
            LastMove::IllegalSuicidal => vec!['i', 'l', 'l', 'e', 'g', 'a', 'l', '_', 's', 'u', 'i', 'c', 'i', 'd', 'a', 'l'],
        };
        push_chars(&mut out, &status);
        push_char(&mut out, '\n');
        let white_line: Vec<char> = vec!['c', 'a', 'p', 't', 'u', 'r', 'e', 's', 'W', '='];
        push_chars(&mut out, &white_line);
        push_decimal(&mut out, self.white_captures);
        push_char(&mut out, '\n');
        let black_line: Vec<char> = vec!['c', 'a', 'p', 't', 'u', 'r', 'e', 's', 'B', '='];
        push_chars(&mut out, &black_line);
        push_decimal(&mut out, self.black_captures);
        push_char(&mut out, '\n');
        let grid_text = self.board.to_str();
        crate::text::append_str(&mut out, &grid_text);
        proof {
            assert(out@ =~= board_text(self.turn(), self.status(), self.captures_of(GoPlayer::White), self.captures_of(GoPlayer::Black), values_of(self.grid())));
        }
        out
    }

    pub fn whose_turn(&self) -> (p: GoPlayer)
        ensures
            p == self.turn(),
    {
        self.whos_turn
    }

    pub fn last_move(&self) -> (m: LastMove)
        ensures
            m == self.status(),
    {
        self.last_move
    }

    /// The number of stones that a player has captured.
    pub fn captures(&self, player: GoPlayer) -> (n: u64)
        ensures
            n == self.captures_of(player),
    {
        match player {
            GoPlayer::White => self.white_captures,
            GoPlayer::Black => self.black_captures,
        }
    }

    /// The signatures of the latest captures, oldest first.
    pub fn recent_captures(&self) -> (r: &Vec<String>)
        ensures
            r@.map_values(|s: String| s@) == self.recent(),
    {
        &self.last_captures
    }

    pub fn board(&self) -> (b: &Arr2d<GoCell>)
        ensures
            b@ == self.grid(),
            b.id_bound() == self.grid_bound(),
    {
        &self.board
    }

    /// Whether a stone waits to be resolved.
    pub fn has_pending(&self) -> (r: bool)
        requires
            self.wf(),
        ensures
            r == !no_pending(self.grid()),
    {
        self.locate_pending().is_some()
    }

    /// Refuses a capture whose signature is among the recent ones.
    fn check_ko(&self, signature: &String) -> (r: Result<(), GoBoardError>)
        ensures
            r is Err <==> self.recent().contains(signature@),
            r is Err ==> r->Err_0 == GoBoardError::IllegalMove(IllegalReason::Ko),
    {
        let mut k: usize = 0;
        while k < self.last_captures.len()
            invariant
                k <= self.last_captures@.len(),
                forall|l: int| 0 <= l < k ==> #[trigger] self.recent()[l] != signature@,
            decreases self.last_captures@.len() - k,
        {
            if self.last_captures[k] == *signature {
                assert(self.recent()[k as int] == signature@);
                return Err(GoBoardError::IllegalMove(IllegalReason::Ko));
            }
            k = k + 1;
        }
        Ok(())
    }

    /// Refuses a stone at (row, column) that captures nothing and has no empty neighbour.
    fn check_suicidal(&self, row: usize, column: usize, captures: usize) -> (r: Result<(), GoBoardError>)
        requires
            self.wf(),
        ensures
            r is Err <==> captures == 0 && !empty_neighbour(self.grid(), (row as int, column as int)),
            r is Err ==> r->Err_0 == GoBoardError::IllegalMove(IllegalReason::Suicidal),
    {
        if captures > 0 {
            return Ok(());
        }
        let ghost g = self.grid();
        let nbrs = self.board.neighbour_positions(row, column);
        let mut k: usize = 0;
        while k < nbrs.len()
            invariant
                self.wf(),
                g == self.grid(),
                k <= nbrs@.len(),
                forall|l: int| 0 <= l < nbrs@.len() ==> in_grid(g, pos_of(#[trigger] nbrs@[l])) && adjacent((row as int, column as int), pos_of(nbrs@[l])),
                forall|l: int| 0 <= l < k ==> value_at(g, pos_of(#[trigger] nbrs@[l])) != GoCell::Empty,
            decreases nbrs@.len() - k,
        {
            let q = nbrs[k];
            assert(in_grid(g, pos_of(nbrs@[k as int])));
            if self.board.get(q.0, q.1).unwrap() == GoCell::Empty {
                assert(adjacent((row as int, column as int), pos_of(q)));
                return Ok(());
            }
            k = k + 1;
        }
        proof {
            assert forall|q: Pos| in_grid(g, q) && #[trigger] adjacent((row as int, column as int), q) implies value_at(g, q) != GoCell::Empty by {
                assert(has_pos(nbrs@, q));
                let l = choose|l: int| 0 <= l < nbrs@.len() && pos_of(#[trigger] nbrs@[l]) == q;
            }
        }
        Err(GoBoardError::IllegalMove(IllegalReason::Suicidal))
    }
}


/// The stones of value `v` among the first `j` points of a row.
pub open spec fn count_in_row(r: Seq<Cell<GoCell>>, v: GoCell, j: int) -> nat
    decreases j,
{
    if j <= 0 {
        0
    } else {
        count_in_row(r, v, j - 1) + if r[j - 1].value == v { 1nat } else { 0nat }
    }
}

/// The stones of value `v` in the first `i` rows.
pub open spec fn count_upto(g: Seq<Seq<Cell<GoCell>>>, v: GoCell, i: int) -> nat
    decreases i,
{
    if i <= 0 {
        0
    } else {
        count_upto(g, v, i - 1) + count_in_row(g[i - 1], v, g[i - 1].len() as int)
    }
}

/// The points of the board that hold `v`.
pub open spec fn stone_count(g: Seq<Seq<Cell<GoCell>>>, v: GoCell) -> nat {
    count_upto(g, v, g.len() as int)
}

/// A group has a liberty exactly when one of its stones has an empty point next to it: a
/// group closed in on every side has none, and a group with one open neighbour has one.
pub proof fn lemma_liberty_iff_open(g: Seq<Seq<Cell<GoCell>>>, s: Pos)
    requires
        in_grid(g, s),
        value_at(g, s) != GoCell::Empty,
    ensures
        has_liberty(g, s) <==> exists|p: Pos, q: Pos|
            #[trigger] reachable(g, s, p) && in_grid(g, q) && #[trigger] adjacent(p, q) && value_at(g, q) == GoCell::Empty,
{
    if has_liberty(g, s) {
        let q = choose|q: Pos| #[trigger] in_perimeter(g, s, q) && value_at(g, q) == GoCell::Empty;
        let p = choose|p: Pos| #[trigger] reachable(g, s, p) && adjacent(p, q);
        assert(reachable(g, s, p) && in_grid(g, q) && adjacent(p, q) && value_at(g, q) == GoCell::Empty);
    }
    if exists|p: Pos, q: Pos|
        #[trigger] reachable(g, s, p) && in_grid(g, q) && #[trigger] adjacent(p, q) && value_at(g, q) == GoCell::Empty {
        let (p, q) = choose|p: Pos, q: Pos|
            #[trigger] reachable(g, s, p) && in_grid(g, q) && #[trigger] adjacent(p, q) && value_at(g, q) == GoCell::Empty;
        assert(in_perimeter(g, s, q));
    }
}

proof fn lemma_captured_is_opponent(g: Seq<Seq<Cell<GoCell>>>, p: Pos, opp: GoPlayer, x: Pos)
    requires
        captured(g, p, opp, x),
    ensures
        in_grid(g, x),
        value_at(g, x) == stone_of(opp),
{
    let n = choose|n: Pos| in_grid(g, n) && adjacent(p, n) && value_at(g, n) == stone_of(opp) && !has_liberty(g, n)
        && #[trigger] reachable(g, n, x);
    lemma_reach_value(g, n, x);
}

proof fn lemma_row_accounting(g: Seq<Seq<Cell<GoCell>>>, p: Pos, who: GoPlayer, i: int, j: int)
    requires
        0 <= i < g.len(),
        0 <= j <= g[i].len(),
        in_grid(g, p),
        is_pending(value_at(g, p)),
    ensures
        ({
            let opp = other_player(who);
            let cm = capture_mask(g, p, opp);
            let after = settled(g, p, cm, who);
            count_in_row(after[i], stone_of(opp), j) + marked_in_row(cm[i], i, j).len() == count_in_row(g[i], stone_of(opp), j)
        }),
    decreases j,
{
    let opp = other_player(who);
    let cm = capture_mask(g, p, opp);
    let after = settled(g, p, cm, who);
    if j > 0 {
        lemma_row_accounting(g, p, who, i, j - 1);
        let x: Pos = (i, j - 1);
        if cm[i][j - 1] {
            lemma_captured_is_opponent(g, p, opp, x);
        }
        if x == p {
            if captured(g, p, opp, x) {
                lemma_captured_is_opponent(g, p, opp, x);
            }
        }
    }
}

proof fn lemma_rows_accounting(g: Seq<Seq<Cell<GoCell>>>, p: Pos, who: GoPlayer, i: int)
    requires
        0 <= i <= g.len(),
        in_grid(g, p),
        is_pending(value_at(g, p)),
    ensures
        ({
            let opp = other_player(who);
            let cm = capture_mask(g, p, opp);
            let after = settled(g, p, cm, who);
            count_upto(after, stone_of(opp), i) + marked_upto(cm, i).len() == count_upto(g, stone_of(opp), i)
        }),
    decreases i,
{
    if i > 0 {
        lemma_rows_accounting(g, p, who, i - 1);
        lemma_row_accounting(g, p, who, i - 1, g[i - 1].len() as int);
    }
}

/// A move that is accepted with k captured stones takes exactly k stones of the opponent
/// off the board and adds exactly k to the mover's counter.
pub proof fn lemma_capture_accounting(b: GoBoard, g: Seq<Seq<Cell<GoCell>>>, p: Pos, r: Result<(), GoBoardError>, after: GoBoard)
    requires
        in_grid(g, p),
        is_pending(value_at(g, p)),
        b.resolves(g, p, r, after),
        r is Ok,
    ensures
        ({
            let who = b.turn();
            let opp = other_player(who);
            let k = capture_list(g, p, opp).len();
            &&& stone_count(after.grid(), stone_of(opp)) + k == stone_count(g, stone_of(opp))
            &&& after.captures_of(who) == b.captures_of(who) + k
            &&& after.captures_of(opp) == b.captures_of(opp)
        }),
{
    let who = owner_of(value_at(g, p))->Some_0;
    lemma_rows_accounting(g, p, who, g.len() as int);
}

proof fn lemma_replace_back(g: Seq<Seq<Cell<GoCell>>>, p: Pos, v: GoCell)
    requires
        in_grid(g, p),
        value_at(g, p) == GoCell::Empty,
    ensures
        with_value(with_value(g, p, v), p, GoCell::Empty) == g,
{
    let g1 = with_value(g, p, v);
    let g2 = with_value(g1, p, GoCell::Empty);
    assert(g2[p.0] =~= g[p.0]);
    assert(g2 =~= g);
}

/// A move whose capture repeats one of the two latest recorded captures is refused as ko,
/// and the board and every other part of the state are as they were before the move.
pub proof fn lemma_ko_leaves_state(b: GoBoard, p: Pos, r: Result<(), GoBoardError>, after: GoBoard)
    requires
        in_grid(b.grid(), p),
        value_at(b.grid(), p) == GoCell::Empty,
        b.resolves(with_value(b.grid(), p, pending_of(b.turn())), p, r, after),
        ({
            let g = with_value(b.grid(), p, pending_of(b.turn()));
            let caps = capture_list(g, p, other_player(b.turn()));
            caps.len() > 0 && b.recent().contains(signature(caps))
        }),
    ensures
        r == Err::<(), GoBoardError>(GoBoardError::IllegalMove(IllegalReason::Ko)),
        after.status() == LastMove::IllegalKo,
        after.grid() == b.grid(),
        after.turn() == b.turn(),
        after.captures_of(GoPlayer::White) == b.captures_of(GoPlayer::White),
        after.captures_of(GoPlayer::Black) == b.captures_of(GoPlayer::Black),
        after.recent() == b.recent(),
{
    let g = with_value(b.grid(), p, pending_of(b.turn()));
    assert(value_at(g, p) == pending_of(b.turn()));
    lemma_replace_back(b.grid(), p, pending_of(b.turn()));
}

/// A move that captures nothing and leaves the new stone without an empty neighbour is
/// refused as suicidal, and the board and every other part of the state are as they were.
pub proof fn lemma_suicide_leaves_state(b: GoBoard, p: Pos, r: Result<(), GoBoardError>, after: GoBoard)
    requires
        in_grid(b.grid(), p),
        value_at(b.grid(), p) == GoCell::Empty,
        b.resolves(with_value(b.grid(), p, pending_of(b.turn())), p, r, after),
        capture_list(with_value(b.grid(), p, pending_of(b.turn())), p, other_player(b.turn())).len() == 0,
        !empty_neighbour(b.grid(), p),
    ensures
        r == Err::<(), GoBoardError>(GoBoardError::IllegalMove(IllegalReason::Suicidal)),
        after.status() == LastMove::IllegalSuicidal,
        after.grid() == b.grid(),
        after.turn() == b.turn(),
        after.captures_of(GoPlayer::White) == b.captures_of(GoPlayer::White),
        after.captures_of(GoPlayer::Black) == b.captures_of(GoPlayer::Black),
        after.recent() == b.recent(),
{
    let g = with_value(b.grid(), p, pending_of(b.turn()));
    assert(value_at(g, p) == pending_of(b.turn()));
    assert(!empty_neighbour(g, p)) by {
        if empty_neighbour(g, p) {
            let q = choose|q: Pos| in_grid(g, q) && #[trigger] adjacent(p, q) && value_at(g, q) == GoCell::Empty;
            assert(value_at(b.grid(), q) == value_at(g, q));
        }
    }
    lemma_replace_back(b.grid(), p, pending_of(b.turn()));
}


/// The four header lines of a board text.
pub open spec fn header_lines(t: GoPlayer, m: LastMove, w: u64, b: u64) -> Seq<Seq<char>> {
    seq![
        turn_key() + seq!['=', player_glyph(t)],
        last_move_key() + seq!['='] + status_text(m),
        white_key() + seq!['='] + nat_text(w as nat),
        black_key() + seq!['='] + nat_text(b as nat),
    ]
}

/// A board that a text can describe: at least one row, all of one non-zero width, and few
/// enough points to number.
pub open spec fn shape_ok(g: Seq<Seq<GoCell>>) -> bool {
    &&& g.len() > 0
    &&& is_rectangular(g)
    &&& width_of(g) > 0
    &&& g.len() * width_of(g) < u64::MAX
}

/// A line that survives trimming unchanged and holds no line break.
pub open spec fn plain_line(l: Seq<char>) -> bool {
    &&& l.len() > 0
    &&& !is_ws(l[0])
    &&& !is_ws(l.last())
    &&& forall|k: int| 0 <= k < l.len() ==> #[trigger] l[k] != '\n'
}

proof fn lemma_board_text_lines(t: GoPlayer, m: LastMove, w: u64, b: u64, g: Seq<Seq<GoCell>>)
    ensures
        board_text(t, m, w, b, g) == lines_text(header_lines(t, m, w, b) + glyph_rows(g)),
{
    let h = header_lines(t, m, w, b);
    lemma_lines_text_concat(h, glyph_rows(g));
    let e = Seq::<Seq<char>>::empty();
    let h1 = seq![h[0]];
    let h2 = seq![h[0], h[1]];
    let h3 = seq![h[0], h[1], h[2]];
    assert(h1.drop_last() =~= e);
    assert(h2.drop_last() =~= h1);
    assert(h3.drop_last() =~= h2);
    assert(h.drop_last() =~= h3);
    assert(lines_text(e) == Seq::<char>::empty());
    assert(lines_text(h1) =~= h[0].push('\n'));
    assert(lines_text(h2) =~= h[0].push('\n') + h[1].push('\n'));
    assert(lines_text(h3) =~= h[0].push('\n') + h[1].push('\n') + h[2].push('\n'));
    assert(lines_text(h) =~= h[0].push('\n') + h[1].push('\n') + h[2].push('\n') + h[3].push('\n'));
    assert(board_text(t, m, w, b, g) =~= lines_text(h) + lines_text(glyph_rows(g)));
}

proof fn lemma_number_line(key: Seq<char>, n: u64)
    requires
        key.len() > 0,
        !is_ws(key[0]),
        forall|k: int| 0 <= k < key.len() ==> #[trigger] key[k] != '\n' && key[k] != '=',
    ensures
        plain_line(key + seq!['='] + nat_text(n as nat)),
        parse_captures(key + seq!['='] + nat_text(n as nat), key) == Ok::<u64, ParseError>(n),
{
    let d = nat_text(n as nat);
    let l = key + seq!['='] + d;
    lemma_nat_text(n as nat);
    assert(l.last() == d.last());
    assert forall|k: int| 0 <= k < l.len() implies #[trigger] l[k] != '\n' by {
        if k > key.len() {
            assert(l[k] == d[k - key.len() - 1]);
        }
    }
    assert(l.subrange(0, key.len() as int) =~= key);
    assert(l.subrange(key.len() + 1 as int, l.len() as int) =~= d);
    assert(!d.contains('='));
    assert(d[0] != '+');
    assert(parse_count(d) == Some(n));
}

proof fn lemma_header_lines(t: GoPlayer, m: LastMove, w: u64, b: u64)
    ensures
        forall|i: int| 0 <= i < 4 ==> plain_line(#[trigger] header_lines(t, m, w, b)[i]),
        parse_turn(header_lines(t, m, w, b)[0]) == Ok::<GoPlayer, ParseError>(t),
        parse_status(header_lines(t, m, w, b)[1]) == Ok::<LastMove, ParseError>(m),
        parse_captures(header_lines(t, m, w, b)[2], white_key()) == Ok::<u64, ParseError>(w),
        parse_captures(header_lines(t, m, w, b)[3], black_key()) == Ok::<u64, ParseError>(b),
{
    let h = header_lines(t, m, w, b);
    lemma_number_line(white_key(), w);
    lemma_number_line(black_key(), b);
    let l0 = h[0];
    assert(l0.subrange(0, 4) =~= turn_key());
    assert(l0.subrange(5, 6) =~= seq![player_glyph(t)]);
    assert(!seq![player_glyph(t)].contains('='));
    assert(plain_line(l0));
    let l1 = h[1];
    let st = status_text(m);
    assert(l1.subrange(0, 9) =~= last_move_key());
    assert(l1.subrange(10, l1.len() as int) =~= st);
    assert(!st.contains('='));
    assert(l1.last() == st.last());
    assert(plain_line(l1));
    assert(h[2] == white_key() + seq!['='] + nat_text(w as nat));
    assert(h[3] == black_key() + seq!['='] + nat_text(b as nat));
}

/// The lines of the text of a board of valid shape are its header lines and its rows.
proof fn lemma_board_text_read(t: GoPlayer, m: LastMove, w: u64, b: u64, g: Seq<Seq<GoCell>>)
    requires
        shape_ok(g),
    ensures
        parse_board(text_lines(board_text(t, m, w, b, g))) == Ok::<(GoPlayer, LastMove, u64, u64, Seq<Seq<GoCell>>), ParseError>((t, m, w, b, g)),
{
    let h = header_lines(t, m, w, b);
    let rows = glyph_rows(g);
    let ls = h + rows;
    lemma_board_text_lines(t, m, w, b, g);
    lemma_header_lines(t, m, w, b);
    assert forall|i: int| 0 <= i < rows.len() implies plain_line(#[trigger] rows[i]) by {
        assert(g[i].len() == g[0].len());
        assert forall|k: int| 0 <= k < rows[i].len() implies #[trigger] rows[i][k] != '\n' by {
            assert(rows[i][k] == g[i][k].glyph());
        }
        assert(rows[i][0] == g[i][0].glyph());
        assert(rows[i].last() == g[i][g[i].len() - 1].glyph());
    }
    assert forall|i: int| 0 <= i < ls.len() implies plain_line(#[trigger] ls[i]) by {
        if i < 4 {
            assert(ls[i] == h[i]);
        } else {
            assert(ls[i] == rows[i - 4]);
        }
    }
    assert forall|i: int, k: int| 0 <= i < ls.len() && 0 <= k < ls[i].len() implies #[trigger] ls[i][k] != '\n' by {
        assert(plain_line(ls[i]));
    }
    lemma_split_lines_text(ls);
    assert forall|i: int| 0 <= i < ls.len() implies (#[trigger] ls[i]).len() > 0 && !is_ws(ls[i][0]) && !is_ws(ls[i].last()) by {
        assert(plain_line(ls[i]));
    }
    lemma_clean_plain(ls);
    assert(text_lines(board_text(t, m, w, b, g)) == ls);
    assert(ls[0] == h[0] && ls[1] == h[1] && ls[2] == h[2] && ls[3] == h[3]);
    assert(ls.subrange(4, ls.len() as int) =~= rows);
    lemma_parse_glyph_rows(g);
}

/// Rendering a board read from a text, and reading the rendering again, gives the same turn,
/// last move, capture counters and points.
pub proof fn lemma_round_trip(text: Seq<char>)
    requires
        parse_board(text_lines(text)) is Ok,
    ensures
        ({
            let (t, m, w, b, g) = parse_board(text_lines(text))->Ok_0;
            parse_board(text_lines(board_text(t, m, w, b, g))) == parse_board(text_lines(text))
        }),
{
    let ls = text_lines(text);
    let (t, m, w, b, g) = parse_board(ls)->Ok_0;
    let body = ls.subrange(4, ls.len() as int);
    lemma_clean_nonempty(split_lines(text));
    assert(parse_grid::<GoCell>(body) is Ok);
    assert(body[0] == ls[4]);
    assert(g.len() == body.len());
    assert(g[0].len() == body[0].len());
    assert forall|i: int| 0 <= i < g.len() implies #[trigger] g[i].len() == g[0].len() by {
        assert(g[i].len() == body[i].len());
        assert(body[i].len() == body[0].len());
    }
    assert(shape_ok(g));
    lemma_board_text_read(t, m, w, b, g);
}

} // verus!
