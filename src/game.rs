//! Board engine: placement, win detection and per-viewer redaction.
use crate::protocol::GameData;
use vstd::prelude::*;

verus! {

/// One cell of a board. A live board holds only `Empty` and `Owned` cells;
/// `Unknown` appears in boards redacted for a viewer.
#[derive(Clone, Copy, Debug, PartialEq, Eq, Structural)]
pub enum Cell {
    Empty,
    Unknown,
    Owned(usize),
}

/// Columns of cells, each column listed from the bottom row up.
pub type GameBoard = Vec<Vec<Cell>>;

/// One column of a board in specifications, bottom row first.
pub type Column = Seq<Cell>;

/// Board width of the canonical variant.
pub const BOARD_WIDTH: usize = 7;

/// Board height of the canonical variant.
pub const BOARD_HEIGHT: usize = 6;

/// Number of aligned tokens that wins the game.
pub const RUN_TO_WIN: usize = 4;

/// The board as a sequence of columns of cells.
pub open spec fn cells_of(board: &GameBoard) -> Seq<Seq<Cell>> {
    Seq::new(board@.len(), |c: int| board@[c]@)
}

/// A board of `width` columns of `height` empty cells.
pub open spec fn empty_board(width: nat, height: nat) -> Seq<Seq<Cell>> {
    Seq::new(width, |c: int| Seq::new(height, |r: int| Cell::Empty))
}

/// Builds a board of `width` columns, each of `height` empty cells.
pub fn create_game_board(width: usize, height: usize) -> (board: GameBoard)
    ensures
        cells_of(&board) == empty_board(width as nat, height as nat),
{
    let mut board: GameBoard = Vec::new();
    let mut c: usize = 0;
    while c < width
        invariant
            c <= width,
            cells_of(&board) == empty_board(c as nat, height as nat),
        decreases width - c,
    {
        let mut col: Vec<Cell> = Vec::new();
        let mut r: usize = 0;
        while r < height
            invariant
                c < width,
                cells_of(&board) == empty_board(c as nat, height as nat),
                r <= height,
                col@ == Seq::new(r as nat, |i: int| Cell::Empty),
            decreases height - r,
        {
            col.push(Cell::Empty);
            r = r + 1;
            assert(col@ =~= Seq::new(r as nat, |i: int| Cell::Empty));
        }
        let ghost before = cells_of(&board);
        assert(before.len() == c);
        board.push(col);
        c = c + 1;
        assert forall|i: int| 0 <= i < c implies #[trigger] cells_of(&board)[i] == empty_board(
            c as nat,
            height as nat,
        )[i] by {
            if i < c - 1 {
                assert(cells_of(&board)[i] == before[i]);
            }
        }
        assert(cells_of(&board) =~= empty_board(c as nat, height as nat));
    }
    board
}

/// Whether the cell at column `c`, row `r` lies on the board and belongs to `owner`.
pub open spec fn owned_at(b: Seq<Seq<Cell>>, c: int, r: int, owner: usize) -> bool {
    &&& 0 <= c < b.len()
    &&& 0 <= r < b[c].len()
    &&& b[c][r] == Cell::Owned(owner)
}

/// Number of consecutive cells of `owner` met when walking from `(c, r)` in
/// direction `(dc, dr)`, the start cell excluded, counting at most `limit`.
pub open spec fn run_from(
    b: Seq<Seq<Cell>>,
    c: int,
    r: int,
    dc: int,
    dr: int,
    owner: usize,
    limit: nat,
) -> nat
    decreases limit,
{
    if limit > 0 && owned_at(b, c + dc, r + dr, owner) {
        1 + run_from(b, c + dc, r + dr, dc, dr, owner, (limit - 1) as nat)
    } else {
        0
    }
}

/// Length of the run through `(c, r)` along axis `(dc, dr)`: both directions
/// plus the cell itself, each direction counted up to `limit`.
pub open spec fn axis_run(
    b: Seq<Seq<Cell>>,
    c: int,
    r: int,
    dc: int,
    dr: int,
    owner: usize,
    limit: nat,
) -> nat {
    run_from(b, c, r, dc, dr, owner, limit) + run_from(b, c, r, -dc, -dr, owner, limit) + 1
}

/// Whether a token of `owner` at `(c, r)` completes a run of `run_length`
/// along the vertical, a diagonal, the horizontal or the other diagonal.
pub open spec fn wins(b: Seq<Seq<Cell>>, c: int, r: int, owner: usize, run_length: nat) -> bool {
    ||| axis_run(b, c, r, 0, 1, owner, run_length) >= run_length
    ||| axis_run(b, c, r, 1, 1, owner, run_length) >= run_length
    ||| axis_run(b, c, r, 1, 0, owner, run_length) >= run_length
    ||| axis_run(b, c, r, 1, -1, owner, run_length) >= run_length
}

/// One step from `pos` by `d` (-1, 0 or 1), if it stays below `bound`.
fn step(pos: usize, d: i8, bound: usize) -> (r: Option<usize>)
    requires
        -1 <= d <= 1,
    ensures
        0 <= pos + d < bound ==> r == Some((pos + d) as usize),
        !(0 <= pos + d < bound) ==> r is None,
{
    if d < 0 {
        if pos == 0 || pos - 1 >= bound {
            None
        } else {
            Some(pos - 1)
        }
    } else if d > 0 {
        if pos >= bound || pos + 1 >= bound {
            None
        } else {
            Some(pos + 1)
        }
    } else if pos < bound {
        Some(pos)
    } else {
        None
    }
}

/// Counts the cells of `owner` met walking from `(column, row)` by `(dc, dr)`.
fn count_run(
    board: &GameBoard,
    column: usize,
    row: usize,
    dc: i8,
    dr: i8,
    owner: usize,
    limit: usize,
) -> (n: usize)
    requires
        -1 <= dc <= 1,
        -1 <= dr <= 1,
    ensures
        n == run_from(cells_of(board), column as int, row as int, dc as int, dr as int, owner, limit as nat),
{
    let ghost b = cells_of(board);
    let mut n: usize = 0;
    let mut c: usize = column;
    let mut r: usize = row;
    while n < limit
        invariant
            b == cells_of(board),
            -1 <= dc <= 1,
            -1 <= dr <= 1,
            n <= limit,
            n + run_from(b, c as int, r as int, dc as int, dr as int, owner, (limit - n) as nat)
                == run_from(b, column as int, row as int, dc as int, dr as int, owner, limit as nat),
        decreases limit - n,
    {
        let nc = match step(c, dc, board.len()) {
            Some(v) => v,
            None => return n,
        };
        let nr = match step(r, dr, board[nc].len()) {
            Some(v) => v,
            None => return n,
        };
        if board[nc][nr] != Cell::Owned(owner) {
            return n;
        }
        c = nc;
        r = nr;
        n = n + 1;
    }
    n
}

/// Whether the token of `owner` at (`row`, `column`) completes a straight run
/// of `run_length` tokens of that owner.
pub fn check_win(board: &GameBoard, row: usize, column: usize, owner: usize, run_length: usize) -> (won: bool)
    ensures
        won == wins(cells_of(board), column as int, row as int, owner, run_length as nat),
{
    let axes: [(i8, i8); 4] = [(0, 1), (1, 1), (1, 0), (1, -1)];
    let mut k: usize = 0;
    while k < 4
        invariant
            k <= 4,
            axes@ == seq![(0i8, 1i8), (1i8, 1i8), (1i8, 0i8), (1i8, -1i8)],
            forall|j: int| 0 <= j < k ==> axis_run(cells_of(board), column as int, row as int,
                axes@[j].0 as int, axes@[j].1 as int, owner, run_length as nat) < run_length,
        decreases 4 - k,
    {
        let (dc, dr) = axes[k];
        let forward = count_run(board, column, row, dc, dr, owner, run_length);
        let backward = count_run(board, column, row, -dc, -dr, owner, run_length);
        if forward as u128 + backward as u128 + 1 >= run_length as u128 {
            return true;
        }
        k = k + 1;
    }
    false
}

/// Index of the first empty cell of `col` at or after `i`, or `col.len()` if none.
pub open spec fn first_empty_from(col: Seq<Cell>, i: int) -> int
    decreases col.len() - i,
{
    if i >= col.len() {
        col.len() as int
    } else if col[i] == Cell::Empty {
        i
    } else {
        first_empty_from(col, i + 1)
    }
}

/// The lowest empty row of a column, or its height if the column is full.
pub open spec fn first_empty(col: Seq<Cell>) -> int {
    first_empty_from(col, 0)
}

/// Whether column `c` exists on the board and has an empty cell left.
pub open spec fn has_room(b: Seq<Column>, c: int) -> bool {
    0 <= c < b.len() && first_empty(b[c]) < b[c].len()
}

/// The board after a token of `owner` falls into column `c`.
pub open spec fn drop_token(b: Seq<Column>, c: int, owner: usize) -> Seq<Column> {
    b.update(c, b[c].update(first_empty(b[c]), Cell::Owned(owner)))
}

/// A cell that a live board may hold when `players` take part.
pub open spec fn live_cell(x: Cell, players: nat) -> bool {
    match x {
        Cell::Empty => true,
        Cell::Owned(p) => p < players,
        Cell::Unknown => false,
    }
}

/// Every cell of `b` is empty or owned by one of `players` players.
pub open spec fn live_board(b: Seq<Column>, players: nat) -> bool {
    forall|c: int, r: int| 0 <= c < b.len() && 0 <= r < b[c].len() ==> live_cell(#[trigger] b[c][r], players)
}

/// Reason a token could not be played.
#[derive(Clone, Copy, Debug, PartialEq, Eq, Structural)]
pub enum PlayError {
    /// The column does not exist or has no empty cell left.
    ColumnFull,
}

/// Returns the lowest empty row of `col`, or its length when it is full.
fn lowest_empty_row(col: &Vec<Cell>) -> (row: usize)
    ensures
        row == first_empty(col@),
{
    let mut i: usize = 0;
    while i < col.len()
        invariant
            i <= col@.len(),
            first_empty_from(col@, i as int) == first_empty(col@),
        decreases col.len() - i,
    {
        if col[i] == Cell::Empty {
            return i;
        }
        i = i + 1;
    }
    i
}

/// A game in progress: the board, whose turn it is, and the order of turns.
#[derive(Clone)]
pub struct GameState {
    pub board: GameBoard,
    pub turn_index: usize,
    pub player_turn_order: Vec<String>,
}

/// The identities of a list of strings.
pub open spec fn ids_of(v: Seq<String>) -> Seq<Seq<char>> {
    Seq::new(v.len(), |i: int| v[i]@)
}

impl GameState {
    /// The board as columns of cells.
    pub open spec fn cells(&self) -> Seq<Column> {
        cells_of(&self.board)
    }

    /// The turn order as identities.
    pub open spec fn order(&self) -> Seq<Seq<char>> {
        ids_of(self.player_turn_order@)
    }

    /// The turn index points into a non-empty turn order, and every cell is
    /// empty or owned by a player of that order.
    pub open spec fn wf(&self) -> bool {
        &&& 0 < self.player_turn_order@.len()
        &&& self.turn_index < self.player_turn_order@.len()
        &&& live_board(self.cells(), self.player_turn_order@.len())
    }

    /// Drops a token of the player at `player_index` of the turn order into
    /// `column_index`, passes the turn on, and reports whether the move wins.
    pub fn play(&mut self, column_index: usize, player_index: usize) -> (r: Result<bool, PlayError>)
        requires
            old(self).wf(),
            player_index < old(self).player_turn_order@.len(),
        ensures
            final(self).wf(),
            r is Ok <==> has_room(old(self).cells(), column_index as int),
            r is Ok ==> {
                &&& final(self).cells() == drop_token(old(self).cells(), column_index as int, player_index)
                &&& final(self).player_turn_order == old(self).player_turn_order
                &&& final(self).turn_index == (old(self).turn_index + 1) % (
                old(self).player_turn_order@.len() as int)
                &&& r == Ok::<bool, PlayError>(
                    wins(
                        final(self).cells(),
                        column_index as int,
                        first_empty(old(self).cells()[column_index as int]),
                        player_index,
                        RUN_TO_WIN as nat,
                    ),
                )
            },
            r is Err ==> *final(self) == *old(self) && r == Err::<bool, PlayError>(PlayError::ColumnFull),
    {
        if column_index >= self.board.len() {
            return Err(PlayError::ColumnFull);
        }
        let row = lowest_empty_row(&self.board[column_index]);
        if row >= self.board[column_index].len() {
            return Err(PlayError::ColumnFull);
        }
        let ghost before = self.cells();
        let players = self.player_turn_order.len();
        assert(self.turn_index < players);
        self.turn_index = (self.turn_index + 1) % players;
        self.board[column_index][row] = Cell::Owned(player_index);
        assert(self.cells() =~~= drop_token(before, column_index as int, player_index));
        Ok(check_win(&self.board, row, column_index, player_index, RUN_TO_WIN))
    }

    /// The identity of the player whose turn it is.
    pub fn get_turn_player(&self) -> (id: String)
        requires
            self.wf(),
        ensures
            id@ == self.order()[self.turn_index as int],
    {
        self.player_turn_order[self.turn_index].clone()
    }

    /// The position of `player_id` in the turn order, if it takes part.
    pub fn get_player_index(&self, player_id: &str) -> (r: Option<usize>)
        ensures
            r == first_index(self.order(), player_id@),
    {
        position_of(&self.player_turn_order, player_id)
    }

    /// The game as `player_pov` may see it: the board redacted for that viewer,
    /// or unredacted for `None`, with the turn order and turn index.
    pub fn as_shared_game_data(&self, player_pov: Option<&str>) -> (d: GameData)
        ensures
            d.turn_index == self.turn_index,
            d.player_order@ == self.player_turn_order@,
            player_pov is None ==> cells_of(&d.play_indexes) == self.cells(),
            player_pov matches Some(v) ==> cells_of(&d.play_indexes) == redact_board(
                self.cells(),
                self.order(),
                v@,
            ),
    {
        GameData {
            turn_index: self.turn_index,
            player_order: clone_ids(&self.player_turn_order),
            play_indexes: redact_for_viewer(&self.board, &self.player_turn_order, player_pov),
        }
    }
}

/// A copy of a list of strings.
pub fn clone_ids(ids: &Vec<String>) -> (r: Vec<String>)
    ensures
        r@ == ids@,
{
    let mut r: Vec<String> = Vec::new();
    let mut i: usize = 0;
    while i < ids.len()
        invariant
            i <= ids@.len(),
            r@ == ids@.subrange(0, i as int),
        decreases ids.len() - i,
    {
        r.push(ids[i].clone());
        i = i + 1;
        assert(r@ =~= ids@.subrange(0, i as int));
    }
    assert(r@ =~= ids@);
    r
}

/// Position of the first entry of `ids` equal to `id`.
pub fn position_of(ids: &Vec<String>, id: &str) -> (r: Option<usize>)
    ensures
        r == first_index(ids_of(ids@), id@),
{
    let key = id.to_owned();
    let ghost s = ids_of(ids@);
    let mut i: usize = 0;
    while i < ids.len()
        invariant
            s == ids_of(ids@),
            i <= ids@.len(),
            key@ == id@,
            first_index_from(s, id@, i as int) == first_index(s, id@),
        decreases ids.len() - i,
    {
        assert(s[i as int] == ids@[i as int]@);
        if ids[i] == key {
            return Some(i);
        }
        i = i + 1;
    }
    None
}

/// What `viewer` sees of a cell: their own tokens under their own index in
/// the turn order, anything else as unknown.
pub open spec fn redact_cell(x: Cell, order: Seq<Seq<char>>, viewer: Seq<char>) -> Cell {
    match x {
        Cell::Owned(p) => if p < order.len() && order[p as int] == viewer {
            match first_index(order, viewer) {
                Some(i) => Cell::Owned(i),
                None => Cell::Unknown,
            }
        } else {
            Cell::Unknown
        },
        _ => Cell::Unknown,
    }
}

/// The board as `viewer` sees it.
pub open spec fn redact_board(b: Seq<Column>, order: Seq<Seq<char>>, viewer: Seq<char>) -> Seq<Column> {
    Seq::new(b.len(), |c: int| Seq::new(b[c].len(), |r: int| redact_cell(b[c][r], order, viewer)))
}

/// Redacts `board` for `viewer`: each cell of the viewer becomes the viewer's
/// index in `turn_order`, every other cell unknown. `None` sees the raw board.
pub fn redact_for_viewer(board: &GameBoard, turn_order: &Vec<String>, viewer: Option<&str>) -> (r: GameBoard)
    ensures
        viewer is None ==> cells_of(&r) == cells_of(board),
        viewer matches Some(v) ==> cells_of(&r) == redact_board(cells_of(board), ids_of(turn_order@), v@),
{
    let ghost b = cells_of(board);
    let ghost order = ids_of(turn_order@);
    let v = match viewer {
        None => {
            return clone_board(board);
        },
        Some(v) => v,
    };
    let own = position_of(turn_order, v);
    let vid = v.to_owned();
    let ghost red = redact_board(b, order, v@);
    let mut out: GameBoard = Vec::new();
    let mut c: usize = 0;
    while c < board.len()
        invariant
            b == cells_of(board),
            order == ids_of(turn_order@),
            red == redact_board(b, order, v@),
            own == first_index(order, v@),
            vid@ == v@,
            c <= board@.len(),
            cells_of(&out) == red.subrange(0, c as int),
        decreases board.len() - c,
    {
        let mut col: Vec<Cell> = Vec::new();
        let mut r: usize = 0;
        while r < board[c].len()
            invariant
                b == cells_of(board),
                order == ids_of(turn_order@),
                red == redact_board(b, order, v@),
                own == first_index(order, v@),
                vid@ == v@,
                c < board@.len(),
                cells_of(&out) == red.subrange(0, c as int),
                r <= board@[c as int]@.len(),
                col@ == red[c as int].subrange(0, r as int),
            decreases board[c as int]@.len() - r,
        {
            let x = match board[c][r] {
                Cell::Owned(p) => if p < turn_order.len() && turn_order[p] == vid {
                    match own {
                        Some(i) => Cell::Owned(i),
                        None => Cell::Unknown,
                    }
                } else {
                    Cell::Unknown
                },
                _ => Cell::Unknown,
            };
            col.push(x);
            r = r + 1;
            assert(col@ =~= red[c as int].subrange(0, r as int));
        }
        assert(col@ =~= red[c as int]);
        let ghost before = cells_of(&out);
        out.push(col);
        c = c + 1;
        assert(cells_of(&out) =~= red.subrange(0, c as int)) by {
            assert(before.len() == c - 1);
            assert forall|i: int| 0 <= i < c implies #[trigger] cells_of(&out)[i] == red[i] by {
                if i < c - 1 {
                    assert(cells_of(&out)[i] == before[i]);
                }
            }
        }
    }
    assert(cells_of(&out) =~= red);
    out
}

/// A copy of a board.
fn clone_board(board: &GameBoard) -> (r: GameBoard)
    ensures
        cells_of(&r) == cells_of(board),
{
    let mut out: GameBoard = Vec::new();
    let mut c: usize = 0;
    while c < board.len()
        invariant
            c <= board@.len(),
            cells_of(&out) == cells_of(board).subrange(0, c as int),
        decreases board.len() - c,
    {
        let mut col: Vec<Cell> = Vec::new();
        let mut r: usize = 0;
        while r < board[c].len()
            invariant
                c < board@.len(),
                cells_of(&out) == cells_of(board).subrange(0, c as int),
                r <= board@[c as int]@.len(),
                col@ == board@[c as int]@.subrange(0, r as int),
            decreases board[c as int]@.len() - r,
        {
            col.push(board[c][r]);
            r = r + 1;
            assert(col@ =~= board@[c as int]@.subrange(0, r as int));
        }
        assert(col@ =~= board@[c as int]@);
        let ghost before = cells_of(&out);
        out.push(col);
        c = c + 1;
        assert(cells_of(&out) =~= cells_of(board).subrange(0, c as int)) by {
            assert(before.len() == c - 1);
            assert forall|i: int| 0 <= i < c implies #[trigger] cells_of(&out)[i] == cells_of(board)[i] by {
                if i < c - 1 {
                    assert(cells_of(&out)[i] == before[i]);
                }
            }
        }
    }
    assert(cells_of(&out) =~= cells_of(board));
    out
}

/// Position of the first occurrence of `x` in `s` at or after `i`.
pub open spec fn first_index_from(s: Seq<Seq<char>>, x: Seq<char>, i: int) -> Option<usize>
    decreases s.len() - i,
{
    if i < 0 || i >= s.len() {
        None
    } else if s[i] == x {
        Some(i as usize)
    } else {
        first_index_from(s, x, i + 1)
    }
}

/// Position of the first occurrence of `x` in `s`.
pub open spec fn first_index(s: Seq<Seq<char>>, x: Seq<char>) -> Option<usize> {
    first_index_from(s, x, 0)
}

} // verus!
