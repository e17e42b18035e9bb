//! Properties of the board engine that relate several moves or views.
use crate::game::{
    axis_run, drop_token, first_empty, first_empty_from, first_index, first_index_from, has_room, owned_at,
    redact_board, redact_cell, run_from, wins, Cell, Column, GameState,
};
use vstd::arithmetic::div_mod::lemma_add_mod_noop_right;
use vstd::prelude::*;

verus! {

/// Where `first_empty_from` lands: on an empty cell at or after `i`, with no
/// empty cell between, or past the end when no empty cell is left.
pub proof fn lemma_first_empty_from(col: Seq<Cell>, i: int)
    requires
        0 <= i <= col.len(),
    ensures
        i <= first_empty_from(col, i) <= col.len(),
        first_empty_from(col, i) < col.len() ==> col[first_empty_from(col, i)] == Cell::Empty,
        forall|j: int| i <= j < first_empty_from(col, i) ==> col[j] != Cell::Empty,
    decreases col.len() - i,
{
    if i < col.len() && col[i] != Cell::Empty {
        lemma_first_empty_from(col, i + 1);
    }
}

/// Where `first_index_from` lands: on the first entry equal to `x` at or
/// after `i`, or nowhere when no such entry exists.
pub proof fn lemma_first_index_from(s: Seq<Seq<char>>, x: Seq<char>, i: int)
    requires
        0 <= i <= s.len(),
        s.len() <= usize::MAX,
    ensures
        first_index_from(s, x, i) matches Some(k) ==> i <= k < s.len() && s[k as int] == x,
        first_index_from(s, x, i) is None ==> forall|j: int| i <= j < s.len() ==> s[j] != x,
    decreases s.len() - i,
{
    if i < s.len() && s[i] != x {
        lemma_first_index_from(s, x, i + 1);
    }
}

/// A played token lands on an empty cell and leaves every other cell as it was,
/// so no occupied cell is ever overwritten.
pub proof fn lemma_play_never_overwrites(b: Seq<Column>, c: int, owner: usize)
    requires
        has_room(b, c),
    ensures
        b[c][first_empty(b[c])] == Cell::Empty,
        drop_token(b, c, owner).len() == b.len(),
        forall|x: int, y: int|
            0 <= x < b.len() && 0 <= y < b[x].len() && b[x][y] != Cell::Empty ==> #[trigger] drop_token(
                b,
                c,
                owner,
            )[x][y] == b[x][y],
{
    lemma_first_empty_from(b[c], 0);
}

/// The column after `k` tokens: the lowest `min(k, height)` cells taken, the rest empty.
pub open spec fn filled_to(col: Seq<Cell>, k: int) -> bool {
    forall|r: int| 0 <= r < col.len() ==> (#[trigger] col[r] == Cell::Empty <==> r >= k)
}

proof fn lemma_first_empty_of_filled(col: Seq<Cell>, k: int)
    requires
        0 <= k <= col.len(),
        filled_to(col, k),
    ensures
        first_empty(col) == k,
{
    lemma_first_empty_from(col, 0);
    let f = first_empty(col);
    if f < k {
        assert(col[f] == Cell::Empty);
    } else if f > k {
        assert(col[k] != Cell::Empty);
    }
}

/// The hypotheses shared by the column-filling law: `boards[i + 1]` is the
/// board after the `i`-th attempt to play column `c`, starting from an empty column.
pub open spec fn column_replay(boards: Seq<Seq<Column>>, owners: Seq<usize>, c: int) -> bool {
    &&& boards.len() == owners.len() + 1
    &&& 0 <= c < boards[0].len()
    &&& forall|r: int| 0 <= r < boards[0][c].len() ==> #[trigger] boards[0][c][r] == Cell::Empty
    &&& forall|i: int|
        0 <= i < owners.len() ==> #[trigger] boards[i + 1] == if has_room(boards[i], c) {
            drop_token(boards[i], c, owners[i])
        } else {
            boards[i]
        }
}

proof fn lemma_column_after(boards: Seq<Seq<Column>>, owners: Seq<usize>, c: int, i: int)
    requires
        column_replay(boards, owners, c),
        0 <= i <= owners.len(),
    ensures
        boards[i].len() == boards[0].len(),
        boards[i][c].len() == boards[0][c].len(),
        filled_to(boards[i][c], if i < boards[0][c].len() { i } else { boards[0][c].len() as int }),
    decreases i,
{
    let h = boards[0][c].len() as int;
    if i > 0 {
        let j = i - 1;
        lemma_column_after(boards, owners, c, j);
        let k = if j < h { j } else { h };
        lemma_first_empty_of_filled(boards[j][c], k);
        assert(boards[j + 1] == if has_room(boards[j], c) {
            drop_token(boards[j], c, owners[j])
        } else {
            boards[j]
        });
        if j < h {
            let next = boards[i][c];
            assert(next == boards[j][c].update(j, Cell::Owned(owners[j])));
            assert forall|r: int| 0 <= r < next.len() implies (#[trigger] next[r] == Cell::Empty <==> r >= i) by {
                if r != j {
                    assert(next[r] == boards[j][c][r]);
                }
            }
        }
    } else {
        assert forall|r: int| 0 <= r < boards[0][c].len() implies (#[trigger] boards[0][c][r] == Cell::Empty
            <==> r >= 0) by {}
    }
}

/// Playing column `c` again and again from an empty column of height `H`:
/// the first `H` plays find room and every later one finds the column full.
pub proof fn lemma_column_fills_after_height(boards: Seq<Seq<Column>>, owners: Seq<usize>, c: int)
    requires
        column_replay(boards, owners, c),
    ensures
        forall|i: int| 0 <= i < owners.len() ==> (#[trigger] has_room(boards[i], c) <==> i < boards[0][c].len()),
{
    let h = boards[0][c].len() as int;
    assert forall|i: int| 0 <= i < owners.len() implies (#[trigger] has_room(boards[i], c) <==> i < h) by {
        lemma_column_after(boards, owners, c, i);
        lemma_first_empty_of_filled(boards[i][c], if i < h { i } else { h });
    }
}

/// Whether `games[i + 1]` follows `games[i]` by one accepted play, for each `i`,
/// starting at turn index 0.
pub open spec fn accepted_plays(games: Seq<GameState>) -> bool {
    &&& games.len() > 0
    &&& games[0].wf()
    &&& games[0].turn_index == 0
    &&& forall|i: int|
        0 <= i < games.len() - 1 ==> {
            &&& #[trigger] games[i + 1].player_turn_order == games[i].player_turn_order
            &&& games[i + 1].turn_index == (games[i].turn_index + 1) % (games[i].player_turn_order@.len() as int)
        }
}

proof fn lemma_turn_after(games: Seq<GameState>, n: int)
    requires
        accepted_plays(games),
        0 <= n < games.len(),
    ensures
        games[n].player_turn_order == games[0].player_turn_order,
        games[n].turn_index == n % (games[0].player_turn_order@.len() as int),
    decreases n,
{
    let p = games[0].player_turn_order@.len() as int;
    if n > 0 {
        lemma_turn_after(games, n - 1);
        assert(games[n - 1 + 1].player_turn_order == games[n - 1].player_turn_order);
        lemma_add_mod_noop_right(1, n - 1, p);
    }
}

/// Starting from turn index 0, after `n` accepted plays the turn index is
/// `n mod P`, where `P` is the number of players.
pub proof fn lemma_turn_index_counts_plays(games: Seq<GameState>)
    requires
        accepted_plays(games),
    ensures
        forall|n: int|
            0 <= n < games.len() ==> #[trigger] games[n].turn_index == n % (games[0].player_turn_order@.len() as int),
{
    assert forall|n: int| 0 <= n < games.len() implies #[trigger] games[n].turn_index == n % (
    games[0].player_turn_order@.len() as int) by {
        lemma_turn_after(games, n);
    }
}

/// What a redacted board may hold: the viewer's own marker or the unknown marker.
pub open spec fn own_or_unknown(x: Cell, order: Seq<Seq<char>>, viewer: Seq<char>) -> bool {
    x == Cell::Unknown || (first_index(order, viewer) matches Some(i) && x == Cell::Owned(i))
}

/// A redacted board shows the viewer nothing but their own marker and the
/// unknown marker, and redacting it again for the same viewer changes nothing.
pub proof fn lemma_redaction_hides_and_is_idempotent(b: Seq<Column>, order: Seq<Seq<char>>, viewer: Seq<char>)
    requires
        order.len() <= usize::MAX,
    ensures
        forall|c: int, r: int|
            0 <= c < b.len() && 0 <= r < b[c].len() ==> own_or_unknown(
                #[trigger] redact_board(b, order, viewer)[c][r],
                order,
                viewer,
            ),
        redact_board(redact_board(b, order, viewer), order, viewer) == redact_board(b, order, viewer),
{
    let once = redact_board(b, order, viewer);
    let twice = redact_board(once, order, viewer);
    lemma_first_index_from(order, viewer, 0);
    assert forall|c: int, r: int| 0 <= c < b.len() && 0 <= r < b[c].len() implies #[trigger] twice[c][r]
        == once[c][r] by {
        assert(once[c][r] == redact_cell(b[c][r], order, viewer));
    }
    assert forall|c: int| 0 <= c < b.len() implies #[trigger] twice[c] == once[c] by {
        assert(twice[c] =~= once[c]);
    }
    assert(twice =~= once);
}

/// `n` consecutive cells of `owner` after `(c, r)` in direction `(dc, dr)`.
pub open spec fn ray(b: Seq<Column>, c: int, r: int, dc: int, dr: int, owner: usize, n: nat) -> bool
    decreases n,
{
    n == 0 || (owned_at(b, c + dc, r + dr, owner) && ray(b, c + dc, r + dr, dc, dr, owner, (n - 1) as nat))
}

/// A straight line of at least `len` cells of `owner` through `(c, r)` along
/// axis `(dc, dr)`: the cell itself with `a` cells on one side and `e` on the other.
pub open spec fn line_through(b: Seq<Column>, c: int, r: int, dc: int, dr: int, owner: usize, len: nat) -> bool {
    exists|a: nat, e: nat|
        a + e + 1 >= len && #[trigger] ray(b, c, r, dc, dr, owner, a) && #[trigger] ray(b, c, r, -dc, -dr, owner, e)
}

proof fn lemma_run_is_ray(b: Seq<Column>, c: int, r: int, dc: int, dr: int, owner: usize, limit: nat)
    ensures
        ray(b, c, r, dc, dr, owner, run_from(b, c, r, dc, dr, owner, limit)),
    decreases limit,
{
    if limit > 0 && owned_at(b, c + dc, r + dr, owner) {
        lemma_run_is_ray(b, c + dc, r + dr, dc, dr, owner, (limit - 1) as nat);
    }
}

proof fn lemma_ray_bounds_run(b: Seq<Column>, c: int, r: int, dc: int, dr: int, owner: usize, limit: nat, n: nat)
    requires
        ray(b, c, r, dc, dr, owner, n),
    ensures
        run_from(b, c, r, dc, dr, owner, limit) >= if n < limit { n } else { limit },
    decreases limit,
{
    if limit > 0 && n > 0 {
        lemma_ray_bounds_run(b, c + dc, r + dr, dc, dr, owner, (limit - 1) as nat, (n - 1) as nat);
    }
}

proof fn lemma_axis_run_is_line(b: Seq<Column>, c: int, r: int, dc: int, dr: int, owner: usize, len: nat)
    ensures
        axis_run(b, c, r, dc, dr, owner, len) >= len <==> line_through(b, c, r, dc, dr, owner, len),
{
    let a = run_from(b, c, r, dc, dr, owner, len);
    let e = run_from(b, c, r, -dc, -dr, owner, len);
    if axis_run(b, c, r, dc, dr, owner, len) >= len {
        lemma_run_is_ray(b, c, r, dc, dr, owner, len);
        lemma_run_is_ray(b, c, r, -dc, -dr, owner, len);
        assert(ray(b, c, r, dc, dr, owner, a) && ray(b, c, r, -dc, -dr, owner, e));
    }
    if line_through(b, c, r, dc, dr, owner, len) {
        let (x, y) = choose|x: nat, y: nat|
            x + y + 1 >= len && #[trigger] ray(b, c, r, dc, dr, owner, x) && #[trigger] ray(b, c, r, -dc, -dr, owner, y);
        lemma_ray_bounds_run(b, c, r, dc, dr, owner, len, x);
        lemma_ray_bounds_run(b, c, r, -dc, -dr, owner, len, y);
    }
}

/// The move at `(c, r)` wins exactly when a straight line of `len` or more
/// cells of its owner runs through that cell: vertically, horizontally, or
/// along either diagonal.
pub proof fn lemma_win_iff_line(b: Seq<Column>, c: int, r: int, owner: usize, len: nat)
    requires
        owned_at(b, c, r, owner),
    ensures
        wins(b, c, r, owner, len) <==> {
            ||| line_through(b, c, r, 0, 1, owner, len)
            ||| line_through(b, c, r, 1, 0, owner, len)
            ||| line_through(b, c, r, 1, 1, owner, len)
            ||| line_through(b, c, r, 1, -1, owner, len)
        },
{
    lemma_axis_run_is_line(b, c, r, 0, 1, owner, len);
    lemma_axis_run_is_line(b, c, r, 1, 0, owner, len);
    lemma_axis_run_is_line(b, c, r, 1, 1, owner, len);
    lemma_axis_run_is_line(b, c, r, 1, -1, owner, len);
}

/// Whether `(x, y)` lies on the line through `(c, r)` along axis `(dc, dr)`,
/// one of the vertical, horizontal and two diagonal axes or their reverses.
pub open spec fn on_axis(c: int, r: int, dc: int, dr: int, x: int, y: int) -> bool {
    if dc == 0 {
        x == c
    } else if dr == 0 {
        y == r
    } else if dc == dr {
        x - c == y - r
    } else {
        x - c == r - y
    }
}

/// Whether `(x, y)` lies on one of the four straight lines through `(c, r)`.
pub open spec fn on_lines(c: int, r: int, x: int, y: int) -> bool {
    x == c || y == r || x - c == y - r || x - c == r - y
}

proof fn lemma_run_reads_only_axis(
    b1: Seq<Column>,
    b2: Seq<Column>,
    c0: int,
    r0: int,
    c: int,
    r: int,
    dc: int,
    dr: int,
    owner: usize,
    limit: nat,
)
    requires
        -1 <= dc <= 1,
        -1 <= dr <= 1,
        on_axis(c0, r0, dc, dr, c, r),
        forall|x: int, y: int|
            on_axis(c0, r0, dc, dr, x, y) ==> (#[trigger] owned_at(b1, x, y, owner) <==> owned_at(b2, x, y, owner)),
    ensures
        run_from(b1, c, r, dc, dr, owner, limit) == run_from(b2, c, r, dc, dr, owner, limit),
    decreases limit,
{
    if limit > 0 {
        assert(on_axis(c0, r0, dc, dr, c + dc, r + dr));
        assert(owned_at(b1, c + dc, r + dr, owner) <==> owned_at(b2, c + dc, r + dr, owner));
        lemma_run_reads_only_axis(b1, b2, c0, r0, c + dc, r + dr, dc, dr, owner, (limit - 1) as nat);
    }
}

proof fn lemma_axis_run_reads_only_lines(
    b1: Seq<Column>,
    b2: Seq<Column>,
    c: int,
    r: int,
    dc: int,
    dr: int,
    owner: usize,
    len: nat,
)
    requires
        (dc, dr) == (0int, 1int) || (dc, dr) == (1int, 0int) || (dc, dr) == (1int, 1int) || (dc, dr) == (1int, -1int),
        forall|x: int, y: int| on_lines(c, r, x, y) ==> (#[trigger] owned_at(b1, x, y, owner) <==> owned_at(b2, x, y, owner)),
    ensures
        axis_run(b1, c, r, dc, dr, owner, len) == axis_run(b2, c, r, dc, dr, owner, len),
{
    assert forall|x: int, y: int| on_axis(c, r, dc, dr, x, y) implies (#[trigger] owned_at(b1, x, y, owner)
        <==> owned_at(b2, x, y, owner)) by {
        assert(on_lines(c, r, x, y));
    }
    assert forall|x: int, y: int| on_axis(c, r, -dc, -dr, x, y) implies (#[trigger] owned_at(b1, x, y, owner)
        <==> owned_at(b2, x, y, owner)) by {
        assert(on_lines(c, r, x, y));
    }
    lemma_run_reads_only_axis(b1, b2, c, r, c, r, dc, dr, owner, len);
    lemma_run_reads_only_axis(b1, b2, c, r, c, r, -dc, -dr, owner, len);
}

/// Whether a move at `(c, r)` wins depends only on the cells of the four
/// straight lines through it: two boards that agree there on the cells of
/// `owner` give the same verdict.
pub proof fn lemma_win_reads_only_lines(b1: Seq<Column>, b2: Seq<Column>, c: int, r: int, owner: usize, len: nat)
    requires
        forall|x: int, y: int| on_lines(c, r, x, y) ==> (#[trigger] owned_at(b1, x, y, owner) <==> owned_at(b2, x, y, owner)),
    ensures
        wins(b1, c, r, owner, len) == wins(b2, c, r, owner, len),
{
    lemma_axis_run_reads_only_lines(b1, b2, c, r, 0, 1, owner, len);
    lemma_axis_run_reads_only_lines(b1, b2, c, r, 1, 0, owner, len);
    lemma_axis_run_reads_only_lines(b1, b2, c, r, 1, 1, owner, len);
    lemma_axis_run_reads_only_lines(b1, b2, c, r, 1, -1, owner, len);
}

} // verus!
