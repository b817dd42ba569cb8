//! One game room: a board, two token-guarded seats, the counting-phase
//! bookkeeping (dead-group marks and two-sided readiness), the guess-stone
//! side channel, and the monotonic generation counter that drives the
//! pull-based sync protocol. Every operation's effect on the room — and on
//! the generation counter in particular — is stated exactly.

use vstd::prelude::*;
use crate::board::{
    clear_cells, fresh_model, move_ok, opp_of, pass_loc, replay, step, Board, BoardModel,
    GameResult, StonesInAtari,
};
use crate::geom::{Color, Loc, Move, Player};
use crate::grid::{gcols, grows, group_of, interior};
use crate::text::str_eq;

verus! {

/// The wire name of a cell colour.
pub open spec fn color_name(c: Color) -> Seq<char> {
    match c {
        Color::Empty => "empty"@,
        Color::Black => "black"@,
        Color::White => "white"@,
        Color::Invalid => "invalid"@,
    }
}

/// Stringifies a cell colour for the wire.
pub fn color_to_string(color: Color) -> (r: String)
    ensures
        r@ == color_name(color),
{
    match color {
        Color::Empty => String::from_str("empty"),
        Color::Black => String::from_str("black"),
        Color::White => String::from_str("white"),
        Color::Invalid => String::from_str("invalid"),
    }
}

/// The playable interior dimensions of a board (sentinel ring trimmed).
pub fn get_playable_dimensions(board: &Board) -> (r: (usize, usize))
    requires
        board.wf(),
    ensures
        r.0 == grows(board@.grid) - 2,
        r.1 == gcols(board@.grid) - 2,
{
    proof {
        board.lemma_wf();
    }
    let (rows, cols) = board.board_size();
    (rows - 2, cols - 2)
}

/// The view of a table of strings, character level.
pub open spec fn table_view(v: Seq<Vec<String>>) -> Seq<Seq<Seq<char>>> {
    v.map_values(|r: Vec<String>| r@.map_values(|s: String| s@))
}

/// The wire form of a grid: the playable interior, stringified cell by
/// cell.
pub open spec fn trimmed_grid(g: Seq<Seq<Color>>) -> Seq<Seq<Seq<char>>> {
    Seq::new(
        (grows(g) - 2) as nat,
        |i: int| Seq::new((gcols(g) - 2) as nat, |j: int| color_name(g[i + 1][j + 1])),
    )
}

/// The wire form of the board: rows and columns trimmed to the playable
/// interior, each cell stringified.
pub fn get_board_state(board: &Board) -> (r: Vec<Vec<String>>)
    requires
        board.wf(),
    ensures
        table_view(r@) == trimmed_grid(board@.grid),
{
    proof {
        board.lemma_wf();
    }
    let (rows, cols) = get_playable_dimensions(board);
    let mut out: Vec<Vec<String>> = Vec::new();
    let mut i: usize = 0;
    while i < rows
        invariant
            board.wf(),
            rows == grows(board@.grid) - 2,
            cols == gcols(board@.grid) - 2,
            i <= rows,
            out@.len() == i,
            forall|k: int| 0 <= k < i ==> (#[trigger] out@[k])@.map_values(|s: String| s@)
                == trimmed_grid(board@.grid)[k],
        decreases rows - i,
    {
        let mut rowv: Vec<String> = Vec::new();
        let mut j: usize = 0;
        while j < cols
            invariant
                board.wf(),
                rows == grows(board@.grid) - 2,
                cols == gcols(board@.grid) - 2,
                i < rows,
                j <= cols,
                rowv@.len() == j,
                forall|k: int| 0 <= k < j ==> #[trigger] rowv@[k]@ == color_name(
                    board@.grid[i + 1][k + 1],
                ),
            decreases cols - j,
        {
            proof {
                board.lemma_wf();
            }
            let c = board.get(Loc { row: i + 1, col: j + 1 });
            rowv.push(color_to_string(c));
            j += 1;
        }
        proof {
            assert(rowv@.map_values(|s: String| s@) =~= trimmed_grid(board@.grid)[i as int]);
        }
        out.push(rowv);
        i += 1;
    }
    proof {
        assert forall|k: int| 0 <= k < out@.len() implies #[trigger] table_view(out@)[k]
            == trimmed_grid(board@.grid)[k] by {
            assert(table_view(out@)[k] == out@[k]@.map_values(|s: String| s@));
        }
        assert(table_view(out@) =~= trimmed_grid(board@.grid));
    }
    out
}

/// Copies a table of strings.
pub fn clone_table(v: &Vec<Vec<String>>) -> (r: Vec<Vec<String>>)
    ensures
        table_view(r@) == table_view(v@),
{
    let mut out: Vec<Vec<String>> = Vec::new();
    let n = v.len();
    let mut i: usize = 0;
    while i < n
        invariant
            i <= n,
            n == v@.len(),
            out@.len() == i,
            forall|k: int| 0 <= k < i ==> (#[trigger] out@[k])@.map_values(|s: String| s@)
                == v@[k]@.map_values(|s: String| s@),
        decreases n - i,
    {
        let mut rowv: Vec<String> = Vec::new();
        let m = v[i].len();
        let mut j: usize = 0;
        while j < m
            invariant
                i < v@.len(),
                j <= m,
                m == v@[i as int]@.len(),
                rowv@.len() == j,
                forall|k: int| 0 <= k < j ==> #[trigger] rowv@[k]@ == v@[i as int]@[k]@,
            decreases m - j,
        {
            rowv.push(v[i][j].clone());
            j += 1;
        }
        proof {
            assert(rowv@.map_values(|s: String| s@) =~= v@[i as int]@.map_values(
                |s: String| s@,
            ));
        }
        out.push(rowv);
        i += 1;
    }
    proof {
        assert forall|k: int| 0 <= k < out@.len() implies #[trigger] table_view(out@)[k]
            == table_view(v@)[k] by {
            assert(table_view(out@)[k] == out@[k]@.map_values(|s: String| s@));
            assert(table_view(v@)[k] == v@[k]@.map_values(|s: String| s@));
        }
        assert(table_view(out@) =~= table_view(v@));
    }
    out
}

/// The view of a list of coordinate pairs.
pub open spec fn pairs_view(v: Seq<Vec<usize>>) -> Seq<Seq<usize>> {
    v.map_values(|x: Vec<usize>| x@)
}

/// Copies a list of coordinate pairs.
pub fn clone_pairs(v: &Vec<Vec<usize>>) -> (r: Vec<Vec<usize>>)
    ensures
        pairs_view(r@) == pairs_view(v@),
{
    let mut out: Vec<Vec<usize>> = Vec::new();
    let n = v.len();
    let mut i: usize = 0;
    while i < n
        invariant
            i <= n,
            n == v@.len(),
            out@.len() == i,
            forall|k: int| 0 <= k < i ==> #[trigger] out@[k]@ == v@[k]@,
        decreases n - i,
    {
        let mut rowv: Vec<usize> = Vec::new();
        let m = v[i].len();
        let mut j: usize = 0;
        while j < m
            invariant
                i < v@.len(),
                j <= m,
                m == v@[i as int]@.len(),
                rowv@.len() == j,
                forall|k: int| 0 <= k < j ==> #[trigger] rowv@[k] == v@[i as int]@[k],
            decreases m - j,
        {
            rowv.push(v[i][j]);
            j += 1;
        }
        proof {
            assert(rowv@ =~= v@[i as int]@);
        }
        out.push(rowv);
        i += 1;
    }
    proof {
        assert(pairs_view(out@) =~= pairs_view(v@));
    }
    out
}

/// The view of a list of groups of locations.
pub open spec fn loc_groups_view(v: Seq<Vec<Loc>>) -> Seq<Seq<Loc>> {
    v.map_values(|x: Vec<Loc>| x@)
}

/// Copies a list of groups of locations.
pub fn clone_loc_groups(v: &Vec<Vec<Loc>>) -> (r: Vec<Vec<Loc>>)
    ensures
        loc_groups_view(r@) == loc_groups_view(v@),
{
    let mut out: Vec<Vec<Loc>> = Vec::new();
    let n = v.len();
    let mut i: usize = 0;
    while i < n
        invariant
            i <= n,
            n == v@.len(),
            out@.len() == i,
            forall|k: int| 0 <= k < i ==> #[trigger] out@[k]@ == v@[k]@,
        decreases n - i,
    {
        let mut rowv: Vec<Loc> = Vec::new();
        let m = v[i].len();
        let mut j: usize = 0;
        while j < m
            invariant
                i < v@.len(),
                j <= m,
                m == v@[i as int]@.len(),
                rowv@.len() == j,
                forall|k: int| 0 <= k < j ==> #[trigger] rowv@[k] == v@[i as int]@[k],
            decreases m - j,
        {
            rowv.push(v[i][j]);
            j += 1;
        }
        proof {
            assert(rowv@ =~= v@[i as int]@);
        }
        out.push(rowv);
        i += 1;
    }
    proof {
        assert(loc_groups_view(out@) =~= loc_groups_view(v@));
    }
    out
}

/// The lowercase wire name of a player.
pub open spec fn player_name(p: Player) -> Seq<char> {
    match p {
        Player::Black => "black"@,
        Player::White => "white"@,
    }
}

/// The capitalised name of a player, as used in messages.
pub open spec fn debug_name(p: Player) -> Seq<char> {
    match p {
        Player::Black => "Black"@,
        Player::White => "White"@,
    }
}

/// The display form of a game result.
pub open spec fn result_chars(r: GameResult) -> Seq<char> {
    match r {
        GameResult::Draw => "D R A W !"@,
        GameResult::Points(p, m) => (if p == Player::Black {
            "Black +"@
        } else {
            "White +"@
        }) + crate::text::half_digits(m as int),
        GameResult::Resignation(p) => if p == Player::Black {
            "White + R"@
        } else {
            "Black + R"@
        },
    }
}

/// The capitalised name of a player, executable form.
fn debug_name_string(p: Player) -> (r: String)
    ensures
        r@ == debug_name(p),
{
    match p {
        Player::Black => String::from_str("Black"),
        Player::White => String::from_str("White"),
    }
}

/// The room is in the counting phase: the last two accepted moves are both
/// passes.
pub open spec fn counting_phase(b: BoardModel) -> bool {
    b.history.len() > 1 && pass_loc(b.history[b.history.len() - 2].loc) && pass_loc(
        b.history[b.history.len() - 1].loc,
    )
}

/// Groups in atari as carried in a snapshot.
pub struct PlayerGroupsInAtari {
    pub groups: Vec<Vec<Loc>>,
}

impl PlayerGroupsInAtari {
    /// An empty list.
    pub fn new() -> (r: PlayerGroupsInAtari)
        ensures
            r.groups@.len() == 0,
    {
        PlayerGroupsInAtari { groups: Vec::new() }
    }
}

/// The full per-room snapshot returned to clients.
pub struct GameState {
    pub message: String,
    pub board: Vec<Vec<String>>,
    pub black_player_board: Vec<Vec<String>>,
    pub white_player_board: Vec<Vec<String>>,
    pub current_player: String,
    pub black_captures: usize,
    pub white_captures: usize,
    pub black_guess_stones: Vec<Vec<usize>>,
    pub white_guess_stones: Vec<Vec<usize>>,
    pub groups_in_atari: PlayerGroupsInAtari,
    pub stones_in_atari: StonesInAtari,
    pub counting: bool,
    pub winner: Option<String>,
    pub board_generation_number: usize,
    pub rejoin_required: bool,
    pub groups_selected_during_counting: Vec<Vec<Loc>>,
    pub ready_to_count: (bool, bool),
}

impl GameState {
    /// A snapshot of the given board: message and generation as given, the
    /// player boards equal to the shared board, the reported player
    /// "counting" once two closing passes were played, and the optional
    /// parts empty until a builder fills them.
    pub fn new(
        message: String,
        board_state: Vec<Vec<String>>,
        board: &Board,
        board_generation_number: usize,
    ) -> (r: GameState)
        ensures
            r.message == message,
            table_view(r.board@) == table_view(board_state@),
            table_view(r.black_player_board@) == table_view(board_state@),
            table_view(r.white_player_board@) == table_view(board_state@),
            r.current_player@ == if counting_phase(board@) {
                "counting"@
            } else {
                player_name(board@.current)
            },
            r.black_captures as int == board@.black_captures,
            r.white_captures as int == board@.white_captures,
            r.black_guess_stones@.len() == 0,
            r.white_guess_stones@.len() == 0,
            r.groups_in_atari.groups@.len() == 0,
            r.stones_in_atari.black == 0 && r.stones_in_atari.white == 0,
            r.counting == counting_phase(board@),
            r.winner is None,
            r.board_generation_number == board_generation_number,
            r.rejoin_required == false,
            r.groups_selected_during_counting@.len() == 0,
            r.ready_to_count == (false, false),
    {
        let shared = clone_table(&board_state);
        let for_black = clone_table(&board_state);
        let counting = board.last_two_moves_are_pass();
        let current_player = if counting {
            String::from_str("counting")
        } else {
            board.get_current_player().to_string()
        };
        GameState {
            message,
            board: shared,
            black_player_board: for_black,
            white_player_board: board_state,
            current_player,
            black_captures: board.get_black_captures(),
            white_captures: board.get_white_captures(),
            black_guess_stones: Vec::new(),
            white_guess_stones: Vec::new(),
            groups_in_atari: PlayerGroupsInAtari::new(),
            stones_in_atari: StonesInAtari::new(),
            counting,
            winner: None,
            board_generation_number,
            rejoin_required: false,
            groups_selected_during_counting: Vec::new(),
            ready_to_count: (false, false),
        }
    }

    /// The snapshot with the guess stones filled in.
    pub fn with_guess_stones(
        self,
        black_stones: Vec<Vec<usize>>,
        white_stones: Vec<Vec<usize>>,
    ) -> (r: GameState)
        ensures
            r == (GameState {
                black_guess_stones: black_stones,
                white_guess_stones: white_stones,
                ..self
            }),
    {
        GameState { black_guess_stones: black_stones, white_guess_stones: white_stones, ..self }
    }

    /// The snapshot with the atari counts filled in.
    pub fn with_stones_in_atari(self, stones: StonesInAtari) -> (r: GameState)
        ensures
            r == (GameState { stones_in_atari: stones, ..self }),
    {
        GameState { stones_in_atari: stones, ..self }
    }

    /// The snapshot with the winner filled in.
    pub fn with_winner(self, winner: String) -> (r: GameState)
        ensures
            r == (GameState { winner: Some(winner), ..self }),
    {
        GameState { winner: Some(winner), ..self }
    }

    /// The snapshot marked as requiring a rejoin.
    pub fn with_rejoin_required(self) -> (r: GameState)
        ensures
            r == (GameState { rejoin_required: true, ..self }),
    {
        GameState { rejoin_required: true, ..self }
    }

    /// The snapshot with the counting-phase selections and readiness.
    pub fn with_counting_state(self, selected: Vec<Vec<Loc>>, ready: (bool, bool)) -> (r:
        GameState)
        ensures
            r == (GameState {
                groups_selected_during_counting: selected,
                ready_to_count: ready,
                ..self
            }),
    {
        GameState { groups_selected_during_counting: selected, ready_to_count: ready, ..self }
    }
}

/// A cell-click request as the transport delivers it: the clicked playable
/// coordinates, the caller's view and token, and the generation the caller
/// last saw.
pub struct CellClick {
    pub frontend_board: String,
    pub row: usize,
    pub col: usize,
    pub match_string: String,
    pub session_token: String,
    pub board_generation_number: usize,
}

/// A seated player: the opaque bearer token and the colour it holds.
pub struct PlayerSession {
    pub session_token: String,
    pub color: Player,
}

/// The two seats of a room.
pub struct PlayersState {
    pub black: Option<PlayerSession>,
    pub white: Option<PlayerSession>,
}

impl PlayersState {
    /// Both seats empty.
    pub fn new() -> (r: PlayersState)
        ensures
            r.black is None,
            r.white is None,
    {
        PlayersState { black: None, white: None }
    }
}

/// The seat's token, if the seat is taken.
pub open spec fn seat_token(s: Option<PlayerSession>) -> Option<Seq<char>> {
    match s {
        Some(p) => Some(p.session_token@),
        None => None,
    }
}

/// A named game room: board, seats, counting bookkeeping, guess stones and
/// the generation counter.
pub struct GameRoom {
    pub board: Board,
    pub players: PlayersState,
    pub game_generation_number: usize,
    pub groups_marked_dead: Vec<Vec<Loc>>,
    pub ready_to_count_black: bool,
    pub ready_to_count_white: bool,
    pub black_guess_stones: Vec<Vec<usize>>,
    pub white_guess_stones: Vec<Vec<usize>>,
}

/// Every marked group is a non-empty list of interior locations.
pub open spec fn marked_group_ok(g: Seq<Seq<Color>>, grp: Seq<Loc>) -> bool {
    grp.len() > 0 && forall|j: int| 0 <= j < grp.len() ==> interior(g, #[trigger] grp[j])
}

/// A well-formed room: the board is well-formed and the marked dead groups
/// point into the playable interior.
pub open spec fn room_wf(r: GameRoom) -> bool {
    &&& r.board.wf()
    &&& forall|k: int|
        0 <= k < r.groups_marked_dead@.len() ==> marked_group_ok(
            r.board@.grid,
            (#[trigger] r.groups_marked_dead@[k])@,
        )
}

impl GameRoom {
    /// A fresh room: a 15 × 15 padded board (13 × 13 playable) with komi
    /// 1.5, empty seats, generation zero, nothing marked.
    pub fn new() -> (r: GameRoom)
        ensures
            room_wf(r),
            r.board@ == fresh_model(15, 15, 3),
            r.board.atari_current(),
            crate::board::synced(r.board@),
            r.players.black is None,
            r.players.white is None,
            r.game_generation_number == 0,
            r.groups_marked_dead@.len() == 0,
            !r.ready_to_count_black,
            !r.ready_to_count_white,
            r.black_guess_stones@.len() == 0,
            r.white_guess_stones@.len() == 0,
    {
        GameRoom {
            board: Board::new(15, 15, 3),
            players: PlayersState::new(),
            game_generation_number: 0,
            groups_marked_dead: Vec::new(),
            ready_to_count_black: false,
            ready_to_count_white: false,
            black_guess_stones: Vec::new(),
            white_guess_stones: Vec::new(),
        }
    }
}

/// True when the token names the given seat's session.
fn token_is(seat: &Option<PlayerSession>, tok: &str) -> (r: bool)
    ensures
        r == (match seat_token(*seat) {
            Some(t) => t == tok@,
            None => false,
        }),
{
    match seat {
        Some(p) => str_eq(p.session_token.as_str(), tok),
        None => false,
    }
}

/// A placeholder snapshot for callers whose seat is gone: a fresh board
/// (so nothing but playable cell names reaches the wire) and the rejoin
/// flag set.
pub fn game_data_not_accessible() -> (r: GameState)
    ensures
        r.rejoin_required,
        r.board_generation_number == 0,
        table_view(r.board@) == trimmed_grid(fresh_model(15, 15, 3).grid),
        table_view(r.black_player_board@) == trimmed_grid(fresh_model(15, 15, 3).grid),
        table_view(r.white_player_board@) == trimmed_grid(fresh_model(15, 15, 3).grid),
        r.message@ == "Game data not accessible"@,
{
    let board = Board::new(15, 15, 3);
    let state = get_board_state(&board);
    GameState::new(String::from_str("Game data not accessible"), state, &board, 0)
        .with_rejoin_required()
}

/// Element-for-element equality of two groups of locations.
pub fn loc_vec_eq(a: &Vec<Loc>, b: &Vec<Loc>) -> (r: bool)
    ensures
        r == (a@ == b@),
{
    if a.len() != b.len() {
        return false;
    }
    let n = a.len();
    let mut i: usize = 0;
    while i < n
        invariant
            i <= n,
            n == a@.len() == b@.len(),
            forall|k: int| 0 <= k < i ==> a@[k] == b@[k],
        decreases n - i,
    {
        if !(a[i].row == b[i].row && a[i].col == b[i].col) {
            proof {
                assert(a@[i as int] != b@[i as int]);
            }
            return false;
        }
        i += 1;
    }
    proof {
        assert(a@ =~= b@);
    }
    true
}

/// Finds the index of a group equal to `g` in `v`.
fn find_group(v: &Vec<Vec<Loc>>, g: &Vec<Loc>) -> (r: Option<usize>)
    ensures
        match r {
            Some(i) => i < v@.len() && v@[i as int]@ == g@,
            None => forall|k: int| 0 <= k < v@.len() ==> (#[trigger] v@[k])@ != g@,
        },
{
    let n = v.len();
    let mut i: usize = 0;
    while i < n
        invariant
            i <= n,
            n == v@.len(),
            forall|k: int| 0 <= k < i ==> (#[trigger] v@[k])@ != g@,
        decreases n - i,
    {
        if loc_vec_eq(&v[i], g) {
            return Some(i);
        }
        i += 1;
    }
    None
}

/// Copies a group of locations.
fn clone_locs(v: &Vec<Loc>) -> (r: Vec<Loc>)
    ensures
        r@ == v@,
{
    let mut out: Vec<Loc> = Vec::new();
    let n = v.len();
    let mut i: usize = 0;
    while i < n
        invariant
            i <= n,
            n == v@.len(),
            out@.len() == i,
            forall|k: int| 0 <= k < i ==> #[trigger] out@[k] == v@[k],
        decreases n - i,
    {
        out.push(v[i]);
        i += 1;
    }
    proof {
        assert(out@ =~= v@);
    }
    out
}

/// A failure of a room operation, mapped by the transport to its status.
#[derive(Debug, Clone, Copy, PartialEq, Eq, Structural)]
pub enum ApiError {
    /// No room of that name exists.
    NotFound,
    /// The operation needs a seated player's token.
    Unauthorized,
}

/// Original token test of the transport layer: true when the request does
/// NOT come from a seated player (empty token, or a token matching no
/// seat).
pub fn is_request_from_player(session_token: &str, room: &GameRoom) -> (r: bool)
    ensures
        r == (session_token@.len() == 0 || !(seat_token(room.players.black) == Some(
            session_token@,
        ) || seat_token(room.players.white) == Some(session_token@))),
{
    let empty = session_token.is_empty();
    let matches = token_is(&room.players.black, session_token) || token_is(
        &room.players.white,
        session_token,
    );
    empty || !matches
}

/// A cell click: if it is the caller's turn, offer the placement to the
/// board; the generation advances exactly when the move is accepted, and
/// the reply always carries the room's current generation and board.
pub fn cell_click(
    room: &mut GameRoom,
    frontend_board: &str,
    row: usize,
    col: usize,
    frontend_generation: usize,
) -> (r: GameState)
    requires
        room_wf(*old(room)),
        old(room).game_generation_number < usize::MAX,
    ensures
        room_wf(*final(room)),
        final(room).players == old(room).players,
        final(room).groups_marked_dead == old(room).groups_marked_dead,
        final(room).ready_to_count_black == old(room).ready_to_count_black,
        final(room).ready_to_count_white == old(room).ready_to_count_white,
        final(room).black_guess_stones == old(room).black_guess_stones,
        final(room).white_guess_stones == old(room).white_guess_stones,
        ({
            let turn_ok = frontend_board@ == player_name(old(room).board@.current)
                || frontend_board@ == "main"@;
            let mv = Move {
                player: old(room).board@.current,
                loc: Loc { row: (row + 1) as usize, col: (col + 1) as usize },
            };
            if !turn_ok {
                &&& final(room).board == old(room).board
                &&& final(room).game_generation_number == old(room).game_generation_number
                &&& r.message@ == "It's not your turn!"@
            } else if row < 98 && col < 98 {
                &&& final(room).board@ == step(old(room).board@, mv)
                &&& final(room).game_generation_number == old(room).game_generation_number + (
                if move_ok(old(room).board@, mv) {
                    1int
                } else {
                    0int
                })
            } else {
                &&& final(room).board == old(room).board
                &&& final(room).game_generation_number == old(room).game_generation_number
            }
        }),
        r.board_generation_number == final(room).game_generation_number,
        table_view(r.board@) == trimmed_grid(final(room).board@.grid),
{
    let current = room.board.get_current_player();
    let cur_name = current.to_string();
    let turn_ok = str_eq(frontend_board, cur_name.as_str()) || str_eq(frontend_board, "main");
    if !turn_ok {
        let state = get_board_state(&room.board);
        let sia = room.board.get_stones_in_atari();
        return GameState::new(
            String::from_str("It's not your turn!"),
            state,
            &room.board,
            room.game_generation_number,
        ).with_stones_in_atari(sia);
    }
    let mut message = String::from_str("Move attempted at (");
    let rs = crate::text::dec_string(row as u128);
    message.append(rs.as_str());
    message.append(", ");
    let cs = crate::text::dec_string(col as u128);
    message.append(cs.as_str());
    message.append(")");
    if row < 98 && col < 98 {
        let mv = Move { player: current, loc: Loc { row: row + 1, col: col + 1 } };
        let valid = room.board.move_is_valid(&mv);
        proof {
            old(room).board.lemma_wf();
            crate::board::lemma_step_frame(old(room).board@, mv);
        }
        room.board.play(&mv);
        if valid {
            room.game_generation_number = room.game_generation_number + 1;
        }
        let state = get_board_state(&room.board);
        let sia = room.board.get_stones_in_atari();
        GameState::new(message, state, &room.board, room.game_generation_number)
            .with_stones_in_atari(sia)
    } else {
        let state = get_board_state(&room.board);
        let sia = room.board.get_stones_in_atari();
        GameState::new(message, state, &room.board, room.game_generation_number)
            .with_stones_in_atari(sia)
    }
}

/// A pass request: accepted only from the player to move; an accepted pass
/// always advances the generation, and two closing passes put the reply
/// into the counting phase.
pub fn pass(room: &mut GameRoom, player: &str) -> (r: GameState)
    requires
        room_wf(*old(room)),
        old(room).game_generation_number < usize::MAX,
    ensures
        room_wf(*final(room)),
        final(room).players == old(room).players,
        final(room).groups_marked_dead == old(room).groups_marked_dead,
        final(room).ready_to_count_black == old(room).ready_to_count_black,
        final(room).ready_to_count_white == old(room).ready_to_count_white,
        final(room).black_guess_stones == old(room).black_guess_stones,
        final(room).white_guess_stones == old(room).white_guess_stones,
        ({
            let accept = player@ == player_name(old(room).board@.current);
            let mv = Move {
                player: old(room).board@.current,
                loc: Loc { row: crate::geom::PASS_COORD, col: crate::geom::PASS_COORD },
            };
            if accept {
                &&& final(room).board@ == step(old(room).board@, mv)
                &&& final(room).game_generation_number == old(room).game_generation_number + 1
                &&& r.counting == counting_phase(final(room).board@)
                &&& (counting_phase(final(room).board@) ==> r.message@
                    == "Both players passed. Game over!"@ && r.current_player@ == "counting"@)
                &&& (!counting_phase(final(room).board@) ==> r.message@ == "Player "@
                    + debug_name(old(room).board@.current) + " passed"@)
            } else {
                &&& final(room).board == old(room).board
                &&& final(room).game_generation_number == old(room).game_generation_number
                &&& r.message@ == "It's not your turn to pass!"@
            }
        }),
        r.board_generation_number == final(room).game_generation_number,
{
    let current = room.board.get_current_player();
    let cur_name = current.to_string();
    let accept = str_eq(player, cur_name.as_str());
    if !accept {
        return GameState::new(
            String::from_str("It's not your turn to pass!"),
            Vec::new(),
            &room.board,
            room.game_generation_number,
        ).with_stones_in_atari(StonesInAtari { black: 0, white: 0 });
    }
    let mv = Move { player: current, loc: Loc::pass() };
    proof {
        old(room).board.lemma_wf();
        crate::board::lemma_step_frame(old(room).board@, mv);
    }
    room.board.play(&mv);
    room.game_generation_number = room.game_generation_number + 1;
    let game_is_over = room.board.last_two_moves_are_pass();
    if !game_is_over {
        let mut message = String::from_str("Player ");
        let nm = debug_name_string(current);
        message.append(nm.as_str());
        message.append(" passed");
        GameState::new(message, Vec::new(), &room.board, room.game_generation_number)
    } else {
        GameState::new(
            String::from_str("Both players passed. Game over!"),
            Vec::new(),
            &room.board,
            room.game_generation_number,
        )
    }
}

/// An undo request: accepted only from the player who just moved (the one
/// not to move), and only when a move exists to take back; the board is
/// rebuilt by replaying every move but the last.
pub fn undo(room: &mut GameRoom, player: &str, frontend_generation: usize) -> (r: GameState)
    requires
        room_wf(*old(room)),
        old(room).game_generation_number < usize::MAX,
    ensures
        room_wf(*final(room)),
        final(room).players == old(room).players,
        final(room).groups_marked_dead == old(room).groups_marked_dead,
        final(room).ready_to_count_black == old(room).ready_to_count_black,
        final(room).ready_to_count_white == old(room).ready_to_count_white,
        final(room).black_guess_stones == old(room).black_guess_stones,
        final(room).white_guess_stones == old(room).white_guess_stones,
        ({
            let authorized = player@ == player_name(opp_of(old(room).board@.current)) && old(
                room,
            ).board@.history.len() > 0;
            if authorized {
                &&& final(room).board@ == replay(
                    fresh_model(
                        grows(old(room).board@.grid),
                        gcols(old(room).board@.grid),
                        old(room).board@.komi_half,
                    ),
                    old(room).board@.history.drop_last(),
                )
                &&& final(room).game_generation_number == old(room).game_generation_number + 1
                &&& r.message@ == "Undo successful"@
            } else {
                &&& final(room).board == old(room).board
                &&& final(room).game_generation_number == old(room).game_generation_number
                &&& r.message@ == "It's not your turn to undo!"@
            }
        }),
        r.board_generation_number == final(room).game_generation_number,
{
    let current = room.board.get_current_player();
    let mover_name = current.opponent().to_string();
    let history_len = room.board.get_game_history().len();
    let authorized = str_eq(player, mover_name.as_str()) && history_len > 0;
    if !authorized {
        return GameState::new(
            String::from_str("It's not your turn to undo!"),
            Vec::new(),
            &room.board,
            room.game_generation_number,
        );
    }
    room.board.undo();
    room.game_generation_number = room.game_generation_number + 1;
    let state = get_board_state(&room.board);
    let sia = room.board.get_stones_in_atari();
    GameState::new(
        String::from_str("Undo successful"),
        state,
        &room.board,
        room.game_generation_number,
    ).with_stones_in_atari(sia)
}

/// A resignation: the named player loses at once; the opponent is recorded
/// as the winner and reported in the reply.
pub fn handle_resignation(room: &mut GameRoom, player: &str) -> (r: GameState)
    requires
        room_wf(*old(room)),
    ensures
        room_wf(*final(room)),
        final(room).players == old(room).players,
        final(room).groups_marked_dead == old(room).groups_marked_dead,
        final(room).game_generation_number == old(room).game_generation_number,
        final(room).ready_to_count_black == old(room).ready_to_count_black,
        final(room).ready_to_count_white == old(room).ready_to_count_white,
        final(room).black_guess_stones == old(room).black_guess_stones,
        final(room).white_guess_stones == old(room).white_guess_stones,
        ({
            let loser = if crate::geom::lower_chars(player@) == "black"@ {
                Player::Black
            } else {
                Player::White
            };
            &&& final(room).board@ == (BoardModel {
                winner: Some(opp_of(loser)),
                ..old(room).board@
            })
            &&& (r.winner matches Some(w) && w@ == player_name(opp_of(loser)))
            &&& r.message@ == "Player "@ + debug_name(loser) + " resigned. Game over!"@
        }),
        r.board_generation_number == final(room).game_generation_number,
{
    let loser = Player::from_string(player);
    room.board.set_winner(loser.opponent());
    let mut message = String::from_str("Player ");
    let nm = debug_name_string(loser);
    message.append(nm.as_str());
    message.append(" resigned. Game over!");
    let state = get_board_state(&room.board);
    GameState::new(message, state, &room.board, room.game_generation_number).with_winner(
        loser.opponent().to_string(),
    )
}

/// The grid after removing, in order, the group at each listed group's
/// first stone (entries that are empty or point off the interior are
/// skipped).
pub open spec fn removed_grids(g: Seq<Seq<Color>>, gs: Seq<Seq<Loc>>, i: int) -> Seq<Seq<Color>>
    decreases i,
{
    if i <= 0 {
        g
    } else {
        let prev = removed_grids(g, gs, i - 1);
        let grp = gs[i - 1];
        if grp.len() > 0 && interior(prev, grp[0]) {
            clear_cells(prev, group_of(prev, grp[0]))
        } else {
            prev
        }
    }
}

/// Removes each listed group from the board without crediting captures:
/// the declared-dead groups come off before counting.
pub fn remove_dead_groups(board: &mut Board, groups: &Vec<Vec<Loc>>)
    requires
        old(board).wf(),
    ensures
        final(board).wf(),
        final(board)@ == (BoardModel {
            grid: removed_grids(
                old(board)@.grid,
                loc_groups_view(groups@),
                groups@.len() as int,
            ),
            ..old(board)@
        }),
        grows(final(board)@.grid) == grows(old(board)@.grid),
        gcols(final(board)@.grid) == gcols(old(board)@.grid),
{
    proof {
        board.lemma_wf();
    }
    let ghost g0 = board@.grid;
    let ghost gs = loc_groups_view(groups@);
    let (rows, cols) = board.board_size();
    let n = groups.len();
    let mut i: usize = 0;
    while i < n
        invariant
            board.wf(),
            i <= n,
            n == groups@.len(),
            gs == loc_groups_view(groups@),
            rows == grows(g0),
            cols == gcols(g0),
            3 <= rows,
            3 <= cols,
            grows(board@.grid) == grows(g0),
            gcols(board@.grid) == gcols(g0),
            board@ == (BoardModel { grid: removed_grids(g0, gs, i as int), ..old(board)@ }),
        decreases n - i,
    {
        let ghost pre = board@.grid;
        if groups[i].len() > 0 {
            let first = groups[i][0];
            if first.row >= 1 && first.row < rows - 1 && first.col >= 1 && first.col < cols - 1 {
                proof {
                    assert(interior(pre, first));
                }
                board.remove_group_for_counting(first);
                proof {
                    assert(board@.grid == clear_cells(pre, group_of(pre, first)));
                    assert(grows(board@.grid) == grows(pre));
                    assert(board@.grid[0].len() == pre[0].len());
                    assert(removed_grids(g0, gs, i as int + 1) == board@.grid);
                }
            } else {
                proof {
                    assert(!interior(pre, first));
                    assert(removed_grids(g0, gs, i as int + 1) == pre);
                }
            }
        } else {
            proof {
                assert(removed_grids(g0, gs, i as int + 1) == pre);
            }
        }
        i += 1;
    }
}

/// A counting-phase cell click from a seated player: toggles whether the
/// clicked group is marked dead, clears both ready flags, advances the
/// generation, and returns the current selection and the toggled group.
/// Requests from outside the two seats are refused; clicks off the
/// playable interior toggle nothing.
pub fn get_group(room: &mut GameRoom, session_token: &str, row: usize, col: usize) -> (r: Result<
    (Vec<Vec<Loc>>, Vec<Loc>),
    ApiError,
>)
    requires
        room_wf(*old(room)),
        old(room).game_generation_number < usize::MAX,
    ensures
        room_wf(*final(room)),
        final(room).board == old(room).board,
        final(room).players == old(room).players,
        final(room).black_guess_stones == old(room).black_guess_stones,
        final(room).white_guess_stones == old(room).white_guess_stones,
        ({
            let seated = seat_token(old(room).players.black) == Some(session_token@)
                || seat_token(old(room).players.white) == Some(session_token@);
            let g = old(room).board@.grid;
            let in_range = row < grows(g) - 2 && col < gcols(g) - 2;
            let loc = Loc { row: (row + 1) as usize, col: (col + 1) as usize };
            if !seated {
                &&& r is Err
                &&& *final(room) == *old(room)
            } else if !in_range {
                &&& r is Ok
                &&& *final(room) == *old(room)
            } else {
                &&& r is Ok
                &&& !final(room).ready_to_count_black
                &&& !final(room).ready_to_count_white
                &&& final(room).game_generation_number == old(room).game_generation_number + 1
                &&& (r matches Ok(p) ==> p.1@.to_set() == group_of(g, loc)
                    && loc_groups_view(p.0@) == loc_groups_view(
                    final(room).groups_marked_dead@,
                ))
                &&& ({
                    let olds = loc_groups_view(old(room).groups_marked_dead@);
                    let news = loc_groups_view(final(room).groups_marked_dead@);
                    ||| (exists|k: int|
                        0 <= k < olds.len() && (#[trigger] olds[k]).to_set() == group_of(g, loc)
                            && news == olds.remove(k))
                    ||| (news.len() == olds.len() + 1 && news.subrange(0, olds.len() as int)
                        == olds && news[olds.len() as int].to_set() == group_of(g, loc))
                })
            }
        }),
{
    let seated = token_is(&room.players.black, session_token) || token_is(
        &room.players.white,
        session_token,
    );
    if !seated {
        return Err(ApiError::Unauthorized);
    }
    proof {
        room.board.lemma_wf();
    }
    let (rows, cols) = room.board.board_size();
    if !(row < rows - 2 && col < cols - 2) {
        let selected = clone_loc_groups(&room.groups_marked_dead);
        return Ok((selected, Vec::new()));
    }
    let loc = Loc { row: row + 1, col: col + 1 };
    let grp = room.board.group_stones(loc);
    let ghost olds = loc_groups_view(room.groups_marked_dead@);
    match find_group(&room.groups_marked_dead, &grp) {
        Some(idx) => {
            room.groups_marked_dead.remove(idx);
            proof {
                assert(loc_groups_view(room.groups_marked_dead@) =~= olds.remove(idx as int));
                assert(olds[idx as int] == olds.remove(idx as int).insert(idx as int, olds[idx as int])[idx as int]);
            }
        },
        None => {
            let copy = clone_locs(&grp);
            proof {
                assert forall|j: int| 0 <= j < copy@.len() implies interior(
                    room.board@.grid,
                    #[trigger] copy@[j],
                ) by {
                    assert(grp@.to_set().contains(grp@[j]));
                }
                assert(copy@.len() > 0) by {
                    assert(grp@.to_set().contains(loc));
                    assert(grp@.contains(loc));
                }
            }
            room.groups_marked_dead.push(copy);
            proof {
                assert(loc_groups_view(room.groups_marked_dead@).subrange(0, olds.len() as int)
                    =~= olds);
            }
        },
    }
    room.ready_to_count_black = false;
    room.ready_to_count_white = false;
    room.game_generation_number = room.game_generation_number + 1;
    let selected = clone_loc_groups(&room.groups_marked_dead);
    Ok((selected, grp))
}

/// A score request. A request from outside the seats is answered with the
/// score of the board as it stands. A seated player's request marks that
/// player ready (advancing the generation when the flag was not yet set);
/// only when both players are ready are the supplied and the marked dead
/// groups removed and the final score computed and its winner recorded on
/// the board (a draw names no winning player) — until then the reply asks
/// to wait.
pub fn get_score(room: &mut GameRoom, session_token: &str, groups_to_remove: &Vec<Vec<Loc>>) -> (r:
    String)
    requires
        room_wf(*old(room)),
        old(room).game_generation_number < usize::MAX,
    ensures
        room_wf(*final(room)),
        final(room).players == old(room).players,
        final(room).groups_marked_dead == old(room).groups_marked_dead,
        final(room).black_guess_stones == old(room).black_guess_stones,
        final(room).white_guess_stones == old(room).white_guess_stones,
        ({
            let mb = seat_token(old(room).players.black) == Some(session_token@);
            let mw = seat_token(old(room).players.white) == Some(session_token@);
            if !mb && !mw {
                &&& *final(room) == *old(room)
                &&& r@ == result_chars(crate::board::spec_score(old(room).board@))
            } else {
                let newb = old(room).ready_to_count_black || mb;
                let neww = old(room).ready_to_count_white || mw;
                &&& final(room).ready_to_count_black == newb
                &&& final(room).ready_to_count_white == neww
                &&& final(room).game_generation_number == old(room).game_generation_number + (
                if (mb && !old(room).ready_to_count_black) || (mw && !old(
                    room,
                ).ready_to_count_white) {
                    1int
                } else {
                    0int
                })
                &&& (if newb && neww {
                    let after = BoardModel {
                        grid: removed_grids(
                            removed_grids(
                                old(room).board@.grid,
                                loc_groups_view(groups_to_remove@),
                                groups_to_remove@.len() as int,
                            ),
                            loc_groups_view(old(room).groups_marked_dead@),
                            old(room).groups_marked_dead@.len() as int,
                        ),
                        ..old(room).board@
                    };
                    let scored = crate::board::spec_score(after);
                    &&& final(room).board@ == (BoardModel {
                        winner: match scored {
                            GameResult::Points(p, _) => Some(p),
                            _ => after.winner,
                        },
                        ..after
                    })
                    &&& r@ == result_chars(scored)
                } else {
                    &&& final(room).board == old(room).board
                    &&& r@ == "Waiting for other player"@
                })
            }
        }),
{
    let mb = token_is(&room.players.black, session_token);
    let mw = token_is(&room.players.white, session_token);
    if !mb && !mw {
        let res = room.board.count_score();
        let s = res.to_string();
        proof {
            assert(s@ == result_chars(crate::board::spec_score(old(room).board@)));
        }
        return s;
    }
    let mut bumped = false;
    if mb && !room.ready_to_count_black {
        room.ready_to_count_black = true;
        bumped = true;
    }
    if mw && !room.ready_to_count_white {
        room.ready_to_count_white = true;
        bumped = true;
    }
    if bumped {
        room.game_generation_number = room.game_generation_number + 1;
    }
    if room.ready_to_count_black && room.ready_to_count_white {
        remove_dead_groups(&mut room.board, groups_to_remove);
        remove_dead_groups(&mut room.board, &room.groups_marked_dead);
        let res = room.board.count_score();
        let s = res.to_string();
        proof {
            assert(s@ == result_chars(crate::board::spec_score(room.board@)));
        }
        match &res {
            GameResult::Points(p, _) => {
                room.board.set_winner(*p);
            },
            _ => {},
        }
        s
    } else {
        String::from_str("Waiting for other player")
    }
}

/// The lightweight poll reply: whether a full sync is due, the move count,
/// the current generation, the winner if any, and whether the caller's
/// seat has been lost.
pub struct GameInfo {
    pub should_sync: bool,
    pub move_number: usize,
    pub board_generation_number: usize,
    pub winner: Option<String>,
    pub rejoin_required: bool,
}

/// Answers the sync poll: a resynchronisation is due exactly when the
/// room's generation is ahead of the caller's.
pub fn send_board_interaction_number(
    room: &GameRoom,
    player: &str,
    frontend_board_generation_number: usize,
) -> (r: GameInfo)
    requires
        room_wf(*room),
    ensures
        r.should_sync == (room.game_generation_number > frontend_board_generation_number),
        r.move_number == room.board@.history.len(),
        r.board_generation_number == room.game_generation_number,
        r.winner is Some <==> room.board@.winner is Some,
        (room.board@.winner matches Some(w) ==> (r.winner matches Some(s) && s@ == player_name(
            w,
        ))),
        r.rejoin_required == ((player@ == "black"@ && room.players.black is None) || (player@
            == "white"@ && room.players.white is None)),
{
    let move_number = room.board.get_game_history().len();
    let winner = match room.board.get_winner() {
        Some(w) => Some(w.to_string()),
        None => None,
    };
    let rejoin_required = (str_eq(player, "black") && room.players.black.is_none()) || (str_eq(
        player,
        "white",
    ) && room.players.white.is_none());
    GameInfo {
        should_sync: room.game_generation_number > frontend_board_generation_number,
        move_number,
        board_generation_number: room.game_generation_number,
        winner,
        rejoin_required,
    }
}

/// The full snapshot pull: with a winner recorded the reply announces it;
/// a caller whose claimed seat is empty is told to rejoin; otherwise the
/// whole room state is returned under the current generation.
pub fn sync_boards(room: &GameRoom, player: &str) -> (r: GameState)
    requires
        room_wf(*room),
    ensures
        ({
            match room.board@.winner {
                Some(w) => {
                    &&& (r.winner matches Some(s) && s@ == player_name(w))
                    &&& r.message@ == "Game over! Winner: "@ + player_name(w)
                    &&& r.board_generation_number == room.game_generation_number
                    &&& table_view(r.board@) == trimmed_grid(room.board@.grid)
                },
                None => {
                    if (player@ == "black"@ && room.players.black is None) || (player@ == "white"@
                        && room.players.white is None) {
                        &&& r.rejoin_required
                        &&& table_view(r.board@) == trimmed_grid(fresh_model(15, 15, 3).grid)
                    } else {
                        &&& r.board_generation_number == room.game_generation_number
                        &&& table_view(r.board@) == trimmed_grid(room.board@.grid)
                        &&& pairs_view(r.black_guess_stones@) == pairs_view(
                            room.black_guess_stones@,
                        )
                        &&& pairs_view(r.white_guess_stones@) == pairs_view(
                            room.white_guess_stones@,
                        )
                        &&& loc_groups_view(r.groups_selected_during_counting@)
                            == loc_groups_view(room.groups_marked_dead@)
                        &&& r.ready_to_count == (
                            room.ready_to_count_black,
                            room.ready_to_count_white,
                        )
                        &&& r.message@ == "Current board state sent"@
                        &&& r.stones_in_atari.black as int == room.board.spec_atari_counts().0
                        &&& r.stones_in_atari.white as int == room.board.spec_atari_counts().1
                    }
                },
            }
        }),
{
    let state = get_board_state(&room.board);
    match room.board.get_winner() {
        Some(w) => {
            let mut message = String::from_str("Game over! Winner: ");
            let nm = w.to_string();
            message.append(nm.as_str());
            GameState::new(message, state, &room.board, room.game_generation_number).with_winner(
                w.to_string(),
            )
        },
        None => {
            let black_gone = str_eq(player, "black") && room.players.black.is_none();
            let white_gone = str_eq(player, "white") && room.players.white.is_none();
            if black_gone || white_gone {
                game_data_not_accessible()
            } else {
                let sia = room.board.get_stones_in_atari();
                let selected = clone_loc_groups(&room.groups_marked_dead);
                GameState::new(
                    String::from_str("Current board state sent"),
                    state,
                    &room.board,
                    room.game_generation_number,
                ).with_guess_stones(
                    clone_pairs(&room.black_guess_stones),
                    clone_pairs(&room.white_guess_stones),
                ).with_stones_in_atari(sia).with_counting_state(
                    selected,
                    (room.ready_to_count_black, room.ready_to_count_white),
                )
            }
        },
    }
}

/// The reply to a join request.
pub struct JoinGameResponse {
    pub color: String,
    pub redirect_url: String,
    pub session_token: String,
}

/// The redirect target handed to a joiner.
pub open spec fn join_url(page: Seq<char>, match_string: Seq<char>, token: Seq<char>) -> Seq<
    char,
> {
    page + "?match="@ + match_string + "&token="@ + token
}

/// Builds the redirect target.
fn build_url(page: &str, match_string: &str, token: &str) -> (r: String)
    ensures
        r@ == join_url(page@, match_string@, token@),
{
    let mut s = String::from_str(page);
    s.append("?match=");
    s.append(match_string);
    s.append("&token=");
    s.append(token);
    s
}

/// The presented token names the given seat.
pub open spec fn tok_matches(t: Option<String>, seat: Option<PlayerSession>) -> bool {
    match t {
        Some(s) => seat_token(seat) == Some(s@),
        None => false,
    }
}

/// A join request. A token naming a seat re-attaches its holder to the
/// same colour with the same token (idempotent, spectators included). An
/// avowed spectator without such a token watches. Otherwise the first
/// joiner is seated at a coin-tossed colour with the fresh token, a second
/// joiner takes the vacant colour, and once both seats are taken any
/// further joiner becomes a spectator. Seats, board and generation change
/// only when a vacant seat is filled.
pub fn join_game(
    room: &mut GameRoom,
    session_token: &Option<String>,
    is_spectator: bool,
    match_string: &str,
    fresh_token: String,
    coin_black: bool,
) -> (r: JoinGameResponse)
    requires
        room_wf(*old(room)),
    ensures
        room_wf(*final(room)),
        final(room).board == old(room).board,
        final(room).game_generation_number == old(room).game_generation_number,
        final(room).groups_marked_dead == old(room).groups_marked_dead,
        final(room).ready_to_count_black == old(room).ready_to_count_black,
        final(room).ready_to_count_white == old(room).ready_to_count_white,
        final(room).black_guess_stones == old(room).black_guess_stones,
        final(room).white_guess_stones == old(room).white_guess_stones,
        ({
            let mb = tok_matches(*session_token, old(room).players.black);
            let mw = tok_matches(*session_token, old(room).players.white);
            let black_free = old(room).players.black is None;
            let white_free = old(room).players.white is None;
            if mb {
                &&& final(room).players == old(room).players
                &&& r.color@ == "black"@
                &&& seat_token(old(room).players.black) == Some(r.session_token@)
                &&& r.redirect_url@ == join_url(
                    "/frontend/black.html"@,
                    match_string@,
                    r.session_token@,
                )
            } else if mw {
                &&& final(room).players == old(room).players
                &&& r.color@ == "white"@
                &&& seat_token(old(room).players.white) == Some(r.session_token@)
                &&& r.redirect_url@ == join_url(
                    "/frontend/white.html"@,
                    match_string@,
                    r.session_token@,
                )
            } else if is_spectator || (!black_free && !white_free) {
                &&& final(room).players == old(room).players
                &&& r.color@ == "spectator"@
                &&& r.session_token@.len() == 0
                &&& r.redirect_url@ == join_url("/frontend/main.html"@, match_string@, Seq::empty())
            } else if black_free && white_free {
                if coin_black {
                    &&& seat_token(final(room).players.black) == Some(fresh_token@)
                    &&& final(room).players.white is None
                    &&& r.color@ == "black"@
                    &&& r.session_token@ == fresh_token@
                    &&& r.redirect_url@ == join_url(
                        "/frontend/black.html"@,
                        match_string@,
                        fresh_token@,
                    )
                } else {
                    &&& seat_token(final(room).players.white) == Some(fresh_token@)
                    &&& final(room).players.black is None
                    &&& r.color@ == "white"@
                    &&& r.session_token@ == fresh_token@
                    &&& r.redirect_url@ == join_url(
                        "/frontend/white.html"@,
                        match_string@,
                        fresh_token@,
                    )
                }
            } else if white_free {
                &&& seat_token(final(room).players.white) == Some(fresh_token@)
                &&& final(room).players.black == old(room).players.black
                &&& r.color@ == "white"@
                &&& r.session_token@ == fresh_token@
                &&& r.redirect_url@ == join_url(
                    "/frontend/white.html"@,
                    match_string@,
                    fresh_token@,
                )
            } else {
                &&& seat_token(final(room).players.black) == Some(fresh_token@)
                &&& final(room).players.white == old(room).players.white
                &&& r.color@ == "black"@
                &&& r.session_token@ == fresh_token@
                &&& r.redirect_url@ == join_url(
                    "/frontend/black.html"@,
                    match_string@,
                    fresh_token@,
                )
            }
        }),
{
    // a token that names a seat re-attaches its holder, spectator or not
    let mb = match session_token {
        Some(t) => token_is(&room.players.black, t.as_str()),
        None => false,
    };
    let mw = match session_token {
        Some(t) => token_is(&room.players.white, t.as_str()),
        None => false,
    };
    if mb {
        let tok = match &room.players.black {
            Some(p) => p.session_token.clone(),
            None => {
                proof {
                    assert(false);
                }
                String::new()
            },
        };
        let url = build_url("/frontend/black.html", match_string, tok.as_str());
        return JoinGameResponse {
            color: String::from_str("black"),
            redirect_url: url,
            session_token: tok,
        };
    }
    if mw {
        let tok = match &room.players.white {
            Some(p) => p.session_token.clone(),
            None => {
                proof {
                    assert(false);
                }
                String::new()
            },
        };
        let url = build_url("/frontend/white.html", match_string, tok.as_str());
        return JoinGameResponse {
            color: String::from_str("white"),
            redirect_url: url,
            session_token: tok,
        };
    }
    let black_free = room.players.black.is_none();
    let white_free = room.players.white.is_none();
    if is_spectator || (!black_free && !white_free) {
        let url = build_url("/frontend/main.html", match_string, "");
        proof {
            reveal_strlit("");
        }
        return JoinGameResponse {
            color: String::from_str("spectator"),
            redirect_url: url,
            session_token: String::new(),
        };
    }
    let seat_black = if black_free && white_free {
        coin_black
    } else {
        black_free
    };
    let stored = fresh_token.clone();
    if seat_black {
        room.players.black = Some(PlayerSession { session_token: stored, color: Player::Black });
        let url = build_url("/frontend/black.html", match_string, fresh_token.as_str());
        JoinGameResponse {
            color: String::from_str("black"),
            redirect_url: url,
            session_token: fresh_token,
        }
    } else {
        room.players.white = Some(PlayerSession { session_token: stored, color: Player::White });
        let url = build_url("/frontend/white.html", match_string, fresh_token.as_str());
        JoinGameResponse {
            color: String::from_str("white"),
            redirect_url: url,
            session_token: fresh_token,
        }
    }
}

/// Relies on rand::random::<bool>: a fair coin toss. Nothing is promised
/// of the outcome; the seating logic is verified for both.
#[verifier::external_body]
fn random_bool() -> bool {
    rand::random::<bool>()
}

/// Relies on uuid::Uuid::new_v4 and Uuid's Display form: a freshly drawn
/// random version-4 UUID rendered in the canonical hyphenated form, which
/// is 36 characters long. Nothing more is promised of a random value.
#[verifier::external_body]
fn new_session_token() -> (r: String)
    ensures
        r@.len() == 36,
{
    uuid::Uuid::new_v4().to_string()
}

/// A join request as the transport receives it: the seat token is drawn
/// fresh and the first joiner's colour is tossed here, then the verified
/// seating logic runs. Whatever the draws return, a token naming a seat
/// re-attaches its holder, and seats, board and generation change only
/// when a vacant seat is filled.
pub fn join_game_with_new_token(
    room: &mut GameRoom,
    session_token: &Option<String>,
    is_spectator: bool,
    match_string: &str,
) -> (r: JoinGameResponse)
    requires
        room_wf(*old(room)),
    ensures
        room_wf(*final(room)),
        final(room).board == old(room).board,
        final(room).game_generation_number == old(room).game_generation_number,
        final(room).groups_marked_dead == old(room).groups_marked_dead,
        final(room).ready_to_count_black == old(room).ready_to_count_black,
        final(room).ready_to_count_white == old(room).ready_to_count_white,
        final(room).black_guess_stones == old(room).black_guess_stones,
        final(room).white_guess_stones == old(room).white_guess_stones,
        tok_matches(*session_token, old(room).players.black) ==> final(room).players == old(
            room,
        ).players && r.color@ == "black"@ && seat_token(old(room).players.black) == Some(
            r.session_token@,
        ),
        !tok_matches(*session_token, old(room).players.black) && tok_matches(
            *session_token,
            old(room).players.white,
        ) ==> final(room).players == old(room).players && r.color@ == "white"@ && seat_token(
            old(room).players.white,
        ) == Some(r.session_token@),
        ({
            let mb = tok_matches(*session_token, old(room).players.black);
            let mw = tok_matches(*session_token, old(room).players.white);
            if !mb && !mw {
                if is_spectator || (old(room).players.black is Some && old(
                    room,
                ).players.white is Some) {
                    // whatever the draws, an avowed spectator or a latecomer
                    // only watches
                    &&& final(room).players == old(room).players
                    &&& r.color@ == "spectator"@
                    &&& r.session_token@.len() == 0
                } else {
                    // whatever the draws, some vacant seat ends up holding
                    // the returned fresh token and the reply names it
                    &&& r.session_token@.len() == 36
                    &&& (r.color@ == "black"@ || r.color@ == "white"@)
                    &&& (r.color@ == "black"@ ==> old(room).players.black is None && seat_token(
                        final(room).players.black,
                    ) == Some(r.session_token@) && final(room).players.white == old(
                        room,
                    ).players.white)
                    &&& (r.color@ == "white"@ ==> old(room).players.white is None && seat_token(
                        final(room).players.white,
                    ) == Some(r.session_token@) && final(room).players.black == old(
                        room,
                    ).players.black)
                }
            } else {
                true
            }
        }),
{
    let fresh_token = new_session_token();
    let coin_black = random_bool();
    let r = join_game(room, session_token, is_spectator, match_string, fresh_token, coin_black);
    proof {
        reveal_strlit("black");
        reveal_strlit("white");
        reveal_strlit("spectator");
        assert("black"@[0] == 'b' && "white"@[0] == 'w');
        assert("black"@ != "white"@);
    }
    r
}

/// A mutable handle on one colour's guess stones ("black" selects Black's,
/// anything else White's).
pub fn get_stones_mut<'a>(room: &'a mut GameRoom, color: &str) -> (r: &'a mut Vec<Vec<usize>>)
    ensures
        color@ == "black"@ ==> *r == old(room).black_guess_stones && *final(room) == (GameRoom {
            black_guess_stones: *final(r),
            ..*old(room)
        }),
        color@ != "black"@ ==> *r == old(room).white_guess_stones && *final(room) == (GameRoom {
            white_guess_stones: *final(r),
            ..*old(room)
        }),
{
    if str_eq(color, "black") {
        &mut room.black_guess_stones
    } else {
        &mut room.white_guess_stones
    }
}

/// Stores a player's tentative dead-stone marks for the counting
/// discussion and advances the generation; nothing is validated.
pub fn sync_guess_stones(room: &mut GameRoom, color: &str, stones: Vec<Vec<usize>>) -> (r: String)
    requires
        room_wf(*old(room)),
        old(room).game_generation_number < usize::MAX,
    ensures
        room_wf(*final(room)),
        final(room).board == old(room).board,
        final(room).players == old(room).players,
        final(room).groups_marked_dead == old(room).groups_marked_dead,
        final(room).ready_to_count_black == old(room).ready_to_count_black,
        final(room).ready_to_count_white == old(room).ready_to_count_white,
        final(room).game_generation_number == old(room).game_generation_number + 1,
        color@ == "black"@ ==> final(room).black_guess_stones == stones
            && final(room).white_guess_stones == old(room).white_guess_stones,
        color@ != "black"@ ==> final(room).white_guess_stones == stones
            && final(room).black_guess_stones == old(room).black_guess_stones,
        r@ == "Stones synced"@,
{
    room.game_generation_number = room.game_generation_number + 1;
    let slot = get_stones_mut(room, color);
    *slot = stones;
    String::from_str("Stones synced")
}

} // verus!
