//! The board: stones, captures, histories and the move pipeline. The whole
//! behaviour of a move is a single mathematical function `step` on the
//! board's model; `play` is proved to realise it exactly, and `undo` is
//! proved to rebuild the board by replaying every move but the last.

use vstd::prelude::*;
use vstd::seq_lib::*;
use crate::geom::{Color, Loc, Move, Player, PASS_COORD};
use crate::grid::{
    adj, adj_colored, at, gcols, grid_stones, grid_wf, group_of, grows, gview, interior, is_group, libs,
    loc_lt, on_grid, sorted_locs,
};

verus! {

/// The mathematical state of a board. Atari summaries are derived data and
/// are specified separately (`atari_ok`).
pub ghost struct BoardModel {
    /// The padded grid.
    pub grid: Seq<Seq<Color>>,
    /// Every grid recorded after a committed non-pass move, in order.
    pub snaps: Seq<Seq<Seq<Color>>>,
    /// Every accepted move (passes included), in order.
    pub history: Seq<Move>,
    /// The player to move.
    pub current: Player,
    /// Komi in half points, added to White's score.
    pub komi_half: int,
    /// Stones captured by Black.
    pub black_captures: int,
    /// Stones captured by White.
    pub white_captures: int,
    /// The winning player, once one is recorded.
    pub winner: Option<Player>,
}

/// The other player.
pub open spec fn opp_of(p: Player) -> Player {
    match p {
        Player::Black => Player::White,
        Player::White => Player::Black,
    }
}

/// The stone colour of a player.
pub open spec fn color_of(p: Player) -> Color {
    match p {
        Player::Black => Color::Black,
        Player::White => Color::White,
    }
}

/// True for the pass sentinel location.
pub open spec fn pass_loc(l: Loc) -> bool {
    l.row == PASS_COORD && l.col == PASS_COORD
}

/// The empty padded grid: Invalid on the sentinel ring, Empty inside.
pub open spec fn fresh_grid(rows: int, cols: int) -> Seq<Seq<Color>> {
    Seq::new(
        rows as nat,
        |i: int|
            Seq::new(
                cols as nat,
                |j: int|
                    if i == 0 || i == rows - 1 || j == 0 || j == cols - 1 {
                        Color::Invalid
                    } else {
                        Color::Empty
                    },
            ),
    )
}

/// The state of a newly created board: empty grid, no history, Black to
/// move, no captures, no winner.
pub open spec fn fresh_model(rows: int, cols: int, komi_half: int) -> BoardModel {
    BoardModel {
        grid: fresh_grid(rows, cols),
        snaps: Seq::empty(),
        history: Seq::empty(),
        current: Player::Black,
        komi_half: komi_half,
        black_captures: 0,
        white_captures: 0,
        winner: None,
    }
}

/// The grid with one cell rewritten.
pub open spec fn set_at(g: Seq<Seq<Color>>, l: Loc, c: Color) -> Seq<Seq<Color>> {
    g.update(l.row as int, g[l.row as int].update(l.col as int, c))
}

/// The grid with every cell of `s` emptied.
pub open spec fn clear_cells(g: Seq<Seq<Color>>, s: Set<Loc>) -> Seq<Seq<Color>> {
    Seq::new(
        g.len(),
        |i: int|
            Seq::new(
                g[i].len(),
                |j: int|
                    if s.contains(Loc { row: i as usize, col: j as usize }) {
                        Color::Empty
                    } else {
                        g[i][j]
                    },
            ),
    )
}

/// The union of the groups of colour `oc` adjacent to the group of `root`
/// that have no liberty in `g1`: the stones a placement at `root` captures.
pub open spec fn spec_dead(g1: Seq<Seq<Color>>, root: Loc, oc: Color) -> Set<Loc> {
    Set::new(
        |y: Loc|
            exists|x: Loc|
                #[trigger] adj_colored(g1, group_of(g1, root), oc).contains(x) && libs(
                    g1,
                    group_of(g1, x),
                ) =~= Set::<Loc>::empty() && group_of(g1, x).contains(y),
    )
}

/// The grid after the stone of `mv` is placed (before captures).
pub open spec fn after_place(g: Seq<Seq<Color>>, mv: Move) -> Seq<Seq<Color>> {
    set_at(g, mv.loc, color_of(mv.player))
}

/// The dead opponent stones of the placement `mv` on `g`.
pub open spec fn dead_of(g: Seq<Seq<Color>>, mv: Move) -> Set<Loc> {
    spec_dead(after_place(g, mv), mv.loc, color_of(opp_of(mv.player)))
}

/// The grid after the stone of `mv` is placed and dead opponent groups are
/// removed.
pub open spec fn resolved_grid(g: Seq<Seq<Color>>, mv: Move) -> Seq<Seq<Color>> {
    clear_cells(after_place(g, mv), dead_of(g, mv))
}

/// The placement is suicidal: after captures, the placed stone's own group
/// has no liberty.
pub open spec fn is_suicide(g: Seq<Seq<Color>>, mv: Move) -> bool {
    libs(resolved_grid(g, mv), group_of(resolved_grid(g, mv), mv.loc)) =~= Set::<Loc>::empty()
}

/// Positional superko: the resulting grid has been recorded before.
pub open spec fn is_repeat(snaps: Seq<Seq<Seq<Color>>>, g2: Seq<Seq<Color>>) -> bool {
    snaps.contains(g2)
}

/// The auxiliary simple-ko test: with at least four snapshots recorded, the
/// resulting grid equals the snapshot three moves before it.
pub open spec fn is_ko_recapture(snaps: Seq<Seq<Seq<Color>>>, g2: Seq<Seq<Color>>) -> bool {
    snaps.len() >= 4 && g2 == snaps[snaps.len() - 2]
}

/// Whether the move is accepted on this board state: passes always; a
/// placement only on an empty interior cell where it is neither suicide nor
/// a repetition of a recorded position.
pub open spec fn move_ok(b: BoardModel, mv: Move) -> bool {
    if pass_loc(mv.loc) {
        true
    } else if !interior(b.grid, mv.loc) {
        false
    } else if at(b.grid, mv.loc) != Color::Empty {
        false
    } else {
        &&& !is_suicide(b.grid, mv)
        &&& !is_repeat(b.snaps, resolved_grid(b.grid, mv))
        &&& !is_ko_recapture(b.snaps, resolved_grid(b.grid, mv))
    }
}

/// The whole effect of offering the move `mv` to the board `b`: a pass is
/// recorded and the turn flips; a rejected placement changes nothing; an
/// accepted placement updates the grid, credits the captures to the mover,
/// records the move and the new grid, and flips the turn.
pub open spec fn step(b: BoardModel, mv: Move) -> BoardModel {
    if pass_loc(mv.loc) {
        BoardModel { history: b.history.push(mv), current: opp_of(b.current), ..b }
    } else if !move_ok(b, mv) {
        b
    } else {
        let g2 = resolved_grid(b.grid, mv);
        let n = dead_of(b.grid, mv).len() as int;
        BoardModel {
            grid: g2,
            snaps: b.snaps.push(g2),
            history: b.history.push(mv),
            current: opp_of(b.current),
            black_captures: b.black_captures + if mv.player == Player::Black {
                n
            } else {
                0int
            },
            white_captures: b.white_captures + if mv.player == Player::White {
                n
            } else {
                0int
            },
            ..b
        }
    }
}

/// The state after replaying `moves` from `m0` through `step`.
pub open spec fn replay(m0: BoardModel, moves: Seq<Move>) -> BoardModel
    decreases moves.len(),
{
    if moves.len() == 0 {
        m0
    } else {
        step(replay(m0, moves.drop_last()), moves.last())
    }
}

/// Number of non-pass moves in a history.
pub open spec fn nonpass_count(h: Seq<Move>) -> int
    decreases h.len(),
{
    if h.len() == 0 {
        0
    } else {
        nonpass_count(h.drop_last()) + if pass_loc(h.last().loc) {
            0int
        } else {
            1int
        }
    }
}

/// The model with the winner forgotten (the winner is recorded outside the
/// move pipeline).
pub open spec fn strip_winner(m: BoardModel) -> BoardModel {
    BoardModel { winner: None, ..m }
}

/// The board is exactly the replay of its own history on a fresh board:
/// the basis of undo-by-replay.
pub open spec fn synced(m: BoardModel) -> bool {
    strip_winner(m) == replay(
        fresh_model(grows(m.grid), gcols(m.grid), m.komi_half),
        m.history,
    )
}

/// The set of cells has at least one liberty.
pub open spec fn has_liberty(g: Seq<Seq<Color>>, s: Set<Loc>) -> bool {
    exists|z: Loc| libs(g, s).contains(z)
}

/// Every group of stones on the grid has at least one liberty: no dead
/// group ever stays on the board.
pub open spec fn no_dead_group(g: Seq<Seq<Color>>) -> bool {
    forall|l: Loc, s: Set<Loc>|
        #[trigger] is_group(g, l, s) && (at(g, l) == Color::Black || at(g, l) == Color::White)
            ==> has_liberty(g, s)
}

/// Facts about the captured set of an accepted placement, established by
/// the capture computation itself: the captured stones are whole interior
/// opponent groups of the post-placement grid, and the placed stone's own
/// group exists.
pub open spec fn dead_facts(g: Seq<Seq<Color>>, mv: Move) -> bool {
    let g1 = after_place(g, mv);
    let d = dead_of(g, mv);
    &&& forall|y: Loc|
        #[trigger] d.contains(y) ==> interior(g1, y) && at(g1, y) == color_of(opp_of(mv.player))
            && is_group(g1, y, group_of(g1, y)) && group_of(g1, y).subset_of(d)
    &&& is_group(g1, mv.loc, group_of(g1, mv.loc))
}

/// The groups of colour `c` in atari (exactly one liberty), as a list of
/// sorted groups ordered by their first stone: the list holds only such
/// groups, holds all of them, and holds each once.
pub open spec fn atari_list_ok(g: Seq<Seq<Color>>, lst: Seq<Seq<Loc>>, c: Color) -> bool {
    &&& forall|k: int|
        0 <= k < lst.len() ==> (#[trigger] lst[k]).len() > 0 && sorted_locs(lst[k]) && is_group(
            g,
            lst[k][0],
            lst[k].to_set(),
        ) && at(g, lst[k][0]) == c && libs(g, lst[k].to_set()).len() == 1
    &&& forall|l: Loc|
        interior(g, l) && at(g, l) == c && libs(g, #[trigger] group_of(g, l)).len() == 1
            ==> exists|k: int| 0 <= k < lst.len() && lst[k].to_set() == group_of(g, l)
    &&& forall|k1: int, k2: int|
        0 <= k1 < k2 < lst.len() ==> loc_lt(#[trigger] lst[k1][0], #[trigger] lst[k2][0])
}

/// The view of a list of groups.
pub open spec fn groups_view(v: Seq<Vec<Loc>>) -> Seq<Seq<Loc>> {
    v.map_values(|x: Vec<Loc>| x@)
}

/// The view of a list of grids.
pub open spec fn snaps_view(s: Seq<Vec<Vec<Color>>>) -> Seq<Seq<Seq<Color>>> {
    s.map_values(|v: Vec<Vec<Color>>| gview(v))
}

/// The groups currently in atari, per colour.
pub struct GroupsInAtari {
    pub black: Vec<Vec<Loc>>,
    pub white: Vec<Vec<Loc>>,
}

impl GroupsInAtari {
    /// Empty atari summary.
    pub fn new() -> (r: GroupsInAtari)
        ensures
            r.black@.len() == 0,
            r.white@.len() == 0,
    {
        GroupsInAtari { black: Vec::new(), white: Vec::new() }
    }
}

/// The number of groups in atari, per colour.
pub struct StonesInAtari {
    pub black: usize,
    pub white: usize,
}

impl StonesInAtari {
    /// Zero counts.
    pub fn new() -> (r: StonesInAtari)
        ensures
            r.black == 0,
            r.white == 0,
    {
        StonesInAtari { black: 0, white: 0 }
    }
}

/// The atari summaries agree with the grid.
pub open spec fn atari_ok(
    g: Seq<Seq<Color>>,
    black: Seq<Seq<Loc>>,
    white: Seq<Seq<Loc>>,
    n_black: int,
    n_white: int,
) -> bool {
    &&& atari_list_ok(g, black, Color::Black)
    &&& atari_list_ok(g, white, Color::White)
    &&& n_black == black.len()
    &&& n_white == white.len()
}

/// A rule-accurate Go board with capture, superko, undo by replay and
/// scoring.
pub struct Board {
    /// The padded grid.
    pub fields: Vec<Vec<Color>>,
    snapshot_history: Vec<Vec<Vec<Color>>>,
    /// Groups in atari, recomputed after every accepted move.
    pub groups_in_atari: GroupsInAtari,
    /// Counts of groups in atari, recomputed after every accepted move.
    pub stones_in_atari: StonesInAtari,
    game_history: Vec<Move>,
    current_player: Player,
    komi_half: usize,
    black_captures: usize,
    white_captures: usize,
    winner: Option<Player>,
}

impl View for Board {
    type V = BoardModel;

    closed spec fn view(&self) -> BoardModel {
        BoardModel {
            grid: gview(self.fields),
            snaps: snaps_view(self.snapshot_history@),
            history: self.game_history@,
            current: self.current_player,
            komi_half: self.komi_half as int,
            black_captures: self.black_captures as int,
            white_captures: self.white_captures as int,
            winner: self.winner,
        }
    }
}

impl Board {
    /// Basic well-formedness: the grid is a proper padded grid and the
    /// capture counters plus the stones on the grid never exceed the
    /// non-pass moves played (so the counters never overflow).
    pub closed spec fn wf(&self) -> bool {
        &&& grid_wf(self@.grid)
        &&& self@.black_captures + self@.white_captures + grid_stones(self@.grid)
            <= nonpass_count(self@.history)
    }

    /// The stored list of Black groups in atari, as sequences.
    pub closed spec fn spec_atari_black(&self) -> Seq<Seq<Loc>> {
        groups_view(self.groups_in_atari.black@)
    }

    /// The stored list of White groups in atari, as sequences.
    pub closed spec fn spec_atari_white(&self) -> Seq<Seq<Loc>> {
        groups_view(self.groups_in_atari.white@)
    }

    /// The stored counts of (Black, White) groups in atari.
    pub closed spec fn spec_atari_counts(&self) -> (int, int) {
        (self.stones_in_atari.black as int, self.stones_in_atari.white as int)
    }

    /// The atari summaries stored on the board agree with the grid.
    pub closed spec fn atari_current(&self) -> bool {
        atari_ok(
            self@.grid,
            self.spec_atari_black(),
            self.spec_atari_white(),
            self.spec_atari_counts().0,
            self.spec_atari_counts().1,
        )
    }

    /// What `wf` guarantees of the model, stated publicly.
    pub proof fn lemma_wf(&self)
        requires
            self.wf(),
        ensures
            grid_wf(self@.grid),
            self@.black_captures + self@.white_captures + grid_stones(self@.grid)
                <= nonpass_count(self@.history),
            self@.black_captures >= 0,
            self@.white_captures >= 0,
    {
    }

    /// What `atari_current` guarantees, stated publicly.
    pub proof fn lemma_atari(&self)
        requires
            self.atari_current(),
        ensures
            atari_ok(
                self@.grid,
                self.spec_atari_black(),
                self.spec_atari_white(),
                self.spec_atari_counts().0,
                self.spec_atari_counts().1,
            ),
    {
    }

    /// The stored per-colour counts of groups in atari.
    pub fn get_stones_in_atari(&self) -> (r: StonesInAtari)
        ensures
            r.black as int == self.spec_atari_counts().0,
            r.white as int == self.spec_atari_counts().1,
    {
        StonesInAtari { black: self.stones_in_atari.black, white: self.stones_in_atari.white }
    }

    /// A fresh board of the given padded dimensions (playable interior
    /// rows−2 × cols−2) with komi given in half points.
    pub fn new(rows: usize, cols: usize, komi_half: usize) -> (r: Board)
        requires
            3 <= rows <= 99,
            3 <= cols <= 99,
        ensures
            r@ == fresh_model(rows as int, cols as int, komi_half as int),
            r.wf(),
            r.atari_current(),
            synced(r@),
            no_dead_group(r@.grid),
    {
        let ghost target = fresh_grid(rows as int, cols as int);
        let mut fields: Vec<Vec<Color>> = Vec::new();
        let mut i: usize = 0;
        while i < rows
            invariant
                i <= rows,
                3 <= rows <= 99,
                3 <= cols <= 99,
                target == fresh_grid(rows as int, cols as int),
                fields@.len() == i,
                forall|k: int| 0 <= k < i ==> #[trigger] fields@[k]@ == target[k],
            decreases rows - i,
        {
            let mut row: Vec<Color> = Vec::new();
            let mut j: usize = 0;
            while j < cols
                invariant
                    j <= cols,
                    i < rows,
                    3 <= rows <= 99,
                    3 <= cols <= 99,
                    target == fresh_grid(rows as int, cols as int),
                    row@.len() == j,
                    forall|k: int| 0 <= k < j ==> #[trigger] row@[k] == target[i as int][k],
                decreases cols - j,
            {
                let c = if i == 0 || i == rows - 1 || j == 0 || j == cols - 1 {
                    Color::Invalid
                } else {
                    Color::Empty
                };
                row.push(c);
                j += 1;
            }
            proof {
                assert(row@ =~= target[i as int]);
            }
            fields.push(row);
            i += 1;
        }
        let r = Board {
            fields,
            snapshot_history: Vec::new(),
            groups_in_atari: GroupsInAtari::new(),
            stones_in_atari: StonesInAtari::new(),
            game_history: Vec::new(),
            current_player: Player::Black,
            komi_half,
            black_captures: 0,
            white_captures: 0,
            winner: None,
        };
        proof {
            assert(gview(r.fields) =~= target);
            assert(r@.snaps =~= Seq::<Seq<Seq<Color>>>::empty());
            assert(r@ == fresh_model(rows as int, cols as int, komi_half as int));
            assert(grid_wf(target));
            lemma_fresh_grid_no_stones(rows as int, cols as int, rows as int);
            assert(grid_stones(target) == 0);
            assert(groups_view(r.groups_in_atari.black@) =~= Seq::<Seq<Loc>>::empty());
            assert(groups_view(r.groups_in_atari.white@) =~= Seq::<Seq<Loc>>::empty());
            assert(r.atari_current()) by {
                assert forall|l: Loc|
                    interior(target, l) && at(target, l) == Color::Black && libs(
                        target,
                        #[trigger] group_of(target, l),
                    ).len() == 1 implies false by {
                    assert(at(target, l) == Color::Empty);
                }
                assert forall|l: Loc|
                    interior(target, l) && at(target, l) == Color::White && libs(
                        target,
                        #[trigger] group_of(target, l),
                    ).len() == 1 implies false by {
                    assert(at(target, l) == Color::Empty);
                }
            }
            assert(no_dead_group(target)) by {
                assert forall|l: Loc, s: Set<Loc>|
                    #[trigger] is_group(target, l, s) && (at(target, l) == Color::Black || at(
                        target,
                        l,
                    ) == Color::White) implies has_liberty(target, s) by {
                    assert(interior(target, l));
                    assert(at(target, l) == Color::Empty);
                }
            }
            assert(synced(r@)) by {
                assert(grows(target) == rows as int && gcols(target) == cols as int);
                assert(replay(fresh_model(rows as int, cols as int, komi_half as int), Seq::empty())
                    == fresh_model(rows as int, cols as int, komi_half as int));
                assert(strip_winner(r@) == fresh_model(rows as int, cols as int, komi_half as int));
            }
        }
        r
    }

    /// The accepted moves so far, in order.
    pub fn get_game_history(&self) -> (r: &Vec<Move>)
        ensures
            r@ == self@.history,
    {
        &self.game_history
    }

    /// The player to move.
    pub fn get_current_player(&self) -> (r: Player)
        ensures
            r == self@.current,
    {
        self.current_player
    }

    /// The recorded winner, if any.
    pub fn get_winner(&self) -> (r: Option<Player>)
        ensures
            r == self@.winner,
    {
        self.winner
    }

    /// Records a winner. Nothing else changes.
    pub fn set_winner(&mut self, player: Player)
        ensures
            final(self)@ == (BoardModel { winner: Some(player), ..old(self)@ }),
            final(self).wf() == old(self).wf(),
            final(self).atari_current() == old(self).atari_current(),
            synced(old(self)@) ==> synced(final(self)@),
    {
        self.winner = Some(player);
        proof {
            assert(strip_winner(final(self)@) == strip_winner(old(self)@));
        }
    }

    /// Overrides the player to move. This is a raw setter: it can put the
    /// board out of sync with its history.
    pub fn set_current_player(&mut self, player: Player)
        ensures
            final(self)@ == (BoardModel { current: player, ..old(self)@ }),
            final(self).wf() == old(self).wf(),
            final(self).atari_current() == old(self).atari_current(),
    {
        self.current_player = player;
    }

    /// Stones captured by Black.
    pub fn get_black_captures(&self) -> (r: usize)
        ensures
            r as int == self@.black_captures,
    {
        self.black_captures
    }

    /// Stones captured by White.
    pub fn get_white_captures(&self) -> (r: usize)
        ensures
            r as int == self@.white_captures,
    {
        self.white_captures
    }

    /// Komi in half points.
    pub fn get_komi_half(&self) -> (r: usize)
        ensures
            r as int == self@.komi_half,
    {
        self.komi_half
    }

    /// Total padded dimensions (rows, cols).
    pub fn board_size(&self) -> (r: (usize, usize))
        requires
            self.wf(),
        ensures
            r.0 == grows(self@.grid),
            r.1 == gcols(self@.grid),
    {
        proof {
            self.lemma_wf();
            assert(self@.grid[0].len() == gcols(self@.grid));
        }
        (self.fields.len(), self.fields[0].len())
    }

    /// The colour at a grid location.
    pub fn get(&self, loc: Loc) -> (c: Color)
        requires
            self.wf(),
            loc.row < grows(self@.grid),
            loc.col < gcols(self@.grid),
        ensures
            c == at(self@.grid, loc),
    {
        proof {
            self.lemma_wf();
        }
        crate::grid::cell_color(&self.fields, loc)
    }

    /// True when the given grid equals one of the recorded snapshots.
    fn snaps_contain(&self, g: &Vec<Vec<Color>>) -> (r: bool)
        ensures
            r == is_repeat(self@.snaps, gview(*g)),
    {
        let n = self.snapshot_history.len();
        let mut i: usize = 0;
        while i < n
            invariant
                i <= n,
                n == self.snapshot_history@.len(),
                forall|j: int| 0 <= j < i ==> self@.snaps[j] != gview(*g),
            decreases n - i,
        {
            proof {
                assert(self@.snaps[i as int] == gview(self.snapshot_history@[i as int]));
            }
            if crate::grid::grid_eq(&self.snapshot_history[i], g) {
                proof {
                    assert(self@.snaps[i as int] == gview(*g));
                }
                return true;
            }
            i += 1;
        }
        proof {
            if self@.snaps.contains(gview(*g)) {
                let j = choose|j: int| 0 <= j < self@.snaps.len() && self@.snaps[j] == gview(*g);
            }
        }
        false
    }

    /// True when the auxiliary simple-ko test rejects the given grid.
    fn ko_match(&self, g: &Vec<Vec<Color>>) -> (r: bool)
        ensures
            r == is_ko_recapture(self@.snaps, gview(*g)),
    {
        let n = self.snapshot_history.len();
        if n < 4 {
            false
        } else {
            proof {
                assert(self@.snaps[n - 2] == gview(self.snapshot_history@[n - 2]));
            }
            crate::grid::grid_eq(&self.snapshot_history[n - 2], g)
        }
    }

    /// Whether the board accepts the move, without playing it.
    pub fn move_is_valid(&self, mv: &Move) -> (r: bool)
        requires
            self.wf(),
        ensures
            r == move_ok(self@, *mv),
    {
        if mv.loc.is_pass() {
            return true;
        }
        let size = self.board_size();
        if !mv.loc.is_on_board(size) {
            return false;
        }
        if self.get(mv.loc) != Color::Empty {
            return false;
        }
        proof {
            self.lemma_wf();
        }
        let (sim, _dead, suicide) = resolve_placement(&self.fields, mv);
        if suicide {
            return false;
        }
        if self.snaps_contain(&sim) {
            return false;
        }
        if self.ko_match(&sim) {
            return false;
        }
        true
    }

    /// Offers a move to the board. The entire effect — acceptance included —
    /// equals the mathematical `step`, the capture counters keep balancing
    /// the stones, the atari summaries are rebuilt whenever the position
    /// changes hands, and a board in sync with its history stays in sync.
    #[verifier::rlimit(80)]
    pub fn play(&mut self, mv: &Move)
        requires
            old(self).wf(),
        ensures
            final(self)@ == step(old(self)@, *mv),
            final(self).wf(),
            old(self).atari_current() ==> final(self).atari_current(),
            pass_loc(mv.loc) || move_ok(old(self)@, *mv) ==> final(self).atari_current(),
            synced(old(self)@) ==> synced(final(self)@),
            no_dead_group(old(self)@.grid) ==> no_dead_group(final(self)@.grid),
    {
        proof {
            self.lemma_wf();
        }
        let ghost b0 = self@;
        if mv.loc.is_pass() {
            self.game_history.push(*mv);
            self.current_player = self.current_player.opponent();
            let (gia, sia) = compute_atari(&self.fields);
            self.groups_in_atari = gia;
            self.stones_in_atari = sia;
            proof {
                assert(self@ == step(b0, *mv));
                lemma_nonpass_push(b0.history, *mv);
                assert(self.wf());
                if synced(b0) {
                    lemma_step_synced(b0, *mv);
                }
                if no_dead_group(b0.grid) {
                    lemma_step_no_dead(b0, *mv);
                }
            }
            return;
        }
        let size = self.board_size();
        if !mv.loc.is_on_board(size) {
            proof {
                assert(!move_ok(b0, *mv));
                assert(self@ == step(b0, *mv));
            }
            return;
        }
        if self.get(mv.loc) != Color::Empty {
            proof {
                assert(!move_ok(b0, *mv));
                assert(self@ == step(b0, *mv));
            }
            return;
        }
        let (sim, dead, suicide) = resolve_placement(&self.fields, mv);
        if suicide {
            proof {
                assert(!move_ok(b0, *mv));
                assert(self@ == step(b0, *mv));
            }
            return;
        }
        if self.snaps_contain(&sim) {
            proof {
                assert(!move_ok(b0, *mv));
                assert(self@ == step(b0, *mv));
            }
            return;
        }
        if self.ko_match(&sim) {
            proof {
                assert(!move_ok(b0, *mv));
                assert(self@ == step(b0, *mv));
            }
            return;
        }
        proof {
            assert(move_ok(b0, *mv));
        }
        let ghost g2 = resolved_grid(b0.grid, *mv);
        let ndead = dead.len();
        let snap = crate::grid::clone_grid(&sim);
        self.fields = sim;
        self.game_history.push(*mv);
        let hl = self.game_history.len();
        proof {
            lemma_nonpass_le(b0.history);
            crate::grid::lemma_grid_stones_nonneg(g2, grows(g2));
            assert(grid_stones(g2) >= 0);
            assert(ndead as int <= grid_stones(b0.grid) + 1);
            assert(hl == b0.history.len() + 1);
            assert(b0.black_captures + ndead <= hl);
            assert(b0.white_captures + ndead <= hl);
        }
        match mv.player {
            Player::Black => {
                self.black_captures = self.black_captures + ndead;
            },
            Player::White => {
                self.white_captures = self.white_captures + ndead;
            },
        }
        self.snapshot_history.push(snap);
        self.current_player = self.current_player.opponent();
        let (gia, sia) = compute_atari(&self.fields);
        self.groups_in_atari = gia;
        self.stones_in_atari = sia;
        proof {
            assert(snaps_view(self.snapshot_history@) =~= b0.snaps.push(g2));
            assert(self@.history == b0.history.push(*mv));
            dead@.unique_seq_to_set();
            assert(ndead as int == dead_of(b0.grid, *mv).len());
            assert(self@.grid == g2);
            assert(self@.current == opp_of(b0.current));
            assert(self@.black_captures == step(b0, *mv).black_captures);
            assert(self@.white_captures == step(b0, *mv).white_captures);
            assert(self@ == step(b0, *mv));
            lemma_nonpass_push(b0.history, *mv);
            assert(self.wf());
            if synced(b0) {
                lemma_step_synced(b0, *mv);
            }
            if no_dead_group(b0.grid) {
                lemma_step_no_dead(b0, *mv);
            }
        }
    }

    /// Removes the whole group containing `loc` from the grid, crediting
    /// the stones to the capturing side (no credit for emptying an empty
    /// region). Used when dead groups are taken off before scoring; the
    /// histories are not touched.
    pub fn remove_group(&mut self, loc: Loc)
        requires
            old(self).wf(),
            interior(old(self)@.grid, loc),
        ensures
            final(self).wf(),
            final(self)@ == (BoardModel {
                grid: clear_cells(old(self)@.grid, group_of(old(self)@.grid, loc)),
                black_captures: old(self)@.black_captures + if at(old(self)@.grid, loc)
                    == Color::White {
                    group_of(old(self)@.grid, loc).len() as int
                } else {
                    0int
                },
                white_captures: old(self)@.white_captures + if at(old(self)@.grid, loc)
                    == Color::Black {
                    group_of(old(self)@.grid, loc).len() as int
                } else {
                    0int
                },
                ..old(self)@
            }),
    {
        proof {
            self.lemma_wf();
        }
        let ghost g0 = self@.grid;
        let ghost b0 = self@;
        let group = crate::grid::grid_group(&self.fields, loc);
        let color = self.get(loc);
        let stone_count = group.len();
        let hl = self.game_history.len();
        proof {
            lemma_nonpass_le(b0.history);
            group@.unique_seq_to_set();
        }
        // empty the group's cells one by one
        let ghost gset = group@.to_set();
        proof {
            assert(group@.subrange(0, 0).to_set() =~= Set::<Loc>::empty());
            let e = clear_cells(g0, group@.subrange(0, 0).to_set());
            assert forall|i2: int| 0 <= i2 < g0.len() implies e[i2] =~= g0[i2] by {
                assert forall|j2: int| 0 <= j2 < g0[i2].len() implies e[i2][j2] == g0[i2][j2] by {
                    assert(!group@.subrange(0, 0).to_set().contains(
                        Loc { row: i2 as usize, col: j2 as usize },
                    ));
                }
            }
            assert(e =~= g0);
        }
        let mut k: usize = 0;
        while k < group.len()
            invariant
                grid_wf(g0),
                k <= group@.len(),
                group@.no_duplicates(),
                gset == group@.to_set(),
                is_group(g0, loc, gset),
                color == at(g0, loc),
                gview(self.fields) == clear_cells(g0, group@.subrange(0, k as int).to_set()),
                grid_stones(gview(self.fields)) == grid_stones(g0) - (if color == Color::Black
                    || color == Color::White {
                    k as int
                } else {
                    0int
                }),
                self.snapshot_history == old(self).snapshot_history,
                self.game_history == old(self).game_history,
                self.current_player == old(self).current_player,
                self.komi_half == old(self).komi_half,
                self.black_captures == old(self).black_captures,
                self.white_captures == old(self).white_captures,
                self.winner == old(self).winner,
            decreases group@.len() - k,
        {
            let y = group[k];
            let ghost prefix = group@.subrange(0, k as int).to_set();
            let ghost pre = gview(self.fields);
            proof {
                assert(gset.contains(group@[k as int]));
                assert(interior(g0, y));
                assert forall|z: Loc| #[trigger] prefix.contains(z) implies interior(g0, z) by {
                    let j = choose|j: int| 0 <= j < k && group@.subrange(0, k as int)[j] == z;
                    assert(group@[j] == z);
                    assert(gset.contains(z));
                }
                lemma_clear_wf(g0, prefix);
                assert(!prefix.contains(y)) by {
                    if prefix.contains(y) {
                        let j = choose|j: int| 0 <= j < k && group@.subrange(0, k as int)[j] == y;
                        assert(group@[j] == group@[k as int]);
                    }
                }
                assert(at(pre, y) == at(g0, y));
                assert(at(g0, y) == color);
            }
            crate::grid::set_cell(&mut self.fields, y, Color::Empty);
            proof {
                assert(gview(self.fields) == set_at(pre, y, Color::Empty));
                lemma_clear_insert(g0, prefix, y);
                assert(group@.subrange(0, k as int + 1) =~= group@.subrange(0, k as int).push(
                    group@[k as int],
                ));
                group@.subrange(0, k as int).lemma_push_to_set_commute(group@[k as int]);
                crate::grid::lemma_grid_stones_set(pre, y, Color::Empty);
            }
            k += 1;
        }
        proof {
            assert(group@.subrange(0, group@.len() as int) =~= group@);
            assert(gview(self.fields) == clear_cells(g0, gset));
            lemma_clear_wf(g0, gset);
        }
        proof {
            crate::grid::lemma_grid_stones_nonneg(gview(self.fields), grows(g0));
            if color == Color::Black || color == Color::White {
                assert(grid_stones(gview(self.fields)) == grid_stones(g0) - stone_count as int);
                assert(stone_count as int <= grid_stones(g0));
                assert(b0.black_captures + stone_count <= hl);
                assert(b0.white_captures + stone_count <= hl);
            }
        }
        match color {
            Color::White => {
                self.black_captures = self.black_captures + stone_count;
            },
            Color::Black => {
                self.white_captures = self.white_captures + stone_count;
            },
            _ => {},
        }
        proof {
            assert(self.wf());
        }
    }

    /// Removes the whole group containing `loc` without crediting anyone:
    /// used when groups agreed dead are taken off the board before
    /// counting.
    pub fn remove_group_for_counting(&mut self, loc: Loc)
        requires
            old(self).wf(),
            interior(old(self)@.grid, loc),
        ensures
            final(self).wf(),
            final(self)@ == (BoardModel {
                grid: clear_cells(old(self)@.grid, group_of(old(self)@.grid, loc)),
                ..old(self)@
            }),
    {
        proof {
            self.lemma_wf();
        }
        let ghost g0 = self@.grid;
        let group = crate::grid::grid_group(&self.fields, loc);
        let color = self.get(loc);
        let ghost gset = group@.to_set();
        proof {
            assert(group@.subrange(0, 0).to_set() =~= Set::<Loc>::empty());
            let e = clear_cells(g0, group@.subrange(0, 0).to_set());
            assert forall|i2: int| 0 <= i2 < g0.len() implies e[i2] =~= g0[i2] by {
                assert forall|j2: int| 0 <= j2 < g0[i2].len() implies e[i2][j2] == g0[i2][j2] by {
                    assert(!group@.subrange(0, 0).to_set().contains(
                        Loc { row: i2 as usize, col: j2 as usize },
                    ));
                }
            }
            assert(e =~= g0);
        }
        let mut k: usize = 0;
        while k < group.len()
            invariant
                grid_wf(g0),
                k <= group@.len(),
                group@.no_duplicates(),
                gset == group@.to_set(),
                is_group(g0, loc, gset),
                color == at(g0, loc),
                gview(self.fields) == clear_cells(g0, group@.subrange(0, k as int).to_set()),
                grid_stones(gview(self.fields)) <= grid_stones(g0),
                self.snapshot_history == old(self).snapshot_history,
                self.game_history == old(self).game_history,
                self.current_player == old(self).current_player,
                self.komi_half == old(self).komi_half,
                self.black_captures == old(self).black_captures,
                self.white_captures == old(self).white_captures,
                self.winner == old(self).winner,
                self.groups_in_atari == old(self).groups_in_atari,
                self.stones_in_atari == old(self).stones_in_atari,
            decreases group@.len() - k,
        {
            let y = group[k];
            let ghost prefix = group@.subrange(0, k as int).to_set();
            let ghost pre = gview(self.fields);
            proof {
                assert(gset.contains(group@[k as int]));
                assert(interior(g0, y));
                assert forall|z: Loc| #[trigger] prefix.contains(z) implies interior(g0, z) by {
                    let j = choose|j: int| 0 <= j < k && group@.subrange(0, k as int)[j] == z;
                    assert(group@[j] == z);
                    assert(gset.contains(z));
                }
                lemma_clear_wf(g0, prefix);
                assert(!prefix.contains(y)) by {
                    if prefix.contains(y) {
                        let j = choose|j: int| 0 <= j < k && group@.subrange(0, k as int)[j] == y;
                        assert(group@[j] == group@[k as int]);
                    }
                }
                assert(at(pre, y) == at(g0, y));
            }
            crate::grid::set_cell(&mut self.fields, y, Color::Empty);
            proof {
                assert(gview(self.fields) == set_at(pre, y, Color::Empty));
                lemma_clear_insert(g0, prefix, y);
                assert(group@.subrange(0, k as int + 1) =~= group@.subrange(0, k as int).push(
                    group@[k as int],
                ));
                group@.subrange(0, k as int).lemma_push_to_set_commute(group@[k as int]);
                crate::grid::lemma_grid_stones_set(pre, y, Color::Empty);
            }
            k += 1;
        }
        proof {
            assert(group@.subrange(0, group@.len() as int) =~= group@);
            assert(gview(self.fields) == clear_cells(g0, gset));
            lemma_clear_wf(g0, gset);
            assert(self.wf());
        }
    }

    /// Rebuilds the board from scratch by replaying every recorded move but
    /// the last. With no moves recorded, nothing changes.
    pub fn undo(&mut self)
        requires
            old(self).wf(),
        ensures
            final(self).wf(),
            old(self)@.history.len() == 0 ==> final(self)@ == old(self)@,
            old(self).atari_current() ==> final(self).atari_current(),
            old(self)@.history.len() > 0 ==> final(self)@ == replay(
                fresh_model(
                    grows(old(self)@.grid),
                    gcols(old(self)@.grid),
                    old(self)@.komi_half,
                ),
                old(self)@.history.drop_last(),
            ) && final(self).atari_current() && synced(final(self)@) && no_dead_group(
                final(self)@.grid,
            ),
            grows(final(self)@.grid) == grows(old(self)@.grid),
            gcols(final(self)@.grid) == gcols(old(self)@.grid),
            final(self)@.komi_half == old(self)@.komi_half,
    {
        proof {
            self.lemma_wf();
        }
        let n = self.game_history.len();
        if n == 0 {
            return;
        }
        let rows = self.fields.len();
        let cols = self.fields[0].len();
        let komi = self.komi_half;
        let ghost f = fresh_model(rows as int, cols as int, komi as int);
        let mut moves: Vec<Move> = Vec::new();
        let mut i: usize = 0;
        while i < n - 1
            invariant
                i <= n - 1,
                n == old(self)@.history.len(),
                self == old(self),
                moves@ == old(self)@.history.subrange(0, i as int),
            decreases n - 1 - i,
        {
            moves.push(self.game_history[i]);
            proof {
                assert(moves@ =~= old(self)@.history.subrange(0, i as int + 1));
            }
            i += 1;
        }
        proof {
            assert(moves@ =~= old(self)@.history.drop_last());
        }
        *self = Board::new(rows, cols, komi);
        proof {
            assert(moves@.subrange(0, 0) =~= Seq::<Move>::empty());
        }
        let mut j: usize = 0;
        while j < moves.len()
            invariant
                j <= moves@.len(),
                self.wf(),
                self.atari_current(),
                synced(self@),
                f == fresh_model(rows as int, cols as int, komi as int),
                self@ == replay(f, moves@.subrange(0, j as int)),
                no_dead_group(self@.grid),
                grows(self@.grid) == rows as int,
                gcols(self@.grid) == cols as int,
                self@.komi_half == komi as int,
            decreases moves@.len() - j,
        {
            let ghost pre = self@;
            let m = moves[j];
            proof {
                self.lemma_wf();
                lemma_step_frame(self@, m);
            }
            self.play(&m);
            proof {
                assert(moves@.subrange(0, j as int + 1).drop_last() =~= moves@.subrange(
                    0,
                    j as int,
                ));
                assert(moves@.subrange(0, j as int + 1).last() == moves@[j as int]);
                assert(self@ == step(pre, moves@[j as int]));
                assert(self@ == replay(f, moves@.subrange(0, j as int + 1)));
            }
            j += 1;
        }
        proof {
            assert(moves@.subrange(0, moves@.len() as int) =~= moves@);
            assert(self@ == replay(f, old(self)@.history.drop_last()));
        }
    }

    /// The game record as text: one line per accepted move, in order.
    pub fn get_game_record(&self) -> (r: String)
        ensures
            r@ == record_chars(self@.history, self@.history.len() as int),
    {
        let mut s = String::new();
        let n = self.game_history.len();
        let mut i: usize = 0;
        while i < n
            invariant
                i <= n,
                n == self@.history.len(),
                s@ == record_chars(self@.history, i as int),
            decreases n - i,
        {
            let mv = self.game_history[i];
            match mv.player {
                Player::Black => s.append("B["),
                Player::White => s.append("W["),
            }
            if mv.loc.is_pass() {
                s.append("pass");
            } else {
                let rs = crate::text::dec_string(mv.loc.row as u128);
                s.append(rs.as_str());
                s.append(",");
                let cs = crate::text::dec_string(mv.loc.col as u128);
                s.append(cs.as_str());
            }
            s.append("]\n");
            proof {
                assert(s@ =~= record_chars(self@.history, i as int + 1));
            }
            i += 1;
        }
        s
    }

    /// Renders the full padded grid, one character and a space per cell,
    /// one line per row.
    pub fn to_string(&self) -> (r: String)
        requires
            self.wf(),
        ensures
            r@ == render_grid(self@.grid, grows(self@.grid)),
    {
        proof {
            self.lemma_wf();
            reveal_strlit(".");
            reveal_strlit("#");
            reveal_strlit("O");
            reveal_strlit("/");
            reveal_strlit(" ");
            reveal_strlit("\n");
        }
        let ghost gv = self@.grid;
        let mut s = String::new();
        let rows = self.fields.len();
        let mut i: usize = 0;
        while i < rows
            invariant
                gv == self@.grid,
                grid_wf(gv),
                i <= rows,
                rows == grows(gv),
                s@ == render_grid(gv, i as int),
            decreases rows - i,
        {
            let cols = self.fields[i].len();
            let mut j: usize = 0;
            while j < cols
                invariant
                    gv == self@.grid,
                    grid_wf(gv),
                    i < rows,
                    rows == grows(gv),
                    j <= cols,
                    cols == gv[i as int].len(),
                    s@ == render_grid(gv, i as int) + render_row(gv[i as int], j as int),
                decreases cols - j,
            {
                let c = self.fields[i][j];
                let cs = c.to_string();
                s.append(cs.as_str());
                s.append(" ");
                proof {
                    reveal_strlit(".");
                    reveal_strlit("#");
                    reveal_strlit("O");
                    reveal_strlit("/");
                    reveal_strlit(" ");
                    assert(cs@ + " "@ =~= cell_chars(gv[i as int][j as int]));
                    assert(s@ =~= render_grid(gv, i as int) + render_row(
                        gv[i as int],
                        j as int + 1,
                    ));
                }
                j += 1;
            }
            s.append("\n");
            proof {
                reveal_strlit("\n");
                assert("\n"@ =~= seq!['\n']);
                assert(s@ =~= render_grid(gv, i as int + 1));
            }
            i += 1;
        }
        s
    }

    /// Whether the island bordering survey of `island` finds Black and
    /// White stones, respectively.
    pub fn get_bordering_colors(&self, island: &Vec<Loc>) -> (r: (bool, bool))
        requires
            self.wf(),
            forall|k: int| 0 <= k < island@.len() ==> interior(self@.grid, #[trigger] island@[k]),
        ensures
            r.0 == borders_color(self@.grid, island@.to_set(), Color::Black),
            r.1 == borders_color(self@.grid, island@.to_set(), Color::White),
    {
        proof {
            self.lemma_wf();
        }
        let hb = group_borders(&self.fields, island, Color::Black);
        let hw = group_borders(&self.fields, island, Color::White);
        (hb, hw)
    }

    /// The owner and size of the empty region at `loc`: the unique
    /// bordering colour and the region's cell count, `(Empty, 0)` for dame
    /// or unbordered regions, `(Invalid, 0)` when `loc` holds a stone.
    pub fn count_potential_points(&self, loc: Loc) -> (r: (Color, usize))
        requires
            self.wf(),
            interior(self@.grid, loc),
        ensures
            at(self@.grid, loc) != Color::Empty ==> r == (Color::Invalid, 0usize),
            at(self@.grid, loc) == Color::Empty ==> r.0 == island_owner(
                self@.grid,
                group_of(self@.grid, loc),
            ) && (r.0 != Color::Empty ==> r.1 as int == group_of(self@.grid, loc).len()) && (r.0
                == Color::Empty ==> r.1 == 0),
    {
        proof {
            self.lemma_wf();
        }
        if self.get(loc) != Color::Empty {
            return (Color::Invalid, 0);
        }
        let grp = crate::grid::grid_group(&self.fields, loc);
        proof {
            assert forall|k: int| 0 <= k < grp@.len() implies interior(
                self@.grid,
                #[trigger] grp@[k],
            ) by {
                assert(grp@.to_set().contains(grp@[k]));
            }
            grp@.unique_seq_to_set();
        }
        let (hb, hw) = self.get_bordering_colors(&grp);
        if hb && hw {
            (Color::Empty, 0)
        } else if hw {
            (Color::White, grp.len())
        } else if hb {
            (Color::Black, grp.len())
        } else {
            (Color::Empty, 0)
        }
    }

    /// The empty regions of the board, each listed once in row-major order
    /// of its first cell.
    #[verifier::rlimit(80)]
    pub fn empty_islands(&self) -> (r: Vec<Vec<Loc>>)
        requires
            self.wf(),
        ensures
            forall|k: int|
                0 <= k < r@.len() ==> (#[trigger] r@[k]@).len() > 0 && sorted_locs(r@[k]@)
                    && is_group(self@.grid, r@[k]@[0], r@[k]@.to_set()) && at(
                    self@.grid,
                    r@[k]@[0],
                ) == Color::Empty,
            forall|l: Loc|
                interior(self@.grid, l) && #[trigger] at(self@.grid, l) == Color::Empty
                    ==> exists|k: int| 0 <= k < r@.len() && r@[k]@.to_set() == group_of(
                    self@.grid,
                    l,
                ),
            forall|k1: int, k2: int|
                0 <= k1 < k2 < r@.len() ==> loc_lt(#[trigger] r@[k1]@[0], #[trigger] r@[k2]@[0]),
    {
        proof {
            self.lemma_wf();
        }
        let ghost gv = self@.grid;
        let mut out: Vec<Vec<Loc>> = Vec::new();
        let rows = self.fields.len();
        let cols = self.fields[0].len();
        let mut row: usize = 1;
        while row < rows - 1
            invariant
                gv == self@.grid,
                grid_wf(gv),
                rows == grows(gv),
                cols == gcols(gv),
                1 <= row <= rows - 1,
                forall|k: int|
                    0 <= k < out@.len() ==> (#[trigger] out@[k]@).len() > 0 && sorted_locs(
                        out@[k]@,
                    ) && is_group(gv, out@[k]@[0], out@[k]@.to_set()) && at(gv, out@[k]@[0])
                        == Color::Empty,
                forall|l: Loc|
                    interior(gv, l) && #[trigger] at(gv, l) == Color::Empty && loc_lt(
                        l,
                        Loc { row, col: 1 },
                    ) ==> exists|k: int| 0 <= k < out@.len() && out@[k]@.to_set() == group_of(
                        gv,
                        l,
                    ),
                forall|k: int| 0 <= k < out@.len() ==> loc_lt(#[trigger] out@[k]@[0], Loc {
                    row,
                    col: 1,
                }),
                forall|k1: int, k2: int|
                    0 <= k1 < k2 < out@.len() ==> loc_lt(
                        #[trigger] out@[k1]@[0],
                        #[trigger] out@[k2]@[0],
                    ),
            decreases rows - row,
        {
            let mut col: usize = 1;
            while col < cols - 1
                invariant
                    gv == self@.grid,
                    grid_wf(gv),
                    rows == grows(gv),
                    cols == gcols(gv),
                    1 <= row < rows - 1,
                    1 <= col <= cols - 1,
                    forall|k: int|
                        0 <= k < out@.len() ==> (#[trigger] out@[k]@).len() > 0 && sorted_locs(
                            out@[k]@,
                        ) && is_group(gv, out@[k]@[0], out@[k]@.to_set()) && at(gv, out@[k]@[0])
                            == Color::Empty,
                    forall|l: Loc|
                        interior(gv, l) && #[trigger] at(gv, l) == Color::Empty && loc_lt(
                            l,
                            Loc { row, col },
                        ) ==> exists|k: int| 0 <= k < out@.len() && out@[k]@.to_set() == group_of(
                            gv,
                            l,
                        ),
                    forall|k: int| 0 <= k < out@.len() ==> loc_lt(#[trigger] out@[k]@[0], Loc {
                        row,
                        col,
                    }),
                    forall|k1: int, k2: int|
                        0 <= k1 < k2 < out@.len() ==> loc_lt(
                            #[trigger] out@[k1]@[0],
                            #[trigger] out@[k2]@[0],
                        ),
                decreases cols - col,
            {
                let l = Loc { row, col };
                let c = crate::grid::cell_color(&self.fields, l);
                if c == Color::Empty {
                    let grp = crate::grid::grid_group(&self.fields, l);
                    proof {
                        assert(grp@.to_set().contains(l));
                        assert(grp@.contains(l));
                    }
                    let first = grp[0];
                    if first.row == l.row && first.col == l.col {
                        let ghost oldv = out@;
                        out.push(grp);
                        proof {
                            assert(out@[oldv.len() as int]@.to_set() == group_of(gv, l));
                            assert forall|x: Loc|
                                interior(gv, x) && #[trigger] at(gv, x) == Color::Empty && loc_lt(
                                    x,
                                    Loc { row, col: (col + 1) as usize },
                                ) implies exists|k: int|
                                0 <= k < out@.len() && out@[k]@.to_set() == group_of(gv, x) by {
                                if loc_lt(x, l) {
                                    let k = choose|k: int|
                                        0 <= k < oldv.len() && #[trigger] oldv[k]@.to_set()
                                            == group_of(gv, x);
                                    assert(out@[k] == oldv[k]);
                                } else {
                                    assert(x == l);
                                    assert(out@[oldv.len() as int]@.to_set() == group_of(gv, x));
                                }
                            }
                        }
                    } else {
                        proof {
                            let j = choose|j: int| 0 <= j < grp@.len() && grp@[j] == l;
                            assert(j != 0);
                            assert(loc_lt(grp@[0], grp@[j]));
                            crate::grid::lemma_group_member(gv, l, grp@.to_set(), first);
                            assert(at(gv, first) == at(gv, l));
                            assert forall|x: Loc|
                                interior(gv, x) && #[trigger] at(gv, x) == Color::Empty && loc_lt(
                                    x,
                                    Loc { row, col: (col + 1) as usize },
                                ) implies exists|k: int|
                                0 <= k < out@.len() && out@[k]@.to_set() == group_of(gv, x) by {
                                if x == l {
                                    assert(loc_lt(first, l));
                                    assert(group_of(gv, first) == group_of(gv, l));
                                }
                            }
                        }
                    }
                } else {
                    proof {
                        assert forall|x: Loc|
                            interior(gv, x) && #[trigger] at(gv, x) == Color::Empty && loc_lt(
                                x,
                                Loc { row, col: (col + 1) as usize },
                            ) implies exists|k: int|
                            0 <= k < out@.len() && out@[k]@.to_set() == group_of(gv, x) by {
                            if x == l {
                                assert(false);
                            }
                        }
                    }
                }
                col += 1;
            }
            proof {
                assert forall|l: Loc|
                    interior(gv, l) && #[trigger] at(gv, l) == Color::Empty && loc_lt(l, Loc {
                        row: (row + 1) as usize,
                        col: 1,
                    }) implies exists|k: int| 0 <= k < out@.len() && out@[k]@.to_set() == group_of(
                    gv,
                    l,
                ) by {
                    assert(loc_lt(l, Loc { row, col: (cols - 1) as usize }));
                }
            }
            row += 1;
        }
        out
    }

    /// The (black, white) territory points of the whole board.
    #[verifier::rlimit(80)]
    pub fn count_board_points(&self) -> (r: (usize, usize))
        requires
            self.wf(),
        ensures
            r.0 as int == board_points(self@.grid).0,
            r.1 as int == board_points(self@.grid).1,
            crate::grid::groups_exist(self@.grid),
    {
        proof {
            self.lemma_wf();
        }
        let ghost gv = self@.grid;
        let rows = self.fields.len();
        let cols = self.fields[0].len();
        let mut bp: usize = 0;
        let mut wp: usize = 0;
        proof {
            assert(rows * cols <= 9801) by (nonlinear_arith)
                requires
                    3 <= rows <= 99,
                    3 <= cols <= 99,
            ;
            assert forall|k: int| #![trigger k % gcols(gv)]
                0 <= k < cols as int + 1 implies crate::grid::on_border(
                gv,
                k / gcols(gv),
                k % gcols(gv),
            ) by {
                if k < cols {
                    assert(k / cols as int == 0 && k % cols as int == k) by (nonlinear_arith)
                        requires 0 <= k < cols as int;
                } else {
                    assert(k == cols as int);
                    assert(cols as int / cols as int == 1 && cols as int % cols as int == 0)
                        by (nonlinear_arith)
                        requires cols as int >= 3;
                }
            }
            assert(cols as int + 1 <= rows * cols) by (nonlinear_arith)
                requires 3 <= rows <= 99, 3 <= cols <= 99;
            lemma_points_zero_border(gv, 0, cols as int + 1);
        }
        let mut row: usize = 1;
        while row < rows - 1
            invariant
                gv == self@.grid,
                self.wf(),
                grid_wf(gv),
                rows == grows(gv),
                cols == gcols(gv),
                1 <= row <= rows - 1,
                rows * cols <= 9801,
                bp as int == board_points_upto(gv, row * cols + 1).0,
                wp as int == board_points_upto(gv, row * cols + 1).1,
                bp + wp <= 9801 * (row * cols + 1),
                row * cols + 1 <= rows * cols,
                forall|l: Loc|
                    interior(gv, l) && #[trigger] at(gv, l) == Color::Empty && loc_lt(l, Loc {
                        row,
                        col: 1,
                    }) ==> is_group(gv, l, group_of(gv, l)),
            decreases rows - row,
        {
            proof {
                assert(row * cols + cols <= rows * cols && (row + 1) * cols == row * cols + cols)
                    by (nonlinear_arith)
                    requires row < rows - 1, 3 <= cols;
            }
            let mut col: usize = 1;
            while col < cols - 1
                invariant
                    gv == self@.grid,
                    self.wf(),
                    grid_wf(gv),
                    rows == grows(gv),
                    cols == gcols(gv),
                    1 <= row < rows - 1,
                    1 <= col <= cols - 1,
                    rows * cols <= 9801,
                    row * cols + cols <= rows * cols,
                    bp as int == board_points_upto(gv, row * cols + col).0,
                    wp as int == board_points_upto(gv, row * cols + col).1,
                    bp + wp <= 9801 * (row * cols + col),
                    forall|l: Loc|
                        interior(gv, l) && #[trigger] at(gv, l) == Color::Empty && loc_lt(l, Loc {
                            row,
                            col,
                        }) ==> is_group(gv, l, group_of(gv, l)),
                decreases cols - col,
            {
                let l = Loc { row, col };
                let ghost flat = row * cols + col;
                proof {
                    assert(flat / cols as int == row as int && flat % cols as int == col as int)
                        by (nonlinear_arith)
                        requires
                            flat == row * cols + col,
                            0 <= col < cols as int,
                            0 <= row,
                    ;
                }
                let c = crate::grid::cell_color(&self.fields, l);
                if c == Color::Empty {
                    let grp = crate::grid::grid_group(&self.fields, l);
                    proof {
                        assert(grp@.to_set().contains(l));
                        assert(grp@.contains(l));
                        assert forall|k: int| 0 <= k < grp@.len() implies interior(
                            gv,
                            #[trigger] grp@[k],
                        ) by {
                            assert(grp@.to_set().contains(grp@[k]));
                        }
                        crate::grid::lemma_locs_len_bound(grp@, grows(gv), gcols(gv));
                        grp@.unique_seq_to_set();
                    }
                    let first = grp[0];
                    if first.row == l.row && first.col == l.col {
                        proof {
                            assert(first_of_group(gv, l)) by {
                                assert forall|y: Loc|
                                    #[trigger] group_of(gv, l).contains(y) implies !loc_lt(
                                    y,
                                    l,
                                ) by {
                                    let j = choose|j: int|
                                        0 <= j < grp@.len() && grp@[j] == y;
                                    if j > 0 {
                                        assert(loc_lt(grp@[0], grp@[j]));
                                    }
                                }
                            }
                        }
                        let (hb, hw) = self.get_bordering_colors(&grp);
                        if hb && hw {
                            proof {
                                assert(cell_points(gv, flat) == (0int, 0int));
                            }
                        } else if hw {
                            proof {
                                assert(island_owner(gv, group_of(gv, l)) == Color::White);
                                assert(bp + wp + grp@.len() <= 9801 * (flat + 1))
                                    by (nonlinear_arith)
                                    requires
                                        bp + wp <= 9801 * flat,
                                        grp@.len() <= 9801,
                                        flat >= 0,
                                ;
                                assert(9801 * (flat + 1) <= 9801 * 9802) by (nonlinear_arith)
                                    requires flat + 1 <= 9801 + 1;
                            }
                            wp = wp + grp.len();
                        } else if hb {
                            proof {
                                assert(island_owner(gv, group_of(gv, l)) == Color::Black);
                                assert(bp + wp + grp@.len() <= 9801 * (flat + 1))
                                    by (nonlinear_arith)
                                    requires
                                        bp + wp <= 9801 * flat,
                                        grp@.len() <= 9801,
                                        flat >= 0,
                                ;
                                assert(9801 * (flat + 1) <= 9801 * 9802) by (nonlinear_arith)
                                    requires flat + 1 <= 9801 + 1;
                            }
                            bp = bp + grp.len();
                        } else {
                            proof {
                                assert(island_owner(gv, group_of(gv, l)) == Color::Empty);
                                assert(cell_points(gv, flat) == (0int, 0int));
                            }
                        }
                    } else {
                        proof {
                            let j = choose|j: int| 0 <= j < grp@.len() && grp@[j] == l;
                            assert(j != 0);
                            assert(loc_lt(grp@[0], grp@[j]));
                            assert(group_of(gv, l).contains(first));
                            assert(!first_of_group(gv, l));
                            assert(cell_points(gv, flat) == (0int, 0int));
                        }
                    }
                } else {
                    proof {
                        assert(cell_points(gv, flat) == (0int, 0int));
                    }
                }
                proof {
                    assert(bp + wp <= 9801 * (flat + 1)) by (nonlinear_arith)
                        requires
                            bp + wp <= 9801 * flat + 9801,
                            flat >= 0,
                    ;
                    assert forall|lx: Loc|
                        interior(gv, lx) && #[trigger] at(gv, lx) == Color::Empty && loc_lt(
                            lx,
                            Loc { row, col: (col + 1) as usize },
                        ) implies is_group(gv, lx, group_of(gv, lx)) by {
                        if !loc_lt(lx, l) {
                            assert(lx == l);
                        }
                    }
                }
                col += 1;
            }
            proof {
                let base = row * cols + cols - 1;
                assert forall|k: int| #![trigger k % gcols(gv)]
                    base <= k < base + 2 implies crate::grid::on_border(
                    gv,
                    k / gcols(gv),
                    k % gcols(gv),
                ) by {
                    if k == base {
                        assert(k / cols as int == row as int && k % cols as int == cols as int - 1)
                            by (nonlinear_arith)
                            requires
                                k == row * cols + cols - 1,
                                3 <= cols,
                                0 <= row,
                        ;
                    } else {
                        assert(k == row * cols + cols);
                        assert(k / cols as int == row as int + 1 && k % cols as int == 0)
                            by (nonlinear_arith)
                            requires
                                k == row * cols + cols,
                                3 <= cols,
                                0 <= row,
                        ;
                    }
                }
                assert(base + 2 <= rows * cols) by (nonlinear_arith)
                    requires
                        base == row * cols + cols - 1,
                        row as int + 1 <= rows as int - 1,
                        3 <= cols <= 99,
                        3 <= rows <= 99,
                        0 <= row,
                ;
                lemma_points_zero_border(gv, base, base + 2);
                assert((row + 1) * cols + 1 == base + 2) by (nonlinear_arith)
                    requires base == row * cols + cols - 1;
                assert forall|lx: Loc|
                    interior(gv, lx) && #[trigger] at(gv, lx) == Color::Empty && loc_lt(lx, Loc {
                        row: (row + 1) as usize,
                        col: 1,
                    }) implies is_group(gv, lx, group_of(gv, lx)) by {
                    assert(loc_lt(lx, Loc { row, col: (cols - 1) as usize }));
                }
                assert((row + 1) * cols + 1 <= rows * cols) by (nonlinear_arith)
                    requires
                        row as int + 1 <= rows as int - 1,
                        3 <= cols <= 99,
                        3 <= rows <= 99,
                        0 <= row,
                ;
                assert(bp + wp <= 9801 * ((row + 1) * cols + 1)) by (nonlinear_arith)
                    requires
                        bp + wp <= 9801 * (row * cols + cols - 1),
                        (row + 1) * cols + 1 >= row * cols + cols - 1,
                ;
            }
            row += 1;
        }
        proof {
            let base = row * cols + 1;
            assert(row == rows - 1);
            assert forall|k: int| #![trigger k % gcols(gv)]
                base <= k < rows * cols implies crate::grid::on_border(
                gv,
                k / gcols(gv),
                k % gcols(gv),
            ) by {
                assert(k / cols as int == rows as int - 1) by (nonlinear_arith)
                    requires
                        (rows - 1) * cols <= k < rows * cols,
                        3 <= cols,
                        1 <= rows,
                ;
            }
            assert(base <= rows * cols) by (nonlinear_arith)
                requires
                    base == row * cols + 1,
                    row == rows as int - 1,
                    3 <= cols <= 99,
                    3 <= rows <= 99,
            ;
            lemma_points_zero_border(gv, base, rows * cols as int);
            assert forall|lx: Loc|
                interior(gv, lx) && #[trigger] at(gv, lx) == Color::Empty implies is_group(
                gv,
                lx,
                group_of(gv, lx),
            ) by {
                assert(lx.row < grows(gv) - 1);
                assert(loc_lt(lx, Loc { row, col: 1 }));
            }
        }
        (bp, wp)
    }

    /// The final score of the position: area points plus captures, komi
    /// (in half points) added to White; equal totals are a draw, otherwise
    /// the higher total wins by the difference.
    pub fn count_score(&mut self) -> (r: GameResult)
        requires
            old(self).wf(),
        ensures
            *final(self) == *old(self),
            r == spec_score(old(self)@),
    {
        proof {
            self.lemma_wf();
        }
        let (bp, wp) = self.count_board_points();
        let bt: u128 = 2 * ((bp as u128) + (self.black_captures as u128));
        let wt: u128 = 2 * ((wp as u128) + (self.white_captures as u128)) + (self.komi_half
            as u128);
        if bt == wt {
            GameResult::Draw
        } else if bt > wt {
            GameResult::Points(Player::Black, bt - wt)
        } else {
            GameResult::Points(Player::White, wt - bt)
        }
    }

    /// Acknowledges a resignation by the given player: the result names the
    /// resigner; the board itself is unchanged.
    pub fn handle_resignation(&mut self, player: Player) -> (r: GameResult)
        ensures
            *final(self) == *old(self),
            r == GameResult::Resignation(player),
    {
        GameResult::Resignation(player)
    }

    /// The maximal same-coloured connected group containing `loc`, listed
    /// in strictly increasing row-major order.
    pub fn group_stones(&self, loc: Loc) -> (r: Vec<Loc>)
        requires
            self.wf(),
            interior(self@.grid, loc),
        ensures
            is_group(self@.grid, loc, r@.to_set()),
            r@.no_duplicates(),
            sorted_locs(r@),
            group_of(self@.grid, loc) == r@.to_set(),
    {
        proof {
            self.lemma_wf();
        }
        crate::grid::grid_group(&self.fields, loc)
    }

    /// The number of distinct liberties of the group containing `loc`.
    pub fn count_liberties(&self, loc: Loc) -> (n: usize)
        requires
            self.wf(),
            interior(self@.grid, loc),
        ensures
            n as int == libs(self@.grid, group_of(self@.grid, loc)).len(),
    {
        proof {
            self.lemma_wf();
        }
        let grp = crate::grid::grid_group(&self.fields, loc);
        proof {
            assert forall|k: int| 0 <= k < grp@.len() implies on_grid(
                self@.grid,
                #[trigger] grp@[k],
            ) by {
                assert(grp@.to_set().contains(grp@[k]));
            }
        }
        let lb = crate::grid::grid_liberties(&self.fields, &grp);
        proof {
            lb@.unique_seq_to_set();
        }
        lb.len()
    }

    /// True when at least two moves were played and the last two are both
    /// passes: the signal that play has ended and counting begins.
    pub fn last_two_moves_are_pass(&self) -> (r: bool)
        ensures
            r == (self@.history.len() > 1 && pass_loc(
                self@.history[self@.history.len() - 2].loc,
            ) && pass_loc(self@.history[self@.history.len() - 1].loc)),
    {
        let n = self.game_history.len();
        if n > 1 {
            let a = self.game_history[n - 2];
            let b = self.game_history[n - 1];
            a.loc.is_pass() && b.loc.is_pass()
        } else {
            false
        }
    }
}

/// The two characters a cell renders to.
pub open spec fn cell_chars(c: Color) -> Seq<char> {
    match c {
        Color::Empty => seq!['.', ' '],
        Color::White => seq!['#', ' '],
        Color::Black => seq!['O', ' '],
        Color::Invalid => seq!['/', ' '],
    }
}

/// The rendering of a row's first `j` cells.
pub open spec fn render_row(r: Seq<Color>, j: int) -> Seq<char>
    decreases j,
{
    if j <= 0 {
        Seq::empty()
    } else {
        render_row(r, j - 1) + cell_chars(r[j - 1])
    }
}

/// The rendering of a grid's first `i` rows, each followed by a newline.
pub open spec fn render_grid(g: Seq<Seq<Color>>, i: int) -> Seq<char>
    decreases i,
{
    if i <= 0 {
        Seq::empty()
    } else {
        render_grid(g, i - 1) + render_row(g[i - 1], g[i - 1].len() as int) + seq!['\n']
    }
}

/// The record line of one move: the mover's letter, then the coordinates
/// or "pass" in brackets.
pub open spec fn record_move_chars(mv: Move) -> Seq<char> {
    (if mv.player == Player::Black {
        "B["@
    } else {
        "W["@
    }) + (if pass_loc(mv.loc) {
        "pass"@
    } else {
        crate::text::dec_digits(mv.loc.row as int) + ","@ + crate::text::dec_digits(
            mv.loc.col as int,
        )
    }) + "]\n"@
}

/// The record of the first `i` moves of a history, one line each.
pub open spec fn record_chars(h: Seq<Move>, i: int) -> Seq<char>
    decreases i,
{
    if i <= 0 {
        Seq::empty()
    } else {
        record_chars(h, i - 1) + record_move_chars(h[i - 1])
    }
}

/// The island of `s` borders a cell of colour `c`.
pub open spec fn borders_color(g: Seq<Seq<Color>>, s: Set<Loc>, c: Color) -> bool {
    exists|x: Loc, y: Loc|
        #[trigger] s.contains(x) && #[trigger] adj(x, y) && on_grid(g, y) && at(g, y) == c
}

/// The owner of an empty region: the unique stone colour bordering it, or
/// Empty when it borders both colours (dame) or neither (no stones around).
pub open spec fn island_owner(g: Seq<Seq<Color>>, s: Set<Loc>) -> Color {
    if borders_color(g, s, Color::Black) && borders_color(g, s, Color::White) {
        Color::Empty
    } else if borders_color(g, s, Color::White) {
        Color::White
    } else if borders_color(g, s, Color::Black) {
        Color::Black
    } else {
        Color::Empty
    }
}

/// `l` is the first cell (in row-major order) of its own group.
pub open spec fn first_of_group(g: Seq<Seq<Color>>, l: Loc) -> bool {
    forall|y: Loc| #[trigger] group_of(g, l).contains(y) ==> !loc_lt(y, l)
}

/// The (black, white) points contributed by the cell with flat row-major
/// index `k − 1`: the size of its empty region if the cell is the first of
/// an owned region, nothing otherwise.
pub open spec fn cell_points(g: Seq<Seq<Color>>, k: int) -> (int, int) {
    let l = Loc { row: (k / gcols(g)) as usize, col: (k % gcols(g)) as usize };
    if interior(g, l) && at(g, l) == Color::Empty && first_of_group(g, l) {
        if island_owner(g, group_of(g, l)) == Color::Black {
            (group_of(g, l).len() as int, 0int)
        } else if island_owner(g, group_of(g, l)) == Color::White {
            (0int, group_of(g, l).len() as int)
        } else {
            (0int, 0int)
        }
    } else {
        (0int, 0int)
    }
}

/// The (black, white) territory points of the first `k` cells in flat
/// row-major order.
pub open spec fn board_points_upto(g: Seq<Seq<Color>>, k: int) -> (int, int)
    decreases k,
{
    if k <= 0 {
        (0int, 0int)
    } else {
        let p = board_points_upto(g, k - 1);
        (p.0 + cell_points(g, k - 1).0, p.1 + cell_points(g, k - 1).1)
    }
}

/// The (black, white) territory points of the whole grid: each empty
/// region owned by exactly one colour scores its size for that colour.
pub open spec fn board_points(g: Seq<Seq<Color>>) -> (int, int) {
    board_points_upto(g, grows(g) * gcols(g))
}

/// The outcome of a finished game.
pub enum GameResult {
    /// A win on points, with the margin in half points.
    Points(Player, u128),
    /// A win by the opponent's resignation (the named player resigned).
    Resignation(Player),
    /// Equal totals.
    Draw,
}

/// The score of a board position: area points plus captures, komi added to
/// White, totals compared in half points.
pub open spec fn spec_score(b: BoardModel) -> GameResult {
    let bt = 2 * (board_points(b.grid).0 + b.black_captures);
    let wt = 2 * (board_points(b.grid).1 + b.white_captures) + b.komi_half;
    if bt == wt {
        GameResult::Draw
    } else if bt > wt {
        GameResult::Points(Player::Black, (bt - wt) as u128)
    } else {
        GameResult::Points(Player::White, (wt - bt) as u128)
    }
}

impl GameResult {
    /// The display form of a result: `"Black +7.5"`, `"White + R"` (the
    /// named player resigned, so the other side wins), or `"D R A W !"`.
    pub fn to_string(&self) -> (r: String)
        ensures
            *self == GameResult::Draw ==> r@ == "D R A W !"@,
            forall|m: u128| *self == GameResult::Points(Player::Black, m) ==> r@ == "Black +"@
                + crate::text::half_digits(m as int),
            forall|m: u128| *self == GameResult::Points(Player::White, m) ==> r@ == "White +"@
                + crate::text::half_digits(m as int),
            *self == GameResult::Resignation(Player::Black) ==> r@ == "White + R"@,
            *self == GameResult::Resignation(Player::White) ==> r@ == "Black + R"@,
    {
        match self {
            GameResult::Draw => String::from_str("D R A W !"),
            GameResult::Points(player, result) => {
                let mut s = match player {
                    Player::Black => String::from_str("Black +"),
                    Player::White => String::from_str("White +"),
                };
                let digits = crate::text::half_string(*result);
                s.append(digits.as_str());
                s
            },
            GameResult::Resignation(player) => match player {
                Player::Black => String::from_str("White + R"),
                Player::White => String::from_str("Black + R"),
            },
        }
    }
}

/// True when some member of `group` has a neighbour of colour `c`.
fn group_borders(g: &Vec<Vec<Color>>, group: &Vec<Loc>, c: Color) -> (r: bool)
    requires
        grid_wf(gview(*g)),
        forall|k: int| 0 <= k < group@.len() ==> interior(gview(*g), #[trigger] group@[k]),
    ensures
        r == borders_color(gview(*g), group@.to_set(), c),
{
    let ghost gv = gview(*g);
    let n = group.len();
    let mut i: usize = 0;
    while i < n
        invariant
            gv == gview(*g),
            grid_wf(gv),
            i <= n,
            n == group@.len(),
            forall|k: int| 0 <= k < group@.len() ==> interior(gv, #[trigger] group@[k]),
            forall|k: int, z: Loc|
                0 <= k < i && #[trigger] adj(group@[k], z) && on_grid(gv, z) ==> at(gv, z) != c,
        decreases n - i,
    {
        let x = group[i];
        let n_up = x.up();
        let n_down = x.down();
        let n_left = x.left();
        let n_right = x.right();
        if crate::grid::cell_color(g, n_up) == c || crate::grid::cell_color(g, n_down) == c
            || crate::grid::cell_color(g, n_left) == c || crate::grid::cell_color(g, n_right)
            == c {
            proof {
                assert(group@.to_set().contains(x));
                if at(gv, n_up) == c {
                    assert(adj(x, n_up));
                } else if at(gv, n_down) == c {
                    assert(adj(x, n_down));
                } else if at(gv, n_left) == c {
                    assert(adj(x, n_left));
                } else {
                    assert(adj(x, n_right));
                }
            }
            return true;
        }
        proof {
            assert forall|z: Loc| #[trigger] adj(x, z) && on_grid(gv, z) implies at(gv, z)
                != c by {
                assert(z == n_up || z == n_down || z == n_left || z == n_right);
            }
        }
        i += 1;
    }
    proof {
        if borders_color(gv, group@.to_set(), c) {
            let (x, z) = choose|x: Loc, z: Loc|
                #[trigger] group@.to_set().contains(x) && #[trigger] adj(x, z) && on_grid(gv, z)
                    && at(gv, z) == c;
            let k = choose|k: int| 0 <= k < group@.len() && group@[k] == x;
        }
    }
    false
}

/// Soundness part of the atari scan: every stored entry is a sorted group
/// of colour `c` with exactly one liberty.
pub open spec fn atari_entries_ok(g: Seq<Seq<Color>>, lst: Seq<Seq<Loc>>, c: Color) -> bool {
    forall|k: int|
        0 <= k < lst.len() ==> (#[trigger] lst[k]).len() > 0 && sorted_locs(lst[k]) && is_group(
            g,
            lst[k][0],
            lst[k].to_set(),
        ) && at(g, lst[k][0]) == c && libs(g, lst[k].to_set()).len() == 1
}

/// Completeness part of the atari scan up to the row-major position `lim`:
/// every atari group of colour `c` whose stones start before `lim` is
/// already stored.
pub open spec fn atari_upto(g: Seq<Seq<Color>>, lst: Seq<Seq<Loc>>, c: Color, lim: Loc) -> bool {
    forall|l: Loc|
        interior(g, l) && at(g, l) == c && libs(g, #[trigger] group_of(g, l)).len() == 1 && loc_lt(
            l,
            lim,
        ) ==> exists|k: int| 0 <= k < lst.len() && lst[k].to_set() == group_of(g, l)
}

/// The first stones of the stored groups lie before `lim` and are strictly
/// increasing.
pub open spec fn atari_firsts_ok(lst: Seq<Seq<Loc>>, lim: Loc) -> bool {
    &&& forall|k: int| 0 <= k < lst.len() ==> loc_lt((#[trigger] lst[k])[0], lim)
    &&& forall|k1: int, k2: int|
        0 <= k1 < k2 < lst.len() ==> loc_lt(#[trigger] lst[k1][0], #[trigger] lst[k2][0])
}

/// Recomputes which groups stand in atari (exactly one liberty) by a
/// row-major scan of the grid; each group is recorded once, at its first
/// stone.
#[verifier::rlimit(60)]
pub fn compute_atari(g: &Vec<Vec<Color>>) -> (r: (GroupsInAtari, StonesInAtari))
    requires
        grid_wf(gview(*g)),
    ensures
        atari_ok(
            gview(*g),
            groups_view(r.0.black@),
            groups_view(r.0.white@),
            r.1.black as int,
            r.1.white as int,
        ),
{
    let ghost gv = gview(*g);
    let mut black: Vec<Vec<Loc>> = Vec::new();
    let mut white: Vec<Vec<Loc>> = Vec::new();
    let rows = g.len();
    let cols = g[0].len();
    let mut row: usize = 1;
    while row < rows - 1
        invariant
            gv == gview(*g),
            grid_wf(gv),
            rows == grows(gv),
            cols == gcols(gv),
            1 <= row <= rows - 1,
            atari_entries_ok(gv, groups_view(black@), Color::Black),
            atari_entries_ok(gv, groups_view(white@), Color::White),
            atari_upto(gv, groups_view(black@), Color::Black, Loc { row, col: 1 }),
            atari_upto(gv, groups_view(white@), Color::White, Loc { row, col: 1 }),
            atari_firsts_ok(groups_view(black@), Loc { row, col: 1 }),
            atari_firsts_ok(groups_view(white@), Loc { row, col: 1 }),
        decreases rows - row,
    {
        let mut col: usize = 1;
        while col < cols - 1
            invariant
                gv == gview(*g),
                grid_wf(gv),
                rows == grows(gv),
                cols == gcols(gv),
                1 <= row < rows - 1,
                1 <= col <= cols - 1,
                atari_entries_ok(gv, groups_view(black@), Color::Black),
                atari_entries_ok(gv, groups_view(white@), Color::White),
                atari_upto(gv, groups_view(black@), Color::Black, Loc { row, col }),
                atari_upto(gv, groups_view(white@), Color::White, Loc { row, col }),
                atari_firsts_ok(groups_view(black@), Loc { row, col }),
                atari_firsts_ok(groups_view(white@), Loc { row, col }),
            decreases cols - col,
        {
            let l = Loc { row, col };
            let c = crate::grid::cell_color(g, l);
            if c == Color::Black || c == Color::White {
                let grp = crate::grid::grid_group(g, l);
                proof {
                    assert(grp@.to_set().contains(l));
                    assert(grp@.contains(l));
                    assert(grp@.len() > 0);
                }
                let first = grp[0];
                proof {
                    assert forall|k: int| 0 <= k < grp@.len() implies on_grid(
                        gv,
                        #[trigger] grp@[k],
                    ) by {
                        assert(grp@.to_set().contains(grp@[k]));
                    }
                }
                if first.row == l.row && first.col == l.col {
                    let lb = crate::grid::grid_liberties(g, &grp);
                    proof {
                        lb@.unique_seq_to_set();
                    }
                    if lb.len() == 1 {
                        let ghost oldb = groups_view(black@);
                        let ghost oldw = groups_view(white@);
                        if c == Color::Black {
                            let ghost n0 = black@.len() as int;
                            black.push(grp);
                            proof {
                                assert(groups_view(black@) =~= oldb.push(grp@));
                                lemma_atari_upto_extend(gv, oldb, grp@, Color::Black, l);
                                assert(groups_view(black@)[n0] == grp@);
                                assert(0 <= n0 < groups_view(black@).len() && groups_view(
                                    black@,
                                )[n0].to_set() == group_of(gv, l));
                                lemma_atari_advance(gv, groups_view(black@), Color::Black, l);
                                lemma_atari_advance(gv, groups_view(white@), Color::White, l);
                            }
                        } else {
                            let ghost n0 = white@.len() as int;
                            white.push(grp);
                            proof {
                                assert(groups_view(white@) =~= oldw.push(grp@));
                                lemma_atari_upto_extend(gv, oldw, grp@, Color::White, l);
                                assert(groups_view(white@)[n0] == grp@);
                                assert(0 <= n0 < groups_view(white@).len() && groups_view(
                                    white@,
                                )[n0].to_set() == group_of(gv, l));
                                lemma_atari_advance(gv, groups_view(white@), Color::White, l);
                                lemma_atari_advance(gv, groups_view(black@), Color::Black, l);
                            }
                        }
                    } else {
                        proof {
                            assert(libs(gv, group_of(gv, l)).len() != 1);
                            lemma_atari_advance(gv, groups_view(black@), Color::Black, l);
                            lemma_atari_advance(gv, groups_view(white@), Color::White, l);
                        }
                    }
                } else {
                    proof {
                        let j = choose|j: int| 0 <= j < grp@.len() && grp@[j] == l;
                        assert(j != 0);
                        assert(loc_lt(grp@[0], grp@[j]));
                        crate::grid::lemma_group_member(gv, l, grp@.to_set(), first);
                        assert(group_of(gv, first) == grp@.to_set());
                        assert(at(gv, first) == at(gv, l));
                        lemma_atari_advance(gv, groups_view(black@), Color::Black, l);
                        lemma_atari_advance(gv, groups_view(white@), Color::White, l);
                    }
                }
            } else {
                proof {
                    lemma_atari_advance(gv, groups_view(black@), Color::Black, l);
                    lemma_atari_advance(gv, groups_view(white@), Color::White, l);
                }
            }
            col += 1;
        }
        proof {
            assert forall|l: Loc|
                interior(gv, l) && at(gv, l) == Color::Black && libs(
                    gv,
                    #[trigger] group_of(gv, l),
                ).len() == 1 && loc_lt(l, Loc { row: (row + 1) as usize, col: 1 }) implies exists|
                k: int,
            | 0 <= k < groups_view(black@).len() && groups_view(black@)[k].to_set() == group_of(
                gv,
                l,
            ) by {
                assert(loc_lt(l, Loc { row, col: (cols - 1) as usize }));
            }
            assert forall|l: Loc|
                interior(gv, l) && at(gv, l) == Color::White && libs(
                    gv,
                    #[trigger] group_of(gv, l),
                ).len() == 1 && loc_lt(l, Loc { row: (row + 1) as usize, col: 1 }) implies exists|
                k: int,
            | 0 <= k < groups_view(white@).len() && groups_view(white@)[k].to_set() == group_of(
                gv,
                l,
            ) by {
                assert(loc_lt(l, Loc { row, col: (cols - 1) as usize }));
            }
        }
        row += 1;
    }
    proof {
        assert forall|l: Loc|
            interior(gv, l) && at(gv, l) == Color::Black && libs(
                gv,
                #[trigger] group_of(gv, l),
            ).len() == 1 implies exists|k: int|
            0 <= k < groups_view(black@).len() && groups_view(black@)[k].to_set() == group_of(
                gv,
                l,
            ) by {
            assert(l.row < grows(gv) - 1);
            assert(loc_lt(l, Loc { row, col: 1 }));
        }
        assert forall|l: Loc|
            interior(gv, l) && at(gv, l) == Color::White && libs(
                gv,
                #[trigger] group_of(gv, l),
            ).len() == 1 implies exists|k: int|
            0 <= k < groups_view(white@).len() && groups_view(white@)[k].to_set() == group_of(
                gv,
                l,
            ) by {
            assert(l.row < grows(gv) - 1);
            assert(loc_lt(l, Loc { row, col: 1 }));
        }
        assert(atari_list_ok(gv, groups_view(black@), Color::Black));
        assert(atari_list_ok(gv, groups_view(white@), Color::White));
    }
    let nb = black.len();
    let nw = white.len();
    let r = (GroupsInAtari { black, white }, StonesInAtari { black: nb, white: nw });
    r
}

/// Writing a non-Invalid colour to an interior cell keeps the grid
/// well-formed and changes that cell alone.
pub proof fn lemma_set_at_wf(g: Seq<Seq<Color>>, l: Loc, c: Color)
    requires
        grid_wf(g),
        interior(g, l),
        c != Color::Invalid,
    ensures
        grid_wf(set_at(g, l, c)),
        grows(set_at(g, l, c)) == grows(g),
        gcols(set_at(g, l, c)) == gcols(g),
        at(set_at(g, l, c), l) == c,
        forall|x: Loc| on_grid(g, x) && x != l ==> #[trigger] at(set_at(g, l, c), x) == at(g, x),
{
    let g2 = set_at(g, l, c);
    assert(g2[0] == g[0]);
    assert forall|i: int| 0 <= i < grows(g2) implies #[trigger] g2[i].len() == gcols(g2) by {
        if i == l.row {
            assert(g2[i] == g[l.row as int].update(l.col as int, c));
        } else {
            assert(g2[i] == g[i]);
        }
    }
    assert forall|i: int, j: int| 0 <= i < grows(g2) && 0 <= j < gcols(g2) implies ((
    #[trigger] g2[i][j] == Color::Invalid) <==> crate::grid::on_border(g2, i, j)) by {
        if i == l.row && j == l.col {
            assert(g2[i][j] == c);
        } else if i == l.row {
            assert(g2[i][j] == g[i][j]);
        } else {
            assert(g2[i] == g[i]);
        }
    }
    assert forall|x: Loc| on_grid(g, x) && x != l implies #[trigger] at(g2, x) == at(g, x) by {
        if x.row == l.row {
            assert(g2[x.row as int] == g[l.row as int].update(l.col as int, c));
            assert(x.col != l.col);
        } else {
            assert(g2[x.row as int] == g[x.row as int]);
        }
    }
}

/// Emptying a set of interior cells keeps the grid well-formed.
pub proof fn lemma_clear_wf(g: Seq<Seq<Color>>, s: Set<Loc>)
    requires
        grid_wf(g),
        forall|y: Loc| #[trigger] s.contains(y) ==> interior(g, y),
    ensures
        grid_wf(clear_cells(g, s)),
        grows(clear_cells(g, s)) == grows(g),
        gcols(clear_cells(g, s)) == gcols(g),
        forall|x: Loc|
            on_grid(g, x) ==> #[trigger] at(clear_cells(g, s), x) == (if s.contains(x) {
                Color::Empty
            } else {
                at(g, x)
            }),
{
    let g2 = clear_cells(g, s);
    assert(g2[0].len() == g[0].len());
    assert forall|i: int, j: int| 0 <= i < grows(g2) && 0 <= j < gcols(g2) implies ((
    #[trigger] g2[i][j] == Color::Invalid) <==> crate::grid::on_border(g2, i, j)) by {
        let y = Loc { row: i as usize, col: j as usize };
        if s.contains(y) {
            assert(interior(g, y));
            assert(g2[i][j] == Color::Empty);
            assert(!crate::grid::on_border(g, i, j));
        } else {
            assert(g2[i][j] == g[i][j]);
        }
    }
    assert forall|x: Loc|
        on_grid(g, x) implies #[trigger] at(g2, x) == (if s.contains(x) {
        Color::Empty
    } else {
        at(g, x)
    }) by {
        assert(x == (Loc { row: x.row, col: x.col }));
    }
}

/// Emptying the cells of `s` one by one: emptying one more cell of the
/// grid equals clearing the grown set.
pub proof fn lemma_clear_insert(g: Seq<Seq<Color>>, s: Set<Loc>, y: Loc)
    requires
        y.row < g.len(),
        y.col < g[y.row as int].len(),
        g.len() <= usize::MAX,
        forall|i: int| 0 <= i < g.len() ==> #[trigger] g[i].len() <= usize::MAX,
    ensures
        set_at(clear_cells(g, s), y, Color::Empty) == clear_cells(g, s.insert(y)),
{
    let lhs = set_at(clear_cells(g, s), y, Color::Empty);
    let rhs = clear_cells(g, s.insert(y));
    assert forall|i: int| 0 <= i < g.len() implies lhs[i] =~= rhs[i] by {
        if i == y.row {
            assert forall|j: int| 0 <= j < g[i].len() implies lhs[i][j] == rhs[i][j] by {
                if j == y.col {
                    assert(lhs[i][j] == Color::Empty);
                } else {
                    assert(lhs[i][j] == clear_cells(g, s)[i][j]);
                    assert((Loc { row: i as usize, col: j as usize }) != y);
                }
            }
        } else {
            assert(lhs[i] == clear_cells(g, s)[i]);
            assert forall|j: int| 0 <= j < g[i].len() implies lhs[i][j] == rhs[i][j] by {
                assert((Loc { row: i as usize, col: j as usize }) != y);
            }
        }
    }
    assert(lhs =~= rhs);
}

/// The set of a concatenation is the union of the sets.
pub proof fn lemma_concat_to_set(a: Seq<Loc>, b: Seq<Loc>)
    ensures
        (a + b).to_set() == a.to_set().union(b.to_set()),
{
    assert forall|x: Loc| #[trigger] (a + b).to_set().contains(x) implies a.to_set().union(
        b.to_set(),
    ).contains(x) by {
        let k = choose|k: int| 0 <= k < (a + b).len() && (a + b)[k] == x;
        if k < a.len() {
            assert(a[k] == x);
        } else {
            assert(b[k - a.len()] == x);
        }
    }
    assert forall|x: Loc| a.to_set().union(b.to_set()).contains(x) implies #[trigger] (a
        + b).to_set().contains(x) by {
        if a.to_set().contains(x) {
            let k = choose|k: int| 0 <= k < a.len() && a[k] == x;
            assert((a + b)[k] == x);
        } else {
            let k = choose|k: int| 0 <= k < b.len() && b[k] == x;
            assert((a + b)[a.len() + k] == x);
        }
    }
    assert((a + b).to_set() =~= a.to_set().union(b.to_set()));
}

/// A history has at least as many entries as non-pass entries.
pub proof fn lemma_nonpass_le(h: Seq<Move>)
    ensures
        0 <= nonpass_count(h) <= h.len(),
    decreases h.len(),
{
    if h.len() > 0 {
        lemma_nonpass_le(h.drop_last());
    }
}

/// Appending one move adds one to the non-pass count unless it is a pass.
pub proof fn lemma_nonpass_push(h: Seq<Move>, m: Move)
    ensures
        nonpass_count(h.push(m)) == nonpass_count(h) + if pass_loc(m.loc) {
            0int
        } else {
            1int
        },
{
    assert(h.push(m).drop_last() =~= h);
    assert(h.push(m).last() == m);
}

/// `step` never reads or writes the winner.
pub proof fn lemma_step_strip(b: BoardModel, mv: Move)
    ensures
        strip_winner(step(b, mv)) == step(strip_winner(b), mv),
{
}

/// Dimensions and komi survive a step.
pub proof fn lemma_step_frame(b: BoardModel, mv: Move)
    requires
        grid_wf(b.grid),
    ensures
        grows(step(b, mv).grid) == grows(b.grid),
        gcols(step(b, mv).grid) == gcols(b.grid),
        step(b, mv).komi_half == b.komi_half,
    decreases 0int,
{
    if !pass_loc(mv.loc) && move_ok(b, mv) {
        let g1 = after_place(b.grid, mv);
        let g2 = resolved_grid(b.grid, mv);
        assert(g1[0] == b.grid[0]);
        assert(g2.len() == g1.len());
        assert(g2[0].len() == g1[0].len());
    }
}

/// A step keeps a board in sync with its history: the foundation of
/// undo-by-replay.
pub proof fn lemma_step_synced(b: BoardModel, mv: Move)
    requires
        grid_wf(b.grid),
        synced(b),
    ensures
        synced(step(b, mv)),
{
    let f = fresh_model(grows(b.grid), gcols(b.grid), b.komi_half);
    lemma_step_frame(b, mv);
    lemma_step_strip(b, mv);
    let b2 = step(b, mv);
    if pass_loc(mv.loc) || move_ok(b, mv) {
        assert(b2.history == b.history.push(mv));
        assert(b.history.push(mv).drop_last() =~= b.history);
        assert(b.history.push(mv).last() == mv);
        assert(replay(f, b.history.push(mv)) == step(replay(f, b.history), mv));
        assert(strip_winner(b2) == step(strip_winner(b), mv));
    } else {
        assert(b2 == b);
    }
}

/// Skipping cells on the sentinel ring adds no points.
proof fn lemma_points_zero_border(g: Seq<Seq<Color>>, k1: int, k2: int)
    requires
        grid_wf(g),
        0 <= k1 <= k2,
        k2 <= grows(g) * gcols(g),
        forall|k: int| k1 <= k < k2 ==> crate::grid::on_border(g, k / gcols(g), #[trigger] (k % gcols(g))),
    ensures
        board_points_upto(g, k2) == board_points_upto(g, k1),
    decreases k2 - k1,
{
    if k2 > k1 {
        lemma_points_zero_border(g, k1, k2 - 1);
        let k = k2 - 1;
        assert(crate::grid::on_border(g, k / gcols(g), k % gcols(g)));
        assert(0 <= k / gcols(g) < grows(g) && 0 <= k % gcols(g) < gcols(g)) by (nonlinear_arith)
            requires
                0 <= k,
                k < grows(g) * gcols(g),
                3 <= gcols(g),
                3 <= grows(g),
        ;
        let l = Loc { row: (k / gcols(g)) as usize, col: (k % gcols(g)) as usize };
        assert(!interior(g, l));
        assert(cell_points(g, k) == (0int, 0int));
    }
}

/// No move can leave a group without liberties on the board: a pass or a
/// rejected placement changes nothing; an accepted placement's own group
/// keeps a liberty because suicide is rejected, adjacent opponent groups
/// left without liberties are exactly the captured ones, and every other
/// group keeps the liberty it already had. The capture facts come from
/// the move resolution itself (`dead_facts`).
#[verifier::rlimit(100)]
pub proof fn lemma_step_no_dead(b: BoardModel, mv: Move)
    requires
        grid_wf(b.grid),
        no_dead_group(b.grid),
        !pass_loc(mv.loc) && move_ok(b, mv) ==> dead_facts(b.grid, mv),
    ensures
        no_dead_group(step(b, mv).grid),
{
    if pass_loc(mv.loc) || !move_ok(b, mv) {
        assert(step(b, mv).grid == b.grid);
    } else {
        let g0 = b.grid;
        let g1 = after_place(g0, mv);
        let d = dead_of(g0, mv);
        let g2 = resolved_grid(g0, mv);
        let c = color_of(mv.player);
        let oc = color_of(opp_of(mv.player));
        assert(step(b, mv).grid == g2);
        assert(interior(g0, mv.loc));
        assert(at(g0, mv.loc) == Color::Empty);
        lemma_set_at_wf(g0, mv.loc, c);
        assert(grows(g1) == grows(g0) && gcols(g1) == gcols(g0));
        assert(g2.len() == g1.len());
        assert(g2[0].len() == g1[0].len());
        // the value of every cell of the resolved grid
        assert forall|x: Loc| on_grid(g0, x) implies #[trigger] at(g2, x) == (if d.contains(x) {
            Color::Empty
        } else {
            at(g1, x)
        }) by {
            assert(g2[x.row as int] == Seq::new(
                g1[x.row as int].len(),
                |j: int|
                    if d.contains(Loc { row: x.row as int as usize, col: j as usize }) {
                        Color::Empty
                    } else {
                        g1[x.row as int][j]
                    },
            ));
            assert((Loc { row: x.row as int as usize, col: x.col as int as usize }) == x);
        }
        assert(!d.contains(mv.loc)) by {
            if d.contains(mv.loc) {
                assert(at(g1, mv.loc) == oc);
            }
        }
        assert(at(g2, mv.loc) == c);
        assert forall|l: Loc, s: Set<Loc>|
            #[trigger] is_group(g2, l, s) && (at(g2, l) == Color::Black || at(g2, l)
                == Color::White) implies has_liberty(g2, s) by {
            assert(interior(g2, l));
            assert(interior(g0, l));
            if at(g2, l) == c {
                if s.contains(mv.loc) {
                    // the placed stone's own group: suicide was rejected
                    crate::grid::lemma_group_member(g2, l, s, mv.loc);
                    assert(group_of(g2, mv.loc) == s);
                    assert(!(libs(g2, s) =~= Set::<Loc>::empty()));
                    if !has_liberty(g2, s) {
                        assert forall|z: Loc| !(#[trigger] libs(g2, s).contains(z)) by {}
                        assert(libs(g2, s) =~= Set::<Loc>::empty());
                    }
                } else {
                    // a mover-coloured group not touching the placed stone
                    // was already a group before the move
                    assert forall|x: Loc| #[trigger] s.contains(x) implies interior(g0, x) && at(
                        g0,
                        x,
                    ) == at(g0, l) by {
                        assert(at(g2, x) == c);
                        assert(!d.contains(x));
                        assert(x != mv.loc);
                        assert(at(g1, x) == c);
                        assert(at(g0, x) == c);
                        assert(at(g2, l) == c && !d.contains(l) && l != mv.loc && at(g0, l) == c);
                    }
                    assert forall|x: Loc, y: Loc|
                        #[trigger] s.contains(x) && #[trigger] adj(x, y) && on_grid(g0, y) && at(
                            g0,
                            y,
                        ) == at(g0, l) implies s.contains(y) by {
                        assert(at(g0, l) == c);
                        assert(y != mv.loc);
                        assert(at(g1, y) == c);
                        assert(!d.contains(y)) by {
                            if d.contains(y) {
                                assert(at(g1, y) == oc);
                            }
                        }
                        assert(at(g2, y) == c);
                        assert(at(g2, y) == at(g2, l));
                    }
                    assert(is_group(g0, l, s));
                    assert(has_liberty(g0, s));
                    let z = choose|z: Loc| libs(g0, s).contains(z);
                    let x = choose|x: Loc| #[trigger] s.contains(x) && adj(x, z);
                    assert(z != mv.loc) by {
                        if z == mv.loc {
                            assert(adj(x, mv.loc));
                            assert(at(g2, mv.loc) == at(g2, l));
                            assert(on_grid(g2, mv.loc));
                            assert(s.contains(mv.loc));
                        }
                    }
                    assert(at(g0, z) == Color::Empty);
                    assert(at(g1, z) == Color::Empty);
                    assert(!d.contains(z)) by {
                        if d.contains(z) {
                            assert(at(g1, z) == oc);
                        }
                    }
                    assert(at(g2, z) == Color::Empty);
                    assert(libs(g2, s).contains(z));
                }
            } else {
                // an opponent-coloured group that survived the captures
                assert(at(g2, l) == oc);
                assert forall|x: Loc| #[trigger] s.contains(x) implies interior(g1, x) && at(
                    g1,
                    x,
                ) == oc && !d.contains(x) && x != mv.loc by {
                    assert(at(g2, x) == oc);
                    assert(!d.contains(x));
                    assert(at(g1, x) == oc);
                    assert(x != mv.loc) by {
                        if x == mv.loc {
                            assert(at(g1, mv.loc) == c);
                        }
                    }
                }
                assert forall|x: Loc, y: Loc|
                    #[trigger] s.contains(x) && #[trigger] adj(x, y) && on_grid(g1, y) && at(
                        g1,
                        y,
                    ) == at(g1, l) implies s.contains(y) by {
                    assert(at(g1, l) == oc);
                    assert(!d.contains(y)) by {
                        if d.contains(y) {
                            // captured groups are whole: x would be captured too
                            assert(is_group(g1, y, group_of(g1, y)));
                            assert(at(g1, x) == at(g1, y));
                            assert(adj(y, x));
                            assert(group_of(g1, y).contains(x));
                            assert(d.contains(x));
                        }
                    }
                    assert(at(g2, y) == oc);
                    assert(at(g2, y) == at(g2, l));
                    assert(on_grid(g2, y));
                }
                assert(is_group(g1, l, s));
                if has_liberty(g1, s) {
                    let z = choose|z: Loc| libs(g1, s).contains(z);
                    assert(at(g1, z) == Color::Empty);
                    assert(!d.contains(z)) by {
                        if d.contains(z) {
                            assert(at(g1, z) == oc);
                        }
                    }
                    assert(at(g2, z) == Color::Empty);
                    assert(libs(g2, s).contains(z));
                } else {
                    // without a liberty after placement the group would have
                    // been captured outright — but its stones are still here
                    assert forall|x: Loc| #[trigger] s.contains(x) implies interior(g0, x) && at(
                        g0,
                        x,
                    ) == at(g0, l) by {
                        assert(at(g0, x) == at(g1, x));
                        assert(at(g0, l) == at(g1, l));
                    }
                    assert forall|x: Loc, y: Loc|
                        #[trigger] s.contains(x) && #[trigger] adj(x, y) && on_grid(g0, y) && at(
                            g0,
                            y,
                        ) == at(g0, l) implies s.contains(y) by {
                        assert(at(g0, l) == oc);
                        assert(y != mv.loc) by {
                            if y == mv.loc {
                                assert(at(g0, mv.loc) == Color::Empty);
                            }
                        }
                        assert(at(g1, y) == oc);
                        assert(at(g1, y) == at(g1, l));
                        assert(on_grid(g1, y));
                    }
                    assert(is_group(g0, l, s));
                    assert(has_liberty(g0, s));
                    let z0 = choose|z0: Loc| libs(g0, s).contains(z0);
                    let x0 = choose|x0: Loc| #[trigger] s.contains(x0) && adj(x0, z0);
                    assert(z0 == mv.loc) by {
                        if z0 != mv.loc {
                            assert(at(g1, z0) == Color::Empty);
                            assert(libs(g1, s).contains(z0));
                        }
                    }
                    // so the group touches the placed stone and, with no
                    // liberty left, is exactly a captured group
                    assert(is_group(g1, mv.loc, group_of(g1, mv.loc)));
                    assert(group_of(g1, mv.loc).contains(mv.loc));
                    assert(adj(mv.loc, x0));
                    assert(adj_colored(g1, group_of(g1, mv.loc), oc).contains(x0)) by {
                        assert(on_grid(g1, x0) && at(g1, x0) == oc);
                        assert(!group_of(g1, mv.loc).contains(x0)) by {
                            if group_of(g1, mv.loc).contains(x0) {
                                assert(at(g1, x0) == at(g1, mv.loc));
                            }
                        }
                    }
                    crate::grid::lemma_group_member(g1, l, s, x0);
                    assert(group_of(g1, x0) == s);
                    assert(libs(g1, s) =~= Set::<Loc>::empty()) by {
                        assert forall|z: Loc| !(#[trigger] libs(g1, s).contains(z)) by {}
                    }
                    assert(d.contains(l)) by {
                        assert(adj_colored(g1, group_of(g1, mv.loc), oc).contains(x0) && libs(
                            g1,
                            group_of(g1, x0),
                        ) =~= Set::<Loc>::empty() && group_of(g1, x0).contains(l));
                    }
                    assert(at(g2, l) == Color::Empty);
                    assert(false);
                }
            }
        }
    }
}

/// Adding an entry to the scan's list keeps whatever was complete
/// complete.
proof fn lemma_atari_upto_extend(
    g: Seq<Seq<Color>>,
    lst: Seq<Seq<Loc>>,
    more: Seq<Loc>,
    c: Color,
    lim: Loc,
)
    requires
        atari_upto(g, lst, c, lim),
    ensures
        atari_upto(g, lst.push(more), c, lim),
{
    assert forall|l: Loc|
        interior(g, l) && at(g, l) == c && libs(g, #[trigger] group_of(g, l)).len() == 1 && loc_lt(
            l,
            lim,
        ) implies exists|k: int|
        0 <= k < lst.push(more).len() && lst.push(more)[k].to_set() == group_of(g, l) by {
        let k = choose|k: int| 0 <= k < lst.len() && #[trigger] lst[k].to_set() == group_of(g, l);
        assert(lst.push(more)[k] == lst[k]);
    }
}

/// Advancing the scan one cell: whatever was complete before stays
/// complete, and the cell just scanned is covered by the cases of the scan
/// body.
proof fn lemma_atari_advance(g: Seq<Seq<Color>>, lst: Seq<Seq<Loc>>, c: Color, l: Loc)
    requires
        atari_upto(g, lst, c, l),
        interior(g, l) && at(g, l) == c && libs(g, group_of(g, l)).len() == 1 ==> exists|k: int|
            0 <= k < lst.len() && #[trigger] lst[k].to_set() == group_of(g, l),
    ensures
        atari_upto(g, lst, c, Loc { row: l.row, col: (l.col + 1) as usize }),
    decreases 0int,
{
    assert forall|x: Loc|
        interior(g, x) && at(g, x) == c && libs(g, #[trigger] group_of(g, x)).len() == 1 && loc_lt(
            x,
            Loc { row: l.row, col: (l.col + 1) as usize },
        ) implies exists|k: int| 0 <= k < lst.len() && lst[k].to_set() == group_of(g, x) by {
        if x != l {
            assert(loc_lt(x, l));
        }
    }
}

/// Simulates the placement `mv` on a copy of the grid: places the stone,
/// removes the adjacent opponent groups left without a liberty, and
/// reports the captured stones and whether the move is suicidal.
#[verifier::rlimit(80)]
fn resolve_placement(fields: &Vec<Vec<Color>>, mv: &Move) -> (r: (Vec<Vec<Color>>, Vec<Loc>, bool))
    requires
        grid_wf(gview(*fields)),
        !pass_loc(mv.loc),
        interior(gview(*fields), mv.loc),
        at(gview(*fields), mv.loc) == Color::Empty,
    ensures
        gview(r.0) == resolved_grid(gview(*fields), *mv),
        grid_wf(gview(r.0)),
        grows(gview(r.0)) == grows(gview(*fields)),
        gcols(gview(r.0)) == gcols(gview(*fields)),
        r.1@.no_duplicates(),
        r.1@.to_set() == dead_of(gview(*fields), *mv),
        r.2 == is_suicide(gview(*fields), *mv),
        grid_stones(gview(r.0)) == grid_stones(gview(*fields)) + 1 - r.1@.len(),
        dead_facts(gview(*fields), *mv),
{
    let ghost g0 = gview(*fields);
    let color = mv.player.to_color();
    let oc = mv.player.opponent().to_color();
    proof {
        assert(color == color_of(mv.player));
        assert(oc == color_of(opp_of(mv.player)));
        assert(color != oc);
        assert(oc != Color::Invalid && oc != Color::Empty);
    }
    let mut sim = crate::grid::clone_grid(fields);
    crate::grid::set_cell(&mut sim, mv.loc, color);
    let ghost g1 = gview(sim);
    proof {
        assert(g1 == after_place(g0, *mv));
        lemma_set_at_wf(g0, mv.loc, color);
        crate::grid::lemma_grid_stones_set(g0, mv.loc, color);
        assert(grid_stones(g1) == grid_stones(g0) + 1);
        assert(at(g1, mv.loc) == color);
    }
    let own = crate::grid::grid_group(&sim, mv.loc);
    proof {
        assert forall|k: int| 0 <= k < own@.len() implies on_grid(g1, #[trigger] own@[k]) by {
            assert(own@.to_set().contains(own@[k]));
        }
    }
    let opp_cells = crate::grid::grid_adjacent_colored(&sim, &own, oc);
    let ghost dspec = dead_of(g0, *mv);
    let mut dead: Vec<Loc> = Vec::new();
    let mut i: usize = 0;
    while i < opp_cells.len()
        invariant
            gview(sim) == g1,
            g1 == after_place(g0, *mv),
            grid_wf(g1),
            interior(g1, mv.loc),
            color == color_of(mv.player),
            oc == color_of(opp_of(mv.player)),
            oc != Color::Invalid,
            at(g1, mv.loc) == color,
            i <= opp_cells@.len(),
            opp_cells@.to_set() == adj_colored(g1, group_of(g1, mv.loc), oc),
            dspec == spec_dead(g1, mv.loc, oc),
            dspec == dead_of(g0, *mv),
            dead@.no_duplicates(),
            dead@.to_set().subset_of(dspec),
            forall|y: Loc|
                #[trigger] dead@.to_set().contains(y) ==> interior(g1, y) && at(g1, y) == oc,
            forall|y: Loc|
                #[trigger] dead@.to_set().contains(y) ==> group_of(g1, y).subset_of(
                    dead@.to_set(),
                ) && is_group(g1, y, group_of(g1, y)),
            forall|j: int|
                0 <= j < i && libs(g1, group_of(g1, #[trigger] opp_cells@[j])) =~= Set::<
                    Loc,
                >::empty() ==> group_of(g1, opp_cells@[j]).subset_of(dead@.to_set()),
        decreases opp_cells@.len() - i,
    {
        let x = opp_cells[i];
        proof {
            assert(opp_cells@.to_set().contains(x));
            assert(at(g1, x) == oc);
            assert(!crate::grid::on_border(g1, x.row as int, x.col as int));
            assert(interior(g1, x));
        }
        if !crate::grid::locs_contain(&dead, x) {
            let xg = crate::grid::grid_group(&sim, x);
            proof {
                assert forall|k: int| 0 <= k < xg@.len() implies on_grid(
                    g1,
                    #[trigger] xg@[k],
                ) by {
                    assert(xg@.to_set().contains(xg@[k]));
                }
            }
            let lb = crate::grid::grid_liberties(&sim, &xg);
            if lb.len() == 0 {
                let ghost old_dead = dead@;
                let ghost xgs = xg@;
                let mut xg_moved = xg;
                dead.append(&mut xg_moved);
                proof {
                    assert(lb@ =~= Seq::<Loc>::empty());
                    assert(lb@.to_set() =~= Set::<Loc>::empty());
                    assert(libs(g1, group_of(g1, x)) =~= Set::<Loc>::empty());
                    assert(dead@ == old_dead + xgs);
                    lemma_concat_to_set(old_dead, xgs);
                    // the appended group is disjoint from what was collected
                    assert forall|k: int| 0 <= k < xgs.len() implies !old_dead.to_set().contains(
                        xgs[k],
                    ) by {
                        if old_dead.to_set().contains(xgs[k]) {
                            assert(group_of(g1, xgs[k]).subset_of(old_dead.to_set()));
                            crate::grid::lemma_group_member(g1, x, xgs.to_set(), xgs[k]);
                            assert(group_of(g1, xgs[k]) == xgs.to_set());
                            assert(xgs.to_set().contains(x));
                            assert(old_dead.to_set().contains(x));
                            assert(old_dead.contains(x));
                        }
                    }
                    assert(dead@.no_duplicates()) by {
                        assert forall|k1: int, k2: int|
                            0 <= k1 < k2 < dead@.len() implies dead@[k1] != dead@[k2] by {
                            if k1 < old_dead.len() && k2 >= old_dead.len() {
                                assert(dead@[k1] == old_dead[k1]);
                                assert(dead@[k2] == xgs[k2 - old_dead.len()]);
                                assert(old_dead.to_set().contains(old_dead[k1]));
                            } else if k1 >= old_dead.len() {
                                assert(dead@[k1] == xgs[k1 - old_dead.len()]);
                                assert(dead@[k2] == xgs[k2 - old_dead.len()]);
                            } else {
                                assert(dead@[k1] == old_dead[k1]);
                                assert(dead@[k2] == old_dead[k2]);
                            }
                        }
                    }
                    // every stone of the appended group is captured
                    assert forall|y: Loc| xgs.to_set().contains(y) implies dspec.contains(y) by {
                        assert(adj_colored(g1, group_of(g1, mv.loc), oc).contains(x) && libs(
                            g1,
                            group_of(g1, x),
                        ) =~= Set::<Loc>::empty() && group_of(g1, x).contains(y));
                    }
                    assert forall|y: Loc|
                        #[trigger] dead@.to_set().contains(y) implies group_of(g1, y).subset_of(
                        dead@.to_set(),
                    ) && is_group(g1, y, group_of(g1, y)) by {
                        if old_dead.to_set().contains(y) {
                            assert(group_of(g1, y).subset_of(old_dead.to_set()));
                        } else {
                            assert(xgs.to_set().contains(y));
                            crate::grid::lemma_group_member(g1, x, xgs.to_set(), y);
                        }
                    }
                    assert forall|j: int|
                        0 <= j < i + 1 && libs(g1, group_of(g1, #[trigger] opp_cells@[j])) =~= Set::<
                            Loc,
                        >::empty() implies group_of(g1, opp_cells@[j]).subset_of(
                        dead@.to_set(),
                    ) by {
                        if j < i {
                            assert(group_of(g1, opp_cells@[j]).subset_of(old_dead.to_set()));
                        } else {
                            assert(opp_cells@[j] == x);
                        }
                    }
                }
            } else {
                proof {
                    assert(lb@.to_set().contains(lb@[0]));
                    assert(libs(g1, group_of(g1, x)).contains(lb@[0]));
                    assert(!(libs(g1, group_of(g1, x)) =~= Set::<Loc>::empty()));
                }
            }
        } else {
            proof {
                assert(dead@.to_set().contains(x));
                assert(group_of(g1, x).subset_of(dead@.to_set()));
            }
        }
        i += 1;
    }
    proof {
        // everything captured was collected
        assert forall|y: Loc| dspec.contains(y) implies dead@.to_set().contains(y) by {
            let x = choose|x: Loc|
                #[trigger] adj_colored(g1, group_of(g1, mv.loc), oc).contains(x) && libs(
                    g1,
                    group_of(g1, x),
                ) =~= Set::<Loc>::empty() && group_of(g1, x).contains(y);
            assert(opp_cells@.to_set().contains(x));
            let j = choose|j: int| 0 <= j < opp_cells@.len() && opp_cells@[j] == x;
            assert(group_of(g1, opp_cells@[j]).subset_of(dead@.to_set()));
        }
        assert(dead@.to_set() =~= dspec);
    }
    // remove the captured stones
    let ghost deadset = dead@.to_set();
    proof {
        assert(dead@.subrange(0, 0).to_set() =~= Set::<Loc>::empty());
        let e = clear_cells(g1, dead@.subrange(0, 0).to_set());
        assert forall|i2: int| 0 <= i2 < g1.len() implies e[i2] =~= g1[i2] by {
            assert forall|j2: int| 0 <= j2 < g1[i2].len() implies e[i2][j2] == g1[i2][j2] by {
                assert(!dead@.subrange(0, 0).to_set().contains(
                    Loc { row: i2 as usize, col: j2 as usize },
                ));
            }
        }
        assert(e =~= g1);
    }
    let mut k: usize = 0;
    while k < dead.len()
        invariant
            g1 == after_place(g0, *mv),
            grid_wf(g1),
            interior(g1, mv.loc),
            at(g1, mv.loc) == color,
            color == color_of(mv.player),
            oc == color_of(opp_of(mv.player)),
            oc != Color::Invalid,
            k <= dead@.len(),
            dead@.no_duplicates(),
            deadset == dead@.to_set(),
            deadset == dead_of(g0, *mv),
            forall|y: Loc| #[trigger] deadset.contains(y) ==> interior(g1, y) && at(g1, y) == oc,
            gview(sim) == clear_cells(g1, dead@.subrange(0, k as int).to_set()),
            grid_stones(gview(sim)) == grid_stones(g1) - k,
        decreases dead@.len() - k,
    {
        let y = dead[k];
        let ghost prefix = dead@.subrange(0, k as int).to_set();
        let ghost pre = gview(sim);
        proof {
            assert(deadset.contains(dead@[k as int]));
            assert(interior(g1, y));
            assert forall|z: Loc| #[trigger] prefix.contains(z) implies interior(g1, z) by {
                assert(dead@.subrange(0, k as int).contains(z));
                let j = choose|j: int| 0 <= j < k && dead@.subrange(0, k as int)[j] == z;
                assert(dead@[j] == z);
                assert(deadset.contains(z));
            }
            lemma_clear_wf(g1, prefix);
            assert(!prefix.contains(y)) by {
                if prefix.contains(y) {
                    let j = choose|j: int| 0 <= j < k && dead@.subrange(0, k as int)[j] == y;
                    assert(dead@[j] == dead@[k as int]);
                }
            }
            assert(at(pre, y) == at(g1, y));
            assert(at(pre, y) == oc);
        }
        crate::grid::set_cell(&mut sim, y, Color::Empty);
        proof {
            assert(gview(sim) == set_at(pre, y, Color::Empty));
            lemma_clear_insert(g1, prefix, y);
            assert(dead@.subrange(0, k as int + 1) =~= dead@.subrange(0, k as int).push(
                dead@[k as int],
            ));
            dead@.subrange(0, k as int).lemma_push_to_set_commute(dead@[k as int]);
            assert(gview(sim) == clear_cells(g1, dead@.subrange(0, k as int + 1).to_set()));
            crate::grid::lemma_grid_stones_set(pre, y, Color::Empty);
        }
        k += 1;
    }
    proof {
        assert(dead@.subrange(0, dead@.len() as int) =~= dead@);
        assert(gview(sim) == clear_cells(g1, deadset));
        assert(gview(sim) == resolved_grid(g0, *mv));
        lemma_clear_wf(g1, deadset);
        assert(at(gview(sim), mv.loc) == color) by {
            assert(!deadset.contains(mv.loc));
        }
    }
    // suicide test: the placed stone's own group after captures
    let own2 = crate::grid::grid_group(&sim, mv.loc);
    proof {
        assert forall|kk: int| 0 <= kk < own2@.len() implies on_grid(
            gview(sim),
            #[trigger] own2@[kk],
        ) by {
            assert(own2@.to_set().contains(own2@[kk]));
        }
    }
    let lb2 = crate::grid::grid_liberties(&sim, &own2);
    let suicide = lb2.len() == 0;
    proof {
        let g2 = gview(sim);
        if lb2.len() == 0 {
            assert(lb2@ =~= Seq::<Loc>::empty());
            assert(libs(g2, group_of(g2, mv.loc)) =~= Set::<Loc>::empty());
        } else {
            assert(lb2@.to_set().contains(lb2@[0]));
            assert(libs(g2, group_of(g2, mv.loc)).contains(lb2@[0]));
            assert(!(libs(g2, group_of(g2, mv.loc)) =~= Set::<Loc>::empty()));
        }
        assert(suicide == is_suicide(g0, *mv));
        dead@.unique_seq_to_set();
        crate::grid::lemma_group_of(g1, mv.loc, own@.to_set());
        assert(dead_facts(g0, *mv));
    }
    (sim, dead, suicide)
}

/// A freshly built grid holds no stones.
proof fn lemma_fresh_grid_no_stones(rows: int, cols: int, i: int)
    requires
        0 <= i <= rows,
    ensures
        crate::grid::grid_stones_upto(fresh_grid(rows, cols), i) == 0,
    decreases i,
{
    let g = fresh_grid(rows, cols);
    if i > 0 {
        lemma_fresh_grid_no_stones(rows, cols, i - 1);
        let r = g[i - 1];
        assert(r.len() == cols as nat);
        assert forall|k: int| 0 <= k < r.len() implies crate::grid::stone(#[trigger] r[k])
            == 0 by {
            assert(r[k] == Color::Invalid || r[k] == Color::Empty);
        }
        lemma_fresh_row_no_stones(r, r.len() as int);
        assert(crate::grid::row_stones(r) == 0);
        assert(crate::grid::grid_stones_upto(g, i) == crate::grid::grid_stones_upto(g, i - 1)
            + crate::grid::row_stones(g[i - 1]));
    }
}

proof fn lemma_fresh_row_no_stones(r: Seq<Color>, j: int)
    requires
        forall|k: int| 0 <= k < r.len() ==> crate::grid::stone(#[trigger] r[k]) == 0,
        j <= r.len(),
    ensures
        crate::grid::row_stones_upto(r, j) == 0,
    decreases j,
{
    if j > 0 {
        lemma_fresh_row_no_stones(r, j - 1);
    }
}

} // verus!
