//! The library's game-wide laws, proved once over the board model: every
//! accepted placement avoids all recorded positions (positional superko),
//! capture counters never decrease under play, and undoing then replaying
//! the undone move restores the position exactly.

use vstd::prelude::*;
use vstd::set_lib::*;
use crate::board::{
    board_points, board_points_upto, cell_points, first_of_group, fresh_model, island_owner,
    is_repeat, move_ok, pass_loc, replay, step, strip_winner, synced, BoardModel,
};
use crate::geom::{Color, Loc, Move};
use crate::grid::{
    at, gcols, grid_wf, grows, group_of, groups_exist, interior, is_group, loc_lt, on_grid,
};

verus! {

/// How many indices in [lo, hi) satisfy `f`.
pub open spec fn count_range(f: spec_fn(int) -> bool, lo: int, hi: int) -> int
    decreases hi - lo,
{
    if hi <= lo {
        0
    } else {
        count_range(f, lo, hi - 1) + if f(hi - 1) {
            1int
        } else {
            0int
        }
    }
}

/// The location of the cell with flat row-major index `k`.
pub open spec fn flat_loc(g: Seq<Seq<Color>>, k: int) -> Loc {
    Loc { row: (k / gcols(g)) as usize, col: (k % gcols(g)) as usize }
}

/// The flat row-major index of a location.
pub open spec fn flat_of(g: Seq<Seq<Color>>, l: Loc) -> int {
    l.row * gcols(g) + l.col
}

/// The cell with flat index `k` is an empty interior cell.
pub open spec fn empty_at(g: Seq<Seq<Color>>, k: int) -> bool {
    interior(g, flat_loc(g, k)) && at(g, flat_loc(g, k)) == Color::Empty
}

/// The cell with flat index `k` lies in an empty region owned by one
/// colour.
pub open spec fn owned_at(g: Seq<Seq<Color>>, k: int) -> bool {
    empty_at(g, k) && island_owner(g, group_of(g, flat_loc(g, k))) != Color::Empty
}

/// The cell with flat index `k` lies in a dame region (empty, no owner).
pub open spec fn dame_at(g: Seq<Seq<Color>>, k: int) -> bool {
    empty_at(g, k) && island_owner(g, group_of(g, flat_loc(g, k))) == Color::Empty
}

/// Number of empty interior cells.
pub open spec fn empty_count(g: Seq<Seq<Color>>) -> int {
    count_range(|k: int| empty_at(g, k), 0, grows(g) * gcols(g))
}

/// Number of owned empty interior cells.
pub open spec fn owned_count(g: Seq<Seq<Color>>) -> int {
    count_range(|k: int| owned_at(g, k), 0, grows(g) * gcols(g))
}

/// Number of dame cells.
pub open spec fn dame_count(g: Seq<Seq<Color>>) -> int {
    count_range(|k: int| dame_at(g, k), 0, grows(g) * gcols(g))
}

proof fn lemma_count_congruent(f: spec_fn(int) -> bool, h: spec_fn(int) -> bool, lo: int, hi: int)
    requires
        forall|j: int| lo <= j < hi ==> #[trigger] f(j) == h(j),
    ensures
        count_range(f, lo, hi) == count_range(h, lo, hi),
    decreases hi - lo,
{
    if hi > lo {
        lemma_count_congruent(f, h, lo, hi - 1);
    }
}

proof fn lemma_count_split(f: spec_fn(int) -> bool, lo: int, mid: int, hi: int)
    requires
        lo <= mid <= hi,
    ensures
        count_range(f, lo, hi) == count_range(f, lo, mid) + count_range(f, mid, hi),
    decreases hi - mid,
{
    if hi > mid {
        lemma_count_split(f, lo, mid, hi - 1);
    }
}

/// Counting a weaker predicate splits into the stronger one and the gap.
proof fn lemma_count_diff(
    f: spec_fn(int) -> bool,
    h: spec_fn(int) -> bool,
    d: spec_fn(int) -> bool,
    lo: int,
    hi: int,
)
    requires
        forall|j: int| lo <= j < hi && #[trigger] h(j) ==> f(j),
        forall|j: int| lo <= j < hi ==> #[trigger] d(j) == (f(j) && !h(j)),
    ensures
        count_range(f, lo, hi) == count_range(h, lo, hi) + count_range(d, lo, hi),
    decreases hi - lo,
{
    if hi > lo {
        lemma_count_diff(f, h, d, lo, hi - 1);
    }
}

/// The flat index of an on-grid location is in range and inverts.
proof fn lemma_flat_of(g: Seq<Seq<Color>>, l: Loc)
    requires
        grid_wf(g),
        on_grid(g, l),
    ensures
        0 <= flat_of(g, l) < grows(g) * gcols(g),
        flat_loc(g, flat_of(g, l)) == l,
{
    assert(0 <= l.row * gcols(g) + l.col < grows(g) * gcols(g) && (l.row * gcols(g) + l.col)
        / gcols(g) == l.row as int && (l.row * gcols(g) + l.col) % gcols(g) == l.col as int)
        by (nonlinear_arith)
        requires
            0 <= l.row < grows(g),
            0 <= l.col < gcols(g),
            3 <= gcols(g),
    ;
}

/// A flat index in range lands on the grid and inverts.
proof fn lemma_flat_loc(g: Seq<Seq<Color>>, k: int)
    requires
        grid_wf(g),
        0 <= k < grows(g) * gcols(g),
    ensures
        on_grid(g, flat_loc(g, k)),
        flat_of(g, flat_loc(g, k)) == k,
{
    assert(0 <= k / gcols(g) < grows(g) && 0 <= k % gcols(g) < gcols(g) && (k / gcols(g)) * gcols(
        g,
    ) + k % gcols(g) == k) by (nonlinear_arith)
        requires
            0 <= k < grows(g) * gcols(g),
            3 <= gcols(g),
            3 <= grows(g),
    ;
}

/// Row-major order of locations is the order of their flat indices.
proof fn lemma_flat_order(g: Seq<Seq<Color>>, a: Loc, b: Loc)
    requires
        grid_wf(g),
        on_grid(g, a),
        on_grid(g, b),
    ensures
        loc_lt(a, b) <==> flat_of(g, a) < flat_of(g, b),
{
    assert((a.row < b.row || (a.row == b.row && a.col < b.col)) <==> a.row * gcols(g) + a.col
        < b.row * gcols(g) + b.col) by (nonlinear_arith)
        requires
            0 <= a.row < grows(g),
            0 <= a.col < gcols(g),
            0 <= b.row < grows(g),
            0 <= b.col < gcols(g),
            3 <= gcols(g),
    ;
}

/// The set of all cells of the grid, and its finiteness.
proof fn lemma_cells_finite(g: Seq<Seq<Color>>, s: Set<Loc>)
    requires
        grid_wf(g),
        forall|x: Loc| #[trigger] s.contains(x) ==> on_grid(g, x),
    ensures
        s.finite(),
{
    let all = set_int_range(0, grows(g) * gcols(g)).map(|k: int| flat_loc(g, k));
    lemma_int_range(0, grows(g) * gcols(g));
    set_int_range(0, grows(g) * gcols(g)).lemma_map_finite(|k: int| flat_loc(g, k));
    assert forall|x: Loc| s.contains(x) implies all.contains(x) by {
        lemma_flat_of(g, x);
        assert(set_int_range(0, grows(g) * gcols(g)).contains(flat_of(g, x)));
        assert(flat_loc(g, flat_of(g, x)) == x);
    }
    lemma_len_subset(s, all);
}

/// Counting the cells of a set along the flat order counts its members
/// below the bound.
proof fn lemma_count_members(
    g: Seq<Seq<Color>>,
    s: Set<Loc>,
    cf: spec_fn(int) -> bool,
    fs: Set<Loc>,
    hi: int,
)
    requires
        grid_wf(g),
        s.finite(),
        forall|x: Loc| #[trigger] s.contains(x) ==> on_grid(g, x),
        forall|j: int| #[trigger] cf(j) == s.contains(flat_loc(g, j)),
        forall|x: Loc| #[trigger] fs.contains(x) == (s.contains(x) && flat_of(g, x) < hi),
        0 <= hi <= grows(g) * gcols(g),
    ensures
        count_range(cf, 0, hi) == fs.len(),
        fs.finite(),
    decreases hi,
{
    assert(fs =~= s.filter(|x: Loc| flat_of(g, x) < hi));
    s.lemma_len_filter(|x: Loc| flat_of(g, x) < hi);
    if hi > 0 {
        let prev = s.filter(|x: Loc| flat_of(g, x) < hi - 1);
        s.lemma_len_filter(|x: Loc| flat_of(g, x) < hi - 1);
        lemma_count_members(g, s, cf, prev, hi - 1);
        lemma_flat_loc(g, hi - 1);
        let l = flat_loc(g, hi - 1);
        if s.contains(l) {
            assert(fs =~= prev.insert(l)) by {
                assert forall|x: Loc| fs.contains(x) implies prev.insert(l).contains(x) by {
                    if x != l {
                        lemma_flat_of(g, x);
                        assert(flat_of(g, x) != hi - 1);
                    }
                }
            }
            assert(!prev.contains(l));
            assert(fs.len() == prev.len() + 1);
            assert(cf(hi - 1));
        } else {
            assert(fs =~= prev) by {
                assert forall|x: Loc| fs.contains(x) implies prev.contains(x) by {
                    lemma_flat_of(g, x);
                    assert(x != l);
                    assert(flat_of(g, x) != hi - 1);
                }
            }
            assert(!cf(hi - 1));
        }
    } else {
        assert(fs =~= Set::<Loc>::empty()) by {
            assert forall|x: Loc| !(#[trigger] fs.contains(x)) by {
                if s.contains(x) {
                    lemma_flat_of(g, x);
                }
            }
        }
    }
}

proof fn lemma_count_zero(f: spec_fn(int) -> bool, lo: int, hi: int)
    requires
        forall|j: int| lo <= j < hi ==> !(#[trigger] f(j)),
    ensures
        count_range(f, lo, hi) == 0,
    decreases hi - lo,
{
    if hi > lo {
        lemma_count_zero(f, lo, hi - 1);
    }
}

/// A cell of an empty region lies in exactly one region; counted along the
/// flat order, each owned region contributes its size at its first cell,
/// and nothing anywhere else. `pending_at` tracks the cells of regions
/// whose first cell the scan has already passed.
pub open spec fn pending_at(g: Seq<Seq<Color>>, k: int, j: int) -> bool {
    owned_at(g, j) && exists|m: Loc|
        #[trigger] group_of(g, flat_loc(g, j)).contains(m) && flat_of(g, m) < k
}

#[verifier::rlimit(100)]
proof fn lemma_points_partition(g: Seq<Seq<Color>>, k: int)
    requires
        grid_wf(g),
        groups_exist(g),
        0 <= k <= grows(g) * gcols(g),
    ensures
        board_points_upto(g, k).0 + board_points_upto(g, k).1 == count_range(
            |j: int| owned_at(g, j),
            0,
            k,
        ) + count_range(|j: int| pending_at(g, k, j), k, grows(g) * gcols(g)),
    decreases k,
{
    let n = grows(g) * gcols(g);
    if k == 0 {
        assert forall|j: int| 0 <= j < n implies !(#[trigger] pending_at(g, 0, j)) by {
            if pending_at(g, 0, j) {
                let cj = flat_loc(g, j);
                let m = choose|m: Loc| #[trigger] group_of(g, cj).contains(m) && flat_of(g, m) < 0;
                assert(is_group(g, cj, group_of(g, cj)));
                assert(interior(g, m));
                lemma_flat_of(g, m);
            }
        }
        lemma_count_zero(|j: int| pending_at(g, 0, j), 0, n);
        assert(count_range(|j: int| pending_at(g, 0, j), 0, n) == 0);
        assert(count_range(|j: int| owned_at(g, j), 0, 0) == 0);
    } else {
        lemma_points_partition(g, k - 1);
        let j0 = k - 1;
        lemma_flat_loc(g, j0);
        let l0 = flat_loc(g, j0);
        assert(flat_of(g, l0) == j0);
        // split yesterday's pending at its lower end
        lemma_count_split(|j: int| pending_at(g, k - 1, j), k - 1, k, n);
        assert(count_range(|j: int| pending_at(g, k - 1, j), k - 1, k - 1) == 0);
        assert(count_range(|j: int| pending_at(g, k - 1, j), k - 1, k) == (
        if pending_at(g, k - 1, j0) {
            1int
        } else {
            0int
        }));
        // today's pending is yesterday's plus the newly uncovered cells
        assert forall|j: int|
            k <= j < n && #[trigger] pending_at(g, k - 1, j) implies pending_at(g, k, j) by {
            let m = choose|m: Loc|
                #[trigger] group_of(g, flat_loc(g, j)).contains(m) && flat_of(g, m) < k - 1;
            assert(group_of(g, flat_loc(g, j)).contains(m) && flat_of(g, m) < k);
        }
        lemma_count_diff(
            |j: int| pending_at(g, k, j),
            |j: int| pending_at(g, k - 1, j),
            |j: int| pending_at(g, k, j) && !pending_at(g, k - 1, j),
            k,
            n,
        );
        let gains = count_range(
            |j: int| pending_at(g, k, j) && !pending_at(g, k - 1, j),
            k,
            n,
        );
        // whoever gains does so through the cell the scan just passed
        assert forall|j: int|
            k <= j < n && #[trigger] pending_at(g, k, j) && !pending_at(g, k - 1, j) implies
            group_of(g, flat_loc(g, j)).contains(l0) && interior(g, l0) && at(g, l0)
                == Color::Empty && group_of(g, flat_loc(g, j)) == group_of(g, l0) by {
            let cj = flat_loc(g, j);
            let m = choose|m: Loc| #[trigger] group_of(g, cj).contains(m) && flat_of(g, m) < k;
            assert(is_group(g, cj, group_of(g, cj)));
            assert(interior(g, m));
            lemma_flat_of(g, m);
            assert(flat_of(g, m) == k - 1) by {
                if flat_of(g, m) < k - 1 {
                    assert(pending_at(g, k - 1, j));
                }
            }
            assert(m == l0);
            crate::grid::lemma_group_member(g, cj, group_of(g, cj), l0);
        }
        if !(interior(g, l0) && at(g, l0) == Color::Empty) {
            assert(cell_points(g, j0) == (0int, 0int));
            assert(!owned_at(g, j0));
            assert(!pending_at(g, k - 1, j0));
            assert forall|j: int|
                k <= j < n implies !(#[trigger] pending_at(g, k, j) && !pending_at(
                g,
                k - 1,
                j,
            )) by {}
            lemma_count_zero(
                |j: int| pending_at(g, k, j) && !pending_at(g, k - 1, j),
                k,
                n,
            );
            assert(gains == 0);
        } else {
            let s = group_of(g, l0);
            assert(is_group(g, l0, s));
            assert forall|x: Loc| #[trigger] s.contains(x) implies on_grid(g, x) by {
                assert(interior(g, x));
            }
            lemma_cells_finite(g, s);
            if first_of_group(g, l0) {
                assert(!pending_at(g, k - 1, j0)) by {
                    if pending_at(g, k - 1, j0) {
                        let m = choose|m: Loc|
                            #[trigger] group_of(g, flat_loc(g, j0)).contains(m) && flat_of(g, m)
                                < k - 1;
                        lemma_flat_order(g, m, l0);
                        assert(loc_lt(m, l0));
                    }
                }
                if island_owner(g, s) != Color::Empty {
                    // an owned region scores its whole size here, and its
                    // other cells become pending
                    assert(owned_at(g, j0));
                    assert(cell_points(g, j0).0 + cell_points(g, j0).1 == s.len());
                    assert forall|j: int|
                        k <= j < n implies (#[trigger] pending_at(g, k, j) && !pending_at(
                        g,
                        k - 1,
                        j,
                    )) == s.contains(#[trigger] flat_loc(g, j)) by {
                        lemma_flat_loc(g, j);
                        let cj = flat_loc(g, j);
                        if s.contains(cj) {
                            crate::grid::lemma_group_member(g, l0, s, cj);
                            assert(group_of(g, cj) == s);
                            assert(owned_at(g, j));
                            assert(pending_at(g, k, j)) by {
                                assert(group_of(g, cj).contains(l0) && flat_of(g, l0) < k);
                            }
                            assert(!pending_at(g, k - 1, j)) by {
                                if pending_at(g, k - 1, j) {
                                    let m = choose|m: Loc|
                                        #[trigger] group_of(g, cj).contains(m) && flat_of(g, m) < k
                                            - 1;
                                    lemma_flat_order(g, m, l0);
                                    assert(loc_lt(m, l0));
                                }
                            }
                        } else {
                            if pending_at(g, k, j) && !pending_at(g, k - 1, j) {
                                assert(group_of(g, cj) == s);
                                assert(group_of(g, cj).contains(cj));
                            }
                        }
                    }
                    lemma_count_congruent(
                        |j: int| pending_at(g, k, j) && !pending_at(g, k - 1, j),
                        |j: int| s.contains(flat_loc(g, j)),
                        k,
                        n,
                    );
                    lemma_count_split(|j: int| s.contains(flat_loc(g, j)), 0, k, n);
                    let below_n = Set::new(|x: Loc| s.contains(x) && flat_of(g, x) < n);
                    let below_k = Set::new(|x: Loc| s.contains(x) && flat_of(g, x) < k);
                    lemma_count_members(g, s, |j: int| s.contains(flat_loc(g, j)), below_n, n);
                    lemma_count_members(g, s, |j: int| s.contains(flat_loc(g, j)), below_k, k);
                    assert(below_n =~= s) by {
                        assert forall|x: Loc| s.contains(x) implies below_n.contains(x) by {
                            lemma_flat_of(g, x);
                        }
                    }
                    assert(below_k =~= Set::<Loc>::empty().insert(l0)) by {
                        assert(s.contains(l0) && flat_of(g, l0) < k);
                        assert forall|x: Loc|
                            #[trigger] below_k.contains(x) implies x == l0 by {
                            assert(!loc_lt(x, l0));
                            lemma_flat_order(g, x, l0);
                            if x != l0 {
                                lemma_flat_order(g, l0, x);
                                assert(loc_lt(l0, x) || l0 == x || loc_lt(x, l0));
                            }
                        }
                    }
                    assert(Set::<Loc>::empty().insert(l0).len() == 1);
                    assert(below_k.len() == 1);
                    assert(below_n.len() == s.len());
                    assert(gains == s.len() - 1);
                } else {
                    // a dame region scores nothing and nothing of it pends
                    assert(cell_points(g, j0) == (0int, 0int));
                    assert(!owned_at(g, j0));
                    assert forall|j: int|
                        k <= j < n implies !(#[trigger] pending_at(g, k, j) && !pending_at(
                        g,
                        k - 1,
                        j,
                    )) by {
                        if pending_at(g, k, j) && !pending_at(g, k - 1, j) {
                            let cj = flat_loc(g, j);
                            assert(group_of(g, cj) == s);
                            assert(!owned_at(g, j));
                        }
                    }
                    lemma_count_zero(
                        |j: int| pending_at(g, k, j) && !pending_at(g, k - 1, j),
                        k,
                        n,
                    );
                    assert(gains == 0);
                }
            } else {
                // not the first cell of its region: it was already pending
                // exactly when the region is owned, and nothing new pends
                assert(cell_points(g, j0) == (0int, 0int));
                let m0 = choose|m0: Loc| s.contains(m0) && loc_lt(m0, l0);
                assert(s.contains(m0) && loc_lt(m0, l0));
                lemma_flat_order(g, m0, l0);
                assert(flat_of(g, m0) < k - 1);
                if owned_at(g, j0) {
                    assert(pending_at(g, k - 1, j0)) by {
                        assert(group_of(g, flat_loc(g, j0)).contains(m0) && flat_of(g, m0) < k
                            - 1);
                    }
                } else {
                    assert(!pending_at(g, k - 1, j0));
                }
                assert forall|j: int|
                    k <= j < n implies !(#[trigger] pending_at(g, k, j) && !pending_at(
                    g,
                    k - 1,
                    j,
                )) by {
                    if pending_at(g, k, j) && !pending_at(g, k - 1, j) {
                        let cj = flat_loc(g, j);
                        assert(group_of(g, cj) == s);
                        assert(pending_at(g, k - 1, j)) by {
                            assert(group_of(g, cj).contains(m0) && flat_of(g, m0) < k - 1);
                        }
                    }
                }
                lemma_count_zero(
                    |j: int| pending_at(g, k, j) && !pending_at(g, k - 1, j),
                    k,
                    n,
                );
                assert(gains == 0);
            }
        }
        // assemble the step
        assert(board_points_upto(g, k).0 + board_points_upto(g, k).1 == board_points_upto(
            g,
            k - 1,
        ).0 + board_points_upto(g, k - 1).1 + cell_points(g, j0).0 + cell_points(g, j0).1);
        assert(count_range(|j: int| owned_at(g, j), 0, k) == count_range(
            |j: int| owned_at(g, j),
            0,
            k - 1,
        ) + if owned_at(g, j0) {
            1int
        } else {
            0int
        });
        assert(count_range(|j: int| pending_at(g, k, j), k, n) == count_range(
            |j: int| pending_at(g, k - 1, j),
            k,
            n,
        ) + gains);
        assert(cell_points(g, j0).0 + cell_points(g, j0).1 + (
        if pending_at(g, k - 1, j0) {
            1int
        } else {
            0int
        }) == (if owned_at(g, j0) {
            1int
        } else {
            0int
        }) + gains);
    }
}

/// Area scoring is exact: over any position whose empty regions are known,
/// the Black and White territory points together equal the number of empty
/// interior cells minus the number of dame cells.
pub proof fn lemma_area_scoring_exact(g: Seq<Seq<Color>>)
    requires
        grid_wf(g),
        groups_exist(g),
    ensures
        board_points(g).0 + board_points(g).1 == empty_count(g) - dame_count(g),
{
    let n = grows(g) * gcols(g);
    assert(n >= 9) by (nonlinear_arith)
        requires
            n == grows(g) * gcols(g),
            grows(g) >= 3,
            gcols(g) >= 3,
    ;
    lemma_points_partition(g, n);
    assert(count_range(|j: int| pending_at(g, n, j), n, n) == 0);
    assert forall|j: int| 0 <= j < n && #[trigger] dame_at(g, j) implies empty_at(g, j) by {}
    lemma_count_diff(
        |k: int| empty_at(g, k),
        |k: int| dame_at(g, k),
        |k: int| owned_at(g, k),
        0,
        n,
    );
}

/// Positional superko: whenever a placement is accepted, the grid it
/// produces differs from every grid recorded so far, and it is recorded in
/// turn.
pub proof fn lemma_superko(b: BoardModel, mv: Move)
    requires
        !pass_loc(mv.loc),
        move_ok(b, mv),
    ensures
        !is_repeat(b.snaps, step(b, mv).grid),
        step(b, mv).snaps == b.snaps.push(step(b, mv).grid),
{
}

/// Every move a board can take leaves both capture counters at least as
/// large as before: captures are monotone under play.
pub proof fn lemma_captures_monotone(b: BoardModel, mv: Move)
    ensures
        step(b, mv).black_captures >= b.black_captures,
        step(b, mv).white_captures >= b.white_captures,
{
}

/// Undo by replay is exact: for a board in sync with its history, replaying
/// every move but the last and then the last move again restores the
/// state, the recorded winner aside.
pub proof fn lemma_undo_then_replay(m: BoardModel)
    requires
        synced(m),
        m.history.len() > 0,
    ensures
        step(
            replay(
                fresh_model(grows(m.grid), gcols(m.grid), m.komi_half),
                m.history.drop_last(),
            ),
            m.history.last(),
        ) == strip_winner(m),
{
}

} // verus!
