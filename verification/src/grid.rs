//! The padded grid and its group structure. A group is the maximal
//! 4-connected set of same-coloured cells containing a given location; this
//! module defines groups mathematically (`is_group`, `group_of`), proves the
//! characterisation unique, and provides verified flood fill, liberty and
//! capture primitives against that definition.

use vstd::prelude::*;
use vstd::seq_lib::*;
use vstd::set_lib::*;
use crate::geom::{Color, Loc};

verus! {

/// The mathematical view of a padded grid: a sequence of rows of cells.
pub open spec fn gview(g: Vec<Vec<Color>>) -> Seq<Seq<Color>> {
    Seq::new(g@.len(), |i: int| g@[i]@)
}

/// Number of rows of the padded grid.
pub open spec fn grows(g: Seq<Seq<Color>>) -> int {
    g.len() as int
}

/// Number of columns of the padded grid (taken from the first row).
pub open spec fn gcols(g: Seq<Seq<Color>>) -> int {
    g[0].len() as int
}

/// True when row i, column j lies on the sentinel ring.
pub open spec fn on_border(g: Seq<Seq<Color>>, i: int, j: int) -> bool {
    i == 0 || i == grows(g) - 1 || j == 0 || j == gcols(g) - 1
}

/// A well-formed padded grid: rectangular, within the supported dimensions,
/// and Invalid exactly on the sentinel ring.
pub open spec fn grid_wf(g: Seq<Seq<Color>>) -> bool {
    &&& 3 <= grows(g) <= 99
    &&& 3 <= gcols(g) <= 99
    &&& forall|i: int| 0 <= i < grows(g) ==> #[trigger] g[i].len() == gcols(g)
    &&& forall|i: int, j: int|
        0 <= i < grows(g) && 0 <= j < gcols(g) ==> ((#[trigger] g[i][j] == Color::Invalid)
            <==> on_border(g, i, j))
}

/// The colour at a location.
pub open spec fn at(g: Seq<Seq<Color>>, l: Loc) -> Color {
    g[l.row as int][l.col as int]
}

/// The location indexes some cell of the padded grid.
pub open spec fn on_grid(g: Seq<Seq<Color>>, l: Loc) -> bool {
    l.row < grows(g) && l.col < gcols(g)
}

/// The location lies in the playable interior (off the sentinel ring).
pub open spec fn interior(g: Seq<Seq<Color>>, l: Loc) -> bool {
    1 <= l.row && l.row < grows(g) - 1 && 1 <= l.col && l.col < gcols(g) - 1
}

/// Orthogonal adjacency of two locations.
pub open spec fn adj(a: Loc, b: Loc) -> bool {
    ||| (a.row == b.row && a.col + 1 == b.col)
    ||| (a.row == b.row && b.col + 1 == a.col)
    ||| (a.col == b.col && a.row + 1 == b.row)
    ||| (a.col == b.col && b.row + 1 == a.row)
}

/// There is a chain of locations of `s`, of length at most `n`, that starts
/// at `a`, ends at `b`, and steps only between orthogonally adjacent cells.
pub open spec fn path(s: Set<Loc>, a: Loc, b: Loc, n: nat) -> bool
    decreases n,
{
    if n == 0 {
        a == b
    } else {
        exists|m: Loc| #[trigger] s.contains(m) && path(s, a, m, (n - 1) as nat) && adj(m, b)
    }
}

/// `b` can be reached from `a` through members of `s`.
pub open spec fn reach(s: Set<Loc>, a: Loc, b: Loc) -> bool {
    exists|n: nat| path(s, a, b, n)
}

/// `s` is the group of `root`: it contains `root`, consists of interior
/// cells of `root`'s colour, is closed under same-coloured adjacency, and
/// is connected through itself to `root`. These four conditions determine
/// `s` uniquely (`lemma_group_unique`).
pub open spec fn is_group(g: Seq<Seq<Color>>, root: Loc, s: Set<Loc>) -> bool {
    &&& s.contains(root)
    &&& forall|x: Loc| #[trigger] s.contains(x) ==> interior(g, x) && at(g, x) == at(g, root)
    &&& forall|x: Loc, y: Loc|
        #[trigger] s.contains(x) && #[trigger] adj(x, y) && on_grid(g, y) && at(g, y) == at(
            g,
            root,
        ) ==> s.contains(y)
    &&& forall|x: Loc| #[trigger] s.contains(x) ==> reach(s, root, x)
}

/// The group of `root` (meaningful whenever some set satisfies `is_group`).
pub open spec fn group_of(g: Seq<Seq<Color>>, root: Loc) -> Set<Loc> {
    choose|s: Set<Loc>| is_group(g, root, s)
}

/// The set of liberties of a set of cells: empty cells of the grid
/// orthogonally adjacent to some member.
pub open spec fn libs(g: Seq<Seq<Color>>, s: Set<Loc>) -> Set<Loc> {
    Set::new(
        |l: Loc|
            on_grid(g, l) && at(g, l) == Color::Empty && exists|x: Loc|
                #[trigger] s.contains(x) && adj(x, l),
    )
}

/// The set of cells of colour `c` orthogonally adjacent to some member of
/// `s` but outside `s`.
pub open spec fn adj_colored(g: Seq<Seq<Color>>, s: Set<Loc>, c: Color) -> Set<Loc> {
    Set::new(
        |l: Loc|
            on_grid(g, l) && at(g, l) == c && !s.contains(l) && exists|x: Loc|
                #[trigger] s.contains(x) && adj(x, l),
    )
}

/// Every empty interior cell has its region: witnesses come from any
/// flood fill over the grid.
pub open spec fn groups_exist(g: Seq<Seq<Color>>) -> bool {
    forall|l: Loc|
        interior(g, l) && at(g, l) == Color::Empty ==> is_group(g, l, #[trigger] group_of(g, l))
}

/// Strict row-major order on locations.
pub open spec fn loc_lt(a: Loc, b: Loc) -> bool {
    a.row < b.row || (a.row == b.row && a.col < b.col)
}

/// Strictly sorted in row-major order (which also rules out duplicates).
pub open spec fn sorted_locs(s: Seq<Loc>) -> bool {
    forall|i: int, j: int| 0 <= i < j < s.len() ==> loc_lt(#[trigger] s[i], #[trigger] s[j])
}

/// Paths through a smaller set are paths through a larger one.
pub proof fn lemma_path_mono(s: Set<Loc>, t: Set<Loc>, a: Loc, b: Loc, n: nat)
    requires
        path(s, a, b, n),
        s.subset_of(t),
    ensures
        path(t, a, b, n),
    decreases n,
{
    if n > 0 {
        let m = choose|m: Loc| #[trigger] s.contains(m) && path(s, a, m, (n - 1) as nat) && adj(m, b);
        lemma_path_mono(s, t, a, m, (n - 1) as nat);
        assert(t.contains(m) && path(t, a, m, (n - 1) as nat) && adj(m, b));
    }
}

/// A one-step extension of a path.
pub proof fn lemma_path_step(s: Set<Loc>, a: Loc, m: Loc, b: Loc, n: nat)
    requires
        path(s, a, m, n),
        s.contains(m),
        adj(m, b),
    ensures
        path(s, a, b, n + 1),
{
    assert(s.contains(m) && path(s, a, m, ((n + 1) - 1) as nat) && adj(m, b));
}

/// Paths concatenate.
pub proof fn lemma_path_trans(s: Set<Loc>, a: Loc, b: Loc, c: Loc, n1: nat, n2: nat)
    requires
        path(s, a, b, n1),
        path(s, b, c, n2),
    ensures
        path(s, a, c, (n1 + n2) as nat),
    decreases n2,
{
    if n2 == 0 {
        assert(c == b);
    } else {
        let m = choose|m: Loc|
            #[trigger] s.contains(m) && path(s, b, m, (n2 - 1) as nat) && adj(m, c);
        lemma_path_trans(s, a, b, m, n1, (n2 - 1) as nat);
        lemma_path_step(s, a, m, c, (n1 + n2 - 1) as nat);
    }
}

/// Paths between members of `s` reverse.
pub proof fn lemma_path_rev(s: Set<Loc>, a: Loc, b: Loc, n: nat)
    requires
        path(s, a, b, n),
        s.contains(a),
        s.contains(b),
    ensures
        path(s, b, a, n),
    decreases n,
{
    if n > 0 {
        let m = choose|m: Loc|
            #[trigger] s.contains(m) && path(s, a, m, (n - 1) as nat) && adj(m, b);
        lemma_path_rev(s, a, m, (n - 1) as nat);
        assert(path(s, b, b, 0));
        assert(adj(b, m));
        lemma_path_step(s, b, b, m, 0);
        lemma_path_trans(s, b, m, a, 1, (n - 1) as nat);
    }
}

/// A group is the group of each of its members.
pub proof fn lemma_group_member(g: Seq<Seq<Color>>, root: Loc, s: Set<Loc>, x: Loc)
    requires
        is_group(g, root, s),
        s.contains(x),
    ensures
        is_group(g, x, s),
        group_of(g, x) == s,
{
    assert(at(g, x) == at(g, root));
    let nx = choose|nx: nat| path(s, root, x, nx);
    lemma_path_rev(s, root, x, nx);
    assert forall|y: Loc| #[trigger] s.contains(y) implies reach(s, x, y) by {
        let ny = choose|ny: nat| path(s, root, y, ny);
        lemma_path_trans(s, x, root, y, nx, ny);
    }
    assert(is_group(g, x, s));
    lemma_group_of(g, x, s);
}

/// Any member of `s1` reached from `root` lies in every set `s2` that
/// contains `root` and is closed under same-coloured adjacency.
proof fn lemma_path_into_closed(
    g: Seq<Seq<Color>>,
    root: Loc,
    s1: Set<Loc>,
    s2: Set<Loc>,
    b: Loc,
    n: nat,
)
    requires
        path(s1, root, b, n),
        s1.contains(b),
        forall|x: Loc| #[trigger] s1.contains(x) ==> interior(g, x) && at(g, x) == at(g, root),
        s2.contains(root),
        forall|x: Loc, y: Loc|
            #[trigger] s2.contains(x) && #[trigger] adj(x, y) && on_grid(g, y) && at(g, y) == at(
                g,
                root,
            ) ==> s2.contains(y),
    ensures
        s2.contains(b),
    decreases n,
{
    if n == 0 {
        assert(b == root);
    } else {
        let m = choose|m: Loc|
            #[trigger] s1.contains(m) && path(s1, root, m, (n - 1) as nat) && adj(m, b);
        lemma_path_into_closed(g, root, s1, s2, m, (n - 1) as nat);
        assert(interior(g, b));
        assert(on_grid(g, b));
        assert(s2.contains(b));
    }
}

/// The four group conditions pin the group down: two sets satisfying
/// `is_group` for the same root are equal.
pub proof fn lemma_group_unique(g: Seq<Seq<Color>>, root: Loc, s1: Set<Loc>, s2: Set<Loc>)
    requires
        is_group(g, root, s1),
        is_group(g, root, s2),
    ensures
        s1 == s2,
{
    assert forall|b: Loc| s1.contains(b) implies s2.contains(b) by {
        let n = choose|n: nat| path(s1, root, b, n);
        lemma_path_into_closed(g, root, s1, s2, b, n);
    }
    assert forall|b: Loc| s2.contains(b) implies s1.contains(b) by {
        let n = choose|n: nat| path(s2, root, b, n);
        lemma_path_into_closed(g, root, s2, s1, b, n);
    }
    assert(s1 =~= s2);
}

/// Whenever some set satisfies the group conditions, `group_of` denotes it.
pub proof fn lemma_group_of(g: Seq<Seq<Color>>, root: Loc, s: Set<Loc>)
    requires
        is_group(g, root, s),
    ensures
        group_of(g, root) == s,
        is_group(g, root, group_of(g, root)),
{
    let picked = choose|t: Set<Loc>| is_group(g, root, t);
    assert(is_group(g, root, picked));
    lemma_group_unique(g, root, picked, s);
}

/// A strictly bounded sequence of distinct locations has at most
/// rows × cols members.
pub proof fn lemma_locs_len_bound(s: Seq<Loc>, rows: int, cols: int)
    requires
        s.no_duplicates(),
        0 < cols,
        0 < rows,
        forall|i: int| 0 <= i < s.len() ==> (#[trigger] s[i]).row < rows && s[i].col < cols,
    ensures
        s.len() <= rows * cols,
{
    let keyed = s.map_values(|l: Loc| l.row * cols + l.col);
    assert forall|i: int, j: int| 0 <= i < keyed.len() && 0 <= j < keyed.len() && i != j
        implies keyed[i] != keyed[j] by {
        assert(s[i] != s[j]);
        assert(keyed[i] == s[i].row * cols + s[i].col);
        assert(keyed[j] == s[j].row * cols + s[j].col);
        assert(s[i].row * cols + s[i].col != s[j].row * cols + s[j].col) by (nonlinear_arith)
            requires
                0 <= s[i].col < cols,
                0 <= s[j].col < cols,
                0 <= s[i].row,
                0 <= s[j].row,
                !(s[i].row == s[j].row && s[i].col == s[j].col),
        ;
    }
    assert(keyed.no_duplicates());
    keyed.unique_seq_to_set();
    assert forall|k: int| keyed.to_set().contains(k) implies set_int_range(0, rows * cols).contains(
        k,
    ) by {
        let i = choose|i: int| 0 <= i < keyed.len() && keyed[i] == k;
        assert(0 <= s[i].row * cols + s[i].col < rows * cols) by (nonlinear_arith)
            requires
                0 <= s[i].col < cols,
                0 <= s[i].row < rows,
        ;
    }
    lemma_int_range(0, rows * cols);
    lemma_len_subset(keyed.to_set(), set_int_range(0, rows * cols));
}

/// Reads the colour of a cell.
pub fn cell_color(g: &Vec<Vec<Color>>, l: Loc) -> (c: Color)
    requires
        grid_wf(gview(*g)),
        on_grid(gview(*g), l),
    ensures
        c == at(gview(*g), l),
{
    g[l.row][l.col]
}

/// Writes the colour of a cell; the rest of the grid is unchanged.
pub fn set_cell(g: &mut Vec<Vec<Color>>, l: Loc, c: Color)
    requires
        grid_wf(gview(*old(g))),
        on_grid(gview(*old(g)), l),
    ensures
        gview(*final(g)) == gview(*old(g)).update(
            l.row as int,
            gview(*old(g))[l.row as int].update(l.col as int, c),
        ),
        final(g)@.len() == old(g)@.len(),
{
    let ghost before = gview(*g);
    proof {
        assert(before[l.row as int].len() == gcols(before));
    }
    let row: &mut Vec<Color> = &mut g[l.row];
    assert(row@.len() == gcols(before));
    row[l.col] = c;
    proof {
        assert(gview(*g) =~= before.update(
            l.row as int,
            before[l.row as int].update(l.col as int, c),
        ));
    }
}

/// Copies a grid cell for cell.
pub fn clone_grid(g: &Vec<Vec<Color>>) -> (r: Vec<Vec<Color>>)
    requires
        grid_wf(gview(*g)),
    ensures
        gview(r) == gview(*g),
{
    let mut out: Vec<Vec<Color>> = Vec::new();
    let rows = g.len();
    let mut i: usize = 0;
    while i < rows
        invariant
            i <= rows,
            rows == g@.len(),
            grid_wf(gview(*g)),
            out@.len() == i,
            forall|k: int| 0 <= k < i ==> #[trigger] out@[k]@ == g@[k]@,
        decreases rows - i,
    {
        let mut row: Vec<Color> = Vec::new();
        let cols = g[i].len();
        let mut j: usize = 0;
        while j < cols
            invariant
                j <= cols,
                i < g@.len(),
                cols == g@[i as int]@.len(),
                row@.len() == j,
                forall|k: int| 0 <= k < j ==> #[trigger] row@[k] == g@[i as int]@[k],
            decreases cols - j,
        {
            row.push(g[i][j]);
            j += 1;
        }
        proof {
            assert(row@ =~= g@[i as int]@);
        }
        out.push(row);
        i += 1;
    }
    proof {
        assert(gview(out) =~= gview(*g));
    }
    out
}

/// Compares two grids cell for cell.
pub fn grid_eq(a: &Vec<Vec<Color>>, b: &Vec<Vec<Color>>) -> (r: bool)
    ensures
        r == (gview(*a) == gview(*b)),
{
    if a.len() != b.len() {
        proof {
            assert(gview(*a).len() != gview(*b).len());
        }
        return false;
    }
    let rows = a.len();
    let mut i: usize = 0;
    while i < rows
        invariant
            i <= rows,
            rows == a@.len() == b@.len(),
            forall|k: int| 0 <= k < i ==> #[trigger] a@[k]@ == b@[k]@,
        decreases rows - i,
    {
        if a[i].len() != b[i].len() {
            proof {
                assert(gview(*a)[i as int].len() != gview(*b)[i as int].len());
            }
            return false;
        }
        let cols = a[i].len();
        let mut j: usize = 0;
        while j < cols
            invariant
                j <= cols,
                i < a@.len(),
                i < b@.len(),
                cols == a@[i as int]@.len() == b@[i as int]@.len(),
                forall|k: int| 0 <= k < j ==> #[trigger] a@[i as int]@[k] == b@[i as int]@[k],
            decreases cols - j,
        {
            if a[i][j] != b[i][j] {
                proof {
                    assert(gview(*a)[i as int][j as int] != gview(*b)[i as int][j as int]);
                }
                return false;
            }
            j += 1;
        }
        proof {
            assert(a@[i as int]@ =~= b@[i as int]@);
        }
        i += 1;
    }
    proof {
        assert(gview(*a) =~= gview(*b));
    }
    true
}

/// Linear membership test on a vector of locations.
pub fn locs_contain(v: &Vec<Loc>, l: Loc) -> (r: bool)
    ensures
        r == v@.contains(l),
{
    let n = v.len();
    let mut i: usize = 0;
    while i < n
        invariant
            i <= n,
            n == v@.len(),
            forall|k: int| 0 <= k < i ==> #[trigger] v@[k] != l,
        decreases n - i,
    {
        if v[i].row == l.row && v[i].col == l.col {
            assert(v@[i as int] == l);
            return true;
        }
        i += 1;
    }
    false
}

/// Orthogonal adjacency, executable form.
pub fn is_adj(a: Loc, b: Loc) -> (r: bool)
    requires
        a.row < usize::MAX,
        a.col < usize::MAX,
        b.row < usize::MAX,
        b.col < usize::MAX,
    ensures
        r == adj(a, b),
{
    (a.row == b.row && (a.col + 1 == b.col || b.col + 1 == a.col)) || (a.col == b.col && (a.row + 1
        == b.row || b.row + 1 == a.row))
}

/// True when `l` is orthogonally adjacent to some member of `group`.
pub fn touches(group: &Vec<Loc>, l: Loc) -> (r: bool)
    requires
        forall|k: int| 0 <= k < group@.len() ==> (#[trigger] group@[k]).row < 100 && group@[k].col
            < 100,
        l.row < usize::MAX,
        l.col < usize::MAX,
    ensures
        r == exists|x: Loc| #[trigger] group@.to_set().contains(x) && adj(x, l),
{
    let n = group.len();
    let mut i: usize = 0;
    while i < n
        invariant
            i <= n,
            n == group@.len(),
            forall|k: int| 0 <= k < group@.len() ==> (#[trigger] group@[k]).row < 100
                && group@[k].col < 100,
            l.row < usize::MAX,
            l.col < usize::MAX,
            forall|k: int| 0 <= k < i ==> !adj(#[trigger] group@[k], l),
        decreases n - i,
    {
        if is_adj(group[i], l) {
            assert(group@.to_set().contains(group@[i as int]));
            return true;
        }
        i += 1;
    }
    proof {
        assert forall|x: Loc| group@.to_set().contains(x) implies !adj(x, l) by {
            let k = choose|k: int| 0 <= k < group@.len() && group@[k] == x;
        }
    }
    false
}
/// Flood fill: collects the group of `root` in discovery order.
#[verifier::rlimit(50)]
fn flood(g: &Vec<Vec<Color>>, root: Loc) -> (r: Vec<Loc>)
    requires
        grid_wf(gview(*g)),
        interior(gview(*g), root),
    ensures
        is_group(gview(*g), root, r@.to_set()),
        r@.no_duplicates(),
{
    let ghost gv = gview(*g);
    let ghost c = at(gv, root);
    let color = cell_color(g, root);
    let mut visited: Vec<Loc> = Vec::new();
    let mut stack: Vec<Loc> = Vec::new();
    visited.push(root);
    stack.push(root);
    proof {
        assert(visited@[0] == root);
        assert(visited@.contains(root));
        assert(visited@.len() == 1);
        assert(grows(gv) * gcols(gv) >= 9) by (nonlinear_arith)
            requires
                grows(gv) >= 3,
                gcols(gv) >= 3,
        ;
        assert(path(visited@.to_set(), root, root, 0));
        assert(stack@[0] == root);
        assert(stack@.to_set().subset_of(visited@.to_set()));
    }
    while stack.len() > 0
        invariant
            gv == gview(*g),
            grid_wf(gv),
            interior(gv, root),
            c == at(gv, root),
            color == c,
            visited@.no_duplicates(),
            visited@.to_set().contains(root),
            visited@.len() <= grows(gv) * gcols(gv),
            stack@.to_set().subset_of(visited@.to_set()),
            forall|k: int|
                0 <= k < visited@.len() ==> interior(gv, #[trigger] visited@[k]) && at(
                    gv,
                    visited@[k],
                ) == c,
            forall|k: int|
                0 <= k < visited@.len() ==> reach(
                    visited@.to_set(),
                    root,
                    #[trigger] visited@[k],
                ),
            forall|x: Loc, y: Loc|
                visited@.to_set().contains(x) && !stack@.to_set().contains(x) && #[trigger] adj(
                    x,
                    y,
                ) && on_grid(gv, y) && at(gv, y) == c ==> #[trigger] visited@.to_set().contains(y),
        decreases grows(gv) * gcols(gv) - visited@.len(), stack@.len(),
    {
        let ghost visited_before = visited@;
        let ghost stack_before = stack@;
        let y = match stack.pop() {
            Some(y) => y,
            None => {
                proof {
                    assert(false);
                }
                root
            },
        };
        proof {
            assert(stack_before[stack_before.len() - 1] == y);
            assert(stack_before.contains(y));
            assert(stack_before.to_set().contains(y));
            assert(visited@.to_set().contains(y));
            assert forall|x: Loc| stack@.to_set().contains(x) implies stack_before.to_set()
                .contains(x) by {
                let k = choose|k: int| 0 <= k < stack@.len() && stack@[k] == x;
                assert(stack_before[k] == x);
            }
            assert forall|x: Loc|
                stack_before.to_set().contains(x) && x != y implies stack@.to_set().contains(
                x,
            ) by {
                let k = choose|k: int| 0 <= k < stack_before.len() && stack_before[k] == x;
                assert(k < stack@.len());
                assert(stack@[k] == x);
            }
            let kk = choose|kk: int| 0 <= kk < visited@.len() && visited@[kk] == y;
            assert(interior(gv, y) && at(gv, y) == c);
        }
        let mut step: usize = 0;
        while step < 4
            invariant
                gv == gview(*g),
                grid_wf(gv),
                interior(gv, root),
                c == at(gv, root),
                color == c,
                step <= 4,
                visited@.no_duplicates(),
                visited@.to_set().contains(root),
                visited@.to_set().contains(y),
                interior(gv, y),
                at(gv, y) == c,
                visited@.len() <= grows(gv) * gcols(gv),
                stack@.to_set().subset_of(visited@.to_set()),
                visited_before.to_set().subset_of(visited@.to_set()),
                visited@.len() >= visited_before.len(),
                visited@.len() > visited_before.len() || stack@.len() < stack_before.len(),
                forall|k: int|
                    0 <= k < visited@.len() ==> interior(gv, #[trigger] visited@[k]) && at(
                        gv,
                        visited@[k],
                    ) == c,
                forall|k: int|
                    0 <= k < visited@.len() ==> reach(
                        visited@.to_set(),
                        root,
                        #[trigger] visited@[k],
                    ),
                forall|x: Loc, z: Loc|
                    visited@.to_set().contains(x) && !stack@.to_set().contains(x) && x != y
                        && #[trigger] adj(x, z) && on_grid(gv, z) && at(gv, z) == c
                        ==> #[trigger] visited@.to_set().contains(z),
                forall|z: Loc|
                    #[trigger] adj(y, z) && covered_dir(y, z, step as int) && on_grid(gv, z) && at(
                        gv,
                        z,
                    ) == c ==> visited@.to_set().contains(z),
            decreases 4 - step,
        {
            let nb: Loc = if step == 0 {
                y.up()
            } else if step == 1 {
                y.down()
            } else if step == 2 {
                y.left()
            } else {
                y.right()
            };
            proof {
                assert(adj(y, nb));
                assert(on_grid(gv, nb));
            }
            if cell_color(g, nb) == color {
                proof {
                    assert(at(gv, nb) == c);
                    assert(c != Color::Invalid) by {
                        assert(!on_border(gv, root.row as int, root.col as int));
                    }
                    assert(!on_border(gv, nb.row as int, nb.col as int));
                    assert(interior(gv, nb));
                }
                if !locs_contain(&visited, nb) {
                    let ghost old_seq = visited@;
                    let ghost old_set = visited@.to_set();
                    let ghost old_stack = stack@;
                    visited.push(nb);
                    stack.push(nb);
                    proof {
                        old_seq.lemma_push_to_set_commute(nb);
                        old_stack.lemma_push_to_set_commute(nb);
                        assert(visited@.to_set() =~= old_set.insert(nb));
                        assert(stack@.to_set() =~= old_stack.to_set().insert(nb));
                        assert(visited@.no_duplicates()) by {
                            assert(forall|k: int|
                                0 <= k < old_seq.len() ==> #[trigger] old_seq[k] != nb);
                        }
                        // connectivity is preserved and extends to nb
                        assert forall|k: int| 0 <= k < visited@.len() implies reach(
                            visited@.to_set(),
                            root,
                            #[trigger] visited@[k],
                        ) by {
                            if k < visited@.len() - 1 {
                                assert(visited@[k] == old_seq[k]);
                                let n0 = choose|n0: nat| path(old_set, root, old_seq[k], n0);
                                lemma_path_mono(old_set, visited@.to_set(), root, old_seq[k], n0);
                            } else {
                                assert(visited@[k] == nb);
                                let ky = choose|ky: int|
                                    0 <= ky < old_seq.len() && old_seq[ky] == y;
                                assert(reach(old_set, root, y));
                                let n0 = choose|n0: nat| path(old_set, root, y, n0);
                                lemma_path_mono(old_set, visited@.to_set(), root, y, n0);
                                assert(visited@.to_set().contains(y));
                                lemma_path_step(visited@.to_set(), root, y, nb, n0);
                            }
                        }
                        assert(visited@.len() <= grows(gv) * gcols(gv)) by {
                            lemma_locs_len_bound(visited@, grows(gv), gcols(gv));
                        }
                    }
                }
            }
            step += 1;
        }
        proof {
            assert forall|x: Loc, z: Loc|
                visited@.to_set().contains(x) && !stack@.to_set().contains(x) && #[trigger] adj(
                    x,
                    z,
                ) && on_grid(gv, z) && at(gv, z) == c implies #[trigger] visited@.to_set().contains(
                z,
            ) by {
                if x == y {
                    assert(covered_dir(y, z, 4));
                }
            }
        }
    }
    proof {
        assert forall|x: Loc| visited@.to_set().contains(x) implies interior(gv, x) && at(gv, x)
            == c by {
            let k = choose|k: int| 0 <= k < visited@.len() && visited@[k] == x;
        }
        assert forall|x: Loc| visited@.to_set().contains(x) implies reach(
            visited@.to_set(),
            root,
            x,
        ) by {
            let k = choose|k: int| 0 <= k < visited@.len() && visited@[k] == x;
        }
        assert(visited@.to_set().contains(root));
        assert(is_group(gv, root, visited@.to_set()));
    }
    visited
}
/// The directions of `y`'s neighbours already handled after `step` of the
/// four scanning steps (up, down, left, right in that order).
pub open spec fn covered_dir(y: Loc, z: Loc, step: int) -> bool {
    ||| (step >= 1 && z.row + 1 == y.row && z.col == y.col)
    ||| (step >= 2 && z.row == y.row + 1 && z.col == y.col)
    ||| (step >= 3 && z.col + 1 == y.col && z.row == y.row)
    ||| (step >= 4 && z.col == y.col + 1 && z.row == y.row)
}

/// The group of `root`, listed in strictly increasing row-major order.
pub fn grid_group(g: &Vec<Vec<Color>>, root: Loc) -> (r: Vec<Loc>)
    requires
        grid_wf(gview(*g)),
        interior(gview(*g), root),
    ensures
        is_group(gview(*g), root, r@.to_set()),
        r@.no_duplicates(),
        sorted_locs(r@),
        group_of(gview(*g), root) == r@.to_set(),
{
    let ghost gv = gview(*g);
    let raw = flood(g, root);
    let ghost rawset = raw@.to_set();
    let mut out: Vec<Loc> = Vec::new();
    let rows = g.len();
    let cols = g[0].len();
    let mut row: usize = 1;
    while row < rows - 1
        invariant
            gv == gview(*g),
            grid_wf(gv),
            rows == grows(gv),
            cols == gcols(gv),
            1 <= row <= rows - 1,
            rawset == raw@.to_set(),
            is_group(gv, root, rawset),
            sorted_locs(out@),
            out@.to_set().subset_of(rawset),
            forall|x: Loc| rawset.contains(x) && x.row < row ==> out@.to_set().contains(x),
            forall|k: int| 0 <= k < out@.len() ==> (#[trigger] out@[k]).row < row,
        decreases rows - row,
    {
        let mut col: usize = 1;
        while col < cols - 1
            invariant
                gv == gview(*g),
                grid_wf(gv),
                rows == grows(gv),
                cols == gcols(gv),
                1 <= row < rows - 1,
                1 <= col <= cols - 1,
                rawset == raw@.to_set(),
                is_group(gv, root, rawset),
                sorted_locs(out@),
                out@.to_set().subset_of(rawset),
                forall|x: Loc|
                    rawset.contains(x) && (x.row < row || (x.row == row && x.col < col))
                        ==> out@.to_set().contains(x),
                forall|k: int|
                    0 <= k < out@.len() ==> (#[trigger] out@[k]).row < row || (out@[k].row == row
                        && out@[k].col < col),
            decreases cols - col,
        {
            let l = Loc { row, col };
            if locs_contain(&raw, l) {
                let ghost old_seq = out@;
                out.push(l);
                proof {
                    old_seq.lemma_push_to_set_commute(l);
                    assert(raw@.contains(l));
                    assert(rawset.contains(l));
                }
            }
            col += 1;
        }
        proof {
            assert forall|x: Loc| rawset.contains(x) && x.row < row + 1 implies out@.to_set()
                .contains(x) by {
                assert(interior(gv, x));
            }
        }
        row += 1;
    }
    proof {
        assert forall|x: Loc| rawset.contains(x) implies out@.to_set().contains(x) by {
            assert(interior(gv, x));
        }
        assert(out@.to_set() =~= rawset);
        assert(out@.no_duplicates());
        lemma_group_of(gv, root, rawset);
    }
    out
}

/// The liberties of a set of cells, listed in strictly increasing
/// row-major order.
pub fn grid_liberties(g: &Vec<Vec<Color>>, group: &Vec<Loc>) -> (r: Vec<Loc>)
    requires
        grid_wf(gview(*g)),
        forall|k: int| 0 <= k < group@.len() ==> on_grid(gview(*g), #[trigger] group@[k]),
    ensures
        r@.to_set() == libs(gview(*g), group@.to_set()),
        r@.no_duplicates(),
        sorted_locs(r@),
{
    let ghost gv = gview(*g);
    let ghost target = libs(gv, group@.to_set());
    let mut out: Vec<Loc> = Vec::new();
    let rows = g.len();
    let cols = g[0].len();
    let mut row: usize = 1;
    while row < rows - 1
        invariant
            gv == gview(*g),
            grid_wf(gv),
            rows == grows(gv),
            cols == gcols(gv),
            1 <= row <= rows - 1,
            target == libs(gv, group@.to_set()),
            forall|k: int| 0 <= k < group@.len() ==> on_grid(gv, #[trigger] group@[k]),
            sorted_locs(out@),
            out@.to_set().subset_of(target),
            forall|x: Loc| target.contains(x) && x.row < row ==> out@.to_set().contains(x),
            forall|k: int| 0 <= k < out@.len() ==> (#[trigger] out@[k]).row < row,
        decreases rows - row,
    {
        let mut col: usize = 1;
        while col < cols - 1
            invariant
                gv == gview(*g),
                grid_wf(gv),
                rows == grows(gv),
                cols == gcols(gv),
                1 <= row < rows - 1,
                1 <= col <= cols - 1,
                target == libs(gv, group@.to_set()),
                forall|k: int| 0 <= k < group@.len() ==> on_grid(gv, #[trigger] group@[k]),
                sorted_locs(out@),
                out@.to_set().subset_of(target),
                forall|x: Loc|
                    target.contains(x) && (x.row < row || (x.row == row && x.col < col))
                        ==> out@.to_set().contains(x),
                forall|k: int|
                    0 <= k < out@.len() ==> (#[trigger] out@[k]).row < row || (out@[k].row == row
                        && out@[k].col < col),
            decreases cols - col,
        {
            let l = Loc { row, col };
            let is_lib = cell_color(g, l) == Color::Empty && touches(group, l);
            if is_lib {
                let ghost old_seq = out@;
                out.push(l);
                proof {
                    old_seq.lemma_push_to_set_commute(l);
                    assert(target.contains(l));
                }
            }
            col += 1;
        }
        proof {
            assert forall|x: Loc| target.contains(x) && x.row < row + 1 implies out@.to_set()
                .contains(x) by {
                assert(at(gv, x) != Color::Invalid);
                assert(!on_border(gv, x.row as int, x.col as int));
            }
        }
        row += 1;
    }
    proof {
        assert forall|x: Loc| target.contains(x) implies out@.to_set().contains(x) by {
            assert(at(gv, x) != Color::Invalid);
            assert(!on_border(gv, x.row as int, x.col as int));
        }
        assert(out@.to_set() =~= target);
        assert(out@.no_duplicates());
    }
    out
}

/// The cells of colour `c` orthogonally adjacent to the given cells (and
/// outside them), listed in strictly increasing row-major order.
pub fn grid_adjacent_colored(g: &Vec<Vec<Color>>, group: &Vec<Loc>, c: Color) -> (r: Vec<Loc>)
    requires
        grid_wf(gview(*g)),
        c != Color::Invalid,
        forall|k: int| 0 <= k < group@.len() ==> on_grid(gview(*g), #[trigger] group@[k]),
    ensures
        r@.to_set() == adj_colored(gview(*g), group@.to_set(), c),
        r@.no_duplicates(),
        sorted_locs(r@),
{
    let ghost gv = gview(*g);
    let ghost target = adj_colored(gv, group@.to_set(), c);
    let mut out: Vec<Loc> = Vec::new();
    let rows = g.len();
    let cols = g[0].len();
    let mut row: usize = 1;
    while row < rows - 1
        invariant
            gv == gview(*g),
            grid_wf(gv),
            rows == grows(gv),
            cols == gcols(gv),
            c != Color::Invalid,
            1 <= row <= rows - 1,
            target == adj_colored(gv, group@.to_set(), c),
            forall|k: int| 0 <= k < group@.len() ==> on_grid(gv, #[trigger] group@[k]),
            sorted_locs(out@),
            out@.to_set().subset_of(target),
            forall|x: Loc| target.contains(x) && x.row < row ==> out@.to_set().contains(x),
            forall|k: int| 0 <= k < out@.len() ==> (#[trigger] out@[k]).row < row,
        decreases rows - row,
    {
        let mut col: usize = 1;
        while col < cols - 1
            invariant
                gv == gview(*g),
                grid_wf(gv),
                rows == grows(gv),
                cols == gcols(gv),
                c != Color::Invalid,
                1 <= row < rows - 1,
                1 <= col <= cols - 1,
                target == adj_colored(gv, group@.to_set(), c),
                forall|k: int| 0 <= k < group@.len() ==> on_grid(gv, #[trigger] group@[k]),
                sorted_locs(out@),
                out@.to_set().subset_of(target),
                forall|x: Loc|
                    target.contains(x) && (x.row < row || (x.row == row && x.col < col))
                        ==> out@.to_set().contains(x),
                forall|k: int|
                    0 <= k < out@.len() ==> (#[trigger] out@[k]).row < row || (out@[k].row == row
                        && out@[k].col < col),
            decreases cols - col,
        {
            let l = Loc { row, col };
            let hit = cell_color(g, l) == c && touches(group, l) && !locs_contain(group, l);
            if hit {
                let ghost old_seq = out@;
                out.push(l);
                proof {
                    old_seq.lemma_push_to_set_commute(l);
                    assert(target.contains(l));
                }
            }
            col += 1;
        }
        proof {
            assert forall|x: Loc| target.contains(x) && x.row < row + 1 implies out@.to_set()
                .contains(x) by {
                assert(at(gv, x) != Color::Invalid);
                assert(!on_border(gv, x.row as int, x.col as int));
            }
        }
        row += 1;
    }
    proof {
        assert forall|x: Loc| target.contains(x) implies out@.to_set().contains(x) by {
            assert(at(gv, x) != Color::Invalid);
            assert(!on_border(gv, x.row as int, x.col as int));
        }
        assert(out@.to_set() =~= target);
        assert(out@.no_duplicates());
    }
    out
}

/// 1 for a stone of either colour, 0 otherwise.
pub open spec fn stone(c: Color) -> int {
    if c == Color::Black || c == Color::White {
        1
    } else {
        0
    }
}

/// Number of stones among the first `j` cells of a row.
pub open spec fn row_stones_upto(r: Seq<Color>, j: int) -> int
    decreases j,
{
    if j <= 0 {
        0
    } else {
        row_stones_upto(r, j - 1) + stone(r[j - 1])
    }
}

/// Number of stones in a row.
pub open spec fn row_stones(r: Seq<Color>) -> int {
    row_stones_upto(r, r.len() as int)
}

/// Number of stones in the first `i` rows.
pub open spec fn grid_stones_upto(g: Seq<Seq<Color>>, i: int) -> int
    decreases i,
{
    if i <= 0 {
        0
    } else {
        grid_stones_upto(g, i - 1) + row_stones(g[i - 1])
    }
}

/// Number of stones on the whole grid.
pub open spec fn grid_stones(g: Seq<Seq<Color>>) -> int {
    grid_stones_upto(g, g.len() as int)
}

proof fn lemma_row_stones_nonneg(r: Seq<Color>, j: int)
    ensures
        0 <= row_stones_upto(r, j) <= if j >= 0 {
            j
        } else {
            0
        },
    decreases j,
{
    if j > 0 {
        lemma_row_stones_nonneg(r, j - 1);
    }
}

/// Grid stone counts are non-negative and bounded by the cell count.
pub proof fn lemma_grid_stones_nonneg(g: Seq<Seq<Color>>, i: int)
    requires
        forall|k: int| 0 <= k < g.len() ==> #[trigger] g[k].len() == gcols(g),
    ensures
        0 <= grid_stones_upto(g, i),
        0 <= i <= g.len() ==> grid_stones_upto(g, i) <= i * gcols(g),
    decreases i,
{
    if i > 0 {
        lemma_grid_stones_nonneg(g, i - 1);
        lemma_row_stones_nonneg(g[i - 1], g[i - 1].len() as int);
        if i <= g.len() {
            assert(g[i - 1].len() == gcols(g));
            assert((i - 1) * gcols(g) + gcols(g) == i * gcols(g)) by (nonlinear_arith);
        }
    }
}

proof fn lemma_row_stones_update(r: Seq<Color>, jcell: int, c: Color, j: int)
    requires
        0 <= jcell < r.len(),
        j <= r.len(),
    ensures
        row_stones_upto(r.update(jcell, c), j) == row_stones_upto(r, j) + if jcell < j {
            stone(c) - stone(r[jcell])
        } else {
            0
        },
    decreases j,
{
    if j > 0 {
        lemma_row_stones_update(r, jcell, c, j - 1);
    }
}

proof fn lemma_grid_stones_set_upto(g: Seq<Seq<Color>>, l: Loc, c: Color, i: int)
    requires
        l.row < g.len(),
        l.col < g[l.row as int].len(),
        i <= g.len(),
    ensures
        grid_stones_upto(g.update(l.row as int, g[l.row as int].update(l.col as int, c)), i)
            == grid_stones_upto(g, i) + if l.row < i {
            stone(c) - stone(at(g, l))
        } else {
            0
        },
    decreases i,
{
    let g2 = g.update(l.row as int, g[l.row as int].update(l.col as int, c));
    if i > 0 {
        lemma_grid_stones_set_upto(g, l, c, i - 1);
        if i - 1 == l.row {
            lemma_row_stones_update(g[l.row as int], l.col as int, c, g[l.row as int].len() as int);
            assert(g2[i - 1] == g[l.row as int].update(l.col as int, c));
        } else {
            assert(g2[i - 1] == g[i - 1]);
        }
    }
}

/// Writing one cell changes the stone count by the difference of the old
/// and new cell.
pub proof fn lemma_grid_stones_set(g: Seq<Seq<Color>>, l: Loc, c: Color)
    requires
        l.row < g.len(),
        l.col < g[l.row as int].len(),
    ensures
        grid_stones(g.update(l.row as int, g[l.row as int].update(l.col as int, c)))
            == grid_stones(g) + stone(c) - stone(at(g, l)),
{
    lemma_grid_stones_set_upto(g, l, c, g.len() as int);
}

} // verus!
