//! The mathematical model of a board: cells, adjacency, chains of stones and
//! their liberties, with the facts about them that the move rules rest on.

use crate::go::Player;
use vstd::prelude::*;
use vstd::relations::injective_on;
use vstd::set_lib::{lemma_int_range, lemma_map_size, lemma_set_disjoint_lens, set_int_range};

verus! {

/// A cell of the grid, as (column, row).
pub type Cell = (int, int);

/// The contents of a board: `g[x][y]` is the stone at column `x`, row `y`.
pub type Grid = Seq<Seq<Option<Player>>>;

/// Every column is as long as the grid is wide.
pub open spec fn square(g: Grid) -> bool {
    forall|x: int| 0 <= x < g.len() ==> (#[trigger] g[x]).len() == g.len()
}

/// The grid of side `n` with no stone on it.
pub open spec fn empty_grid(n: nat) -> Grid {
    Seq::new(n, |x: int| Seq::new(n, |y: int| None))
}

/// `c` lies within the grid.
pub open spec fn on_board(g: Grid, c: Cell) -> bool {
    0 <= c.0 < g.len() && 0 <= c.1 < g[c.0].len()
}

/// The stone at `c`; nothing outside the grid.
pub open spec fn stone(g: Grid, c: Cell) -> Option<Player> {
    if on_board(g, c) {
        g[c.0][c.1]
    } else {
        None
    }
}

/// Two cells share an edge.
pub open spec fn adjacent(a: Cell, b: Cell) -> bool {
    ||| a.0 == b.0 && (a.1 == b.1 + 1 || a.1 + 1 == b.1)
    ||| a.1 == b.1 && (a.0 == b.0 + 1 || a.0 + 1 == b.0)
}

/// `c` if it lies within a grid of side `n`, as a sequence of at most one cell.
pub open spec fn within(n: int, c: Cell) -> Seq<Cell> {
    if 0 <= c.0 < n && 0 <= c.1 < n {
        seq![c]
    } else {
        Seq::empty()
    }
}

/// The cells of a grid of side `n` that share an edge with `c`: left, right, up, down.
pub open spec fn neighbours(n: int, c: Cell) -> Seq<Cell> {
    within(n, (c.0 - 1, c.1)) + within(n, (c.0 + 1, c.1)) + within(n, (c.0, c.1 - 1)) + within(
        n,
        (c.0, c.1 + 1),
    )
}

/// `path` walks from cell to adjacent cell over stones of one colour.
pub open spec fn is_chain_path(g: Grid, path: Seq<Cell>) -> bool {
    &&& path.len() > 0
    &&& stone(g, path[0]) is Some
    &&& forall|i: int| 0 <= i < path.len() ==> stone(g, #[trigger] path[i]) == stone(g, path[0])
    &&& forall|i: int| 0 <= i < path.len() - 1 ==> adjacent(#[trigger] path[i], path[i + 1])
}

/// `path` is a walk over stones of one colour from `a` to `b`.
pub open spec fn joins(g: Grid, path: Seq<Cell>, a: Cell, b: Cell) -> bool {
    is_chain_path(g, path) && path[0] == a && path[path.len() - 1] == b
}

/// `a` and `b` hold stones of one chain: same colour, connected by adjacency.
pub open spec fn same_chain(g: Grid, a: Cell, b: Cell) -> bool {
    exists|path: Seq<Cell>| joins(g, path, a, b)
}

/// The chain (group) of the stone at `a`; empty where `a` holds no stone.
pub open spec fn chain(g: Grid, a: Cell) -> Set<Cell> {
    Set::new(|b: Cell| same_chain(g, a, b))
}

/// `l` is an empty cell of the grid next to `s`.
pub open spec fn free_next_to(g: Grid, s: Cell, l: Cell) -> bool {
    adjacent(s, l) && on_board(g, l) && stone(g, l) is None
}

/// The empty cells next to any of `cells`.
pub open spec fn liberties(g: Grid, cells: Set<Cell>) -> Set<Cell> {
    Set::new(|l: Cell| exists|s: Cell| cells.contains(s) && free_next_to(g, s, l))
}

/// The chain of the stone at `a` has at least one liberty.
pub open spec fn has_liberty(g: Grid, a: Cell) -> bool {
    exists|l: Cell| liberties(g, chain(g, a)).contains(l)
}

/// No chain on the board is without a liberty.
pub open spec fn settled(g: Grid) -> bool {
    forall|c: Cell| stone(g, c) is Some ==> #[trigger] has_liberty(g, c)
}

/// The grid with the cells of `s` emptied.
pub open spec fn cleared(g: Grid, s: Set<Cell>) -> Grid {
    Seq::new(
        g.len(),
        |x: int|
            Seq::new(
                g[x].len(),
                |y: int|
                    if s.contains((x, y)) {
                        None
                    } else {
                        g[x][y]
                    },
            ),
    )
}

/// The grid with the cell `c` set to `v`.
pub open spec fn with_cell(g: Grid, c: Cell, v: Option<Player>) -> Grid {
    g.update(c.0, g[c.0].update(c.1, v))
}

/// All cells of a grid of side `n`.
pub open spec fn all_cells(n: int) -> Set<Cell> {
    Set::new(|c: Cell| 0 <= c.0 < n && 0 <= c.1 < n)
}

/// The neighbours of a cell are the cells of the grid that share an edge with
/// it, each once.
pub proof fn lemma_neighbours(n: int, c: Cell)
    ensures
        neighbours(n, c).len() <= 4,
        neighbours(n, c).no_duplicates(),
        forall|d: Cell|
            neighbours(n, c).contains(d) <==> (adjacent(c, d) && 0 <= d.0 < n && 0 <= d.1 < n),
{
    let s = neighbours(n, c);
    assert forall|d: Cell| adjacent(c, d) && 0 <= d.0 < n && 0 <= d.1 < n implies s.contains(
        d,
    ) by {
        let a = within(n, (c.0 - 1, c.1));
        let b = within(n, (c.0 + 1, c.1));
        let u = within(n, (c.0, c.1 - 1));
        if d == (c.0 - 1, c.1) {
            assert(s[0] == d);
        } else if d == (c.0 + 1, c.1) {
            assert(s[a.len() as int] == d);
        } else if d == (c.0, c.1 - 1) {
            assert(s[(a.len() + b.len()) as int] == d);
        } else {
            assert(d == (c.0, c.1 + 1));
            assert(s[(a.len() + b.len() + u.len()) as int] == d);
        }
    }
}

/// A stone is in its own chain.
pub proof fn lemma_chain_refl(g: Grid, a: Cell)
    requires
        stone(g, a) is Some,
    ensures
        same_chain(g, a, a),
{
    assert(joins(g, seq![a], a, a));
}

/// Stones of one chain have one colour and lie on the board.
pub proof fn lemma_chain_colour(g: Grid, a: Cell, b: Cell)
    requires
        same_chain(g, a, b),
    ensures
        stone(g, a) is Some,
        stone(g, b) == stone(g, a),
        on_board(g, a),
        on_board(g, b),
{
    let path = choose|path: Seq<Cell>| joins(g, path, a, b);
    assert(stone(g, path[path.len() - 1]) == stone(g, path[0]));
}

/// A chain takes in every adjacent stone of its colour.
pub proof fn lemma_chain_step(g: Grid, a: Cell, b: Cell, c: Cell)
    requires
        same_chain(g, a, b),
        adjacent(b, c),
        stone(g, c) == stone(g, a),
    ensures
        same_chain(g, a, c),
{
    let path = choose|path: Seq<Cell>| joins(g, path, a, b);
    let longer = path.push(c);
    assert forall|i: int| 0 <= i < longer.len() implies stone(g, #[trigger] longer[i]) == stone(
        g,
        longer[0],
    ) by {
        if i < path.len() {
            assert(longer[i] == path[i]);
        }
    }
    assert forall|i: int| 0 <= i < longer.len() - 1 implies adjacent(
        #[trigger] longer[i],
        longer[i + 1],
    ) by {
        if i < path.len() - 1 {
            assert(longer[i] == path[i]);
            assert(longer[i + 1] == path[i + 1]);
        }
    }
    assert(joins(g, longer, a, c));
}

/// Being of one chain goes both ways.
pub proof fn lemma_chain_sym(g: Grid, a: Cell, b: Cell)
    requires
        same_chain(g, a, b),
    ensures
        same_chain(g, b, a),
{
    let path = choose|path: Seq<Cell>| joins(g, path, a, b);
    let back = Seq::new(path.len(), |i: int| path[path.len() - 1 - i]);
    assert(stone(g, path[path.len() - 1]) == stone(g, path[0]));
    assert forall|i: int| 0 <= i < back.len() implies stone(g, #[trigger] back[i]) == stone(
        g,
        back[0],
    ) by {
        assert(stone(g, path[path.len() - 1 - i]) == stone(g, path[0]));
    }
    assert forall|i: int| 0 <= i < back.len() - 1 implies adjacent(
        #[trigger] back[i],
        back[i + 1],
    ) by {
        let j = path.len() - 2 - i;
        assert(adjacent(path[j], path[j + 1]));
    }
    assert(joins(g, back, b, a));
}

/// Being of one chain carries over from stone to stone.
pub proof fn lemma_chain_trans(g: Grid, a: Cell, b: Cell, c: Cell)
    requires
        same_chain(g, a, b),
        same_chain(g, b, c),
    ensures
        same_chain(g, a, c),
{
    let p = choose|path: Seq<Cell>| joins(g, path, a, b);
    let q = choose|path: Seq<Cell>| joins(g, path, b, c);
    let r = p + q.subrange(1, q.len() as int);
    assert(stone(g, p[p.len() - 1]) == stone(g, p[0]));
    assert forall|i: int| 0 <= i < r.len() implies stone(g, #[trigger] r[i]) == stone(g, r[0]) by {
        if i < p.len() {
            assert(r[i] == p[i]);
        } else {
            assert(r[i] == q[i - p.len() + 1]);
        }
    }
    assert forall|i: int| 0 <= i < r.len() - 1 implies adjacent(#[trigger] r[i], r[i + 1]) by {
        if i < p.len() - 1 {
            assert(r[i] == p[i]);
            assert(r[i + 1] == p[i + 1]);
        } else if i == p.len() - 1 {
            assert(r[i] == q[0]);
            assert(r[i + 1] == q[1]);
            assert(adjacent(q[0int], q[0int + 1]));
        } else {
            let j = i - p.len() + 1;
            assert(r[i] == q[j]);
            assert(r[i + 1] == q[j + 1]);
        }
    }
    if q.len() == 1 {
        assert(r =~= p);
    } else {
        assert(r[r.len() - 1] == q[q.len() - 1]);
    }
    assert(joins(g, r, a, c));
}

/// A walk stays a walk on any grid that holds the same stones along it.
pub proof fn lemma_path_frame(g: Grid, h: Grid, path: Seq<Cell>)
    requires
        is_chain_path(g, path),
        forall|i: int| 0 <= i < path.len() ==> stone(h, #[trigger] path[i]) == stone(g, path[i]),
    ensures
        is_chain_path(h, path),
{
    assert forall|i: int| 0 <= i < path.len() implies stone(h, #[trigger] path[i]) == stone(
        h,
        path[0],
    ) by {
        assert(stone(g, path[i]) == stone(g, path[0]));
    }
}

/// `s` takes in every stone of the given colour that is next to one of its cells.
pub open spec fn takes_in_neighbours(g: Grid, s: Set<Cell>, colour: Option<Player>) -> bool {
    forall|c: Cell, d: Cell|
        s.contains(c) && #[trigger] adjacent(c, d) && stone(g, d) == colour ==> s.contains(d)
}

/// A set of cells that holds `a` and takes in the neighbours of `a`'s colour
/// holds the whole chain of `a`.
pub proof fn lemma_closed_holds_chain(g: Grid, s: Set<Cell>, a: Cell, b: Cell)
    requires
        s.contains(a),
        takes_in_neighbours(g, s, stone(g, a)),
        same_chain(g, a, b),
    ensures
        s.contains(b),
{
    let path = choose|path: Seq<Cell>| joins(g, path, a, b);
    lemma_closed_holds_path(g, s, path, path.len() - 1);
}

/// Such a set holds every cell of a walk that starts in it.
proof fn lemma_closed_holds_path(g: Grid, s: Set<Cell>, path: Seq<Cell>, i: int)
    requires
        is_chain_path(g, path),
        s.contains(path[0]),
        takes_in_neighbours(g, s, stone(g, path[0])),
        0 <= i < path.len(),
    ensures
        s.contains(path[i]),
    decreases i,
{
    if i > 0 {
        lemma_closed_holds_path(g, s, path, i - 1);
        assert(adjacent(path[i - 1], path[i - 1 + 1]));
        assert(stone(g, path[i]) == stone(g, path[0]));
    }
}

/// The stone at `s` is of `a`'s chain and `l` is a liberty next to it.
pub proof fn lemma_liberty_intro(g: Grid, a: Cell, s: Cell, l: Cell)
    requires
        same_chain(g, a, s),
        free_next_to(g, s, l),
    ensures
        has_liberty(g, a),
{
    assert(chain(g, a).contains(s));
    assert(liberties(g, chain(g, a)).contains(l));
}

/// A chain with a liberty has a stone with an empty cell next to it.
pub proof fn lemma_liberty_elim(g: Grid, a: Cell) -> (found: (Cell, Cell))
    requires
        has_liberty(g, a),
    ensures
        same_chain(g, a, found.0),
        free_next_to(g, found.0, found.1),
{
    let l = choose|l: Cell| liberties(g, chain(g, a)).contains(l);
    let s = choose|s: Cell| chain(g, a).contains(s) && free_next_to(g, s, l);
    (s, l)
}

/// Stones of one chain have the same liberties.
pub proof fn lemma_liberty_shared(g: Grid, a: Cell, b: Cell)
    requires
        same_chain(g, a, b),
        has_liberty(g, a),
    ensures
        has_liberty(g, b),
{
    let (s, l) = lemma_liberty_elim(g, a);
    lemma_chain_sym(g, a, b);
    lemma_chain_trans(g, b, a, s);
    lemma_liberty_intro(g, b, s, l);
}

/// Clearing cells empties them and leaves all else as it was.
pub proof fn lemma_cleared(g: Grid, s: Set<Cell>)
    ensures
        cleared(g, s).len() == g.len(),
        square(g) ==> square(cleared(g, s)),
        forall|c: Cell| #[trigger] on_board(cleared(g, s), c) == on_board(g, c),
        forall|c: Cell|
            #[trigger] stone(cleared(g, s), c) == (if s.contains(c) {
                None
            } else {
                stone(g, c)
            }),
{
}

/// Setting a cell of the board changes that cell and leaves all else as it was.
pub proof fn lemma_with_cell(g: Grid, p: Cell, v: Option<Player>)
    requires
        on_board(g, p),
    ensures
        with_cell(g, p, v).len() == g.len(),
        square(g) ==> square(with_cell(g, p, v)),
        forall|c: Cell| #[trigger] on_board(with_cell(g, p, v), c) == on_board(g, c),
        forall|c: Cell|
            #[trigger] stone(with_cell(g, p, v), c) == (if c == p {
                v
            } else {
                stone(g, c)
            }),
{
}

/// `s` is made of whole chains of `colour`: stones of that colour, with every
/// stone of that colour next to them.
pub open spec fn whole_chains(g: Grid, s: Set<Cell>, colour: Player) -> bool {
    &&& forall|c: Cell| s.contains(c) ==> stone(g, c) == Some(colour)
    &&& takes_in_neighbours(g, s, Some(colour))
}

/// A walk that starts outside whole chains never enters them.
proof fn lemma_path_avoids(g: Grid, s: Set<Cell>, colour: Player, path: Seq<Cell>, i: int)
    requires
        is_chain_path(g, path),
        whole_chains(g, s, colour),
        !s.contains(path[0]),
        0 <= i < path.len(),
    ensures
        !s.contains(path[i]),
    decreases i,
{
    if i > 0 {
        lemma_path_avoids(g, s, colour, path, i - 1);
        if s.contains(path[i]) {
            assert(adjacent(path[i - 1], path[i - 1 + 1]));
            assert(adjacent(path[i], path[i - 1]));
            assert(stone(g, path[i]) == stone(g, path[0]));
            assert(stone(g, path[i - 1]) == stone(g, path[0]));
        }
    }
}

/// Taking whole chains off the board leaves every other chain as it was.
pub proof fn lemma_clearing_keeps_chain(g: Grid, s: Set<Cell>, colour: Player, a: Cell, b: Cell)
    requires
        whole_chains(g, s, colour),
        !s.contains(a),
    ensures
        same_chain(cleared(g, s), a, b) == same_chain(g, a, b),
{
    let h = cleared(g, s);
    lemma_cleared(g, s);
    if same_chain(g, a, b) {
        let path = choose|path: Seq<Cell>| joins(g, path, a, b);
        assert forall|i: int| 0 <= i < path.len() implies stone(h, #[trigger] path[i]) == stone(
            g,
            path[i],
        ) by {
            lemma_path_avoids(g, s, colour, path, i);
        }
        lemma_path_frame(g, h, path);
        assert(joins(h, path, a, b));
    }
    if same_chain(h, a, b) {
        let path = choose|path: Seq<Cell>| joins(h, path, a, b);
        assert forall|i: int| 0 <= i < path.len() implies stone(g, #[trigger] path[i]) == stone(
            h,
            path[i],
        ) by {
            assert(stone(h, path[i]) == stone(h, path[0]));
        }
        lemma_path_frame(h, g, path);
        assert(joins(g, path, a, b));
    }
}

/// Taking whole chains off the board takes no liberty from any other chain.
pub proof fn lemma_clearing_keeps_liberty(g: Grid, s: Set<Cell>, colour: Player, a: Cell)
    requires
        whole_chains(g, s, colour),
        !s.contains(a),
        has_liberty(g, a),
    ensures
        has_liberty(cleared(g, s), a),
{
    let (t, l) = lemma_liberty_elim(g, a);
    lemma_clearing_keeps_chain(g, s, colour, a, t);
    lemma_cleared(g, s);
    lemma_liberty_intro(cleared(g, s), a, t, l);
}

/// Taking whole chains off the board gives no liberty to another chain of
/// their colour.
pub proof fn lemma_clearing_adds_no_liberty(g: Grid, s: Set<Cell>, colour: Player, a: Cell)
    requires
        whole_chains(g, s, colour),
        !s.contains(a),
        stone(g, a) == Some(colour),
        has_liberty(cleared(g, s), a),
    ensures
        has_liberty(g, a),
{
    let h = cleared(g, s);
    let (t, l) = lemma_liberty_elim(h, a);
    lemma_clearing_keeps_chain(g, s, colour, a, t);
    lemma_cleared(g, s);
    if s.contains(l) {
        lemma_chain_colour(g, a, t);
        lemma_chain_step(g, a, t, l);
        lemma_chain_sym(g, a, l);
        lemma_closed_holds_chain(g, s, l, a);
    }
    lemma_liberty_intro(g, a, t, l);
}

/// The cells of the first `k` columns of a grid of side `n`.
pub open spec fn columns_below(k: int, n: int) -> Set<Cell> {
    Set::new(|c: Cell| 0 <= c.0 < k && 0 <= c.1 < n)
}

/// The first `k` columns hold `k * n` cells.
proof fn lemma_columns_below(k: int, n: int)
    requires
        0 <= k,
        0 <= n,
    ensures
        columns_below(k, n).finite(),
        columns_below(k, n).len() == k * n,
    decreases k,
{
    if k == 0 {
        assert(columns_below(k, n) =~= Set::empty());
    } else {
        lemma_columns_below(k - 1, n);
        let column = Set::new(|c: Cell| c.0 == k - 1 && 0 <= c.1 < n);
        let rows = set_int_range(0, n);
        let at = |y: int| (k - 1, y);
        lemma_int_range(0, n);
        assert(rows.map(at) =~= column) by {
            assert forall|c: Cell| column.contains(c) implies rows.map(at).contains(c) by {
                assert(rows.contains(c.1) && at(c.1) == c);
            }
        }
        assert(injective_on(at, rows));
        lemma_map_size(rows, column, at);
        assert(columns_below(k, n) =~= columns_below(k - 1, n).union(column));
        lemma_set_disjoint_lens(columns_below(k - 1, n), column);
        assert((k - 1) * n + n == k * n) by (nonlinear_arith);
    }
}

/// A grid of side `n` has `n * n` cells.
pub proof fn lemma_all_cells(n: int)
    requires
        0 <= n,
    ensures
        all_cells(n).finite(),
        all_cells(n).len() == n * n,
{
    lemma_columns_below(n, n);
    assert(all_cells(n) =~= columns_below(n, n));
}

} // verus!
