//! Move legality and application: picking a run, the maximum-run formula,
//! and the one verified entry point `try_move` that plays a whole turn.

use vstd::prelude::*;
use crate::card::blank;
use crate::card::spec_can_move;
use crate::card::spec_can_move_to_foundation;
use crate::card::can_move;
use crate::card::can_move_to_foundation;
use crate::card::is_blank;
use crate::board::Board;
use crate::board::blank_token;
use crate::board::column_cards;
use crate::board::cards_in_first;
use vstd::multiset::Multiset;

verus! {

/// The run picked at (col, row): the column's suffix from `row` upward,
/// except that a pick in the row-0 slot takes that single card.
pub open spec fn spec_run(b: Board, col: int, row: int) -> Seq<Seq<char>> {
    if row == 0 {
        seq![b.tok(col, 0)]
    } else {
        b.grid()[col].skip(row)
    }
}

/// A run moves as a block only if each card goes on the one beneath it:
/// ranks descend by one with alternating colours at every adjacent pair.
pub open spec fn spec_run_valid(run: Seq<Seq<char>>) -> bool {
    forall|i: int| 1 <= i < run.len() ==> #[trigger] spec_can_move(run[i], run[i - 1])
}

/// A pick at (col, row) selects a card the player may lift: inside the
/// column, not a foundation slot (row 0 of columns 4 to 7), and not blank.
pub open spec fn spec_pick_ok(b: Board, col: int, row: int) -> bool {
    &&& 0 <= col < 8
    &&& 0 <= row < b.col_len(col)
    &&& !(col > 3 && row == 0)
    &&& b.tok(col, row) != blank()
}

/// Free cells among the first `n` of columns 0 to 3: blank row-0 slots.
pub open spec fn count_free_cells(b: Board, n: int) -> int
    decreases n,
{
    if n <= 0 {
        0
    } else {
        count_free_cells(b, n - 1) + (if b.tok(n - 1, 0) == blank() {
            1int
        } else {
            0int
        })
    }
}

/// Empty cascades among the first `n` columns: nothing above the row-0 slot.
pub open spec fn count_empty_cascades(b: Board, n: int) -> int
    decreases n,
{
    if n <= 0 {
        0
    } else {
        count_empty_cascades(b, n - 1) + (if b.col_len(n - 1) == 1 {
            1int
        } else {
            0int
        })
    }
}

/// The longest run that may relocate when the destination is `place_col`:
/// `1 + f + e * (f + 1)` with `f` free cells and `e` empty cascades, where
/// an empty destination does not count as staging space (each empty cascade
/// otherwise multiplies the parked capacity, the classic supermove rule).
pub open spec fn spec_max_run(b: Board, place_col: int) -> int {
    let f = count_free_cells(b, 4);
    let e = count_empty_cascades(b, 8);
    1 + f + e * (f + 1) - (if b.col_len(place_col) == 1 {
        f + 1
    } else {
        0int
    })
}

/// Both counters are between 0 and `n`.
proof fn lemma_count_bounds(b: Board, n: int)
    requires
        0 <= n,
    ensures
        0 <= count_free_cells(b, n) <= n,
        0 <= count_empty_cascades(b, n) <= n,
    decreases n,
{
    if n > 0 {
        lemma_count_bounds(b, n - 1);
    }
}

/// A column that is empty among the first `n` makes the counter positive.
proof fn lemma_count_empty_positive(b: Board, c: int, n: int)
    requires
        0 <= c < n,
        b.col_len(c) == 1,
    ensures
        count_empty_cascades(b, n) >= 1,
    decreases n,
{
    lemma_count_bounds(b, n - 1);
    if c < n - 1 {
        lemma_count_empty_positive(b, c, n - 1);
    }
}

/// Number of free cells on the board.
pub fn free_cells(b: &Board) -> (n: usize)
    requires
        b.wf(),
    ensures
        n == count_free_cells(*b, 4),
        n <= 4,
{
    let mut n: usize = 0;
    let mut i: usize = 0;
    while i < 4
        invariant
            b.wf(),
            i <= 4,
            n == count_free_cells(*b, i as int),
            n <= i,
        decreases 4 - i,
    {
        proof {
            assert(b.tok(i as int, 0).len() == 3);
        }
        if is_blank(b.cascades[i][0].as_str()) {
            n = n + 1;
        }
        i = i + 1;
    }
    n
}

/// Number of empty cascades on the board.
pub fn empty_cascades(b: &Board) -> (n: usize)
    requires
        b.wf(),
    ensures
        n == count_empty_cascades(*b, 8),
        n <= 8,
{
    let mut n: usize = 0;
    let mut i: usize = 0;
    while i < 8
        invariant
            b.wf(),
            i <= 8,
            n == count_empty_cascades(*b, i as int),
            n <= i,
        decreases 8 - i,
    {
        if b.cascades[i].len() == 1 {
            n = n + 1;
        }
        i = i + 1;
    }
    n
}

/// The longest run that may move to `place_col` under restricted movement,
/// by the supermove formula.
pub fn max_run_len(b: &Board, place_col: usize) -> (m: usize)
    requires
        b.wf(),
        place_col < 8,
    ensures
        m == spec_max_run(*b, place_col as int),
        m >= 1,
{
    let f = free_cells(b);
    let e = empty_cascades(b);
    proof {
        assert((e as int) * (f as int + 1) <= 40) by (nonlinear_arith)
            requires
                e <= 8,
                f <= 4,
        ;
    }
    let base = 1 + f + e * (f + 1);
    if b.cascades[place_col].len() == 1 {
        proof {
            lemma_count_empty_positive(*b, place_col as int, 8);
            assert((e as int) * (f as int + 1) >= f as int + 1) by (nonlinear_arith)
                requires
                    e >= 1,
            ;
        }
        base - (f + 1)
    } else {
        base
    }
}

/// A candidate run, bottom card first, is internally valid: each card may
/// go on the one before it.
pub fn run_is_valid(run: &Vec<String>) -> (r: bool)
    requires
        forall|i: int| 0 <= i < run@.len() ==> ((#[trigger] run@[i])@).len() == 3,
    ensures
        r == spec_run_valid(run@.map_values(|s: String| s@)),
{
    let ghost rv = run@.map_values(|s: String| s@);
    let n = run.len();
    let mut i: usize = 1;
    while i < n
        invariant
            1 <= i,
            i <= n || n == 0,
            n == run@.len(),
            rv == run@.map_values(|s: String| s@),
            forall|i2: int| 0 <= i2 < run@.len() ==> ((#[trigger] run@[i2])@).len() == 3,
            forall|k: int| 1 <= k < i ==> #[trigger] spec_can_move(rv[k], rv[k - 1]),
        decreases n - i,
    {
        if !can_move(run[i].as_str(), run[i - 1].as_str()) {
            proof {
                assert(rv[i as int] == run@[i as int]@);
                assert(rv[i as int - 1] == run@[i as int - 1]@);
                assert(!spec_can_move(rv[i as int], rv[i as int - 1]));
            }
            return false;
        }
        i = i + 1;
    }
    proof {
        assert(forall|k: int| 1 <= k < rv.len() ==> #[trigger] spec_can_move(rv[k], rv[k - 1]));
    }
    true
}

/// Whether a pick at (col, row) selects a card the player may lift.
pub fn pick_is_valid(b: &Board, col: usize, row: usize) -> (r: bool)
    requires
        b.wf(),
        col < 8,
    ensures
        r == spec_pick_ok(*b, col as int, row as int),
{
    if row >= b.cascades[col].len() {
        return false;
    }
    if col > 3 && row == 0 {
        return false;
    }
    proof {
        assert(b.tok(col as int, row as int).len() == 3);
    }
    !is_blank(b.cascades[col][row].as_str())
}

/// A top-row destination accepts the run: a single card moving onto an
/// empty free cell (columns 0 to 3), or onto a foundation pile (columns 4
/// to 7) whose ascending run it continues. An occupied free cell refuses
/// every card.
pub open spec fn spec_top_accepts(b: Board, run: Seq<Seq<char>>, place_col: int) -> bool {
    run.len() == 1 && ((place_col < 4 && b.tok(place_col, 0) == blank()) || (place_col >= 4
        && spec_can_move_to_foundation(run[0], b.tok(place_col, 0))))
}

/// A cascade destination accepts the run: an empty column takes anything,
/// otherwise the run's first card must go on the column's top card.
pub open spec fn spec_cascade_accepts(b: Board, run: Seq<Seq<char>>, place_col: int) -> bool {
    b.col_len(place_col) == 1 || spec_can_move(run[0], b.tok(place_col, b.col_len(place_col) - 1))
}

/// One whole turn is accepted: a valid pick, an internally valid run, run
/// length within the supermove bound when movement is restricted, and a
/// destination that accepts the run. The confirmed slot decides: a move
/// aimed at the top row stands or falls with the top-row rule, one aimed
/// below with the cascade rule.
pub open spec fn spec_move_accepted(
    b: Board,
    pick_col: int,
    pick_row: int,
    place_col: int,
    to_top_row: bool,
    restrict: bool,
) -> bool {
    let run = spec_run(b, pick_col, pick_row);
    &&& spec_pick_ok(b, pick_col, pick_row)
    &&& spec_run_valid(run)
    &&& (restrict ==> run.len() <= spec_max_run(b, place_col))
    &&& (if to_top_row {
        spec_top_accepts(b, run, place_col)
    } else {
        spec_cascade_accepts(b, run, place_col)
    })
}

/// The grid after the picked run leaves its column: a row-0 pick blanks the
/// slot, a cascade pick truncates the column at the pick row.
pub open spec fn spec_detach(cs: Seq<Seq<Seq<char>>>, pick_col: int, pick_row: int) -> Seq<
    Seq<Seq<char>>,
> {
    if pick_row == 0 {
        cs.update(pick_col, cs[pick_col].update(0, blank()))
    } else {
        cs.update(pick_col, cs[pick_col].take(pick_row))
    }
}

/// The grid after an accepted move: the run leaves its column, then either
/// its single card replaces the destination's row-0 slot (top-row move) or
/// the whole run goes onto the destination column's end, in order.
pub open spec fn spec_apply(
    b: Board,
    pick_col: int,
    pick_row: int,
    place_col: int,
    to_top_row: bool,
) -> Seq<Seq<Seq<char>>> {
    let run = spec_run(b, pick_col, pick_row);
    let cs = spec_detach(b.grid(), pick_col, pick_row);
    if to_top_row {
        cs.update(place_col, cs[place_col].update(0, run[0]))
    } else {
        cs.update(place_col, cs[place_col] + run)
    }
}

/// The supermove bound, in product form: with `f` free cells and `u`
/// usable empty cascades (an empty destination is not usable), a run of up
/// to exactly `(1 + f) * (1 + u)` cards may move. With no free cells and no
/// usable empty cascade only a single card moves; each free cell raises the
/// bound additively within a factor, and each usable empty cascade
/// multiplies it.
pub proof fn lemma_supermove_product(b: Board, place_col: int)
    requires
        0 <= place_col < 8,
    ensures
        spec_max_run(b, place_col) == (1 + count_free_cells(b, 4)) * (1 + count_empty_cascades(
            b,
            8,
        ) - (if b.col_len(place_col) == 1 {
            1int
        } else {
            0int
        })),
        count_free_cells(b, 4) == 0 && count_empty_cascades(b, 8) == (if b.col_len(place_col)
            == 1 {
            1int
        } else {
            0int
        }) ==> spec_max_run(b, place_col) == 1,
{
    let f = count_free_cells(b, 4);
    let e = count_empty_cascades(b, 8);
    let d = if b.col_len(place_col) == 1 {
        1int
    } else {
        0int
    };
    let u = e - d;
    assert(u * (f + 1) == e * (f + 1) - d * (f + 1)) by (nonlinear_arith)
        requires
            u == e - d,
    ;
    assert((1 + f) * (1 + u) == 1 + f + u * (f + 1)) by (nonlinear_arith);
}

/// An accepted move preserves well-formedness: the applied grid still has
/// eight columns, none lacking its row-0 slot, all tokens three characters.
proof fn lemma_apply_wf(b0: Board, pc: int, pr: int, dc: int, ttr: bool)
    requires
        b0.wf(),
        spec_pick_ok(b0, pc, pr),
        0 <= dc < 8,
    ensures
        spec_apply(b0, pc, pr, dc, ttr).len() == 8,
        forall|ii: int|
            0 <= ii < 8 ==> (#[trigger] spec_apply(b0, pc, pr, dc, ttr)[ii]).len() >= 1,
        forall|ii: int, kk: int|
            0 <= ii < 8 && 0 <= kk < spec_apply(b0, pc, pr, dc, ttr)[ii].len() ==> (
            #[trigger] spec_apply(b0, pc, pr, dc, ttr)[ii][kk]).len() == 3,
{
    let g = spec_apply(b0, pc, pr, dc, ttr);
    let run = spec_run(b0, pc, pr);
    let cs = spec_detach(b0.grid(), pc, pr);
    assert(blank().len() == 3);
    assert forall|kk: int| 0 <= kk < b0.grid().len() implies (#[trigger] b0.grid()[kk]).len()
        == b0.cascades@[kk]@.len() by {}
    assert forall|ii: int, kk: int|
        0 <= ii < 8 && 0 <= kk < b0.grid()[ii].len() implies (#[trigger] b0.grid()[ii][kk]).len()
        == 3 by {
        assert(b0.grid()[ii][kk] == b0.tok(ii, kk));
    }
    assert forall|k: int| 0 <= k < run.len() implies (#[trigger] run[k]).len() == 3 by {
        if pr == 0 {
            assert(run[k] == b0.tok(pc, 0));
        } else {
            assert(run[k] == b0.grid()[pc][pr + k]);
        }
    }
    assert forall|ii: int, kk: int|
        0 <= ii < 8 && 0 <= kk < cs[ii].len() implies (#[trigger] cs[ii][kk]).len() == 3 by {
        if ii == pc {
            if pr == 0 {
                if kk != 0 {
                    assert(cs[ii][kk] == b0.grid()[pc][kk]);
                }
            } else {
                assert(cs[ii][kk] == b0.grid()[pc][kk]);
            }
        } else {
            assert(cs[ii][kk] == b0.grid()[ii][kk]);
        }
    }
    assert forall|ii: int, kk: int|
        0 <= ii < 8 && 0 <= kk < g[ii].len() implies (#[trigger] g[ii][kk]).len() == 3 by {
        if ii == dc {
            if ttr {
                if kk != 0 {
                    assert(g[ii][kk] == cs[dc][kk]);
                }
            } else {
                if kk < cs[dc].len() {
                    assert(g[ii][kk] == cs[dc][kk]);
                } else {
                    assert(g[ii][kk] == run[kk - cs[dc].len()]);
                }
            }
        } else {
            assert(g[ii][kk] == cs[ii][kk]);
        }
    }
}

/// A move never invents or loses a card. A run moved to a cascade end or a
/// card moved onto an empty free cell leaves the board's cards unchanged; a
/// card moved onto a foundation covers exactly the pile's old top card,
/// which leaves the board. (A card confirmed on an occupied free cell is
/// refused outright, so nothing is ever lost there.)
pub proof fn lemma_move_conserves_cards(
    b0: Board,
    b1: Board,
    pc: int,
    pr: int,
    dc: int,
    ttr: bool,
)
    requires
        b0.wf(),
        spec_pick_ok(b0, pc, pr),
        0 <= dc < 8,
        b1.grid() == spec_apply(b0, pc, pr, dc, ttr),
    ensures
        !ttr ==> b1.cards() =~= b0.cards(),
        ttr && spec_top_accepts(b0, spec_run(b0, pc, pr), dc) && b0.tok(dc, 0) == blank()
            ==> b1.cards() =~= b0.cards(),
        ttr && spec_top_accepts(b0, spec_run(b0, pc, pr), dc) && b0.tok(dc, 0) != blank()
            ==> b1.cards().insert(b0.tok(dc, 0)) =~= b0.cards(),
{
    broadcast use vstd::multiset::group_multiset_axioms;
    broadcast use vstd::seq_lib::group_to_multiset_ensures;

    let g0 = b0.grid();
    let run = spec_run(b0, pc, pr);
    let cs = spec_detach(g0, pc, pr);
    let g1 = spec_apply(b0, pc, pr, dc, ttr);
    let r = run.to_multiset();
    let m0 = cards_in_first(g0, 8);
    let mcs = cards_in_first(cs, 8);
    let m1 = cards_in_first(g1, 8);

    assert(g0.len() == 8);
    assert(forall|i: int| 0 <= i < 8 ==> (#[trigger] g0[i]).len() == b0.cascades@[i]@.len());
    assert(g0[pc].len() >= 1);
    assert(g0[pc][0] == b0.tok(pc, 0));
    assert(g0[dc][0] == b0.tok(dc, 0));

    let newcol = if pr == 0 {
        g0[pc].update(0, blank())
    } else {
        g0[pc].take(pr)
    };
    assert(cs == g0.update(pc, newcol));
    crate::board::lemma_cards_exchange(g0, 8, pc, newcol);
    if pr == 0 {
        assert(g0[pc][0] == b0.tok(pc, pr));
        assert(g0[pc][0] != blank());
        crate::board::lemma_column_blank0(g0[pc]);
        assert(run =~= Seq::<Seq<char>>::empty().push(b0.tok(pc, 0)));
        assert(r =~= Multiset::<Seq<char>>::empty().insert(b0.tok(pc, 0)));
        assert(column_cards(newcol).add(r) =~= column_cards(g0[pc]));
    } else {
        crate::board::lemma_column_split(g0[pc], pr);
        assert(g0[pc].skip(pr) == run);
        assert(column_cards(newcol).add(r) =~= column_cards(g0[pc]));
    }
    assert forall|x2: Seq<char>| #[trigger] mcs.add(r).count(x2) == m0.count(x2) by {
        assert(mcs.add(column_cards(g0[pc])).count(x2) == m0.add(column_cards(newcol)).count(x2));
        assert(column_cards(newcol).add(r).count(x2) == column_cards(g0[pc]).count(x2));
    }

    if ttr {
        if spec_top_accepts(b0, run, dc) {
            let x = run[0];
            assert(x == b0.tok(pc, pr));
            assert(x != blank());
            assert(run =~= Seq::<Seq<char>>::empty().push(x));
            assert(r =~= Multiset::<Seq<char>>::empty().insert(x));
            if dc == pc && pr == 0 {
                assert(false);
            }
            assert(cs[dc].len() >= 1);
            assert(cs[dc][0] == b0.tok(dc, 0));
            assert(g1 == cs.update(dc, cs[dc].update(0, x)));
            crate::board::lemma_cards_exchange(cs, 8, dc, cs[dc].update(0, x));
            crate::board::lemma_column_replace0(cs[dc], x);
            if b0.tok(dc, 0) == blank() {
                assert forall|x2: Seq<char>| #[trigger] m1.count(x2) == m0.count(x2) by {
                    assert(m1.add(column_cards(cs[dc])).count(x2) == mcs.add(
                        column_cards(cs[dc].update(0, x)),
                    ).count(x2));
                    assert(column_cards(cs[dc].update(0, x)).count(x2) == column_cards(
                        cs[dc],
                    ).insert(x).count(x2));
                    assert(mcs.add(r).count(x2) == m0.count(x2));
                }
                assert(m1 =~= m0);
            } else {
                let t0 = b0.tok(dc, 0);
                assert forall|x2: Seq<char>|
                    #[trigger] m1.insert(t0).count(x2) == m0.count(x2) by {
                    assert(m1.add(column_cards(cs[dc])).count(x2) == mcs.add(
                        column_cards(cs[dc].update(0, x)),
                    ).count(x2));
                    assert(column_cards(cs[dc].update(0, x)).insert(t0).count(x2) == column_cards(
                        cs[dc],
                    ).insert(x).count(x2));
                    assert(mcs.add(r).count(x2) == m0.count(x2));
                }
                assert(m1.insert(t0) =~= m0);
            }
        }
    } else {
        assert(cs[dc].len() >= 1);
        assert(g1 == cs.update(dc, cs[dc] + run));
        crate::board::lemma_cards_exchange(cs, 8, dc, cs[dc] + run);
        crate::board::lemma_column_append(cs[dc], run);
        assert forall|x2: Seq<char>| #[trigger] m1.count(x2) == m0.count(x2) by {
            assert(m1.add(column_cards(cs[dc])).count(x2) == mcs.add(
                column_cards(cs[dc] + run),
            ).count(x2));
            assert(column_cards(cs[dc] + run).count(x2) == column_cards(cs[dc]).add(r).count(x2));
            assert(mcs.add(r).count(x2) == m0.count(x2));
        }
        assert(m1 =~= m0);
    }
}

/// Play one whole turn: move the run picked at (pick_col, pick_row) to
/// `place_col` — its top-row slot when `to_top_row`, its cascade end
/// otherwise — enforcing the supermove bound when `restrict` holds. A
/// rejected move leaves the board untouched; an accepted one moves exactly
/// the picked run and nothing else.
pub fn try_move(
    b: &mut Board,
    pick_col: usize,
    pick_row: usize,
    place_col: usize,
    to_top_row: bool,
    restrict: bool,
) -> (moved: bool)
    requires
        old(b).wf(),
        pick_col < 8,
        place_col < 8,
    ensures
        final(b).wf(),
        moved == spec_move_accepted(
            *old(b),
            pick_col as int,
            pick_row as int,
            place_col as int,
            to_top_row,
            restrict,
        ),
        moved ==> final(b).grid() == spec_apply(
            *old(b),
            pick_col as int,
            pick_row as int,
            place_col as int,
            to_top_row,
        ),
        !moved ==> *final(b) == *old(b),
{
    let ghost pc = pick_col as int;
    let ghost pr = pick_row as int;
    let ghost dc = place_col as int;
    let ghost run = spec_run(*old(b), pc, pr);

    if !pick_is_valid(b, pick_col, pick_row) {
        return false;
    }
    let col_len = b.cascades[pick_col].len();
    let run_len = if pick_row == 0 {
        1
    } else {
        col_len - pick_row
    };
    proof {
        assert(b.grid()[pc].len() == col_len);
        assert(run.len() == run_len as int);
    }
    if pick_row > 0 {
        let mut i = pick_row + 1;
        while i < col_len
            invariant
                *b == *old(b),
                b.wf(),
                pick_col < 8,
                1 <= pick_row < col_len,
                col_len == b.cascades@[pc]@.len(),
                pc == pick_col as int,
                pr == pick_row as int,
                run == spec_run(*old(b), pc, pr),
                pick_row + 1 <= i <= col_len,
                forall|k: int|
                    pick_row < k < i ==> #[trigger] spec_can_move(b.tok(pc, k), b.tok(pc, k - 1)),
            decreases col_len - i,
        {
            proof {
                assert(b.tok(pc, i as int).len() == 3);
                assert(b.tok(pc, i as int - 1).len() == 3);
            }
            if !can_move(b.cascades[pick_col][i].as_str(), b.cascades[pick_col][i - 1].as_str()) {
                proof {
                    assert(run[i as int - pr] == b.grid()[pc].skip(pr)[i as int - pr]);
                    assert(run[i as int - pr] == b.tok(pc, i as int));
                    assert(run[i as int - pr - 1] == b.tok(pc, i as int - 1));
                    assert(!spec_can_move(run[i as int - pr], run[i as int - pr - 1]));
                    assert(!spec_run_valid(run));
                }
                return false;
            }
            i = i + 1;
        }
        proof {
            assert forall|k: int| 1 <= k < run.len() implies #[trigger] spec_can_move(
                run[k],
                run[k - 1],
            ) by {
                assert(run[k] == b.tok(pc, pr + k));
                assert(run[k - 1] == b.tok(pc, pr + k - 1));
            }
        }
    }
    proof {
        assert(spec_run_valid(run));
    }
    if restrict {
        let m = max_run_len(b, place_col);
        if run_len > m {
            return false;
        }
    }
    let mut top_move = false;
    if to_top_row && run_len == 1 {
        proof {
            assert(b.tok(dc, 0).len() == 3);
        }
        if place_col < 4 {
            if is_blank(b.cascades[place_col][0].as_str()) {
                top_move = true;
            }
        } else if can_move_to_foundation(
            b.cascades[pick_col][pick_row].as_str(),
            b.cascades[place_col][0].as_str(),
        ) {
            top_move = true;
        }
    }
    proof {
        assert(run[0] == b.tok(pc, pr));
        assert(top_move == (to_top_row && spec_top_accepts(*old(b), run, dc)));
    }
    if to_top_row && !top_move {
        return false;
    }
    if top_move {
        let ghost g0 = old(b).grid();
        if pick_row == 0 {
            let card = b.cascades[pick_col][0].clone();
            let bt = blank_token();
            b.cascades[pick_col][0] = bt;
            let ghost cs1 = b.cascades@;
            b.cascades[place_col][0] = card;
            proof {
                assert(crate::board::grid_of(cs1) =~~= spec_detach(g0, pc, pr));
                assert(b.grid() =~~= crate::board::grid_of(cs1).update(
                    dc,
                    crate::board::grid_of(cs1)[dc].update(0, card@),
                ));
                assert(b.grid() =~~= spec_apply(*old(b), pc, pr, dc, to_top_row));
            }
        } else {
            let card = b.cascades[pick_col].remove(pick_row);
            let ghost cs1 = b.cascades@;
            b.cascades[place_col][0] = card;
            proof {
                assert(old(b).cascades@[pc]@.remove(pr) =~= old(b).cascades@[pc]@.take(pr));
                assert(crate::board::grid_of(cs1) =~~= spec_detach(g0, pc, pr));
                assert(b.grid() =~~= crate::board::grid_of(cs1).update(
                    dc,
                    crate::board::grid_of(cs1)[dc].update(0, card@),
                ));
                assert(b.grid() =~~= spec_apply(*old(b), pc, pr, dc, to_top_row));
            }
        }
        proof {
            lemma_apply_wf(*old(b), pc, pr, dc, to_top_row);
            assert(b.cascades@.len() == b.grid().len());
            assert forall|ii: int| 0 <= ii < 8 implies (#[trigger] b.cascades@[ii]@).len()
                >= 1 by {
                assert(b.grid()[ii].len() == b.cascades@[ii]@.len());
            }
            assert forall|ii: int, kk: int|
                0 <= ii < 8 && 0 <= kk < b.cascades@[ii]@.len() implies (#[trigger] b.tok(
                ii,
                kk,
            )).len() == 3 by {
                assert(b.grid()[ii].len() == b.cascades@[ii]@.len());
                assert(b.tok(ii, kk) == b.grid()[ii][kk]);
            }
        }
        return true;
    }
    let dest_len = b.cascades[place_col].len();
    let cascade_ok = if dest_len == 1 {
        true
    } else {
        proof {
            assert(b.tok(pc, pr).len() == 3);
            assert(b.tok(dc, dest_len - 1).len() == 3);
        }
        can_move(
            b.cascades[pick_col][pick_row].as_str(),
            b.cascades[place_col][dest_len - 1].as_str(),
        )
    };
    proof {
        assert(cascade_ok == spec_cascade_accepts(*old(b), run, dc));
    }
    if !cascade_ok {
        return false;
    }
    let ghost g0 = old(b).grid();
    if pick_row == 0 {
        let card = b.cascades[pick_col][0].clone();
        b.cascades[place_col].push(card);
        let ghost csa = b.cascades@;
        let bt = blank_token();
        b.cascades[pick_col][0] = bt;
        proof {
            assert(crate::board::grid_of(csa) =~~= g0.update(dc, g0[dc] + run));
            assert(b.grid() =~~= spec_apply(*old(b), pc, pr, dc, to_top_row));
        }
    } else {
        let mut tail = b.cascades[pick_col].split_off(pick_row);
        let ghost cs1 = b.cascades@;
        b.cascades[place_col].append(&mut tail);
        proof {
            assert(old(b).cascades@[pc]@.subrange(0, pr) =~= old(b).cascades@[pc]@.take(pr));
            assert(crate::board::grid_of(cs1) =~~= spec_detach(g0, pc, pr));
            assert(b.grid() =~~= crate::board::grid_of(cs1).update(
                dc,
                crate::board::grid_of(cs1)[dc] + run,
            ));
            assert(b.grid() =~~= spec_apply(*old(b), pc, pr, dc, to_top_row));
        }
    }
    proof {
        lemma_apply_wf(*old(b), pc, pr, dc, to_top_row);
        assert(b.cascades@.len() == b.grid().len());
        assert forall|ii: int| 0 <= ii < 8 implies (#[trigger] b.cascades@[ii]@).len() >= 1 by {
            assert(b.grid()[ii].len() == b.cascades@[ii]@.len());
        }
        assert forall|ii: int, kk: int|
            0 <= ii < 8 && 0 <= kk < b.cascades@[ii]@.len() implies (#[trigger] b.tok(
            ii,
            kk,
        )).len() == 3 by {
            assert(b.grid()[ii].len() == b.cascades@[ii]@.len());
            assert(b.tok(ii, kk) == b.grid()[ii][kk]);
        }
    }
    true
}

} // verus!
