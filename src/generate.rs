//! Puzzle generation: a partial board whose every filled cell was accepted
//! by the feasibility probe.
use vstd::prelude::*;
use crate::topology::{Cell, valid_cell, cell_index, cell_at, is_peer, same_box, band};
use crate::board::{Sudoku, lemma_cell_index};
use crate::search::{is_solution, fills, solvable, free_count, lemma_solvable_split, lemma_free_count_assign, lemma_collapse_consistent, lemma_same_values, lemma_same_state};

verus! {

broadcast use vstd::seq_lib::group_to_multiset_ensures;

/// Number of cells that the generator tries to fill.
pub const GIVENS: usize = 21;

/// Offset of line `x` in the canonical filled grid.
spec fn line_shift(x: usize) -> int {
    if x == 0 {
        0
    } else if x == 1 {
        3
    } else if x == 2 {
        6
    } else if x == 3 {
        1
    } else if x == 4 {
        4
    } else if x == 5 {
        7
    } else if x == 6 {
        2
    } else if x == 7 {
        5
    } else {
        8
    }
}

/// The canonical filled grid, used as a witness that the empty board has a solution.
spec fn canonical(c: Cell) -> int {
    (line_shift(c.0) + c.1) % 9 + 1
}

proof fn lemma_canonical_peers(a: Cell, b: Cell)
    requires
        valid_cell(a),
        valid_cell(b),
        is_peer(a, b),
    ensures
        canonical(a) != canonical(b),
{
    if a.0 == b.0 {
    } else if a.1 == b.1 {
        if a.0 == 0 { } else if a.0 == 1 { } else if a.0 == 2 { } else if a.0 == 3 { } else if a.0
            == 4 { } else if a.0 == 5 { } else if a.0 == 6 { } else if a.0 == 7 { } else { }
    } else {
        assert(same_box(a, b));
        assert(band(a.1) == band(b.1));
        if a.0 == 0 { } else if a.0 == 1 { } else if a.0 == 2 { } else if a.0 == 3 { } else if a.0
            == 4 { } else if a.0 == 5 { } else if a.0 == 6 { } else if a.0 == 7 { } else { }
    }
}

/// An empty board has a solution.
proof fn lemma_empty_solvable(s: Sudoku)
    requires
        s.wf(),
        forall|i: int| 0 <= i < 81 ==> (#[trigger] s.values()[i]) is None,
    ensures
        solvable(s.values()),
{
    lemma_cell_index();
    let sol = Seq::new(81, |i: int| canonical(cell_at(i)) as u8);
    assert forall|i: int| 0 <= i < 81 implies 1 <= #[trigger] sol[i] <= 9 by {}
    assert forall|a: Cell, b: Cell|
        valid_cell(a) && valid_cell(b) && #[trigger] is_peer(a, b) implies sol[cell_index(a)]
        != sol[cell_index(b)] by {
        lemma_canonical_peers(a, b);
    }
    assert(is_solution(sol));
    assert(fills(s.values(), sol));
}

/// The order holds every value `1..=9`.
pub open spec fn full_order(order: Seq<u8>) -> bool {
    forall|w: u8| 1 <= w <= 9 ==> #[trigger] order.contains(w)
}

/// The first value of `order` whose placement at position `i` leaves `vals`
/// with a solution, if any.
pub open spec fn first_fit(vals: Seq<Option<u8>>, i: int, order: Seq<u8>) -> Option<u8>
    decreases order.len(),
{
    if order.len() == 0 {
        None
    } else if solvable(vals.update(i, Some(order[0]))) {
        Some(order[0])
    } else {
        first_fit(vals, i, order.drop_first())
    }
}

/// The assignment grid after the first `k` steps of generation: step `k`
/// gives `cells[k]` the first fitting value of `orders[k]`, or leaves it empty.
pub open spec fn generated(cells: Seq<Cell>, orders: Seq<Vec<u8>>, k: int) -> Seq<Option<u8>>
    decreases k,
{
    if k <= 0 {
        Seq::new(81, |i: int| None::<u8>)
    } else {
        let b = generated(cells, orders, k - 1);
        let i = cell_index(cells[k - 1]);
        match first_fit(b, i, orders[k - 1]@) {
            Some(w) => b.update(i, Some(w)),
            None => b,
        }
    }
}

proof fn lemma_first_fit_some(vals: Seq<Option<u8>>, i: int, order: Seq<u8>, w: u8)
    requires
        order.contains(w),
        solvable(vals.update(i, Some(w))),
    ensures
        first_fit(vals, i, order) is Some,
    decreases order.len(),
{
    if !solvable(vals.update(i, Some(order[0]))) {
        let j = choose|j: int| 0 <= j < order.len() && order[j] == w;
        assert(j != 0);
        assert(order.drop_first()[j - 1] == w);
        lemma_first_fit_some(vals, i, order.drop_first(), w);
    }
}

/// On a board with a solution, some value fits at each empty position.
proof fn lemma_some_fit(vals: Seq<Option<u8>>, i: int, order: Seq<u8>)
    requires
        0 <= i < vals.len(),
        vals[i] is None,
        solvable(vals),
        full_order(order),
    ensures
        first_fit(vals, i, order) is Some,
{
    if forall|w: u8| 1 <= w <= 9 ==> !solvable(#[trigger] vals.update(i, Some(w))) {
        lemma_solvable_split(vals, i);
    }
    let w = choose|w: u8| 1 <= w <= 9 && solvable(#[trigger] vals.update(i, Some(w)));
    assert(order.contains(w));
    lemma_first_fit_some(vals, i, order, w);
}

proof fn lemma_free_count_empty(n: nat)
    ensures
        free_count(Seq::new(n, |i: int| None::<u8>)) == n,
    decreases n,
{
    if n > 0 {
        assert(Seq::new(n, |i: int| None::<u8>).drop_last() =~= Seq::new((n - 1) as nat, |i: int| None::<u8>));
        lemma_free_count_empty((n - 1) as nat);
    }
}

/// Builds a partial board: for each of the first `GIVENS` cells of `cells`,
/// the values of `orders[k]` are probed in turn and the first feasible one
/// is assigned; a cell with no feasible value stays empty. The result is
/// consistent, has a solution, and is filled only at those cells; where an
/// order holds every value, its cell is filled.
pub fn generate_with(cells: &Vec<Cell>, orders: &Vec<Vec<u8>>) -> (r: Sudoku)
    requires
        cells@.len() >= GIVENS,
        orders@.len() >= GIVENS,
        forall|k: int| 0 <= k < GIVENS ==> valid_cell(#[trigger] cells@[k]),
        forall|j: int, k: int| 0 <= j < k < GIVENS ==> cells@[j] != cells@[k],
        forall|k: int, j: int|
            0 <= k < GIVENS && 0 <= j < orders@[k]@.len() ==> 1 <= #[trigger] orders@[k]@[j] <= 9,
    ensures
        r.wf(),
        r.values() == generated(cells@, orders@, GIVENS as int),
        r.consistent(),
        r.domains_exact(),
        solvable(r.values()),
        forall|i: int|
            0 <= i < 81 && (#[trigger] r.values()[i]) is Some ==> exists|k: int|
                0 <= k < GIVENS && cell_index(cells@[k]) == i,
        forall|k: int|
            0 <= k < GIVENS && full_order(#[trigger] orders@[k]@) ==> r.value(cells@[k]) is Some,
        (forall|k: int| 0 <= k < GIVENS ==> full_order(#[trigger] orders@[k]@)) ==> free_count(
            r.values(),
        ) + GIVENS == 81,
{
    let mut s = Sudoku::empty();
    proof {
        lemma_cell_index();
        lemma_empty_solvable(s);
        assert(s.values() =~= generated(cells@, orders@, 0));
        lemma_free_count_empty(81);
    }
    let mut k: usize = 0;
    while k < GIVENS
        invariant
            k <= GIVENS,
            cells@.len() >= GIVENS,
            orders@.len() >= GIVENS,
            forall|k: int| 0 <= k < GIVENS ==> valid_cell(#[trigger] cells@[k]),
            forall|j: int, k: int| 0 <= j < k < GIVENS ==> cells@[j] != cells@[k],
            forall|k: int, j: int|
                0 <= k < GIVENS && 0 <= j < orders@[k]@.len() ==> 1 <= #[trigger] orders@[k]@[j] <= 9,
            s.wf(),
            s.values() == generated(cells@, orders@, k as int),
            s.consistent(),
            s.domains_exact(),
            solvable(s.values()),
            forall|j: int| k <= j < GIVENS ==> s.value(#[trigger] cells@[j]) is None,
            forall|i: int|
                0 <= i < 81 && (#[trigger] s.values()[i]) is Some ==> exists|j: int|
                    0 <= j < k && cell_index(cells@[j]) == i,
            forall|j: int|
                0 <= j < k && full_order(#[trigger] orders@[j]@) ==> s.value(cells@[j]) is Some,
            (forall|j: int| 0 <= j < GIVENS ==> full_order(#[trigger] orders@[j]@)) ==> free_count(
                s.values(),
            ) + k == 81,
        decreases GIVENS - k,
    {
        let cell = cells[k];
        let order = &orders[k];
        let mut t: usize = 0;
        let ghost start = s;
        let ghost ci = cell_index(cell);
        let mut pick: Option<u8> = None;
        assert(order@.subrange(0, order@.len() as int) =~= order@);
        while t < order.len()
            invariant_except_break
                pick is None,
            invariant
                t <= order@.len(),
                k < GIVENS,
                orders@.len() >= GIVENS,
                valid_cell(cell),
                ci == cell_index(cell),
                order@ == orders@[k as int]@,
                forall|j: int| 0 <= j < order@.len() ==> 1 <= #[trigger] order@[j] <= 9,
                start.wf(),
                start.consistent(),
                start.value(cell) is None,
                s.wf(),
                s.values() == start.values(),
                s.masks() == start.masks(),
                first_fit(start.values(), ci, order@) == first_fit(
                    start.values(),
                    ci,
                    order@.subrange(t as int, order@.len() as int),
                ),
            ensures
                s.wf(),
                s.values() == start.values(),
                s.masks() == start.masks(),
                pick == first_fit(start.values(), ci, order@),
                pick matches Some(v) ==> 1 <= v <= 9 && !start.peer_holds(cell, v) && solvable(
                    start.values().update(ci, Some(v)),
                ),
            decreases order@.len() - t,
        {
            let val = order[t];
            let ghost rest = order@.subrange(t as int, order@.len() as int);
            assert(rest[0] == val);
            assert(rest.drop_first() =~= order@.subrange(t + 1, order@.len() as int));
            proof {
                lemma_same_values(s, start);
                lemma_same_state(s, start);
            }
            if s.feasible(cell, val) {
                pick = Some(val);
                break;
            }
            t = t + 1;
        }
        assert(order@.subrange(order@.len() as int, order@.len() as int).len() == 0);
        proof {
            if full_order(orders@[k as int]@) {
                lemma_some_fit(start.values(), ci, order@);
            }
        }
        if let Some(val) = pick {
            let ghost s0 = s;
            proof {
                lemma_same_values(s0, start);
                lemma_same_state(s0, start);
                lemma_free_count_assign(start.values(), ci, val);
            }
            let token = s.collapse(cell, val);
            proof {
                lemma_collapse_consistent(s0, s, cell, val, token@);
            }
        } else {
            proof {
                lemma_same_values(s, start);
                lemma_same_state(s, start);
            }
        }
        assert(s.values() == generated(cells@, orders@, k + 1));
        assert forall|j: int| k + 1 <= j < GIVENS implies s.value(#[trigger] cells@[j]) is None by {
            assert(cells@[j] != cell);
        }
        assert forall|i: int|
            0 <= i < 81 && (#[trigger] s.values()[i]) is Some implies exists|j: int|
                0 <= j < k + 1 && cell_index(cells@[j]) == i by {
            if i != ci {
                assert(start.values()[i] is Some);
            } else {
                assert(cell_index(cells@[k as int]) == i);
            }
        }
        assert forall|j: int|
            0 <= j < k + 1 && full_order(#[trigger] orders@[j]@) implies s.value(cells@[j]) is Some by {
            if j < k {
                assert(start.value(cells@[j]) is Some);
            }
        }
        k = k + 1;
    }
    s
}

/// Relies on rand's `SliceRandom::shuffle` on slices, driven by
/// `rand::thread_rng()`: the elements are permuted in place, by swaps.
#[verifier::external_body]
fn shuffle<T>(v: &mut Vec<T>)
    ensures
        final(v)@.to_multiset() == old(v)@.to_multiset(),
{
    rand::seq::SliceRandom::shuffle(v.as_mut_slice(), &mut rand::thread_rng());
}

/// All 81 cells in row-major order.
fn all_cells() -> (r: Vec<Cell>)
    ensures
        r@.len() == 81,
        r@.no_duplicates(),
        forall|i: int| 0 <= i < 81 ==> #[trigger] r@[i] == cell_at(i),
{
    proof {
        lemma_cell_index();
    }
    let mut r: Vec<Cell> = Vec::new();
    let mut x: usize = 0;
    while x < 9
        invariant
            x <= 9,
            r@.len() == x * 9,
            forall|i: int| 0 <= i < r@.len() ==> #[trigger] r@[i] == cell_at(i),
        decreases 9 - x,
    {
        let mut y: usize = 0;
        while y < 9
            invariant
                x < 9,
                y <= 9,
                r@.len() == x * 9 + y,
                forall|i: int| 0 <= i < r@.len() ==> #[trigger] r@[i] == cell_at(i),
            decreases 9 - y,
        {
            assert(cell_at(x * 9 + y) == (x, y));
            r.push((x, y));
            y = y + 1;
        }
        x = x + 1;
    }
    assert forall|i: int, j: int| 0 <= i < r@.len() && 0 <= j < r@.len() && i != j implies r@[i]
        != r@[j] by {
        assert(cell_index(cell_at(i)) == i);
        assert(cell_index(cell_at(j)) == j);
    }
    r
}

impl Sudoku {
    /// A fresh puzzle: the cells are taken in a random order and each of the
    /// first `GIVENS` gets the first feasible value of a fresh random
    /// permutation of `1..=9`.
    pub fn new() -> (r: Sudoku)
        ensures
            r.wf(),
            r.consistent(),
            r.domains_exact(),
            solvable(r.values()),
            free_count(r.values()) + GIVENS == 81,
    {
        let mut cells = all_cells();
        let ghost ordered = cells@;
        shuffle(&mut cells);
        proof {
            lemma_cell_index();
            assert(cells@.len() == cells@.to_multiset().len());
            assert(ordered.len() == ordered.to_multiset().len());
            ordered.lemma_multiset_has_no_duplicates();
            cells@.lemma_multiset_has_no_duplicates_conv();
            assert forall|k: int| 0 <= k < GIVENS implies valid_cell(#[trigger] cells@[k]) by {
                assert(cells@.contains(cells@[k]));
                assert(cells@.to_multiset().count(cells@[k]) > 0);
                assert(ordered.to_multiset().count(cells@[k]) > 0);
                assert(ordered.contains(cells@[k]));
            }
        }
        let mut vals: Vec<u8> = vec![1, 2, 3, 4, 5, 6, 7, 8, 9];
        let ghost digits = vals@;
        assert(full_order(digits)) by {
            assert forall|w: u8| 1 <= w <= 9 implies #[trigger] digits.contains(w) by {
                assert(digits[w - 1] == w);
            }
        }
        let mut orders: Vec<Vec<u8>> = Vec::new();
        let mut k: usize = 0;
        while k < GIVENS
            invariant
                k <= GIVENS,
                orders@.len() == k,
                forall|j: int| 0 <= j < vals@.len() ==> 1 <= #[trigger] vals@[j] <= 9,
                full_order(digits),
                vals@.to_multiset() == digits.to_multiset(),
                forall|i: int| 0 <= i < k ==> full_order(#[trigger] orders@[i]@),
                forall|i: int, j: int|
                    0 <= i < k && 0 <= j < orders@[i]@.len() ==> 1 <= #[trigger] orders@[i]@[j] <= 9,
            decreases GIVENS - k,
        {
            let ghost before = vals@;
            shuffle(&mut vals);
            assert forall|j: int| 0 <= j < vals@.len() implies 1 <= #[trigger] vals@[j] <= 9 by {
                assert(vals@.contains(vals@[j]));
                assert(vals@.to_multiset().count(vals@[j]) > 0);
                assert(before.to_multiset().count(vals@[j]) > 0);
                assert(before.contains(vals@[j]));
            }
            let mut copy: Vec<u8> = Vec::new();
            let mut j: usize = 0;
            while j < vals.len()
                invariant
                    j <= vals@.len(),
                    copy@ == vals@.take(j as int),
                decreases vals@.len() - j,
            {
                copy.push(vals[j]);
                j = j + 1;
                assert(copy@ =~= vals@.take(j as int));
            }
            assert(copy@ =~= vals@);
            assert(full_order(copy@)) by {
                assert forall|w: u8| 1 <= w <= 9 implies #[trigger] copy@.contains(w) by {
                    assert(digits.contains(w));
                    assert(digits.to_multiset().count(w) > 0);
                    assert(vals@.to_multiset().count(w) > 0);
                }
            }
            orders.push(copy);
            assert(orders@[k as int]@ == copy@);
            k = k + 1;
        }
        generate_with(&cells, &orders)
    }
}

} // verus!
