//! Backtracking search over the engine state: the full solver and the
//! feasibility probe that the generator uses.
use vstd::prelude::*;
use vstd::set_lib::{set_int_range, lemma_int_range, lemma_subset_equality};
use crate::topology::{Cell, valid_cell, cell_index, is_peer, band};
use crate::board::{Sudoku, lemma_cell_index, lemma_round_trip, has_candidate};

verus! {

/// Number of unassigned entries.
pub open spec fn free_count(s: Seq<Option<u8>>) -> nat
    decreases s.len(),
{
    if s.len() == 0 {
        0
    } else {
        free_count(s.drop_last()) + if s.last() is None { 1nat } else { 0nat }
    }
}

/// `sol` is a filled grid: values in `1..=9`, no two peers equal.
pub open spec fn is_solution(sol: Seq<u8>) -> bool {
    &&& sol.len() == 81
    &&& forall|i: int| 0 <= i < 81 ==> 1 <= #[trigger] sol[i] <= 9
    &&& forall|a: Cell, b: Cell|
        valid_cell(a) && valid_cell(b) && #[trigger] is_peer(a, b) ==> sol[cell_index(a)]
            != sol[cell_index(b)]
}

/// `sol` agrees with every assigned entry of `vals`.
pub open spec fn fills(vals: Seq<Option<u8>>, sol: Seq<u8>) -> bool {
    &&& sol.len() == vals.len()
    &&& forall|i: int| 0 <= i < vals.len() && (#[trigger] vals[i]) is Some ==> sol[i] == vals[i]->0
}

/// Some solution agrees with the assignment `vals`.
pub open spec fn solvable(vals: Seq<Option<u8>>) -> bool {
    exists|sol: Seq<u8>| #[trigger] fills(vals, sol) && is_solution(sol)
}

impl Sudoku {
    /// No two peers are assigned the same value.
    pub open spec fn consistent(&self) -> bool {
        forall|a: Cell, b: Cell|
            valid_cell(a) && valid_cell(b) && #[trigger] is_peer(a, b) && self.value(a) is Some
                ==> self.value(a) != self.value(b)
    }
}

/// Consistency and peer values depend on the assignment grid alone.
pub proof fn lemma_same_values(a: Sudoku, b: Sudoku)
    requires
        a.values() == b.values(),
    ensures
        a.consistent() == b.consistent(),
        forall|c: Cell, v: u8| #[trigger] a.peer_holds(c, v) == b.peer_holds(c, v),
{
    assert forall|c: Cell| true implies #[trigger] a.value(c) == b.value(c) by {}
    assert forall|c: Cell, v: u8| #[trigger] a.peer_holds(c, v) == b.peer_holds(c, v) by {
        if a.peer_holds(c, v) {
            let d = choose|d: Cell| valid_cell(d) && is_peer(c, d) && #[trigger] a.value(d) == Some(v);
            assert(b.value(d) == Some(v));
        }
        if b.peer_holds(c, v) {
            let d = choose|d: Cell| valid_cell(d) && is_peer(c, d) && #[trigger] b.value(d) == Some(v);
            assert(a.value(d) == Some(v));
        }
    }
}

/// Exactness of the domains depends on the two grids alone.
pub proof fn lemma_same_state(a: Sudoku, b: Sudoku)
    requires
        a.values() == b.values(),
        a.masks() == b.masks(),
    ensures
        a.domains_exact() == b.domains_exact(),
{
    lemma_same_values(a, b);
    if a.domains_exact() {
        assert forall|c: Cell, w: u8|
            valid_cell(c) && b.value(c) is None && 1 <= w <= 9 implies (has_candidate(
            #[trigger] b.mask(c),
            w,
        ) <==> !#[trigger] b.peer_holds(c, w)) by {
            assert(a.mask(c) == b.mask(c) && a.value(c) == b.value(c));
            assert(has_candidate(a.mask(c), w) <==> !a.peer_holds(c, w));
        }
    }
    if b.domains_exact() {
        assert forall|c: Cell, w: u8|
            valid_cell(c) && a.value(c) is None && 1 <= w <= 9 implies (has_candidate(
            #[trigger] a.mask(c),
            w,
        ) <==> !#[trigger] a.peer_holds(c, w)) by {
            assert(a.mask(c) == b.mask(c) && a.value(c) == b.value(c));
            assert(has_candidate(b.mask(c), w) <==> !b.peer_holds(c, w));
        }
    }
}

/// On a complete board the domains are exact, there being no unassigned cell.
proof fn lemma_complete_exact(s: Sudoku)
    requires
        s.wf(),
        s.complete(),
    ensures
        s.domains_exact(),
{
    lemma_cell_index();
    assert forall|c: Cell| valid_cell(c) implies #[trigger] s.value(c) is Some by {
        assert(s.values()[cell_index(c)] is Some);
    }
}

pub proof fn lemma_free_count_assign(s: Seq<Option<u8>>, i: int, x: u8)
    requires
        0 <= i < s.len(),
        s[i] is None,
    ensures
        free_count(s.update(i, Some(x))) + 1 == free_count(s),
    decreases s.len(),
{
    let t = s.update(i, Some(x));
    if i < s.len() - 1 {
        assert(t.drop_last() =~= s.drop_last().update(i, Some(x)));
        lemma_free_count_assign(s.drop_last(), i, x);
    } else {
        assert(t.drop_last() =~= s.drop_last());
    }
}

/// Assigning to `c` a value that no peer holds keeps a consistent board consistent.
pub proof fn lemma_collapse_consistent(s0: Sudoku, s1: Sudoku, c: Cell, v: u8, token: Seq<Cell>)
    requires
        s0.wf(),
        s0.consistent(),
        valid_cell(c),
        s0.value(c) is None,
        !s0.peer_holds(c, v),
        Sudoku::collapsed(s0, s1, c, v, token),
    ensures
        s1.consistent(),
{
    lemma_cell_index();
    assert forall|a: Cell, b: Cell|
        valid_cell(a) && valid_cell(b) && #[trigger] is_peer(a, b) && s1.value(a) is Some
            implies s1.value(a) != s1.value(b) by {
        if a == c {
            assert(is_peer(c, b));
        } else if b == c {
            assert(is_peer(c, a));
            assert(s0.value(a) == s1.value(a));
        } else {
            assert(s0.value(a) == s1.value(a));
            assert(s0.value(b) == s1.value(b));
        }
    }
}

/// Giving `c` a value that a peer holds leaves no solution.
proof fn lemma_conflict(s: Sudoku, c: Cell, v: u8)
    requires
        s.wf(),
        valid_cell(c),
        s.peer_holds(c, v),
    ensures
        !solvable(s.values().update(cell_index(c), Some(v))),
{
    lemma_cell_index();
    let vals = s.values().update(cell_index(c), Some(v));
    let d = choose|d: Cell| valid_cell(d) && is_peer(c, d) && #[trigger] s.value(d) == Some(v);
    if solvable(vals) {
        let sol = choose|sol: Seq<u8>| #[trigger] fills(vals, sol) && is_solution(sol);
        assert(vals[cell_index(c)] is Some);
        assert(vals[cell_index(d)] is Some);
        assert(is_peer(c, d));
    }
}

/// A solution of the board with `c := w` solves the board.
proof fn lemma_solvable_assign(vals: Seq<Option<u8>>, i: int, w: u8)
    requires
        0 <= i < vals.len(),
        vals[i] is None,
        solvable(vals.update(i, Some(w))),
    ensures
        solvable(vals),
{
    let sol = choose|sol: Seq<u8>| #[trigger] fills(vals.update(i, Some(w)), sol) && is_solution(sol);
    assert forall|j: int| 0 <= j < vals.len() && (#[trigger] vals[j]) is Some implies sol[j]
        == vals[j]->0 by {
        assert(vals.update(i, Some(w))[j] == vals[j]);
    }
    assert(fills(vals, sol));
}

/// If no value of `1..=9` at the unassigned `i` leads to a solution, none exists.
pub proof fn lemma_solvable_split(vals: Seq<Option<u8>>, i: int)
    requires
        0 <= i < vals.len(),
        vals[i] is None,
        forall|w: u8| 1 <= w <= 9 ==> !solvable(#[trigger] vals.update(i, Some(w))),
    ensures
        !solvable(vals),
{
    if solvable(vals) {
        let sol = choose|sol: Seq<u8>| #[trigger] fills(vals, sol) && is_solution(sol);
        let w = sol[i];
        let t = vals.update(i, Some(w));
        assert forall|j: int| 0 <= j < t.len() && (#[trigger] t[j]) is Some implies sol[j]
            == t[j]->0 by {
            if j != i {
                assert(t[j] == vals[j]);
            }
        }
        assert(fills(t, sol));
        assert(solvable(t));
    }
}

/// A complete, consistent board is its own solution.
proof fn lemma_complete_solvable(s: Sudoku)
    requires
        s.wf(),
        s.complete(),
        s.consistent(),
    ensures
        solvable(s.values()),
{
    lemma_cell_index();
    let sol = Seq::new(81, |i: int| s.values()[i]->0);
    assert forall|i: int| 0 <= i < 81 implies 1 <= #[trigger] sol[i] <= 9 by {
        assert(s.values()[i] is Some);
    }
    assert forall|a: Cell, b: Cell|
        valid_cell(a) && valid_cell(b) && #[trigger] is_peer(a, b) implies sol[cell_index(a)]
        != sol[cell_index(b)] by {
        assert(s.values()[cell_index(a)] is Some);
        assert(s.values()[cell_index(b)] is Some);
    }
    assert(fills(s.values(), sol));
}

impl Sudoku {
    /// What `solve` guarantees when it turns `old` into `new` and returns `r`:
    /// from a consistent board it succeeds exactly when a solution exists; on
    /// success the board is complete, still consistent, and keeps every value
    /// that was assigned; on failure nothing has changed.
    pub open spec fn solve_outcome(old: Sudoku, new: Sudoku, r: bool) -> bool {
        &&& new.wf()
        &&& old.consistent() ==> r == solvable(old.values())
        &&& r ==> new.complete()
        &&& r && old.consistent() ==> new.consistent()
        &&& r ==> forall|i: int|
            0 <= i < 81 && (#[trigger] old.values()[i]) is Some ==> new.values()[i] == old.values()[i]
        &&& !r ==> new.values() == old.values() && new.masks() == old.masks()
        &&& old.domains_exact() ==> new.domains_exact()
        &&& old.complete() ==> r && new.values() == old.values() && new.masks() == old.masks()
    }

    /// Completes the board by backtracking search: the cell chosen by
    /// `select_next` takes the values `1..=9` in ascending order, skipping
    /// those a peer holds. On success the completed board is left in place;
    /// on failure the state is exactly as it was. From a consistent board
    /// the search succeeds exactly when a solution exists.
    pub fn solve(&mut self) -> (r: bool)
        requires
            old(self).wf(),
        ensures
            Self::solve_outcome(*old(self), *final(self), r),
        decreases free_count(old(self).values()),
    {
        let ghost before = *self;
        let cell = match self.select_next() {
            None => {
                proof {
                    if before.consistent() {
                        lemma_complete_solvable(before);
                    }
                }
                return true;
            },
            Some(cell) => cell,
        };
        proof {
            lemma_cell_index();
        }
        let mut val: u8 = 1;
        while val <= 9
            invariant
                1 <= val <= 10,
                valid_cell(cell),
                before == *old(self),
                before.wf(),
                before.value(cell) is None,
                self.wf(),
                self.values() == before.values(),
                self.masks() == before.masks(),
                before.consistent() ==> forall|w: u8|
                    1 <= w < val ==> !solvable(#[trigger] before.values().update(cell_index(cell), Some(w))),
            decreases 10 - val,
        {
            if self.has_peer_with_value(cell, val) {
                proof {
                    lemma_conflict(*self, cell, val);
                }
            } else {
                let ghost s0 = *self;
                let token = self.collapse(cell, val);
                let ghost s1 = *self;
                proof {
                    assert(s1.values() == before.values().update(cell_index(cell), Some(val)));
                    lemma_free_count_assign(before.values(), cell_index(cell), val);
                    assert(free_count(s1.values()) < free_count(before.values()));
                    if before.consistent() {
                        lemma_collapse_consistent(s0, s1, cell, val, token@);
                    }
                }
                if self.solve() {
                    proof {
                        lemma_complete_exact(*self);
                        if before.consistent() {
                            assert(solvable(s1.values()));
                            lemma_solvable_assign(before.values(), cell_index(cell), val);
                        }
                        assert forall|i: int|
                            0 <= i < 81 && (#[trigger] before.values()[i]) is Some implies self.values()[i]
                            == before.values()[i] by {
                            assert(s1.values()[i] == before.values()[i]);
                        }
                    }
                    return true;
                }
                let ghost s1b = *self;
                assert(s1b.value(cell) == Some(val));
                self.decollapse(cell, &token);
                proof {
                    assert(Sudoku::decollapsed(s1, *self, cell, token@));
                    lemma_round_trip(s0, s1, *self, cell, val, token@);
                }
            }
            val = val + 1;
        }
        proof {
            lemma_same_state(*self, before);
            if before.consistent() {
                lemma_solvable_split(before.values(), cell_index(cell));
            }
        }
        false
    }
}

impl Sudoku {
    /// Probes whether `v` can go into the unassigned cell `c`: false when a
    /// peer holds `v`; otherwise `v` is assigned, and the probe succeeds when
    /// the board is then complete or some value of `1..=9` is feasible, in
    /// turn, at the cell that `select_next` picks. The state is restored on
    /// every path. On a consistent board the probe succeeds exactly when the
    /// board with `c := v` has a solution.
    pub fn feasible(&mut self, c: Cell, v: u8) -> (r: bool)
        requires
            old(self).wf(),
            valid_cell(c),
            old(self).value(c) is None,
            1 <= v <= 9,
        ensures
            final(self).wf(),
            final(self).values() == old(self).values(),
            final(self).masks() == old(self).masks(),
            r ==> !old(self).peer_holds(c, v),
            !old(self).peer_holds(c, v) && (forall|i: int|
                0 <= i < 81 && i != cell_index(c) ==> (#[trigger] old(self).values()[i]) is Some)
                ==> r,
            old(self).consistent() ==> r == solvable(
                old(self).values().update(cell_index(c), Some(v)),
            ),
        decreases free_count(old(self).values()),
    {
        let ghost before = *self;
        if self.has_peer_with_value(c, v) {
            proof {
                lemma_conflict(before, c, v);
            }
            return false;
        }
        let token = self.collapse(c, v);
        let ghost s1 = *self;
        proof {
            lemma_cell_index();
            lemma_free_count_assign(before.values(), cell_index(c), v);
            if before.consistent() {
                lemma_collapse_consistent(before, s1, c, v, token@);
            }
        }
        let next = match self.select_next() {
            None => {
                proof {
                    if before.consistent() {
                        lemma_complete_solvable(s1);
                    }
                }
                self.decollapse(c, &token);
                proof {
                    lemma_round_trip(before, s1, *self, c, v, token@);
                }
                return true;
            },
            Some(n) => n,
        };
        proof {
            if forall|i: int|
                0 <= i < 81 && i != cell_index(c) ==> (#[trigger] before.values()[i]) is Some {
                assert forall|i: int| 0 <= i < 81 implies (#[trigger] s1.values()[i]) is Some by {
                    if i != cell_index(c) {
                        assert(before.values()[i] is Some);
                    }
                }
                assert(s1.complete());
            }
        }
        let mut val: u8 = 1;
        while val <= 9
            invariant
                1 <= val <= 10,
                valid_cell(c),
                valid_cell(next),
                before == *old(self),
                before.wf(),
                before.value(c) is None,
                !before.peer_holds(c, v),
                1 <= v <= 9,
                Sudoku::collapsed(before, s1, c, v, token@),
                free_count(s1.values()) < free_count(before.values()),
                before.consistent() ==> s1.consistent(),
                s1.value(next) is None,
                self.wf(),
                self.values() == s1.values(),
                self.masks() == s1.masks(),
                before.consistent() ==> forall|w: u8|
                    1 <= w < val ==> !solvable(#[trigger] s1.values().update(cell_index(next), Some(w))),
            decreases 10 - val,
        {
            if self.feasible(next, val) {
                proof {
                    if before.consistent() {
                        lemma_solvable_assign(s1.values(), cell_index(next), val);
                    }
                }
                self.decollapse(c, &token);
                proof {
                    assert(Sudoku::decollapsed(s1, *self, c, token@));
                    lemma_round_trip(before, s1, *self, c, v, token@);
                }
                return true;
            }
            val = val + 1;
        }
        proof {
            if before.consistent() {
                lemma_solvable_split(s1.values(), cell_index(next));
            }
        }
        self.decollapse(c, &token);
        proof {
            assert(Sudoku::decollapsed(s1, *self, c, token@));
            lemma_round_trip(before, s1, *self, c, v, token@);
        }
        false
    }
}

/// The nine cells of a group, in order: `kind` 0 is the line of cells with
/// first coordinate `g`, `kind` 1 the line with second coordinate `g`, and
/// `kind` 2 the `g`-th box in row-major order.
pub open spec fn group(kind: int, g: int) -> Seq<Cell> {
    Seq::new(
        9,
        |j: int|
            if kind == 0 {
                (g as usize, j as usize)
            } else if kind == 1 {
                (j as usize, g as usize)
            } else {
                ((g / 3 * 3 + j / 3) as usize, (g % 3 * 3 + j % 3) as usize)
            },
    )
}

impl Sudoku {
    /// Some cell of the group is assigned `v`.
    pub open spec fn group_holds(&self, kind: int, g: int, v: u8) -> bool {
        exists|j: int| 0 <= j < 9 && #[trigger] self.value(group(kind, g)[j]) == Some(v)
    }
}

proof fn lemma_group_peers(kind: int, g: int)
    requires
        0 <= kind < 3,
        0 <= g < 9,
    ensures
        forall|j: int| 0 <= j < 9 ==> valid_cell(#[trigger] group(kind, g)[j]),
        forall|j: int, k: int|
            0 <= j < 9 && 0 <= k < 9 && j != k ==> is_peer(#[trigger] group(kind, g)[j], #[trigger] group(kind, g)[k]),
{
    assert forall|j: int, k: int|
        0 <= j < 9 && 0 <= k < 9 && j != k implies is_peer(#[trigger] group(kind, g)[j], #[trigger] group(kind, g)[k]) by {
        if kind == 2 {
            let a = group(kind, g)[j];
            let b = group(kind, g)[k];
            assert(band(a.0) == g / 3 && band(b.0) == g / 3);
            assert(band(a.1) == g % 3 && band(b.1) == g % 3);
            assert(a != b);
        }
    }
}

/// On a complete, consistent board every row, column and box holds each
/// of the values `1..=9` exactly once.
pub proof fn lemma_complete_groups(s: Sudoku, kind: int, g: int)
    requires
        s.wf(),
        s.complete(),
        s.consistent(),
        0 <= kind < 3,
        0 <= g < 9,
    ensures
        forall|j: int, k: int|
            0 <= j < k < 9 ==> s.value(#[trigger] group(kind, g)[j]) != s.value(#[trigger] group(kind, g)[k]),
        forall|v: u8| 1 <= v <= 9 ==> #[trigger] s.group_holds(kind, g, v),
{
    lemma_cell_index();
    lemma_group_peers(kind, g);
    let cells = group(kind, g);
    let vals = Seq::new(9, |j: int| s.value(cells[j])->0 as int);
    assert forall|j: int| 0 <= j < 9 implies s.value(cells[j]) is Some && 1 <= #[trigger] vals[j] <= 9 by {
        assert(valid_cell(cells[j]));
        assert(s.values()[cell_index(cells[j])] is Some);
    }
    assert forall|j: int, k: int| 0 <= j < k < 9 implies s.value(#[trigger] cells[j]) != s.value(
        #[trigger] cells[k],
    ) by {
        assert(is_peer(cells[j], cells[k]));
        assert(s.value(cells[j]) is Some);
    }
    assert(vals.no_duplicates()) by {
        assert forall|j: int, k: int| 0 <= j < 9 && 0 <= k < 9 && j != k implies vals[j] != vals[k] by {
            assert(is_peer(cells[j], cells[k]));
            assert(s.value(cells[j]) is Some && s.value(cells[k]) is Some);
        }
    }
    vals.unique_seq_to_set();
    lemma_int_range(1, 10);
    assert(vals.to_set().subset_of(set_int_range(1, 10))) by {
        assert forall|x: int| vals.to_set().contains(x) implies set_int_range(1, 10).contains(x) by {
            let j = choose|j: int| 0 <= j < 9 && vals[j] == x;
            assert(1 <= vals[j] <= 9);
        }
    }
    lemma_subset_equality(vals.to_set(), set_int_range(1, 10));
    assert forall|v: u8| 1 <= v <= 9 implies #[trigger] s.group_holds(kind, g, v) by {
        assert(set_int_range(1, 10).contains(v as int));
        assert(vals.to_set().contains(v as int));
        let j = choose|j: int| 0 <= j < 9 && vals[j] == v as int;
        assert(s.value(cells[j]) is Some);
        assert(s.value(group(kind, g)[j]) == Some(v));
    }
}

/// Solver completeness: on a consistent board that has a solution, which is
/// what the generator hands out, `solve` succeeds and leaves every row,
/// column and box holding each of `1..=9` exactly once, the givens in place.
pub proof fn lemma_solver_completeness(s0: Sudoku, s1: Sudoku, r: bool)
    requires
        s0.wf(),
        s0.consistent(),
        solvable(s0.values()),
        Sudoku::solve_outcome(s0, s1, r),
    ensures
        r,
        s1.complete(),
        forall|i: int| 0 <= i < 81 && (#[trigger] s0.values()[i]) is Some ==> s1.values()[i] == s0.values()[i],
        forall|kind: int, g: int, v: u8|
            0 <= kind < 3 && 0 <= g < 9 && 1 <= v <= 9 ==> #[trigger] s1.group_holds(kind, g, v),
        forall|kind: int, g: int, j: int, k: int|
            0 <= kind < 3 && 0 <= g < 9 && 0 <= j < k < 9 ==> s1.value(#[trigger] group(kind, g)[j])
                != s1.value(#[trigger] group(kind, g)[k]),
{
    assert forall|kind: int, g: int, v: u8|
        0 <= kind < 3 && 0 <= g < 9 && 1 <= v <= 9 implies #[trigger] s1.group_holds(kind, g, v) by {
        lemma_complete_groups(s1, kind, g);
    }
    assert forall|kind: int, g: int, j: int, k: int|
        0 <= kind < 3 && 0 <= g < 9 && 0 <= j < k < 9 implies s1.value(#[trigger] group(kind, g)[j])
        != s1.value(#[trigger] group(kind, g)[k]) by {
        lemma_complete_groups(s1, kind, g);
    }
}

} // verus!
