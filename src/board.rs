//! The assignment grid and the candidate domains, with checkpointed
//! assignment (`collapse`) and its exact inverse (`decollapse`).
use vstd::prelude::*;
use crate::topology::{Cell, valid_cell, cell_index, cell_at, is_peer, peers, peer_seq};

verus! {

/// The candidate set of a cell as a bitmask: bit `v` is set while `v` is a candidate.
pub open spec fn has_candidate(m: u16, v: u8) -> bool {
    (m >> (v as u16)) & 1u16 == 1u16
}

/// `m` with candidate `v` removed.
pub open spec fn mask_without(m: u16, v: u8) -> u16 {
    m & !(1u16 << (v as u16))
}

/// `m` with candidate `v` added.
pub open spec fn mask_with(m: u16, v: u8) -> u16 {
    m | (1u16 << (v as u16))
}

/// Number of candidates among `1..=n` in `m`.
pub open spec fn candidate_count(m: u16, n: int) -> nat
    decreases n,
{
    if n <= 0 {
        0
    } else {
        candidate_count(m, n - 1) + if has_candidate(m, n as u8) { 1nat } else { 0nat }
    }
}

/// The mask in which every value `1..=9` is a candidate.
pub const FULL_MASK: u16 = 0x3fe;

proof fn lemma_full_mask(v: u8)
    requires
        1 <= v <= 9,
    ensures
        has_candidate(FULL_MASK, v),
{
    assert(1 <= v <= 9 ==> (0x3feu16 >> (v as u16)) & 1u16 == 1u16) by (bit_vector);
}

/// Removing and adding candidates acts on the one bit only.
proof fn lemma_mask_bits(m: u16, v: u8, w: u8)
    requires
        v < 16,
        w < 16,
    ensures
        has_candidate(mask_without(m, v), w) == (has_candidate(m, w) && w != v),
        has_candidate(mask_with(m, v), w) == (has_candidate(m, w) || w == v),
{
    assert(v < 16 && w < 16 ==> (((m & !(1u16 << (v as u16))) >> (w as u16)) & 1u16 == 1u16) == (
    ((m >> (w as u16)) & 1u16 == 1u16) && w != v)) by (bit_vector);
    assert(v < 16 && w < 16 ==> (((m | (1u16 << (v as u16))) >> (w as u16)) & 1u16 == 1u16) == (((m
        >> (w as u16)) & 1u16 == 1u16) || w == v)) by (bit_vector);
}

/// Adding back a candidate that was removed gives back the same mask, and
/// removing an absent candidate changes nothing.
pub proof fn lemma_mask_restore(m: u16, v: u8)
    requires
        v < 16,
    ensures
        has_candidate(m, v) ==> mask_with(mask_without(m, v), v) == m,
        !has_candidate(m, v) ==> mask_without(m, v) == m,
        mask_with(mask_with(m, v), v) == mask_with(m, v),
{
    assert(v < 16 && (m >> (v as u16)) & 1u16 == 1u16 ==> (m & !(1u16 << (v as u16))) | (1u16 << (
    v as u16)) == m) by (bit_vector);
    assert(v < 16 && !((m >> (v as u16)) & 1u16 == 1u16) ==> m & !(1u16 << (v as u16)) == m)
        by (bit_vector);
    assert((m | (1u16 << (v as u16))) | (1u16 << (v as u16)) == m | (1u16 << (v as u16)))
        by (bit_vector);
}

/// Flat positions and cells correspond one to one.
pub proof fn lemma_cell_index()
    ensures
        forall|c: Cell| valid_cell(c) ==> 0 <= #[trigger] cell_index(c) < 81 && cell_at(cell_index(c)) == c,
        forall|i: int| 0 <= i < 81 ==> valid_cell(#[trigger] cell_at(i)) && cell_index(cell_at(i)) == i,
{
}

/// The engine state: an assignment grid and a candidate domain per cell,
/// both stored flat in row-major order.
pub struct Sudoku {
    board: Vec<Option<u8>>,
    cand: Vec<u16>,
}

impl Sudoku {
    /// The assignment grid, one entry per flat position.
    pub closed spec fn values(&self) -> Seq<Option<u8>> {
        self.board@
    }

    /// The candidate masks, one per flat position.
    pub closed spec fn masks(&self) -> Seq<u16> {
        self.cand@
    }

    /// Both grids cover the 81 cells and every assigned value lies in `1..=9`.
    pub open spec fn wf(&self) -> bool {
        &&& self.values().len() == 81
        &&& self.masks().len() == 81
        &&& forall|i: int|
            0 <= i < 81 && (#[trigger] self.values()[i]) is Some ==> 1 <= self.values()[i]->0 <= 9
    }

    /// What cell `c` holds.
    pub open spec fn value(&self, c: Cell) -> Option<u8> {
        self.values()[cell_index(c)]
    }

    /// The candidate mask of cell `c`.
    pub open spec fn mask(&self, c: Cell) -> u16 {
        self.masks()[cell_index(c)]
    }

    /// Number of candidates of the cell at flat position `i`.
    pub open spec fn size_at(&self, i: int) -> nat {
        candidate_count(self.masks()[i], 9)
    }

    /// Some peer of `c` is assigned `v`.
    pub open spec fn peer_holds(&self, c: Cell, v: u8) -> bool {
        exists|d: Cell| valid_cell(d) && is_peer(c, d) && #[trigger] self.value(d) == Some(v)
    }

    /// The domains are exact: the candidates among `1..=9` of every
    /// unassigned cell are the values that none of its peers holds.
    pub open spec fn domains_exact(&self) -> bool {
        forall|c: Cell, w: u8|
            valid_cell(c) && self.value(c) is None && 1 <= w <= 9 ==> (has_candidate(
                #[trigger] self.mask(c),
                w,
            ) <==> !#[trigger] self.peer_holds(c, w))
    }

    /// Every cell is assigned.
    pub open spec fn complete(&self) -> bool {
        forall|i: int| 0 <= i < 81 ==> (#[trigger] self.values()[i]) is Some
    }

    /// `new` is `old` after `collapse(c, v)` returned `token`.
    pub open spec fn collapsed(old: Sudoku, new: Sudoku, c: Cell, v: u8, token: Seq<Cell>) -> bool {
        &&& new.wf()
        &&& new.values() == old.values().update(cell_index(c), Some(v))
        &&& forall|i: int|
            0 <= i < 81 ==> #[trigger] new.masks()[i] == if is_peer(c, cell_at(i)) {
                mask_without(old.masks()[i], v)
            } else {
                old.masks()[i]
            }
        &&& token == peer_seq(c).filter(|d: Cell| has_candidate(old.mask(d), v))
        &&& token.no_duplicates()
        &&& forall|k: int| 0 <= k < token.len() ==> valid_cell(#[trigger] token[k])
        &&& forall|d: Cell|
            valid_cell(d) ==> (#[trigger] token.contains(d) <==> is_peer(c, d) && has_candidate(
                old.mask(d),
                v,
            ))
    }

    /// `new` is `old` after `decollapse(c, token)`.
    pub open spec fn decollapsed(old: Sudoku, new: Sudoku, c: Cell, token: Seq<Cell>) -> bool {
        &&& new.wf()
        &&& new.values() == old.values().update(cell_index(c), None)
        &&& forall|i: int|
            0 <= i < 81 ==> #[trigger] new.masks()[i] == if token.contains(cell_at(i)) {
                mask_with(old.masks()[i], old.value(c)->0)
            } else {
                old.masks()[i]
            }
    }

    /// A fresh board: nothing assigned, every candidate present everywhere.
    pub fn empty() -> (r: Sudoku)
        ensures
            r.wf(),
            forall|i: int| 0 <= i < 81 ==> (#[trigger] r.values()[i]) is None,
            forall|i: int| 0 <= i < 81 ==> #[trigger] r.masks()[i] == FULL_MASK,
            r.domains_exact(),
    {
        let mut board: Vec<Option<u8>> = Vec::new();
        let mut cand: Vec<u16> = Vec::new();
        let mut i: usize = 0;
        while i < 81
            invariant
                i <= 81,
                board@.len() == i,
                cand@.len() == i,
                forall|j: int| 0 <= j < i ==> (#[trigger] board@[j]) is None,
                forall|j: int| 0 <= j < i ==> #[trigger] cand@[j] == FULL_MASK,
            decreases 81 - i,
        {
            board.push(None);
            cand.push(FULL_MASK);
            i = i + 1;
        }
        let r = Sudoku { board, cand };
        proof {
            lemma_cell_index();
            assert forall|c: Cell, w: u8|
                valid_cell(c) && r.value(c) is None && 1 <= w <= 9 implies (has_candidate(
                #[trigger] r.mask(c),
                w,
            ) <==> !#[trigger] r.peer_holds(c, w)) by {
                lemma_full_mask(w);
                if r.peer_holds(c, w) {
                    let d = choose|d: Cell| valid_cell(d) && is_peer(c, d) && #[trigger] r.value(d) == Some(w);
                }
            }
        }
        r
    }

    /// What cell `c` holds, if anything.
    pub fn get(&self, c: Cell) -> (r: Option<u8>)
        requires
            self.wf(),
            valid_cell(c),
        ensures
            r == self.value(c),
    {
        self.board[c.0 * 9 + c.1]
    }

    /// Number of candidates left in the domain of cell `c`.
    pub fn domain_size(&self, c: Cell) -> (r: u8)
        requires
            self.wf(),
            valid_cell(c),
        ensures
            r == candidate_count(self.mask(c), 9),
    {
        self.size_of(c.0 * 9 + c.1)
    }

    fn size_of(&self, i: usize) -> (r: u8)
        requires
            self.wf(),
            i < 81,
        ensures
            r == self.size_at(i as int),
    {
        let m = self.cand[i];
        let mut n: u8 = 0;
        let mut v: u8 = 1;
        while v <= 9
            invariant
                1 <= v <= 10,
                n == candidate_count(m, v - 1),
                n < v,
            decreases 10 - v,
        {
            if (m >> (v as u16)) & 1u16 == 1u16 {
                n = n + 1;
            }
            v = v + 1;
        }
        n
    }

    /// Whether the candidate `v` is still in the domain of cell `c`.
    pub fn has_candidate_at(&self, c: Cell, v: u8) -> (r: bool)
        requires
            self.wf(),
            valid_cell(c),
            1 <= v <= 9,
        ensures
            r == has_candidate(self.mask(c), v),
    {
        (self.cand[c.0 * 9 + c.1] >> (v as u16)) & 1u16 == 1u16
    }

    /// Whether some peer of `c` is currently assigned `v`.
    pub fn has_peer_with_value(&self, c: Cell, v: u8) -> (r: bool)
        requires
            self.wf(),
            valid_cell(c),
        ensures
            r == self.peer_holds(c, v),
    {
        let ps = peers(c);
        let mut k: usize = 0;
        while k < 20
            invariant
                k <= 20,
                self.wf(),
                valid_cell(c),
                ps@.len() == 20,
                forall|j: int| 0 <= j < 20 ==> valid_cell(#[trigger] ps@[j]),
                forall|d: Cell| valid_cell(d) ==> (#[trigger] ps@.contains(d) <==> is_peer(c, d)),
                forall|j: int| 0 <= j < k ==> self.value(#[trigger] ps@[j]) != Some(v),
            decreases 20 - k,
        {
            let (x, y) = ps[k];
            if self.board[x * 9 + y] == Some(v) {
                assert(ps@.contains(ps@[k as int]));
                assert(self.value(ps@[k as int]) == Some(v));
                return true;
            }
            k = k + 1;
        }
        assert forall|d: Cell| valid_cell(d) && is_peer(c, d) implies #[trigger] self.value(d) != Some(v) by {
            assert(ps@.contains(d));
        }
        false
    }

    /// Assigns `v` to the unassigned cell `c` and removes `v` from the domain
    /// of each peer that still had it; the returned token lists those peers.
    pub fn collapse(&mut self, c: Cell, v: u8) -> (token: Vec<Cell>)
        requires
            old(self).wf(),
            valid_cell(c),
            old(self).value(c) is None,
            1 <= v <= 9,
        ensures
            Self::collapsed(*old(self), *final(self), c, v, token@),
            old(self).domains_exact() ==> final(self).domains_exact(),
    {
        proof {
            lemma_cell_index();
        }
        let ghost before = *self;
        let ps = peers(c);
        self.board.set(c.0 * 9 + c.1, Some(v));
        let mut token: Vec<Cell> = Vec::new();
        let mut k: usize = 0;
        while k < 20
            invariant
                k <= 20,
                valid_cell(c),
                1 <= v <= 9,
                before.wf(),
                self.values() == before.values().update(cell_index(c), Some(v)),
                self.masks().len() == 81,
                ps@.len() == 20,
                ps@ == peer_seq(c),
                ps@.no_duplicates(),
                forall|j: int| 0 <= j < 20 ==> valid_cell(#[trigger] ps@[j]),
                forall|d: Cell| valid_cell(d) ==> (#[trigger] ps@.contains(d) <==> is_peer(c, d)),
                token@ == ps@.take(k as int).filter(|d: Cell| has_candidate(before.mask(d), v)),
                forall|i: int|
                    0 <= i < 81 ==> #[trigger] self.masks()[i] == if ps@.take(k as int).contains(
                        cell_at(i),
                    ) {
                        mask_without(before.masks()[i], v)
                    } else {
                        before.masks()[i]
                    },
                token@.no_duplicates(),
                forall|j: int| 0 <= j < token@.len() ==> valid_cell(#[trigger] token@[j]),
                forall|d: Cell|
                    valid_cell(d) ==> (#[trigger] token@.contains(d) <==> ps@.take(k as int).contains(d)
                        && has_candidate(before.mask(d), v)),
            decreases 20 - k,
        {
            let p = ps[k];
            let ip = p.0 * 9 + p.1;
            let ghost seen = ps@.take(k as int);
            assert(ps@.take(k + 1) =~= seen.push(p));
            assert(ps@.take(k + 1)[k as int] == p);
            proof {
                reveal(Seq::filter);
                assert(ps@.take(k + 1).drop_last() =~= seen);
                assert(ps@.take(k + 1).last() == p);
            }
            assert(!seen.contains(p));
            let m = self.cand[ip];
            assert(m == before.masks()[ip as int]);
            let ghost old_token = token@;
            if (m >> (v as u16)) & 1u16 == 1u16 {
                self.cand.set(ip, m & !(1u16 << (v as u16)));
                assert(!token@.contains(p));
                token.push(p);
                assert(token@[token@.len() - 1] == p);
            }
            assert forall|d: Cell| valid_cell(d) implies (#[trigger] token@.contains(d) <==> ps@.take(
                k + 1,
            ).contains(d) && has_candidate(before.mask(d), v)) by {
                assert(ps@.take(k + 1).contains(d) <==> seen.contains(d) || d == p);
                if token@.contains(d) && d != p {
                    let j = choose|j: int| 0 <= j < token@.len() && token@[j] == d;
                    assert(old_token[j] == d);
                }
                if d != p && old_token.contains(d) {
                    let j = choose|j: int| 0 <= j < old_token.len() && old_token[j] == d;
                    assert(token@[j] == d);
                }
            }
            assert forall|i: int|
                0 <= i < 81 implies #[trigger] self.masks()[i] == if ps@.take(k + 1).contains(
                cell_at(i),
            ) {
                mask_without(before.masks()[i], v)
            } else {
                before.masks()[i]
            } by {
                if i != ip {
                    assert(cell_at(i) != p);
                    assert(ps@.take(k + 1).contains(cell_at(i)) == seen.contains(cell_at(i)));
                } else {
                    assert(ps@.take(k + 1).contains(p));
                    lemma_mask_restore(m, v);
                }
            }
            k = k + 1;
        }
        assert(ps@.take(20) =~= ps@);
        proof {
            if before.domains_exact() {
                lemma_collapse_domains(before, *self, c, v, token@);
            }
        }
        token
    }

    /// Undoes the most recent `collapse` of `c`: clears the cell and gives its
    /// value back to the domain of every peer listed in `token`.
    pub fn decollapse(&mut self, c: Cell, token: &Vec<Cell>)
        requires
            old(self).wf(),
            valid_cell(c),
            old(self).value(c) is Some,
            forall|k: int| 0 <= k < token@.len() ==> valid_cell(#[trigger] token@[k]),
        ensures
            Self::decollapsed(*old(self), *final(self), c, token@),
    {
        proof {
            lemma_cell_index();
        }
        let ghost before = *self;
        let v = self.board[c.0 * 9 + c.1].unwrap();
        self.board.set(c.0 * 9 + c.1, None);
        let mut k: usize = 0;
        while k < token.len()
            invariant
                k <= token@.len(),
                valid_cell(c),
                v == before.value(c)->0,
                1 <= v <= 9,
                before.wf(),
                self.values() == before.values().update(cell_index(c), None),
                self.masks().len() == 81,
                forall|j: int| 0 <= j < token@.len() ==> valid_cell(#[trigger] token@[j]),
                forall|i: int|
                    0 <= i < 81 ==> #[trigger] self.masks()[i] == if token@.take(k as int).contains(
                        cell_at(i),
                    ) {
                        mask_with(before.masks()[i], v)
                    } else {
                        before.masks()[i]
                    },
            decreases token@.len() - k,
        {
            let p = token[k];
            let ip = p.0 * 9 + p.1;
            let ghost seen = token@.take(k as int);
            assert(token@.take(k + 1) =~= seen.push(p));
            assert(token@.take(k + 1)[k as int] == p);
            let m = self.cand[ip];
            self.cand.set(ip, m | (1u16 << (v as u16)));
            proof {
                lemma_mask_restore(before.masks()[ip as int], v);
            }
            assert forall|i: int|
                0 <= i < 81 implies #[trigger] self.masks()[i] == if token@.take(k + 1).contains(
                cell_at(i),
            ) {
                mask_with(before.masks()[i], v)
            } else {
                before.masks()[i]
            } by {
                if i != ip {
                    assert(cell_at(i) != p);
                    assert(token@.take(k + 1).contains(cell_at(i)) == seen.contains(cell_at(i)));
                } else {
                    assert(token@.take(k + 1).contains(p));
                }
            }
            k = k + 1;
        }
        assert(token@.take(token@.len() as int) =~= token@);
    }
}

/// A collapse keeps the domains exact: each peer of the cell loses the value
/// exactly as it gains a peer holding it.
proof fn lemma_collapse_domains(s0: Sudoku, s1: Sudoku, c: Cell, v: u8, token: Seq<Cell>)
    requires
        s0.wf(),
        s0.domains_exact(),
        valid_cell(c),
        s0.value(c) is None,
        1 <= v <= 9,
        Sudoku::collapsed(s0, s1, c, v, token),
    ensures
        s1.domains_exact(),
{
    lemma_cell_index();
    assert(s1.value(c) == Some(v));
    assert forall|d: Cell, w: u8|
        valid_cell(d) && s1.value(d) is None && 1 <= w <= 9 implies (has_candidate(
        #[trigger] s1.mask(d),
        w,
    ) <==> !#[trigger] s1.peer_holds(d, w)) by {
        assert(d != c);
        assert(s0.value(d) is None);
        lemma_mask_bits(s0.mask(d), v, w);
        assert(s1.mask(d) == if is_peer(c, d) {
            mask_without(s0.mask(d), v)
        } else {
            s0.mask(d)
        }) by {
            assert(cell_at(cell_index(d)) == d);
        }
        assert(has_candidate(s0.mask(d), w) <==> !s0.peer_holds(d, w));
        if s1.peer_holds(d, w) {
            let e = choose|e: Cell| valid_cell(e) && is_peer(d, e) && #[trigger] s1.value(e) == Some(w);
            if e != c {
                assert(cell_index(e) != cell_index(c));
                assert(s0.value(e) == Some(w));
            } else {
                assert(is_peer(c, d) && w == v);
            }
        }
        if s0.peer_holds(d, w) {
            let e = choose|e: Cell| valid_cell(e) && is_peer(d, e) && #[trigger] s0.value(e) == Some(w);
            assert(e != c);
            assert(cell_index(e) != cell_index(c));
            assert(s1.value(e) == Some(w));
        }
        if is_peer(c, d) && w == v {
            assert(is_peer(d, c));
            assert(s1.peer_holds(d, w));
        }
    }
}

/// Round trip: on an unassigned cell, `decollapse` with the token that
/// `collapse(c, v)` returned restores the assignment grid and every domain
/// exactly to what they were before the collapse.
pub proof fn lemma_round_trip(
    s0: Sudoku,
    s1: Sudoku,
    s2: Sudoku,
    c: Cell,
    v: u8,
    token: Seq<Cell>,
)
    requires
        s0.wf(),
        valid_cell(c),
        s0.value(c) is None,
        1 <= v <= 9,
        Sudoku::collapsed(s0, s1, c, v, token),
        Sudoku::decollapsed(s1, s2, c, token),
    ensures
        s2.values() == s0.values(),
        s2.masks() == s0.masks(),
{
    lemma_cell_index();
    assert(s1.value(c) == Some(v));
    assert(s2.values() =~= s0.values());
    assert forall|i: int| 0 <= i < 81 implies s2.masks()[i] == s0.masks()[i] by {
        let d = cell_at(i);
        assert(valid_cell(d));
        lemma_mask_restore(s0.masks()[i], v);
        assert(token.contains(d) <==> is_peer(c, d) && has_candidate(s0.mask(d), v));
    }
    assert(s2.masks() =~= s0.masks());
}

/// Constraint consistency: right after `collapse(c, v)` every peer of `c`
/// sees a peer holding `v`, and after the matching `decollapse` every cell
/// sees exactly the peer values it saw before the collapse.
pub proof fn lemma_constraint_consistency(
    s0: Sudoku,
    s1: Sudoku,
    s2: Sudoku,
    c: Cell,
    v: u8,
    token: Seq<Cell>,
)
    requires
        s0.wf(),
        valid_cell(c),
        s0.value(c) is None,
        1 <= v <= 9,
        Sudoku::collapsed(s0, s1, c, v, token),
        Sudoku::decollapsed(s1, s2, c, token),
    ensures
        forall|d: Cell| valid_cell(d) && is_peer(c, d) ==> #[trigger] s1.peer_holds(d, v),
        forall|d: Cell, w: u8| valid_cell(d) ==> #[trigger] s2.peer_holds(d, w) == s0.peer_holds(d, w),
{
    lemma_round_trip(s0, s1, s2, c, v, token);
    assert forall|d: Cell| valid_cell(d) && is_peer(c, d) implies #[trigger] s1.peer_holds(d, v) by {
        assert(is_peer(d, c));
        assert(s1.value(c) == Some(v));
    }
    assert forall|d: Cell, w: u8| valid_cell(d) implies #[trigger] s2.peer_holds(d, w) == s0.peer_holds(d, w) by {
        assert forall|e: Cell| true implies s2.value(e) == s0.value(e) by {}
    }
}

impl Sudoku {
    /// The minimum-remaining-values choice: `None` when every cell is
    /// assigned; otherwise the unassigned cell with the fewest candidates,
    /// the first such cell in row-major order when several tie.
    pub fn select_next(&self) -> (r: Option<Cell>)
        requires
            self.wf(),
        ensures
            r is None <==> self.complete(),
            r matches Some(c) ==> {
                &&& valid_cell(c)
                &&& self.value(c) is None
                &&& forall|i: int|
                    0 <= i < 81 && (#[trigger] self.values()[i]) is None ==> self.size_at(
                        cell_index(c),
                    ) <= self.size_at(i) && (i < cell_index(c) ==> self.size_at(cell_index(c))
                        < self.size_at(i))
            },
    {
        let mut best: Option<usize> = None;
        let mut best_size: u8 = 0;
        let mut i: usize = 0;
        while i < 81
            invariant
                i <= 81,
                self.wf(),
                best is None <==> forall|j: int| 0 <= j < i ==> (#[trigger] self.values()[j]) is Some,
                best matches Some(b) ==> {
                    &&& b < i
                    &&& self.values()[b as int] is None
                    &&& best_size == self.size_at(b as int)
                    &&& forall|j: int|
                        0 <= j < i && (#[trigger] self.values()[j]) is None ==> self.size_at(b as int)
                            <= self.size_at(j) && (j < b ==> self.size_at(b as int) < self.size_at(j))
                },
            decreases 81 - i,
        {
            if self.board[i].is_none() {
                let n = self.size_of(i);
                match best {
                    None => {
                        best = Some(i);
                        best_size = n;
                    },
                    Some(_) => {
                        if n < best_size {
                            best = Some(i);
                            best_size = n;
                        }
                    },
                }
            }
            i = i + 1;
        }
        match best {
            None => None,
            Some(b) => {
                proof {
                    lemma_cell_index();
                }
                assert(cell_at(b as int) == ((b / 9) as usize, (b % 9) as usize));
                Some((b / 9, b % 9))
            },
        }
    }
}

} // verus!
