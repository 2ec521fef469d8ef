//! The fixed constraint structure of the board: which cells see which.
use vstd::prelude::*;

verus! {

/// A cell of the board as `(x, y)`, each coordinate in `0..9`.
pub type Cell = (usize, usize);

/// Both coordinates lie on the board.
pub open spec fn valid_cell(c: Cell) -> bool {
    c.0 < 9 && c.1 < 9
}

/// Position of a cell in the flat, row-major layout of the grids.
pub open spec fn cell_index(c: Cell) -> int {
    c.0 * 9 + c.1
}

/// The cell stored at a flat position.
pub open spec fn cell_at(i: int) -> Cell {
    ((i / 9) as usize, (i % 9) as usize)
}

/// The band of three coordinates (0, 1 or 2) that holds `c`.
pub open spec fn band(c: usize) -> int {
    c as int / 3
}

/// The two cells lie in the same 3x3 box.
pub open spec fn same_box(a: Cell, b: Cell) -> bool {
    band(a.0) == band(b.0) && band(a.1) == band(b.1)
}

/// `b` is a peer of `a`: another cell sharing a row, a column or a box with it.
pub open spec fn is_peer(a: Cell, b: Cell) -> bool {
    a != b && (a.0 == b.0 || a.1 == b.1 || same_box(a, b))
}

/// The `k`-th of the eight coordinates in `0..9` other than `c`.
pub open spec fn skip(k: int, c: int) -> int {
    if k < c {
        k
    } else {
        k + 1
    }
}

/// The other two coordinates of the band of three that holds `c`, ascending.
pub open spec fn band_mates(c: usize) -> (usize, usize) {
    if c % 3 == 0 {
        ((c + 1) as usize, (c + 2) as usize)
    } else if c % 3 == 1 {
        ((c - 1) as usize, (c + 1) as usize)
    } else {
        ((c - 2) as usize, (c - 1) as usize)
    }
}

/// The peers of `c` in enumeration order: the rest of its first-coordinate line,
/// the rest of its second-coordinate line, then the four box cells on neither.
pub open spec fn peer_seq(c: Cell) -> Seq<Cell> {
    let (a, b) = band_mates(c.0);
    let (p, q) = band_mates(c.1);
    Seq::new(8, |k: int| (skip(k, c.0 as int) as usize, c.1)) + Seq::new(
        8,
        |k: int| (c.0, skip(k, c.1 as int) as usize),
    ) + seq![(a, p), (a, q), (b, p), (b, q)]
}

proof fn lemma_band_mates(c: usize)
    requires
        c < 9,
    ensures
        ({
            let (a, b) = band_mates(c);
            &&& a < b < 9
            &&& a != c && b != c
            &&& band(a) == band(c) && band(b) == band(c)
            &&& forall|d: usize| d < 9 && #[trigger] band(d) == band(c) ==> d == c || d == a || d == b
        }),
{
    if c == 0 {
    } else if c == 1 {
    } else if c == 2 {
    } else if c == 3 {
    } else if c == 4 {
    } else if c == 5 {
    } else if c == 6 {
    } else if c == 7 {
    } else {
    }
}

/// Every cell has exactly 20 peers, listed once each by `peer_seq`, none of
/// them the cell itself: the cells of its row, its column and its box.
pub proof fn lemma_peer_completeness(c: Cell)
    requires
        valid_cell(c),
    ensures
        peer_seq(c).len() == 20,
        peer_seq(c).no_duplicates(),
        !peer_seq(c).contains(c),
        forall|k: int| 0 <= k < 20 ==> valid_cell(#[trigger] peer_seq(c)[k]),
        forall|d: Cell| valid_cell(d) ==> (peer_seq(c).contains(d) <==> is_peer(c, d)),
{
    lemma_band_mates(c.0);
    lemma_band_mates(c.1);
    let s = peer_seq(c);
    let (a, b) = band_mates(c.0);
    let (p, q) = band_mates(c.1);
    assert(s.len() == 20);
    assert forall|k: int| 0 <= k < 20 implies {
        &&& valid_cell(#[trigger] s[k])
        &&& is_peer(c, s[k])
        &&& (k < 8 ==> s[k].1 == c.1 && s[k].0 != c.0 && s[k].0 == skip(k, c.0 as int))
        &&& (8 <= k < 16 ==> s[k].0 == c.0 && s[k].1 != c.1 && s[k].1 == skip(k - 8, c.1 as int))
        &&& (16 <= k ==> s[k].0 != c.0 && s[k].1 != c.1)
        &&& (k == 16 ==> s[k] == (a, p))
        &&& (k == 17 ==> s[k] == (a, q))
        &&& (k == 18 ==> s[k] == (b, p))
        &&& (k == 19 ==> s[k] == (b, q))
    } by {}
    assert forall|i: int, j: int| 0 <= i < 20 && 0 <= j < 20 && i != j implies s[i] != s[j] by {
        assert(valid_cell(s[i]) && valid_cell(s[j]));
    }
    assert forall|d: Cell| valid_cell(d) && is_peer(c, d) implies s.contains(d) by {
        if d.1 == c.1 {
            let k: int = if d.0 < c.0 { d.0 as int } else { d.0 - 1 };
            assert(valid_cell(s[k]));
            assert(s[k] == d);
        } else if d.0 == c.0 {
            let k: int = if d.1 < c.1 { d.1 as int } else { d.1 - 1 };
            assert(valid_cell(s[k + 8]));
            assert(s[k + 8] == d);
        } else {
            assert(d.0 == a || d.0 == b);
            assert(d.1 == p || d.1 == q);
            assert(valid_cell(s[16]) && valid_cell(s[17]) && valid_cell(s[18]) && valid_cell(s[19]));
            if d.0 == a && d.1 == p {
                assert(s[16] == d);
            } else if d.0 == a {
                assert(s[17] == d);
            } else if d.1 == p {
                assert(s[18] == d);
            } else {
                assert(s[19] == d);
            }
        }
    }
    assert forall|d: Cell| valid_cell(d) && s.contains(d) implies is_peer(c, d) by {
        let k = choose|k: int| 0 <= k < s.len() && s[k] == d;
        assert(valid_cell(s[k]));
    }
}

fn band_mates_of(c: usize) -> (r: (usize, usize))
    requires
        c < 9,
    ensures
        r == band_mates(c),
{
    if c % 3 == 0 {
        (c + 1, c + 2)
    } else if c % 3 == 1 {
        (c - 1, c + 1)
    } else {
        (c - 2, c - 1)
    }
}

/// The 20 peers of `c`, each listed once, in the order of `peer_seq`.
pub fn peers(c: Cell) -> (r: Vec<Cell>)
    requires
        valid_cell(c),
    ensures
        r@ == peer_seq(c),
        r@.len() == 20,
        r@.no_duplicates(),
        !r@.contains(c),
        forall|k: int| 0 <= k < 20 ==> valid_cell(#[trigger] r@[k]),
        forall|d: Cell| valid_cell(d) ==> (r@.contains(d) <==> is_peer(c, d)),
{
    let (cx, cy) = c;
    let ghost first = Seq::new(8, |k: int| (skip(k, cx as int) as usize, cy));
    let ghost second = Seq::new(8, |k: int| (cx, skip(k, cy as int) as usize));
    let mut r: Vec<Cell> = Vec::new();
    let mut x: usize = 0;
    while x < 9
        invariant
            x <= 9,
            cx < 9,
            first == Seq::new(8, |k: int| (skip(k, cx as int) as usize, cy)),
            r@ == first.take(if x <= cx { x as int } else { x - 1 }),
        decreases 9 - x,
    {
        if x != cx {
            let ghost k: int = if x < cx { x as int } else { x - 1 };
            assert(first[k] == (x, cy));
            r.push((x, cy));
            assert(r@ =~= first.take(k + 1));
        }
        x = x + 1;
    }
    assert(r@ =~= first);
    let mut y: usize = 0;
    while y < 9
        invariant
            y <= 9,
            cy < 9,
            second == Seq::new(8, |k: int| (cx, skip(k, cy as int) as usize)),
            r@ == first + second.take(if y <= cy { y as int } else { y - 1 }),
        decreases 9 - y,
    {
        if y != cy {
            let ghost k: int = if y < cy { y as int } else { y - 1 };
            assert(second[k] == (cx, y));
            r.push((cx, y));
            assert(r@ =~= first + second.take(k + 1));
        }
        y = y + 1;
    }
    let (a, b) = band_mates_of(cx);
    let (p, q) = band_mates_of(cy);
    r.push((a, p));
    r.push((a, q));
    r.push((b, p));
    r.push((b, q));
    assert(r@ =~= peer_seq(c));
    proof {
        lemma_peer_completeness(c);
    }
    r
}

} // verus!
