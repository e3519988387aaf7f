//! A bit-packed set of coordinates within a fixed 7 x 7 window around a
//! reference center. Two bitboards may be combined only when they share a
//! center; a board always rebuilds all of its bitboards together, so their
//! centers agree by construction.

use vstd::prelude::*;

use vstd::arithmetic::div_mod::{lemma_fundamental_div_mod, lemma_mod_division_less_than_divisor};

use crate::bits::{bit, lemma_bit_diff, lemma_bit_or, lemma_bit_single, lemma_bit_zero,
    lemma_nonzero_bit, test_bit};

verus! {

/// True iff `(i, j)` lies within the 7 x 7 window centered on `(ci, cj)`.
pub open spec fn in_window(ci: int, cj: int, i: int, j: int) -> bool {
    ci - 3 <= i <= ci + 3 && cj - 3 <= j <= cj + 3
}

/// The bit position of a window cell, row-major.
pub open spec fn window_ix(ci: int, cj: int, i: int, j: int) -> int {
    (i - ci + 3) * 7 + (j - cj + 3)
}

/// Two window cells with the same bit position are the same cell.
proof fn lemma_ix_injective(ci: int, cj: int, i1: int, j1: int, i2: int, j2: int)
    requires
        in_window(ci, cj, i1, j1),
        in_window(ci, cj, i2, j2),
        window_ix(ci, cj, i1, j1) == window_ix(ci, cj, i2, j2),
    ensures
        i1 == i2 && j1 == j2,
{
}

/// A bit-packed set of coordinates sharing one fixed reference center.
#[derive(Clone, Copy, Debug, PartialEq, Eq, Structural)]
pub struct BitBoard {
    center_i: i8,
    center_j: i8,
    bits: u64,
}

impl View for BitBoard {
    type V = Set<(int, int)>;

    /// The set of member coordinates.
    closed spec fn view(&self) -> Set<(int, int)> {
        Set::new(|p: (int, int)| self.has(p.0, p.1))
    }
}

impl BitBoard {
    /// The reference center of this bitboard.
    pub closed spec fn ctr(self) -> (int, int) {
        (self.center_i as int, self.center_j as int)
    }

    /// The cell's bit is set, whether or not the cell is representable.
    closed spec fn raw_has(self, i: int, j: int) -> bool {
        &&& in_window(self.ctr().0, self.ctr().1, i, j)
        &&& bit(self.bits, window_ix(self.ctr().0, self.ctr().1, i, j) as u64)
    }

    /// The cell is a member: its bit is set and it is a real coordinate.
    pub closed spec fn has(self, i: int, j: int) -> bool {
        &&& self.raw_has(i, j)
        &&& -128 <= i <= 127
        &&& -128 <= j <= 127
    }

    /// No bit is set for a cell outside the coordinate domain.
    pub closed spec fn wf(self) -> bool {
        forall|i: int, j: int|
            #[trigger] self.raw_has(i, j) ==> -128 <= i <= 127 && -128 <= j <= 127
    }

    /// Every member lies in the window around the center.
    pub proof fn lemma_members_in_window(self)
        ensures
            forall|p: (int, int)| #[trigger]
                self@.contains(p) ==> in_window(self.ctr().0, self.ctr().1, p.0, p.1) && -128
                    <= p.0 <= 127 && -128 <= p.1 <= 127,
    {
    }

    /// A bitboard with no members.
    pub fn empty_board_centered_at(center: (i8, i8)) -> (r: BitBoard)
        ensures
            r.wf(),
            r.ctr() == (center.0 as int, center.1 as int),
            r@ == Set::<(int, int)>::empty(),
    {
        let r = BitBoard { center_i: center.0, center_j: center.1, bits: 0 };
        proof {
            lemma_bit_zero();
            assert forall|i: int, j: int| !#[trigger] r.raw_has(i, j) by {
                if in_window(r.ctr().0, r.ctr().1, i, j) {
                    assert(0 <= window_ix(r.ctr().0, r.ctr().1, i, j) < 49);
                }
            }
            assert(r@ =~= Set::<(int, int)>::empty());
        }
        r
    }

    /// Adds the cell `(i, j)`, which must lie in the window.
    pub fn insert(self, i: i8, j: i8) -> (r: BitBoard)
        requires
            self.wf(),
            in_window(self.ctr().0, self.ctr().1, i as int, j as int),
        ensures
            r.wf(),
            r.ctr() == self.ctr(),
            r@ == self@.insert((i as int, j as int)),
    {
        let idx = cell_index(self.center_i, self.center_j, i, j);
        let r = BitBoard {
            center_i: self.center_i,
            center_j: self.center_j,
            bits: self.bits | (1u64 << idx),
        };
        proof {
            lemma_bit_or(self.bits, 1u64 << idx);
            lemma_bit_single(idx);
            let ci = self.ctr().0;
            let cj = self.ctr().1;
            assert forall|x: int, y: int| #[trigger]
                r.raw_has(x, y) == (self.raw_has(x, y) || (x == i as int && y == j as int)) by {
                if in_window(ci, cj, x, y) {
                    assert(0 <= window_ix(ci, cj, x, y) < 49);
                    if window_ix(ci, cj, x, y) == idx as int {
                        lemma_ix_injective(ci, cj, x, y, i as int, j as int);
                    }
                }
            }
            assert(r.raw_has(i as int, j as int));
            assert(r@ =~= self@.insert((i as int, j as int)));
        }
        r
    }

    /// Removes the cell `(i, j)`, which must lie in the window.
    pub fn remove(self, i: i8, j: i8) -> (r: BitBoard)
        requires
            self.wf(),
            in_window(self.ctr().0, self.ctr().1, i as int, j as int),
        ensures
            r.wf(),
            r.ctr() == self.ctr(),
            r@ == self@.remove((i as int, j as int)),
    {
        let idx = cell_index(self.center_i, self.center_j, i, j);
        let r = BitBoard {
            center_i: self.center_i,
            center_j: self.center_j,
            bits: self.bits & !(1u64 << idx),
        };
        proof {
            lemma_bit_diff(self.bits, 1u64 << idx);
            lemma_bit_single(idx);
            let ci = self.ctr().0;
            let cj = self.ctr().1;
            assert forall|x: int, y: int| #[trigger]
                r.raw_has(x, y) == (self.raw_has(x, y) && !(x == i as int && y == j as int)) by {
                if in_window(ci, cj, x, y) {
                    assert(0 <= window_ix(ci, cj, x, y) < 49);
                    if window_ix(ci, cj, x, y) == idx as int {
                        lemma_ix_injective(ci, cj, x, y, i as int, j as int);
                    }
                }
            }
            assert(r@ =~= self@.remove((i as int, j as int)));
        }
        r
    }

    /// Tests membership of a cell; any coordinates may be asked about.
    pub fn contains(&self, i: i8, j: i8) -> (r: bool)
        ensures
            r == self@.contains((i as int, j as int)),
    {
        self.contains_wide(i as i16, j as i16)
    }

    /// Membership test over a widened domain, for neighbor arithmetic that
    /// may step outside the coordinate range.
    fn contains_wide(&self, x: i16, y: i16) -> (r: bool)
        ensures
            r == self@.contains((x as int, y as int)),
    {
        let ci = self.center_i as i16;
        let cj = self.center_j as i16;
        if x < ci - 3 || x > ci + 3 || y < cj - 3 || y > cj + 3 {
            false
        } else if x < -128 || x > 127 || y < -128 || y > 127 {
            false
        } else {
            let idx = cell_index(self.center_i, self.center_j, x as i8, y as i8);
            test_bit(self.bits, idx)
        }
    }

    /// The union of two bitboards sharing a center.
    pub fn union(self, other: BitBoard) -> (r: BitBoard)
        requires
            self.wf(),
            other.wf(),
            self.ctr() == other.ctr(),
        ensures
            r.wf(),
            r.ctr() == self.ctr(),
            r@ == self@.union(other@),
    {
        let r = BitBoard {
            center_i: self.center_i,
            center_j: self.center_j,
            bits: self.bits | other.bits,
        };
        proof {
            lemma_bit_or(self.bits, other.bits);
            let ci = self.ctr().0;
            let cj = self.ctr().1;
            assert forall|x: int, y: int| #[trigger]
                r.raw_has(x, y) == (self.raw_has(x, y) || other.raw_has(x, y)) by {
                if in_window(ci, cj, x, y) {
                    assert(0 <= window_ix(ci, cj, x, y) < 49);
                }
            }
            assert(r@ =~= self@.union(other@));
        }
        r
    }

    /// The members of `self` that are not members of `other`; the two must
    /// share a center.
    pub fn difference(self, other: BitBoard) -> (r: BitBoard)
        requires
            self.wf(),
            other.wf(),
            self.ctr() == other.ctr(),
        ensures
            r.wf(),
            r.ctr() == self.ctr(),
            r@ == self@.difference(other@),
    {
        let r = BitBoard {
            center_i: self.center_i,
            center_j: self.center_j,
            bits: self.bits & !other.bits,
        };
        proof {
            lemma_bit_diff(self.bits, other.bits);
            let ci = self.ctr().0;
            let cj = self.ctr().1;
            assert forall|x: int, y: int| #[trigger]
                r.raw_has(x, y) == (self.raw_has(x, y) && !other.raw_has(x, y)) by {
                if in_window(ci, cj, x, y) {
                    assert(0 <= window_ix(ci, cj, x, y) < 49);
                }
            }
            assert(r@ =~= self@.difference(other@));
        }
        r
    }

    /// True iff the bitboard has no members.
    pub fn is_empty(&self) -> (r: bool)
        requires
            self.wf(),
        ensures
            r == (self@ == Set::<(int, int)>::empty()),
    {
        let masked = self.bits & 0x1_FFFF_FFFF_FFFFu64;
        proof {
            crate::bits::lemma_bit_and(self.bits, 0x1_FFFF_FFFF_FFFFu64);
            assert(forall|k: u64| k < 49 ==> #[trigger] bit(0x1_FFFF_FFFF_FFFFu64, k))
                by (bit_vector);
            assert(forall|k: u64| 49 <= k < 64 ==> !#[trigger] bit(0x1_FFFF_FFFF_FFFFu64, k))
                by (bit_vector);
            lemma_bit_zero();
            let ci = self.ctr().0;
            let cj = self.ctr().1;
            if masked == 0 {
                assert forall|p: (int, int)| !#[trigger] self@.contains(p) by {
                    if self.has(p.0, p.1) {
                        assert(0 <= window_ix(ci, cj, p.0, p.1) < 49);
                        let k = window_ix(ci, cj, p.0, p.1) as u64;
                        assert(bit(self.bits, k) && bit(0x1_FFFF_FFFF_FFFFu64, k));
                        assert(!bit(masked, k));
                    }
                }
                assert(self@ =~= Set::<(int, int)>::empty());
            } else {
                lemma_nonzero_bit(masked);
                let k = choose|k: u64| k < 64 && bit(masked, k);
                assert(k < 49);
                let q = k as int / 7;
                let rr = k as int % 7;
                lemma_fundamental_div_mod(k as int, 7);
                lemma_mod_division_less_than_divisor(k as int, 7);
                assert(0 <= rr < 7);
                assert(0 <= q <= 6);
                let x = ci - 3 + q;
                let y = cj - 3 + rr;
                assert(in_window(ci, cj, x, y));
                assert(window_ix(ci, cj, x, y) == k as int);
                assert(self.raw_has(x, y));
                assert(self@.contains((x, y)));
            }
        }
        masked == 0
    }

    /// The member coordinates in ascending row-major order: a finite,
    /// restartable iteration surface.
    pub fn member_coords(&self) -> (r: Vec<(i8, i8)>)
        ensures
            forall|k: int|
                0 <= k < r@.len() ==> self@.contains(
                    ((#[trigger] r@[k]).0 as int, r@[k].1 as int),
                ),
            forall|p: (int, int)|
                #[trigger] self@.contains(p) ==> exists|k: int|
                    0 <= k < r@.len() && ((#[trigger] r@[k]).0 as int, r@[k].1 as int) == p,
    {
        let mut out: Vec<(i8, i8)> = Vec::new();
        let ci = self.center_i as i16;
        let cj = self.center_j as i16;
        let mut x: i16 = ci - 3;
        while x <= ci + 3
            invariant
                ci == self.center_i as int,
                cj == self.center_j as int,
                ci - 3 <= x as int <= ci + 4,
                forall|k: int|
                    0 <= k < out@.len() ==> self@.contains(
                        ((#[trigger] out@[k]).0 as int, out@[k].1 as int),
                    ),
                forall|p: (int, int)|
                    #[trigger] self@.contains(p) && p.0 < x as int ==> exists|k: int|
                        0 <= k < out@.len() && ((#[trigger] out@[k]).0 as int, out@[k].1 as int)
                            == p,
            decreases ci + 4 - x as int,
        {
            let mut y: i16 = cj - 3;
            while y <= cj + 3
                invariant
                    ci == self.center_i as int,
                    cj == self.center_j as int,
                    ci - 3 <= x as int <= ci + 3,
                    cj - 3 <= y as int <= cj + 4,
                    forall|k: int|
                        0 <= k < out@.len() ==> self@.contains(
                            ((#[trigger] out@[k]).0 as int, out@[k].1 as int),
                        ),
                    forall|p: (int, int)|
                        #[trigger] self@.contains(p) && (p.0 < x as int || (p.0 == x as int && p.1
                            < y as int)) ==> exists|k: int|
                            0 <= k < out@.len() && ((#[trigger] out@[k]).0 as int, out@[k].1
                                as int) == p,
                decreases cj + 4 - y as int,
            {
                let ghost pre = out@;
                let here = self.contains_wide(x, y);
                if here {
                    proof {
                        self.lemma_members_in_window();
                    }
                    out.push((x as i8, y as i8));
                    proof {
                        assert(out@[out@.len() - 1] == (x as i8, y as i8));
                        assert((((x as i8) as int), ((y as i8) as int)) == (x as int, y as int));
                    }
                }
                proof {
                    assert(forall|k: int| 0 <= k < pre.len() ==> #[trigger] out@[k] == pre[k]);
                    assert forall|p: (int, int)|
                        #[trigger] self@.contains(p) && (p.0 < x as int || (p.0 == x as int && p.1
                            < y as int + 1)) implies exists|k: int|
                            0 <= k < out@.len() && ((#[trigger] out@[k]).0 as int, out@[k].1
                                as int) == p by {
                        if p.0 == x as int && p.1 == y as int {
                            assert(here);
                            assert(((out@[out@.len() - 1]).0 as int, (out@[out@.len() - 1]).1
                                as int) == p);
                        } else {
                            let k = choose|k: int|
                                0 <= k < pre.len() && ((#[trigger] pre[k]).0 as int, pre[k].1
                                    as int) == p;
                            assert(((out@[k]).0 as int, (out@[k]).1 as int) == p);
                        }
                    }
                }
                y = y + 1;
            }
            proof {
                assert forall|p: (int, int)|
                    #[trigger] self@.contains(p) && p.0 < x as int + 1 implies exists|k: int|
                        0 <= k < out@.len() && ((#[trigger] out@[k]).0 as int, out@[k].1 as int)
                            == p by {
                    self.lemma_members_in_window();
                }
            }
            x = x + 1;
        }
        proof {
            assert forall|p: (int, int)| #[trigger] self@.contains(p) implies exists|k: int|
                0 <= k < out@.len() && ((#[trigger] out@[k]).0 as int, out@[k].1 as int) == p by {
                self.lemma_members_in_window();
            }
        }
        out
    }

    /// Bulk insert of a whole rectangle of cells, bounds inclusive; the
    /// corners must lie in the window.
    pub fn insert_area(self, i_min: i8, j_min: i8, i_max: i8, j_max: i8) -> (r: BitBoard)
        requires
            self.wf(),
            i_min <= i_max,
            j_min <= j_max,
            in_window(self.ctr().0, self.ctr().1, i_min as int, j_min as int),
            in_window(self.ctr().0, self.ctr().1, i_max as int, j_max as int),
        ensures
            r.wf(),
            r.ctr() == self.ctr(),
            r@ == self@.union(area_cells(i_min as int, j_min as int, i_max as int, j_max as int)),
    {
        let ghost area = area_cells(i_min as int, j_min as int, i_max as int, j_max as int);
        let mut acc = *&self;
        let mut x: i16 = i_min as i16;
        while x <= i_max as i16
            invariant
                self.wf(),
                acc.wf(),
                acc.ctr() == self.ctr(),
                i_min as int <= x as int <= i_max as int + 1,
                i_min <= i_max && j_min <= j_max,
                in_window(self.ctr().0, self.ctr().1, i_min as int, j_min as int),
                in_window(self.ctr().0, self.ctr().1, i_max as int, j_max as int),
                acc@ == self@.union(
                    Set::new(
                        |p: (int, int)|
                            i_min as int <= p.0 < x as int && j_min as int <= p.1 <= j_max as int,
                    ),
                ),
            decreases i_max as int + 1 - x as int,
        {
            let mut y: i16 = j_min as i16;
            while y <= j_max as i16
                invariant
                    self.wf(),
                    acc.wf(),
                    acc.ctr() == self.ctr(),
                    i_min as int <= x as int <= i_max as int,
                    j_min as int <= y as int <= j_max as int + 1,
                    i_min <= i_max && j_min <= j_max,
                    in_window(self.ctr().0, self.ctr().1, i_min as int, j_min as int),
                    in_window(self.ctr().0, self.ctr().1, i_max as int, j_max as int),
                    acc@ == self@.union(
                        Set::new(
                            |p: (int, int)|
                                (i_min as int <= p.0 < x as int && j_min as int <= p.1
                                    <= j_max as int) || (p.0 == x as int && j_min as int <= p.1
                                    < y as int),
                        ),
                    ),
                decreases j_max as int + 1 - y as int,
            {
                let ghost prev = acc@;
                acc = acc.insert(x as i8, y as i8);
                proof {
                    assert(acc@ =~= self@.union(
                        Set::new(
                            |p: (int, int)|
                                (i_min as int <= p.0 < x as int && j_min as int <= p.1
                                    <= j_max as int) || (p.0 == x as int && j_min as int <= p.1
                                    < y as int + 1),
                        ),
                    ));
                }
                y = y + 1;
            }
            proof {
                assert(self@.union(
                    Set::new(
                        |p: (int, int)|
                            (i_min as int <= p.0 < x as int && j_min as int <= p.1 <= j_max as int)
                                || (p.0 == x as int && j_min as int <= p.1 < j_max as int + 1),
                    ),
                ) =~= self@.union(
                    Set::new(
                        |p: (int, int)|
                            i_min as int <= p.0 < x as int + 1 && j_min as int <= p.1
                                <= j_max as int,
                    ),
                ));
            }
            x = x + 1;
        }
        proof {
            assert(self@.union(
                Set::new(
                    |p: (int, int)|
                        i_min as int <= p.0 < i_max as int + 1 && j_min as int <= p.1
                            <= j_max as int,
                ),
            ) =~= self@.union(area));
        }
        acc
    }
}

/// The step of each of the four line directions: row, column, diagonal,
/// anti-diagonal.
pub open spec fn dir_step(d: int) -> (int, int) {
    if d == 0 {
        (0, 1)
    } else if d == 1 {
        (1, 0)
    } else if d == 2 {
        (1, 1)
    } else {
        (1, -1)
    }
}

/// The cell `t` steps away from `(i, j)` along direction `d`.
pub open spec fn line_cell(i: int, j: int, d: int, t: int) -> (int, int) {
    (i + t * dir_step(d).0, j + t * dir_step(d).1)
}

/// All four consecutive cells at offset `off` along direction `d` through
/// `(i, j)` are members of `s`.
pub open spec fn window_present(s: Set<(int, int)>, i: int, j: int, d: int, off: int) -> bool {
    &&& s.contains(line_cell(i, j, d, off))
    &&& s.contains(line_cell(i, j, d, off + 1))
    &&& s.contains(line_cell(i, j, d, off + 2))
    &&& s.contains(line_cell(i, j, d, off + 3))
}

/// `p` is one of four consecutive member cells through `(i, j)` along
/// direction `d` at offset `off`.
pub open spec fn in_present_window(
    s: Set<(int, int)>,
    i: int,
    j: int,
    d: int,
    off: int,
    p: (int, int),
) -> bool {
    &&& 0 <= d < 4
    &&& -3 <= off <= 0
    &&& window_present(s, i, j, d, off)
    &&& (p == line_cell(i, j, d, off) || p == line_cell(i, j, d, off + 1) || p == line_cell(
        i,
        j,
        d,
        off + 2,
    ) || p == line_cell(i, j, d, off + 3))
}

/// The cells covered by the windows numbered below `n`, where window number
/// `d * 4 + off + 3` walks the four offsets of each direction in turn.
pub open spec fn lines_upto(s: Set<(int, int)>, i: int, j: int, n: int) -> Set<(int, int)> {
    Set::new(
        |p: (int, int)|
            exists|d: int, off: int|
                #[trigger] in_present_window(s, i, j, d, off, p) && d * 4 + off + 3 < n,
    )
}

/// For each of the four directions through `(i, j)`: every run of four
/// consecutive cells containing the point whose cells are all members of
/// `s`, united over directions and offsets.
pub open spec fn lines_through(s: Set<(int, int)>, i: int, j: int) -> Set<(int, int)> {
    Set::new(
        |p: (int, int)| exists|d: int, off: int| #[trigger] in_present_window(s, i, j, d, off, p),
    )
}

/// A product of a small step count and a unit direction step is small.
proof fn lemma_small_mul(a: int, b: int)
    by (nonlinear_arith)
    requires
        -3 <= a <= 3,
        -1 <= b <= 1,
    ensures
        -3 <= a * b <= 3,
{
}

/// Line detection only ever reports members of the queried set.
pub proof fn lemma_lines_subset(s: Set<(int, int)>, i: int, j: int)
    ensures
        lines_through(s, i, j).subset_of(s),
{
    assert forall|p: (int, int)| lines_through(s, i, j).contains(p) implies s.contains(p) by {
        let (d0, off0) = choose|d0: int, off0: int| in_present_window(s, i, j, d0, off0, p);
        assert(window_present(s, i, j, d0, off0));
    }
}

impl BitBoard {
    /// The sole win-detection primitive: unions, over the four directions
    /// through `(i, j)`, each run of four consecutive cells that are all
    /// members.
    pub fn lines_going_through_point(&self, i: i8, j: i8) -> (r: BitBoard)
        requires
            self.wf(),
        ensures
            r.wf(),
            r.ctr() == self.ctr(),
            r@ == lines_through(self@, i as int, j as int),
    {
        let ghost s = self@;
        let ghost ii = i as int;
        let ghost jj = j as int;
        let mut acc = BitBoard::empty_board_centered_at((self.center_i, self.center_j));
        proof {
            assert(acc@ =~= lines_upto(s, ii, jj, 0)) by {
                assert forall|p: (int, int)| !lines_upto(s, ii, jj, 0).contains(p) by {
                    if lines_upto(s, ii, jj, 0).contains(p) {
                        let (d0, off0) = choose|d0: int, off0: int|
                            in_present_window(s, ii, jj, d0, off0, p) && d0 * 4 + off0 + 3 < 0;
                    }
                }
            }
        }
        let mut d: u8 = 0;
        while d < 4
            invariant
                self.wf(),
                acc.wf(),
                acc.ctr() == self.ctr(),
                d <= 4,
                s == self@,
                ii == i as int,
                jj == j as int,
                acc@ == lines_upto(s, ii, jj, d as int * 4),
            decreases 4 - d as int,
        {
            let (sx, sy): (i8, i8) = if d == 0 {
                (0, 1)
            } else if d == 1 {
                (1, 0)
            } else if d == 2 {
                (1, 1)
            } else {
                (1, -1)
            };
            proof {
                assert((sx as int, sy as int) == dir_step(d as int));
            }
            let mut o: u8 = 0;
            while o < 4
                invariant
                    self.wf(),
                    acc.wf(),
                    acc.ctr() == self.ctr(),
                    d < 4,
                    o <= 4,
                    s == self@,
                    ii == i as int,
                    jj == j as int,
                    (sx as int, sy as int) == dir_step(d as int),
                    acc@ == lines_upto(s, ii, jj, d as int * 4 + o as int),
                decreases 4 - o as int,
            {
                let off = o as i16 - 3;
                let ghost n = d as int * 4 + o as int;
                let ghost offg = off as int;
                proof {
                    lemma_small_mul(offg, sx as int);
                    lemma_small_mul(offg, sy as int);
                    lemma_small_mul(offg + 1, sx as int);
                    lemma_small_mul(offg + 1, sy as int);
                    lemma_small_mul(offg + 2, sx as int);
                    lemma_small_mul(offg + 2, sy as int);
                    lemma_small_mul(offg + 3, sx as int);
                    lemma_small_mul(offg + 3, sy as int);
                }
                let x0 = i as i16 + off * (sx as i16);
                let y0 = j as i16 + off * (sy as i16);
                let x1 = i as i16 + (off + 1) * (sx as i16);
                let y1 = j as i16 + (off + 1) * (sy as i16);
                let x2 = i as i16 + (off + 2) * (sx as i16);
                let y2 = j as i16 + (off + 2) * (sy as i16);
                let x3 = i as i16 + (off + 3) * (sx as i16);
                let y3 = j as i16 + (off + 3) * (sy as i16);
                proof {
                    assert((x0 as int, y0 as int) == line_cell(ii, jj, d as int, offg));
                    assert((x1 as int, y1 as int) == line_cell(ii, jj, d as int, offg + 1));
                    assert((x2 as int, y2 as int) == line_cell(ii, jj, d as int, offg + 2));
                    assert((x3 as int, y3 as int) == line_cell(ii, jj, d as int, offg + 3));
                }
                let c0 = self.contains_wide(x0, y0);
                let c1 = self.contains_wide(x1, y1);
                let c2 = self.contains_wide(x2, y2);
                let c3 = self.contains_wide(x3, y3);
                if c0 && c1 && c2 && c3 {
                    let ghost prev = acc@;
                    proof {
                        assert(window_present(s, ii, jj, d as int, offg));
                        self.lemma_members_in_window();
                        assert(self@.contains((x0 as int, y0 as int)));
                        assert(self@.contains((x1 as int, y1 as int)));
                        assert(self@.contains((x2 as int, y2 as int)));
                        assert(self@.contains((x3 as int, y3 as int)));
                    }
                    acc = acc.insert(x0 as i8, y0 as i8);
                    acc = acc.insert(x1 as i8, y1 as i8);
                    acc = acc.insert(x2 as i8, y2 as i8);
                    acc = acc.insert(x3 as i8, y3 as i8);
                    proof {
                        let p0 = (x0 as int, y0 as int);
                        let p1 = (x1 as int, y1 as int);
                        let p2 = (x2 as int, y2 as int);
                        let p3 = (x3 as int, y3 as int);
                        assert(acc@ =~= lines_upto(s, ii, jj, n + 1)) by {
                            assert forall|p: (int, int)|
                                acc@.contains(p) implies lines_upto(s, ii, jj, n + 1).contains(
                                p,
                            ) by {
                                if prev.contains(p) {
                                    let (d0, off0) = choose|d0: int, off0: int|
                                        in_present_window(s, ii, jj, d0, off0, p) && d0 * 4 + off0
                                            + 3 < n;
                                    assert(in_present_window(s, ii, jj, d0, off0, p) && d0 * 4
                                        + off0 + 3 < n + 1);
                                } else {
                                    assert(p == p0 || p == p1 || p == p2 || p == p3);
                                    assert(in_present_window(s, ii, jj, d as int, offg, p) && d
                                        as int * 4 + offg + 3 < n + 1);
                                }
                            }
                            assert forall|p: (int, int)|
                                lines_upto(s, ii, jj, n + 1).contains(p) implies acc@.contains(
                                p,
                            ) by {
                                let (d0, off0) = choose|d0: int, off0: int|
                                    in_present_window(s, ii, jj, d0, off0, p) && d0 * 4 + off0 + 3
                                        < n + 1;
                                if d0 * 4 + off0 + 3 < n {
                                    assert(prev.contains(p));
                                } else {
                                    assert(d0 == d as int && off0 == offg);
                                }
                            }
                        }
                    }
                } else {
                    proof {
                        assert(!window_present(s, ii, jj, d as int, offg));
                        assert(lines_upto(s, ii, jj, n + 1) =~= lines_upto(s, ii, jj, n)) by {
                            assert forall|p: (int, int)|
                                lines_upto(s, ii, jj, n + 1).contains(p) implies lines_upto(
                                s,
                                ii,
                                jj,
                                n,
                            ).contains(p) by {
                                let (d0, off0) = choose|d0: int, off0: int|
                                    in_present_window(s, ii, jj, d0, off0, p) && d0 * 4 + off0 + 3
                                        < n + 1;
                                assert(d0 * 4 + off0 + 3 != n);
                                assert(in_present_window(s, ii, jj, d0, off0, p) && d0 * 4 + off0
                                    + 3 < n);
                            }
                            assert forall|p: (int, int)|
                                lines_upto(s, ii, jj, n).contains(p) implies lines_upto(
                                s,
                                ii,
                                jj,
                                n + 1,
                            ).contains(p) by {
                                let (d0, off0) = choose|d0: int, off0: int|
                                    in_present_window(s, ii, jj, d0, off0, p) && d0 * 4 + off0 + 3
                                        < n;
                                assert(in_present_window(s, ii, jj, d0, off0, p) && d0 * 4 + off0
                                    + 3 < n + 1);
                            }
                        }
                    }
                }
                o = o + 1;
            }
            d = d + 1;
        }
        proof {
            assert(acc@ =~= lines_through(s, ii, jj)) by {
                assert forall|p: (int, int)|
                    acc@.contains(p) implies lines_through(s, ii, jj).contains(p) by {
                    let (d0, off0) = choose|d0: int, off0: int|
                        in_present_window(s, ii, jj, d0, off0, p) && d0 * 4 + off0 + 3 < 16;
                    assert(in_present_window(s, ii, jj, d0, off0, p));
                }
                assert forall|p: (int, int)|
                    lines_through(s, ii, jj).contains(p) implies acc@.contains(p) by {
                    let (d0, off0) = choose|d0: int, off0: int|
                        in_present_window(s, ii, jj, d0, off0, p);
                    assert(in_present_window(s, ii, jj, d0, off0, p) && d0 * 4 + off0 + 3 < 16);
                }
            }
        }
        acc
    }
}

/// All coordinates in the closed rectangle `[i0, i1] x [j0, j1]`.
pub open spec fn area_cells(i0: int, j0: int, i1: int, j1: int) -> Set<(int, int)> {
    Set::new(|p: (int, int)| i0 <= p.0 <= i1 && j0 <= p.1 <= j1)
}

/// Maps a window cell to its bit position.
fn cell_index(ci: i8, cj: i8, i: i8, j: i8) -> (idx: u64)
    requires
        in_window(ci as int, cj as int, i as int, j as int),
    ensures
        idx as int == window_ix(ci as int, cj as int, i as int, j as int),
        idx < 49,
{
    let di = i as i16 - ci as i16 + 3;
    let dj = j as i16 - cj as i16 + 3;
    (di * 7 + dj) as u64
}

} // verus!
