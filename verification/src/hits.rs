//! Where a segment meets the pixel grid.
use crate::geometry::Point;
use crate::ordered::{Rank, Ranked};
use crate::rounding;
use crate::scalar::Scalar;
use core::cmp::Ordering;
use core::ops::Range;
use vstd::arithmetic::power2::*;
use vstd::prelude::*;
use vstd::std_specs::cmp::PartialEqSpec;

verus! {

/// The bit pattern of 2^-23.
pub const EPSILON: u32 = 0x3400_0000;

/// 2^-23 in steps.
pub open spec fn epsilon() -> nat {
    pow2(126)
}

pub proof fn lemma_epsilon()
    ensures
        (Scalar { bits: EPSILON }).value() == epsilon(),
        (Scalar { bits: EPSILON }).is_finite(),
{
    let e = Scalar { bits: EPSILON };
    lemma2_to64();
    assert(crate::scalar::unit_exponent(0x3400_0000) == 103);
    assert(crate::scalar::significand(0x3400_0000) == 0x80_0000);
    lemma_pow2_adds(23, 103);
}

/// The difference of `a` and `b` is at most 2^-23, as rounded.
pub open spec fn near(a: Scalar, b: Scalar) -> bool {
    &&& a.is_finite()
    &&& b.is_finite()
    &&& rounding::round_size(distance(a, b)) <= epsilon()
}

/// The exact distance of `a` and `b`, in steps.
pub open spec fn distance(a: Scalar, b: Scalar) -> nat {
    if a.value() < b.value() {
        (b.value() - a.value()) as nat
    } else {
        (a.value() - b.value()) as nat
    }
}

/// A point that cuts a segment, with its parameter along the segment.
#[derive(Clone, Copy, Debug)]
pub struct RawHit {
    pub position: Point,
    pub t: Scalar,
}

impl PartialEq for RawHit {
    fn eq(&self, other: &RawHit) -> (r: bool) {
        self.position == other.position && self.t == other.t
    }
}

impl vstd::std_specs::cmp::PartialEqSpecImpl for RawHit {
    open spec fn obeys_eq_spec() -> bool {
        true
    }

    open spec fn eq_spec(&self, other: &RawHit) -> bool {
        self.position.same(other.position) && self.t.compared(other.t) == Some(Ordering::Equal)
    }
}

impl Eq for RawHit {

}

/// The place of `s` among all bit patterns: negative numbers before positive
/// ones, zero included, and what is not a number at the two ends.
pub open spec fn total_rank(s: Scalar) -> int {
    if s.is_negative() {
        -1 - s.magnitude()
    } else {
        s.magnitude() as int
    }
}

fn total_key(s: Scalar) -> (k: i64)
    ensures
        k == total_rank(s),
{
    if s.bits >= 0x8000_0000 {
        -1 - s.unsigned() as i64
    } else {
        s.unsigned() as i64
    }
}

fn is_near(a: Scalar, b: Scalar) -> (r: bool)
    ensures
        r == near(a, b),
{
    let d: Scalar = a.minus(b).abs();
    proof {
        lemma_epsilon();
        d.lemma_size_kinds();
        (Scalar { bits: EPSILON }).lemma_size_kinds();
    }
    d.at_most(Scalar { bits: EPSILON })
}

impl Ranked for RawHit {
    /// By parameter; parameters that are near to each other rank the same.
    open spec fn ranked(self, other: RawHit) -> Rank {
        if near(self.t, other.t) {
            Rank::Same
        } else if total_rank(self.t) < total_rank(other.t) {
            Rank::Before
        } else if total_rank(self.t) == total_rank(other.t) {
            Rank::Same
        } else {
            Rank::After
        }
    }

    proof fn ranked_itself(self) {
    }

    proof fn ranked_both_ways(self, other: RawHit) {
    }

    proof fn ranked_through(self, middle: RawHit, other: RawHit) {
        if near(self.t, other.t) {
            self.t.lemma_order_rank(middle.t);
            middle.t.lemma_order_rank(other.t);
            rounding::lemma_round_monotone(
                distance(self.t, middle.t),
                distance(self.t, other.t),
            );
        }
    }

    fn rank(&self, other: &RawHit) -> Rank {
        if is_near(self.t, other.t) {
            return Rank::Same;
        }
        let k: i64 = total_key(self.t);
        let l: i64 = total_key(other.t);
        if k < l {
            Rank::Before
        } else if k == l {
            Rank::Same
        } else {
            Rank::After
        }
    }
}

/// The `Ordering` that a rank amounts to.
pub open spec fn as_ordering(rank: Rank) -> Ordering {
    match rank {
        Rank::Before => Ordering::Less,
        Rank::Same => Ordering::Equal,
        Rank::After => Ordering::Greater,
    }
}

fn to_ordering(rank: Rank) -> (r: Ordering)
    ensures
        r == as_ordering(rank),
{
    match rank {
        Rank::Before => Ordering::Less,
        Rank::Same => Ordering::Equal,
        Rank::After => Ordering::Greater,
    }
}

impl RawHit {
    /// Compares the parameters; those near to each other are equal.
    pub fn cmp(&self, other: &RawHit) -> (r: Ordering)
        ensures
            r == as_ordering(self.ranked(*other)),
    {
        to_ordering(self.rank(other))
    }
}

impl PartialOrd for RawHit {
    fn partial_cmp(&self, other: &RawHit) -> (r: Option<Ordering>) {
        Some(self.cmp(other))
    }
}

impl vstd::std_specs::cmp::PartialOrdSpecImpl for RawHit {
    open spec fn obeys_partial_cmp_spec() -> bool {
        true
    }

    open spec fn partial_cmp_spec(&self, other: &RawHit) -> Option<Ordering> {
        Some(as_ordering(self.ranked(*other)))
    }
}

/// A pixel that a segment passes through.
#[derive(Debug)]
pub struct Hit {
    pub x: isize,
    pub y: isize,
    /// The heights between which the segment passes through the pixel.
    pub y_range: Range<Scalar>,
    /// The segment, by its index.
    pub segment_id: usize,
    /// Whether the pixels between the hit before it in the row and this one
    /// are known to be not completely covered.
    pub uncovered: bool,
}

impl Hit {
    /// The two stand for the same piece of the same segment.
    pub open spec fn same_piece(self, other: Hit) -> bool {
        &&& self.x == other.x
        &&& self.y == other.y
        &&& self.y_range == other.y_range
        &&& self.segment_id == other.segment_id
    }
}

impl Clone for Hit {
    fn clone(&self) -> (r: Hit)
        ensures
            r == *self,
    {
        Hit {
            x: self.x,
            y: self.y,
            y_range: Range { start: self.y_range.start, end: self.y_range.end },
            segment_id: self.segment_id,
            uncovered: self.uncovered,
        }
    }
}

impl Ranked for Hit {
    /// By row, then by column.
    open spec fn ranked(self, other: Hit) -> Rank {
        if self.y < other.y || (self.y == other.y && self.x < other.x) {
            Rank::Before
        } else if self.y == other.y && self.x == other.x {
            Rank::Same
        } else {
            Rank::After
        }
    }

    proof fn ranked_itself(self) {
    }

    proof fn ranked_both_ways(self, other: Hit) {
    }

    proof fn ranked_through(self, middle: Hit, other: Hit) {
    }

    fn rank(&self, other: &Hit) -> Rank {
        if self.y < other.y || (self.y == other.y && self.x < other.x) {
            Rank::Before
        } else if self.y == other.y && self.x == other.x {
            Rank::Same
        } else {
            Rank::After
        }
    }
}

impl Hit {
    /// Compares the rows, then the columns.
    pub fn cmp(&self, other: &Hit) -> (r: Ordering)
        ensures
            r == as_ordering(self.ranked(*other)),
    {
        to_ordering(self.rank(other))
    }
}

impl PartialEq for Hit {
    fn eq(&self, other: &Hit) -> (r: bool) {
        self.x == other.x && self.y == other.y
    }
}

impl vstd::std_specs::cmp::PartialEqSpecImpl for Hit {
    open spec fn obeys_eq_spec() -> bool {
        true
    }

    open spec fn eq_spec(&self, other: &Hit) -> bool {
        self.x == other.x && self.y == other.y
    }
}

impl Eq for Hit {

}

impl PartialOrd for Hit {
    fn partial_cmp(&self, other: &Hit) -> (r: Option<Ordering>) {
        Some(self.cmp(other))
    }
}

impl vstd::std_specs::cmp::PartialOrdSpecImpl for Hit {
    open spec fn obeys_partial_cmp_spec() -> bool {
        true
    }

    open spec fn partial_cmp_spec(&self, other: &Hit) -> Option<Ordering> {
        Some(as_ordering(self.ranked(*other)))
    }
}

/// `<isize as Hash>::hash`, which feeds the number to the hasher. What the
/// hasher makes of it is its own affair: nothing is claimed of it. The function
/// is public because the contract of `hash` names it.
#[verifier::external_body]
pub fn feed<H: core::hash::Hasher>(x: isize, state: &mut H) {
    <isize as core::hash::Hash>::hash::<H>(&x, state)
}

impl core::hash::Hash for Hit {
    /// Feeds the column and then the row to the hasher, and nothing else.
    fn hash<H: core::hash::Hasher>(&self, state: &mut H)
        ensures
            exists|a: &mut H, b: &mut H|
                {
                    &&& *a == *old(state)
                    &&& *final(a) == *b
                    &&& *final(b) == *final(state)
                    &&& #[trigger] call_ensures(feed::<H>, (self.x, a), ())
                    &&& #[trigger] call_ensures(feed::<H>, (self.y, b), ())
                },
    {
        feed(self.x, state);
        feed(self.y, state);
    }
}

/// Equal hits feed a hasher alike: what one can leave behind in it, the other
/// can.
pub proof fn law_equal_hits_hash_alike<H: core::hash::Hasher>(
    p: Hit,
    q: Hit,
    before: H,
    after: H,
)
    requires
        p.eq_spec(&q),
        exists|a: &mut H, b: &mut H|
            {
                &&& *a == before
                &&& *final(a) == *b
                &&& *final(b) == after
                &&& #[trigger] call_ensures(feed::<H>, (p.x, a), ())
                &&& #[trigger] call_ensures(feed::<H>, (p.y, b), ())
            },
    ensures
        exists|a: &mut H, b: &mut H|
            {
                &&& *a == before
                &&& *final(a) == *b
                &&& *final(b) == after
                &&& #[trigger] call_ensures(feed::<H>, (q.x, a), ())
                &&& #[trigger] call_ensures(feed::<H>, (q.y, b), ())
            },
{
}

} // verus!
