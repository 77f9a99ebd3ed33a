//! A set of the digits 1..=9, packed into a 16-bit mask: bit `v - 1` set
//! means that the digit `v` is a member. Copy semantics, never allocates.

use vstd::prelude::*;

verus! {

/// A set of the digits 1..=9, usable as a per-cell candidate set.
#[derive(Clone, Copy, Debug, PartialEq, Eq, Structural)]
pub struct ValueSet {
    bits: u16,
}

impl ValueSet {
    /// `v` is a member. The empty-cell sentinel 0 (and anything above 9)
    /// is never a member.
    pub closed spec fn spec_has(self, v: u8) -> bool {
        1 <= v <= 9 && (self.bits >> ((v - 1) as u16)) & 1 == 1
    }

    /// The number of members among the digits `lo..=9`.
    pub open spec fn count_from(self, lo: int) -> int
        decreases 10 - lo,
    {
        if lo > 9 {
            0
        } else {
            (if self.spec_has(lo as u8) {
                1int
            } else {
                0int
            }) + self.count_from(lo + 1)
        }
    }

    /// The number of members.
    pub open spec fn spec_count(self) -> int {
        self.count_from(1)
    }

    /// The members below `hi`, in ascending order.
    pub open spec fn members_below(self, hi: int) -> Seq<u8>
        decreases hi,
    {
        if hi <= 1 {
            seq![]
        } else {
            self.members_below(hi - 1) + if self.spec_has((hi - 1) as u8) {
                seq![(hi - 1) as u8]
            } else {
                seq![]
            }
        }
    }

    /// All members, in ascending order.
    pub open spec fn members(self) -> Seq<u8> {
        self.members_below(10)
    }

    /// Members are always digits: 0 (the empty-cell sentinel) and anything
    /// above 9 are never members of any set.
    pub proof fn lemma_members_in_range(self, v: u8)
        ensures
            self.spec_has(v) ==> 1 <= v <= 9,
    {
    }

    /// The set with no members.
    pub fn empty() -> (r: ValueSet)
        ensures
            forall|v: u8| !r.spec_has(v),
    {
        let r = ValueSet { bits: 0 };
        proof {
            assert forall|v: u8| !r.spec_has(v) by {
                assert(!(1 <= v <= 9 && (0u16 >> ((v - 1) as u16)) & 1 == 1)) by (bit_vector);
            }
        }
        r
    }

    /// The set holding every digit 1..=9.
    pub fn full() -> (r: ValueSet)
        ensures
            forall|v: u8| r.spec_has(v) <==> 1 <= v <= 9,
    {
        let r = ValueSet { bits: 0x1ff };
        proof {
            assert forall|v: u8| r.spec_has(v) <==> 1 <= v <= 9 by {
                assert(1 <= v <= 9 ==> (0x1ffu16 >> ((v - 1) as u16)) & 1 == 1) by (bit_vector);
            }
        }
        r
    }

    /// Membership. Calling this with 0 (the empty-cell sentinel) is allowed
    /// and always answers `false`; values above 9 are out of the domain.
    pub fn contains(&self, value: u8) -> (r: bool)
        requires
            value <= 9,
        ensures
            r == self.spec_has(value),
            value == 0 ==> r == false,
    {
        if value == 0 {
            false
        } else {
            let r = (self.bits & (1u16 << ((value - 1) as u16))) > 0;
            proof {
                let b = self.bits;
                assert((b & (1u16 << ((value - 1) as u16)) > 0) == ((b >> ((value - 1) as u16)) & 1
                    == 1)) by (bit_vector)
                    requires
                        1 <= value <= 9,
                ;
            }
            r
        }
    }

    /// The number of members, between 0 and 9.
    pub fn count(&self) -> (r: u8)
        ensures
            r as int == self.spec_count(),
            r <= 9,
    {
        let mut c: u8 = 0;
        let mut v: u8 = 1;
        proof {
            self.lemma_count_from_bounds(1);
        }
        while v <= 9
            invariant
                1 <= v <= 10,
                c as int + self.count_from(v as int) == self.spec_count(),
                c as int <= 9 - self.count_from(v as int),
            decreases 10 - v,
        {
            proof {
                self.lemma_count_from_bounds(v as int + 1);
            }
            if self.contains(v) {
                c = c + 1;
            }
            v = v + 1;
        }
        c
    }

    /// `count_from` counts at most one member per digit.
    pub proof fn lemma_count_from_bounds(self, lo: int)
        ensures
            0 <= self.count_from(lo),
            self.count_from(lo) <= if lo > 9 {
                0int
            } else {
                10 - lo
            },
        decreases 10 - lo,
    {
        if lo <= 9 {
            self.lemma_count_from_bounds(lo + 1);
        }
    }

    /// A set counts zero members from `lo` on exactly when no digit from
    /// `lo` on is a member.
    pub proof fn lemma_count_from_zero(self, lo: int)
        ensures
            (self.count_from(lo) == 0) <==> (forall|w: u8| lo <= w <= 9 ==> !self.spec_has(w)),
        decreases 10 - lo,
    {
        if lo <= 9 {
            self.lemma_count_from_zero(lo + 1);
            self.lemma_count_from_bounds(lo + 1);
        }
    }

    /// A set has zero members exactly when no digit is a member.
    pub proof fn lemma_count_zero(self)
        ensures
            (self.spec_count() == 0) <==> (forall|w: u8| !self.spec_has(w)),
    {
        self.lemma_count_from_zero(1);
    }

    /// The smallest member, or `None` if the set is empty.
    pub fn get_first(&self) -> (r: Option<u8>)
        ensures
            match r {
                Some(v) => self.spec_has(v) && forall|w: u8| w < v ==> !self.spec_has(w),
                None => forall|w: u8| !self.spec_has(w),
            },
    {
        let mut v: u8 = 1;
        while v <= 9
            invariant
                1 <= v <= 10,
                forall|w: u8| w < v ==> !self.spec_has(w),
            decreases 10 - v,
        {
            if self.contains(v) {
                return Some(v);
            }
            v = v + 1;
        }
        None
    }

    /// Adds `value` to the set; adding 0 is a no-op, adding a present
    /// member keeps the set unchanged.
    pub fn add(&mut self, value: u8)
        requires
            value <= 9,
        ensures
            forall|w: u8|
                final(self).spec_has(w) == (old(self).spec_has(w) || (w == value && 1 <= value)),
    {
        if value == 0 {
            return ;
        }
        let ghost b0: u16 = self.bits;
        self.bits = self.bits | (1u16 << ((value - 1) as u16));
        proof {
            let b1 = self.bits;
            assert forall|w: u8|
                final(self).spec_has(w) == (old(self).spec_has(w) || (w == value && 1 <= value)) by {
                assert(1 <= w <= 9 && 1 <= value <= 9 && b1 == b0 | (1u16 << ((value - 1) as u16))
                    ==> (((b1 >> ((w - 1) as u16)) & 1 == 1) == (((b0 >> ((w - 1) as u16)) & 1 == 1)
                    || w == value))) by (bit_vector);
            }
        }
    }

    /// Removes `value` from the set; removing 0 is a no-op, removing an
    /// absent value keeps the set unchanged.
    pub fn remove(&mut self, value: u8)
        requires
            value <= 9,
        ensures
            forall|w: u8| final(self).spec_has(w) == (old(self).spec_has(w) && w != value),
    {
        if value == 0 {
            return ;
        }
        let ghost b0: u16 = self.bits;
        self.bits = self.bits & !(1u16 << ((value - 1) as u16));
        proof {
            let b1 = self.bits;
            assert forall|w: u8|
                final(self).spec_has(w) == (old(self).spec_has(w) && w != value) by {
                assert(1 <= w <= 9 && 1 <= value <= 9 && b1 == b0 & !(1u16 << ((value - 1) as u16))
                    ==> (((b1 >> ((w - 1) as u16)) & 1 == 1) == (((b0 >> ((w - 1) as u16)) & 1 == 1)
                    && w != value))) by (bit_vector);
            }
        }
    }

    /// Empties the set.
    pub fn clear(&mut self)
        ensures
            forall|w: u8| !final(self).spec_has(w),
    {
        self.bits = 0;
        proof {
            assert forall|w: u8| !final(self).spec_has(w) by {
                assert(!(1 <= w <= 9 && (0u16 >> ((w - 1) as u16)) & 1 == 1)) by (bit_vector);
            }
        }
    }

    /// Every element of the member list is a member of the set.
    pub proof fn lemma_members_below_has(self, hi: int)
        requires
            1 <= hi <= 10,
        ensures
            forall|k: int|
                0 <= k < self.members_below(hi).len() ==> self.spec_has(
                    #[trigger] self.members_below(hi)[k],
                ),
        decreases hi,
    {
        if hi > 1 {
            self.lemma_members_below_has(hi - 1);
            let prefix = self.members_below(hi - 1);
            assert forall|k: int| 0 <= k < self.members_below(hi).len() implies self.spec_has(
                self.members_below(hi)[k],
            ) by {
                if k < prefix.len() {
                    assert(self.members_below(hi)[k] == prefix[k]);
                } else {
                    assert(self.members_below(hi)[k] == (hi - 1) as u8);
                    assert(self.spec_has((hi - 1) as u8));
                }
            }
        }
    }

    /// Every element of `members()` is a member of the set.
    pub proof fn lemma_members_has(self)
        ensures
            forall|k: int|
                0 <= k < self.members().len() ==> self.spec_has(#[trigger] self.members()[k]),
    {
        self.lemma_members_below_has(10);
    }

    /// Every member below `hi` appears in the member list below `hi`.
    pub proof fn lemma_members_below_complete(self, hi: int, w: u8)
        requires
            1 <= hi <= 10,
            self.spec_has(w),
            w < hi,
        ensures
            self.members_below(hi).contains(w),
        decreases hi,
    {
        let m = self.members_below(hi);
        if w == hi - 1 {
            assert(m[self.members_below(hi - 1).len() as int] == w);
        } else {
            self.lemma_members_below_complete(hi - 1, w);
            let k = choose|k: int|
                0 <= k < self.members_below(hi - 1).len() && #[trigger] self.members_below(
                    hi - 1,
                )[k] == w;
            assert(m[k] == w);
        }
    }

    /// Every member appears in the member list.
    pub proof fn lemma_members_complete(self, w: u8)
        requires
            self.spec_has(w),
        ensures
            self.members().contains(w),
    {
        self.lemma_members_below_complete(10, w);
    }

    /// The member list below `hi` is strictly ascending, and every entry is
    /// below `hi`.
    pub proof fn lemma_members_below_sorted(self, hi: int)
        requires
            1 <= hi <= 10,
        ensures
            forall|i: int, j: int|
                0 <= i < j < self.members_below(hi).len() ==> self.members_below(hi)[i]
                    < self.members_below(hi)[j],
            forall|i: int|
                0 <= i < self.members_below(hi).len() ==> self.members_below(hi)[i] < hi,
        decreases hi,
    {
        if hi > 1 {
            self.lemma_members_below_sorted(hi - 1);
            let p = self.members_below(hi - 1);
            let m = self.members_below(hi);
            assert forall|i: int| 0 <= i < m.len() implies m[i] < hi by {
                if i < p.len() {
                    assert(m[i] == p[i]);
                } else {
                    assert(m[i] == (hi - 1) as u8);
                }
            }
            assert forall|i: int, j: int| 0 <= i < j < m.len() implies m[i] < m[j] by {
                if j < p.len() {
                    assert(m[i] == p[i] && m[j] == p[j]);
                } else {
                    assert(m[i] == p[i] && m[j] == (hi - 1) as u8 && p[i] < hi - 1);
                }
            }
        }
    }

    /// The member list is strictly ascending.
    pub proof fn lemma_members_sorted(self)
        ensures
            forall|i: int, j: int|
                0 <= i < j < self.members().len() ==> self.members()[i] < self.members()[j],
    {
        self.lemma_members_below_sorted(10);
    }

    /// The set of the digits occurring in a slice; 0 entries, standing for
    /// empty cells, contribute no member.
    pub fn from_values(values: &[u8]) -> (r: ValueSet)
        requires
            forall|i: int| 0 <= i < values@.len() ==> values@[i] <= 9,
        ensures
            forall|w: u8| r.spec_has(w) <==> (1 <= w <= 9 && values@.contains(w)),
    {
        let mut r = ValueSet::empty();
        let n = values.len();
        let mut i: usize = 0;
        while i < n
            invariant
                n == values@.len(),
                i <= n,
                forall|k: int| 0 <= k < n ==> values@[k] <= 9,
                forall|w: u8|
                    r.spec_has(w) <==> (1 <= w <= 9 && exists|k: int| 0 <= k < i && values@[k] == w),
            decreases n - i,
        {
            let v = values[i];
            r.add(v);
            proof {
                assert forall|w: u8|
                    r.spec_has(w) <==> (1 <= w <= 9 && exists|k: int|
                        0 <= k < i + 1 && values@[k] == w) by {
                    if 1 <= w <= 9 && w == v {
                        assert(values@[i as int] == w);
                    }
                }
            }
            i = i + 1;
        }
        r
    }

    /// The members as a vector, in ascending order.
    pub fn to_vec(&self) -> (r: Vec<u8>)
        ensures
            r@ == self.members(),
    {
        let mut r: Vec<u8> = Vec::new();
        let mut v: u8 = 1;
        while v <= 9
            invariant
                1 <= v <= 10,
                r@ == self.members_below(v as int),
            decreases 10 - v,
        {
            if self.contains(v) {
                r.push(v);
            }
            proof {
                assert(r@ =~= self.members_below(v as int + 1));
            }
            v = v + 1;
        }
        r
    }
}

/// Restartable iteration over a set's members in ascending order; each pass
/// works on its own copy of the set, so the source set is unaffected.
pub struct ValueSetIterator {
    set: ValueSet,
    next_value: u8,
}

impl ValueSetIterator {
    pub closed spec fn spec_set(self) -> ValueSet {
        self.set
    }

    pub closed spec fn spec_pos(self) -> u8 {
        self.next_value
    }

    /// A fresh pass over the members of `value_set`.
    pub fn new(value_set: ValueSet) -> (r: ValueSetIterator)
        ensures
            r.spec_set() == value_set,
            r.spec_pos() == 0,
    {
        ValueSetIterator { set: value_set, next_value: 0 }
    }

    /// The smallest not-yet-yielded member, or `None` once the members are
    /// exhausted.
    pub fn next(&mut self) -> (r: Option<u8>)
        ensures
            final(self).spec_set() == old(self).spec_set(),
            match r {
                Some(v) => {
                    &&& old(self).spec_set().spec_has(v)
                    &&& v >= old(self).spec_pos()
                    &&& forall|w: u8| old(self).spec_pos() <= w < v ==> !old(self).spec_set().spec_has(w)
                    &&& final(self).spec_pos() == v + 1
                },
                None => {
                    &&& forall|w: u8| w >= old(self).spec_pos() ==> !old(self).spec_set().spec_has(w)
                    &&& final(self).spec_pos() == (if old(self).spec_pos() > 10 { old(self).spec_pos() } else { 10 })
                },
            },
    {
        while self.next_value <= 9
            invariant
                self.set == old(self).set,
                self.next_value >= old(self).next_value,
                if old(self).next_value > 9 {
                    self.next_value == old(self).next_value
                } else {
                    self.next_value <= 10
                },
                forall|w: u8| old(self).next_value <= w < self.next_value ==> !self.set.spec_has(w),
            decreases 10 - self.next_value,
        {
            self.next_value = self.next_value + 1;
            if self.set.contains(self.next_value - 1) {
                return Some(self.next_value - 1);
            }
        }
        None
    }
}

} // verus!
