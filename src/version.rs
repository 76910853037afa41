//! Release versions and the version ranges that dependency edges carry.
use vstd::prelude::*;
use crate::text::{decimal, push_decimal};

verus! {

/// A release version such as `1.2.0`: its numeric segments, most significant
/// first. Missing trailing segments count as zero, so `1.0` and `1` are equal.
#[derive(Debug)]
pub struct Version {
    pub release: Vec<u64>,
}

impl View for Version {
    type V = Seq<u64>;

    open spec fn view(&self) -> Seq<u64> {
        self.release@
    }
}

/// Segment `i` of a release, zero past its end.
pub open spec fn segment(v: Seq<u64>, i: int) -> u64 {
    if 0 <= i < v.len() {
        v[i]
    } else {
        0
    }
}

/// Three-way comparison of releases, segment by segment (-1, 0 or 1).
pub open spec fn release_cmp(a: Seq<u64>, b: Seq<u64>) -> int
    decreases a.len() + b.len(),
{
    if a.len() == 0 && b.len() == 0 {
        0
    } else if segment(a, 0) < segment(b, 0) {
        -1
    } else if segment(a, 0) > segment(b, 0) {
        1
    } else {
        release_cmp(
            if a.len() == 0 { a } else { a.drop_first() },
            if b.len() == 0 { b } else { b.drop_first() },
        )
    }
}

/// The dotted decimal form of a release.
pub open spec fn release_text(v: Seq<u64>) -> Seq<char>
    decreases v.len(),
{
    if v.len() == 0 {
        seq![]
    } else if v.len() == 1 {
        decimal(v[0] as nat)
    } else {
        release_text(v.drop_last()) + seq!['.'] + decimal(v.last() as nat)
    }
}

impl Version {
    pub fn new(release: Vec<u64>) -> (r: Version)
        ensures
            r@ == release@,
    {
        Version { release }
    }

    pub fn duplicate(&self) -> (r: Version)
        ensures
            r@ == self@,
    {
        Version { release: self.release.clone() }
    }

    /// Three-way comparison: -1, 0 or 1.
    pub fn compare(&self, other: &Version) -> (r: i8)
        ensures
            r as int == release_cmp(self@, other@),
    {
        let a = &self.release;
        let b = &other.release;
        let mut i: usize = 0;
        assert(self@ == a@ && other@ == b@);
        assert(a@.skip(0) =~= a@);
        assert(b@.skip(0) =~= b@);
        while i < a.len() || i < b.len()
            invariant
                self@ == a@,
                other@ == b@,
                release_cmp(a@, b@) == release_cmp(
                    a@.skip(if i <= a.len() { i as int } else { a.len() as int }),
                    b@.skip(if i <= b.len() { i as int } else { b.len() as int }),
                ),
            decreases a.len() + b.len() - i,
        {
            let ghost sa = a@.skip(if i <= a.len() { i as int } else { a.len() as int });
            let ghost sb = b@.skip(if i <= b.len() { i as int } else { b.len() as int });
            let x: u64 = if i < a.len() { a[i] } else { 0 };
            let y: u64 = if i < b.len() { b[i] } else { 0 };
            assert(x == segment(sa, 0));
            assert(y == segment(sb, 0));
            assert(sa.len() > 0 || sb.len() > 0);
            if x < y {
                return -1;
            }
            if x > y {
                return 1;
            }
            assert(sa.len() == 0 ==> sa =~= a@.skip(if i + 1 <= a.len() { i + 1 } else { a.len() as int }));
            assert(sa.len() > 0 ==> sa.drop_first() =~= a@.skip(i + 1));
            assert(sb.len() == 0 ==> sb =~= b@.skip(if i + 1 <= b.len() { i + 1 } else { b.len() as int }));
            assert(sb.len() > 0 ==> sb.drop_first() =~= b@.skip(i + 1));
            i = i + 1;
        }
        assert(a@.skip(a.len() as int).len() == 0);
        0
    }

    /// Whether the two versions are equal as releases (`1.0 == 1`).
    pub fn equals(&self, other: &Version) -> (r: bool)
        ensures
            r == (release_cmp(self@, other@) == 0),
    {
        self.compare(other) == 0
    }

    /// The dotted decimal form, e.g. `1.2.0`.
    pub fn to_string(&self) -> (r: String)
        ensures
            r@ == release_text(self@),
    {
        let mut out = String::new();
        let mut i: usize = 0;
        while i < self.release.len()
            invariant
                i <= self.release.len(),
                out@ == release_text(self@.take(i as int)),
            decreases self.release.len() - i,
        {
            assert(self@.take(i + 1).drop_last() =~= self@.take(i as int));
            if i > 0 {
                out.append(".");
                proof {
                    reveal_strlit(".");
                }
            }
            push_decimal(self.release[i], &mut out);
            i = i + 1;
        }
        assert(self@.take(i as int) =~= self@);
        out
    }
}

/// One end of an interval of versions.
#[derive(Debug)]
pub enum Bound {
    Unbounded,
    Included(Version),
    Excluded(Version),
}

/// Whether `v` lies on the upper side of the lower bound `b`.
pub open spec fn above(b: Bound, v: Seq<u64>) -> bool {
    match b {
        Bound::Unbounded => true,
        Bound::Included(x) => release_cmp(x@, v) <= 0,
        Bound::Excluded(x) => release_cmp(x@, v) < 0,
    }
}

/// Whether `v` lies on the lower side of the upper bound `b`.
pub open spec fn below(b: Bound, v: Seq<u64>) -> bool {
    match b {
        Bound::Unbounded => true,
        Bound::Included(x) => release_cmp(v, x@) <= 0,
        Bound::Excluded(x) => release_cmp(v, x@) < 0,
    }
}

/// The two bounds are the same bound on the same release.
pub open spec fn same_bound(a: Bound, b: Bound) -> bool {
    match a {
        Bound::Unbounded => b is Unbounded,
        Bound::Included(x) => b is Included && b->Included_0@ == x@,
        Bound::Excluded(x) => b is Excluded && b->Excluded_0@ == x@,
    }
}

impl Bound {
    pub fn duplicate(&self) -> (r: Bound)
        ensures
            same_bound(*self, r),
    {
        match self {
            Bound::Unbounded => Bound::Unbounded,
            Bound::Included(x) => Bound::Included(x.duplicate()),
            Bound::Excluded(x) => Bound::Excluded(x.duplicate()),
        }
    }
}

/// The versions between a lower and an upper bound.
#[derive(Debug)]
pub struct Interval {
    pub lower: Bound,
    pub upper: Bound,
}

pub open spec fn interval_contains(iv: Interval, v: Seq<u64>) -> bool {
    above(iv.lower, v) && below(iv.upper, v)
}

impl Interval {
    pub fn duplicate(&self) -> (r: Interval)
        ensures
            forall|v: Seq<u64>| interval_contains(r, v) == interval_contains(*self, v),
    {
        Interval { lower: self.lower.duplicate(), upper: self.upper.duplicate() }
    }

    fn contains(&self, v: &Version) -> (r: bool)
        ensures
            r == interval_contains(*self, v@),
    {
        let lower_ok = match &self.lower {
            Bound::Unbounded => true,
            Bound::Included(x) => x.compare(v) <= 0,
            Bound::Excluded(x) => x.compare(v) < 0,
        };
        let upper_ok = match &self.upper {
            Bound::Unbounded => true,
            Bound::Included(x) => v.compare(x) <= 0,
            Bound::Excluded(x) => v.compare(x) < 0,
        };
        lower_ok && upper_ok
    }
}

/// A set of versions, held as a union of intervals.
#[derive(Debug)]
pub struct VersionRange {
    pub intervals: Vec<Interval>,
}

/// Whether some interval of `r` holds `v`.
pub open spec fn intervals_contain(r: Seq<Interval>, v: Seq<u64>) -> bool {
    exists|i: int| 0 <= i < r.len() && interval_contains(#[trigger] r[i], v)
}

impl VersionRange {
    /// Whether the range holds the release `v`.
    pub open spec fn has(&self, v: Seq<u64>) -> bool {
        intervals_contain(self.intervals@, v)
    }

    /// The range that holds no version.
    pub fn empty() -> (r: VersionRange)
        ensures
            forall|v: Seq<u64>| !r.has(v),
    {
        VersionRange { intervals: Vec::new() }
    }

    fn one(lower: Bound, upper: Bound) -> (r: VersionRange)
        ensures
            forall|v: Seq<u64>| r.has(v) == (above(lower, v) && below(upper, v)),
    {
        let iv = Interval { lower, upper };
        let r = VersionRange { intervals: vec![iv] };
        assert forall|v: Seq<u64>| r.has(v) == (above(lower, v) && below(upper, v)) by {
            if above(lower, v) && below(upper, v) {
                assert(interval_contains(r.intervals@[0], v));
            }
        }
        r
    }

    /// The range that holds every version.
    pub fn full() -> (r: VersionRange)
        ensures
            forall|v: Seq<u64>| r.has(v),
    {
        Self::one(Bound::Unbounded, Bound::Unbounded)
    }

    /// The versions `>= v`.
    pub fn higher_than(v: Version) -> (r: VersionRange)
        ensures
            forall|w: Seq<u64>| r.has(w) == (release_cmp(v@, w) <= 0),
    {
        Self::one(Bound::Included(v), Bound::Unbounded)
    }

    /// The versions `< v`.
    pub fn strictly_lower_than(v: Version) -> (r: VersionRange)
        ensures
            forall|w: Seq<u64>| r.has(w) == (release_cmp(w, v@) < 0),
    {
        Self::one(Bound::Unbounded, Bound::Excluded(v))
    }

    /// The versions `>= low` and `< high`.
    pub fn between(low: Version, high: Version) -> (r: VersionRange)
        ensures
            forall|w: Seq<u64>|
                r.has(w) == (release_cmp(low@, w) <= 0 && release_cmp(w, high@) < 0),
    {
        Self::one(Bound::Included(low), Bound::Excluded(high))
    }

    /// The versions equal to `v`.
    pub fn singleton(v: Version) -> (r: VersionRange)
        ensures
            forall|w: Seq<u64>|
                r.has(w) == (release_cmp(v@, w) <= 0 && release_cmp(w, v@) <= 0),
    {
        let high = v.duplicate();
        Self::one(Bound::Included(v), Bound::Included(high))
    }

    /// The versions that either range holds.
    pub fn union(&self, other: &VersionRange) -> (r: VersionRange)
        ensures
            forall|v: Seq<u64>| r.has(v) == (self.has(v) || other.has(v)),
    {
        let mut out: Vec<Interval> = Vec::new();
        let n1 = self.intervals.len();
        let mut i: usize = 0;
        while i < n1
            invariant
                n1 == self.intervals.len(),
                i <= n1,
                out.len() == i,
                forall|k: int, v: Seq<u64>| 0 <= k < i ==>
                    #[trigger] interval_contains(out@[k], v) == interval_contains(self.intervals@[k], v),
            decreases n1 - i,
        {
            out.push(self.intervals[i].duplicate());
            i = i + 1;
        }
        let n2 = other.intervals.len();
        let mut j: usize = 0;
        while j < n2
            invariant
                n1 == self.intervals.len(),
                n2 == other.intervals.len(),
                j <= n2,
                out.len() == n1 + j,
                forall|k: int, v: Seq<u64>| 0 <= k < n1 ==>
                    #[trigger] interval_contains(out@[k], v) == interval_contains(self.intervals@[k], v),
                forall|k: int, v: Seq<u64>| 0 <= k < j ==>
                    #[trigger] interval_contains(out@[n1 + k], v) == interval_contains(other.intervals@[k], v),
            decreases n2 - j,
        {
            out.push(other.intervals[j].duplicate());
            j = j + 1;
        }
        let r = VersionRange { intervals: out };
        assert forall|v: Seq<u64>| r.has(v) == (self.has(v) || other.has(v)) by {
            if self.has(v) {
                let k = choose|k: int| 0 <= k < n1 && interval_contains(self.intervals@[k], v);
                assert(interval_contains(r.intervals@[k], v));
            }
            if other.has(v) {
                let k = choose|k: int| 0 <= k < n2 && interval_contains(other.intervals@[k], v);
                assert(interval_contains(r.intervals@[n1 + k], v));
            }
            if r.has(v) {
                let k = choose|k: int| 0 <= k < r.intervals.len() && interval_contains(r.intervals@[k], v);
                if k < n1 {
                    assert(interval_contains(self.intervals@[k], v));
                } else {
                    let k2 = k - n1;
                    assert(r.intervals@[n1 + k2] == r.intervals@[k]);
                    assert(interval_contains(other.intervals@[k2], v));
                }
            }
        }
        r
    }

    /// Whether the range holds `v`.
    pub fn contains(&self, v: &Version) -> (r: bool)
        ensures
            r == self.has(v@),
    {
        let mut i: usize = 0;
        while i < self.intervals.len()
            invariant
                i <= self.intervals.len(),
                forall|k: int| 0 <= k < i ==> !interval_contains(#[trigger] self.intervals@[k], v@),
            decreases self.intervals.len() - i,
        {
            if self.intervals[i].contains(v) {
                return true;
            }
            i = i + 1;
        }
        false
    }
}

} // verus!
