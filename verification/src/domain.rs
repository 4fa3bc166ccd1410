//! Domains of decision variables.

use vstd::prelude::*;

verus! {

/// A single value, or the closed interval between two bounds.
#[derive(Debug, Copy, PartialEq, Eq)]
pub enum Range<A> {
    Single(A),
    Bounded(A, A),
}

impl<A: Copy> Clone for Range<A> {
    fn clone(&self) -> (r: Self)
        ensures
            r == *self,
    {
        *self
    }
}

impl Range<i32> {
    /// The least value of the range.
    pub open spec fn low(self) -> int {
        match self {
            Range::Single(a) => a as int,
            Range::Bounded(a, _) => a as int,
        }
    }

    /// The greatest value of the range.
    pub open spec fn high(self) -> int {
        match self {
            Range::Single(a) => a as int,
            Range::Bounded(_, b) => b as int,
        }
    }

    /// Whether `v` lies in the range.
    pub open spec fn holds(self, v: int) -> bool {
        self.low() <= v <= self.high()
    }

    /// Whether the range holds a value: the bounds of an interval are in
    /// ascending order.
    pub open spec fn ordered(self) -> bool {
        self.low() <= self.high()
    }

    /// A range in its shortest form: a single value is written `Single`,
    /// and the bounds of an interval are in strictly ascending order.
    pub open spec fn proper(self) -> bool {
        match self {
            Range::Single(_) => true,
            Range::Bounded(a, b) => a < b,
        }
    }

    /// The least value of the range.
    pub fn lower(&self) -> (r: i32)
        ensures
            r == self.low(),
    {
        match self {
            Range::Single(a) => *a,
            Range::Bounded(a, _) => *a,
        }
    }

    /// The greatest value of the range.
    pub fn upper(&self) -> (r: i32)
        ensures
            r == self.high(),
    {
        match self {
            Range::Single(a) => *a,
            Range::Bounded(_, b) => *b,
        }
    }

    /// Whether both ranges are the same variant over the same bounds.
    pub fn same_as(&self, other: &Range<i32>) -> (r: bool)
        ensures
            r == (*self == *other),
    {
        match (self, other) {
            (Range::Single(a), Range::Single(b)) => *a == *b,
            (Range::Bounded(a, b), Range::Bounded(c, d)) => *a == *c && *b == *d,
            _ => false,
        }
    }
}

/// The values a decision variable may take.
#[derive(Debug)]
pub enum Domain {
    BoolDomain,
    IntDomain(Vec<Range<i32>>),
}

/// Mathematical value of a [`Domain`].
pub enum DomainView {
    BoolDomain,
    IntDomain(Seq<Range<i32>>),
}

impl View for Domain {
    type V = DomainView;

    open spec fn view(&self) -> DomainView {
        match self {
            Domain::BoolDomain => DomainView::BoolDomain,
            Domain::IntDomain(ranges) => DomainView::IntDomain(ranges@),
        }
    }
}

/// Whether the ranges hold a value each and stand in ascending order, with
/// at least one value outside the ranges between one and a later one: no
/// two of them overlap or are adjacent.
pub open spec fn canonical_ranges(ranges: Seq<Range<i32>>) -> bool {
    &&& forall|i: int| 0 <= i < ranges.len() ==> (#[trigger] ranges[i]).ordered()
    &&& forall|i: int, j: int|
        0 <= i < j < ranges.len() ==> (#[trigger] ranges[i]).high() + 1 < (
        #[trigger] ranges[j]).low()
}

/// Whether the ranges are canonical and each in its shortest form. There
/// is one such list for every set of values.
pub open spec fn shortest_ranges(ranges: Seq<Range<i32>>) -> bool {
    &&& canonical_ranges(ranges)
    &&& forall|i: int| 0 <= i < ranges.len() ==> (#[trigger] ranges[i]).proper()
}

/// Whether `v` lies in one of the ranges.
pub open spec fn some_range_holds(ranges: Seq<Range<i32>>, v: int) -> bool {
    exists|i: int| 0 <= i < ranges.len() && (#[trigger] ranges[i]).holds(v)
}

impl DomainView {
    /// Whether the integer `v` belongs to the domain. No integer belongs to
    /// the boolean domain.
    pub open spec fn holds_int(self, v: int) -> bool {
        match self {
            DomainView::BoolDomain => false,
            DomainView::IntDomain(ranges) => some_range_holds(ranges, v),
        }
    }

    /// Whether the domain is not empty and canonical: an integer domain
    /// has at least one range, each range holds a value, and the ranges
    /// are ascending, neither overlapping nor adjacent.
    pub open spec fn canonical(self) -> bool {
        match self {
            DomainView::BoolDomain => true,
            DomainView::IntDomain(ranges) => ranges.len() > 0 && canonical_ranges(ranges),
        }
    }
}

impl Domain {
    /// Whether the domain is not empty and canonical.
    pub fn is_canonical(&self) -> (r: bool)
        ensures
            r == self@.canonical(),
    {
        match self {
            Domain::BoolDomain => true,
            Domain::IntDomain(ranges) => {
                if ranges.len() == 0 {
                    return false;
                }
                let mut k: usize = 0;
                while k < ranges.len()
                    invariant
                        k <= ranges.len(),
                        self@ == DomainView::IntDomain(ranges@),
                        forall|i: int| 0 <= i < k ==> (#[trigger] ranges[i]).ordered(),
                        forall|i: int, j: int|
                            0 <= i < j < k ==> (#[trigger] ranges[i]).high() + 1 < (
                            #[trigger] ranges[j]).low(),
                    decreases ranges.len() - k,
                {
                    match ranges[k] {
                        Range::Single(_) => {},
                        Range::Bounded(a, b) => {
                            if a > b {
                                assert(!ranges[k as int].ordered());
                                return false;
                            }
                        },
                    }
                    if k > 0 {
                        let before = ranges[k - 1].upper();
                        let here = ranges[k].lower();
                        if (here as i64) - (before as i64) < 2 {
                            assert(!(ranges[k - 1].high() + 1 < ranges[k as int].low()));
                            return false;
                        }
                        assert(ranges[k - 1].ordered());
                    }
                    k += 1;
                }
                true
            },
        }
    }

    /// Whether the integer `v` belongs to the domain.
    pub fn contains_int(&self, v: i32) -> (r: bool)
        ensures
            r == self@.holds_int(v as int),
    {
        match self {
            Domain::BoolDomain => false,
            Domain::IntDomain(ranges) => {
                let mut k: usize = 0;
                while k < ranges.len()
                    invariant
                        k <= ranges.len(),
                        self@ == DomainView::IntDomain(ranges@),
                        forall|i: int| 0 <= i < k ==> !(#[trigger] ranges[i]).holds(v as int),
                    decreases ranges.len() - k,
                {
                    if ranges[k].lower() <= v && v <= ranges[k].upper() {
                        assert(ranges@[k as int].holds(v as int));
                        return true;
                    }
                    k += 1;
                }
                false
            },
        }
    }
}

/// A value lies in a concatenation when it lies in one of its parts.
pub proof fn lemma_holds_concat(a: Seq<Range<i32>>, b: Seq<Range<i32>>, v: int)
    ensures
        some_range_holds(a + b, v) <==> (some_range_holds(a, v) || some_range_holds(b, v)),
{
    let ab = a + b;
    if some_range_holds(ab, v) {
        let i = choose|i: int| 0 <= i < ab.len() && (#[trigger] ab[i]).holds(v);
        if i < a.len() {
            assert(a[i].holds(v));
        } else {
            assert(b[i - a.len()].holds(v));
        }
    }
    if some_range_holds(a, v) {
        let i = choose|i: int| 0 <= i < a.len() && (#[trigger] a[i]).holds(v);
        assert(ab[i].holds(v));
    }
    if some_range_holds(b, v) {
        let i = choose|i: int| 0 <= i < b.len() && (#[trigger] b[i]).holds(v);
        assert(ab[a.len() + i].holds(v));
    }
}

/// A value lies in a sequence of one more range when it lies in that range
/// or in one of those before it.
pub proof fn lemma_holds_push(a: Seq<Range<i32>>, r: Range<i32>, v: int)
    ensures
        some_range_holds(a.push(r), v) <==> (some_range_holds(a, v) || r.holds(v)),
{
    lemma_holds_concat(a, seq![r], v);
    assert(a.push(r) =~= a + seq![r]);
    if r.holds(v) {
        assert(seq![r][0].holds(v));
    }
}

/// The ranges below index `a`, then `mid`, then the ranges from index `b`
/// on.
pub open spec fn merged(rs: Seq<Range<i32>>, a: int, b: int, mid: Range<i32>) -> Seq<Range<i32>> {
    rs.subrange(0, a).push(mid) + rs.subrange(b, rs.len() as int)
}

/// Where `mid` holds the values of the ranges between `a` and `b` and
/// those from `lo` to `hi`, the merged ranges hold the values of all
/// ranges and those from `lo` to `hi`.
pub proof fn lemma_merged_values(
    rs: Seq<Range<i32>>,
    a: int,
    b: int,
    mid: Range<i32>,
    lo: int,
    hi: int,
)
    requires
        0 <= a <= b <= rs.len(),
        forall|v: int|
            mid.holds(v) <==> (lo <= v <= hi || #[trigger] some_range_holds(rs.subrange(a, b), v)),
    ensures
        forall|v: int| #[trigger]
            some_range_holds(merged(rs, a, b, mid), v) <==> (some_range_holds(rs, v) || lo <= v
                <= hi),
{
    let below = rs.subrange(0, a);
    let between = rs.subrange(a, b);
    let above = rs.subrange(b, rs.len() as int);
    assert(rs =~= below + between + above);
    assert forall|v: int| #[trigger]
        some_range_holds(merged(rs, a, b, mid), v) <==> (some_range_holds(rs, v) || lo <= v
            <= hi) by {
        lemma_holds_concat(below.push(mid), above, v);
        lemma_holds_push(below, mid, v);
        lemma_holds_concat(below + between, above, v);
        lemma_holds_concat(below, between, v);
        assert(mid.holds(v) <==> (lo <= v <= hi || some_range_holds(between, v)));
    }
}

/// Where `mid` lies wholly above the ranges below index `a` and wholly
/// below those from index `b` on, the merged ranges are canonical and in
/// shortest form again.
pub proof fn lemma_merged_canonical(rs: Seq<Range<i32>>, a: int, b: int, mid: Range<i32>)
    requires
        shortest_ranges(rs),
        0 <= a <= b <= rs.len(),
        mid.proper(),
        forall|i: int| 0 <= i < a ==> (#[trigger] rs[i]).high() + 1 < mid.low(),
        forall|j: int| b <= j < rs.len() ==> mid.high() + 1 < (#[trigger] rs[j]).low(),
    ensures
        shortest_ranges(merged(rs, a, b, mid)),
{
    let now = merged(rs, a, b, mid);
    assert forall|i: int| 0 <= i < now.len() implies (#[trigger] now[i]).proper() by {
        if i < a {
            assert(now[i] == rs[i]);
        } else if i > a {
            assert(now[i] == rs[b + (i - a - 1)]);
        }
    }
    assert forall|i: int, j: int| 0 <= i < j < now.len() implies (#[trigger] now[i]).high() + 1
        < (#[trigger] now[j]).low() by {
        if i < a {
            assert(now[i] == rs[i]);
        } else if i > a {
            assert(now[i] == rs[b + (i - a - 1)]);
        }
        if j < a {
            assert(now[j] == rs[j]);
        } else if j > a {
            assert(now[j] == rs[b + (j - a - 1)]);
        }
        if j > a && b < rs.len() {
            assert(rs[b].proper());
        }
    }
}

/// The first of canonical ranges starts no higher than any value of them.
proof fn lemma_first_is_least(a: Seq<Range<i32>>, v: int)
    requires
        shortest_ranges(a),
        some_range_holds(a, v),
    ensures
        a.len() > 0,
        a[0].low() <= v,
        v > a[0].high() ==> some_range_holds(a.drop_first(), v),
{
    let i = choose|i: int| 0 <= i < a.len() && (#[trigger] a[i]).holds(v);
    if i > 0 {
        assert(a[0].proper());
        assert(a[0].high() + 1 < a[i].low());
        assert(a.drop_first()[i - 1].holds(v));
    }
}

/// The ranges after the first are canonical, and their values lie above
/// the first.
proof fn lemma_rest_canonical(a: Seq<Range<i32>>)
    requires
        shortest_ranges(a),
        a.len() > 0,
    ensures
        shortest_ranges(a.drop_first()),
        forall|v: int| #[trigger]
            some_range_holds(a.drop_first(), v) ==> some_range_holds(a, v) && v > a[0].high(),
{
    let rest = a.drop_first();
    assert forall|i: int| 0 <= i < rest.len() implies (#[trigger] rest[i]).proper() by {
        assert(rest[i] == a[i + 1]);
    }
    assert forall|i: int, j: int| 0 <= i < j < rest.len() implies (#[trigger] rest[i]).high() + 1
        < (#[trigger] rest[j]).low() by {
        assert(rest[i] == a[i + 1] && rest[j] == a[j + 1]);
    }
    assert forall|v: int| #[trigger] some_range_holds(rest, v) implies some_range_holds(a, v) && v
        > a[0].high() by {
        let i = choose|i: int| 0 <= i < rest.len() && (#[trigger] rest[i]).holds(v);
        assert(a[i + 1].holds(v));
        assert(a[0].high() + 1 < a[i + 1].low());
    }
}

/// The canonical form in shortest form is unique: two such lists of ranges
/// with the same values are the same list.
pub proof fn lemma_canonical_unique(a: Seq<Range<i32>>, b: Seq<Range<i32>>)
    requires
        shortest_ranges(a),
        shortest_ranges(b),
        forall|v: int| some_range_holds(a, v) <==> some_range_holds(b, v),
    ensures
        a == b,
    decreases a.len(),
{
    if a.len() == 0 || b.len() == 0 {
        if a.len() > 0 {
            assert(a[0].proper());
            assert(a[0].holds(a[0].low()));
            assert(some_range_holds(b, a[0].low()));
        }
        if b.len() > 0 {
            assert(b[0].proper());
            assert(b[0].holds(b[0].low()));
            assert(some_range_holds(a, b[0].low()));
        }
        assert(a =~= b);
    } else {
        assert(a[0].proper() && b[0].proper());
        // The least value of both is the same.
        assert(a[0].holds(a[0].low()));
        assert(b[0].holds(b[0].low()));
        lemma_first_is_least(b, a[0].low());
        lemma_first_is_least(a, b[0].low());
        assert(a[0].low() == b[0].low());
        // So is the first value above the least that is missing.
        if a[0].high() < b[0].high() {
            let v = a[0].high() + 1;
            assert(b[0].holds(v));
            lemma_first_is_least(a, v);
            lemma_rest_canonical(a);
            let i = choose|i: int|
                0 <= i < a.drop_first().len() && (#[trigger] a.drop_first()[i]).holds(v);
            assert(a.drop_first()[i] == a[i + 1]);
            assert(a[0].high() + 1 < a[i + 1].low());
        }
        if b[0].high() < a[0].high() {
            let v = b[0].high() + 1;
            assert(a[0].holds(v));
            lemma_first_is_least(b, v);
            lemma_rest_canonical(b);
            let i = choose|i: int|
                0 <= i < b.drop_first().len() && (#[trigger] b.drop_first()[i]).holds(v);
            assert(b.drop_first()[i] == b[i + 1]);
            assert(b[0].high() + 1 < b[i + 1].low());
        }
        assert(a[0].high() == b[0].high());
        assert(a[0] == b[0]);
        lemma_rest_canonical(a);
        lemma_rest_canonical(b);
        assert forall|v: int|
            some_range_holds(a.drop_first(), v) <==> some_range_holds(b.drop_first(), v) by {
            if some_range_holds(a.drop_first(), v) {
                lemma_first_is_least(b, v);
            }
            if some_range_holds(b.drop_first(), v) {
                lemma_first_is_least(a, v);
            }
        }
        lemma_canonical_unique(a.drop_first(), b.drop_first());
        assert(a =~= seq![a[0]] + a.drop_first());
        assert(b =~= seq![b[0]] + b.drop_first());
    }
}

/// The interval from `lo` to `hi` in shortest form.
fn interval(lo: i32, hi: i32) -> (r: Range<i32>)
    requires
        lo <= hi,
    ensures
        r.proper(),
        r.low() == lo,
        r.high() == hi,
{
    if lo == hi {
        Range::Single(lo)
    } else {
        Range::Bounded(lo, hi)
    }
}

/// The canonical ranges in shortest form that hold the values of `ranges`
/// and those from `lo` to `hi`.
fn with_interval(ranges: &Vec<Range<i32>>, lo: i32, hi: i32) -> (out: Vec<Range<i32>>)
    requires
        shortest_ranges(ranges@),
        lo <= hi,
    ensures
        shortest_ranges(out@),
        forall|v: int| #[trigger]
            some_range_holds(out@, v) <==> (some_range_holds(ranges@, v) || lo <= v <= hi),
{
    let ghost rs = ranges@;
    let mut out: Vec<Range<i32>> = Vec::new();
    // The ranges that lie wholly below the interval stay as they are.
    let mut a: usize = 0;
    while a < ranges.len() && (ranges[a].upper() as i64) + 1 < lo as i64
        invariant
            a <= ranges.len(),
            rs == ranges@,
            out@ == rs.subrange(0, a as int),
            forall|i: int| 0 <= i < a ==> (#[trigger] rs[i]).high() + 1 < lo,
        decreases ranges.len() - a,
    {
        out.push(ranges[a]);
        a += 1;
        assert(out@ =~= rs.subrange(0, a as int));
    }
    // The ranges that touch the interval are merged into it.
    let mut from: i32 = lo;
    let mut to: i32 = hi;
    let mut b: usize = a;
    assert(rs.subrange(a as int, b as int) =~= Seq::empty());
    while b < ranges.len() && (to as i64) + 1 >= ranges[b].lower() as i64
        invariant
            a <= b <= ranges.len(),
            rs == ranges@,
            shortest_ranges(rs),
            from <= lo <= hi <= to,
            a < ranges.len() ==> rs[a as int].high() + 1 >= lo,
            forall|i: int| 0 <= i < a ==> (#[trigger] rs[i]).high() + 1 < from,
            forall|i: int| a <= i < b ==> from <= (#[trigger] rs[i]).low() && rs[i].high() <= to,
            forall|v: int|
                from <= v <= to <==> (lo <= v <= hi || #[trigger] some_range_holds(
                    rs.subrange(a as int, b as int),
                    v,
                )),
        decreases ranges.len() - b,
    {
        let x = ranges[b];
        let ghost old_from = from;
        let ghost old_to = to;
        proof {
            assert(rs[b as int].proper());
            if b > a {
                assert(rs[b - 1].proper());
                assert(rs[b - 1].high() + 1 < rs[b as int].low());
            }
            assert(x.high() + 1 >= old_from);
        }
        if x.lower() < from {
            from = x.lower();
        }
        if x.upper() > to {
            to = x.upper();
        }
        proof {
            assert forall|i: int| 0 <= i < a implies (#[trigger] rs[i]).high() + 1 < from by {
                assert(rs[i].high() + 1 < rs[b as int].low());
            }
            let merged = rs.subrange(a as int, b + 1);
            assert(merged =~= rs.subrange(a as int, b as int).push(x));
            assert forall|v: int|
                from <= v <= to <==> (lo <= v <= hi || #[trigger] some_range_holds(merged, v)) by {
                lemma_holds_push(rs.subrange(a as int, b as int), x, v);
            }
        }
        b += 1;
    }
    let mid = interval(from, to);
    out.push(mid);
    // The ranges that lie wholly above the merged interval stay as they are.
    let mut c: usize = b;
    assert(out@ =~= rs.subrange(0, a as int).push(mid) + rs.subrange(b as int, c as int));
    assert forall|j: int| b <= j < rs.len() implies mid.high() + 1 < (#[trigger] rs[j]).low() by {
        if j > b {
            assert(rs[b as int].proper());
            assert(rs[b as int].high() + 1 < rs[j].low());
        }
    }
    assert(forall|i: int| 0 <= i < a ==> (#[trigger] rs[i]).high() + 1 < mid.low());
    assert(forall|v: int|
        mid.holds(v) <==> (lo <= v <= hi || #[trigger] some_range_holds(
            rs.subrange(a as int, b as int),
            v,
        )));
    while c < ranges.len()
        invariant
            b <= c <= ranges.len(),
            rs == ranges@,
            out@ == rs.subrange(0, a as int).push(mid) + rs.subrange(b as int, c as int),
        decreases ranges.len() - c,
    {
        out.push(ranges[c]);
        c += 1;
        assert(out@ =~= rs.subrange(0, a as int).push(mid) + rs.subrange(b as int, c as int));
    }
    proof {
        assert(rs.subrange(b as int, c as int) =~= rs.subrange(b as int, rs.len() as int));
        lemma_merged_values(rs, a as int, b as int, mid, lo as int, hi as int);
        lemma_merged_canonical(rs, a as int, b as int, mid);
    }
    out
}

impl Domain {
    /// The domain of the same values in canonical form, each range in its
    /// shortest form: the ranges in ascending order, overlapping and
    /// adjacent ones merged, a single value written `Single`. Ranges whose
    /// bounds are in descending order hold no value and are dropped.
    pub fn canonical_form(&self) -> (r: Domain)
        ensures
            match (self@, r@) {
                (DomainView::BoolDomain, DomainView::BoolDomain) => true,
                (DomainView::IntDomain(given), DomainView::IntDomain(ranges)) => {
                    &&& shortest_ranges(ranges)
                    &&& forall|v: int| some_range_holds(ranges, v) <==> some_range_holds(given, v)
                },
                _ => false,
            },
    {
        match self {
            Domain::BoolDomain => Domain::BoolDomain,
            Domain::IntDomain(given) => {
                let ghost gs = given@;
                let mut out: Vec<Range<i32>> = Vec::new();
                let mut k: usize = 0;
                while k < given.len()
                    invariant
                        k <= given.len(),
                        gs == given@,
                        shortest_ranges(out@),
                        forall|v: int|
                            some_range_holds(out@, v) <==> exists|i: int|
                                0 <= i < k && (#[trigger] gs[i]).holds(v),
                    decreases given.len() - k,
                {
                    let lo = given[k].lower();
                    let hi = given[k].upper();
                    let ghost before = out@;
                    if lo <= hi {
                        out = with_interval(&out, lo, hi);
                    }
                    proof {
                        assert forall|v: int|
                            some_range_holds(out@, v) <==> exists|i: int|
                                0 <= i < k + 1 && (#[trigger] gs[i]).holds(v) by {
                            if exists|i: int| 0 <= i < k + 1 && (#[trigger] gs[i]).holds(v) {
                                let i = choose|i: int| 0 <= i < k + 1 && (#[trigger] gs[i]).holds(v);
                                if i < k {
                                    assert(0 <= i < k && gs[i].holds(v));
                                }
                            }
                            if some_range_holds(before, v) {
                                let i = choose|i: int| 0 <= i < k && (#[trigger] gs[i]).holds(v);
                                assert(0 <= i < k + 1 && gs[i].holds(v));
                            }
                            if gs[k as int].holds(v) {
                                assert(0 <= k < k + 1 && gs[k as int].holds(v));
                            }
                        }
                    }
                    k += 1;
                }
                proof {
                    assert forall|v: int|
                        some_range_holds(out@, v) <==> some_range_holds(gs, v) by {
                        if some_range_holds(gs, v) {
                            let i = choose|i: int| 0 <= i < gs.len() && (#[trigger] gs[i]).holds(v);
                            assert(0 <= i < k && gs[i].holds(v));
                        }
                    }
                }
                Domain::IntDomain(out)
            },
        }
    }
}

impl Clone for Domain {
    fn clone(&self) -> (r: Self)
        ensures
            r@ == self@,
    {
        match self {
            Domain::BoolDomain => Domain::BoolDomain,
            Domain::IntDomain(ranges) => {
                let mut out: Vec<Range<i32>> = Vec::new();
                let mut k: usize = 0;
                while k < ranges.len()
                    invariant
                        k <= ranges.len(),
                        out@ == ranges@.subrange(0, k as int),
                    decreases ranges.len() - k,
                {
                    out.push(ranges[k]);
                    assert(out@ =~= ranges@.subrange(0, k + 1));
                    k += 1;
                }
                assert(out@ =~= ranges@);
                Domain::IntDomain(out)
            },
        }
    }
}

impl PartialEq for Domain {
    fn eq(&self, other: &Self) -> (b: bool) {
        match (self, other) {
            (Domain::BoolDomain, Domain::BoolDomain) => true,
            (Domain::IntDomain(a), Domain::IntDomain(b)) => {
                if a.len() != b.len() {
                    return false;
                }
                let mut k: usize = 0;
                while k < a.len()
                    invariant
                        self@ == DomainView::IntDomain(a@),
                        other@ == DomainView::IntDomain(b@),
                        a.len() == b.len(),
                        k <= a.len(),
                        forall|i: int| 0 <= i < k ==> a[i] == b[i],
                    decreases a.len() - k,
                {
                    if !a[k].same_as(&b[k]) {
                        return false;
                    }
                    k += 1;
                }
                assert(a@ =~= b@);
                true
            },
            _ => false,
        }
    }
}

impl vstd::std_specs::cmp::PartialEqSpecImpl for Domain {
    open spec fn obeys_eq_spec() -> bool {
        true
    }

    open spec fn eq_spec(&self, other: &Self) -> bool {
        self@ == other@
    }
}

/// A decision variable, given by its domain.
#[derive(Debug)]
pub struct DecisionVariable {
    pub domain: Domain,
}

impl View for DecisionVariable {
    type V = DomainView;

    open spec fn view(&self) -> DomainView {
        self.domain@
    }
}

impl DecisionVariable {
    /// The decision variable over `domain`.
    pub fn new(domain: Domain) -> (r: DecisionVariable)
        ensures
            r@ == domain@,
    {
        DecisionVariable { domain }
    }
}

impl Clone for DecisionVariable {
    fn clone(&self) -> (r: Self)
        ensures
            r@ == self@,
    {
        DecisionVariable { domain: self.domain.clone() }
    }
}

impl PartialEq for DecisionVariable {
    fn eq(&self, other: &Self) -> (b: bool) {
        self.domain == other.domain
    }
}

impl vstd::std_specs::cmp::PartialEqSpecImpl for DecisionVariable {
    open spec fn obeys_eq_spec() -> bool {
        true
    }

    open spec fn eq_spec(&self, other: &Self) -> bool {
        self@ == other@
    }
}

} // verus!
