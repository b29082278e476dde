//! Half-open time intervals and sets of them.
//!
//! A set of instants is held as a sequence of intervals. The sequence is
//! *normalized* when its intervals are non-empty, sorted, and separated by a
//! gap of at least one instant, so that touching intervals are always joined.

use vstd::prelude::*;

verus! {

/// A half-open span of time `[start_ts, end_ts)` in epoch milliseconds.
#[derive(Clone, Copy, Debug, PartialEq, Eq, Structural)]
pub struct Interval {
    pub start_ts: i64,
    pub end_ts: i64,
}

impl Interval {
    /// The interval holds at least one instant.
    pub open spec fn wf(self) -> bool {
        self.start_ts < self.end_ts
    }

    /// The instant `t` lies in the interval.
    pub open spec fn contains(self, t: int) -> bool {
        self.start_ts <= t < self.end_ts
    }

    /// The whole span `[t, t + len)` lies in the interval.
    pub open spec fn contains_span(self, t: int, len: int) -> bool {
        self.start_ts <= t && t + len <= self.end_ts
    }

    /// Builds the interval `[start_ts, end_ts)`, or nothing when it would be empty.
    pub fn new(start_ts: i64, end_ts: i64) -> (r: Option<Interval>)
        ensures
            r == (if start_ts < end_ts {
                Some(Interval { start_ts, end_ts })
            } else {
                None
            }),
    {
        if start_ts < end_ts {
            Some(Interval { start_ts, end_ts })
        } else {
            None
        }
    }
}

/// Some interval of `s` holds the instant `t`.
pub open spec fn covers(s: Seq<Interval>, t: int) -> bool {
    exists|i: int| 0 <= i < s.len() && #[trigger] s[i].contains(t)
}

/// Some interval of `s` holds the whole span `[t, t + len)`.
pub open spec fn covers_span(s: Seq<Interval>, t: int, len: int) -> bool {
    exists|i: int| 0 <= i < s.len() && #[trigger] s[i].contains_span(t, len)
}

/// Non-empty intervals in increasing order with a gap between neighbours.
pub open spec fn normalized(s: Seq<Interval>) -> bool {
    &&& forall|i: int| 0 <= i < s.len() ==> (#[trigger] s[i]).wf()
    &&& forall|i: int, j: int|
        #![trigger s[i], s[j]]
        0 <= i < j < s.len() ==> s[i].end_ts < s[j].start_ts
}

/// Every interval of `s` lies inside `[lo, hi)`.
pub open spec fn within(s: Seq<Interval>, lo: int, hi: int) -> bool {
    forall|i: int| 0 <= i < s.len() ==> lo <= (#[trigger] s[i]).start_ts && s[i].end_ts <= hi
}

pub(crate) proof fn lemma_covers_push(s: Seq<Interval>, x: Interval, t: int)
    ensures
        covers(s.push(x), t) <==> covers(s, t) || x.contains(t),
{
    let p = s.push(x);
    if covers(p, t) {
        let i = choose|i: int| 0 <= i < p.len() && #[trigger] p[i].contains(t);
        if i < s.len() {
            assert(s[i].contains(t));
        }
    }
    if covers(s, t) {
        let i = choose|i: int| 0 <= i < s.len() && #[trigger] s[i].contains(t);
        assert(p[i].contains(t));
    }
    if x.contains(t) {
        assert(p[s.len() as int].contains(t));
    }
}

proof fn lemma_covers_concat(a: Seq<Interval>, b: Seq<Interval>, t: int)
    ensures
        covers(a + b, t) <==> covers(a, t) || covers(b, t),
{
    let c = a + b;
    if covers(c, t) {
        let i = choose|i: int| 0 <= i < c.len() && #[trigger] c[i].contains(t);
        if i < a.len() {
            assert(a[i].contains(t));
        } else {
            assert(b[i - a.len()].contains(t));
        }
    }
    if covers(a, t) {
        let i = choose|i: int| 0 <= i < a.len() && #[trigger] a[i].contains(t);
        assert(c[i].contains(t));
    }
    if covers(b, t) {
        let i = choose|i: int| 0 <= i < b.len() && #[trigger] b[i].contains(t);
        assert(c[a.len() + i].contains(t));
    }
}

proof fn lemma_covers_take_next(s: Seq<Interval>, i: int, t: int)
    requires
        0 <= i < s.len(),
    ensures
        covers(s.take(i + 1), t) <==> covers(s.take(i), t) || s[i].contains(t),
{
    assert(s.take(i + 1) =~= s.take(i).push(s[i]));
    lemma_covers_push(s.take(i), s[i], t);
}

/// A span of positive length lies in one interval of a normalized sequence
/// exactly when the sequence holds each of its instants.
pub proof fn lemma_span_is_pointwise(s: Seq<Interval>, t: int, len: int)
    requires
        normalized(s),
        len > 0,
    ensures
        covers_span(s, t, len) <==> (forall|u: int| t <= u < t + len ==> covers(s, u)),
{
    if covers_span(s, t, len) {
        let i = choose|i: int| 0 <= i < s.len() && #[trigger] s[i].contains_span(t, len);
        assert forall|u: int| t <= u < t + len implies covers(s, u) by {
            assert(s[i].contains(u));
        }
    }
    if forall|u: int| t <= u < t + len ==> covers(s, u) {
        assert(covers(s, t));
        let i = choose|i: int| 0 <= i < s.len() && #[trigger] s[i].contains(t);
        if t + len > s[i].end_ts {
            // The first instant after interval `i` is in the span but in no interval.
            let u = s[i].end_ts as int;
            assert(covers(s, u));
            let j = choose|j: int| 0 <= j < s.len() && #[trigger] s[j].contains(u);
            if j < i {
                assert(s[j].end_ts < s[i].start_ts);
            } else if j > i {
                assert(s[i].end_ts < s[j].start_ts);
            }
            assert(false);
        }
        assert(s[i].contains_span(t, len));
    }
}

/// Adds one interval to a normalized set, joining it with every interval that
/// it overlaps or touches.
pub fn add_interval(norm: &Vec<Interval>, iv: Interval) -> (out: Vec<Interval>)
    requires
        normalized(norm@),
        iv.wf(),
    ensures
        normalized(out@),
        forall|t: int| #[trigger] covers(out@, t) <==> covers(norm@, t) || iv.contains(t),
{
    let n: usize = norm.len();
    let mut out: Vec<Interval> = Vec::new();
    let mut i: usize = 0;
    while i < n && norm[i].end_ts < iv.start_ts
        invariant
            i <= n,
            n == norm.len(),
            out@ == norm@.take(i as int),
            forall|k: int| 0 <= k < i ==> (#[trigger] norm@[k]).end_ts < iv.start_ts,
        decreases n - i,
    {
        out.push(norm[i]);
        assert(norm@.take(i as int + 1) =~= norm@.take(i as int).push(norm@[i as int]));
        i = i + 1;
    }
    let ghost j: int = i as int;
    let mut cur: Interval = iv;
    assert forall|k: int| j <= k < n implies (#[trigger] norm@[k]).end_ts >= iv.start_ts by {
        if k > j {
            assert(norm@[j].end_ts < norm@[k].start_ts);
            assert(norm@[k].wf());
        }
    }
    let ghost mut merged: Seq<Interval> = Seq::empty();
    while i < n && norm[i].start_ts <= cur.end_ts
        invariant
            0 <= j <= i <= n,
            n == norm.len(),
            normalized(norm@),
            cur.wf(),
            cur.start_ts <= iv.start_ts,
            forall|k: int| j <= k < n ==> (#[trigger] norm@[k]).end_ts >= iv.start_ts,
            forall|k: int| 0 <= k < j ==> (#[trigger] norm@[k]).end_ts < cur.start_ts,
            merged =~= norm@.subrange(j, i as int),
            forall|t: int|
                #![trigger cur.contains(t)]
                #![trigger covers(merged, t)]
                cur.contains(t) <==> iv.contains(t) || covers(merged, t),
        decreases n - i,
    {
        let x: Interval = norm[i];
        let lo: i64 = if x.start_ts < cur.start_ts { x.start_ts } else { cur.start_ts };
        let hi: i64 = if x.end_ts > cur.end_ts { x.end_ts } else { cur.end_ts };
        let next: Interval = Interval { start_ts: lo, end_ts: hi };
        proof {
            assert(x.wf());
            assert(x.end_ts >= iv.start_ts);
            assert(norm@.subrange(j, i as int + 1) =~= merged.push(x));
            assert(x.start_ts <= cur.end_ts && cur.start_ts <= x.end_ts);
            assert forall|t: int|
                #![trigger next.contains(t)]
                #![trigger covers(merged.push(x), t)]
                next.contains(t) <==> iv.contains(t) || covers(merged.push(x), t) by {
                lemma_covers_push(merged, x, t);
                assert(cur.contains(t) <==> iv.contains(t) || covers(merged, t));
                assert(next.contains(t) <==> cur.contains(t) || x.contains(t));
            }
            merged = merged.push(x);
            assert forall|k: int| 0 <= k < j implies (#[trigger] norm@[k]).end_ts
                < next.start_ts by {
                assert(norm@[k].end_ts < norm@[i as int].start_ts);
            }
        }
        cur = next;
        i = i + 1;
    }
    let ghost m: int = i as int;
    out.push(cur);
    assert(norm@.subrange(m, m) =~= Seq::<Interval>::empty());
    while i < n
        invariant
            0 <= j <= m <= i <= n,
            n == norm.len(),
            out@ == norm@.take(j).push(cur) + norm@.subrange(m, i as int),
        decreases n - i,
    {
        out.push(norm[i]);
        assert(norm@.subrange(m, i as int + 1) =~= norm@.subrange(m, i as int).push(
            norm@[i as int],
        ));
        i = i + 1;
    }
    proof {
        let head = norm@.take(j);
        let mid = merged;
        let tail = norm@.subrange(m, n as int);
        assert(norm@ =~= head + mid + tail);
        assert(out@ =~= head.push(cur) + tail);
        assert forall|t: int| #[trigger]
            covers(out@, t) <==> covers(norm@, t) || iv.contains(t) by {
            lemma_covers_concat(head.push(cur), tail, t);
            lemma_covers_push(head, cur, t);
            lemma_covers_concat(head + mid, tail, t);
            lemma_covers_concat(head, mid, t);
        }
        assert forall|a: int, b: int| 0 <= a < b < out@.len() implies (#[trigger] out@[a]).end_ts
            < (#[trigger] out@[b]).start_ts by {
            if b < j {
                assert(norm@[a].end_ts < norm@[b].start_ts);
            } else if b == j {
                assert(norm@[a].end_ts < cur.start_ts);
            } else if a == j {
                assert(out@[b] == norm@[m + (b - j - 1)]);
                assert(norm@[m].start_ts > cur.end_ts);
                if b - j - 1 > 0 {
                    assert(norm@[m].end_ts < norm@[m + (b - j - 1)].start_ts);
                    assert(norm@[m].wf());
                }
            } else if a < j {
                assert(out@[b] == norm@[m + (b - j - 1)]);
                assert(norm@[a].end_ts < norm@[m + (b - j - 1)].start_ts);
            } else {
                assert(out@[a] == norm@[m + (a - j - 1)]);
                assert(out@[b] == norm@[m + (b - j - 1)]);
                assert(norm@[m + (a - j - 1)].end_ts < norm@[m + (b - j - 1)].start_ts);
            }
        }
        assert forall|a: int| 0 <= a < out@.len() implies (#[trigger] out@[a]).wf() by {
            if a < j {
                assert(norm@[a].wf());
            } else if a > j {
                assert(out@[a] == norm@[m + (a - j - 1)]);
                assert(norm@[m + (a - j - 1)].wf());
            }
        }
    }
    out
}

/// Removes the instants of `busy` from a normalized set. An empty or
/// inverted `busy` removes nothing.
pub fn subtract_interval(norm: &Vec<Interval>, busy: Interval) -> (out: Vec<Interval>)
    requires
        normalized(norm@),
    ensures
        normalized(out@),
        forall|t: int| #[trigger] covers(out@, t) <==> covers(norm@, t) && !busy.contains(t),
{
    let n: usize = norm.len();
    let mut out: Vec<Interval> = Vec::new();
    let mut i: usize = 0;
    while i < n
        invariant
            i <= n,
            n == norm.len(),
            normalized(norm@),
            normalized(out@),
            forall|k: int|
                0 <= k < out@.len() ==> i > 0 && (#[trigger] out@[k]).end_ts <= norm@[i - 1].end_ts,
            forall|t: int| #[trigger]
                covers(out@, t) <==> covers(norm@.take(i as int), t) && !busy.contains(t),
        decreases n - i,
    {
        let x: Interval = norm[i];
        let ghost before = out@;
        proof {
            assert(x.wf());
            assert forall|k: int| 0 <= k < before.len() implies (#[trigger] before[k]).end_ts
                < x.start_ts by {
                assert(out@[k].end_ts <= norm@[i - 1].end_ts);
                assert(norm@[i - 1].end_ts < norm@[i as int].start_ts);
            }
        }
        if busy.start_ts >= busy.end_ts || x.end_ts <= busy.start_ts || busy.end_ts <= x.start_ts {
            out.push(x);
            proof {
                assert forall|t: int| #[trigger]
                    covers(out@, t) <==> covers(norm@.take(i as int + 1), t) && !busy.contains(
                        t,
                    ) by {
                    lemma_covers_push(before, x, t);
                    lemma_covers_take_next(norm@, i as int, t);
                }
            }
        } else {
            let ghost mut pieces = Seq::<Interval>::empty();
            if x.start_ts < busy.start_ts {
                let left: Interval = Interval { start_ts: x.start_ts, end_ts: busy.start_ts };
                out.push(left);
                proof {
                    pieces = pieces.push(left);
                }
            }
            if busy.end_ts < x.end_ts {
                let right: Interval = Interval { start_ts: busy.end_ts, end_ts: x.end_ts };
                out.push(right);
                proof {
                    pieces = pieces.push(right);
                }
            }
            proof {
                assert(out@ =~= before + pieces);
                assert forall|t: int| #[trigger]
                    covers(out@, t) <==> covers(norm@.take(i as int + 1), t) && !busy.contains(
                        t,
                    ) by {
                    lemma_covers_concat(before, pieces, t);
                    lemma_covers_take_next(norm@, i as int, t);
                    if covers(pieces, t) {
                        let k = choose|k: int| 0 <= k < pieces.len() && #[trigger] pieces[k].contains(t);
                        assert(x.contains(t) && !busy.contains(t));
                    }
                    if x.contains(t) && !busy.contains(t) {
                        if t < busy.start_ts {
                            assert(pieces[0].contains(t));
                        } else {
                            assert(pieces[pieces.len() - 1].contains(t));
                        }
                    }
                }
            }
        }
        proof {
            assert forall|k: int| 0 <= k < out@.len() implies (#[trigger] out@[k]).end_ts
                <= norm@[i as int].end_ts by {
                if k < before.len() {
                    assert(out@[k] == before[k]);
                }
            }
        }
        i = i + 1;
    }
    proof {
        assert(norm@.take(n as int) =~= norm@);
    }
    out
}

/// Removes every interval of `busy` from a normalized set.
pub fn subtract(free: &Vec<Interval>, busy: &Vec<Interval>) -> (out: Vec<Interval>)
    requires
        normalized(free@),
    ensures
        normalized(out@),
        forall|t: int| #[trigger] covers(out@, t) <==> covers(free@, t) && !covers(busy@, t),
{
    let mut out: Vec<Interval> = subtract_interval(free, Interval { start_ts: 0, end_ts: 0 });
    let mut j: usize = 0;
    while j < busy.len()
        invariant
            j <= busy.len(),
            normalized(out@),
            forall|t: int| #[trigger]
                covers(out@, t) <==> covers(free@, t) && !covers(busy@.take(j as int), t),
        decreases busy.len() - j,
    {
        let next: Vec<Interval> = subtract_interval(&out, busy[j]);
        proof {
            assert forall|t: int| #[trigger]
                covers(next@, t) <==> covers(free@, t) && !covers(busy@.take(j as int + 1), t) by {
                lemma_covers_take_next(busy@, j as int, t);
                assert(covers(out@, t) <==> covers(free@, t) && !covers(busy@.take(j as int), t));
            }
        }
        out = next;
        j = j + 1;
    }
    proof {
        assert(busy@.take(busy.len() as int) =~= busy@);
    }
    out
}

/// Merges any list of intervals into the normalized set of the same instants.
/// Empty and inverted intervals are dropped.
pub fn normalize(intervals: &Vec<Interval>) -> (out: Vec<Interval>)
    ensures
        normalized(out@),
        forall|t: int| #[trigger] covers(out@, t) <==> covers(intervals@, t),
{
    let mut out: Vec<Interval> = Vec::new();
    let mut j: usize = 0;
    while j < intervals.len()
        invariant
            j <= intervals.len(),
            normalized(out@),
            forall|t: int| #[trigger] covers(out@, t) <==> covers(intervals@.take(j as int), t),
        decreases intervals.len() - j,
    {
        let x: Interval = intervals[j];
        if x.start_ts < x.end_ts {
            let next: Vec<Interval> = add_interval(&out, x);
            proof {
                assert forall|t: int| #[trigger]
                    covers(next@, t) <==> covers(intervals@.take(j as int + 1), t) by {
                    lemma_covers_take_next(intervals@, j as int, t);
                    assert(covers(out@, t) <==> covers(intervals@.take(j as int), t));
                }
            }
            out = next;
        } else {
            proof {
                assert forall|t: int| #[trigger]
                    covers(out@, t) <==> covers(intervals@.take(j as int + 1), t) by {
                    lemma_covers_take_next(intervals@, j as int, t);
                }
            }
        }
        j = j + 1;
    }
    proof {
        assert(intervals@.take(intervals.len() as int) =~= intervals@);
    }
    out
}

/// The instants that a normalized set shares with any list of intervals.
pub fn intersect(a: &Vec<Interval>, b: &Vec<Interval>) -> (out: Vec<Interval>)
    requires
        normalized(a@),
    ensures
        normalized(out@),
        forall|t: int| #[trigger] covers(out@, t) <==> covers(a@, t) && covers(b@, t),
{
    let outside: Vec<Interval> = subtract(a, b);
    let out: Vec<Interval> = subtract(a, &outside);
    proof {
        assert forall|t: int| #[trigger] covers(out@, t) <==> covers(a@, t) && covers(b@, t) by {
            assert(covers(outside@, t) <==> covers(a@, t) && !covers(b@, t));
        }
    }
    out
}

/// Whether one interval of `free` holds the whole span `[t, t + len)`.
pub fn is_free_for(free: &Vec<Interval>, t: i64, len: i64) -> (r: bool)
    ensures
        r == covers_span(free@, t as int, len as int),
{
    let mut i: usize = 0;
    while i < free.len()
        invariant
            i <= free.len(),
            forall|k: int| 0 <= k < i ==> !(#[trigger] free@[k]).contains_span(t as int, len as int),
        decreases free.len() - i,
    {
        let x: Interval = free[i];
        if x.start_ts <= t {
            // A sum below the range of `i64` is below every bound as well.
            let fits: bool = match t.checked_add(len) {
                Some(end) => end <= x.end_ts,
                None => len < 0,
            };
            if fits {
                assert(free@[i as int].contains_span(t as int, len as int));
                return true;
            }
        }
        i = i + 1;
    }
    false
}

proof fn lemma_first_interval_is_least(s: Seq<Interval>, t: int)
    requires
        normalized(s),
        covers(s, t),
    ensures
        s.len() > 0,
        s[0].start_ts <= t,
        !s[0].contains(t) ==> s[0].end_ts < t && covers(s.drop_first(), t),
        covers(s.drop_first(), t) ==> !s[0].contains(t),
{
    let i = choose|i: int| 0 <= i < s.len() && #[trigger] s[i].contains(t);
    if i > 0 {
        assert(s[0].end_ts < s[i].start_ts);
        assert(s[0].wf());
        assert(s.drop_first()[i - 1].contains(t));
    }
    if covers(s.drop_first(), t) {
        let k = choose|k: int| 0 <= k < s.drop_first().len() && #[trigger] s.drop_first()[k].contains(t);
        assert(s[k + 1].contains(t));
        assert(s[0].end_ts < s[k + 1].start_ts);
    }
}

proof fn lemma_normalized_tail(s: Seq<Interval>)
    requires
        normalized(s),
        s.len() > 0,
    ensures
        normalized(s.drop_first()),
{
    let rest = s.drop_first();
    assert forall|i: int| 0 <= i < rest.len() implies (#[trigger] rest[i]).wf() by {
        assert(s[i + 1].wf());
    }
    assert forall|i: int, j: int|
        #![trigger rest[i], rest[j]]
        0 <= i < j < rest.len() implies rest[i].end_ts < rest[j].start_ts by {
        assert(s[i + 1].end_ts < s[j + 1].start_ts);
    }
}

/// A set of instants has one normalized form only: two normalized sequences
/// that hold the same instants are the same sequence.
pub proof fn lemma_normalized_is_unique(a: Seq<Interval>, b: Seq<Interval>)
    requires
        normalized(a),
        normalized(b),
        forall|t: int| #![trigger covers(a, t)] #![trigger covers(b, t)] covers(a, t) <==> covers(b, t),
    ensures
        a == b,
    decreases a.len() + b.len(),
{
    if a.len() == 0 {
        if b.len() > 0 {
            assert(b[0].wf());
            assert(b[0].contains(b[0].start_ts as int));
            assert(covers(b, b[0].start_ts as int));
            assert(covers(a, b[0].start_ts as int));
        }
        assert(a =~= b);
    } else if b.len() == 0 {
        assert(a[0].wf());
        assert(a[0].contains(a[0].start_ts as int));
        assert(covers(a, a[0].start_ts as int));
        assert(covers(b, a[0].start_ts as int));
    } else {
        let x = a[0];
        let y = b[0];
        assert(x.wf() && y.wf());
        assert(x.contains(x.start_ts as int) && y.contains(y.start_ts as int));
        assert(covers(a, x.start_ts as int) && covers(b, y.start_ts as int));
        assert(covers(b, x.start_ts as int) && covers(a, y.start_ts as int));
        lemma_first_interval_is_least(b, x.start_ts as int);
        lemma_first_interval_is_least(a, y.start_ts as int);
        assert(x.start_ts == y.start_ts);
        if x.end_ts < y.end_ts {
            // The first instant after `x` is in `y`, so in `a`, yet next to `x`.
            let t = x.end_ts as int;
            assert(y.contains(t));
            assert(covers(b, t));
            assert(covers(a, t));
            lemma_first_interval_is_least(a, t);
        } else if y.end_ts < x.end_ts {
            let t = y.end_ts as int;
            assert(x.contains(t));
            assert(covers(a, t));
            assert(covers(b, t));
            lemma_first_interval_is_least(b, t);
        }
        assert(x == y);
        lemma_normalized_tail(a);
        lemma_normalized_tail(b);
        let a1 = a.drop_first();
        let b1 = b.drop_first();
        assert forall|t: int|
            #![trigger covers(a1, t)]
            #![trigger covers(b1, t)]
            covers(a1, t) <==> covers(b1, t) by {
            if covers(a1, t) {
                let k = choose|k: int| 0 <= k < a1.len() && #[trigger] a1[k].contains(t);
                assert(a[k + 1].contains(t));
                assert(covers(a, t));
                assert(covers(b, t));
                lemma_first_interval_is_least(a, t);
                lemma_first_interval_is_least(b, t);
            }
            if covers(b1, t) {
                let k = choose|k: int| 0 <= k < b1.len() && #[trigger] b1[k].contains(t);
                assert(b[k + 1].contains(t));
                assert(covers(b, t));
                assert(covers(a, t));
                lemma_first_interval_is_least(b, t);
                lemma_first_interval_is_least(a, t);
            }
        }
        lemma_normalized_is_unique(a1, b1);
        assert(a =~= seq![x] + a1);
        assert(b =~= seq![y] + b1);
    }
}

} // verus!
