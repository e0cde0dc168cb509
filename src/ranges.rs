use vstd::prelude::*;

verus! {

/// Whether position `p` lies in the half-open span `s`.
pub open spec fn span_covers(s: (usize, usize), p: int) -> bool {
    s.0 <= p && p < s.1
}

/// Whether some span of `spans` covers position `p`.
pub open spec fn covered(spans: Seq<(usize, usize)>, p: int) -> bool {
    exists|i: int| 0 <= i < spans.len() && span_covers(#[trigger] spans[i], p)
}

/// Every span has its start at or before its end.
pub open spec fn spans_well_formed(spans: Seq<(usize, usize)>) -> bool {
    forall|i: int| 0 <= i < spans.len() ==> (#[trigger] spans[i]).0 <= spans[i].1
}

/// Spans in ascending order, each ending strictly before the next begins:
/// sorted, pairwise disjoint and never touching.
pub open spec fn spans_separated(spans: Seq<(usize, usize)>) -> bool {
    forall|i: int, j: int| 0 <= i < j < spans.len() ==> (#[trigger] spans[i]).1 < (#[trigger] spans[j]).0
}

/// Spans in ascending order, each ending at or before the next begins.
pub open spec fn spans_ordered(spans: Seq<(usize, usize)>) -> bool {
    forall|i: int, j: int| 0 <= i < j < spans.len() ==> (#[trigger] spans[i]).1 <= (#[trigger] spans[j]).0
}

/// Span `s` lies inside span `t`.
pub open spec fn within(s: (usize, usize), t: (usize, usize)) -> bool {
    t.0 <= s.0 && s.1 <= t.1
}

/// Some span of `spans` holds the whole of `s`.
#[verifier::opaque]
pub open spec fn held_by(spans: Seq<(usize, usize)>, s: (usize, usize)) -> bool {
    exists|k: int| 0 <= k < spans.len() && within(s, #[trigger] spans[k])
}

/// Some span of `spans` starts at `x`.
#[verifier::opaque]
pub open spec fn starts_at(spans: Seq<(usize, usize)>, x: usize) -> bool {
    exists|j: int| 0 <= j < spans.len() && (#[trigger] spans[j]).0 == x
}

/// Some span of `spans` ends at `x`.
#[verifier::opaque]
pub open spec fn ends_at(spans: Seq<(usize, usize)>, x: usize) -> bool {
    exists|j: int| 0 <= j < spans.len() && (#[trigger] spans[j]).1 == x
}

/// `merged` is the merge of `input`: well-formed spans, ascending and never
/// touching, covering exactly the positions the input covers; each input
/// span lies inside one of them, and each of them starts at an input start
/// and ends at an input end.
pub open spec fn merged_from(input: Seq<(usize, usize)>, merged: Seq<(usize, usize)>) -> bool {
    &&& spans_well_formed(merged)
    &&& spans_separated(merged)
    &&& forall|p: int| covered(merged, p) <==> covered(input, p)
    &&& forall|i: int| 0 <= i < input.len() ==> held_by(merged, #[trigger] input[i])
    &&& forall|k: int|
        0 <= k < merged.len() ==> starts_at(input, (#[trigger] merged[k]).0) && ends_at(input, merged[k].1)
}

pub open spec fn sorted_by_start(spans: Seq<(usize, usize)>) -> bool {
    forall|i: int, j: int| 0 <= i <= j < spans.len() ==> (#[trigger] spans[i]).0 <= (#[trigger] spans[j]).0
}

/// Appending a span adds exactly the positions it covers.
proof fn lemma_push_covers(spans: Seq<(usize, usize)>, s: (usize, usize))
    ensures
        forall|p: int| covered(spans.push(s), p) <==> (covered(spans, p) || span_covers(s, p)),
{
    let longer = spans.push(s);
    assert forall|p: int| covered(longer, p) <==> (covered(spans, p) || span_covers(s, p)) by {
        if covered(longer, p) {
            let j = choose|j: int| 0 <= j < longer.len() && span_covers(longer[j], p);
            if j < spans.len() {
                assert(span_covers(spans[j], p));
            }
        }
        if covered(spans, p) {
            let j = choose|j: int| 0 <= j < spans.len() && span_covers(spans[j], p);
            assert(span_covers(longer[j], p));
        }
        if span_covers(s, p) {
            assert(span_covers(longer[spans.len() as int], p));
        }
    }
}

/// The start and end of span `i` are endpoints of `spans`.
proof fn lemma_endpoints_of(spans: Seq<(usize, usize)>, i: int)
    requires
        0 <= i < spans.len(),
    ensures
        starts_at(spans, spans[i].0),
        ends_at(spans, spans[i].1),
{
    reveal(starts_at);
    reveal(ends_at);
}

/// Appending a span keeps every span that was held, held.
proof fn lemma_push_holds(spans: Seq<(usize, usize)>, s: (usize, usize))
    ensures
        forall|x: (usize, usize)| held_by(spans, x) ==> held_by(spans.push(s), x),
        forall|x: (usize, usize)| within(x, s) ==> held_by(spans.push(s), x),
        forall|x: usize| starts_at(spans, x) ==> starts_at(spans.push(s), x),
        forall|x: usize| ends_at(spans, x) ==> ends_at(spans.push(s), x),
        starts_at(spans.push(s), s.0),
        ends_at(spans.push(s), s.1),
{
    reveal(held_by);
    reveal(starts_at);
    reveal(ends_at);
    let longer = spans.push(s);
    assert(longer[spans.len() as int] == s);
    assert forall|x: (usize, usize)| held_by(spans, x) implies held_by(longer, x) by {
        let k = choose|k: int| 0 <= k < spans.len() && within(x, spans[k]);
        assert(longer[k] == spans[k]);
    }
    assert forall|x: usize| starts_at(spans, x) implies starts_at(longer, x) by {
        let k = choose|k: int| 0 <= k < spans.len() && spans[k].0 == x;
        assert(longer[k] == spans[k]);
    }
    assert forall|x: usize| ends_at(spans, x) implies ends_at(longer, x) by {
        let k = choose|k: int| 0 <= k < spans.len() && spans[k].1 == x;
        assert(longer[k] == spans[k]);
    }
}

/// Every span of `a` is also a span of `b`.
#[verifier::opaque]
pub open spec fn all_in(a: Seq<(usize, usize)>, b: Seq<(usize, usize)>) -> bool {
    forall|k: int| 0 <= k < a.len() ==> b.contains(#[trigger] a[k])
}

/// Input spans held by the merge of a reordering are held by it.
proof fn lemma_holds_carry(ranges: Seq<(usize, usize)>, sorted: Seq<(usize, usize)>, merged: Seq<(usize, usize)>)
    requires
        all_in(ranges, sorted),
        forall|k: int| 0 <= k < sorted.len() ==> held_by(merged, #[trigger] sorted[k]),
    ensures
        forall|i: int| 0 <= i < ranges.len() ==> held_by(merged, #[trigger] ranges[i]),
{
    reveal(all_in);
    reveal(held_by);
    assert forall|i: int| 0 <= i < ranges.len() implies held_by(merged, #[trigger] ranges[i]) by {
        assert(sorted.contains(ranges[i]));
        let j = choose|j: int| 0 <= j < sorted.len() && sorted[j] == ranges[i];
        assert(held_by(merged, sorted[j]));
    }
}

/// Endpoints taken from a reordering of the input are input endpoints.
proof fn lemma_endpoints_carry(ranges: Seq<(usize, usize)>, sorted: Seq<(usize, usize)>, merged: Seq<(usize, usize)>)
    requires
        all_in(sorted, ranges),
        forall|m: int|
            0 <= m < merged.len() ==> starts_at(sorted, (#[trigger] merged[m]).0) && ends_at(sorted, merged[m].1),
    ensures
        forall|m: int|
            0 <= m < merged.len() ==> starts_at(ranges, (#[trigger] merged[m]).0) && ends_at(ranges, merged[m].1),
{
    reveal(all_in);
    reveal(starts_at);
    reveal(ends_at);
    assert forall|m: int|
        0 <= m < merged.len() implies starts_at(ranges, (#[trigger] merged[m]).0) && ends_at(ranges, merged[m].1) by {
        assert(starts_at(sorted, merged[m].0));
        let a = choose|a: int| 0 <= a < sorted.len() && sorted[a].0 == merged[m].0;
        assert(ranges.contains(sorted[a]));
        let b = choose|b: int| 0 <= b < ranges.len() && ranges[b] == sorted[a];
        assert(ranges[b].0 == merged[m].0);
        assert(ends_at(sorted, merged[m].1));
        let c = choose|c: int| 0 <= c < sorted.len() && sorted[c].1 == merged[m].1;
        assert(ranges.contains(sorted[c]));
        let d = choose|d: int| 0 <= d < ranges.len() && ranges[d] == sorted[c];
        assert(ranges[d].1 == merged[m].1);
    }
}

/// A reordering of well-formed spans holds the same spans and covers the
/// same positions.
proof fn lemma_reordered_spans(ranges: Seq<(usize, usize)>, sorted: Seq<(usize, usize)>)
    requires
        sorted.to_multiset() == ranges.to_multiset(),
        spans_well_formed(ranges),
    ensures
        sorted.len() == ranges.len(),
        spans_well_formed(sorted),
        all_in(sorted, ranges),
        all_in(ranges, sorted),
        forall|p: int| covered(sorted, p) <==> covered(ranges, p),
{
    broadcast use vstd::seq_lib::group_to_multiset_ensures;

    reveal(all_in);
    assert forall|k: int| 0 <= k < sorted.len() implies ranges.contains(#[trigger] sorted[k]) by {
        assert(sorted.to_multiset().count(sorted[k]) > 0);
    }
    assert forall|k: int| 0 <= k < ranges.len() implies sorted.contains(#[trigger] ranges[k]) by {
        assert(ranges.to_multiset().count(ranges[k]) > 0);
    }
    assert forall|p: int| covered(sorted, p) <==> covered(ranges, p) by {
        if covered(sorted, p) {
            let i = choose|i: int| 0 <= i < sorted.len() && span_covers(sorted[i], p);
            assert(ranges.contains(sorted[i]));
            let j = choose|j: int| 0 <= j < ranges.len() && ranges[j] == sorted[i];
            assert(span_covers(ranges[j], p));
        }
        if covered(ranges, p) {
            let i = choose|i: int| 0 <= i < ranges.len() && span_covers(ranges[i], p);
            assert(sorted.contains(ranges[i]));
            let j = choose|j: int| 0 <= j < sorted.len() && sorted[j] == ranges[i];
            assert(span_covers(sorted[j], p));
        }
    }
    assert forall|k: int| 0 <= k < sorted.len() implies (#[trigger] sorted[k]).0 <= sorted[k].1 by {
        assert(ranges.contains(sorted[k]));
    }
    sorted.to_multiset_ensures();
    ranges.to_multiset_ensures();
    assert(sorted.len() == sorted.to_multiset().len());
    assert(ranges.len() == ranges.to_multiset().len());
}

/// Relies on `slice::sort_by_key`: the same spans, ordered by their starts.
#[verifier::external_body]
fn sort_by_start(spans: &mut Vec<(usize, usize)>)
    ensures
        final(spans)@.to_multiset() == old(spans)@.to_multiset(),
        sorted_by_start(final(spans)@),
{
    spans.sort_by_key(|r| r.0);
}

/// Collapses overlapping or touching spans into the fewest separated spans
/// that cover the same positions.
pub fn merge_ranges(ranges: Vec<(usize, usize)>) -> (merged: Vec<(usize, usize)>)
    requires
        spans_well_formed(ranges@),
    ensures
        merged_from(ranges@, merged@),
        merged@.len() <= ranges@.len(),
        ranges@.len() == 0 <==> merged@.len() == 0,
{
    let mut merged: Vec<(usize, usize)> = Vec::new();
    if ranges.len() == 0 {
        return merged;
    }
    let mut sorted = ranges;
    sort_by_start(&mut sorted);
    proof {
        lemma_reordered_spans(ranges@, sorted@);
    }
    let mut current = sorted[0];
    proof {
        lemma_endpoints_of(sorted@, 0);
        let first = sorted@.subrange(0, 1);
        assert forall|p: int| span_covers(current, p) <==> covered(first, p) by {
            if span_covers(current, p) {
                assert(span_covers(first[0], p));
            }
        }
    }
    let mut i: usize = 1;
    while i < sorted.len()
        invariant
            1 <= i <= sorted@.len(),
            sorted_by_start(sorted@),
            spans_well_formed(sorted@),
            spans_well_formed(merged@),
            spans_separated(merged@),
            current.0 <= current.1,
            merged@.len() < i,
            forall|k: int| 0 <= k < merged@.len() ==> (#[trigger] merged@[k]).1 < current.0,
            forall|k: int| i <= k < sorted@.len() ==> current.0 <= (#[trigger] sorted@[k]).0,
            forall|k: int|
                0 <= k < i ==> held_by(merged@, #[trigger] sorted@[k]) || within(sorted@[k], current),
            forall|m: int|
                0 <= m < merged@.len() ==> starts_at(sorted@, (#[trigger] merged@[m]).0) && ends_at(
                    sorted@,
                    merged@[m].1,
                ),
            starts_at(sorted@, current.0),
            ends_at(sorted@, current.1),
            forall|p: int|
                #![trigger covered(sorted@.subrange(0, i as int), p)]
                (covered(merged@, p) || span_covers(current, p)) <==> covered(
                    sorted@.subrange(0, i as int),
                    p,
                ),
        decreases sorted@.len() - i,
    {
        let range = sorted[i];
        let ghost prefix = sorted@.subrange(0, i as int);
        let ghost next = sorted@.subrange(0, i + 1);
        proof {
            assert(next =~= prefix.push(range));
            lemma_push_covers(prefix, range);
        }
        let ghost was = current;
        let ghost merged_before = merged@;
        if range.0 <= current.1 {
            if range.1 > current.1 {
                current.1 = range.1;
            }
            proof {
                assert(within(range, current));
                assert forall|k: int| 0 <= k < i + 1 implies held_by(merged@, #[trigger] sorted@[k]) || within(
                    sorted@[k],
                    current,
                ) by {
                    if k < i && !held_by(merged@, sorted@[k]) {
                        assert(within(sorted@[k], was));
                    }
                }
                lemma_endpoints_of(sorted@, i as int);
            }
        } else {
            let ghost before = merged@;
            merged.push(current);
            proof {
                lemma_push_covers(before, current);
                lemma_push_holds(before, current);
                assert(within(range, range));
                lemma_endpoints_of(sorted@, i as int);
            }
            current = range;
        }
        proof {
            assert forall|p: int|
                (covered(merged@, p) || span_covers(current, p)) <==> covered(next, p) by {
                assert(covered(next, p) <==> (covered(prefix, p) || span_covers(range, p)));
                assert((covered(merged_before, p) || span_covers(was, p)) <==> covered(prefix, p));
                if range.0 <= was.1 {
                    assert(merged@ == merged_before);
                    assert(span_covers(current, p) <==> (span_covers(was, p) || span_covers(range, p)));
                } else {
                    assert(covered(merged@, p) <==> (covered(merged_before, p) || span_covers(was, p)));
                    assert(current == range);
                }
            }
        }
        i = i + 1;
    }
    let ghost before = merged@;
    merged.push(current);
    proof {
        assert(sorted@.subrange(0, sorted@.len() as int) =~= sorted@);
        let last = current;
        lemma_push_covers(before, current);
        lemma_push_holds(before, current);
        lemma_holds_carry(ranges@, sorted@, merged@);
        lemma_endpoints_carry(ranges@, sorted@, merged@);
        assert forall|p: int| covered(merged@, p) <==> covered(ranges@, p) by {
            assert(covered(merged@, p) <==> (covered(before, p) || span_covers(last, p)));
            assert((covered(before, p) || span_covers(last, p)) <==> covered(
                sorted@.subrange(0, sorted@.len() as int),
                p,
            ));
        }
    }
    merged
}

/// In separated spans, a position at the end of one span or between two
/// spans is covered by none.
proof fn lemma_gap_uncovered(a: Seq<(usize, usize)>, k: int)
    requires
        spans_well_formed(a),
        spans_separated(a),
        0 <= k < a.len(),
    ensures
        !covered(a, a[k].1 as int),
{
    if covered(a, a[k].1 as int) {
        let q = choose|q: int| 0 <= q < a.len() && span_covers(a[q], a[k].1 as int);
        if q < k {
            assert(a[q].1 < a[k].0);
        } else if q > k {
            assert(a[k].1 < a[q].0);
        }
    }
}

proof fn lemma_starts_witness(spans: Seq<(usize, usize)>, x: usize) -> (j: int)
    requires
        starts_at(spans, x),
    ensures
        0 <= j < spans.len() && spans[j].0 == x,
{
    reveal(starts_at);
    choose|j: int| 0 <= j < spans.len() && spans[j].0 == x
}

proof fn lemma_ends_witness(spans: Seq<(usize, usize)>, x: usize) -> (j: int)
    requires
        ends_at(spans, x),
    ensures
        0 <= j < spans.len() && spans[j].1 == x,
{
    reveal(ends_at);
    choose|j: int| 0 <= j < spans.len() && spans[j].1 == x
}

proof fn lemma_held_witness(spans: Seq<(usize, usize)>, s: (usize, usize)) -> (k: int)
    requires
        held_by(spans, s),
    ensures
        0 <= k < spans.len() && within(s, spans[k]),
{
    reveal(held_by);
    choose|k: int| 0 <= k < spans.len() && within(s, spans[k])
}

/// Each span of one merge of `input` starts where a span of another does.
proof fn lemma_start_match(input: Seq<(usize, usize)>, a: Seq<(usize, usize)>, b: Seq<(usize, usize)>, k: int)
    requires
        spans_well_formed(input),
        merged_from(input, a),
        merged_from(input, b),
        0 <= k < a.len(),
    ensures
        exists|m: int| 0 <= m < b.len() && (#[trigger] b[m]).0 == a[k].0,
{
    let i = lemma_starts_witness(input, a[k].0);
    let m = lemma_held_witness(b, input[i]);
    let j = lemma_starts_witness(input, b[m].0);
    let q = lemma_held_witness(a, input[j]);
    if q < k {
        let p = a[q].1 as int;
        assert(a[q].1 < a[k].0);
        assert(span_covers(b[m], p));
        assert(covered(b, p));
        lemma_gap_uncovered(a, q);
    } else if q > k {
        assert(a[k].1 < a[q].0);
    }
    assert(b[m].0 == a[k].0);
}

/// Spans of two merges of `input` that start together end no later in the
/// second than in the first.
proof fn lemma_end_bound(input: Seq<(usize, usize)>, a: Seq<(usize, usize)>, b: Seq<(usize, usize)>, k: int, m: int)
    requires
        spans_well_formed(input),
        merged_from(input, a),
        merged_from(input, b),
        0 <= k < a.len(),
        0 <= m < b.len(),
        a[k].0 == b[m].0,
    ensures
        b[m].1 <= a[k].1,
{
    if a[k].1 < b[m].1 {
        let e = lemma_ends_witness(input, b[m].1);
        let q = lemma_held_witness(a, input[e]);
        if q < k {
            assert(a[q].1 < a[k].0);
        } else if q > k {
            let p = a[k].1 as int;
            assert(span_covers(b[m], p));
            assert(covered(b, p));
            lemma_gap_uncovered(a, k);
        }
    }
}

/// Two sequences of separated spans that hold the same spans are equal.
proof fn lemma_same_separated(a: Seq<(usize, usize)>, b: Seq<(usize, usize)>)
    requires
        spans_well_formed(a),
        spans_separated(a),
        spans_well_formed(b),
        spans_separated(b),
        forall|k: int| 0 <= k < a.len() ==> b.contains(#[trigger] a[k]),
        forall|m: int| 0 <= m < b.len() ==> a.contains(#[trigger] b[m]),
    ensures
        a == b,
    decreases a.len(),
{
    if a.len() == 0 {
        if b.len() > 0 {
            assert(a.contains(b[0]));
        }
        assert(a =~= b);
    } else if b.len() == 0 {
        assert(b.contains(a[0]));
    } else {
        assert(b.contains(a[0]));
        assert(a.contains(b[0]));
        let j = choose|j: int| 0 <= j < b.len() && b[j] == a[0];
        let i = choose|i: int| 0 <= i < a.len() && a[i] == b[0];
        if j > 0 {
            assert(b[0].1 < b[j].0);
            if i > 0 {
                assert(a[0].1 < a[i].0);
            }
        }
        assert(a[0] == b[0]);
        let at = a.drop_first();
        let bt = b.drop_first();
        assert forall|k: int| 0 <= k < at.len() implies bt.contains(#[trigger] at[k]) by {
            assert(a[k + 1] == at[k]);
            assert(b.contains(a[k + 1]));
            let n = choose|n: int| 0 <= n < b.len() && b[n] == a[k + 1];
            assert(a[0].1 < a[k + 1].0);
            if n == 0 {
                assert(false);
            }
            assert(bt[n - 1] == at[k]);
        }
        assert forall|m: int| 0 <= m < bt.len() implies at.contains(#[trigger] bt[m]) by {
            assert(b[m + 1] == bt[m]);
            assert(a.contains(b[m + 1]));
            let n = choose|n: int| 0 <= n < a.len() && a[n] == b[m + 1];
            assert(b[0].1 < b[m + 1].0);
            if n == 0 {
                assert(false);
            }
            assert(at[n - 1] == bt[m]);
        }
        lemma_same_separated(at, bt);
        assert(a =~= seq![a[0]] + at);
        assert(b =~= seq![b[0]] + bt);
    }
}

/// The merge of a set of spans is unique: any two results that meet the
/// contract of `merge_ranges` for the same input are equal.
pub proof fn lemma_merge_unique(input: Seq<(usize, usize)>, a: Seq<(usize, usize)>, b: Seq<(usize, usize)>)
    requires
        spans_well_formed(input),
        merged_from(input, a),
        merged_from(input, b),
    ensures
        a == b,
{
    assert forall|k: int| 0 <= k < a.len() implies b.contains(#[trigger] a[k]) by {
        lemma_start_match(input, a, b, k);
        let m = choose|m: int| 0 <= m < b.len() && b[m].0 == a[k].0;
        lemma_end_bound(input, a, b, k, m);
        lemma_end_bound(input, b, a, m, k);
        assert(b[m] == a[k]);
    }
    assert forall|m: int| 0 <= m < b.len() implies a.contains(#[trigger] b[m]) by {
        lemma_start_match(input, b, a, m);
        let k = choose|k: int| 0 <= k < a.len() && a[k].0 == b[m].0;
        lemma_end_bound(input, a, b, k, m);
        lemma_end_bound(input, b, a, m, k);
        assert(b[m] == a[k]);
    }
    lemma_same_separated(a, b);
}

/// Merging spans that are already merged gives them back unchanged.
pub proof fn lemma_merge_idempotent(m: Seq<(usize, usize)>, again: Seq<(usize, usize)>)
    requires
        spans_well_formed(m),
        spans_separated(m),
        merged_from(m, again),
    ensures
        again == m,
{
    assert forall|i: int| 0 <= i < m.len() implies held_by(m, #[trigger] m[i]) by {
        reveal(held_by);
        assert(within(m[i], m[i]));
    }
    assert forall|k: int| 0 <= k < m.len() implies starts_at(m, (#[trigger] m[k]).0) && ends_at(m, m[k].1) by {
        lemma_endpoints_of(m, k);
    }
    lemma_merge_unique(m, again, m);
}

/// The merge does not depend on the order of the input spans: two inputs
/// that hold the same spans merge to the same result.
pub proof fn lemma_merge_order_free(
    r1: Seq<(usize, usize)>,
    r2: Seq<(usize, usize)>,
    a: Seq<(usize, usize)>,
    b: Seq<(usize, usize)>,
)
    requires
        spans_well_formed(r1),
        r2.to_multiset() == r1.to_multiset(),
        merged_from(r1, a),
        merged_from(r2, b),
    ensures
        a == b,
{
    lemma_reordered_spans(r1, r2);
    lemma_holds_carry(r1, r2, b);
    lemma_endpoints_carry(r1, r2, b);
    lemma_merge_unique(r1, a, b);
}

} // verus!
