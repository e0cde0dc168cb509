use vstd::prelude::*;
use vstd::string::*;
use vstd::utf8::*;
use crate::ranges::spans_ordered;
use crate::pattern::{
    case_variants, char_offset, chars_of, compiled_from, fold_seq, fold_text, regex_matches,
    spans_fit, CompiledPattern, SearchFlags,
};

verus! {

/// Whether `pat` occurs in `line` starting at position `i`.
pub open spec fn occurs_at(line: Seq<char>, pat: Seq<char>, i: int) -> bool {
    &&& 0 <= i
    &&& i + pat.len() <= line.len()
    &&& line.subrange(i, i + pat.len()) == pat
}

pub open spec fn strictly_increasing(s: Seq<usize>) -> bool {
    forall|a: int, b: int| 0 <= a < b < s.len() ==> (#[trigger] s[a]) < (#[trigger] s[b])
}

pub open spec fn lists(s: Seq<usize>, k: int) -> bool {
    exists|j: int| 0 <= j < s.len() && s[j] == k
}

/// `r` lists, in increasing order, exactly the positions at which a
/// non-empty `pat` occurs in `line`, overlapping occurrences included.
pub open spec fn lists_occurrences(r: Seq<usize>, line: Seq<char>, pat: Seq<char>) -> bool {
    &&& strictly_increasing(r)
    &&& forall|k: int| #[trigger] lists(r, k) <==> (pat.len() > 0 && occurs_at(line, pat, k))
}

/// The values of `xs` that exceed every value kept before them, in order.
pub open spec fn increasing_run(xs: Seq<int>) -> Seq<usize>
    decreases xs.len(),
{
    if xs.len() == 0 {
        Seq::empty()
    } else {
        let kept = increasing_run(xs.drop_last());
        if kept.len() == 0 || xs.last() > kept.last() {
            kept.push(xs.last() as usize)
        } else {
            kept
        }
    }
}

/// The character positions at which the byte spans begin, leaving out a
/// start that does not move past the previous one.
pub open spec fn span_starts(line: Seq<char>, spans: Seq<(usize, usize)>) -> Seq<usize> {
    increasing_run(spans.map_values(|s: (usize, usize)| char_offset(line, s.0 as int)))
}

/// The occurrence offsets that scanning `line` with `p` reports: for a
/// regular expression, the starts of its matches, which never overlap.
pub open spec fn scanned(p: CompiledPattern, line: Seq<char>, r: Seq<usize>) -> bool {
    match p {
        CompiledPattern::Literal { text, folded } => lists_occurrences(
            r,
            if folded {
                fold_seq(line)
            } else {
                line
            },
            text@,
        ),
        CompiledPattern::Regex(re) => {
            &&& r == span_starts(line, regex_matches(re.source(), line))
            &&& spans_ordered(regex_matches(re.source(), line))
        },
    }
}

/// Whether `pat` occurs in `line` at position `i`.
fn occurs_here(line: &Vec<char>, pat: &Vec<char>, i: usize) -> (r: bool)
    requires
        i + pat@.len() <= line@.len(),
    ensures
        r == occurs_at(line@, pat@, i as int),
{
    let n = line.len();
    let mut j: usize = 0;
    while j < pat.len()
        invariant
            n == line@.len(),
            i + pat@.len() <= line@.len(),
            j <= pat@.len(),
            forall|m: int| 0 <= m < j ==> line@[i + m] == pat@[m],
        decreases pat@.len() - j,
    {
        if line[i + j] != pat[j] {
            assert(line@.subrange(i as int, i + pat@.len())[j as int] != pat@[j as int]);
            return false;
        }
        j = j + 1;
    }
    assert(line@.subrange(i as int, i + pat@.len()) =~= pat@);
    true
}

/// Every position at which `pat` occurs in `line`, in increasing order. The
/// search resumes one place after each occurrence, so occurrences that
/// overlap are all reported. An empty `pat` occurs nowhere.
pub fn find_literal(line: &Vec<char>, pat: &Vec<char>) -> (r: Vec<usize>)
    ensures
        lists_occurrences(r@, line@, pat@),
        forall|j: int| 0 <= j < r@.len() ==> r@[j] + pat@.len() <= line@.len(),
{
    let mut r: Vec<usize> = Vec::new();
    if pat.len() == 0 || pat.len() > line.len() {
        assert forall|k: int| #[trigger] lists(r@, k) <==> (pat@.len() > 0 && occurs_at(line@, pat@, k)) by {}
        return r;
    }
    let n = line.len();
    let last = n - pat.len();
    let mut i: usize = 0;
    while i <= last
        invariant
            n == line@.len(),
            pat@.len() > 0,
            last + pat@.len() == line@.len(),
            i <= last + 1,
            strictly_increasing(r@),
            forall|j: int| 0 <= j < r@.len() ==> r@[j] < i,
            forall|k: int| #[trigger] lists(r@, k) <==> (k < i && occurs_at(line@, pat@, k)),
        decreases last + 1 - i,
    {
        if occurs_here(line, pat, i) {
            let ghost before = r@;
            r.push(i);
            assert forall|k: int| #[trigger] lists(r@, k) <==> (k < i + 1 && occurs_at(line@, pat@, k)) by {
                if lists(before, k) {
                    let j = choose|j: int| 0 <= j < before.len() && before[j] == k;
                    assert(r@[j] == k);
                }
                if k == i {
                    assert(r@[before.len() as int] == k);
                }
                if lists(r@, k) {
                    let j = choose|j: int| 0 <= j < r@.len() && r@[j] == k;
                    if j < before.len() {
                        assert(lists(before, k));
                    }
                }
            }
        } else {
            assert forall|k: int| #[trigger] lists(r@, k) <==> (k < i + 1 && occurs_at(line@, pat@, k)) by {
                if lists(r@, k) {
                    let j = choose|j: int| 0 <= j < r@.len() && r@[j] == k;
                    assert(r@[j] < i);
                }
            }
        }
        i = i + 1;
    }
    assert forall|j: int| 0 <= j < r@.len() implies r@[j] + pat@.len() <= line@.len() by {
        assert(lists(r@, r@[j] as int));
    }
    r
}

/// The number of characters in `line` before byte offset `byte`.
fn char_position(line: &str, byte: usize) -> (r: usize)
    requires
        is_char_boundary(line.spec_bytes(), byte as int),
        byte <= line.spec_bytes().len(),
    ensures
        r == char_offset(line@, byte as int),
        r <= line@.len(),
{
    let (head, _) = line.split_at(byte);
    proof {
        broadcast use encode_utf8_decode_utf8, encode_utf8_valid_utf8;
        assert(decode_utf8(encode_utf8(head@)) == head@);
        let bytes = encode_utf8(line@);
        decode_utf8_split(bytes, byte as int);
        assert(decode_utf8(bytes) == line@);
    }
    head.unicode_len()
}

/// Turns the byte spans reported for `line` into the character positions at
/// which they begin. A start that does not move past the previous one is
/// left out, so the offsets strictly increase.
pub fn char_starts(line: &str, spans: &Vec<(usize, usize)>) -> (r: Vec<usize>)
    requires
        spans_fit(spans@, line),
    ensures
        r@ == span_starts(line@, spans@),
        strictly_increasing(r@),
        forall|j: int| 0 <= j < r@.len() ==> r@[j] <= line@.len(),
{
    let ghost starts = spans@.map_values(|s: (usize, usize)| char_offset(line@, s.0 as int));
    let mut r: Vec<usize> = Vec::new();
    let mut i: usize = 0;
    while i < spans.len()
        invariant
            i <= spans@.len(),
            spans_fit(spans@, line),
            starts == spans@.map_values(|s: (usize, usize)| char_offset(line@, s.0 as int)),
            r@ == increasing_run(starts.subrange(0, i as int)),
            strictly_increasing(r@),
            forall|j: int| 0 <= j < r@.len() ==> r@[j] <= line@.len(),
        decreases spans@.len() - i,
    {
        let c = char_position(line, spans[i].0);
        proof {
            assert(starts.subrange(0, i + 1).drop_last() =~= starts.subrange(0, i as int));
        }
        if r.len() == 0 || c > r[r.len() - 1] {
            r.push(c);
        }
        i = i + 1;
    }
    assert(starts.subrange(0, spans@.len() as int) =~= starts);
    r
}

/// The positions in `line` at which `pattern` matches, in increasing order.
pub fn scan(line: &str, pattern: &CompiledPattern) -> (r: Vec<usize>)
    ensures
        scanned(*pattern, line@, r@),
        strictly_increasing(r@),
        forall|j: int| 0 <= j < r@.len() ==> r@[j] <= line@.len(),
{
    match pattern {
        CompiledPattern::Literal { text, folded } => {
            let chars = chars_of(line);
            let hay = if *folded {
                fold_text(&chars)
            } else {
                chars
            };
            let r = find_literal(&hay, text);
            assert forall|j: int| 0 <= j < r@.len() implies r@[j] <= line@.len() by {
                assert(lists(r@, r@[j] as int));
            }
            r
        },
        CompiledPattern::Regex(re) => {
            let spans = re.match_spans(line);
            char_starts(line, &spans)
        },
    }
}

/// Two strictly increasing sequences that list the same values are equal.
pub proof fn lemma_increasing_lists_unique(x: Seq<usize>, y: Seq<usize>)
    requires
        strictly_increasing(x),
        strictly_increasing(y),
        forall|k: int| #![trigger lists(x, k)] #![trigger lists(y, k)] lists(x, k) <==> lists(y, k),
    ensures
        x == y,
    decreases x.len(),
{
    if x.len() == 0 {
        if y.len() > 0 {
            assert(lists(y, y[0] as int));
            assert(lists(x, y[0] as int));
        }
        assert(y =~= x);
    } else if y.len() == 0 {
        assert(lists(x, x[0] as int));
    } else {
        assert(lists(x, x[0] as int));
        assert(lists(y, y[0] as int));
        assert(lists(y, x[0] as int));
        assert(lists(x, y[0] as int));
        let j = choose|j: int| 0 <= j < y.len() && y[j] == x[0];
        let i = choose|i: int| 0 <= i < x.len() && x[i] == y[0];
        if j > 0 {
            assert(y[0] < y[j]);
            if i > 0 {
                assert(x[0] < x[i]);
            }
        }
        assert(x[0] == y[0]);
        let xs = x.drop_first();
        let ys = y.drop_first();
        assert forall|k: int| #![trigger lists(xs, k)] #![trigger lists(ys, k)] lists(xs, k) <==> lists(ys, k) by {
            if lists(xs, k) {
                let m = choose|m: int| 0 <= m < xs.len() && xs[m] == k;
                assert(x[m + 1] == k);
                assert(lists(x, k));
                let n = choose|n: int| 0 <= n < y.len() && y[n] == k;
                assert(x[0] < x[m + 1]);
                if n == 0 {
                    assert(false);
                }
                assert(ys[n - 1] == k);
            }
            if lists(ys, k) {
                let m = choose|m: int| 0 <= m < ys.len() && ys[m] == k;
                assert(y[m + 1] == k);
                assert(lists(y, k));
                let n = choose|n: int| 0 <= n < x.len() && x[n] == k;
                assert(y[0] < y[m + 1]);
                if n == 0 {
                    assert(false);
                }
                assert(xs[n - 1] == k);
            }
        }
        lemma_increasing_lists_unique(xs, ys);
        assert(x =~= seq![x[0]] + xs);
        assert(y =~= seq![y[0]] + ys);
    }
}

/// A search that ignores case reports the same offsets on two lines that
/// differ only in the case of ASCII letters, for every literal query.
pub proof fn lemma_case_variants_scan_alike(
    p: CompiledPattern,
    query: Seq<char>,
    flags: SearchFlags,
    a: Seq<char>,
    b: Seq<char>,
    ra: Seq<usize>,
    rb: Seq<usize>,
)
    requires
        compiled_from(p, query, flags),
        flags.case_insensitive,
        !flags.regexp,
        case_variants(a, b),
        scanned(p, a, ra),
        scanned(p, b, rb),
    ensures
        ra == rb,
{
    if query.len() == 0 {
        if let CompiledPattern::Literal { text, folded } = p {
            let la = if folded { fold_seq(a) } else { a };
            let lb = if folded { fold_seq(b) } else { b };
            assert(lists_occurrences(ra, la, text@));
            assert(lists_occurrences(rb, lb, text@));
            lemma_increasing_lists_unique(ra, rb);
        }
    } else {
        if let CompiledPattern::Literal { text, folded } = p {
            assert(lists_occurrences(ra, fold_seq(a), text@));
            assert(lists_occurrences(rb, fold_seq(b), text@));
            lemma_increasing_lists_unique(ra, rb);
        }
    }
}

} // verus!
