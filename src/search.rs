use vstd::prelude::*;
use crate::pattern::{case_variants, compiled_from, fold_char, fold_seq, CompiledPattern, SearchFlags};
use crate::scan::{
    lemma_case_variants_scan_alike, lemma_increasing_lists_unique, lists, scan, scanned,
    strictly_increasing,
};

verus! {

/// One line that matched: its text, its 1-based number and the positions at
/// which the pattern occurs in it.
pub struct MatchedLine {
    pub line: String,
    pub line_number: usize,
    pub locations: Vec<usize>,
}

impl MatchedLine {
    /// At least one location, strictly increasing, none past the end of the
    /// line, and a line number from 1.
    pub open spec fn well_formed(&self) -> bool {
        &&& self.locations@.len() > 0
        &&& strictly_increasing(self.locations@)
        &&& forall|j: int| 0 <= j < self.locations@.len() ==> self.locations@[j] <= self.line@.len()
        &&& self.line_number >= 1
    }

    pub fn new(line: String, line_number: usize, locations: Vec<usize>) -> (r: MatchedLine)
        requires
            locations@.len() > 0,
            strictly_increasing(locations@),
            forall|j: int| 0 <= j < locations@.len() ==> locations@[j] <= line@.len(),
            line_number >= 1,
        ensures
            r.line@ == line@,
            r.line_number == line_number,
            r.locations@ == locations@,
            r.well_formed(),
    {
        MatchedLine { line, line_number, locations }
    }
}

/// The matched lines of one file, in file order; never empty.
pub struct FileMatches {
    pub file_path: String,
    pub matches: Vec<MatchedLine>,
}

impl FileMatches {
    pub open spec fn well_formed(&self) -> bool {
        &&& self.matches@.len() > 0
        &&& forall|k: int| 0 <= k < self.matches@.len() ==> (#[trigger] self.matches@[k]).well_formed()
    }
}

pub open spec fn has_line_number(m: Seq<MatchedLine>, n: int) -> bool {
    exists|k: int| 0 <= k < m.len() && m[k].line_number == n
}

/// `m` records, in order, every line of `lines` on which `p` matches: each
/// entry copies its line, numbers it from 1 and holds its scan result; a
/// line without an entry has no match.
pub open spec fn records_hits(p: CompiledPattern, lines: Seq<Seq<char>>, m: Seq<MatchedLine>) -> bool {
    &&& forall|k: int|
        0 <= k < m.len() ==> {
            &&& 1 <= (#[trigger] m[k]).line_number <= lines.len()
            &&& m[k].line@ == lines[m[k].line_number - 1]
            &&& scanned(p, m[k].line@, m[k].locations@)
            &&& m[k].well_formed()
        }
    &&& forall|k: int, l: int| 0 <= k < l < m.len() ==> (#[trigger] m[k]).line_number < (#[trigger] m[l]).line_number
    &&& forall|i: int|
        0 <= i < lines.len() && !has_line_number(m, i + 1) ==> scanned(p, #[trigger] lines[i], Seq::empty())
}

/// The outcome of searching one file whose lines are `lines`: nothing when
/// no line matches, else every matching line under the file's path.
pub open spec fn file_outcome(
    p: CompiledPattern,
    path: Seq<char>,
    lines: Seq<Seq<char>>,
    r: Option<FileMatches>,
) -> bool {
    match r {
        None => forall|i: int| 0 <= i < lines.len() ==> scanned(p, #[trigger] lines[i], Seq::empty()),
        Some(f) => {
            &&& f.file_path@ == path
            &&& f.well_formed()
            &&& records_hits(p, lines, f.matches@)
        },
    }
}

pub open spec fn views(lines: Seq<String>) -> Seq<Seq<char>> {
    lines.map_values(|s: String| s@)
}

/// Searches the lines of one file. Lines are numbered from 1.
pub fn search_lines(pattern: &CompiledPattern, path: String, lines: &Vec<String>) -> (r: Option<FileMatches>)
    ensures
        file_outcome(*pattern, path@, views(lines@), r),
{
    let ghost text = views(lines@);
    let mut matches: Vec<MatchedLine> = Vec::new();
    let mut i: usize = 0;
    while i < lines.len()
        invariant
            i <= lines@.len(),
            text == views(lines@),
            forall|k: int|
                0 <= k < matches@.len() ==> {
                    &&& 1 <= (#[trigger] matches@[k]).line_number <= i
                    &&& matches@[k].line@ == text[matches@[k].line_number - 1]
                    &&& scanned(*pattern, matches@[k].line@, matches@[k].locations@)
                    &&& matches@[k].well_formed()
                },
            forall|k: int, l: int|
                0 <= k < l < matches@.len() ==> (#[trigger] matches@[k]).line_number < (#[trigger] matches@[l]).line_number,
            forall|j: int|
                0 <= j < i && !has_line_number(matches@, j + 1) ==> scanned(*pattern, #[trigger] text[j], Seq::empty()),
        decreases lines@.len() - i,
    {
        let line = &lines[i];
        let locations = scan(line.as_str(), pattern);
        if locations.len() > 0 {
            let ghost before = matches@;
            matches.push(MatchedLine::new(line.clone(), i + 1, locations));
            assert forall|j: int|
                0 <= j < i + 1 && !has_line_number(matches@, j + 1) implies scanned(*pattern, #[trigger] text[j], Seq::empty()) by {
                if j < i {
                    if has_line_number(before, j + 1) {
                        let k = choose|k: int| 0 <= k < before.len() && before[k].line_number == j + 1;
                        assert(matches@[k].line_number == j + 1);
                    }
                } else {
                    assert(matches@[before.len() as int].line_number == j + 1);
                }
            }
        } else {
            assert(locations@ =~= Seq::<usize>::empty());
            assert forall|j: int|
                0 <= j < i + 1 && !has_line_number(matches@, j + 1) implies scanned(*pattern, #[trigger] text[j], Seq::empty()) by {
            }
        }
        i = i + 1;
    }
    if matches.len() == 0 {
        assert forall|j: int| 0 <= j < text.len() implies scanned(*pattern, #[trigger] text[j], Seq::empty()) by {
            assert(!has_line_number(matches@, j + 1));
        }
        None
    } else {
        Some(FileMatches { file_path: path, matches })
    }
}

/// Where the first `\n` of `t` stands, or the length of `t` when it holds
/// none.
pub open spec fn first_newline(t: Seq<char>) -> nat
    decreases t.len(),
{
    if t.len() == 0 || t[0] == '\n' {
        0
    } else {
        1 + first_newline(t.drop_first())
    }
}

/// `s` without one `\r` at its end.
pub open spec fn strip_cr(s: Seq<char>) -> Seq<char> {
    if s.len() > 0 && s.last() == '\r' {
        s.drop_last()
    } else {
        s
    }
}

/// The lines of `t`: split at each `\n`, a `\r` just before the `\n`
/// dropped with it; the last line's ending is optional, so a text ending in
/// a line ending has no empty last line, and an empty text has no lines.
pub open spec fn text_lines(t: Seq<char>) -> Seq<Seq<char>>
    decreases t.len(),
{
    if t.len() == 0 {
        Seq::empty()
    } else if first_newline(t) >= t.len() {
        seq![t]
    } else {
        seq![strip_cr(t.subrange(0, first_newline(t) as int))] + text_lines(
            t.subrange(first_newline(t) + 1int, t.len() as int),
        )
    }
}

/// Relies on `str::lines`: the text split at `\n` or `\r\n`, with the final
/// line ending optional and a bare `\r` kept.
#[verifier::external_body]
fn lines_of(text: &str) -> (r: Vec<String>)
    ensures
        views(r@) == text_lines(text@),
{
    text.lines().map(|l| l.to_string()).collect()
}

/// Searches the whole text of one file.
pub fn search_contents(pattern: &CompiledPattern, path: String, contents: &str) -> (r: Option<FileMatches>)
    ensures
        file_outcome(*pattern, path@, text_lines(contents@), r),
{
    let lines = lines_of(contents);
    search_lines(pattern, path, &lines)
}

/// An empty query finds nothing: whatever the flags, searching any file
/// comes back empty rather than matching every line.
pub proof fn lemma_empty_query_finds_nothing(
    p: CompiledPattern,
    flags: SearchFlags,
    path: Seq<char>,
    lines: Seq<Seq<char>>,
    r: Option<FileMatches>,
)
    requires
        compiled_from(p, Seq::empty(), flags),
        file_outcome(p, path, lines, r),
    ensures
        r is None,
{
    if let Some(f) = r {
        let m = f.matches@[0];
        assert(m.well_formed());
        assert(scanned(p, m.line@, m.locations@));
        assert(lists(m.locations@, m.locations@[0] as int));
    }
}

pub open spec fn line_numbers(m: Seq<MatchedLine>) -> Seq<usize> {
    m.map_values(|x: MatchedLine| x.line_number)
}

/// Lines `a` and `b` pair up one to one, each pair differing only in the
/// case of ASCII letters.
pub open spec fn lines_case_variants(a: Seq<Seq<char>>, b: Seq<Seq<char>>) -> bool {
    &&& a.len() == b.len()
    &&& forall|i: int| 0 <= i < a.len() ==> case_variants(#[trigger] a[i], b[i])
}

/// With a recorded entry for line number `n` in one file, the other file's
/// search, over case variants of the same lines, records line `n` too.
proof fn lemma_hit_lines_agree(
    p: CompiledPattern,
    query: Seq<char>,
    flags: SearchFlags,
    a: Seq<Seq<char>>,
    b: Seq<Seq<char>>,
    ma: Seq<MatchedLine>,
    mb: Seq<MatchedLine>,
    n: int,
)
    requires
        compiled_from(p, query, flags),
        flags.case_insensitive,
        !flags.regexp,
        lines_case_variants(a, b),
        records_hits(p, a, ma),
        records_hits(p, b, mb),
        has_line_number(ma, n),
    ensures
        has_line_number(mb, n),
{
    let k = choose|k: int| 0 <= k < ma.len() && ma[k].line_number == n;
    let e = ma[k];
    assert(e.well_formed());
    if !has_line_number(mb, n) {
        assert(scanned(p, b[n - 1], Seq::empty()));
        assert(case_variants(a[n - 1], b[n - 1]));
        lemma_case_variants_scan_alike(p, query, flags, a[n - 1], b[n - 1], e.locations@, Seq::empty());
    }
}

/// A search that ignores case finds the same lines, at the same offsets, in
/// two files whose lines differ only in the case of ASCII letters.
pub proof fn lemma_case_variant_files_alike(
    p: CompiledPattern,
    query: Seq<char>,
    flags: SearchFlags,
    path: Seq<char>,
    a: Seq<Seq<char>>,
    b: Seq<Seq<char>>,
    ra: Option<FileMatches>,
    rb: Option<FileMatches>,
)
    requires
        compiled_from(p, query, flags),
        flags.case_insensitive,
        !flags.regexp,
        lines_case_variants(a, b),
        file_outcome(p, path, a, ra),
        file_outcome(p, path, b, rb),
    ensures
        ra is None <==> rb is None,
        ra matches Some(fa) ==> rb matches Some(fb) && fa.matches@.len() == fb.matches@.len() && forall|k: int|
            0 <= k < fa.matches@.len() ==> (#[trigger] fa.matches@[k]).line_number == fb.matches@[k].line_number
                && fa.matches@[k].locations@ == fb.matches@[k].locations@,
{
    match (ra, rb) {
        (Some(fa), None) => {
            let e = fa.matches@[0];
            assert(e.well_formed());
            let n = e.line_number as int;
            assert(scanned(p, b[n - 1], Seq::empty()));
            lemma_case_variants_scan_alike(p, query, flags, a[n - 1], b[n - 1], e.locations@, Seq::empty());
        },
        (None, Some(fb)) => {
            let e = fb.matches@[0];
            assert(e.well_formed());
            let n = e.line_number as int;
            assert(scanned(p, a[n - 1], Seq::empty()));
            assert(case_variants(b[n - 1], a[n - 1]));
            lemma_case_variants_scan_alike(p, query, flags, b[n - 1], a[n - 1], e.locations@, Seq::empty());
        },
        (Some(fa), Some(fb)) => {
            let ma = fa.matches@;
            let mb = fb.matches@;
            let na = line_numbers(ma);
            let nb = line_numbers(mb);
            assert(strictly_increasing(na));
            assert(strictly_increasing(nb));
            assert forall|n: int| #![trigger lists(na, n)] #![trigger lists(nb, n)] lists(na, n) <==> lists(nb, n) by {
                if lists(na, n) {
                    let j = choose|j: int| 0 <= j < na.len() && na[j] == n;
                    assert(has_line_number(ma, n));
                    lemma_hit_lines_agree(p, query, flags, a, b, ma, mb, n);
                    let k = choose|k: int| 0 <= k < mb.len() && mb[k].line_number == n;
                    assert(nb[k] == n);
                }
                if lists(nb, n) {
                    let j = choose|j: int| 0 <= j < nb.len() && nb[j] == n;
                    assert(has_line_number(mb, n));
                    assert(lines_case_variants(b, a)) by {
                        assert forall|i: int| 0 <= i < b.len() implies case_variants(#[trigger] b[i], a[i]) by {
                            assert(case_variants(a[i], b[i]));
                        }
                    }
                    lemma_hit_lines_agree(p, query, flags, b, a, mb, ma, n);
                    let k = choose|k: int| 0 <= k < ma.len() && ma[k].line_number == n;
                    assert(na[k] == n);
                }
            }
            lemma_increasing_lists_unique(na, nb);
            assert forall|k: int| 0 <= k < ma.len() implies (#[trigger] ma[k]).line_number == mb[k].line_number
                && ma[k].locations@ == mb[k].locations@ by {
                assert(na[k] == nb[k]);
                let n = ma[k].line_number as int;
                assert(case_variants(a[n - 1], b[n - 1]));
                lemma_case_variants_scan_alike(p, query, flags, a[n - 1], b[n - 1], ma[k].locations@, mb[k].locations@);
            }
        },
        (None, None) => {},
    }
}

/// Folding case leaves line-ending characters alone and makes no others.
proof fn lemma_fold_keeps_breaks(c: char, d: char)
    requires
        fold_char(c) == fold_char(d),
    ensures
        c == '\n' <==> d == '\n',
        c == '\r' <==> d == '\r',
{
    if 'A' <= c && c <= 'Z' {
        assert((((c as u32) + 32) as char) as u32 == (c as u32) + 32);
    }
    if 'A' <= d && d <= 'Z' {
        assert((((d as u32) + 32) as char) as u32 == (d as u32) + 32);
    }
}

proof fn lemma_first_newline_alike(t1: Seq<char>, t2: Seq<char>)
    requires
        case_variants(t1, t2),
    ensures
        first_newline(t1) == first_newline(t2),
    decreases t1.len(),
{
    assert(fold_seq(t1).len() == fold_seq(t2).len());
    if t1.len() > 0 {
        assert(fold_seq(t1)[0] == fold_seq(t2)[0]);
        lemma_fold_keeps_breaks(t1[0], t2[0]);
        assert(fold_seq(t1.drop_first()) =~= fold_seq(t1).drop_first());
        assert(fold_seq(t2.drop_first()) =~= fold_seq(t2).drop_first());
        lemma_first_newline_alike(t1.drop_first(), t2.drop_first());
    }
}

proof fn lemma_sub_variants(t1: Seq<char>, t2: Seq<char>, i: int, j: int)
    requires
        case_variants(t1, t2),
        0 <= i <= j <= t1.len(),
    ensures
        case_variants(t1.subrange(i, j), t2.subrange(i, j)),
{
    assert(fold_seq(t1).len() == fold_seq(t2).len());
    assert(fold_seq(t1.subrange(i, j)) =~= fold_seq(t1).subrange(i, j));
    assert(fold_seq(t2.subrange(i, j)) =~= fold_seq(t2).subrange(i, j));
}

/// Two texts that differ only in the case of ASCII letters split into the
/// same number of lines, each pair differing only in case.
pub proof fn lemma_text_lines_alike(t1: Seq<char>, t2: Seq<char>)
    requires
        case_variants(t1, t2),
    ensures
        lines_case_variants(text_lines(t1), text_lines(t2)),
    decreases t1.len(),
{
    assert(fold_seq(t1).len() == fold_seq(t2).len());
    if t1.len() > 0 {
        lemma_first_newline_alike(t1, t2);
        let i = first_newline(t1) as int;
        if i < t1.len() {
            lemma_sub_variants(t1, t2, 0, i);
            lemma_sub_variants(t1, t2, i + 1, t1.len() as int);
            let h1 = t1.subrange(0, i);
            let h2 = t2.subrange(0, i);
            if i > 0 {
                assert(fold_seq(h1)[i - 1] == fold_seq(h2)[i - 1]);
                lemma_fold_keeps_breaks(h1.last(), h2.last());
                lemma_sub_variants(h1, h2, 0, i - 1);
                assert(h1.subrange(0, i - 1) =~= h1.drop_last());
                assert(h2.subrange(0, i - 1) =~= h2.drop_last());
            }
            let r1 = t1.subrange(i + 1, t1.len() as int);
            let r2 = t2.subrange(i + 1, t2.len() as int);
            lemma_text_lines_alike(r1, r2);
            let l1 = text_lines(t1);
            let l2 = text_lines(t2);
            assert(l1 == seq![strip_cr(h1)] + text_lines(r1));
            assert(l2 == seq![strip_cr(h2)] + text_lines(r2));
            assert forall|k: int| 0 <= k < l1.len() implies case_variants(#[trigger] l1[k], l2[k]) by {
                if k > 0 {
                    assert(l1[k] == text_lines(r1)[k - 1]);
                    assert(l2[k] == text_lines(r2)[k - 1]);
                }
            }
        } else {
            assert(text_lines(t1) =~= seq![t1]);
            assert(text_lines(t2) =~= seq![t2]);
        }
    }
}

/// A search that ignores case finds the same lines, at the same offsets, in
/// two file texts that differ only in the case of ASCII letters.
pub proof fn lemma_case_variant_texts_alike(
    p: CompiledPattern,
    query: Seq<char>,
    flags: SearchFlags,
    path: Seq<char>,
    c1: Seq<char>,
    c2: Seq<char>,
    r1: Option<FileMatches>,
    r2: Option<FileMatches>,
)
    requires
        compiled_from(p, query, flags),
        flags.case_insensitive,
        !flags.regexp,
        case_variants(c1, c2),
        file_outcome(p, path, text_lines(c1), r1),
        file_outcome(p, path, text_lines(c2), r2),
    ensures
        r1 is None <==> r2 is None,
        r1 matches Some(f1) ==> r2 matches Some(f2) && f1.matches@.len() == f2.matches@.len() && forall|k: int|
            0 <= k < f1.matches@.len() ==> (#[trigger] f1.matches@[k]).line_number == f2.matches@[k].line_number
                && f1.matches@[k].locations@ == f2.matches@[k].locations@,
{
    lemma_text_lines_alike(c1, c2);
    lemma_case_variant_files_alike(p, query, flags, path, text_lines(c1), text_lines(c2), r1, r2);
}

} // verus!
