use vstd::prelude::*;
use vstd::string::*;
use colored::Colorize;
use crate::ranges::{merge_ranges, merged_from, spans_ordered, spans_well_formed};
use crate::search::{views, FileMatches, MatchedLine};

verus! {

/// Options that decide how matches are displayed.
pub struct OutputFlags {
    pub color: bool,
    pub lines: bool,
    pub quiet: bool,
    pub count: bool,
}

impl OutputFlags {
    pub fn new(color: bool, lines: bool, quiet: bool, count: bool) -> (r: OutputFlags)
        ensures
            r.color == color,
            r.lines == lines,
            r.quiet == quiet,
            r.count == count,
    {
        OutputFlags { color, lines, quiet, count }
    }
}

/// The escape sequence that turns the foreground red.
pub open spec fn red_code() -> Seq<char> {
    seq!['\x1b', '[', '3', '1', 'm']
}

/// The escape sequence that resets all attributes.
pub open spec fn reset_code() -> Seq<char> {
    seq!['\x1b', '[', '0', 'm']
}

pub open spec fn holds_reset(s: Seq<char>) -> bool {
    exists|i: int| 0 <= i && i + 4 <= s.len() && #[trigger] s.subrange(i, i + 4) == reset_code()
}

/// `r` is `s` as painted red: unchanged when this process does not colour
/// its output, else opened with the red code and closed with the reset code
/// (exactly `s` between them when `s` holds no reset code of its own).
pub open spec fn painted(s: Seq<char>, r: Seq<char>) -> bool {
    ||| r == s
    ||| {
        &&& r.len() >= 9
        &&& r.subrange(0, 5) == red_code()
        &&& r.subrange(r.len() - 4, r.len() as int) == reset_code()
        &&& !holds_reset(s) ==> r == red_code() + s + reset_code()
    }
}

/// Relies on `colored::Colorize::red` and its `Display`: the text unchanged
/// when colouring is off for the process (by the environment or because
/// standard output is no terminal), else the red code, the text (with the red
/// code repeated after each reset code inside it) and the reset code.
#[verifier::external_body]
fn paint_red(s: &str) -> (r: String)
    ensures
        painted(s@, r@),
{
    s.red().to_string()
}

/// Paints the `length` characters of `line` that begin at position `idx`:
/// the red code goes in front of them and the reset code after them.
pub fn colorize_range(idx: usize, length: usize, line: &mut String)
    requires
        idx + length <= old(line)@.len(),
    ensures
        final(line)@ == old(line)@.subrange(0, idx as int) + red_code() + old(line)@.subrange(
            idx as int,
            idx + length,
        ) + reset_code() + old(line)@.subrange(idx + length, old(line)@.len() as int),
{
    let ghost before = line@;
    let n = line.as_str().unicode_len();
    let head = line.as_str().substring_char(0, idx);
    let middle = line.as_str().substring_char(idx, idx + length);
    let tail = line.as_str().substring_char(idx + length, n);
    let mut out = String::from_str(head);
    out.append("\x1b[31m");
    out.append(middle);
    out.append("\x1b[0m");
    out.append(tail);
    proof {
        reveal_strlit("\x1b[31m");
        reveal_strlit("\x1b[0m");
        assert("\x1b[31m"@ =~= red_code());
        assert("\x1b[0m"@ =~= reset_code());
    }
    *line = out;
}

/// `x` held to at most `n`.
pub open spec fn clamp(x: usize, n: nat) -> int {
    if x > n {
        n as int
    } else {
        x as int
    }
}

/// Where the unpainted text before span `k` begins: the end of span `k - 1`.
pub open spec fn gap_start(ranges: Seq<(usize, usize)>, k: int, n: nat) -> int {
    if k <= 0 {
        0
    } else {
        clamp(ranges[k - 1].1, n)
    }
}

/// The slice of `line` that span `k` picks out, held inside the line.
pub open spec fn span_text(line: Seq<char>, ranges: Seq<(usize, usize)>, k: int) -> Seq<char> {
    line.subrange(clamp(ranges[k].0, line.len()), clamp(ranges[k].1, line.len()))
}

/// The text up to the end of span `k - 1`: unpainted gaps between the spans,
/// each span replaced by its painted text.
pub open spec fn spliced(line: Seq<char>, ranges: Seq<(usize, usize)>, painted: Seq<Seq<char>>, k: int) -> Seq<char>
    decreases k,
{
    if k <= 0 {
        Seq::empty()
    } else {
        spliced(line, ranges, painted, k - 1) + line.subrange(
            gap_start(ranges, k - 1, line.len()),
            clamp(ranges[k - 1].0, line.len()),
        ) + painted[k - 1]
    }
}

/// `line` with each span replaced by its painted text.
pub open spec fn assembled(line: Seq<char>, ranges: Seq<(usize, usize)>, painted: Seq<Seq<char>>) -> Seq<char> {
    spliced(line, ranges, painted, ranges.len() as int) + line.subrange(
        gap_start(ranges, ranges.len() as int, line.len()),
        line.len() as int,
    )
}

/// Copies `line` left to right into a fresh text, with `painted[k]` in place
/// of the characters that span `k` covers. Span bounds past the end of the
/// line are held to its end.
pub fn assemble_highlights(line: &str, ranges: &Vec<(usize, usize)>, painted: &Vec<String>) -> (r: String)
    requires
        painted@.len() == ranges@.len(),
        spans_well_formed(ranges@),
        spans_ordered(ranges@),
    ensures
        r@ == assembled(line@, ranges@, views(painted@)),
{
    let ghost text = line@;
    let ghost p = views(painted@);
    let n = line.unicode_len();
    let mut out = String::new();
    let mut last: usize = 0;
    let mut k: usize = 0;
    while k < ranges.len()
        invariant
            n == text.len(),
            line@ == text,
            p == views(painted@),
            painted@.len() == ranges@.len(),
            spans_well_formed(ranges@),
            spans_ordered(ranges@),
            k <= ranges@.len(),
            last == gap_start(ranges@, k as int, n as nat),
            last <= n,
            k < ranges@.len() ==> last <= clamp(ranges@[k as int].0, n as nat),
            out@ == spliced(text, ranges@, p, k as int),
        decreases ranges@.len() - k,
    {
        let (s, e) = ranges[k];
        let start = if s > n { n } else { s };
        let end = if e > n { n } else { e };
        out.append(line.substring_char(last, start));
        out.append(painted[k].as_str());
        last = end;
        proof {
            if k + 1 < ranges@.len() {
                assert(ranges@[k as int].1 <= ranges@[k + 1].0);
            }
        }
        k = k + 1;
    }
    out.append(line.substring_char(last, n));
    out
}

/// Paints each span of `line` and copies the rest unchanged.
pub fn colorize_ranges(line: &str, ranges: &Vec<(usize, usize)>) -> (r: String)
    requires
        spans_well_formed(ranges@),
        spans_ordered(ranges@),
    ensures
        exists|p: Seq<Seq<char>>|
            {
                &&& p.len() == ranges@.len()
                &&& forall|k: int| 0 <= k < ranges@.len() ==> painted(span_text(line@, ranges@, k), #[trigger] p[k])
                &&& r@ == assembled(line@, ranges@, p)
            },
{
    let n = line.unicode_len();
    let mut painted_spans: Vec<String> = Vec::new();
    let mut k: usize = 0;
    while k < ranges.len()
        invariant
            n == line@.len(),
            spans_well_formed(ranges@),
            k <= ranges@.len(),
            painted_spans@.len() == k,
            forall|j: int| 0 <= j < k ==> painted(span_text(line@, ranges@, j), #[trigger] painted_spans@[j]@),
        decreases ranges@.len() - k,
    {
        let (s, e) = ranges[k];
        let start = if s > n { n } else { s };
        let end = if e > n { n } else { e };
        painted_spans.push(paint_red(line.substring_char(start, end)));
        k = k + 1;
    }
    let r = assemble_highlights(line, ranges, &painted_spans);
    assert(views(painted_spans@).len() == ranges@.len());
    r
}

pub open spec fn digit_char(d: nat) -> char {
    ((d + 48) as u32) as char
}

/// The decimal digits of `n`, most significant first, with no leading zero.
pub open spec fn decimal(n: nat) -> Seq<char>
    decreases n,
{
    if n < 10 {
        seq![digit_char(n)]
    } else {
        decimal(n / 10).push(digit_char(n % 10))
    }
}

/// `s` with zeros in front until it is `width` characters long.
pub open spec fn zero_padded(s: Seq<char>, width: nat) -> Seq<char> {
    if s.len() >= width {
        s
    } else {
        Seq::new((width - s.len()) as nat, |i: int| '0') + s
    }
}

/// The label in front of a displayed line: its number in four or more
/// zero-padded digits, a bracket and a space.
pub open spec fn label(n: nat) -> Seq<char> {
    zero_padded(decimal(n), 4) + seq![']', ' ']
}

/// Relies on `ToString` for `usize`: its decimal digits, with no sign and
/// no padding.
#[verifier::external_body]
fn decimal_text(n: usize) -> (r: String)
    ensures
        r@ == decimal(n as nat),
{
    n.to_string()
}

/// The label for line number `n`.
pub fn line_label(n: usize) -> (r: String)
    ensures
        r@ == label(n as nat),
{
    let digits = decimal_text(n);
    let len = digits.as_str().unicode_len();
    let mut out = String::new();
    let mut i: usize = len;
    while i < 4
        invariant
            len == decimal(n as nat).len(),
            len <= i <= 4 || (i == len && len > 4),
            out@ == Seq::new((i - len) as nat, |j: int| '0'),
        decreases 4 - i,
    {
        proof {
            reveal_strlit("0");
        }
        out.append("0");
        assert(out@ =~= Seq::new((i + 1 - len) as nat, |j: int| '0'));
        i = i + 1;
    }
    out.append(digits.as_str());
    out.append("] ");
    proof {
        reveal_strlit("] ");
        assert(out@ =~= label(n as nat));
    }
    out
}

/// The span each occurrence covers: the query's length from its start,
/// held inside the line.
pub open spec fn occurrence_spans(line_len: nat, locations: Seq<usize>, query_len: nat) -> Seq<(usize, usize)> {
    locations.map_values(
        |l: usize|
            (l, if l + query_len > line_len {
                line_len as usize
            } else {
                (l + query_len) as usize
            }),
    )
}

/// `body` is `line` with the merged spans of its occurrences painted.
pub open spec fn highlight_of(line: Seq<char>, locations: Seq<usize>, query_len: nat, body: Seq<char>) -> bool {
    exists|merged: Seq<(usize, usize)>, p: Seq<Seq<char>>|
        {
            &&& merged_from(occurrence_spans(line.len(), locations, query_len), merged)
            &&& p.len() == merged.len()
            &&& forall|k: int| 0 <= k < merged.len() ==> painted(span_text(line, merged, k), #[trigger] p[k])
            &&& body == assembled(line, merged, p)
        }
}

/// `r` is how the matched line `m` is displayed under `flags`.
#[verifier::opaque]
pub open spec fn line_shown(flags: OutputFlags, m: MatchedLine, query_len: nat, r: Seq<char>) -> bool {
    let prefix = if flags.lines {
        label(m.line_number as nat)
    } else {
        Seq::empty()
    };
    if flags.color {
        exists|body: Seq<char>| #[trigger] highlight_of(m.line@, m.locations@, query_len, body) && r == prefix + body
    } else {
        r == prefix + m.line@
    }
}

/// The spans of the occurrences at `locations` in a line of `n`
/// characters, each as long as the query or cut off at the line's end.
fn spans_of(n: usize, locations: &Vec<usize>, query_len: usize) -> (r: Vec<(usize, usize)>)
    requires
        forall|j: int| 0 <= j < locations@.len() ==> locations@[j] <= n,
    ensures
        r@ == occurrence_spans(n as nat, locations@, query_len as nat),
        spans_well_formed(r@),
{
    let mut spans: Vec<(usize, usize)> = Vec::new();
    let mut i: usize = 0;
    while i < locations.len()
        invariant
            forall|j: int| 0 <= j < locations@.len() ==> locations@[j] <= n,
            i <= locations@.len(),
            spans@ == occurrence_spans(n as nat, locations@, query_len as nat).subrange(0, i as int),
        decreases locations@.len() - i,
    {
        let l = locations[i];
        let end = if query_len > n - l {
            n
        } else {
            l + query_len
        };
        spans.push((l, end));
        i = i + 1;
    }
    let ghost all = occurrence_spans(n as nat, locations@, query_len as nat);
    assert(all.subrange(0, all.len() as int) =~= all);
    spans
}

/// `line` with the merged spans of the occurrences at `locations` painted.
pub fn highlight(line: &str, locations: &Vec<usize>, query_len: usize) -> (r: String)
    requires
        forall|j: int| 0 <= j < locations@.len() ==> locations@[j] <= line@.len(),
    ensures
        highlight_of(line@, locations@, query_len as nat, r@),
{
    let n = line.unicode_len();
    let spans = spans_of(n, locations, query_len);
    let merged = merge_ranges(spans);
    let r = colorize_ranges(line, &merged);
    r
}

/// Formats one matched line: its occurrences painted when colour is on, its
/// label in front when line numbers are on.
pub fn format_line(flags: &OutputFlags, matched: &MatchedLine, query_len: usize) -> (r: String)
    requires
        matched.well_formed(),
    ensures
        line_shown(*flags, *matched, query_len as nat, r@),
{
    let body = if flags.color {
        highlight(matched.line.as_str(), &matched.locations, query_len)
    } else {
        matched.line.clone()
    };
    let ghost shown = body@;
    let r = if flags.lines {
        let mut out = line_label(matched.line_number);
        out.append(body.as_str());
        out
    } else {
        body
    };
    proof {
        reveal(line_shown);
        let prefix = if flags.lines {
            label(matched.line_number as nat)
        } else {
            Seq::empty()
        };
        assert(r@ =~= prefix + shown);
        if flags.color {
            assert(highlight_of(matched.line@, matched.locations@, query_len as nat, shown) && r@ == prefix + shown);
        } else {
            assert(shown == matched.line@);
        }
    }
    r
}

/// The number of display rows the first `i` files take: a header each and
/// one row per matched line.
pub open spec fn rows_before(files: Seq<FileMatches>, i: int) -> int
    decreases i,
{
    if i <= 0 {
        0
    } else {
        rows_before(files, i - 1) + files[i - 1].matches@.len() + 1
    }
}

/// The number of matched lines in the first `i` files.
pub open spec fn lines_before(files: Seq<FileMatches>, i: int) -> int
    decreases i,
{
    if i <= 0 {
        0
    } else {
        lines_before(files, i - 1) + files[i - 1].matches@.len()
    }
}

pub open spec fn header(path: Seq<char>) -> Seq<char> {
    seq!['-', '-', ' '] + path + seq![' ', '-', '-']
}

pub open spec fn count_prefix() -> Seq<char> {
    seq!['N', 'u', 'm', 'b', 'e', 'r', ' ', 'o', 'f', ' ', 'm', 'a', 't', 'c', 'h', 'e', 's', ':', ' ']
}

/// The summary row that closes a display in count mode.
pub open spec fn count_line(n: nat) -> Seq<char> {
    count_prefix() + decimal(n)
}

/// `block` is how one file is displayed: a header row naming it, then
/// each of its matched lines.
#[verifier::opaque]
pub open spec fn block_shown(f: FileMatches, query_len: nat, flags: OutputFlags, block: Seq<Seq<char>>) -> bool {
    &&& block.len() == f.matches@.len() + 1
    &&& block[0] == header(f.file_path@)
    &&& forall|k: int| 0 <= k < f.matches@.len() ==> line_shown(flags, #[trigger] f.matches@[k], query_len, block[k + 1])
}

/// `out` is the display of `files` under `flags`: nothing in quiet mode;
/// else the block of each file in turn, and in count mode a closing row with
/// the number of matched lines.
pub open spec fn displayed(files: Seq<FileMatches>, query_len: nat, flags: OutputFlags, out: Seq<Seq<char>>) -> bool {
    if flags.quiet {
        out.len() == 0
    } else {
        &&& out.len() == rows_before(files, files.len() as int) + if flags.count {
            1int
        } else {
            0
        }
        &&& forall|i: int|
            0 <= i < files.len() ==> block_shown(
                #[trigger] files[i],
                query_len,
                flags,
                out.subrange(rows_before(files, i), rows_before(files, i + 1)),
            )
        &&& flags.count ==> out.last() == count_line(lines_before(files, files.len() as int) as nat)
    }
}

proof fn lemma_lines_grow(files: Seq<FileMatches>, i: int, j: int)
    requires
        0 <= i <= j,
    ensures
        lines_before(files, i) <= lines_before(files, j),
        rows_before(files, i) <= rows_before(files, j),
        0 <= lines_before(files, i),
    decreases j,
{
    if i < j {
        lemma_lines_grow(files, i, j - 1);
    }
    if i > 0 {
        lemma_lines_grow(files, 0, i - 1);
    }
}

proof fn lemma_blocks_kept(
    files: Seq<FileMatches>,
    query_len: nat,
    flags: OutputFlags,
    before: Seq<Seq<char>>,
    after: Seq<Seq<char>>,
    i: int,
)
    requires
        0 <= i <= files.len(),
        before.len() == rows_before(files, i),
        before.len() <= after.len(),
        after.subrange(0, before.len() as int) == before,
        forall|a: int|
            0 <= a < i ==> block_shown(
                #[trigger] files[a],
                query_len,
                flags,
                before.subrange(rows_before(files, a), rows_before(files, a + 1)),
            ),
    ensures
        forall|a: int|
            0 <= a < i ==> block_shown(
                #[trigger] files[a],
                query_len,
                flags,
                after.subrange(rows_before(files, a), rows_before(files, a + 1)),
            ),
{
    assert forall|k: int| 0 <= k < before.len() implies after[k] == before[k] by {
        assert(after.subrange(0, before.len() as int)[k] == after[k]);
    }
    assert forall|a: int|
        0 <= a < i implies block_shown(
            #[trigger] files[a],
            query_len,
            flags,
            after.subrange(rows_before(files, a), rows_before(files, a + 1)),
        ) by {
        lemma_lines_grow(files, a + 1, i);
        lemma_lines_grow(files, 0, a);
        assert(rows_before(files, a + 1) == rows_before(files, a) + files[a].matches@.len() + 1);
        assert(after.subrange(rows_before(files, a), rows_before(files, a + 1)) =~= before.subrange(
            rows_before(files, a),
            rows_before(files, a + 1),
        ));
    }
}

/// The rows that display one file.
fn file_block(file: &FileMatches, query_len: usize, flags: &OutputFlags) -> (r: Vec<String>)
    requires
        file.well_formed(),
    ensures
        block_shown(*file, query_len as nat, *flags, views(r@)),
        r@.len() == file.matches@.len() + 1,
{
    let mut out: Vec<String> = Vec::new();
    let mut head = String::from_str("-- ");
    head.append(file.file_path.as_str());
    head.append(" --");
    proof {
        reveal_strlit("-- ");
        reveal_strlit(" --");
        assert(head@ =~= header(file.file_path@));
    }
    out.push(head);
    let mut k: usize = 0;
    while k < file.matches.len()
        invariant
            file.well_formed(),
            k <= file.matches@.len(),
            out@.len() == k + 1,
            out@[0]@ == header(file.file_path@),
            forall|j: int|
                0 <= j < k ==> line_shown(*flags, #[trigger] file.matches@[j], query_len as nat, out@[j + 1]@),
        decreases file.matches@.len() - k,
    {
        let shown = format_line(flags, &file.matches[k], query_len);
        out.push(shown);
        k = k + 1;
    }
    proof {
        reveal(block_shown);
    }
    out
}

/// Renders all file results as display rows.
#[verifier::rlimit(30)]
pub fn output_matches(file_matches: &Vec<FileMatches>, query: &str, flags: &OutputFlags) -> (r: Vec<String>)
    requires
        forall|i: int| 0 <= i < file_matches@.len() ==> (#[trigger] file_matches@[i]).well_formed(),
        lines_before(file_matches@, file_matches@.len() as int) <= usize::MAX,
    ensures
        displayed(file_matches@, query@.len(), *flags, views(r@)),
{
    let mut out: Vec<String> = Vec::new();
    if flags.quiet {
        return out;
    }
    let query_len = query.unicode_len();
    let ghost files = file_matches@;
    let mut count: usize = 0;
    let mut i: usize = 0;
    while i < file_matches.len()
        invariant
            files == file_matches@,
            forall|i: int| 0 <= i < files.len() ==> (#[trigger] files[i]).well_formed(),
            lines_before(files, files.len() as int) <= usize::MAX,
            i <= files.len(),
            count == lines_before(files, i as int),
            out@.len() == rows_before(files, i as int),
            forall|a: int|
                0 <= a < i ==> block_shown(
                    #[trigger] files[a],
                    query_len as nat,
                    *flags,
                    views(out@).subrange(rows_before(files, a), rows_before(files, a + 1)),
                ),
        decreases files.len() - i,
    {
        let mut block = file_block(&file_matches[i], query_len, flags);
        proof {
            lemma_lines_grow(files, i + 1, files.len() as int);
        }
        let ghost prev = out@;
        let ghost added = block@;
        let n = block.len();
        out.append(&mut block);
        proof {
            assert(views(out@) =~= views(prev) + views(added));
            assert(views(out@).subrange(0, views(prev).len() as int) =~= views(prev));
            lemma_blocks_kept(files, query_len as nat, *flags, views(prev), views(out@), i as int);
            lemma_lines_grow(files, 0, i as int);
            assert(rows_before(files, i + 1) == rows_before(files, i as int) + files[i as int].matches@.len() + 1);
            assert(views(out@).subrange(rows_before(files, i as int), rows_before(files, i + 1)) =~= views(added));
            assert(n - 1 == files[i as int].matches@.len());
        }
        count = count + (n - 1);
        i = i + 1;
    }
    if flags.count {
        let mut last = String::from_str("Number of matches: ");
        let digits = decimal_text(count);
        last.append(digits.as_str());
        proof {
            reveal_strlit("Number of matches: ");
            assert(last@ =~= count_line(count as nat));
        }
        let ghost prev = out@;
        out.push(last);
        proof {
            assert(views(out@).subrange(0, views(prev).len() as int) =~= views(prev));
            lemma_blocks_kept(files, query_len as nat, *flags, views(prev), views(out@), files.len() as int);
        }
    }
    out
}

/// What a search ends with: the display rows, and whether it succeeded.
/// In quiet mode nothing is displayed and success means that something
/// matched; otherwise the rows are displayed and the search succeeds.
pub fn render_results(results: &Vec<FileMatches>, query: &str, flags: &OutputFlags) -> (r: (Vec<String>, bool))
    requires
        forall|i: int| 0 <= i < results@.len() ==> (#[trigger] results@[i]).well_formed(),
        lines_before(results@, results@.len() as int) <= usize::MAX,
    ensures
        displayed(results@, query@.len(), *flags, views(r.0@)),
        flags.quiet ==> r.0@.len() == 0 && (r.1 <==> results@.len() > 0),
        !flags.quiet ==> r.1,
{
    let rows = output_matches(results, query, flags);
    let success = !flags.quiet || results.len() > 0;
    (rows, success)
}

} // verus!
