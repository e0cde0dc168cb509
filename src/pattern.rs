use vstd::prelude::*;
use vstd::string::*;
use vstd::utf8::*;

verus! {

/// Options that decide how a query is matched.
pub struct SearchFlags {
    pub case_insensitive: bool,
    pub regexp: bool,
}

impl SearchFlags {
    pub fn new(case_insensitive: bool, regexp: bool) -> (r: SearchFlags)
        ensures
            r.case_insensitive == case_insensitive,
            r.regexp == regexp,
    {
        SearchFlags { case_insensitive, regexp }
    }
}

/// The reason a query could not be compiled.
#[derive(Debug, PartialEq, Eq, Structural)]
pub enum PatternError {
    InvalidPattern,
}

#[verifier::external_type_specification]
#[verifier::external_body]
pub struct ExRegex(regex::Regex);

#[verifier::external_type_specification]
#[verifier::external_body]
pub struct ExRegexError(regex::Error);

/// Whether the regular-expression engine accepts `pattern` as valid syntax.
pub uninterp spec fn regex_accepts(pattern: Seq<char>) -> bool;

/// The byte spans of the successive non-overlapping leftmost matches of
/// `pattern` in `haystack`, as the regular-expression engine reports them.
pub uninterp spec fn regex_matches(pattern: Seq<char>, haystack: Seq<char>) -> Seq<(usize, usize)>;

/// ASCII upper-case letters map to their lower-case forms; every other
/// character is left alone.
pub open spec fn fold_char(c: char) -> char {
    if 'A' <= c && c <= 'Z' {
        ((c as u32) + 32) as char
    } else {
        c
    }
}

pub open spec fn fold_seq(s: Seq<char>) -> Seq<char> {
    s.map_values(|c: char| fold_char(c))
}

/// Two texts that differ at most in the case of ASCII letters.
pub open spec fn case_variants(a: Seq<char>, b: Seq<char>) -> bool {
    fold_seq(a) == fold_seq(b)
}

/// The bytes of `line` up to byte offset `byte`, counted in characters.
pub open spec fn char_offset(line: Seq<char>, byte: int) -> int {
    decode_utf8(encode_utf8(line).subrange(0, byte)).len() as int
}

/// Byte spans in order, each within `haystack`, on character boundaries,
/// and none overlapping the next.
pub open spec fn spans_fit(spans: Seq<(usize, usize)>, haystack: &str) -> bool {
    &&& forall|k: int|
        0 <= k < spans.len() ==> {
            &&& (#[trigger] spans[k]).0 <= spans[k].1
            &&& spans[k].1 <= haystack.spec_bytes().len()
            &&& is_char_boundary(haystack.spec_bytes(), spans[k].0 as int)
            &&& is_char_boundary(haystack.spec_bytes(), spans[k].1 as int)
        }
    &&& forall|k: int, l: int| 0 <= k < l < spans.len() ==> (#[trigger] spans[k]).1 <= (#[trigger] spans[l]).0
}

/// Relies on `regex::Regex::new`: whether a pattern compiles depends on its
/// text alone.
#[verifier::external_body]
fn build_regex(source: &str) -> (r: Result<regex::Regex, regex::Error>)
    ensures
        r is Ok <==> regex_accepts(source@),
{
    regex::Regex::new(source)
}

/// A compiled regular expression together with the text it was compiled
/// from; only `prepare_query` builds one.
pub struct RegexPattern {
    source: String,
    regex: regex::Regex,
}

impl RegexPattern {
    /// The text the expression was compiled from.
    pub closed spec fn source(&self) -> Seq<char> {
        self.source@
    }

    /// Relies on `regex::Regex::find_iter`, which yields successive
    /// non-overlapping matches whose offsets fall on UTF-8 boundaries.
    #[verifier::external_body]
    fn find_spans(&self, haystack: &str) -> (r: Vec<(usize, usize)>)
        ensures
            r@ == regex_matches(self.source(), haystack@),
            spans_fit(r@, haystack),
    {
        self.regex.find_iter(haystack).map(|m| (m.start(), m.end())).collect()
    }

    /// The byte spans of the successive matches in `line`. They never
    /// overlap: each ends at or before the start of the next.
    pub fn match_spans(&self, line: &str) -> (r: Vec<(usize, usize)>)
        ensures
            r@ == regex_matches(self.source(), line@),
            spans_fit(r@, line),
            forall|k: int, l: int| 0 <= k < l < r@.len() ==> (#[trigger] r@[k]).1 <= (#[trigger] r@[l]).0,
    {
        self.find_spans(line)
    }
}

/// A query made ready for matching: a literal (already folded when the
/// search ignores case) or a regular expression.
pub enum CompiledPattern {
    Literal { text: Vec<char>, folded: bool },
    Regex(RegexPattern),
}

/// Relies on `str::chars`: the characters of `s`, in order.
#[verifier::external_body]
pub(crate) fn chars_of(s: &str) -> (r: Vec<char>)
    ensures
        r@ == s@,
{
    s.chars().collect()
}

/// Lower-cases one ASCII letter.
pub fn fold_ascii(c: char) -> (r: char)
    ensures
        r == fold_char(c),
{
    if 'A' <= c && c <= 'Z' {
        ((c as u8) + 32) as char
    } else {
        c
    }
}

/// The characters of `s` with every ASCII letter lower-cased.
pub fn fold_text(s: &Vec<char>) -> (r: Vec<char>)
    ensures
        r@ == fold_seq(s@),
{
    let mut r: Vec<char> = Vec::new();
    let mut i: usize = 0;
    while i < s.len()
        invariant
            i <= s@.len(),
            r@ == fold_seq(s@.subrange(0, i as int)),
        decreases s@.len() - i,
    {
        r.push(fold_ascii(s[i]));
        proof {
            assert(fold_seq(s@.subrange(0, i + 1)) =~= fold_seq(s@.subrange(0, i as int)).push(fold_char(s@[i as int])));
        }
        i = i + 1;
    }
    proof {
        assert(s@.subrange(0, s@.len() as int) =~= s@);
    }
    r
}

/// The text a regular expression is compiled from: the query itself, marked
/// case-insensitive when the search ignores case.
pub open spec fn regex_source(query: Seq<char>, case_insensitive: bool) -> Seq<char> {
    if case_insensitive {
        seq!['(', '?', 'i', ')'] + query
    } else {
        query
    }
}

/// What a successful compile of `query` under `flags` yields.
pub open spec fn compiled_from(p: CompiledPattern, query: Seq<char>, flags: SearchFlags) -> bool {
    if query.len() == 0 {
        p matches CompiledPattern::Literal { text, .. } && text@.len() == 0
    } else if flags.regexp {
        p matches CompiledPattern::Regex(re) && re.source() == regex_source(query, flags.case_insensitive)
    } else if flags.case_insensitive {
        p matches CompiledPattern::Literal { text, folded } && folded && text@ == fold_seq(query)
    } else {
        p matches CompiledPattern::Literal { text, folded } && !folded && text@ == query
    }
}

/// Compiles `query` for matching. An empty query compiles to a literal that
/// matches nothing. A regular expression the engine rejects is an error; it
/// is the only way this can fail.
pub fn prepare_query(query: &str, flags: &SearchFlags) -> (r: Result<CompiledPattern, PatternError>)
    ensures
        r is Err <==> (query@.len() > 0 && flags.regexp && !regex_accepts(
            regex_source(query@, flags.case_insensitive),
        )),
        r is Err ==> r == Err::<CompiledPattern, PatternError>(PatternError::InvalidPattern),
        r matches Ok(p) ==> compiled_from(p, query@, *flags),
{
    let chars = chars_of(query);
    if chars.len() == 0 {
        return Ok(CompiledPattern::Literal { text: chars, folded: false });
    }
    if flags.regexp {
        let source = if flags.case_insensitive {
            let mut s = String::from_str("(?i)");
            s.append(query);
            proof {
                reveal_strlit("(?i)");
            }
            s
        } else {
            String::from_str(query)
        };
        assert(source@ == regex_source(query@, flags.case_insensitive));
        match build_regex(source.as_str()) {
            Ok(regex) => Ok(CompiledPattern::Regex(RegexPattern { source, regex })),
            Err(_) => Err(PatternError::InvalidPattern),
        }
    } else if flags.case_insensitive {
        Ok(CompiledPattern::Literal { text: fold_text(&chars), folded: true })
    } else {
        Ok(CompiledPattern::Literal { text: chars, folded: false })
    }
}

} // verus!
