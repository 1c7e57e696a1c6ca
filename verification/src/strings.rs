use vstd::prelude::*;
use crate::text::chars_of;
use crate::text::string_of_range;
use crate::error::AudionError;
use crate::builtins::regex_pattern;
use crate::builtins::extract_regex_pattern;

verus! {

/// The Unicode upper-case mapping of a string, as `str::to_uppercase` computes it.
pub uninterp spec fn upper_case(s: Seq<char>) -> Seq<char>;

/// The Unicode lower-case mapping of a string, as `str::to_lowercase` computes it.
pub uninterp spec fn lower_case(s: Seq<char>) -> Seq<char>;

/// Whether a character has the Unicode `White_Space` property (the property that
/// `char::is_whitespace` tests): tab through carriage return, space, next line, no-break space,
/// ogham space mark, the spaces from en quad to hair space, line and paragraph separators,
/// narrow no-break space, medium mathematical space and ideographic space.
pub open spec fn is_white(c: char) -> bool {
    let u = c as u32;
    ||| 0x09 <= u <= 0x0D
    ||| u == 0x20
    ||| u == 0x85
    ||| u == 0xA0
    ||| u == 0x1680
    ||| 0x2000 <= u <= 0x200A
    ||| u == 0x2028
    ||| u == 0x2029
    ||| u == 0x202F
    ||| u == 0x205F
    ||| u == 0x3000
}

/// Calls `str::to_uppercase`; the result is named `upper_case` of the input.
#[verifier::external_body]
fn to_upper(s: &str) -> (r: String)
    ensures r@ == upper_case(s@),
{
    s.to_uppercase()
}

/// Calls `str::to_lowercase`; the result is named `lower_case` of the input.
#[verifier::external_body]
fn to_lower(s: &str) -> (r: String)
    ensures r@ == lower_case(s@),
{
    s.to_lowercase()
}

/// Whether `c` is white space.
fn white(c: char) -> (r: bool)
    ensures r == is_white(c),
{
    let u = c as u32;
    (0x09 <= u && u <= 0x0D) || u == 0x20 || u == 0x85 || u == 0xA0 || u == 0x1680
        || (0x2000 <= u && u <= 0x200A) || u == 0x2028 || u == 0x2029 || u == 0x202F
        || u == 0x205F || u == 0x3000
}

/// The first position at or after `i` that holds no white space (or the end).
pub open spec fn skip_white(s: Seq<char>, i: nat) -> nat
    decreases s.len() - i,
{
    if i < s.len() && is_white(s[i as int]) { skip_white(s, i + 1) } else { i }
}

/// The end of `s[..j]` once the white space at its end is dropped.
pub open spec fn end_white(s: Seq<char>, j: nat) -> nat
    decreases j,
{
    if 0 < j <= s.len() && is_white(s[j - 1]) { end_white(s, (j - 1) as nat) } else { j }
}

/// `s` without its leading and trailing white space.
pub open spec fn trimmed(s: Seq<char>) -> Seq<char> {
    let a = skip_white(s, 0);
    let b = end_white(s, s.len());
    if a < b { s.subrange(a as int, b as int) } else { Seq::empty() }
}

/// The characters of `s` from `start` on, at most `length` of them when a length is given.
pub open spec fn substring(s: Seq<char>, start: nat, length: Option<nat>) -> Seq<char> {
    let tail = if start < s.len() { s.skip(start as int) } else { Seq::empty() };
    match length {
        Some(l) => if l < tail.len() { tail.take(l as int) } else { tail },
        None => tail,
    }
}

/// Whether `suffix` ends `s`.
pub open spec fn ends_with(s: Seq<char>, suffix: Seq<char>) -> bool {
    suffix.len() <= s.len() && s.subrange(s.len() - suffix.len(), s.len() as int) == suffix
}

/// `str_upper(string)`: the string in upper case.
pub fn builtin_str_upper(s: &str) -> (r: String)
    ensures r@ == upper_case(s@),
{
    to_upper(s)
}

/// `str_lower(string)`: the string in lower case.
pub fn builtin_str_lower(s: &str) -> (r: String)
    ensures r@ == lower_case(s@),
{
    to_lower(s)
}

/// `str_trim(string)`: the string without leading and trailing white space.
pub fn builtin_str_trim(s: &str) -> (r: String)
    ensures r@ == trimmed(s@),
{
    let cs = chars_of(s);
    let mut a: usize = 0;
    while a < cs.len() && white(cs[a])
        invariant
            cs@ == s@,
            a <= cs@.len(),
            skip_white(s@, a as nat) == skip_white(s@, 0),
        decreases cs.len() - a,
    {
        a += 1;
    }
    let mut b: usize = cs.len();
    while b > 0 && white(cs[b - 1])
        invariant
            cs@ == s@,
            b <= cs@.len(),
            end_white(s@, b as nat) == end_white(s@, s@.len()),
        decreases b,
    {
        b -= 1;
    }
    if a < b {
        string_of_range(&cs, a, b)
    } else {
        String::new()
    }
}

/// `str_length(string)`: the number of characters (not bytes).
pub fn builtin_str_length(s: &str) -> (r: usize)
    ensures r == s@.len(),
{
    let cs = chars_of(s);
    cs.len()
}

/// `str_substr(string, start, [length])`: the characters from `start` on, at most `length`
/// of them when a length is given; empty when `start` is past the end.
pub fn builtin_str_substr(s: &str, start: usize, length: Option<usize>) -> (r: String)
    ensures r@ == substring(s@, start as nat, match length { Some(l) => Some(l as nat), None => None }),
{
    let cs = chars_of(s);
    if start >= cs.len() {
        return String::new();
    }
    let rest: usize = cs.len() - start;
    let take: usize = match length {
        Some(l) => if l < rest { l } else { rest },
        None => rest,
    };
    let r = string_of_range(&cs, start, start + take);
    assert(r@ =~= substring(s@, start as nat, match length { Some(l) => Some(l as nat), None => None }));
    r
}

/// `str_starts_with(prefix, string)`: whether `string` begins with `prefix`.
pub fn builtin_str_starts_with(prefix: &str, string: &str) -> (r: bool)
    ensures r == prefix@.is_prefix_of(string@),
{
    let p = chars_of(prefix);
    let t = chars_of(string);
    if p.len() > t.len() {
        return false;
    }
    let mut i: usize = 0;
    while i < p.len()
        invariant
            p@ == prefix@,
            t@ == string@,
            p@.len() <= t@.len(),
            i <= p@.len(),
            forall|j: int| 0 <= j < i ==> p@[j] == t@[j],
        decreases p.len() - i,
    {
        if p[i] != t[i] {
            return false;
        }
        i += 1;
    }
    true
}

/// `str_ends_with(suffix, string)`: whether `string` ends with `suffix`.
pub fn builtin_str_ends_with(suffix: &str, string: &str) -> (r: bool)
    ensures r == ends_with(string@, suffix@),
{
    let p = chars_of(suffix);
    let t = chars_of(string);
    if p.len() > t.len() {
        return false;
    }
    let off: usize = t.len() - p.len();
    let mut i: usize = 0;
    while i < p.len()
        invariant
            p@ == suffix@,
            t@ == string@,
            off + p@.len() == t@.len(),
            t@.len() <= usize::MAX,
            i <= p@.len(),
            forall|j: int| 0 <= j < i ==> p@[j] == t@[off + j],
        decreases p.len() - i,
    {
        if p[i] != t[off + i] {
            assert(t@.subrange(off as int, t@.len() as int)[i as int] != p@[i as int]);
            return false;
        }
        i += 1;
    }
    assert(t@.subrange(off as int, t@.len() as int) =~= p@);
    true
}

// ---------------------------------------------------------------------------
// Plain-text search: contains, replace, split
// ---------------------------------------------------------------------------

/// Whether `n` occurs in `s` at position `i`.
pub open spec fn occurs_at(s: Seq<char>, n: Seq<char>, i: int) -> bool {
    0 <= i && i + n.len() <= s.len() && s.subrange(i, i + n.len()) == n
}

/// Whether `n` occurs anywhere in `s` (the empty text occurs everywhere).
pub open spec fn contains_text(s: Seq<char>, n: Seq<char>) -> bool {
    exists|i: int| #[trigger] occurs_at(s, n, i)
}

/// `s` from position `i` on with each occurrence of the non-empty `n` replaced by `rep`,
/// occurrences taken from the left without overlap.
pub open spec fn replaced_from(s: Seq<char>, n: Seq<char>, rep: Seq<char>, i: nat) -> Seq<char>
    decreases s.len() - i,
{
    if i >= s.len() || n.len() == 0 {
        Seq::empty()
    } else if occurs_at(s, n, i as int) {
        rep + replaced_from(s, n, rep, i + n.len())
    } else {
        seq![s[i as int]] + replaced_from(s, n, rep, i + 1)
    }
}

/// `s` from position `i` on with `rep` put before each character and at the end: what
/// replacing the empty text does.
pub open spec fn interleaved_from(s: Seq<char>, rep: Seq<char>, i: nat) -> Seq<char>
    decreases s.len() - i,
{
    if i >= s.len() { rep } else { rep + seq![s[i as int]] + interleaved_from(s, rep, i + 1) }
}

/// `s` with every occurrence of `n` replaced by `rep`, as `str::replace` does it.
pub open spec fn replaced(s: Seq<char>, n: Seq<char>, rep: Seq<char>) -> Seq<char> {
    if n.len() == 0 { interleaved_from(s, rep, 0) } else { replaced_from(s, n, rep, 0) }
}

/// The pieces of `s` between the occurrences of the non-empty `n`, scanning from position
/// `i` with the current piece begun at `start`.
pub open spec fn pieces_from(s: Seq<char>, n: Seq<char>, start: nat, i: nat) -> Seq<Seq<char>>
    decreases s.len() - i,
{
    if i >= s.len() || n.len() == 0 {
        seq![s.subrange(start as int, s.len() as int)]
    } else if occurs_at(s, n, i as int) {
        seq![s.subrange(start as int, i as int)] + pieces_from(s, n, i + n.len(), i + n.len())
    } else {
        pieces_from(s, n, start, i + 1)
    }
}

/// The pieces of `s` split at each occurrence of `n`, as `str::split` gives them. The
/// empty text splits before every character and at both ends.
pub open spec fn split_text(s: Seq<char>, n: Seq<char>) -> Seq<Seq<char>> {
    if n.len() == 0 {
        seq![Seq::<char>::empty()] + Seq::new(s.len(), |i: int| seq![s[i]]) + seq![Seq::<char>::empty()]
    } else {
        pieces_from(s, n, 0, 0)
    }
}

/// Whether `n` occurs in `s` at position `i`.
fn occurs_at_exec(s: &Vec<char>, n: &Vec<char>, i: usize) -> (r: bool)
    ensures
        r == occurs_at(s@, n@, i as int),
{
    if n.len() > s.len() || i > s.len() - n.len() {
        return false;
    }
    let len = s.len();
    let mut k: usize = 0;
    while k < n.len()
        invariant
            len == s@.len(),
            i + n@.len() <= s@.len(),
            k <= n@.len(),
            forall|j: int| 0 <= j < k ==> s@[i + j] == n@[j],
        decreases n.len() - k,
    {
        assert(i + k < s@.len());
        if s[i + k] != n[k] {
            assert(s@.subrange(i as int, i + n@.len())[k as int] != n@[k as int]);
            return false;
        }
        k += 1;
    }
    assert(s@.subrange(i as int, i + n@.len()) =~= n@);
    true
}

/// Whether `needle` occurs in `haystack`.
fn contains_plain(haystack: &str, needle: &str) -> (r: bool)
    ensures
        r == contains_text(haystack@, needle@),
{
    let s = chars_of(haystack);
    let n = chars_of(needle);
    let mut i: usize = 0;
    while i < s.len()
        invariant
            s@ == haystack@,
            n@ == needle@,
            i <= s@.len(),
            forall|j: int| 0 <= j < i ==> !occurs_at(s@, n@, j),
        decreases s.len() - i,
    {
        if occurs_at_exec(&s, &n, i) {
            return true;
        }
        i += 1;
    }
    if occurs_at_exec(&s, &n, s.len()) {
        return true;
    }
    assert forall|j: int| !#[trigger] occurs_at(s@, n@, j) by {
        if 0 <= j && j + n@.len() <= s@.len() {
            assert(j <= s@.len());
        }
    }
    false
}

/// `haystack` with every occurrence of `needle` replaced by `rep`.
fn replace_plain(haystack: &str, needle: &str, rep: &str) -> (r: String)
    ensures
        r@ == replaced(haystack@, needle@, rep@),
{
    let s = chars_of(haystack);
    let n = chars_of(needle);
    let mut out = String::new();
    let mut i: usize = 0;
    if n.len() == 0 {
        while i < s.len()
            invariant
                s@ == haystack@,
                i <= s@.len(),
                out@ + interleaved_from(s@, rep@, i as nat) == interleaved_from(s@, rep@, 0),
            decreases s.len() - i,
        {
            let ghost before = out@;
            out.append(rep);
            out.push(s[i]);
            proof {
                assert(before + interleaved_from(s@, rep@, i as nat)
                    =~= out@ + interleaved_from(s@, rep@, (i + 1) as nat));
            }
            i += 1;
        }
        out.append(rep);
        return out;
    }
    while i < s.len()
        invariant
            s@ == haystack@,
            n@ == needle@,
            n@.len() > 0,
            i <= s@.len(),
            out@ + replaced_from(s@, n@, rep@, i as nat) == replaced_from(s@, n@, rep@, 0),
        decreases s.len() - i,
    {
        let ghost before = out@;
        if occurs_at_exec(&s, &n, i) {
            out.append(rep);
            proof {
                assert(before + replaced_from(s@, n@, rep@, i as nat)
                    =~= out@ + replaced_from(s@, n@, rep@, (i + n@.len()) as nat));
            }
            i = i + n.len();
        } else {
            out.push(s[i]);
            proof {
                assert(before + replaced_from(s@, n@, rep@, i as nat)
                    =~= out@ + replaced_from(s@, n@, rep@, (i + 1) as nat));
            }
            i += 1;
        }
    }
    proof { assert(out@ =~= out@ + replaced_from(s@, n@, rep@, i as nat)); }
    out
}

/// The pieces of `haystack` between the occurrences of `needle`.
pub(crate) fn split_plain(haystack: &str, needle: &str) -> (r: Vec<String>)
    ensures
        pieces_view(r@) == split_text(haystack@, needle@),
{
    let s = chars_of(haystack);
    let n = chars_of(needle);
    let mut out: Vec<String> = Vec::new();
    if n.len() == 0 {
        out.push(String::new());
        let mut i: usize = 0;
        while i < s.len()
            invariant
                s@ == haystack@,
                i <= s@.len(),
                pieces_view(out@) == seq![Seq::<char>::empty()] + Seq::new(i as nat, |k: int| seq![s@[k]]),
            decreases s.len() - i,
        {
            let ghost before = pieces_view(out@);
            out.push(string_of_range(&s, i, i + 1));
            proof {
                assert(s@.subrange(i as int, i + 1) =~= seq![s@[i as int]]);
                assert(pieces_view(out@) =~= before.push(seq![s@[i as int]]));
                assert(pieces_view(out@) =~= seq![Seq::<char>::empty()] + Seq::new((i + 1) as nat, |k: int| seq![s@[k]]));
            }
            i += 1;
        }
        let ghost before = pieces_view(out@);
        out.push(String::new());
        proof {
            assert(pieces_view(out@) =~= before.push(Seq::<char>::empty()));
            assert(Seq::new(i as nat, |k: int| seq![s@[k]]) =~= Seq::new(s@.len(), |k: int| seq![s@[k]]));
        }
        return out;
    }
    let mut start: usize = 0;
    let mut i: usize = 0;
    while i < s.len()
        invariant
            s@ == haystack@,
            n@ == needle@,
            n@.len() > 0,
            start <= i <= s@.len(),
            pieces_view(out@) + pieces_from(s@, n@, start as nat, i as nat) == pieces_from(s@, n@, 0, 0),
        decreases s.len() - i,
    {
        let ghost before = pieces_view(out@);
        if occurs_at_exec(&s, &n, i) {
            out.push(string_of_range(&s, start, i));
            proof {
                assert(pieces_view(out@) =~= before.push(s@.subrange(start as int, i as int)));
                assert(before + pieces_from(s@, n@, start as nat, i as nat)
                    =~= pieces_view(out@) + pieces_from(s@, n@, (i + n@.len()) as nat, (i + n@.len()) as nat));
            }
            i = i + n.len();
            start = i;
        } else {
            i += 1;
        }
    }
    let ghost before = pieces_view(out@);
    out.push(string_of_range(&s, start, s.len()));
    proof {
        assert(pieces_view(out@) =~= before.push(s@.subrange(start as int, s@.len() as int)));
        assert(pieces_from(s@, n@, start as nat, i as nat) =~= seq![s@.subrange(start as int, s@.len() as int)]);
        assert(pieces_view(out@) =~= before + pieces_from(s@, n@, start as nat, i as nat));
    }
    out
}

/// The texts of a list of strings.
pub open spec fn pieces_view(v: Seq<String>) -> Seq<Seq<char>> {
    v.map_values(|x: String| x@)
}

// ---------------------------------------------------------------------------
// Regular expressions
// ---------------------------------------------------------------------------

#[verifier::external_type_specification]
#[verifier::external_body]
pub struct ExRegex(regex::Regex);

/// Whether the regex crate accepts `pattern` as a regular expression.
pub uninterp spec fn regex_compiles(pattern: Seq<char>) -> bool;

/// The regex crate's text for why `pattern` does not compile.
pub uninterp spec fn regex_error_text(pattern: Seq<char>) -> Seq<char>;

/// Whether the expression compiled from `pattern` matches somewhere in `text`.
pub uninterp spec fn regex_finds(pattern: Seq<char>, text: Seq<char>) -> bool;

/// `text` with every match of `pattern` replaced by `rep`, group references in `rep`
/// expanded, as the regex crate's `replace_all` gives it.
pub uninterp spec fn regex_replaced(pattern: Seq<char>, text: Seq<char>, rep: Seq<char>) -> Seq<char>;

/// The pieces of `text` between the matches of `pattern`, as the regex crate's `split`
/// gives them.
pub uninterp spec fn regex_pieces(pattern: Seq<char>, text: Seq<char>) -> Seq<Seq<char>>;

/// A compiled regular expression, kept with the pattern it was compiled from.
pub struct CompiledRegex {
    re: regex::Regex,
    pattern: String,
}

impl CompiledRegex {
    /// The pattern this expression was compiled from.
    pub closed spec fn source(&self) -> Seq<char> {
        self.pattern@
    }
}

/// Calls `regex::Regex::new`. Whether it succeeds is named `regex_compiles` of the
/// pattern and its error's text `regex_error_text` of it; the compiled expression is kept
/// with its pattern.
#[verifier::external_body]
pub(crate) fn compile_regex(pattern: &str) -> (r: Result<CompiledRegex, String>)
    ensures
        r is Ok <==> regex_compiles(pattern@),
        r matches Ok(c) ==> c.source() == pattern@,
        r matches Err(m) ==> m@ == regex_error_text(pattern@),
{
    match regex::Regex::new(pattern) {
        Ok(re) => Ok(CompiledRegex { re, pattern: pattern.to_string() }),
        Err(e) => Err(e.to_string()),
    }
}

/// Calls `regex::Regex::is_match`; the result is named `regex_finds` of the pattern and the
/// text.
#[verifier::external_body]
pub(crate) fn regex_is_match(re: &CompiledRegex, text: &str) -> (r: bool)
    ensures
        r == regex_finds(re.source(), text@),
{
    re.re.is_match(text)
}

/// Calls `regex::Regex::replace_all` with a plain replacement text; the result is named
/// `regex_replaced` of the pattern, the text and the replacement.
#[verifier::external_body]
pub(crate) fn regex_replace_all(re: &CompiledRegex, text: &str, rep: &str) -> (r: String)
    ensures
        r@ == regex_replaced(re.source(), text@, rep@),
{
    re.re.replace_all(text, rep).to_string()
}

/// Calls `regex::Regex::split`, collecting the pieces; they are named `regex_pieces` of the
/// pattern and the text.
#[verifier::external_body]
pub(crate) fn regex_split(re: &CompiledRegex, text: &str) -> (r: Vec<String>)
    ensures
        pieces_view(r@) == regex_pieces(re.source(), text@),
{
    re.re.split(text).map(|p| p.to_string()).collect()
}

/// The runtime error of a builtin for an invalid regular expression.
pub open spec fn invalid_regex_message(builtin: Seq<char>, pattern: Seq<char>) -> Seq<char> {
    builtin + "() invalid regex: "@ + regex_error_text(pattern)
}

pub(crate) fn invalid_regex(builtin: &str, e: String) -> (err: AudionError)
    ensures
        err matches AudionError::RuntimeError { msg } && msg@ == builtin@ + "() invalid regex: "@ + e@,
{
    let mut msg = String::from_str(builtin);
    msg.append("() invalid regex: ");
    msg.append(e.as_str());
    AudionError::RuntimeError { msg }
}

/// `str_contains(needle, haystack)`: whether `needle` occurs in `haystack`. A needle
/// written `/pattern/`, `{pattern}` or `%%pattern%%` is a regular expression to search for.
pub fn builtin_str_contains(needle: &str, haystack: &str) -> (r: Result<bool, AudionError>)
    ensures
        match regex_pattern(needle@) {
            Some(p) => if regex_compiles(p) {
                r matches Ok(b) && b == regex_finds(p, haystack@)
            } else {
                r matches Err(AudionError::RuntimeError { msg }) && msg@ == invalid_regex_message("str_contains"@, p)
            },
            None => r matches Ok(b) && b == contains_text(haystack@, needle@),
        },
{
    match extract_regex_pattern(needle) {
        Some(pattern) => match compile_regex(pattern.as_str()) {
            Ok(re) => Ok(regex_is_match(&re, haystack)),
            Err(e) => Err(invalid_regex("str_contains", e)),
        },
        None => Ok(contains_plain(haystack, needle)),
    }
}

/// `str_replace(needle, replacement, haystack)`: `haystack` with every occurrence of
/// `needle` replaced. A needle written `/pattern/`, `{pattern}` or `%%pattern%%` is a
/// regular expression, and the replacement may then name its groups.
pub fn builtin_str_replace(needle: &str, replacement: &str, haystack: &str) -> (r: Result<String, AudionError>)
    ensures
        match regex_pattern(needle@) {
            Some(p) => if regex_compiles(p) {
                r matches Ok(t) && t@ == regex_replaced(p, haystack@, replacement@)
            } else {
                r matches Err(AudionError::RuntimeError { msg }) && msg@ == invalid_regex_message("str_replace"@, p)
            },
            None => r matches Ok(t) && t@ == replaced(haystack@, needle@, replacement@),
        },
{
    match extract_regex_pattern(needle) {
        Some(pattern) => match compile_regex(pattern.as_str()) {
            Ok(re) => Ok(regex_replace_all(&re, haystack, replacement)),
            Err(e) => Err(invalid_regex("str_replace", e)),
        },
        None => Ok(replace_plain(haystack, needle, replacement)),
    }
}

proof fn lemma_replace_by_itself(s: Seq<char>, n: Seq<char>, i: nat)
    requires
        i <= s.len(),
    ensures
        n.len() > 0 ==> replaced_from(s, n, n, i) == s.subrange(i as int, s.len() as int),
        interleaved_from(s, Seq::empty(), i) == s.subrange(i as int, s.len() as int),
    decreases s.len() - i,
{
    if i < s.len() {
        lemma_replace_by_itself(s, n, i + 1);
        if n.len() > 0 && occurs_at(s, n, i as int) {
            lemma_replace_by_itself(s, n, i + n.len());
            assert(s.subrange(i as int, s.len() as int) =~= n + s.subrange((i + n.len()) as int, s.len() as int));
        }
        assert(s.subrange(i as int, s.len() as int) =~= seq![s[i as int]] + s.subrange((i + 1) as int, s.len() as int));
        assert(Seq::<char>::empty() + seq![s[i as int]] + interleaved_from(s, Seq::empty(), i + 1)
            =~= seq![s[i as int]] + interleaved_from(s, Seq::empty(), i + 1));
    } else {
        assert(s.subrange(i as int, s.len() as int) =~= Seq::<char>::empty());
    }
}

/// Replacing a text by itself changes nothing.
pub proof fn law_replace_by_itself(s: Seq<char>, n: Seq<char>)
    ensures
        replaced(s, n, n) == s,
{
    lemma_replace_by_itself(s, n, 0);
    assert(s.subrange(0, s.len() as int) =~= s);
    if n.len() == 0 {
        assert(n =~= Seq::<char>::empty());
    }
}

} // verus!
