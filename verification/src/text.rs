//! Line classification: comment lines, `#pragma once` lines, and inclusion
//! directives with a quoted or bracketed target.

use vstd::prelude::*;

verus! {

/// A blank character, as the classifier understands it: space or tab.
pub open spec fn is_blank_char(c: char) -> bool {
    c == ' ' || c == '\t'
}

/// Length of the longest prefix of `s` made of blank characters.
pub open spec fn blank_prefix(s: Seq<char>) -> nat
    decreases s.len(),
{
    if s.len() == 0 || !is_blank_char(s[0]) {
        0
    } else {
        (blank_prefix(s.drop_first()) + 1) as nat
    }
}

pub proof fn lemma_blank_prefix_unique(s: Seq<char>, k: int)
    requires
        0 <= k <= s.len(),
        forall|j: int| 0 <= j < k ==> is_blank_char(#[trigger] s[j]),
        k < s.len() ==> !is_blank_char(s[k]),
    ensures
        blank_prefix(s) == k,
    decreases s.len(),
{
    if k == 0 {
    } else {
        assert(is_blank_char(s[0]));
        lemma_blank_prefix_unique(s.drop_first(), k - 1);
    }
}

pub proof fn lemma_blank_prefix(s: Seq<char>)
    ensures
        blank_prefix(s) <= s.len(),
        forall|j: int| 0 <= j < blank_prefix(s) ==> is_blank_char(#[trigger] s[j]),
    decreases s.len(),
{
    if s.len() == 0 || !is_blank_char(s[0]) {
    } else {
        lemma_blank_prefix(s.drop_first());
        assert forall|j: int| 0 <= j < blank_prefix(s) implies is_blank_char(#[trigger] s[j]) by {
            if j > 0 {
                assert(s[j] == s.drop_first()[j - 1]);
            }
        }
    }
}

/// A whitespace character: the Unicode `White_Space` set, which the
/// directive detector skips ahead of the token.
pub open spec fn is_space_char(c: char) -> bool {
    ||| ('\u{0009}' <= c && c <= '\u{000D}')
    ||| c == ' '
    ||| c == '\u{0085}'
    ||| c == '\u{00A0}'
    ||| c == '\u{1680}'
    ||| ('\u{2000}' <= c && c <= '\u{200A}')
    ||| c == '\u{2028}'
    ||| c == '\u{2029}'
    ||| c == '\u{202F}'
    ||| c == '\u{205F}'
    ||| c == '\u{3000}'
}

/// Length of the longest prefix of `s` made of whitespace characters.
pub open spec fn space_prefix(s: Seq<char>) -> nat
    decreases s.len(),
{
    if s.len() == 0 || !is_space_char(s[0]) {
        0
    } else {
        (space_prefix(s.drop_first()) + 1) as nat
    }
}

pub proof fn lemma_space_prefix_unique(s: Seq<char>, k: int)
    requires
        0 <= k <= s.len(),
        forall|j: int| 0 <= j < k ==> is_space_char(#[trigger] s[j]),
        k < s.len() ==> !is_space_char(s[k]),
    ensures
        space_prefix(s) == k,
    decreases s.len(),
{
    if k == 0 {
    } else {
        assert(is_space_char(s[0]));
        lemma_space_prefix_unique(s.drop_first(), k - 1);
    }
}

pub proof fn lemma_space_prefix(s: Seq<char>)
    ensures
        space_prefix(s) <= s.len(),
        forall|j: int| 0 <= j < space_prefix(s) ==> is_space_char(#[trigger] s[j]),
    decreases s.len(),
{
    if s.len() == 0 || !is_space_char(s[0]) {
    } else {
        lemma_space_prefix(s.drop_first());
        assert forall|j: int| 0 <= j < space_prefix(s) implies is_space_char(#[trigger] s[j]) by {
            if j > 0 {
                assert(s[j] == s.drop_first()[j - 1]);
            }
        }
    }
}

/// Whether `c` has the Unicode `White_Space` property.
fn is_space(c: char) -> (r: bool)
    ensures
        r == is_space_char(c),
{
    ('\u{0009}' <= c && c <= '\u{000D}') || c == ' ' || c == '\u{0085}' || c == '\u{00A0}' || c
        == '\u{1680}' || ('\u{2000}' <= c && c <= '\u{200A}') || c == '\u{2028}' || c == '\u{2029}'
        || c == '\u{202F}' || c == '\u{205F}' || c == '\u{3000}'
}

/// A line whose first non-blank characters are `//`.
pub open spec fn spec_is_comment(l: Seq<char>) -> bool {
    let k = blank_prefix(l) as int;
    &&& k + 2 <= l.len()
    &&& l[k] == '/'
    &&& l[k + 1] == '/'
}

/// A line whose first non-blank characters spell the once-only directive.
pub open spec fn spec_is_pragma_once(l: Seq<char>) -> bool {
    let k = blank_prefix(l) as int;
    &&& k + 12 <= l.len()
    &&& l.subrange(k, k + 12) == "#pragma once"@
}

/// A line carrying the inclusion token after only whitespace.
pub open spec fn spec_is_directive_line(l: Seq<char>) -> bool {
    let k = space_prefix(l) as int;
    &&& k + 8 <= l.len()
    &&& l.subrange(k, k + 8) == "#include"@
}

/// Index of the first occurrence of `c` in `s` at or after `from`, or -1.
pub open spec fn find_char_from(s: Seq<char>, from: int, c: char) -> int
    decreases s.len() - from,
{
    if from < 0 || from >= s.len() {
        -1
    } else if s[from] == c {
        from
    } else {
        find_char_from(s, from + 1, c)
    }
}

pub proof fn lemma_find_char_from(s: Seq<char>, from: int, c: char)
    requires
        0 <= from <= s.len(),
    ensures
        find_char_from(s, from, c) == -1 ==> forall|j: int| from <= j < s.len() ==> s[j] != c,
        find_char_from(s, from, c) != -1 ==> {
            let r = find_char_from(s, from, c);
            &&& from <= r < s.len()
            &&& s[r] == c
            &&& forall|j: int| from <= j < r ==> s[j] != c
        },
    decreases s.len() - from,
{
    if from < s.len() && s[from] != c {
        lemma_find_char_from(s, from + 1, c);
    }
}

/// How a single line parses as an inclusion directive.
pub enum DirectiveSpec {
    /// The line does not carry the directive token.
    NotDirective,
    /// A quoted target, to be resolved against the directory of the file
    /// the line stands in.
    Quoted(Seq<char>),
    /// A bracketed target, to be looked up in the header catalog.
    Bracketed(Seq<char>),
    /// The token is there, but what follows is neither a quoted nor a
    /// bracketed target: a fatal condition for the whole run.
    Malformed,
}

/// Position right after the directive token and any blanks that follow it.
pub open spec fn target_start(l: Seq<char>) -> int {
    let k = space_prefix(l) + 8;
    k + blank_prefix(l.skip(k as int)) as int
}

/// The meaning of one source line for the resolver.
pub open spec fn spec_parse_directive(l: Seq<char>) -> DirectiveSpec {
    if !spec_is_directive_line(l) {
        DirectiveSpec::NotDirective
    } else {
        let m = target_start(l);
        if m >= l.len() {
            DirectiveSpec::Malformed
        } else if l[m] == '"' {
            let j = find_char_from(l, m + 1, '"');
            if j == -1 {
                DirectiveSpec::Malformed
            } else {
                DirectiveSpec::Quoted(l.subrange(m + 1, j))
            }
        } else if l[m] == '<' {
            let j = find_char_from(l, m + 1, '>');
            if j == -1 {
                DirectiveSpec::Malformed
            } else {
                DirectiveSpec::Bracketed(l.subrange(m + 1, j))
            }
        } else {
            DirectiveSpec::Malformed
        }
    }
}

/// Exec-side result of parsing one line.
#[derive(Debug, PartialEq, Eq)]
pub enum LineParse {
    NotDirective,
    Quoted(String),
    Bracketed(String),
    Malformed,
}

impl View for LineParse {
    type V = DirectiveSpec;

    open spec fn view(&self) -> DirectiveSpec {
        match self {
            LineParse::NotDirective => DirectiveSpec::NotDirective,
            LineParse::Quoted(t) => DirectiveSpec::Quoted(t@),
            LineParse::Bracketed(t) => DirectiveSpec::Bracketed(t@),
            LineParse::Malformed => DirectiveSpec::Malformed,
        }
    }
}

/// First index at or after `from` holding a non-blank character.
fn scan_blanks(s: &str, from: usize) -> (k: usize)
    requires
        from <= s@.len(),
    ensures
        from <= k <= s@.len(),
        k - from == blank_prefix(s@.skip(from as int)),
{
    let n = s.unicode_len();
    let mut k = from;
    while k < n
        invariant
            from <= k <= n,
            n == s@.len(),
            forall|j: int| from <= j < k ==> is_blank_char(#[trigger] s@[j]),
        decreases n - k,
    {
        let c = s.get_char(k);
        if !(c == ' ' || c == '\t') {
            proof {
                assert forall|j: int| 0 <= j < k - from implies is_blank_char(
                    #[trigger] s@.skip(from as int)[j],
                ) by {
                    assert(s@.skip(from as int)[j] == s@[from + j]);
                }
                assert(s@.skip(from as int)[k - from] == s@[k as int]);
                lemma_blank_prefix_unique(s@.skip(from as int), k - from);
            }
            return k;
        }
        k += 1;
    }
    proof {
        assert forall|j: int| 0 <= j < k - from implies is_blank_char(
            #[trigger] s@.skip(from as int)[j],
        ) by {
            assert(s@.skip(from as int)[j] == s@[from + j]);
        }
        lemma_blank_prefix_unique(s@.skip(from as int), k - from);
    }
    k
}

/// First index at or after `from` holding a non-whitespace character.
fn scan_spaces(s: &str, from: usize) -> (k: usize)
    requires
        from <= s@.len(),
    ensures
        from <= k <= s@.len(),
        k - from == space_prefix(s@.skip(from as int)),
{
    let n = s.unicode_len();
    let mut k = from;
    while k < n
        invariant
            from <= k <= n,
            n == s@.len(),
            forall|j: int| from <= j < k ==> is_space_char(#[trigger] s@[j]),
        decreases n - k,
    {
        let c = s.get_char(k);
        if !is_space(c) {
            proof {
                assert forall|j: int| 0 <= j < k - from implies is_space_char(
                    #[trigger] s@.skip(from as int)[j],
                ) by {
                    assert(s@.skip(from as int)[j] == s@[from + j]);
                }
                assert(s@.skip(from as int)[k - from] == s@[k as int]);
                lemma_space_prefix_unique(s@.skip(from as int), k - from);
            }
            return k;
        }
        k += 1;
    }
    proof {
        assert forall|j: int| 0 <= j < k - from implies is_space_char(
            #[trigger] s@.skip(from as int)[j],
        ) by {
            assert(s@.skip(from as int)[j] == s@[from + j]);
        }
        lemma_space_prefix_unique(s@.skip(from as int), k - from);
    }
    k
}

/// Whether `s` carries `tok` at position `k`.
fn token_at(s: &str, k: usize, tok: &str) -> (r: bool)
    requires
        k <= s@.len(),
    ensures
        r == (k + tok@.len() <= s@.len() && s@.subrange(k as int, k as int + tok@.len()) == tok@),
{
    let n = s.unicode_len();
    let m = tok.unicode_len();
    if m > n - k {
        proof {
            assert(k + tok@.len() > s@.len());
        }
        return false;
    }
    let mut j: usize = 0;
    while j < m
        invariant
            0 <= j <= m,
            n == s@.len(),
            m == tok@.len(),
            k + m <= n,
            forall|t: int| 0 <= t < j ==> s@[k + t] == tok@[t],
        decreases m - j,
    {
        if s.get_char(k + j) != tok.get_char(j) {
            proof {
                assert(s@.subrange(k as int, k as int + tok@.len())[j as int] == s@[k + j]);
            }
            return false;
        }
        j += 1;
    }
    proof {
        assert(s@.subrange(k as int, k as int + tok@.len()) =~= tok@);
    }
    true
}

/// Whether the line carries the inclusion token after only whitespace.
pub fn is_include_directive(s: &str) -> (r: bool)
    ensures
        r == spec_is_directive_line(s@),
{
    proof {
        reveal_strlit("#include");
    }
    let k = scan_spaces(s, 0);
    proof {
        assert(s@.skip(0) =~= s@);
    }
    token_at(s, k, "#include")
}

/// First index at or after `from` holding `c`, if any.
fn find_char_at(s: &str, from: usize, c: char) -> (r: Option<usize>)
    requires
        from <= s@.len(),
    ensures
        match r {
            Some(j) => j == find_char_from(s@, from as int, c),
            None => find_char_from(s@, from as int, c) == -1,
        },
{
    let n = s.unicode_len();
    let mut k = from;
    while k < n
        invariant
            from <= k <= n,
            n == s@.len(),
            forall|j: int| from <= j < k ==> s@[j] != c,
        decreases n - k,
    {
        if s.get_char(k) == c {
            proof {
                lemma_find_char_from(s@, from as int, c);
                if find_char_from(s@, from as int, c) == -1 {
                    assert(s@[k as int] != c);
                }
            }
            return Some(k);
        }
        k += 1;
    }
    proof {
        lemma_find_char_from(s@, from as int, c);
    }
    None
}

/// Parses one line as an inclusion directive.
pub fn parse_directive(s: &str) -> (r: LineParse)
    ensures
        r@ == spec_parse_directive(s@),
{
    proof {
        reveal_strlit("#include");
    }
    let n = s.unicode_len();
    let k = scan_spaces(s, 0);
    proof {
        assert(s@.skip(0) =~= s@);
    }
    if !token_at(s, k, "#include") {
        return LineParse::NotDirective;
    }
    let m = scan_blanks(s, k + 8);
    proof {
        assert(k + 8 == space_prefix(s@) + 8);
        assert(m == target_start(s@));
    }
    if m >= n {
        return LineParse::Malformed;
    }
    let c = s.get_char(m);
    if c == '"' {
        match find_char_at(s, m + 1, '"') {
            Some(j) => {
                proof {
                    lemma_find_char_from(s@, m as int + 1, '"');
                }
                let t = s.substring_char(m + 1, j);
                LineParse::Quoted(t.to_owned())
            },
            None => LineParse::Malformed,
        }
    } else if c == '<' {
        match find_char_at(s, m + 1, '>') {
            Some(j) => {
                proof {
                    lemma_find_char_from(s@, m as int + 1, '>');
                }
                let t = s.substring_char(m + 1, j);
                LineParse::Bracketed(t.to_owned())
            },
            None => LineParse::Malformed,
        }
    } else {
        LineParse::Malformed
    }
}

/// Returns `s` without its first and last character.
pub fn unquote(s: &str) -> (r: &str)
    requires
        2 <= s@.len(),
    ensures
        r@ == s@.subrange(1, s@.len() - 1),
{
    let n = s.unicode_len();
    s.substring_char(1, n - 1)
}

/// Whether `s` ends in `suffix`.
fn has_suffix(s: &str, suffix: &str) -> (r: bool)
    ensures
        r == (suffix@.len() <= s@.len() && s@.subrange(
            s@.len() - suffix@.len(),
            s@.len() as int,
        ) == suffix@),
{
    let n = s.unicode_len();
    let m = suffix.unicode_len();
    if m > n {
        return false;
    }
    let mut j: usize = 0;
    while j < m
        invariant
            0 <= j <= m,
            n == s@.len(),
            m == suffix@.len(),
            m <= n,
            forall|t: int| 0 <= t < j ==> s@[n - m + t] == suffix@[t],
        decreases m - j,
    {
        if s.get_char(n - m + j) != suffix.get_char(j) {
            proof {
                assert(s@.subrange(s@.len() - suffix@.len(), s@.len() as int)[j as int] == s@[n - m
                    + j]);
            }
            return false;
        }
        j += 1;
    }
    proof {
        assert(s@.subrange(s@.len() - suffix@.len(), s@.len() as int) =~= suffix@);
    }
    true
}

/// Whether a file name has one of the header-like suffixes this tool takes.
pub open spec fn spec_is_header(name: Seq<char>) -> bool {
    ||| spec_has_suffix(name, ".h"@)
    ||| spec_has_suffix(name, ".hpp"@)
    ||| spec_has_suffix(name, ".inl"@)
    ||| spec_has_suffix(name, ".cpp"@)
}

pub open spec fn spec_has_suffix(s: Seq<char>, suffix: Seq<char>) -> bool {
    suffix.len() <= s.len() && s.subrange(s.len() - suffix.len(), s.len() as int) == suffix
}

/// Whether `name` is a file name of a header this tool amalgamates.
pub fn is_header(name: &str) -> (r: bool)
    ensures
        r == spec_is_header(name@),
{
    has_suffix(name, ".h") || has_suffix(name, ".hpp") || has_suffix(name, ".inl") || has_suffix(
        name,
        ".cpp",
    )
}

/// Relies on `regex::Regex::is_match`: the anchored pattern
/// `^[[:blank:]]*//` matches a string exactly when, after leading blanks
/// (space or tab), it continues with two slashes.
#[verifier::external_body]
pub(crate) fn is_comment(s: &str) -> (r: bool)
    ensures
        r == spec_is_comment(s@),
{
    regex::Regex::new(r"^[[:blank:]]*//").unwrap().is_match(s)
}

/// Relies on `regex::Regex::is_match`: the anchored pattern
/// `^[[:blank:]]*#pragma once` matches a string exactly when, after leading
/// blanks (space or tab), it continues with the once-only directive.
#[verifier::external_body]
pub(crate) fn is_pragma_once(s: &str) -> (r: bool)
    ensures
        r == spec_is_pragma_once(s@),
{
    regex::Regex::new(r"^[[:blank:]]*#pragma once").unwrap().is_match(s)
}

/// A directive line is neither a comment line nor a once-only line: both
/// markers start with a character that is neither blank nor whitespace,
/// so all three prefixes end at the same place, where the directive line
/// holds `#i`.
pub proof fn lemma_directive_not_consumed(l: Seq<char>)
    requires
        spec_is_directive_line(l),
    ensures
        !spec_is_comment(l),
        !spec_is_pragma_once(l),
{
    reveal_strlit("#include");
    reveal_strlit("#pragma once");
    let ks = space_prefix(l) as int;
    let kb = blank_prefix(l) as int;
    lemma_space_prefix(l);
    lemma_blank_prefix(l);
    assert(l.subrange(ks, ks + 8)[0] == l[ks]);
    assert(l.subrange(ks, ks + 8)[1] == l[ks + 1]);
    assert(l[ks] == '#');
    assert(l[ks + 1] == 'i');
    if spec_is_comment(l) {
        if kb < ks {
            assert(is_space_char(l[kb]));
        }
        if kb > ks {
            assert(is_blank_char(l[ks]));
        }
        assert(l[kb] == '#');
    }
    if spec_is_pragma_once(l) {
        assert(l.subrange(kb, kb + 12)[0] == l[kb]);
        assert(l[kb] == '#');
        if kb < ks {
            assert(is_space_char(l[kb]));
        }
        if kb > ks {
            assert(is_blank_char(l[ks]));
        }
        assert(l.subrange(kb, kb + 12)[1] == l[kb + 1]);
        assert(l[kb + 1] == 'p');
    }
}

} // verus!
