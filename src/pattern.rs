//! The fixed textual patterns of the scan, matched through the regex crate,
//! with what each match yields stated over character sequences.

use vstd::prelude::*;

verus! {

/// The flag: `flag{`, then anything up to the first `}`.
pub const FLAG_PATTERN: &'static str = "flag\\{([^}]*)\\}";

/// A line that holds `User:` and white space alone.
pub const USER_HEADER_PATTERN: &'static str = "^\\s*User:\\s*$";

/// A user name: all that follows a leading space, if no new line follows.
pub const USERNAME_FIELD_PATTERN: &'static str = "^ (.*)$";

/// A ticket number: `Ticket #` and ASCII digits, with white space alone
/// around.
pub const TICKET_ID_PATTERN: &'static str = "^\\s*Ticket #([0-9]+)\\s*$";

/// Unicode white space (the `White_Space` property).
pub open spec fn is_space(c: char) -> bool {
    let n = c as u32;
    ||| 0x09 <= n <= 0x0d
    ||| n == 0x20 || n == 0x85 || n == 0xa0 || n == 0x1680
    ||| 0x2000 <= n <= 0x200a
    ||| n == 0x2028 || n == 0x2029 || n == 0x202f || n == 0x205f || n == 0x3000
}

/// Every character of `s` is white space.
pub open spec fn all_space(s: Seq<char>) -> bool {
    forall|i: int| 0 <= i < s.len() ==> #[trigger] is_space(s[i])
}

pub open spec fn is_ascii_digit(c: char) -> bool {
    '0' <= c && c <= '9'
}

/// `s` is a non-empty run of ASCII digits.
pub open spec fn ascii_digits(s: Seq<char>) -> bool {
    &&& s.len() > 0
    &&& forall|i: int| 0 <= i < s.len() ==> #[trigger] is_ascii_digit(s[i])
}

/// The number that the decimal digits `s` write.
pub open spec fn digits_value(s: Seq<char>) -> nat
    decreases s.len(),
{
    if s.len() == 0 {
        0
    } else {
        digits_value(s.drop_last()) * 10 + (s.last() as u32 - '0' as u32) as nat
    }
}

/// `s` is white space, then `word` at `i`, then white space.
pub open spec fn word_alone_at(s: Seq<char>, word: Seq<char>, i: int) -> bool {
    &&& 0 <= i && i + word.len() <= s.len()
    &&& all_space(s.subrange(0, i))
    &&& s.subrange(i, i + word.len()) == word
    &&& all_space(s.subrange(i + word.len(), s.len() as int))
}

pub open spec fn user_label() -> Seq<char> {
    seq!['U', 's', 'e', 'r', ':']
}

/// `s` is a `User:` line.
pub open spec fn is_user_header(s: Seq<char>) -> bool {
    exists|i: int| #[trigger] word_alone_at(s, user_label(), i)
}

/// The user name that a line after the `User:` line holds.
pub open spec fn username_field(s: Seq<char>) -> Option<Seq<char>> {
    if s.len() > 0 && s[0] == ' ' && forall|k: int| 1 <= k < s.len() ==> #[trigger] s[k] != '\n' {
        Some(s.drop_first())
    } else {
        None
    }
}

pub open spec fn ticket_label() -> Seq<char> {
    seq!['T', 'i', 'c', 'k', 'e', 't', ' ', '#']
}

/// `s` is white space, `Ticket #` at `i`, then `g`, then white space.
pub open spec fn ticket_id_at(s: Seq<char>, i: int, g: Seq<char>) -> bool {
    word_alone_at(s, ticket_label() + g, i)
}

/// The digits of a ticket number line, if it is one; by
/// `lemma_ticket_id_unique` there is at most one way to read it as one.
pub open spec fn ascii_ticket_id(s: Seq<char>) -> Option<Seq<char>> {
    if exists|i: int, g: Seq<char>| #[trigger] ticket_id_at(s, i, g) && ascii_digits(g) {
        let (i, g) = choose|i: int, g: Seq<char>| #[trigger] ticket_id_at(s, i, g) && ascii_digits(g);
        Some(g)
    } else {
        None
    }
}

/// A line reads as a ticket number in at most one way.
pub proof fn lemma_ticket_id_unique(s: Seq<char>, i: int, g: Seq<char>, j: int, h: Seq<char>)
    requires
        ticket_id_at(s, i, g),
        ascii_digits(g),
        ticket_id_at(s, j, h),
        ascii_digits(h),
    ensures
        i == j,
        g == h,
{
    let lg = ticket_label() + g;
    let lh = ticket_label() + h;
    assert(s[i] == s.subrange(i, i + lg.len())[0]);
    assert(s[j] == s.subrange(j, j + lh.len())[0]);
    if i < j {
        assert(is_space(s.subrange(0, j)[i]));
    } else if j < i {
        assert(is_space(s.subrange(0, i)[j]));
    }
    let k = i + 8 + g.len();
    if g.len() < h.len() {
        assert(s[k] == s.subrange(j, j + lh.len())[8 + g.len() as int]);
        assert(is_ascii_digit(h[g.len() as int]));
        assert(is_space(s.subrange(i + lg.len(), s.len() as int)[0]));
    } else if h.len() < g.len() {
        let kh = j + 8 + h.len();
        assert(s[kh] == s.subrange(i, i + lg.len())[8 + h.len() as int]);
        assert(is_ascii_digit(g[h.len() as int]));
        assert(is_space(s.subrange(j + lh.len(), s.len() as int)[0]));
    }
    assert(g =~= s.subrange(i, i + lg.len()).subrange(8, lg.len() as int));
    assert(h =~= s.subrange(j, j + lh.len()).subrange(8, lh.len() as int));
}

/// The characters that open a flag.
pub open spec fn flag_open() -> Seq<char> {
    seq!['f', 'l', 'a', 'g', '{']
}

/// A match of the flag pattern spans `s[p..=q]`: `flag{` at `p`, and at `q`
/// the first `}` after it.
pub open spec fn flag_match_at(s: Seq<char>, p: int, q: int) -> bool {
    &&& 0 <= p
    &&& p + 5 <= q < s.len()
    &&& s.subrange(p, p + 5) == flag_open()
    &&& s[q] == '}'
    &&& forall|k: int| p + 5 <= k < q ==> #[trigger] s[k] != '}'
}

/// The match that starts leftmost.
pub open spec fn is_leftmost_flag(s: Seq<char>, p: int, q: int) -> bool {
    &&& flag_match_at(s, p, q)
    &&& forall|pe: int, qe: int| pe < p ==> !#[trigger] flag_match_at(s, pe, qe)
}

/// What the flag pattern captures in `s`: the text between the braces of
/// the leftmost match, if there is one.
pub open spec fn flag_group(s: Seq<char>) -> Option<Seq<char>> {
    if exists|p: int, q: int| is_leftmost_flag(s, p, q) {
        let (p, q) = choose|p: int, q: int| is_leftmost_flag(s, p, q);
        Some(s.subrange(p + 5, q))
    } else {
        None
    }
}

/// The view of an optional string.
pub open spec fn opt_view(r: Option<String>) -> Option<Seq<char>> {
    match r {
        Some(t) => Some(t@),
        None => None,
    }
}

/// A compiled regular expression.
#[verifier::external_type_specification]
#[verifier::external_body]
pub struct ExRegex(regex::Regex);

/// A regular expression compiled from a pattern, with that pattern.
pub struct Matcher {
    re: regex::Regex,
    pattern: Ghost<Seq<char>>,
}

impl Matcher {
    /// The pattern that the regular expression was compiled from.
    pub closed spec fn pattern(&self) -> Seq<char> {
        self.pattern@
    }
}

/// Whether `p` is one of the patterns of the scan.
pub open spec fn is_scan_pattern(p: Seq<char>) -> bool {
    ||| p == FLAG_PATTERN@
    ||| p == USER_HEADER_PATTERN@
    ||| p == USERNAME_FIELD_PATTERN@
    ||| p == TICKET_ID_PATTERN@
}

/// Relies on regex::Regex::new: compiles `pattern`, which fails only on a
/// pattern that is not valid or too large; the patterns of the scan are
/// valid and small.
#[verifier::external_body]
fn compile(pattern: &str) -> (r: Option<Matcher>)
    ensures
        r matches Some(m) ==> m.pattern() == pattern@,
        is_scan_pattern(pattern@) ==> r is Some,
{
    match regex::Regex::new(pattern) {
        Ok(re) => Some(Matcher { re, pattern: Ghost(pattern@) }),
        Err(_) => None,
    }
}

/// Relies on regex::Regex::captures, on the regular expression that
/// `compile` built from `m.pattern()` (only `compile` builds a `Matcher`): the text of the first capture group
/// of the leftmost-first match, where `.` matches any character but a new
/// line, `[^}]` any character but `}`, and `^` and `$` stand for the ends
/// of the text.
#[verifier::external_body]
fn first_group(m: &Matcher, haystack: &str) -> (r: Option<String>)
    ensures
        m.pattern() == FLAG_PATTERN@ ==> opt_view(r) == flag_group(haystack@),
        m.pattern() == USERNAME_FIELD_PATTERN@ ==> opt_view(r) == username_field(haystack@),
        m.pattern() == TICKET_ID_PATTERN@ ==> opt_view(r) == ascii_ticket_id(haystack@),
{
    match m.re.captures(haystack) {
        Some(c) => match c.get(1) {
            Some(g) => Some(g.as_str().to_string()),
            None => None,
        },
        None => None,
    }
}

/// Relies on regex::Regex::is_match, on the regular expression that
/// `compile` built from `m.pattern()` (only `compile` builds a `Matcher`): whether it matches somewhere in
/// `haystack`; `^` and `$` stand for its ends and `\s` for Unicode white
/// space.
#[verifier::external_body]
fn has_match(m: &Matcher, haystack: &str) -> (r: bool)
    ensures
        m.pattern() == USER_HEADER_PATTERN@ ==> r == is_user_header(haystack@),
{
    m.re.is_match(haystack)
}

/// The patterns of the scan, each compiled once.
pub struct Patterns {
    flag: Matcher,
    user_header: Matcher,
    username_field: Matcher,
    ticket_id: Matcher,
}

impl Patterns {
    #[verifier::type_invariant]
    spec fn compiled_from_their_patterns(&self) -> bool {
        &&& self.flag.pattern() == FLAG_PATTERN@
        &&& self.user_header.pattern() == USER_HEADER_PATTERN@
        &&& self.username_field.pattern() == USERNAME_FIELD_PATTERN@
        &&& self.ticket_id.pattern() == TICKET_ID_PATTERN@
    }

    /// Compiles the patterns of the scan.
    pub fn new() -> (r: Patterns) {
        let flag = compile(FLAG_PATTERN).unwrap();
        let user_header = compile(USER_HEADER_PATTERN).unwrap();
        let username_field = compile(USERNAME_FIELD_PATTERN).unwrap();
        let ticket_id = compile(TICKET_ID_PATTERN).unwrap();
        Patterns { flag, user_header, username_field, ticket_id }
    }
}

/// Whether `line` holds `User:` and white space alone.
pub fn is_username_header(patterns: &Patterns, line: &str) -> (r: bool)
    ensures
        r == is_user_header(line@),
{
    proof {
        use_type_invariant(patterns);
    }
    has_match(&patterns.user_header, line)
}

/// The user name in the line after the `User:` line: all that follows its
/// leading space.
pub fn username_in(patterns: &Patterns, line: &str) -> (r: Option<String>)
    ensures
        opt_view(r) == username_field(line@),
{
    proof {
        use_type_invariant(patterns);
    }
    first_group(&patterns.username_field, line)
}

/// The digits of a ticket number line, if it is one.
pub fn ticket_id_digits(patterns: &Patterns, line: &str) -> (r: Option<String>)
    ensures
        opt_view(r) == ascii_ticket_id(line@),
{
    proof {
        use_type_invariant(patterns);
    }
    first_group(&patterns.ticket_id, line)
}

/// The flag in `haystack`: the text between the leftmost `flag{` that a `}`
/// follows and the first `}` after it, verbatim.
pub fn regex_flag(patterns: &Patterns, haystack: &str) -> (r: Option<String>)
    ensures
        opt_view(r) == flag_group(haystack@),
{
    proof {
        use_type_invariant(patterns);
    }
    first_group(&patterns.flag, haystack)
}

/// Whether `flag{` occurs anywhere in `s`.
pub open spec fn has_flag_open(s: Seq<char>) -> bool {
    exists|p: int| 0 <= p && p + 5 <= s.len() && #[trigger] s.subrange(p, p + 5) == flag_open()
}

proof fn lemma_flag_at_join(prefix: Seq<char>, token: Seq<char>, suffix: Seq<char>)
    requires
        forall|i: int| 0 <= i < token.len() ==> #[trigger] token[i] != '}',
    ensures
        ({
            let s = prefix + flag_open() + token + seq!['}'] + suffix;
            flag_match_at(s, prefix.len() as int, (prefix.len() + 5 + token.len()) as int)
        }),
{
    let s = prefix + flag_open() + token + seq!['}'] + suffix;
    let pp = prefix.len() as int;
    let qq = pp + 5 + token.len();
    assert(s.subrange(pp, pp + 5) =~= flag_open());
    assert(s[qq] == '}');
    assert forall|k: int| pp + 5 <= k < qq implies #[trigger] s[k] != '}' by {
        assert(s[k] == token[k - pp - 5]);
    }
}

proof fn lemma_no_flag_before(prefix: Seq<char>, rest: Seq<char>, pe: int, qe: int)
    requires
        !has_flag_open(prefix),
        pe < prefix.len(),
    ensures
        !flag_match_at(prefix + flag_open() + rest, pe, qe),
{
    let s = prefix + flag_open() + rest;
    let pp = prefix.len() as int;
    if flag_match_at(s, pe, qe) {
        if pe + 5 <= pp {
            assert(prefix.subrange(pe, pe + 5) =~= s.subrange(pe, pe + 5));
            assert(has_flag_open(prefix));
        } else {
            assert(s.subrange(pe, pe + 5)[4] == '{');
            assert(s[pe + 4] == flag_open()[pe + 4 - pp]);
        }
    }
}

/// A flag written into a text whose part before it holds no `flag{` is
/// found, and is exactly the token, whatever comes after it.
pub proof fn lemma_flag_round_trip(prefix: Seq<char>, token: Seq<char>, suffix: Seq<char>)
    requires
        !has_flag_open(prefix),
        forall|i: int| 0 <= i < token.len() ==> #[trigger] token[i] != '}',
    ensures
        flag_group(prefix + flag_open() + token + seq!['}'] + suffix) == Some(token),
{
    let rest = token + seq!['}'] + suffix;
    let s = prefix + flag_open() + token + seq!['}'] + suffix;
    assert(s =~= prefix + flag_open() + rest);
    let pp = prefix.len() as int;
    let qq = pp + 5 + token.len();
    lemma_flag_at_join(prefix, token, suffix);
    assert forall|pe: int, qe: int| pe < pp implies !#[trigger] flag_match_at(s, pe, qe) by {
        lemma_no_flag_before(prefix, rest, pe, qe);
    }
    assert(is_leftmost_flag(s, pp, qq));
    let (p, q) = choose|p: int, q: int| is_leftmost_flag(s, p, q);
    assert(p == pp) by {
        if p < pp {
            assert(!flag_match_at(s, p, q));
        } else if p > pp {
            assert(!flag_match_at(s, pp, qq));
        }
    }
    assert(q == qq) by {
        if q < qq {
            assert(s[q] != '}');
        } else if q > qq {
            assert(s[qq] != '}');
        }
    }
    assert(s.subrange(pp + 5, qq) =~= token);
}

} // verus!
