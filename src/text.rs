//! Character-level helpers: white space, trimming, and the numbered-line format.
use vstd::prelude::*;

verus! {

/// A character with the Unicode White_Space property (what `char::is_whitespace` accepts).
pub open spec fn is_blank(c: char) -> bool {
    let n = c as u32;
    (0x9 <= n && n <= 0xd) || n == 0x20 || n == 0x85 || n == 0xa0 || n == 0x1680 || (0x2000 <= n
        && n <= 0x200a) || n == 0x2028 || n == 0x2029 || n == 0x202f || n == 0x205f || n == 0x3000
}

pub fn is_blank_char(c: char) -> (r: bool)
    ensures
        r == is_blank(c),
{
    let n = c as u32;
    (0x9 <= n && n <= 0xd) || n == 0x20 || n == 0x85 || n == 0xa0 || n == 0x1680 || (0x2000 <= n
        && n <= 0x200a) || n == 0x2028 || n == 0x2029 || n == 0x202f || n == 0x205f || n == 0x3000
}

/// `s` with its leading white space removed.
pub open spec fn trim_start(s: Seq<char>) -> Seq<char>
    decreases s.len(),
{
    if s.len() > 0 && is_blank(s[0]) {
        trim_start(s.drop_first())
    } else {
        s
    }
}

/// `s` with its trailing white space removed.
pub open spec fn trim_end(s: Seq<char>) -> Seq<char>
    decreases s.len(),
{
    if s.len() > 0 && is_blank(s.last()) {
        trim_end(s.drop_last())
    } else {
        s
    }
}

/// `s` with white space removed at both ends.
pub open spec fn trim(s: Seq<char>) -> Seq<char> {
    trim_end(trim_start(s))
}

/// The index of the first white-space character of `s` at or after `i`, or `s.len()`.
pub open spec fn blank_from(s: Seq<char>, i: int) -> int
    decreases s.len() - i,
{
    if i < 0 || i >= s.len() {
        s.len() as int
    } else if is_blank(s[i]) {
        i
    } else {
        blank_from(s, i + 1)
    }
}

pub open spec fn is_digit(c: char) -> bool {
    '0' <= c && c <= '9'
}

pub fn is_digit_char(c: char) -> (r: bool)
    ensures
        r == is_digit(c),
{
    '0' <= c && c <= '9'
}

/// The number written by the decimal digits `d`, most significant first.
pub open spec fn digits_value(d: Seq<char>) -> nat
    decreases d.len(),
{
    if d.len() == 0 {
        0
    } else {
        digits_value(d.drop_last()) * 10 + ((d.last() as u32) - ('0' as u32)) as nat
    }
}

/// The digits of a token, after one optional leading `+`.
pub open spec fn unsigned_digits(tok: Seq<char>) -> Seq<char> {
    if tok.len() > 0 && tok[0] == '+' {
        tok.drop_first()
    } else {
        tok
    }
}

/// The position a token denotes, as `usize::from_str` reads it: an optional `+`, then one or
/// more decimal digits whose value fits in `usize`.
pub open spec fn position_of(tok: Seq<char>) -> Option<usize> {
    let d = unsigned_digits(tok);
    if d.len() > 0 && (forall|j: int| 0 <= j < d.len() ==> is_digit(#[trigger] d[j]))
        && digits_value(d) <= usize::MAX {
        Some(digits_value(d) as usize)
    } else {
        None
    }
}

/// What a raw dialogue line holds.
pub ghost enum LineModel {
    /// No white space separates a leading token from the rest.
    Ignored,
    /// A position and the trimmed text after it.
    Numbered(usize, Seq<char>),
    /// The leading token, which is no position.
    Malformed(Seq<char>),
}

/// A raw dialogue line is a leading token, one white-space character, and the text. The token
/// must be a position; the text is trimmed.
pub open spec fn line_model(s: Seq<char>) -> LineModel {
    let i = blank_from(s, 0);
    if i >= s.len() {
        LineModel::Ignored
    } else {
        match position_of(s.take(i)) {
            Some(n) => LineModel::Numbered(n, trim(s.skip(i + 1))),
            None => LineModel::Malformed(s.take(i)),
        }
    }
}

/// The result of reading one raw dialogue line.
#[derive(Debug, PartialEq, Eq)]
pub enum ParsedLine {
    Ignored,
    Numbered(usize, String),
    Malformed(String),
}

impl View for ParsedLine {
    type V = LineModel;

    open spec fn view(&self) -> LineModel {
        match self {
            ParsedLine::Ignored => LineModel::Ignored,
            ParsedLine::Numbered(n, t) => LineModel::Numbered(*n, t@),
            ParsedLine::Malformed(t) => LineModel::Malformed(t@),
        }
    }
}

/// Relies on `str::chars`, collected: the characters of `s` in order.
#[verifier::external_body]
pub(crate) fn chars_of(s: &str) -> (r: Vec<char>)
    ensures
        r@ == s@,
{
    s.chars().collect()
}

/// Relies on `String`'s `FromIterator<char>`: the string of these characters in order.
#[verifier::external_body]
pub(crate) fn string_of(cs: &Vec<char>) -> (r: String)
    ensures
        r@ == cs@,
{
    cs.iter().collect()
}

/// The string of `cs[lo..hi]`.
pub fn string_of_range(cs: &Vec<char>, lo: usize, hi: usize) -> (r: String)
    requires
        lo <= hi <= cs.len(),
    ensures
        r@ == cs@.subrange(lo as int, hi as int),
{
    let mut part: Vec<char> = Vec::new();
    let mut i: usize = lo;
    while i < hi
        invariant
            lo <= i <= hi <= cs.len(),
            part@ == cs@.subrange(lo as int, i as int),
        decreases hi - i,
    {
        part.push(cs[i]);
        assert(part@ =~= cs@.subrange(lo as int, i + 1));
        i = i + 1;
    }
    string_of(&part)
}

/// The string of `cs[lo..]` with white space removed at both ends.
pub fn trimmed_from(cs: &Vec<char>, lo: usize) -> (r: String)
    requires
        lo <= cs.len(),
    ensures
        r@ == trim(cs@.skip(lo as int)),
{
    let len = cs.len();
    let ghost s = cs@.skip(lo as int);
    let mut i: usize = lo;
    assert(cs@.subrange(lo as int, len as int) =~= s);
    while i < len && is_blank_char(cs[i])
        invariant
            lo <= i <= len == cs.len(),
            s == cs@.skip(lo as int),
            trim_start(cs@.subrange(i as int, len as int)) == trim_start(s),
        decreases len - i,
    {
        assert(cs@.subrange(i as int, len as int).drop_first() =~= cs@.subrange(
            i + 1,
            len as int,
        ));
        i = i + 1;
    }
    assert(trim_start(s) == cs@.subrange(i as int, len as int));
    let mut j: usize = len;
    while j > i && is_blank_char(cs[j - 1])
        invariant
            i <= j <= len == cs.len(),
            trim_start(s) == cs@.subrange(i as int, len as int),
            trim_end(cs@.subrange(i as int, j as int)) == trim(s),
        decreases j,
    {
        assert(cs@.subrange(i as int, j as int).drop_last() =~= cs@.subrange(
            i as int,
            j - 1,
        ));
        j = j - 1;
    }
    string_of_range(cs, i, j)
}

/// The position that the token `tok` denotes, if any.
pub fn parse_position(tok: &Vec<char>) -> (r: Option<usize>)
    ensures
        r == position_of(tok@),
{
    let len = tok.len();
    let start: usize = if len > 0 && tok[0] == '+' {
        1
    } else {
        0
    };
    let ghost d = unsigned_digits(tok@);
    assert(d =~= tok@.subrange(start as int, len as int));
    if start == len {
        return None;
    }
    let mut i: usize = start;
    while i < len
        invariant
            start <= i <= len == tok.len(),
            d == tok@.subrange(start as int, len as int),
            d == unsigned_digits(tok@),
            forall|j: int| start <= j < i ==> is_digit(#[trigger] tok@[j]),
        decreases len - i,
    {
        let c = tok[i];
        if !is_digit_char(c) {
            assert(d[i - start] == c);
            assert(!is_digit(d[i - start]));
            return None;
        }
        i = i + 1;
    }
    assert forall|j: int| 0 <= j < d.len() implies is_digit(#[trigger] d[j]) by {
        assert(d[j] == tok@[j + start]);
    }
    let mut v: usize = 0;
    let mut over: bool = false;
    let mut k: usize = start;
    while k < len
        invariant
            start <= k <= len == tok.len(),
            d == tok@.subrange(start as int, len as int),
            d == unsigned_digits(tok@),
            forall|j: int| 0 <= j < d.len() ==> is_digit(#[trigger] d[j]),
            forall|j: int| start <= j < len ==> is_digit(#[trigger] tok@[j]),
            !over ==> v == digits_value(tok@.subrange(start as int, k as int)),
            over ==> digits_value(tok@.subrange(start as int, k as int)) > usize::MAX,
        decreases len - k,
    {
        let ghost prev = tok@.subrange(start as int, k as int);
        let ghost next = tok@.subrange(start as int, k + 1);
        assert(next.drop_last() =~= prev);
        assert(next.last() == tok@[k as int]);
        assert(is_digit(tok@[k as int]));
        let dig: usize = (tok[k] as u32 - '0' as u32) as usize;
        if !over {
            match v.checked_mul(10) {
                Some(m) => match m.checked_add(dig) {
                    Some(w) => {
                        v = w;
                    },
                    None => {
                        over = true;
                    },
                },
                None => {
                    over = true;
                },
            }
        }
        k = k + 1;
    }
    if over {
        None
    } else {
        Some(v)
    }
}

/// Reads one raw dialogue line: a position token, one white-space character, then the text.
pub fn parse_line(line: &str) -> (r: ParsedLine)
    ensures
        r@ == line_model(line@),
{
    let cs = chars_of(line);
    let len = cs.len();
    let mut i: usize = 0;
    while i < len && !is_blank_char(cs[i])
        invariant
            i <= len == cs.len(),
            blank_from(cs@, 0) == blank_from(cs@, i as int),
        decreases len - i,
    {
        i = i + 1;
    }
    if i >= len {
        return ParsedLine::Ignored;
    }
    let mut tok: Vec<char> = Vec::new();
    let mut j: usize = 0;
    while j < i
        invariant
            j <= i < len == cs.len(),
            tok@ == cs@.take(j as int),
        decreases i - j,
    {
        tok.push(cs[j]);
        assert(tok@ =~= cs@.take(j + 1));
        j = j + 1;
    }
    match parse_position(&tok) {
        Some(n) => ParsedLine::Numbered(n, trimmed_from(&cs, i + 1)),
        None => ParsedLine::Malformed(string_of(&tok)),
    }
}

} // verus!
