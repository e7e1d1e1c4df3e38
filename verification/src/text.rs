//! Text: messages, decimal numbers, ASCII case, whitespace, ordering.
use vstd::prelude::*;
use vstd::string::*;

verus! {

broadcast use vstd::string::group_string_axioms;

/// What went wrong, as the text shown to the user.
#[derive(Debug)]
pub struct Error {
    pub text: String,
}

impl Error {
    pub open spec fn view(&self) -> Seq<char> {
        self.text@
    }

    /// The text of the error.
    pub fn message(&self) -> (r: String)
        ensures
            r@ == self@,
    {
        self.text.clone()
    }

    /// The error with a note on where it arose put in front.
    pub fn context(self, place: &str) -> (r: Error)
        ensures
            r@ == in_context(place@, self@),
    {
        err(text3(place, ": ", self.text.as_str()))
    }
}

pub open spec fn in_context(place: Seq<char>, cause: Seq<char>) -> Seq<char> {
    place + ": "@ + cause
}

pub fn err(text: String) -> (r: Error)
    ensures
        r@ == text@,
{
    Error { text }
}

/// `String::push` of std: the character is appended at the end.
pub assume_specification[ String::push ](s: &mut String, c: char)
    ensures
        final(s)@ == old(s)@.push(c),
;

pub fn text2(a: &str, b: &str) -> (r: String)
    ensures
        r@ == a@ + b@,
{
    let mut s = a.to_owned();
    s.append(b);
    s
}

pub fn text3(a: &str, b: &str, c: &str) -> (r: String)
    ensures
        r@ == a@ + b@ + c@,
{
    let mut s = text2(a, b);
    s.append(c);
    s
}

pub fn text4(a: &str, b: &str, c: &str, d: &str) -> (r: String)
    ensures
        r@ == a@ + b@ + c@ + d@,
{
    let mut s = text3(a, b, c);
    s.append(d);
    s
}

pub fn text5(a: &str, b: &str, c: &str, d: &str, e: &str) -> (r: String)
    ensures
        r@ == a@ + b@ + c@ + d@ + e@,
{
    let mut s = text4(a, b, c, d);
    s.append(e);
    s
}

pub fn text6(a: &str, b: &str, c: &str, d: &str, e: &str, f: &str) -> (r: String)
    ensures
        r@ == a@ + b@ + c@ + d@ + e@ + f@,
{
    let mut s = text5(a, b, c, d, e);
    s.append(f);
    s
}

/// The characters of a text.
pub fn chars_of(s: &str) -> (r: Vec<char>)
    ensures
        r@ == s@,
{
    let mut out: Vec<char> = Vec::new();
    for c in it: s.chars()
        invariant
            out@ == it.seq().take(it.index() as int),
            it.seq() == s@,
    {
        out.push(c);
    }
    out
}

/// The text made of the characters `v[from..to]`.
pub fn string_of_range(v: &Vec<char>, from: usize, to: usize) -> (r: String)
    requires
        from <= to <= v.len(),
    ensures
        r@ == v@.subrange(from as int, to as int),
{
    let mut out = String::new();
    let mut i: usize = from;
    while i < to
        invariant
            from <= i <= to <= v.len(),
            out@ == v@.subrange(from as int, i as int),
        decreases to - i,
    {
        out.push(v[i]);
        i += 1;
    }
    out
}

/// The text made of some characters.
pub fn string_of(v: &Vec<char>) -> (r: String)
    ensures
        r@ == v@,
{
    string_of_range(v, 0, v.len())
}

/// The texts one after another with `sep` between them.
pub open spec fn join(parts: Seq<Seq<char>>, sep: Seq<char>) -> Seq<char>
    decreases parts.len(),
{
    if parts.len() == 0 {
        Seq::empty()
    } else if parts.len() == 1 {
        parts[0]
    } else {
        join(parts.drop_last(), sep) + sep + parts.last()
    }
}

/// The texts one after another with `sep` between them.
pub fn join_texts(parts: &Vec<String>, sep: &str) -> (r: String)
    ensures
        r@ == join(strings(parts@), sep@),
{
    let mut out = String::new();
    let mut i: usize = 0;
    while i < parts.len()
        invariant
            i <= parts.len(),
            out@ == join(strings(parts@).take(i as int), sep@),
        decreases parts.len() - i,
    {
        proof {
            let t = strings(parts@).take(i + 1);
            assert(t.drop_last() =~= strings(parts@).take(i as int));
            assert(t.last() == parts@[i as int]@);
            if i == 0 {
                assert(out@ + parts@[0]@ =~= parts@[0]@);
            }
        }
        if i > 0 {
            out.append(sep);
        }
        out.append(parts[i].as_str());
        i += 1;
    }
    assert(strings(parts@).take(i as int) =~= strings(parts@));
    out
}

pub open spec fn strings(v: Seq<String>) -> Seq<Seq<char>> {
    Seq::new(v.len(), |i: int| v[i]@)
}

pub proof fn lemma_strings_push(v: Seq<String>, s: String)
    ensures
        strings(v.push(s)) == strings(v).push(s@),
{
    assert(strings(v.push(s)) =~= strings(v).push(s@));
}

/// A copy of a list of texts.
pub fn copy_texts(v: &Vec<String>) -> (r: Vec<String>)
    ensures
        strings(r@) == strings(v@),
{
    let mut out: Vec<String> = Vec::new();
    let mut i: usize = 0;
    while i < v.len()
        invariant
            i <= v.len(),
            out.len() == i,
            forall|k: int| 0 <= k < i ==> (#[trigger] out[k])@ == v[k]@,
        decreases v.len() - i,
    {
        out.push(v[i].clone());
        i += 1;
    }
    assert(strings(out@) =~= strings(v@));
    out
}

// --- decimal numbers ---------------------------------------------------------

pub open spec fn digit(d: int) -> char {
    (48 + d) as char
}

/// The decimal digits of a number, most significant first.
pub open spec fn digits(n: nat) -> Seq<char>
    decreases n,
{
    if n < 10 {
        seq![digit(n as int)]
    } else {
        digits(n / 10).push(digit((n % 10) as int))
    }
}

/// A number in decimal.
pub open spec fn dec(n: int) -> Seq<char> {
    if n < 0 {
        seq!['-'] + digits((-n) as nat)
    } else {
        digits(n as nat)
    }
}

fn digit_char(d: u128) -> (c: char)
    requires
        d < 10,
    ensures
        c == digit(d as int),
{
    match d {
        0 => '0',
        1 => '1',
        2 => '2',
        3 => '3',
        4 => '4',
        5 => '5',
        6 => '6',
        7 => '7',
        8 => '8',
        _ => '9',
    }
}

fn push_digits(n: u128, out: &mut String)
    ensures
        final(out)@ == old(out)@ + digits(n as nat),
    decreases n,
{
    if n >= 10 {
        push_digits(n / 10, out);
    }
    out.push(digit_char(n % 10));
}

pub fn dec_u64(n: u64) -> (r: String)
    ensures
        r@ == dec(n as int),
{
    dec_u128(n as u128)
}

pub fn dec_u128(n: u128) -> (r: String)
    ensures
        r@ == dec(n as int),
{
    let mut out = String::new();
    push_digits(n, &mut out);
    out
}

pub fn dec_usize(n: usize) -> (r: String)
    ensures
        r@ == dec(n as int),
{
    dec_u64(n as u64)
}

pub fn dec_i64(n: i64) -> (r: String)
    ensures
        r@ == dec(n as int),
{
    let mut out = String::new();
    if n < 0 {
        out.push('-');
        push_digits((-(n as i128)) as u128, &mut out);
        assert(out@ =~= dec(n as int));
    } else {
        push_digits(n as u128, &mut out);
    }
    out
}

pub open spec fn is_digit(c: char) -> bool {
    '0' <= c <= '9'
}

/// The number that a run of decimal digits stands for.
pub open spec fn number(s: Seq<char>) -> nat
    decreases s.len(),
{
    if s.len() == 0 {
        0
    } else {
        number(s.drop_last()) * 10 + (s.last() as int - 48) as nat
    }
}

pub open spec fn all_digits(s: Seq<char>) -> bool {
    &&& s.len() > 0
    &&& forall|i: int| 0 <= i < s.len() ==> is_digit(#[trigger] s[i])
}

/// The integer written in `s`: an optional sign, then at least one digit.
pub open spec fn integer(s: Seq<char>) -> Option<int> {
    if s.len() > 0 && s[0] == '-' && all_digits(s.skip(1)) {
        Some(-(number(s.skip(1)) as int))
    } else if s.len() > 0 && s[0] == '+' && all_digits(s.skip(1)) {
        Some(number(s.skip(1)) as int)
    } else if all_digits(s) {
        Some(number(s) as int)
    } else {
        None
    }
}

/// The value of `v[from..]`, where that is a run of digits that fits in a `u64`.
fn digits_value(v: &Vec<char>, from: usize) -> (r: Option<u64>)
    requires
        from <= v.len(),
    ensures
        r matches Some(n) ==> all_digits(v@.skip(from as int)) && number(v@.skip(from as int)) == n,
        r is None ==> !all_digits(v@.skip(from as int)) || number(v@.skip(from as int)) > u64::MAX,
{
    let ghost s = v@.skip(from as int);
    if from == v.len() {
        return None;
    }
    let mut n: u64 = 0;
    let mut i: usize = from;
    let mut fits: bool = true;
    while i < v.len()
        invariant
            from <= i <= v.len(),
            s == v@.skip(from as int),
            forall|k: int| 0 <= k < i - from ==> is_digit(#[trigger] s[k]),
            fits ==> number(s.take(i - from)) == n,
            !fits ==> number(s.take(i - from)) > u64::MAX,
        decreases v.len() - i,
    {
        let c = v[i];
        assert(c == s[i - from]);
        if !(c >= '0' && c <= '9') {
            assert(!is_digit(s[i - from]));
            return None;
        }
        let d: u64 = c as u64 - 48;
        assert(s.take(i - from + 1).drop_last() =~= s.take(i - from));
        if fits {
            match n.checked_mul(10) {
                Some(m) => match m.checked_add(d) {
                    Some(k) => {
                        n = k;
                    },
                    None => {
                        fits = false;
                    },
                },
                None => {
                    fits = false;
                },
            }
        }
        i += 1;
    }
    assert(s.take(i - from) =~= s);
    if fits {
        Some(n)
    } else {
        None
    }
}

/// `s` read as an `i64`: `None` where it is no integer or out of range.
pub fn parse_i64(s: &str) -> (r: Option<i64>)
    ensures
        r == (match integer(s@) {
            Some(n) if i64::MIN <= n <= i64::MAX => Some(n as i64),
            _ => None,
        }),
{
    let v = chars_of(s);
    if v.len() == 0 {
        return None;
    }
    let negative: bool = v[0] == '-';
    let from: usize = if negative || v[0] == '+' {
        1
    } else {
        0
    };
    assert(!all_digits(s@) || is_digit(s@[0]));
    assert(s@.skip(0) =~= s@);
    match digits_value(&v, from) {
        None => None,
        Some(n) => {
            if negative {
                if n < 0x8000_0000_0000_0000 {
                    Some(-(n as i64))
                } else if n == 0x8000_0000_0000_0000 {
                    Some(i64::MIN)
                } else {
                    None
                }
            } else if n <= 0x7fff_ffff_ffff_ffff {
                Some(n as i64)
            } else {
                None
            }
        },
    }
}

/// The number written in `s`: an optional plus sign, then at least one digit.
pub open spec fn natural(s: Seq<char>) -> Option<nat> {
    if s.len() > 0 && s[0] == '+' && all_digits(s.skip(1)) {
        Some(number(s.skip(1)))
    } else if all_digits(s) {
        Some(number(s))
    } else {
        None
    }
}

/// `s` read as a `usize`: `None` where it is no number or out of range.
pub fn parse_usize(s: &str) -> (r: Option<usize>)
    ensures
        r == (match natural(s@) {
            Some(n) if n <= usize::MAX => Some(n as usize),
            _ => None,
        }),
{
    let v = chars_of(s);
    if v.len() == 0 {
        return None;
    }
    let from: usize = if v[0] == '+' {
        1
    } else {
        0
    };
    assert(!all_digits(s@) || is_digit(s@[0]));
    assert(s@.skip(0) =~= s@);
    match digits_value(&v, from) {
        None => None,
        Some(n) => if n <= usize::MAX as u64 {
            Some(n as usize)
        } else {
            None
        },
    }
}

// --- ASCII case ---------------------------------------------------------------

pub open spec fn ascii_lower(c: char) -> char {
    if 'A' <= c <= 'Z' {
        (c as int + 32) as char
    } else {
        c
    }
}

pub open spec fn ascii_lowered(s: Seq<char>) -> Seq<char> {
    Seq::new(s.len(), |i: int| ascii_lower(s[i]))
}

/// Equal up to the case of ASCII letters.
pub open spec fn same_name(a: Seq<char>, b: Seq<char>) -> bool {
    ascii_lowered(a) == ascii_lowered(b)
}

fn lower_char(c: char) -> (r: char)
    ensures
        r == ascii_lower(c),
{
    if c >= 'A' && c <= 'Z' {
        (c as u8 + 32) as char
    } else {
        c
    }
}

pub fn to_ascii_lower(s: &str) -> (r: String)
    ensures
        r@ == ascii_lowered(s@),
{
    let v = chars_of(s);
    let mut out = String::new();
    let mut i: usize = 0;
    while i < v.len()
        invariant
            i <= v.len(),
            v@ == s@,
            out@ == ascii_lowered(s@).take(i as int),
        decreases v.len() - i,
    {
        out.push(lower_char(v[i]));
        i += 1;
    }
    assert(ascii_lowered(s@).take(i as int) =~= ascii_lowered(s@));
    out
}

pub fn eq_ignore_ascii_case(a: &str, b: &str) -> (r: bool)
    ensures
        r == same_name(a@, b@),
{
    let x = to_ascii_lower(a);
    let y = to_ascii_lower(b);
    x == y
}

pub fn eq_text(a: &str, b: &str) -> (r: bool)
    ensures
        r == (a@ == b@),
{
    let x = a.to_owned();
    let y = b.to_owned();
    x == y
}

// --- Unicode ------------------------------------------------------------------

/// Whether a character is white space: it has the Unicode property `White_Space`.
pub open spec fn is_space(c: char) -> bool {
    ||| 0x9 <= c as int <= 0xD
    ||| c as int == 0x20
    ||| c as int == 0x85
    ||| c as int == 0xA0
    ||| c as int == 0x1680
    ||| 0x2000 <= c as int <= 0x200A
    ||| 0x2028 <= c as int <= 0x2029
    ||| c as int == 0x202F
    ||| c as int == 0x205F
    ||| c as int == 0x3000
}

/// `char::is_whitespace` of std: whether the character has the Unicode property
/// `White_Space`.
#[verifier::external_body]
pub(crate) fn char_is_space(c: char) -> (r: bool)
    ensures
        r == is_space(c),
{
    c.is_whitespace()
}

/// Whether a character is a letter or a digit.
pub uninterp spec fn is_word_char(c: char) -> bool;

/// `char::is_alphanumeric` of std: whether the character is alphabetic or
/// numeric in Unicode. Nothing more is claimed of it than that the answer depends
/// on the character alone.
#[verifier::external_body]
pub(crate) fn char_is_word(c: char) -> (r: bool)
    ensures
        r == is_word_char(c),
{
    c.is_alphanumeric()
}

/// A text in quotes, with what cannot be printed escaped.
pub uninterp spec fn escaped(s: Seq<char>) -> Seq<char>;

/// `Debug` of a `str` of std: the text in quotes, escaped. Nothing more is claimed of it than
/// that the result depends on the text alone.
#[verifier::external_body]
pub(crate) fn escape(s: &str) -> (r: String)
    ensures
        r@ == escaped(s@),
{
    format!("{s:?}")
}

/// A text in lower case.
pub uninterp spec fn lowercase(s: Seq<char>) -> Seq<char>;

/// `str::to_lowercase` of std: the lower-case equivalent of the text by the
/// Unicode tables. Nothing more is claimed of it than that the result depends on
/// the text alone.
#[verifier::external_body]
pub(crate) fn to_lowercase(s: &str) -> (r: String)
    ensures
        r@ == lowercase(s@),
{
    s.to_lowercase()
}

/// A text in upper case.
pub uninterp spec fn uppercase(s: Seq<char>) -> Seq<char>;

/// `str::to_uppercase` of std: the upper-case equivalent of the text by the
/// Unicode tables. Nothing more is claimed of it than that the result depends on
/// the text alone.
#[verifier::external_body]
pub(crate) fn to_uppercase(s: &str) -> (r: String)
    ensures
        r@ == uppercase(s@),
{
    s.to_uppercase()
}

/// The first position at or after `i` that holds no white space.
pub open spec fn space_end(s: Seq<char>, i: int) -> int
    decreases s.len() - i,
{
    if 0 <= i < s.len() && is_space(s[i]) {
        space_end(s, i + 1)
    } else {
        i
    }
}

/// The end of `s[..i]` without the white space at its end, `from` at the least.
pub open spec fn space_start(s: Seq<char>, from: int, i: int) -> int
    decreases i - from,
{
    if from < i <= s.len() && is_space(s[i - 1]) {
        space_start(s, from, i - 1)
    } else {
        i
    }
}

/// A text without white space at its start.
pub open spec fn trim_start(s: Seq<char>) -> Seq<char> {
    s.subrange(space_end(s, 0), s.len() as int)
}

/// A text without white space at either end.
pub open spec fn trim(s: Seq<char>) -> Seq<char> {
    let from = space_end(s, 0);
    s.subrange(from, space_start(s, from, s.len() as int))
}

pub proof fn lemma_space_end(s: Seq<char>, i: int)
    requires
        0 <= i <= s.len(),
    ensures
        i <= space_end(s, i) <= s.len(),
        forall|k: int| i <= k < space_end(s, i) ==> is_space(#[trigger] s[k]),
        space_end(s, i) < s.len() ==> !is_space(s[space_end(s, i)]),
    decreases s.len() - i,
{
    if i < s.len() && is_space(s[i]) {
        lemma_space_end(s, i + 1);
    }
}

/// Where `v` stops being white space from its start, and from its end.
fn trim_bounds(v: &Vec<char>) -> (r: (usize, usize))
    ensures
        r.0 == space_end(v@, 0),
        r.1 == space_start(v@, r.0 as int, v@.len() as int),
        r.0 <= r.1 <= v@.len(),
{
    let mut from: usize = 0;
    while from < v.len() && char_is_space(v[from])
        invariant
            from <= v.len(),
            space_end(v@, from as int) == space_end(v@, 0),
        decreases v.len() - from,
    {
        from += 1;
    }
    proof {
        lemma_space_end(v@, 0);
    }
    let mut to: usize = v.len();
    while from < to && char_is_space(v[to - 1])
        invariant
            from <= to <= v.len(),
            space_start(v@, from as int, to as int) == space_start(
                v@,
                from as int,
                v@.len() as int,
            ),
        decreases to,
    {
        to -= 1;
    }
    (from, to)
}

/// The text without white space at either end.
pub fn trimmed(s: &str) -> (r: String)
    ensures
        r@ == trim(s@),
{
    let v = chars_of(s);
    let (from, to) = trim_bounds(&v);
    string_of_range(&v, from, to)
}

/// The text without white space at its start.
pub fn trimmed_start(s: &str) -> (r: String)
    ensures
        r@ == trim_start(s@),
{
    let v = chars_of(s);
    let (from, _) = trim_bounds(&v);
    string_of_range(&v, from, v.len())
}

// --- order --------------------------------------------------------------------

/// How one value stands to another.
#[derive(Clone, Copy, PartialEq, Eq, Structural, Debug)]
pub enum Rank {
    Less,
    Equal,
    Greater,
}

pub open spec fn rank_of(a: int, b: int) -> Rank {
    if a < b {
        Rank::Less
    } else if a == b {
        Rank::Equal
    } else {
        Rank::Greater
    }
}

pub open spec fn reversed(r: Rank) -> Rank {
    match r {
        Rank::Less => Rank::Greater,
        Rank::Equal => Rank::Equal,
        Rank::Greater => Rank::Less,
    }
}

/// Texts are ordered by the code points of their characters, the first
/// difference deciding; a prefix comes first.
pub open spec fn text_rank(a: Seq<char>, b: Seq<char>) -> Rank
    decreases a.len(),
{
    if a.len() == 0 && b.len() == 0 {
        Rank::Equal
    } else if a.len() == 0 {
        Rank::Less
    } else if b.len() == 0 {
        Rank::Greater
    } else if a[0] != b[0] {
        rank_of(a[0] as int, b[0] as int)
    } else {
        text_rank(a.skip(1), b.skip(1))
    }
}

pub fn rank_text(a: &str, b: &str) -> (r: Rank)
    ensures
        r == text_rank(a@, b@),
{
    let x = chars_of(a);
    let y = chars_of(b);
    let mut i: usize = 0;
    assert(a@.skip(0) =~= a@);
    assert(b@.skip(0) =~= b@);
    while i < x.len() && i < y.len()
        invariant
            i <= x.len(),
            i <= y.len(),
            x@ == a@,
            y@ == b@,
            text_rank(a@.skip(i as int), b@.skip(i as int)) == text_rank(a@, b@),
        decreases x.len() - i,
    {
        assert(a@.skip(i as int).skip(1) =~= a@.skip(i + 1));
        assert(b@.skip(i as int).skip(1) =~= b@.skip(i + 1));
        if x[i] < y[i] {
            return Rank::Less;
        }
        if x[i] > y[i] {
            return Rank::Greater;
        }
        i += 1;
    }
    if i < y.len() {
        Rank::Less
    } else if i < x.len() {
        Rank::Greater
    } else {
        Rank::Equal
    }
}

/// Two texts rank equal exactly when they are the same text.
pub proof fn lemma_text_rank_equal(a: Seq<char>, b: Seq<char>)
    ensures
        text_rank(a, b) == Rank::Equal <==> a == b,
    decreases a.len(),
{
    if a.len() > 0 && b.len() > 0 && a[0] == b[0] {
        lemma_text_rank_equal(a.skip(1), b.skip(1));
        if a.skip(1) == b.skip(1) {
            assert(a =~= seq![a[0]] + a.skip(1));
            assert(b =~= seq![b[0]] + b.skip(1));
        }
    } else if a.len() == 0 && b.len() == 0 {
        assert(a =~= b);
    }
}

/// Swapping two texts reverses their rank.
pub proof fn lemma_text_rank_reversed(a: Seq<char>, b: Seq<char>)
    ensures
        text_rank(b, a) == reversed(text_rank(a, b)),
    decreases a.len(),
{
    if a.len() > 0 && b.len() > 0 && a[0] == b[0] {
        lemma_text_rank_reversed(a.skip(1), b.skip(1));
    }
}

/// The order of texts is transitive.
pub proof fn lemma_text_rank_transitive(a: Seq<char>, b: Seq<char>, c: Seq<char>)
    requires
        text_rank(a, b) != Rank::Greater,
        text_rank(b, c) != Rank::Greater,
    ensures
        text_rank(a, c) != Rank::Greater,
        text_rank(a, b) == Rank::Less || text_rank(b, c) == Rank::Less ==> text_rank(a, c)
            == Rank::Less,
    decreases a.len(),
{
    if a.len() > 0 && b.len() > 0 && c.len() > 0 && a[0] == b[0] && b[0] == c[0] {
        lemma_text_rank_transitive(a.skip(1), b.skip(1), c.skip(1));
    }
}

// --- parts of texts ---------------------------------------------------------------------------

/// The first place of a character at or after `i`; the end where there is none.
pub open spec fn next_place(s: Seq<char>, c: char, i: int) -> int
    decreases s.len() - i,
{
    if i < 0 || i >= s.len() || s[i] == c {
        i
    } else {
        next_place(s, c, i + 1)
    }
}

pub proof fn lemma_next_place(s: Seq<char>, c: char, i: int)
    requires
        0 <= i <= s.len(),
    ensures
        i <= next_place(s, c, i) <= s.len(),
        next_place(s, c, i) < s.len() ==> s[next_place(s, c, i)] == c,
        forall|k: int| i <= k < next_place(s, c, i) ==> (#[trigger] s[k]) != c,
    decreases s.len() - i,
{
    if i < s.len() && s[i] != c {
        lemma_next_place(s, c, i + 1);
    }
}

/// The parts of `s[i..]` between the places of a character.
pub open spec fn split_from(s: Seq<char>, c: char, i: int) -> Seq<Seq<char>>
    decreases s.len() - i,
    when 0 <= i <= s.len()
    via split_from_ends
{
    let k = next_place(s, c, i);
    if k >= s.len() {
        seq![s.subrange(i, s.len() as int)]
    } else {
        seq![s.subrange(i, k)] + split_from(s, c, k + 1)
    }
}

#[via_fn]
proof fn split_from_ends(s: Seq<char>, c: char, i: int) {
    if 0 <= i <= s.len() {
        lemma_next_place(s, c, i);
    }
}

/// The parts of a text between the places of a character.
pub open spec fn split(s: Seq<char>, c: char) -> Seq<Seq<char>> {
    split_from(s, c, 0)
}

pub fn split_text(s: &str, c: char) -> (r: Vec<String>)
    ensures
        strings(r@) == split(s@, c),
        r.len() > 0,
{
    let v = chars_of(s);
    let mut out: Vec<String> = Vec::new();
    let mut start: usize = 0;
    let mut i: usize = 0;
    assert(strings(out@) + split_from(s@, c, 0) =~= split(s@, c));
    while i < v.len()
        invariant
            start <= i <= v.len(),
            v@ == s@,
            next_place(s@, c, i as int) == next_place(s@, c, start as int),
            strings(out@) + split_from(s@, c, start as int) == split(s@, c),
        decreases v.len() - i,
    {
        if v[i] == c {
            let part = string_of_range(&v, start, i);
            proof {
                lemma_strings_push(out@, part);
                assert(split_from(s@, c, start as int) =~= seq![part@] + split_from(
                    s@,
                    c,
                    i + 1,
                ));
                assert(strings(out@) + (seq![part@] + split_from(s@, c, i + 1)) =~= strings(
                    out@,
                ).push(part@) + split_from(s@, c, i + 1));
            }
            out.push(part);
            start = i + 1;
        }
        i += 1;
    }
    let part = string_of_range(&v, start, i);
    proof {
        lemma_strings_push(out@, part);
        assert(split_from(s@, c, start as int) =~= seq![part@]);
        assert(strings(out@).push(part@) =~= split(s@, c));
    }
    out.push(part);
    out
}

/// The end of a run of a character that starts at `i`.
pub open spec fn run_end(s: Seq<char>, c: char, i: int) -> int
    decreases s.len() - i,
{
    if 0 <= i < s.len() && s[i] == c {
        run_end(s, c, i + 1)
    } else {
        i
    }
}

/// The start of a run of a character that ends at `i`, `from` at the least.
pub open spec fn run_start(s: Seq<char>, c: char, from: int, i: int) -> int
    decreases i - from,
{
    if from < i <= s.len() && s[i - 1] == c {
        run_start(s, c, from, i - 1)
    } else {
        i
    }
}

/// A text without the characters `a` at its start and without `b` at its end.
pub open spec fn strip(s: Seq<char>, a: char, b: char) -> Seq<char> {
    let from = run_end(s, a, 0);
    s.subrange(from, run_start(s, b, from, s.len() as int))
}

pub fn stripped(s: &str, a: char, b: char) -> (r: String)
    ensures
        r@ == strip(s@, a, b),
{
    let v = chars_of(s);
    let mut from: usize = 0;
    while from < v.len() && v[from] == a
        invariant
            from <= v.len(),
            run_end(v@, a, from as int) == run_end(v@, a, 0),
        decreases v.len() - from,
    {
        from += 1;
    }
    let mut to: usize = v.len();
    while from < to && v[to - 1] == b
        invariant
            from <= to <= v.len(),
            run_start(v@, b, from as int, to as int) == run_start(
                v@,
                b,
                from as int,
                v@.len() as int,
            ),
        decreases to,
    {
        to -= 1;
    }
    string_of_range(&v, from, to)
}

/// Whether one text starts with another.
pub fn starts_with(s: &str, w: &str) -> (r: bool)
    ensures
        r == w@.is_prefix_of(s@),
{
    let v = chars_of(s);
    let p = chars_of(w);
    if v.len() < p.len() {
        return false;
    }
    let mut i: usize = 0;
    while i < p.len()
        invariant
            i <= p.len() <= v.len(),
            v@ == s@,
            p@ == w@,
            forall|k: int| 0 <= k < i ==> (#[trigger] p@[k]) == v@[k],
        decreases p.len() - i,
    {
        if p[i] != v[i] {
            return false;
        }
        i += 1;
    }
    assert(w@ =~= s@.take(w@.len() as int));
    true
}

/// A text without the word `p` at its start, however often it stands there.
pub open spec fn without_prefix(s: Seq<char>, p: Seq<char>) -> Seq<char>
    decreases s.len(),
{
    if p.len() > 0 && p.is_prefix_of(s) {
        without_prefix(s.skip(p.len() as int), p)
    } else {
        s
    }
}

pub fn strip_prefix(s: &str, p: &str) -> (r: String)
    ensures
        r@ == without_prefix(s@, p@),
{
    let n: usize = chars_of(p).len();
    let mut cur = s.to_owned();
    if n == 0 {
        return cur;
    }
    while starts_with(cur.as_str(), p)
        invariant
            n == p@.len(),
            n > 0,
            without_prefix(cur@, p@) == without_prefix(s@, p@),
        decreases cur@.len(),
    {
        let v = chars_of(cur.as_str());
        assert(p@.len() <= cur@.len());
        cur = string_of_range(&v, n, v.len());
        assert(cur@ =~= v@.skip(n as int));
    }
    cur
}

/// A text without the characters `c` at its end.
pub open spec fn without_end(s: Seq<char>, c: char) -> Seq<char> {
    s.take(run_start(s, c, 0, s.len() as int))
}

pub fn strip_end(s: &str, c: char) -> (r: String)
    ensures
        r@ == without_end(s@, c),
{
    let v = chars_of(s);
    let mut to: usize = v.len();
    while 0 < to && v[to - 1] == c
        invariant
            to <= v.len(),
            run_start(v@, c, 0, to as int) == run_start(v@, c, 0, v@.len() as int),
        decreases to,
    {
        to -= 1;
    }
    let r = string_of_range(&v, 0, to);
    assert(r@ =~= without_end(s@, c));
    r
}

/// Whether a text holds another.
pub open spec fn holds(s: Seq<char>, w: Seq<char>) -> bool {
    exists|i: int| #[trigger] stands_at(s, w, i)
}

/// Whether a text holds another at a place.
pub open spec fn stands_at(s: Seq<char>, w: Seq<char>, i: int) -> bool {
    0 <= i && i + w.len() <= s.len() && s.subrange(i, i + w.len()) == w
}

pub fn contains(s: &str, w: &str) -> (r: bool)
    ensures
        r == holds(s@, w@),
{
    let v = chars_of(s);
    let p = chars_of(w);
    if v.len() < p.len() {
        return false;
    }
    let n: usize = v.len();
    let last: usize = n - p.len();
    let mut i: usize = 0;
    loop
        invariant
            i <= last,
            n == v@.len(),
            last == v@.len() - p@.len(),
            v@ == s@,
            p@ == w@,
            forall|k: int| 0 <= k < i ==> !#[trigger] stands_at(s@, w@, k),
        decreases last - i,
    {
        let mut j: usize = 0;
        while j < p.len() && v[i + j] == p[j]
            invariant
                i <= last,
                n == v@.len(),
                j <= p@.len(),
                last == v@.len() - p@.len(),
                forall|k: int| 0 <= k < j ==> v@[i + k] == #[trigger] p@[k],
            decreases p@.len() - j,
        {
            j += 1;
        }
        if j == p.len() {
            assert(s@.subrange(i as int, i + w@.len()) =~= w@);
            assert(stands_at(s@, w@, i as int));
            return true;
        }
        assert(!stands_at(s@, w@, i as int)) by {
            assert(v@[i + j] != p@[j as int]);
            if stands_at(s@, w@, i as int) {
                assert(s@.subrange(i as int, i + w@.len())[j as int] == w@[j as int]);
            }
        }
        if i == last {
            return false;
        }
        i += 1;
    }
}

/// The end of the word that starts at `i`.
pub open spec fn word_end(s: Seq<char>, i: int) -> int
    decreases s.len() - i,
{
    if 0 <= i < s.len() && !is_space(s[i]) {
        word_end(s, i + 1)
    } else {
        i
    }
}

proof fn lemma_word_end(s: Seq<char>, i: int)
    requires
        0 <= i <= s.len(),
    ensures
        i <= word_end(s, i) <= s.len(),
        i < s.len() && !is_space(s[i]) ==> i < word_end(s, i),
    decreases s.len() - i,
{
    if i < s.len() && !is_space(s[i]) {
        lemma_word_end(s, i + 1);
    }
}

/// The words from `i` on, which white space parts.
pub open spec fn words_from(s: Seq<char>, i: int) -> Seq<Seq<char>>
    decreases s.len() - i,
    when 0 <= i <= s.len()
    via words_from_ends
{
    let from = space_end(s, i);
    if from >= s.len() {
        Seq::empty()
    } else {
        let to = word_end(s, from);
        seq![s.subrange(from, to)] + words_from(s, to)
    }
}

#[via_fn]
proof fn words_from_ends(s: Seq<char>, i: int) {
    if 0 <= i <= s.len() {
        lemma_space_end(s, i);
        lemma_word_end(s, space_end(s, i));
    }
}

/// The words of a text, which white space parts.
pub open spec fn split_words(s: Seq<char>) -> Seq<Seq<char>> {
    words_from(s, 0)
}

pub fn words_of(s: &str) -> (r: Vec<String>)
    ensures
        strings(r@) == split_words(s@),
{
    let v = chars_of(s);
    let ghost all = split_words(s@);
    let mut out: Vec<String> = Vec::new();
    let mut i: usize = 0;
    assert(strings(out@) + words_from(v@, 0) =~= all);
    loop
        invariant
            i <= v@.len(),
            v@ == s@,
            strings(out@) + words_from(v@, i as int) == all,
            all == split_words(s@),
        decreases v@.len() - i,
    {
        let mut from: usize = i;
        while from < v.len() && char_is_space(v[from])
            invariant
                i <= from <= v.len(),
                space_end(v@, from as int) == space_end(v@, i as int),
            decreases v.len() - from,
        {
            from += 1;
        }
        proof {
            lemma_space_end(v@, i as int);
        }
        if from == v.len() {
            assert(words_from(v@, i as int) =~= Seq::<Seq<char>>::empty());
            assert(strings(out@) =~= all);
            return out;
        }
        let mut to: usize = from;
        while to < v.len() && !char_is_space(v[to])
            invariant
                from <= to <= v.len(),
                word_end(v@, to as int) == word_end(v@, from as int),
            decreases v.len() - to,
        {
            to += 1;
        }
        proof {
            lemma_word_end(v@, from as int);
        }
        let ghost before = strings(out@);
        let w = string_of_range(&v, from, to);
        out.push(w);
        proof {
            assert(strings(out@) =~= before.push(w@));
            assert(words_from(v@, i as int) == seq![w@] + words_from(v@, to as int));
            assert(before + (seq![w@] + words_from(v@, to as int)) =~= before.push(w@)
                + words_from(v@, to as int));
        }
        i = to;
    }
}

/// A line without the carriage return before its end.
pub open spec fn without_return(s: Seq<char>) -> Seq<char> {
    if s.len() > 0 && s.last() == '\r' {
        s.drop_last()
    } else {
        s
    }
}

/// The lines of a text: what line feeds end, with or without a carriage return before, and
/// what is left behind the last.
pub open spec fn lines_of(s: Seq<char>) -> Seq<Seq<char>> {
    let parts = split(s, '\n');
    let ended = parts.drop_last().map_values(|p: Seq<char>| without_return(p));
    if parts.last().len() == 0 {
        ended
    } else {
        ended.push(parts.last())
    }
}

pub fn split_lines(s: &str) -> (r: Vec<String>)
    ensures
        strings(r@) == lines_of(s@),
{
    let parts = split_text(s, '\n');
    let ghost t = strings(parts@);
    proof {
        lemma_split_some(s@, '\n', 0);
        assert(t.len() > 0);
    }
    let ghost ended = t.drop_last().map_values(|p: Seq<char>| without_return(p));
    let n: usize = parts.len() - 1;
    let mut out: Vec<String> = Vec::new();
    let mut i: usize = 0;
    while i < n
        invariant
            i <= n,
            n == parts@.len() - 1,
            t == strings(parts@),
            ended == t.drop_last().map_values(|p: Seq<char>| without_return(p)),
            out@.len() == i,
            forall|k: int| 0 <= k < i ==> (#[trigger] out@[k])@ == ended[k],
        decreases n - i,
    {
        let v = chars_of(parts[i].as_str());
        assert(ended[i as int] == without_return(t[i as int]));
        let x = if v.len() > 0 && v[v.len() - 1] == '\r' {
            let x = string_of_range(&v, 0, v.len() - 1);
            assert(x@ =~= v@.drop_last());
            x
        } else {
            parts[i].clone()
        };
        out.push(x);
        i += 1;
    }
    assert(strings(out@) =~= ended);
    assert(t.last() == parts@[n as int]@);
    if !parts[n].as_str().is_empty() {
        out.push(parts[n].clone());
        assert(strings(out@) =~= ended.push(t.last()));
    }
    out
}

proof fn lemma_split_some(s: Seq<char>, c: char, i: int)
    requires
        0 <= i <= s.len(),
    ensures
        split_from(s, c, i).len() > 0,
{
    lemma_next_place(s, c, i);
}

// --- sorted texts --------------------------------------------------------------------------------

/// Whether texts ascend, each standing there once.
pub open spec fn texts_ascend(v: Seq<Seq<char>>) -> bool {
    forall|i: int, j: int|
        0 <= i < j < v.len() ==> text_rank(#[trigger] v[i], #[trigger] v[j]) == Rank::Less
}

/// Puts a text among texts that ascend, unless it is there already.
pub fn put_sorted(v: &mut Vec<String>, s: &str)
    requires
        texts_ascend(strings(old(v)@)),
    ensures
        texts_ascend(strings(final(v)@)),
        forall|x: Seq<char>| #[trigger]
            strings(final(v)@).contains(x) <==> strings(old(v)@).contains(x) || x == s@,
{
    let ghost v0 = v@;
    let ghost r0 = strings(v0);
    let mut i: usize = 0;
    while i < v.len() && rank_text(v[i].as_str(), s) == Rank::Less
        invariant
            i <= v.len(),
            v@ == v0,
            r0 == strings(v0),
            forall|k: int| 0 <= k < i ==> text_rank(#[trigger] r0[k], s@) == Rank::Less,
        decreases v.len() - i,
    {
        assert(r0[i as int] == v0[i as int]@);
        i += 1;
    }
    if i < v.len() && eq_text(v[i].as_str(), s) {
        assert(r0[i as int] == s@);
        return;
    }
    v.insert(i, s.to_owned());
    proof {
        let r = strings(v@);
        assert(r =~= r0.insert(i as int, s@));
        if i < r0.len() {
            assert(r0[i as int] == v0[i as int]@);
            lemma_text_rank_equal(r0[i as int], s@);
            lemma_text_rank_reversed(r0[i as int], s@);
        }
        assert forall|a: int, b: int| 0 <= a < b < r.len() implies text_rank(
            #[trigger] r[a],
            #[trigger] r[b],
        ) == Rank::Less by {
            if b < i {
                assert(r[a] == r0[a] && r[b] == r0[b]);
            } else if b == i {
                assert(r[a] == r0[a]);
            } else {
                assert(r[b] == r0[b - 1]);
                // What follows the new text was not less than it.
                if b - 1 > i {
                    assert(text_rank(r0[i as int], r0[b - 1]) == Rank::Less);
                    lemma_text_rank_transitive(s@, r0[i as int], r0[b - 1]);
                }
                assert(text_rank(s@, r[b]) == Rank::Less);
                if a < i {
                    assert(r[a] == r0[a]);
                    lemma_text_rank_transitive(r[a], s@, r[b]);
                } else if a > i {
                    assert(r[a] == r0[a - 1]);
                }
            }
        }
        assert forall|x: Seq<char>| #[trigger] r.contains(x) <==> r0.contains(x) || x == s@ by {
            if r0.contains(x) {
                let k = choose|k: int| 0 <= k < r0.len() && r0[k] == x;
                if k < i {
                    assert(r[k] == x);
                } else {
                    assert(r[k + 1] == x);
                }
            }
            if x == s@ {
                assert(r[i as int] == x);
            }
            if r.contains(x) {
                let k = choose|k: int| 0 <= k < r.len() && r[k] == x;
                if k < i {
                    assert(r0[k] == x);
                } else if k > i {
                    assert(r0[k - 1] == x);
                }
            }
        }
    }
}

// --- what std says of texts that are no numbers -----------------------------------------------

/// What std says of a text that is no number that fits.
pub open spec fn int_error(s: Seq<char>) -> Seq<char> {
    if s.len() == 0 {
        "cannot parse integer from empty string"@
    } else if natural(s) is None {
        "invalid digit found in string"@
    } else {
        "number too large to fit in target type"@
    }
}

/// What std says of a text that is no floating-point number.
pub open spec fn float_error(s: Seq<char>) -> Seq<char> {
    if s.len() == 0 {
        "cannot parse float from empty string"@
    } else {
        "invalid float literal"@
    }
}

pub fn usize_in(s: &str) -> (r: Result<usize, Error>)
    ensures
        match r {
            Ok(n) => natural(s@) == Some(n as nat),
            Err(e) => e@ == int_error(s@) && !(natural(s@) matches Some(n) && n <= usize::MAX),
        },
{
    match parse_usize(s) {
        Some(n) => Ok(n),
        None => {
            let v = chars_of(s);
            if v.len() == 0 {
                return Err(err("cannot parse integer from empty string".to_owned()));
            }
            let mut i: usize = if v[0] == '+' {
                1
            } else {
                0
            };
            let ghost from = i as int;
            let mut digits: bool = i < v.len();
            assert(s@.skip(0) =~= s@);
            while i < v.len()
                invariant
                    from <= i <= v.len(),
                    0 <= from <= 1,
                    v@ == s@,
                    digits ==> from < v.len() && forall|k: int|
                        from <= k < i ==> is_digit(#[trigger] s@[k]),
                    !digits ==> from == v.len() || exists|k: int|
                        from <= k < i && !is_digit(#[trigger] s@[k]),
                decreases v.len() - i,
            {
                if !(v[i] >= '0' && v[i] <= '9') {
                    assert(!is_digit(s@[i as int]));
                    digits = false;
                }
                i += 1;
            }
            proof {
                let t = s@.skip(from);
                if digits {
                    assert forall|k: int| 0 <= k < t.len() implies is_digit(#[trigger] t[k]) by {
                        assert(is_digit(s@[from + k]));
                    }
                    assert(all_digits(t));
                } else {
                    if from < v.len() {
                        let k = choose|k: int| from <= k < v.len() && !is_digit(#[trigger] s@[k]);
                        assert(t[k - from] == s@[k]);
                    }
                    assert(!all_digits(t));
                    if from == 1 {
                        assert(!is_digit(s@[0]));
                        assert(!all_digits(s@));
                    }
                }
            }
            if digits {
                Err(err("number too large to fit in target type".to_owned()))
            } else {
                Err(err("invalid digit found in string".to_owned()))
            }
        },
    }
}

pub fn not_a_float(s: &str) -> (r: Error)
    ensures
        r@ == float_error(s@),
{
    if s.is_empty() {
        err("cannot parse float from empty string".to_owned())
    } else {
        err("invalid float literal".to_owned())
    }
}

// --- order by name -----------------------------------------------------------------------------

/// Whether texts do not descend.
pub open spec fn texts_sorted(v: Seq<Seq<char>>) -> bool {
    forall|i: int, j: int|
        0 <= i < j < v.len() ==> text_rank(#[trigger] v[i], #[trigger] v[j]) != Rank::Greater
}

/// What is kept in the order of a text of its own.
pub trait Named {
    spec fn key(&self) -> Seq<char>;

    fn key_text(&self) -> (r: &str)
        ensures
            r@ == self.key(),
    ;
}

impl Named for String {
    open spec fn key(&self) -> Seq<char> {
        self@
    }

    fn key_text(&self) -> (r: &str) {
        self.as_str()
    }
}

pub open spec fn keys<T: Named>(v: Seq<T>) -> Seq<Seq<char>> {
    Seq::new(v.len(), |i: int| v[i].key())
}

/// Puts an item behind those with a text that is no greater, and gives the place.
pub fn put_in_order<T: Named>(v: &mut Vec<T>, x: T) -> (r: usize)
    requires
        texts_sorted(keys(old(v)@)),
    ensures
        r <= old(v)@.len(),
        final(v)@ == old(v)@.insert(r as int, x),
        texts_sorted(keys(final(v)@)),
{
    let ghost k0 = keys(v@);
    let mut i: usize = v.len();
    while i > 0 && rank_text(v[i - 1].key_text(), x.key_text()) == Rank::Greater
        invariant
            i <= v.len(),
            keys(v@) == k0,
            v@ == old(v)@,
            forall|k: int| i <= k < k0.len() ==> text_rank(#[trigger] k0[k], x.key())
                == Rank::Greater,
        decreases i,
    {
        assert(k0[i - 1] == v@[i - 1].key());
        i -= 1;
    }
    let ghost s = x.key();
    proof {
        if i > 0 {
            assert(k0[i - 1] == v@[i - 1].key());
        }
    }
    v.insert(i, x);
    proof {
        let r = keys(v@);
        assert(r =~= k0.insert(i as int, s));
        assert forall|a: int, b: int| 0 <= a < b < r.len() implies text_rank(
            #[trigger] r[a],
            #[trigger] r[b],
        ) != Rank::Greater by {
            if b < i {
                assert(r[a] == k0[a] && r[b] == k0[b]);
            } else if b == i {
                assert(r[a] == k0[a]);
                if a < i - 1 {
                    assert(text_rank(k0[a], k0[i - 1]) != Rank::Greater);
                    lemma_text_rank_transitive(k0[a], k0[i - 1], s);
                }
            } else {
                assert(r[b] == k0[b - 1]);
                if a < i {
                    assert(r[a] == k0[a]);
                } else if a == i {
                    lemma_text_rank_reversed(k0[b - 1], s);
                } else {
                    assert(r[a] == k0[a - 1]);
                }
            }
        }
    }
    i
}

} // verus!
