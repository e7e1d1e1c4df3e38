//! The tokens of a statement, as the tokenizer of `sqlparser` cuts them.
//!
//! Two forms make `sqlparser` stop the program, and are found here before a text is parsed:
//! the parser does so on `FLUSH RELAY LOGS FOR CHANNEL` with no name behind it; and where its
//! assertions are compiled in, so does the text of a query with `LIMIT ALL BY`, which is asked
//! for where the query is a part of something else.
use crate::text::{eq_ignore_ascii_case, same_name};
use sqlparser::tokenizer::{Token as SqlToken, Tokenizer};
use vstd::prelude::*;
use vstd::string::*;

verus! {

broadcast use vstd::string::group_string_axioms;

#[verifier::external_type_specification]
#[verifier::external_body]
pub struct ExToken(SqlToken);

/// A token, as far as names and keywords go.
#[derive(Debug)]
pub enum Lexeme {
    /// A word, with the character that quotes it, if one does.
    Word { text: String, quote: Option<char> },
    /// A text in quotes.
    Text,
    Period,
    Open,
    Close,
    Semicolon,
    /// White space or a comment.
    Space,
    Other,
}

/// What a [`Lexeme`] is.
pub enum Mark {
    Word { text: Seq<char>, quote: Option<char> },
    Text,
    Period,
    Open,
    Close,
    Semicolon,
    Space,
    Other,
}

impl View for Lexeme {
    type V = Mark;

    open spec fn view(&self) -> Mark {
        match self {
            Lexeme::Word { text, quote } => Mark::Word { text: text@, quote: *quote },
            Lexeme::Text => Mark::Text,
            Lexeme::Period => Mark::Period,
            Lexeme::Open => Mark::Open,
            Lexeme::Close => Mark::Close,
            Lexeme::Semicolon => Mark::Semicolon,
            Lexeme::Space => Mark::Space,
            Lexeme::Other => Mark::Other,
        }
    }
}

pub open spec fn marks(v: Seq<Lexeme>) -> Seq<Mark> {
    Seq::new(v.len(), |i: int| v[i]@)
}

/// What a token of `sqlparser` holds.
pub uninterp spec fn token_mark(t: SqlToken) -> Mark;

/// The tokens of a text, or what is wrong with it.
pub uninterp spec fn tokenized(sql: Seq<char>) -> Result<Seq<Mark>, Seq<char>>;

pub open spec fn token_marks(v: Seq<SqlToken>) -> Seq<Mark> {
    Seq::new(v.len(), |i: int| token_mark(v[i]))
}

/// A `Token` of `sqlparser`, its variants told apart.
#[verifier::external_body]
fn token_of(t: &SqlToken) -> (r: Lexeme)
    ensures
        r@ == token_mark(*t),
{
    match t {
        SqlToken::Word(w) => Lexeme::Word { text: w.value.clone(), quote: w.quote_style },
        SqlToken::SingleQuotedString(_) => Lexeme::Text,
        SqlToken::DoubleQuotedString(_) => Lexeme::Text,
        SqlToken::Period => Lexeme::Period,
        SqlToken::LParen => Lexeme::Open,
        SqlToken::RParen => Lexeme::Close,
        SqlToken::SemiColon => Lexeme::Semicolon,
        SqlToken::Whitespace(_) => Lexeme::Space,
        _ => Lexeme::Other,
    }
}

/// `Tokenizer::tokenize` of `sqlparser` with the generic dialect: the tokens of the text,
/// white space and comments among them, or the text of the error; both depend on the text
/// alone.
#[verifier::external_body]
fn tokens_of(sql: &str) -> (r: Result<Vec<SqlToken>, String>)
    ensures
        tokenized(sql@) == (match r {
            Ok(v) => Ok(token_marks(v@)),
            Err(e) => Err(e@),
        }),
{
    let dialect = sqlparser::dialect::GenericDialect {};
    Tokenizer::new(&dialect, sql).tokenize().map_err(|e| e.to_string())
}

/// The tokens of a text.
pub fn tokenize(sql: &str) -> (r: Result<Vec<Lexeme>, String>)
    ensures
        match r {
            Ok(v) => tokenized(sql@) == Ok::<Seq<Mark>, Seq<char>>(marks(v@)),
            Err(e) => tokenized(sql@) == Err::<Seq<Mark>, Seq<char>>(e@),
        },
{
    let tokens = match tokens_of(sql) {
        Ok(v) => v,
        Err(e) => {
            return Err(e);
        },
    };
    let mut out: Vec<Lexeme> = Vec::new();
    let mut i: usize = 0;
    while i < tokens.len()
        invariant
            i <= tokens.len(),
            out.len() == i,
            forall|k: int| 0 <= k < i ==> (#[trigger] out[k])@ == token_mark(tokens@[k]),
        decreases tokens.len() - i,
    {
        out.push(token_of(&tokens[i]));
        i += 1;
    }
    assert(marks(out@) =~= token_marks(tokens@));
    Ok(out)
}

// --- names and keywords ----------------------------------------------------------------------

/// The tokens that are neither white space nor comments.
pub open spec fn seen(v: Seq<Mark>) -> Seq<Mark>
    decreases v.len(),
{
    if v.len() == 0 {
        Seq::empty()
    } else if v.last() is Space {
        seen(v.drop_last())
    } else {
        seen(v.drop_last()).push(v.last())
    }
}

/// Whether a keyword stands at a place: a word without quotes, in whatever case.
pub open spec fn keyword_at(v: Seq<Mark>, i: int, w: Seq<char>) -> bool {
    0 <= i < v.len() && (v[i] matches Mark::Word { text, quote } && quote is None && same_name(
        text,
        w,
    ))
}

/// Whether a name stands at a place: words or texts in quotes, a period between each two.
pub open spec fn name_at(v: Seq<Mark>, i: int) -> bool
    decreases v.len() - i,
{
    &&& 0 <= i < v.len()
    &&& v[i] is Word || v[i] is Text
    &&& i + 1 < v.len() && v[i + 1] is Period ==> name_at(v, i + 2)
}

/// Whether `RELAY LOGS FOR CHANNEL` stands at a place without a name behind it.
pub open spec fn unnamed_at(v: Seq<Mark>, i: int) -> bool {
    &&& keyword_at(v, i, "RELAY"@)
    &&& keyword_at(v, i + 1, "LOGS"@)
    &&& keyword_at(v, i + 2, "FOR"@)
    &&& keyword_at(v, i + 3, "CHANNEL"@)
    &&& !name_at(v, i + 4)
}

/// Whether `FLUSH` stands at a place and asks for the logs of a channel that it does not name.
pub open spec fn flushes_unnamed(v: Seq<Mark>, i: int) -> bool {
    keyword_at(v, i, "FLUSH"@) && if keyword_at(v, i + 1, "LOCAL"@) || keyword_at(
        v,
        i + 1,
        "NO_WRITE_TO_BINLOG"@,
    ) {
        unnamed_at(v, i + 2)
    } else {
        unnamed_at(v, i + 1)
    }
}

/// Whether some tokens hold such a statement, whatever stands before and behind it.
pub open spec fn holds_unnamed(v: Seq<Mark>) -> bool {
    exists|i: int| #[trigger] flushes_unnamed(v, i)
}

/// How many brackets are open behind the first `n` tokens.
pub open spec fn depth(v: Seq<Mark>, n: nat) -> int
    decreases n,
{
    if n == 0 || n > v.len() {
        0
    } else {
        depth(v, (n - 1) as nat) + match v[n - 1] {
            Mark::Open => 1int,
            Mark::Close => -1,
            _ => 0,
        }
    }
}

/// Whether a place belongs to a query that is the first statement itself, no part of one.
pub open spec fn outermost(v: Seq<Mark>, i: int) -> bool {
    &&& keyword_at(v, 0, "SELECT"@)
    &&& depth(v, i as nat) <= 0
    &&& forall|k: int| 0 <= k < i ==> !((#[trigger] v[k]) is Semicolon)
}

/// Whether `LIMIT ALL BY` stands at a place in a query that is part of something else.
pub open spec fn limits_inside(v: Seq<Mark>, i: int) -> bool {
    &&& keyword_at(v, i, "LIMIT"@)
    &&& keyword_at(v, i + 1, "ALL"@)
    &&& keyword_at(v, i + 2, "BY"@)
    &&& !outermost(v, i)
}

pub open spec fn holds_limit(v: Seq<Mark>) -> bool {
    exists|i: int| #[trigger] limits_inside(v, i)
}

/// Why the statements of some tokens are not taken, if they are not.
pub open spec fn refused(v: Seq<Mark>) -> Option<Seq<char>> {
    if holds_unnamed(seen(v)) {
        Some("FLUSH RELAY LOGS FOR CHANNEL: нет имени канала"@)
    } else if holds_limit(seen(v)) {
        Some("LIMIT ALL BY не поддерживается"@)
    } else {
        None
    }
}

/// Why a text is not taken, if it is not.
pub open spec fn refused_text(sql: Seq<char>) -> Option<Seq<char>> {
    match tokenized(sql) {
        Ok(v) => refused(v),
        Err(_) => None,
    }
}

fn is_keyword(v: &Vec<&Lexeme>, i: usize, w: &str) -> (r: bool)
    ensures
        r == keyword_at(places(v@), i as int, w@),
{
    if i >= v.len() {
        return false;
    }
    assert(places(v@)[i as int] == v@[i as int]@);
    match v[i] {
        Lexeme::Word { text, quote: None } => eq_ignore_ascii_case(text.as_str(), w),
        _ => false,
    }
}

spec fn places(v: Seq<&Lexeme>) -> Seq<Mark> {
    Seq::new(v.len(), |i: int| v[i]@)
}

fn is_name(v: &Vec<&Lexeme>, from: usize) -> (r: bool)
    ensures
        r == name_at(places(v@), from as int),
{
    let ghost p = places(v@);
    let mut i: usize = from;
    while i < v.len()
        invariant
            p == places(v@),
            name_at(p, i as int) == name_at(p, from as int),
        decreases v.len() - i,
    {
        assert(p[i as int] == v@[i as int]@);
        match v[i] {
            Lexeme::Word { .. } | Lexeme::Text => {},
            _ => {
                return false;
            },
        }
        if v.len() - i < 2 {
            return true;
        }
        assert(p[i + 1] == v@[i + 1]@);
        match v[i + 1] {
            Lexeme::Period => {},
            _ => {
                return true;
            },
        }
        if v.len() - i < 3 {
            assert(!name_at(p, i + 2));
            return false;
        }
        i += 2;
    }
    false
}

fn is_unnamed(v: &Vec<&Lexeme>, i: usize) -> (r: bool)
    requires
        i <= v.len(),
    ensures
        r == unnamed_at(places(v@), i as int),
{
    // Only where four words fit is there anything to look at.
    v.len() - i >= 4 && is_keyword(v, i, "RELAY") && is_keyword(v, i + 1, "LOGS") && is_keyword(
        v,
        i + 2,
        "FOR",
    ) && is_keyword(v, i + 3, "CHANNEL") && !is_name(v, i + 4)
}

fn find_unnamed(v: &Vec<&Lexeme>) -> (r: bool)
    ensures
        r == holds_unnamed(places(v@)),
{
    let ghost p = places(v@);
    let mut k: usize = 0;
    while k < v.len()
        invariant
            k <= v.len(),
            p == places(v@),
            forall|j: int| 0 <= j < k ==> !#[trigger] flushes_unnamed(p, j),
        decreases v.len() - k,
    {
        if is_keyword(v, k, "FLUSH") {
            let behind: usize = if is_keyword(v, k + 1, "LOCAL") || is_keyword(
                v,
                k + 1,
                "NO_WRITE_TO_BINLOG",
            ) {
                k + 2
            } else {
                k + 1
            };
            if is_unnamed(v, behind) {
                assert(flushes_unnamed(p, k as int));
                return true;
            }
        }
        k += 1;
    }
    false
}

fn find_limit(v: &Vec<&Lexeme>) -> (r: bool)
    ensures
        r == holds_limit(places(v@)),
{
    let ghost p = places(v@);
    let first: bool = is_keyword(v, 0, "SELECT");
    let mut open: i128 = 0;
    let mut whole: bool = true;
    let mut k: usize = 0;
    while k < v.len()
        invariant
            k <= v.len(),
            p == places(v@),
            first == keyword_at(p, 0, "SELECT"@),
            open == depth(p, k as nat),
            -k <= open <= k,
            whole == forall|j: int| 0 <= j < k ==> !((#[trigger] p[j]) is Semicolon),
            forall|j: int| 0 <= j < k ==> !#[trigger] limits_inside(p, j),
        decreases v.len() - k,
    {
        if v.len() - k >= 3 && is_keyword(v, k, "LIMIT") && is_keyword(v, k + 1, "ALL")
            && is_keyword(v, k + 2, "BY") && !(first && open <= 0 && whole) {
            assert(limits_inside(p, k as int));
            return true;
        }
        assert(p[k as int] == v@[k as int]@);
        match v[k] {
            Lexeme::Open => {
                open += 1;
            },
            Lexeme::Close => {
                open -= 1;
            },
            Lexeme::Semicolon => {
                whole = false;
            },
            _ => {},
        }
        k += 1;
    }
    false
}

/// Why the statements of some tokens are not taken, if they are not.
pub fn refusal_of(tokens: &Vec<Lexeme>) -> (r: Option<String>)
    ensures
        match r {
            Some(s) => refused(marks(tokens@)) == Some(s@),
            None => refused(marks(tokens@)) is None,
        },
{
    let ghost all = marks(tokens@);
    let mut v: Vec<&Lexeme> = Vec::new();
    let mut i: usize = 0;
    assert(all.take(0) =~= Seq::<Mark>::empty());
    assert(places(v@) =~= seen(all.take(0)));
    while i < tokens.len()
        invariant
            i <= tokens.len(),
            all == marks(tokens@),
            places(v@) == seen(all.take(i as int)),
        decreases tokens.len() - i,
    {
        let ghost before = v@;
        let t = &tokens[i];
        proof {
            assert(all.take(i + 1).drop_last() =~= all.take(i as int));
            assert(all.take(i + 1).last() == t@);
        }
        match t {
            Lexeme::Space => {},
            _ => {
                v.push(t);
                assert(places(v@) =~= places(before).push(t@));
            },
        }
        i += 1;
    }
    assert(all.take(i as int) =~= all);
    if find_unnamed(&v) {
        return Some("FLUSH RELAY LOGS FOR CHANNEL: нет имени канала".to_owned());
    }
    if find_limit(&v) {
        return Some("LIMIT ALL BY не поддерживается".to_owned());
    }
    None
}

} // verus!
