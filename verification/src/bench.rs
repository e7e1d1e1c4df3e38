//! What the benchmark computes: rows out of a file with tabs, made-up rows, and the report.
use crate::cli::{split_statements, statements};
use crate::column::{add_sizes, capped, cell_rows, cells, Cell, DataType, Value};
use crate::db::{put_rows, schema_in, table_named, Database, State};
use crate::float::{rank_total, total_rank, Floats, ZERO};
use crate::sql::statement::Catalog;
use crate::table::{
    inserted_many, lemma_many_alike, lemma_many_parts, lemma_many_stops, Attr, Field, Relation, Schema,
};
use crate::text::{
    chars_of, dec, dec_u64, dec_usize, eq_ignore_ascii_case, eq_text, err, integer, join,
    join_texts, lines_of, lowercase, natural, parse_i64, parse_usize, same_name, split, split_lines,
    split_text, split_words, starts_with, string_of_range, strings, strip_end, text2, text3, text4,
    text5, text6, trim, trim_start, trimmed, trimmed_start, without_end, words_of, Error, Rank,
};
use vstd::prelude::*;
use vstd::string::*;

verus! {

broadcast use vstd::string::group_string_axioms;

// --- statements in a file ----------------------------------------------------------------------

/// Whether a line is a comment.
pub open spec fn is_comment(line: Seq<char>) -> bool {
    "--"@.is_prefix_of(trim_start(line))
}

/// The first `n` lines without the comments.
pub open spec fn code_lines(v: Seq<Seq<char>>, n: nat) -> Seq<Seq<char>>
    decreases n,
{
    if n == 0 || n > v.len() {
        Seq::empty()
    } else {
        let out = code_lines(v, (n - 1) as nat);
        if is_comment(v[n - 1]) {
            out
        } else {
            out.push(v[n - 1])
        }
    }
}

/// The statements of a file: comments are taken out first, as they hold semicolons and
/// quotes.
pub open spec fn file_statements(text: Seq<char>) -> Seq<Seq<char>> {
    let v = lines_of(text);
    statements(join(code_lines(v, v.len()), "\n"@))
}

pub fn split_sql(text: &str) -> (r: Vec<String>)
    ensures
        strings(r@) == file_statements(text@),
{
    let v = split_lines(text);
    let ghost t = strings(v@);
    let mut code: Vec<String> = Vec::new();
    let mut i: usize = 0;
    assert(strings(code@) =~= Seq::<Seq<char>>::empty());
    while i < v.len()
        invariant
            i <= v.len(),
            t == strings(v@),
            strings(code@) == code_lines(t, i as nat),
        decreases v.len() - i,
    {
        assert(t[i as int] == v@[i as int]@);
        let bare = trimmed_start(v[i].as_str());
        if !starts_with(bare.as_str(), "--") {
            let ghost before = strings(code@);
            let line = v[i].clone();
            code.push(line);
            assert(strings(code@) =~= before.push(line@));
        }
        i += 1;
    }
    split_statements(join_texts(&code, "\n").as_str())
}

/// A statement on one line, cut after 110 characters.
pub open spec fn shortened(sql: Seq<char>) -> Seq<char> {
    let one = join(split_words(sql), " "@);
    if one.len() > 110 {
        one.take(110) + "…"@
    } else {
        one
    }
}

pub fn short(sql: &str) -> (r: String)
    ensures
        r@ == shortened(sql@),
{
    let one = join_texts(&words_of(sql), " ");
    let v = chars_of(one.as_str());
    if v.len() > 110 {
        let cut = string_of_range(&v, 0, 110);
        assert(cut@ =~= v@.take(110));
        text2(cut.as_str(), "…")
    } else {
        one
    }
}

/// The numbers in the first `n` of some texts.
pub open spec fn numbers_in(v: Seq<Seq<char>>, n: nat) -> Seq<usize>
    decreases n,
{
    if n == 0 || n > v.len() {
        Seq::empty()
    } else {
        let out = numbers_in(v, (n - 1) as nat);
        match natural(trim(v[n - 1])) {
            Some(k) if k <= usize::MAX => out.push(k as usize),
            _ => out,
        }
    }
}

/// The numbers of a list that commas part; what is no number is passed over.
pub fn number_list(s: &str) -> (r: Vec<usize>)
    ensures
        r@ == numbers_in(split(s@, ','), split(s@, ',').len()),
{
    let parts = split_text(s, ',');
    let ghost t = strings(parts@);
    let mut out: Vec<usize> = Vec::new();
    let mut i: usize = 0;
    while i < parts.len()
        invariant
            i <= parts.len(),
            t == strings(parts@),
            out@ == numbers_in(t, i as nat),
        decreases parts.len() - i,
    {
        assert(t[i as int] == parts@[i as int]@);
        let bare = trimmed(parts[i].as_str());
        if let Some(n) = parse_usize(bare.as_str()) {
            out.push(n);
        }
        i += 1;
    }
    out
}

// --- rows in a file with tabs ---------------------------------------------------------------------

/// What a letter behind a backslash stands for.
pub open spec fn unescaped_char(c: char) -> char {
    if c == 't' {
        '\t'
    } else if c == 'n' {
        '\n'
    } else if c == 'r' {
        '\r'
    } else if c == '0' {
        '\0'
    } else {
        c
    }
}

/// A field from place `i` on, where a backslash stands before a letter that stands for
/// another character; one at the end stands for itself.
pub open spec fn unescaped_from(s: Seq<char>, i: int) -> Seq<char>
    decreases s.len() - i,
{
    if i < 0 || i >= s.len() {
        Seq::empty()
    } else if s[i] != '\\' || i + 1 >= s.len() {
        seq![s[i]] + unescaped_from(s, i + 1)
    } else {
        seq![unescaped_char(s[i + 1])] + unescaped_from(s, i + 2)
    }
}

pub fn unescape_tsv(s: &str) -> (r: String)
    ensures
        r@ == unescaped_from(s@, 0),
{
    let v = chars_of(s);
    let mut out = String::new();
    let mut i: usize = 0;
    assert(out@ + unescaped_from(v@, 0) =~= unescaped_from(s@, 0));
    while i < v.len()
        invariant
            i <= v.len(),
            v@ == s@,
            out@ + unescaped_from(v@, i as int) == unescaped_from(s@, 0),
        decreases v.len() - i,
    {
        let ghost before = out@;
        if v[i] != '\\' || i + 1 >= v.len() {
            out.push(v[i]);
            assert(before + (seq![v@[i as int]] + unescaped_from(v@, i + 1)) =~= out@
                + unescaped_from(v@, i + 1));
            i += 1;
        } else {
            let c = match v[i + 1] {
                't' => '\t',
                'n' => '\n',
                'r' => '\r',
                '0' => '\0',
                c => c,
            };
            out.push(c);
            assert(before + (seq![c] + unescaped_from(v@, i + 2)) =~= out@ + unescaped_from(
                v@,
                i + 2,
            ));
            i += 2;
        }
    }
    assert(out@ + unescaped_from(v@, i as int) =~= out@);
    out
}

/// A field for a column of a type. One that holds no number stands for zero.
pub open spec fn field_cell<F: Floats>(f: Seq<char>, ty: DataType, fl: F) -> Result<
    Cell,
    Seq<char>,
> {
    match ty {
        DataType::I64 => Ok(
            Cell::I64(
                match integer(f) {
                    Some(x) if i64::MIN <= x <= i64::MAX => x as i64,
                    _ => 0,
                },
            ),
        ),
        DataType::F64 => Ok(
            Cell::F64(
                match fl.double_in(f) {
                    Some(x) => x,
                    None => ZERO,
                },
            ),
        ),
        DataType::Bool => Ok(Cell::Bool(f == "1"@ || same_name(f, "true"@))),
        DataType::Str => Ok(Cell::Str(unescaped_from(f, 0))),
        DataType::Vector(_) => Err("векторных колонок в hits.tsv нет"@),
    }
}

pub fn parse_field<F: Floats>(f: &str, ty: DataType, fl: &F) -> (r: Result<Value, Error>)
    requires
        fl.exact(),
    ensures
        match r {
            Ok(v) => field_cell(f@, ty, *fl) == Ok::<Cell, Seq<char>>(v@),
            Err(e) => field_cell(f@, ty, *fl) == Err::<Cell, Seq<char>>(e@),
        },
{
    match ty {
        DataType::I64 => match parse_i64(f) {
            Some(x) => Ok(Value::I64(x)),
            None => Ok(Value::I64(0)),
        },
        DataType::F64 => match fl.parse(f) {
            Some(x) => Ok(Value::F64(x)),
            None => Ok(Value::F64(ZERO)),
        },
        DataType::Bool => Ok(Value::Bool(eq_text(f, "1") || eq_ignore_ascii_case(f, "true"))),
        DataType::Str => Ok(Value::Str(unescape_tsv(f))),
        DataType::Vector(_) => Err(err("векторных колонок в hits.tsv нет".to_owned())),
    }
}

/// The first `n` fields.
pub open spec fn field_cells<F: Floats>(v: Seq<Seq<char>>, types: Seq<DataType>, n: nat, fl: F) -> Result<
    Seq<Cell>,
    Seq<char>,
>
    decreases n,
{
    if n == 0 || n > v.len() {
        Ok(Seq::empty())
    } else {
        match field_cells(v, types, (n - 1) as nat, fl) {
            Err(e) => Err(e),
            Ok(out) => match field_cell(v[n - 1], types[n - 1], fl) {
                Err(e) => Err(e),
                Ok(c) => Ok(out.push(c)),
            },
        }
    }
}

/// The row in a line, which is that of number `number`; none in an empty line.
pub open spec fn tsv_line<F: Floats>(
    line: Seq<char>,
    types: Seq<DataType>,
    number: int,
    fl: F,
) -> Result<Option<Seq<Cell>>, Seq<char>> {
    let row = without_end(without_end(line, '\n'), '\r');
    if row.len() == 0 {
        Ok(None)
    } else {
        let fields = split(row, '\t');
        if fields.len() != types.len() {
            Err(
                "строка "@ + dec(number) + ": полей "@ + dec(fields.len() as int) + ", в схеме "@
                    + dec(types.len() as int),
            )
        } else {
            match field_cells(fields, types, fields.len(), fl) {
                Err(e) => Err(e),
                Ok(x) => Ok(Some(x)),
            }
        }
    }
}

proof fn lemma_fields_err<F: Floats>(
    v: Seq<Seq<char>>,
    types: Seq<DataType>,
    k: nat,
    n: nat,
    fl: F,
)
    requires
        k <= n <= v.len(),
        field_cells(v, types, k, fl) is Err,
    ensures
        field_cells(v, types, n, fl) == field_cells(v, types, k, fl),
    decreases n - k,
{
    if k < n {
        lemma_fields_err(v, types, k, (n - 1) as nat, fl);
    }
}

/// The row in a line, which is that of number `number`; none in an empty line.
pub fn tsv_row<F: Floats>(line: &str, types: &Vec<DataType>, number: usize, fl: &F) -> (r: Result<
    Option<Vec<Value>>,
    Error,
>)
    requires
        fl.exact(),
    ensures
        match r {
            Ok(Some(x)) => tsv_line(line@, types@, number as int, *fl) == Ok::<
                Option<Seq<Cell>>,
                Seq<char>,
            >(Some(cells(x@))),
            Ok(None) => tsv_line(line@, types@, number as int, *fl) == Ok::<
                Option<Seq<Cell>>,
                Seq<char>,
            >(None),
            Err(e) => tsv_line(line@, types@, number as int, *fl) == Err::<
                Option<Seq<Cell>>,
                Seq<char>,
            >(e@),
        },
{
    let row = strip_end(strip_end(line, '\n').as_str(), '\r');
    if row.as_str().is_empty() {
        return Ok(None);
    }
    let fields = split_text(row.as_str(), '\t');
    let ghost t = strings(fields@);
    if fields.len() != types.len() {
        return Err(
            err(
                text6(
                    "строка ",
                    dec_usize(number).as_str(),
                    ": полей ",
                    dec_usize(fields.len()).as_str(),
                    ", в схеме ",
                    dec_usize(types.len()).as_str(),
                ),
            ),
        );
    }
    let mut out: Vec<Value> = Vec::new();
    let mut i: usize = 0;
    assert(cells(out@) =~= Seq::<Cell>::empty());
    while i < fields.len()
        invariant
            i <= fields.len(),
            fl.exact(),
            fields@.len() == types@.len(),
            t == strings(fields@),
            row@.len() > 0,
            row@ == without_end(without_end(line@, '\n'), '\r'),
            t == split(row@, '\t'),
            field_cells(t, types@, i as nat, *fl) == Ok::<Seq<Cell>, Seq<char>>(cells(out@)),
        decreases fields.len() - i,
    {
        assert(t[i as int] == fields@[i as int]@);
        match parse_field(fields[i].as_str(), types[i], fl) {
            Ok(v) => {
                let ghost before = cells(out@);
                out.push(v);
                assert(cells(out@) =~= before.push(v@));
            },
            Err(e) => {
                proof {
                    lemma_fields_err(t, types@, (i + 1) as nat, t.len(), *fl);
                }
                return Err(e);
            },
        }
        i += 1;
    }
    Ok(Some(out))
}

// --- made-up rows ------------------------------------------------------------------------------------

/// The next state of the generator.
pub open spec fn lcg_step(s: u64) -> u64 {
    ((s * 6_364_136_223_846_793_005 + 1_442_695_040_888_963_407) % 0x1_0000_0000_0000_0000) as u64
}

/// What the generator gives in a state.
pub open spec fn lcg_value(s: u64) -> u64 {
    lcg_step(s) / 2
}

/// What the generator gives in a state, below `n`.
pub open spec fn lcg_below(s: u64, n: u64) -> u64 {
    if n == 0 {
        0
    } else {
        lcg_value(s) % n
    }
}

/// A linear congruential generator: the same state gives the same numbers.
#[derive(Debug)]
pub struct Lcg(pub u64);

impl Lcg {
    pub fn next(&mut self) -> (r: u64)
        ensures
            final(self).0 == lcg_step(old(self).0),
            r == lcg_value(old(self).0),
            r < 0x8000_0000_0000_0000,
    {
        let x: u128 = (self.0 as u128) * 6_364_136_223_846_793_005u128
            + 1_442_695_040_888_963_407u128;
        self.0 = (x % 0x1_0000_0000_0000_0000u128) as u64;
        self.0 / 2
    }

    pub fn next_below(&mut self, n: u64) -> (r: u64)
        ensures
            final(self).0 == (if n == 0 {
                old(self).0
            } else {
                lcg_step(old(self).0)
            }),
            r == lcg_below(old(self).0, n),
            n > 0 ==> r < n,
    {
        if n == 0 {
            0
        } else {
            self.next() % n
        }
    }
}

/// What the fields of a made-up row have in common.
#[derive(Debug)]
pub struct Hit {
    pub user: i64,
    pub host: String,
    pub path: u64,
    pub phrase: String,
    pub counter: i64,
    pub time: i64,
}

/// What a [`Hit`] is.
#[verifier::ext_equal]
pub struct Visit {
    pub user: i64,
    pub host: Seq<char>,
    pub path: u64,
    pub phrase: Seq<char>,
    pub counter: i64,
    pub time: i64,
}

impl View for Hit {
    type V = Visit;

    open spec fn view(&self) -> Visit {
        Visit {
            user: self.user,
            host: self.host@,
            path: self.path,
            phrase: self.phrase@,
            counter: self.counter,
            time: self.time,
        }
    }
}

pub open spec fn host_named(k: u64) -> Seq<char> {
    if k == 0 {
        "google.com"@
    } else if k == 1 {
        "yandex.ru"@
    } else if k == 2 {
        "vk.com"@
    } else if k == 3 {
        "example.org"@
    } else {
        "shop.test"@
    }
}

pub open spec fn phrase_named(k: u64) -> Seq<char> {
    if k == 0 {
        "купить чай"@
    } else if k == 1 {
        "погода чита"@
    } else if k == 2 {
        "google translate"@
    } else if k == 3 {
        "рецепт какао"@
    } else {
        ""@
    }
}

/// What the fields of the `i`-th row have in common, and the state of the generator after
/// it. Every third row is of the counter that the queries of the benchmark ask for.
pub open spec fn visit(i: nat, s: u64) -> (Visit, u64) {
    let s1 = lcg_step(s);
    let s2 = lcg_step(s1);
    let s3 = lcg_step(s2);
    let s4 = lcg_step(s3);
    let s5 = if i % 3 == 0 {
        s4
    } else {
        lcg_step(s4)
    };
    (
        Visit {
            user: lcg_below(s, 1_000_000) as i64,
            host: host_named(lcg_below(s1, 5)),
            path: lcg_below(s2, 10_000),
            phrase: phrase_named(lcg_below(s3, 5)),
            counter: if i % 3 == 0 {
                62
            } else {
                lcg_below(s4, 1000) as i64
            },
            time: (1_372_636_800 + lcg_below(s5, 2_592_000)) as i64,
        },
        lcg_step(s5),
    )
}

fn next_hit(i: usize, rng: &mut Lcg) -> (r: Hit)
    ensures
        (r@, final(rng).0) == visit(i as nat, old(rng).0),
        r.path < 10_000,
        1_372_636_800 <= r.time < 1_375_228_800,
{
    let user = rng.next_below(1_000_000) as i64;
    let host = match rng.next_below(5) {
        0 => "google.com",
        1 => "yandex.ru",
        2 => "vk.com",
        3 => "example.org",
        _ => "shop.test",
    };
    let path = rng.next_below(10_000);
    let phrase = match rng.next_below(5) {
        0 => "купить чай",
        1 => "погода чита",
        2 => "google translate",
        3 => "рецепт какао",
        _ => "",
    };
    let counter = if i % 3 == 0 {
        62
    } else {
        rng.next_below(1000) as i64
    };
    let time = 1_372_636_800 + rng.next_below(2_592_000) as i64;
    Hit { user, host: host.to_owned(), path, phrase: phrase.to_owned(), counter, time }
}

pub open spec fn one_in(s: u64, n: u64) -> Cell {
    Cell::I64(
        if lcg_below(s, n) == 0 {
            1
        } else {
            0
        },
    )
}

/// A field of a made-up row by its name, else by its type, and the state of the generator
/// after it.
pub open spec fn made_field<F: Floats>(h: Visit, a: Attr, s: u64, fl: F) -> (Cell, u64) {
    let n = a.name;
    if n == "WatchID"@ {
        (Cell::I64(lcg_value(s) as i64), lcg_step(s))
    } else if n == "UserID"@ {
        (Cell::I64(h.user), s)
    } else if n == "CounterID"@ {
        (Cell::I64(h.counter), s)
    } else if n == "EventTime"@ || n == "ClientEventTime"@ || n == "LocalEventTime"@ {
        (Cell::I64(h.time), s)
    } else if n == "EventDate"@ {
        (Cell::I64((h.time as int / 86_400) as i64), s)
    } else if n == "URL"@ || n == "OriginalURL"@ {
        (Cell::Str("http://"@ + h.host + "/page/"@ + dec(h.path as int)), s)
    } else if n == "Referer"@ {
        (Cell::Str("http://"@ + h.host + "/"@), s)
    } else if n == "Title"@ {
        (Cell::Str("Страница "@ + dec(h.path as int) + " — "@ + h.host), s)
    } else if n == "SearchPhrase"@ {
        (Cell::Str(h.phrase), s)
    } else if n == "URLHash"@ {
        (Cell::I64((h.path * 1_000_003) as i64), s)
    } else if n == "RefererHash"@ {
        (Cell::I64(3_594_120_000_172_545_465), s)
    } else if n == "TraficSourceID"@ {
        (Cell::I64((lcg_below(s, 8) - 1) as i64), lcg_step(s))
    } else if n == "ResolutionWidth"@ {
        (Cell::I64((800 + lcg_below(s, 1200)) as i64), lcg_step(s))
    } else if n == "IsRefresh"@ || n == "DontCountHits"@ || n == "IsDownload"@ || n
        == "IsArtifical"@ {
        (one_in(s, 20), lcg_step(s))
    } else if n == "IsLink"@ {
        (one_in(s, 3), lcg_step(s))
    } else {
        match a.ty {
            DataType::I64 => (Cell::I64(lcg_below(s, 100) as i64), lcg_step(s)),
            DataType::F64 => (Cell::F64(fl.from_int(lcg_below(s, 100) as i64)), lcg_step(s)),
            DataType::Bool => (Cell::Bool(lcg_below(s, 2) == 1), lcg_step(s)),
            DataType::Str => (Cell::Str(Seq::empty()), s),
            DataType::Vector(d) => (Cell::Vector(Seq::new(d as nat, |i: int| 0u32)), s),
        }
    }
}

fn zeros(n: usize) -> (r: Vec<u32>)
    ensures
        r@ == Seq::new(n as nat, |i: int| 0u32),
{
    let mut v: Vec<u32> = Vec::new();
    while v.len() < n
        invariant
            v@.len() <= n,
            forall|k: int| 0 <= k < v@.len() ==> #[trigger] v@[k] == 0u32,
        decreases n - v.len(),
    {
        v.push(0);
    }
    assert(v@ =~= Seq::new(n as nat, |i: int| 0u32));
    v
}

fn chance(rng: &mut Lcg, n: u64) -> (r: Value)
    requires
        n > 0,
    ensures
        r@ == one_in(old(rng).0, n),
        final(rng).0 == lcg_step(old(rng).0),
{
    if rng.next_below(n) == 0 {
        Value::I64(1)
    } else {
        Value::I64(0)
    }
}

#[verifier::rlimit(40)]
fn make_field<F: Floats>(h: &Hit, f: &Field, rng: &mut Lcg, fl: &F) -> (r: Value)
    requires
        fl.exact(),
        h.path < 10_000,
        0 <= h.time,
    ensures
        (r@, final(rng).0) == made_field(
            h@,
            Attr { name: f.name@, ty: f.ty },
            old(rng).0,
            *fl,
        ),
{
    let n = f.name.as_str();
    if eq_text(n, "WatchID") {
        return Value::I64(rng.next() as i64);
    }
    if eq_text(n, "UserID") {
        return Value::I64(h.user);
    }
    if eq_text(n, "CounterID") {
        return Value::I64(h.counter);
    }
    if eq_text(n, "EventTime") || eq_text(n, "ClientEventTime") || eq_text(n, "LocalEventTime") {
        return Value::I64(h.time);
    }
    if eq_text(n, "EventDate") {
        return Value::I64(h.time / 86_400);
    }
    if eq_text(n, "URL") || eq_text(n, "OriginalURL") {
        return Value::Str(
            text4("http://", h.host.as_str(), "/page/", dec_u64(h.path).as_str()),
        );
    }
    if eq_text(n, "Referer") {
        return Value::Str(text3("http://", h.host.as_str(), "/"));
    }
    if eq_text(n, "Title") {
        return Value::Str(
            text4("Страница ", dec_u64(h.path).as_str(), " — ", h.host.as_str()),
        );
    }
    if eq_text(n, "SearchPhrase") {
        return Value::Str(h.phrase.clone());
    }
    if eq_text(n, "URLHash") {
        return Value::I64(h.path as i64 * 1_000_003);
    }
    if eq_text(n, "RefererHash") {
        return Value::I64(3_594_120_000_172_545_465);
    }
    if eq_text(n, "TraficSourceID") {
        return Value::I64(rng.next_below(8) as i64 - 1);
    }
    if eq_text(n, "ResolutionWidth") {
        return Value::I64(800 + rng.next_below(1200) as i64);
    }
    if eq_text(n, "IsRefresh") || eq_text(n, "DontCountHits") || eq_text(n, "IsDownload")
        || eq_text(n, "IsArtifical") {
        return chance(rng, 20);
    }
    if eq_text(n, "IsLink") {
        return chance(rng, 3);
    }
    match f.ty {
        DataType::I64 => Value::I64(rng.next_below(100) as i64),
        DataType::F64 => Value::F64(fl.of_int(rng.next_below(100) as i64)),
        DataType::Bool => Value::Bool(rng.next_below(2) == 1),
        DataType::Str => {
            let s = String::new();
            assert(s@ =~= Seq::<char>::empty());
            Value::Str(s)
        },
        DataType::Vector(d) => Value::Vector(zeros(d)),
    }
}

/// The first `n` fields of a made-up row, and the state of the generator after them.
pub open spec fn made_fields<F: Floats>(h: Visit, a: Seq<Attr>, n: nat, s: u64, fl: F) -> (
    Seq<Cell>,
    u64,
)
    decreases n,
{
    if n == 0 || n > a.len() {
        (Seq::empty(), s)
    } else {
        let (out, s1) = made_fields(h, a, (n - 1) as nat, s, fl);
        let (c, s2) = made_field(h, a[n - 1], s1, fl);
        (out.push(c), s2)
    }
}

/// `n` made-up rows from the one of number `from` on, and the state of the generator after
/// them.
pub open spec fn made_rows<F: Floats>(a: Seq<Attr>, from: nat, n: nat, s: u64, fl: F) -> (
    Seq<Seq<Cell>>,
    u64,
)
    decreases n,
{
    if n == 0 {
        (Seq::empty(), s)
    } else {
        let (out, s1) = made_rows(a, from, (n - 1) as nat, s, fl);
        let (h, s2) = visit((from + n - 1) as nat, s1);
        let (row, s3) = made_fields(h, a, a.len(), s2, fl);
        (out.push(row), s3)
    }
}

/// `n` made-up rows from the one of number `from` on.
pub fn make_rows<F: Floats>(schema: &Schema, from: usize, n: usize, rng: &mut Lcg, fl: &F) -> (r:
    Vec<Vec<Value>>)
    requires
        fl.exact(),
        from + n <= usize::MAX,
    ensures
        (cell_rows(r@), final(rng).0) == made_rows(
            schema@,
            from as nat,
            n as nat,
            old(rng).0,
            *fl,
        ),
{
    let ghost s0 = rng.0;
    let mut out: Vec<Vec<Value>> = Vec::new();
    let mut i: usize = 0;
    assert(cell_rows(out@) =~= Seq::<Seq<Cell>>::empty());
    while i < n
        invariant
            i <= n,
            from + n <= usize::MAX,
            fl.exact(),
            s0 == old(rng).0,
            (cell_rows(out@), rng.0) == made_rows(schema@, from as nat, i as nat, s0, *fl),
        decreases n - i,
    {
        let h = next_hit(from + i, rng);
        let ghost s1 = rng.0;
        let mut row: Vec<Value> = Vec::new();
        let mut k: usize = 0;
        assert(cells(row@) =~= Seq::<Cell>::empty());
        while k < schema.fields.len()
            invariant
                k <= schema.fields.len(),
                fl.exact(),
                h.path < 10_000,
                0 <= h.time,
                (cells(row@), rng.0) == made_fields(h@, schema@, k as nat, s1, *fl),
            decreases schema.fields.len() - k,
        {
            let f = &schema.fields[k];
            let ghost before = cells(row@);
            let v = make_field(&h, f, rng, fl);
            assert(schema@[k as int] == (Attr { name: f.name@, ty: f.ty }));
            row.push(v);
            assert(cells(row@) =~= before.push(v@));
            k += 1;
        }
        let ghost before = cell_rows(out@);
        out.push(row);
        assert(cell_rows(out@) =~= before.push(cells(row@)));
        i += 1;
    }
    out
}

/// How many rows go into a table at a time.
pub const BATCH: usize = 65_536;

/// The state that the generator starts in.
pub const SEED: u64 = 0x9E37_79B9_7F4A_7C15;

/// What becomes of a database that made-up rows from number `from` to `n` are put into,
/// some at a time, and how many those are.
pub open spec fn generated<F: Floats>(st: State, a: Seq<Attr>, from: nat, n: nat, s: u64, fl: F) -> (
    Result<nat, Seq<char>>,
    State,
)
    decreases n - from,
{
    if from >= n {
        (Ok(0), st)
    } else {
        let k = if n - from < BATCH {
            (n - from) as nat
        } else {
            BATCH as nat
        };
        let (rows, s1) = made_rows(a, from, k, s, fl);
        let (r, st1) = put_rows(st, "hits"@, rows, fl);
        match r {
            Err(e) => (Err(e), st1),
            Ok(count) => {
                let (r2, st2) = generated(st1, a, from + k, n, s1, fl);
                (
                    match r2 {
                        Err(e) => Err(e),
                        Ok(more) => Ok(count + more),
                    },
                    st2,
                )
            },
        }
    }
}

pub proof fn lemma_made_rows_len<F: Floats>(a: Seq<Attr>, from: nat, n: nat, s: u64, fl: F)
    ensures
        made_rows(a, from, n, s, fl).0.len() == n,
    decreases n,
{
    if n > 0 {
        lemma_made_rows_len(a, from, (n - 1) as nat, s, fl);
    }
}

/// Puts `n` made-up rows into the table `hits`.
pub fn generate<F: Floats>(db: &mut Database, n: usize, fl: &F) -> (r: Result<usize, Error>)
    requires
        old(db).wf(),
        fl.exact(),
    ensures
        final(db).wf(),
        match schema_in(old(db)@.tables, "hits"@) {
            None => (r matches Err(e) && e@ == "таблица hits не создана"@) && final(db)@
                == old(db)@,
            Some(a) => {
                let g = generated(old(db)@, a, 0, n as nat, SEED, *fl);
                final(db)@ == g.1 && match r {
                    Ok(k) => g.0 == Ok::<nat, Seq<char>>(k as nat),
                    Err(e) => g.0 == Err::<nat, Seq<char>>(e@),
                }
            },
        },
{
    let schema = match db.schema_of("hits") {
        Some(s) => s,
        None => {
            return Err(err("таблица hits не создана".to_owned()));
        },
    };
    let ghost a = schema@;
    let ghost st0 = db@;
    let ghost all = generated(st0, a, 0, n as nat, SEED, *fl);
    let mut rng = Lcg(SEED);
    let mut total: usize = 0;
    while total < n
        invariant
            total <= n,
            fl.exact(),
            db.wf(),
            a == schema@,
            st0 == old(db)@,
            schema_in(st0.tables, "hits"@) == Some(a),
            all == generated(st0, a, 0, n as nat, SEED, *fl),
            ({
                let g = generated(db@, a, total as nat, n as nat, rng.0, *fl);
                all.1 == g.1 && all.0 == match g.0 {
                    Ok(more) => Ok::<nat, Seq<char>>(total as nat + more),
                    Err(e) => Err(e),
                }
            }),
        decreases n - total,
    {
        let k: usize = if n - total < BATCH {
            n - total
        } else {
            BATCH
        };
        proof {
            lemma_made_rows_len(a, total as nat, k as nat, rng.0, *fl);
        }
        let rows = make_rows(&schema, total, k, &mut rng, fl);
        match db.insert_rows("hits", &rows, fl) {
            Ok(count) => {
                total += count;
            },
            Err(e) => {
                return Err(e);
            },
        }
    }
    Ok(total)
}

// --- loading a file -------------------------------------------------------------------------------

/// The loading of a file with tabs into the table `hits`, line by line and some rows at a time.
#[derive(Debug)]
pub struct Loader {
    pub types: Vec<DataType>,
    /// The rows that are not in the table yet.
    pub batch: Vec<Vec<Value>>,
    /// How many rows were put into the table.
    pub total: usize,
    /// After how many rows to stop.
    pub limit: Option<usize>,
}

/// What a [`Loader`] holds.
#[verifier::ext_equal]
pub struct Loading {
    pub types: Seq<DataType>,
    pub batch: Seq<Seq<Cell>>,
    pub total: usize,
    pub limit: Option<usize>,
}

impl View for Loader {
    type V = Loading;

    open spec fn view(&self) -> Loading {
        Loading {
            types: self.types@,
            batch: cell_rows(self.batch@),
            total: self.total,
            limit: self.limit,
        }
    }
}

/// The types of columns.
pub open spec fn types_of(a: Seq<Attr>) -> Seq<DataType> {
    Seq::new(a.len(), |i: int| a[i].ty)
}

/// Puts the rows that wait into the table. Rows that are refused go on waiting.
pub open spec fn flushed<F: Floats>(l: Loading, st: State, fl: F) -> (
    Result<usize, Seq<char>>,
    Loading,
    State,
) {
    let (r, st1) = put_rows(st, "hits"@, l.batch, fl);
    match r {
        Err(e) => (Err(e), l, st1),
        Ok(n) => {
            let total = capped(l.total + n);
            (Ok(total), Loading { batch: Seq::empty(), total, ..l }, st1)
        },
    }
}

/// Whether as many rows were loaded, or wait, as were asked for.
pub open spec fn enough(l: Loading) -> bool {
    l.limit matches Some(n) && l.total + l.batch.len() >= n
}

/// Takes a line of the file, unless enough rows were loaded; the answer is whether they now
/// are.
pub open spec fn took<F: Floats>(l: Loading, st: State, line: Seq<char>, fl: F) -> (
    Result<bool, Seq<char>>,
    Loading,
    State,
) {
    if enough(l) {
        (Ok(true), l, st)
    } else {
        match tsv_line(line, l.types, capped(l.total + 1) as int, fl) {
            Err(e) => (Err(e), l, st),
            Ok(None) => (Ok(false), l, st),
            Ok(Some(row)) => {
                let l1 = Loading { batch: l.batch.push(row), ..l };
                if l1.batch.len() < BATCH {
                    (Ok(enough(l1)), l1, st)
                } else {
                    let (r, l2, st1) = flushed(l1, st, fl);
                    (
                        match r {
                            Err(e) => Err(e),
                            Ok(_) => Ok(enough(l2)),
                        },
                        l2,
                        st1,
                    )
                }
            },
        }
    }
}

/// What comes of the rows that wait when the file has ended.
pub open spec fn ended<F: Floats>(l: Loading, st: State, fl: F) -> (
    Result<usize, Seq<char>>,
    Loading,
    State,
) {
    if l.batch.len() == 0 {
        (Ok(l.total), l, st)
    } else {
        flushed(l, st, fl)
    }
}

impl Loader {
    /// Begins to load into the table `hits` of a database.
    pub fn new(db: &Database, limit: Option<usize>) -> (r: Result<Loader, Error>)
        ensures
            match schema_in(db@.tables, "hits"@) {
                None => r matches Err(e) && e@ == "таблица hits не создана"@,
                Some(a) => r matches Ok(l) && l@ == (Loading {
                    types: types_of(a),
                    batch: Seq::empty(),
                    total: 0,
                    limit,
                }),
            },
    {
        let schema = match db.schema_of("hits") {
            Some(s) => s,
            None => {
                return Err(err("таблица hits не создана".to_owned()));
            },
        };
        let ghost a = schema@;
        let mut types: Vec<DataType> = Vec::new();
        let mut i: usize = 0;
        while i < schema.fields.len()
            invariant
                i <= schema.fields.len(),
                a == schema@,
                types@ == types_of(a).take(i as int),
            decreases schema.fields.len() - i,
        {
            assert(a[i as int].ty == schema.fields@[i as int].ty);
            types.push(schema.fields[i].ty);
            assert(types@ =~= types_of(a).take(i + 1));
            i += 1;
        }
        assert(types@ =~= types_of(a));
        let batch: Vec<Vec<Value>> = Vec::new();
        assert(cell_rows(batch@) =~= Seq::<Seq<Cell>>::empty());
        Ok(Loader { types, batch, total: 0, limit })
    }

    fn flush<F: Floats>(&mut self, db: &mut Database, fl: &F) -> (r: Result<usize, Error>)
        requires
            old(db).wf(),
            fl.exact(),
        ensures
            final(db).wf(),
            ({
                let f = flushed(old(self)@, old(db)@, *fl);
                final(self)@ == f.1 && final(db)@ == f.2 && match r {
                    Ok(n) => f.0 == Ok::<usize, Seq<char>>(n),
                    Err(e) => f.0 == Err::<usize, Seq<char>>(e@),
                }
            }),
    {
        match db.insert_rows("hits", &self.batch, fl) {
            Ok(n) => {
                self.total = add_sizes(self.total, n);
                self.batch = Vec::new();
                assert(cell_rows(self.batch@) =~= Seq::<Seq<Cell>>::empty());
                Ok(self.total)
            },
            Err(e) => Err(e),
        }
    }

    /// Whether as many rows were loaded, or wait, as were asked for.
    pub fn is_full(&self) -> (r: bool)
        ensures
            r == enough(self@),
    {
        match self.limit {
            Some(n) => add_sizes(self.total, self.batch.len()) >= n,
            None => false,
        }
    }

    /// Takes a line of the file, unless enough rows were loaded; the answer is whether they
    /// now are.
    pub fn line<F: Floats>(&mut self, db: &mut Database, line: &str, fl: &F) -> (r: Result<
        bool,
        Error,
    >)
        requires
            old(db).wf(),
            fl.exact(),
        ensures
            final(db).wf(),
            ({
                let f = took(old(self)@, old(db)@, line@, *fl);
                final(self)@ == f.1 && final(db)@ == f.2 && match r {
                    Ok(b) => f.0 == Ok::<bool, Seq<char>>(b),
                    Err(e) => f.0 == Err::<bool, Seq<char>>(e@),
                }
            }),
    {
        if self.is_full() {
            return Ok(true);
        }
        let number = add_sizes(self.total, 1);
        let row = match tsv_row(line, &self.types, number, fl) {
            Ok(Some(row)) => row,
            Ok(None) => {
                return Ok(false);
            },
            Err(e) => {
                return Err(e);
            },
        };
        let ghost before = self@;
        self.batch.push(row);
        assert(self@ =~= (Loading { batch: before.batch.push(cells(row@)), ..before }));
        if self.batch.len() < BATCH {
            return Ok(self.is_full());
        }
        match self.flush(db, fl) {
            Ok(_) => Ok(self.is_full()),
            Err(e) => Err(e),
        }
    }

    /// The file has ended: what waits goes into the table. The answer is how many rows were
    /// loaded.
    pub fn finish<F: Floats>(&mut self, db: &mut Database, fl: &F) -> (r: Result<usize, Error>)
        requires
            old(db).wf(),
            fl.exact(),
        ensures
            final(db).wf(),
            ({
                let f = ended(old(self)@, old(db)@, *fl);
                final(self)@ == f.1 && final(db)@ == f.2 && match r {
                    Ok(n) => f.0 == Ok::<usize, Seq<char>>(n),
                    Err(e) => f.0 == Err::<usize, Seq<char>>(e@),
                }
            }),
    {
        if self.batch.len() == 0 {
            return Ok(self.total);
        }
        self.flush(db, fl)
    }
}

// --- what is loaded ---------------------------------------------------------------------------

/// What the first `k` lines of a file lead to, taken one after another up to the first error.
pub open spec fn loaded<F: Floats>(
    l: Loading,
    st: State,
    lines: Seq<Seq<char>>,
    k: nat,
    fl: F,
) -> (Result<bool, Seq<char>>, Loading, State)
    decreases k,
{
    if k == 0 || k > lines.len() {
        (Ok(enough(l)), l, st)
    } else {
        match loaded(l, st, lines, (k - 1) as nat, fl) {
            (Err(e), l1, st1) => (Err(e), l1, st1),
            (Ok(_), l1, st1) => took(l1, st1, lines[k - 1], fl),
        }
    }
}

/// The rows in the first `k` lines, one for each line that holds one.
pub open spec fn rows_in<F: Floats>(
    lines: Seq<Seq<char>>,
    types: Seq<DataType>,
    k: nat,
    fl: F,
) -> Seq<Seq<Cell>>
    decreases k,
{
    if k == 0 || k > lines.len() {
        Seq::empty()
    } else {
        let before = rows_in(lines, types, (k - 1) as nat, fl);
        match tsv_line(lines[k - 1], types, 0, fl) {
            Ok(Some(row)) => before.push(row),
            _ => before,
        }
    }
}

/// How many of some rows are wanted.
pub open spec fn wanted(limit: Option<usize>, have: nat) -> nat {
    match limit {
        Some(n) if n < have => n as nat,
        _ => have,
    }
}

/// Whether a line that is no row stands only behind as many rows as are wanted.
pub open spec fn readable<F: Floats>(
    lines: Seq<Seq<char>>,
    types: Seq<DataType>,
    limit: Option<usize>,
    fl: F,
) -> bool {
    forall|i: int|
        0 <= i < lines.len() && tsv_line(#[trigger] lines[i], types, 0, fl) is Err ==> (
        limit matches Some(n) && n <= rows_in(lines, types, i as nat, fl).len())
}

/// Whether nothing but a row itself can stand in the way of its insertion.
pub open spec fn unhindered(st: State) -> bool {
    !st.read_only && st.limit == 0 && st.log is None
}

/// How far a load has come after the lines that held `rows`.
spec fn has_come<F: Floats>(
    l0: Loading,
    st0: State,
    t: Relation,
    rows: Seq<Seq<Cell>>,
    l: Loading,
    st: State,
    fl: F,
) -> bool {
    let taken = rows.take(wanted(l0.limit, rows.len()) as int);
    &&& l.types == l0.types
    &&& l.limit == l0.limit
    &&& l.total + l.batch.len() == taken.len()
    &&& l.batch == taken.skip(l.total as int)
    &&& inserted_many(t, taken, l.total as nat, fl).0 is None
    &&& st.tables == st0.tables.insert(
        lowercase("hits"@),
        inserted_many(t, taken, l.total as nat, fl).1,
    )
    &&& unhindered(st0) ==> unhindered(st)
}

proof fn lemma_flushed<F: Floats>(
    l0: Loading,
    st0: State,
    t: Relation,
    rows: Seq<Seq<Cell>>,
    l: Loading,
    st: State,
    fl: F,
)
    requires
        rows.len() <= usize::MAX,
        has_come(l0, st0, t, rows, l, st, fl),
    ensures
        ({
            let n = wanted(l0.limit, rows.len());
            let (r, l1, st1) = flushed(l, st, fl);
            &&& r is Ok ==> r == Ok::<usize, Seq<char>>(n as usize) && l1.batch.len() == 0
                && l1.total == n && has_come(l0, st0, t, rows, l1, st1, fl)
            &&& unhindered(st0) && inserted_many(t, rows, n, fl).0 is None ==> r is Ok
        }),
{
    let n = wanted(l0.limit, rows.len());
    let taken = rows.take(n as int);
    let at = l.total as nat;
    lemma_many_parts(t, taken, at, l.batch.len(), fl);
    lemma_many_alike(t, taken, rows, n, fl);
    let (r, l1, st1) = flushed(l, st, fl);
    if r is Ok {
        assert(l1.batch =~= taken.skip(n as int));
        assert(st1.tables =~= st0.tables.insert(
            lowercase("hits"@),
            inserted_many(t, taken, n, fl).1,
        ));
    }
}

/// Where some rows can be put in, the first of them can.
proof fn lemma_fewer<F: Floats>(
    t: Relation,
    a: Seq<Seq<Cell>>,
    j: nat,
    b: Seq<Seq<Cell>>,
    k: nat,
    fl: F,
)
    requires
        j <= k,
        j <= a.len(),
        k <= b.len(),
        forall|i: int| 0 <= i < j ==> #[trigger] a[i] == b[i],
        inserted_many(t, b, k, fl).0 is None,
    ensures
        inserted_many(t, a, j, fl).0 is None,
{
    lemma_many_alike(t, a, b, j, fl);
    if inserted_many(t, b, j, fl).0 is Some {
        lemma_many_stops(t, b, j, k, fl);
    }
}

proof fn lemma_loaded<F: Floats>(
    l0: Loading,
    st0: State,
    t: Relation,
    lines: Seq<Seq<char>>,
    k: nat,
    fl: F,
)
    requires
        l0.batch.len() == 0,
        l0.total == 0,
        table_named(st0.tables, "hits"@) == Some(t),
        k <= lines.len() <= usize::MAX,
    ensures
        ({
            let rows = rows_in(lines, l0.types, k, fl);
            let (r, l, st) = loaded(l0, st0, lines, k, fl);
            &&& rows.len() <= k
            &&& r is Ok ==> has_come(l0, st0, t, rows, l, st, fl)
            &&& unhindered(st0) && readable(lines, l0.types, l0.limit, fl) && inserted_many(
                t,
                rows,
                wanted(l0.limit, rows.len()),
                fl,
            ).0 is None ==> r is Ok
        }),
    decreases k,
{
    let rows = rows_in(lines, l0.types, k, fl);
    if k == 0 {
        assert(l0.batch =~= rows.take(0).skip(0));
        assert(st0.tables =~= st0.tables.insert(lowercase("hits"@), t));
        assert(has_come(l0, st0, t, rows, l0, st0, fl));
    } else {
        let j = (k - 1) as nat;
        lemma_loaded(l0, st0, t, lines, j, fl);
        let before = rows_in(lines, l0.types, j, fl);
        let (r, l, st) = loaded(l0, st0, lines, j, fl);
        let n0 = wanted(l0.limit, before.len());
        let n = wanted(l0.limit, rows.len());
        if unhindered(st0) && readable(lines, l0.types, l0.limit, fl) && inserted_many(
            t,
            rows,
            n,
            fl,
        ).0 is None {
            lemma_fewer(t, before, n0, rows, n, fl);
            assert(tsv_line(lines[j as int], l0.types, 0, fl) is Err ==> enough(l));
        }
        if r is Ok {
            if enough(l) {
                assert(rows.take(n as int) =~= before.take(n0 as int));
            } else {
                assert(n0 == before.len());
                assert(before.take(n0 as int) =~= before);
                match tsv_line(lines[j as int], l0.types, 0, fl) {
                    Ok(Some(row)) => {
                        let l1 = Loading { batch: l.batch.push(row), ..l };
                        assert(rows.take(n as int) =~= rows);
                        assert(l1.batch =~= rows.skip(l.total as int));
                        lemma_many_alike(t, before, rows, l.total as nat, fl);
                        assert(has_come(l0, st0, t, rows, l1, st, fl));
                        lemma_flushed(l0, st0, t, rows, l1, st, fl);
                    },
                    _ => {},
                }
            }
        }
    }
}

/// What a load that did not fail leaves: the table has gained the rows of the file in their
/// order, as many as were asked for and no more, nothing else has changed, and the answer
/// says how many.
pub proof fn lemma_rows_loaded<F: Floats>(
    l: Loading,
    st: State,
    t: Relation,
    lines: Seq<Seq<char>>,
    fl: F,
)
    requires
        l.batch.len() == 0,
        l.total == 0,
        table_named(st.tables, "hits"@) == Some(t),
        lines.len() <= usize::MAX,
        loaded(l, st, lines, lines.len(), fl).0 is Ok,
    ensures
        ({
            let rows = rows_in(lines, l.types, lines.len(), fl);
            let n = wanted(l.limit, rows.len());
            let (_, l1, st1) = loaded(l, st, lines, lines.len(), fl);
            let (r, _, st2) = ended(l1, st1, fl);
            r is Ok ==> r == Ok::<usize, Seq<char>>(n as usize) && inserted_many(t, rows, n, fl).0
                is None && st2.tables == st.tables.insert(
                lowercase("hits"@),
                inserted_many(t, rows, n, fl).1,
            )
        }),
{
    let rows = rows_in(lines, l.types, lines.len(), fl);
    let n = wanted(l.limit, rows.len());
    lemma_loaded(l, st, t, lines, lines.len(), fl);
    let (_, l1, st1) = loaded(l, st, lines, lines.len(), fl);
    lemma_flushed(l, st, t, rows, l1, st1, fl);
    lemma_many_alike(t, rows.take(n as int), rows, n, fl);
}

/// A load into a table in memory does not fail where the rows that are wanted can be read
/// and put in: with at least `n` of them and a limit of `n` it gives `n`.
pub proof fn lemma_load_succeeds<F: Floats>(
    l: Loading,
    st: State,
    t: Relation,
    lines: Seq<Seq<char>>,
    fl: F,
)
    requires
        l.batch.len() == 0,
        l.total == 0,
        table_named(st.tables, "hits"@) == Some(t),
        lines.len() <= usize::MAX,
        unhindered(st),
        readable(lines, l.types, l.limit, fl),
        ({
            let rows = rows_in(lines, l.types, lines.len(), fl);
            inserted_many(t, rows, wanted(l.limit, rows.len()), fl).0 is None
        }),
    ensures
        ({
            let n = wanted(l.limit, rows_in(lines, l.types, lines.len(), fl).len());
            let (r, l1, st1) = loaded(l, st, lines, lines.len(), fl);
            r is Ok && ended(l1, st1, fl).0 == Ok::<usize, Seq<char>>(n as usize)
        }),
{
    let rows = rows_in(lines, l.types, lines.len(), fl);
    lemma_loaded(l, st, t, lines, lines.len(), fl);
    let (_, l1, st1) = loaded(l, st, lines, lines.len(), fl);
    lemma_flushed(l, st, t, rows, l1, st1, fl);
}

// --- times ----------------------------------------------------------------------------------------

/// Whether doubles stand in their total order.
pub open spec fn ranked(v: Seq<u64>) -> bool {
    forall|i: int, j: int|
        0 <= i < j < v.len() ==> total_rank(#[trigger] v[i], #[trigger] v[j]) != Rank::Greater
}

/// Whether a value is the one in the middle of some, of two the later, once they are in order.
pub open spec fn is_median(v: Seq<u64>, m: u64) -> bool {
    exists|s: Seq<u64>|
        #[trigger] ranked(s) && s.to_multiset() == v.to_multiset() && s.len() == v.len()
            && s[v.len() as int / 2] == m
}

/// The time in the middle of some, as doubles by their bits; none of none.
pub fn median(v: &Vec<u64>) -> (r: Option<u64>)
    ensures
        match r {
            Some(m) => v@.len() > 0 && is_median(v@, m),
            None => v@.len() == 0,
        },
{
    let mut s: Vec<u64> = Vec::new();
    let mut i: usize = 0;
    assert(s@ =~= v@.take(0));
    while i < v.len()
        invariant
            i <= v.len(),
            s@.len() == i,
            ranked(s@),
            s@.to_multiset() == v@.take(i as int).to_multiset(),
        decreases v.len() - i,
    {
        let x = v[i];
        let ghost s0 = s@;
        let mut k: usize = 0;
        while k < s.len() && rank_total(s[k], x) != Rank::Greater
            invariant
                k <= s.len(),
                s@ == s0,
                forall|j: int| 0 <= j < k ==> total_rank(#[trigger] s0[j], x) != Rank::Greater,
            decreases s.len() - k,
        {
            k += 1;
        }
        s.insert(k, x);
        proof {
            broadcast use vstd::seq_lib::group_to_multiset_ensures;

            assert(v@.take(i + 1) =~= v@.take(i as int).push(x));
        }
        i += 1;
    }
    assert(v@.take(i as int) =~= v@);
    if s.len() == 0 {
        return None;
    }
    assert(ranked(s@));
    Some(s[s.len() / 2])
}

// --- the report ---------------------------------------------------------------------------------------

/// One query of the benchmark.
#[derive(Debug)]
pub struct Row {
    pub n: usize,
    pub sql: String,
    /// The median of the times, as text; none where the query failed.
    pub median: Option<String>,
    pub rows: usize,
    pub status: String,
}

/// The numbers above the table; those with a fraction as text.
#[derive(Debug)]
pub struct Summary {
    pub rows: usize,
    pub gib: String,
    pub bytes_per_row: String,
    pub seconds: String,
    pub rate: String,
    pub runs: usize,
    pub total: String,
}

/// A line of the report.
pub open spec fn report_line(r: Row) -> Seq<char> {
    let ms = match r.median {
        Some(m) => m@,
        None => "— ("@ + r.status@ + ")"@,
    };
    "| "@ + dec(r.n as int) + " | "@ + ms + (" | "@ + dec(r.rows as int) + " | `"@ + shortened(
        r.sql@,
    ) + "` |\n"@)
}

pub open spec fn report_lines(v: Seq<Row>, n: nat) -> Seq<char>
    decreases n,
{
    if n == 0 || n > v.len() {
        Seq::empty()
    } else {
        report_lines(v, (n - 1) as nat) + report_line(v[n - 1])
    }
}

/// How many queries have a time.
pub open spec fn timed(v: Seq<Row>, n: nat) -> nat
    decreases n,
{
    if n == 0 || n > v.len() {
        0
    } else {
        timed(v, (n - 1) as nat) + if v[n - 1].median is Some {
            1nat
        } else {
            0nat
        }
    }
}

pub open spec fn report_head(s: Summary, done: nat, count: nat) -> Seq<char> {
    "# ClickBench на veldb\n\n"@ + ("- строк: **"@ + dec(s.rows as int) + "**\n- в памяти: **"@
        + s.gib@ + " ГиБ** ("@ + s.bytes_per_row@) + (" байт/строку)\n- загрузка: **"@ + s.seconds@
        + " с** ("@ + s.rate@ + " тыс. строк/с)\n- прогонов на запрос: "@ + dec(s.runs as int)) + (
    ", в таблице медиана\n- выполнено: **"@ + dec(done as int) + "/"@ + dec(count as int)
        + "**, суммарно **"@ + s.total@) + " с**\n\n"@
}

/// The report of a run.
pub open spec fn report(v: Seq<Row>, s: Summary) -> Seq<char> {
    let done = timed(v, v.len());
    let failed = v.len() - done;
    report_head(s, done, v.len()) + (if failed > 0 {
        dec(failed) + " запрос(ов) не выполнились — они перечислены ниже со статусом.\n\n"@
    } else {
        Seq::empty()
    }) + "| # | мс | строк | запрос |\n|---:|---:|---:|:---|\n"@ + report_lines(v, v.len())
}

fn line_of(r: &Row) -> (x: String)
    ensures
        x@ == report_line(*r),
{
    let ms = match &r.median {
        Some(m) => m.clone(),
        None => text3("— (", r.status.as_str(), ")"),
    };
    let left = text4("| ", dec_usize(r.n).as_str(), " | ", ms.as_str());
    let right = text5(
        " | ",
        dec_usize(r.rows).as_str(),
        " | `",
        short(r.sql.as_str()).as_str(),
        "` |\n",
    );
    text2(left.as_str(), right.as_str())
}

fn head_text(s: &Summary, done: usize, count: usize) -> (r: String)
    ensures
        r@ == report_head(*s, done as nat, count as nat),
{
    let a = text6(
        "- строк: **",
        dec_usize(s.rows).as_str(),
        "**\n- в памяти: **",
        s.gib.as_str(),
        " ГиБ** (",
        s.bytes_per_row.as_str(),
    );
    let b = text6(
        " байт/строку)\n- загрузка: **",
        s.seconds.as_str(),
        " с** (",
        s.rate.as_str(),
        " тыс. строк/с)\n- прогонов на запрос: ",
        dec_usize(s.runs).as_str(),
    );
    let c = text6(
        ", в таблице медиана\n- выполнено: **",
        dec_usize(done).as_str(),
        "/",
        dec_usize(count).as_str(),
        "**, суммарно **",
        s.total.as_str(),
    );
    text5("# ClickBench на veldb\n\n", a.as_str(), b.as_str(), c.as_str(), " с**\n\n")
}

/// The report of a run.
pub fn render_report(v: &Vec<Row>, s: &Summary) -> (r: String)
    ensures
        r@ == report(v@, *s),
{
    let mut done: usize = 0;
    let mut lines = String::new();
    let mut i: usize = 0;
    assert(lines@ =~= Seq::<char>::empty());
    while i < v.len()
        invariant
            i <= v.len(),
            done <= i,
            done == timed(v@, i as nat),
            lines@ == report_lines(v@, i as nat),
        decreases v.len() - i,
    {
        if v[i].median.is_some() {
            done += 1;
        }
        let line = line_of(&v[i]);
        lines.append(line.as_str());
        i += 1;
    }
    let head = head_text(s, done, v.len());
    let failed: usize = v.len() - done;
    let note = if failed > 0 {
        text2(
            dec_usize(failed).as_str(),
            " запрос(ов) не выполнились — они перечислены ниже со статусом.\n\n",
        )
    } else {
        let none = String::new();
        assert(none@ =~= Seq::<char>::empty());
        none
    };
    text4(
        head.as_str(),
        note.as_str(),
        "| # | мс | строк | запрос |\n|---:|---:|---:|:---|\n",
        lines.as_str(),
    )
}

} // verus!
