//! What the command-line client computes: completion, the end of a statement, tables as
//! text.
use crate::json::{
    field_of, items_of, items_under, json_bits, json_field, json_in, json_items, json_null, json_of,
    json_str, json_text, json_tree, json_trees, str_under, text_under, Json, JsonNode,
};
use crate::text::{
    char_is_space, char_is_word, chars_of, eq_text, err, is_space, is_word_char, join, join_texts,
    keys, lowercase, put_in_order, put_sorted, split_words, starts_with, string_of_range, strings,
    strip_end, text2, text3, text5, texts_ascend, texts_sorted, to_lowercase, trim, trim_start,
    trimmed, trimmed_start, without_end, words_of, Error,
};
use rustc_hash::FxHashMap;
use serde_json::Value as JsonValue;
use vstd::prelude::*;
use vstd::string::*;
use vstd::utf8::*;

verus! {

broadcast use vstd::string::group_string_axioms;

// --- the end of a statement --------------------------------------------------------------------

/// Whether the last thing outside quotes, from place `i` on, is a semicolon. Two quotes
/// inside a string are one quote of it.
pub open spec fn ends_in(s: Seq<char>, i: int, in_str: bool, semi: bool) -> bool
    decreases s.len() - i,
{
    if i < 0 || i >= s.len() {
        semi
    } else if s[i] == '\'' {
        if in_str && i + 1 < s.len() && s[i + 1] == '\'' {
            ends_in(s, i + 2, in_str, semi)
        } else {
            ends_in(s, i + 1, !in_str, semi)
        }
    } else if s[i] == ';' && !in_str {
        ends_in(s, i + 1, in_str, true)
    } else if !is_space(s[i]) {
        ends_in(s, i + 1, in_str, false)
    } else {
        ends_in(s, i + 1, in_str, semi)
    }
}

/// Whether a statement ends in a semicolon outside quotes.
pub fn is_complete(input: &str) -> (r: bool)
    ensures
        r == ends_in(input@, 0, false, false),
{
    let v = chars_of(input);
    let mut in_str = false;
    let mut semi = false;
    let mut i: usize = 0;
    while i < v.len()
        invariant
            i <= v.len(),
            v@ == input@,
            ends_in(v@, i as int, in_str, semi) == ends_in(input@, 0, false, false),
        decreases v.len() - i,
    {
        let c = v[i];
        if c == '\'' {
            if in_str && i + 1 < v.len() && v[i + 1] == '\'' {
                i += 1;
            } else {
                in_str = !in_str;
            }
        } else if c == ';' && !in_str {
            semi = true;
        } else if !char_is_space(c) {
            semi = false;
        }
        i += 1;
    }
    semi
}

/// How many brackets are open after the first `n` characters, and whether a string is.
pub open spec fn open_after(s: Seq<char>, n: nat) -> (int, bool)
    decreases n,
{
    if n == 0 || n > s.len() {
        (0, false)
    } else {
        let (depth, in_str) = open_after(s, (n - 1) as nat);
        let c = s[n - 1];
        if c == '\'' {
            (depth, !in_str)
        } else if c == '(' && !in_str {
            (depth + 1, in_str)
        } else if c == ')' && !in_str {
            (depth - 1, in_str)
        } else {
            (depth, in_str)
        }
    }
}

/// Whether a bracket or a string is open.
pub open spec fn is_open(s: Seq<char>) -> bool {
    let (depth, in_str) = open_after(s, s.len());
    in_str || depth > 0
}

/// Whether input goes on: a bracket or a string is open.
pub fn needs_more(buf: &str) -> (r: bool)
    ensures
        r == is_open(buf@),
{
    let v = chars_of(buf);
    let mut depth: i128 = 0;
    let mut in_str = false;
    let mut i: usize = 0;
    while i < v.len()
        invariant
            i <= v.len(),
            v@ == buf@,
            -i <= depth <= i,
            open_after(v@, i as nat) == (depth as int, in_str),
        decreases v.len() - i,
    {
        let c = v[i];
        if c == '\'' {
            in_str = !in_str;
        } else if c == '(' && !in_str {
            depth += 1;
        } else if c == ')' && !in_str {
            depth -= 1;
        }
        i += 1;
    }
    in_str || depth > 0
}

/// Whether a statement makes or drops something.
pub open spec fn changes_schema(sql: Seq<char>) -> bool {
    let s = lowercase(trim_start(sql));
    "create"@.is_prefix_of(s) || "drop"@.is_prefix_of(s)
}

pub fn is_ddl(sql: &str) -> (r: bool)
    ensures
        r == changes_schema(sql@),
{
    let s = to_lowercase(trimmed_start(sql).as_str());
    starts_with(s.as_str(), "create") || starts_with(s.as_str(), "drop")
}

/// A text without white space at its ends, if anything is left of it.
pub open spec fn piece_of(s: Seq<char>) -> Seq<Seq<char>> {
    if trim(s).len() == 0 {
        Seq::empty()
    } else {
        seq![trim(s)]
    }
}

/// The statements from place `i` on, where `cur` stands before it and a string may be open.
pub open spec fn statements_from(s: Seq<char>, i: int, cur: Seq<char>, in_str: bool) -> Seq<Seq<char>>
    decreases s.len() - i,
{
    if i < 0 || i >= s.len() {
        piece_of(cur)
    } else if s[i] == '\'' {
        statements_from(s, i + 1, cur.push(s[i]), !in_str)
    } else if s[i] == ';' && !in_str {
        piece_of(cur) + statements_from(s, i + 1, Seq::empty(), in_str)
    } else {
        statements_from(s, i + 1, cur.push(s[i]), in_str)
    }
}

/// The statements of a text, which semicolons outside quotes end.
pub open spec fn statements(s: Seq<char>) -> Seq<Seq<char>> {
    statements_from(s, 0, Seq::empty(), false)
}

pub fn split_statements(text: &str) -> (r: Vec<String>)
    ensures
        strings(r@) == statements(text@),
{
    let v = chars_of(text);
    let ghost all = statements(text@);
    let mut out: Vec<String> = Vec::new();
    let mut cur = String::new();
    let mut in_str = false;
    let mut i: usize = 0;
    assert(cur@ =~= Seq::<char>::empty());
    assert(strings(out@) + statements_from(v@, 0, cur@, false) =~= all);
    while i < v.len()
        invariant
            i <= v.len(),
            v@ == text@,
            all == statements(text@),
            strings(out@) + statements_from(v@, i as int, cur@, in_str) == all,
        decreases v.len() - i,
    {
        let c = v[i];
        if c == ';' && !in_str {
            let ghost before = strings(out@);
            let ghost rest = statements_from(v@, i + 1, Seq::empty(), in_str);
            let t = trimmed(cur.as_str());
            if !t.as_str().is_empty() {
                out.push(t);
                assert(strings(out@) =~= before.push(t@));
            }
            assert(before + (piece_of(cur@) + rest) =~= strings(out@) + rest);
            cur = String::new();
            assert(cur@ =~= Seq::<char>::empty());
        } else {
            if c == '\'' {
                in_str = !in_str;
            }
            cur.push(c);
        }
        i += 1;
    }
    let ghost before = strings(out@);
    let t = trimmed(cur.as_str());
    if !t.as_str().is_empty() {
        out.push(t);
        assert(strings(out@) =~= before.push(t@));
    }
    assert(before + piece_of(cur@) =~= strings(out@));
    out
}

// --- tables as text ------------------------------------------------------------------------------

pub open spec fn string_rows(v: Seq<Vec<String>>) -> Seq<Seq<Seq<char>>> {
    Seq::new(v.len(), |i: int| strings(v[i]@))
}

/// A character, `n` times.
pub open spec fn repeated(c: char, n: nat) -> Seq<char> {
    Seq::new(n, |i: int| c)
}

/// The width of a column after the first `n` rows: that of its longest cell.
pub open spec fn column_width(name: Seq<char>, rows: Seq<Seq<Seq<char>>>, c: int, n: nat) -> nat
    decreases n,
{
    if n == 0 || n > rows.len() {
        name.len()
    } else {
        let w = column_width(name, rows, c, (n - 1) as nat);
        let row = rows[n - 1];
        if 0 <= c < row.len() && row[c].len() > w {
            row[c].len()
        } else {
            w
        }
    }
}

pub open spec fn widths(columns: Seq<Seq<char>>, rows: Seq<Seq<Seq<char>>>) -> Seq<nat> {
    Seq::new(columns.len(), |c: int| column_width(columns[c], rows, c, rows.len()))
}

/// A cell with blanks up to a width.
pub open spec fn padded(s: Seq<char>, w: nat) -> Seq<char> {
    s + repeated(
        ' ',
        if w > s.len() {
            (w - s.len()) as nat
        } else {
            0
        },
    )
}

/// A rule of a frame.
pub open spec fn rule(w: Seq<nat>, sep: Seq<char>) -> Seq<char> {
    join(Seq::new(w.len(), |c: int| repeated('─', w[c] + 2)), sep)
}

/// A line of cells.
pub open spec fn cell_line(row: Seq<Seq<char>>, w: Seq<nat>) -> Seq<char> {
    "│ "@ + join(Seq::new(row.len(), |c: int| padded(row[c], w[c])), " │ "@) + " │\n"@
}

/// The lines of the first `n` rows.
pub open spec fn cell_lines(rows: Seq<Seq<Seq<char>>>, w: Seq<nat>, n: nat) -> Seq<char>
    decreases n,
{
    if n == 0 || n > rows.len() {
        Seq::empty()
    } else {
        cell_lines(rows, w, (n - 1) as nat) + cell_line(rows[n - 1], w)
    }
}

/// A table in a frame.
pub open spec fn framed(columns: Seq<Seq<char>>, rows: Seq<Seq<Seq<char>>>) -> Seq<char> {
    let w = widths(columns, rows);
    "┌"@ + rule(w, "┬"@) + "┐\n"@ + cell_line(columns, w) + ("├"@ + rule(w, "┼"@) + "┤\n"@)
        + cell_lines(rows, w, rows.len()) + ("└"@ + rule(w, "┴"@) + "┘"@)
}

fn width_of(s: &str) -> (r: usize)
    ensures
        r == s@.len(),
{
    chars_of(s).len()
}

fn pad(s: &str, w: usize) -> (r: String)
    ensures
        r@ == padded(s@, w as nat),
{
    let n: usize = width_of(s);
    let mut out = s.to_owned();
    let mut i: usize = n;
    assert(s@ + repeated(' ', 0) =~= s@);
    while i < w
        invariant
            n <= i,
            i <= w || i == n,
            n == s@.len(),
            out@ == s@ + repeated(' ', (i - n) as nat),
        decreases w - i,
    {
        out.push(' ');
        i += 1;
        assert(out@ =~= s@ + repeated(' ', (i - n) as nat));
    }
    out
}

fn dashes(w: usize) -> (r: String)
    ensures
        r@ == repeated('─', w as nat + 2),
{
    let mut out = String::new();
    out.push('─');
    out.push('─');
    let mut i: usize = 0;
    assert(out@ =~= repeated('─', 2));
    while i < w
        invariant
            i <= w,
            out@ == repeated('─', i as nat + 2),
        decreases w - i,
    {
        out.push('─');
        i += 1;
        assert(out@ =~= repeated('─', i as nat + 2));
    }
    out
}

pub open spec fn nats(v: Seq<usize>) -> Seq<nat> {
    Seq::new(v.len(), |i: int| v[i] as nat)
}

fn rule_line(w: &Vec<usize>, left: &str, sep: &str, right: &str) -> (r: String)
    ensures
        r@ == left@ + rule(nats(w@), sep@) + right@,
{
    let mut parts: Vec<String> = Vec::new();
    let mut i: usize = 0;
    while i < w.len()
        invariant
            i <= w.len(),
            parts@.len() == i,
            forall|k: int| 0 <= k < i ==> (#[trigger] parts@[k])@ == repeated('─', w@[k] as nat + 2),
        decreases w.len() - i,
    {
        parts.push(dashes(w[i]));
        i += 1;
    }
    let ghost t = nats(w@);
    assert(strings(parts@) =~= Seq::new(t.len(), |c: int| repeated('─', t[c] + 2)));
    text3(left, join_texts(&parts, sep).as_str(), right)
}

fn cells_line(row: &Vec<String>, w: &Vec<usize>) -> (r: String)
    requires
        row@.len() <= w@.len(),
    ensures
        r@ == cell_line(strings(row@), nats(w@)),
{
    let mut parts: Vec<String> = Vec::new();
    let mut i: usize = 0;
    while i < row.len()
        invariant
            i <= row.len() <= w.len(),
            parts@.len() == i,
            forall|k: int| 0 <= k < i ==> (#[trigger] parts@[k])@ == padded(row@[k]@, w@[k] as nat),
        decreases row.len() - i,
    {
        parts.push(pad(row[i].as_str(), w[i]));
        i += 1;
    }
    let ghost t = nats(w@);
    let ghost cells = strings(row@);
    assert(strings(parts@) =~= Seq::new(cells.len(), |c: int| padded(cells[c], t[c])));
    text3("│ ", join_texts(&parts, " │ ").as_str(), " │\n")
}

fn measure(columns: &Vec<String>, rows: &Vec<Vec<String>>) -> (r: Vec<usize>)
    ensures
        nats(r@) == widths(strings(columns@), string_rows(rows@)),
{
    let ghost names = strings(columns@);
    let ghost t = string_rows(rows@);
    let mut w: Vec<usize> = Vec::new();
    let mut c: usize = 0;
    while c < columns.len()
        invariant
            c <= columns.len(),
            names == strings(columns@),
            t == string_rows(rows@),
            w@.len() == c,
            forall|k: int| 0 <= k < c ==> #[trigger] w@[k] == column_width(names[k], t, k, t.len()),
        decreases columns.len() - c,
    {
        let mut most: usize = width_of(columns[c].as_str());
        let mut i: usize = 0;
        while i < rows.len()
            invariant
                c < columns.len(),
                i <= rows.len(),
                names == strings(columns@),
                t == string_rows(rows@),
                most == column_width(names[c as int], t, c as int, i as nat),
            decreases rows.len() - i,
        {
            assert(t[i as int] == strings(rows@[i as int]@));
            if c < rows[i].len() {
                let n: usize = width_of(rows[i][c].as_str());
                assert(t[i as int][c as int] == rows@[i as int]@[c as int]@);
                if n > most {
                    most = n;
                }
            }
            i += 1;
        }
        w.push(most);
        c += 1;
    }
    assert(nats(w@) =~= widths(names, t));
    w
}

/// A table in a frame. Columns are as wide as their longest cell, in characters. No row has
/// more cells than there are columns.
pub fn format_table(columns: &Vec<String>, rows: &Vec<Vec<String>>) -> (r: String)
    requires
        forall|i: int| 0 <= i < rows@.len() ==> (#[trigger] rows@[i])@.len() <= columns@.len(),
    ensures
        r@ == framed(strings(columns@), string_rows(rows@)),
{
    let ghost names = strings(columns@);
    let ghost t = string_rows(rows@);
    let w = measure(columns, rows);
    let ghost ws = widths(names, t);
    assert(w@.len() == nats(w@).len());
    let top = rule_line(&w, "┌", "┬", "┐\n");
    let head = cells_line(columns, &w);
    let middle = rule_line(&w, "├", "┼", "┤\n");
    let mut lines = String::new();
    let mut i: usize = 0;
    assert(lines@ =~= Seq::<char>::empty());
    while i < rows.len()
        invariant
            i <= rows.len(),
            forall|i: int| 0 <= i < rows@.len() ==> (#[trigger] rows@[i])@.len() <= columns@.len(),
            w@.len() == columns@.len(),
            nats(w@) == ws,
            t == string_rows(rows@),
            lines@ == cell_lines(t, ws, i as nat),
        decreases rows.len() - i,
    {
        assert(t[i as int] == strings(rows@[i as int]@));
        let line = cells_line(&rows[i], &w);
        lines.append(line.as_str());
        i += 1;
    }
    let bottom = rule_line(&w, "└", "┴", "┘");
    text5(top.as_str(), head.as_str(), middle.as_str(), lines.as_str(), bottom.as_str())
}

/// The characters of joined texts: their own and those between them.
proof fn lemma_join_len(parts: Seq<Seq<char>>, sep: Seq<char>)
    ensures
        parts.len() == 0 ==> join(parts, sep).len() == 0,
        parts.len() > 0 ==> join(parts, sep).len() == total(parts) + (parts.len() - 1) * sep.len(),
    decreases parts.len(),
{
    if parts.len() > 1 {
        lemma_join_len(parts.drop_last(), sep);
        let n = parts.len() as int;
        let k = sep.len() as int;
        assert((n - 1) * k == (n - 2) * k + k) by (nonlinear_arith);
    } else if parts.len() == 1 {
        assert(parts.drop_last() =~= Seq::<Seq<char>>::empty());
        assert(total(parts.drop_last()) == 0);
        assert(0 * sep.len() == 0);
    }
}

/// The characters of some texts.
pub open spec fn total(parts: Seq<Seq<char>>) -> nat
    decreases parts.len(),
{
    if parts.len() == 0 {
        0
    } else {
        total(parts.drop_last()) + parts.last().len()
    }
}

proof fn lemma_total_same(a: Seq<Seq<char>>, b: Seq<Seq<char>>, d: nat)
    requires
        a.len() == b.len(),
        forall|i: int| 0 <= i < a.len() ==> (#[trigger] a[i]).len() == (#[trigger] b[i]).len() + d,
    ensures
        total(a) == total(b) + d * a.len(),
    decreases a.len(),
{
    if a.len() > 0 {
        let x = a.drop_last();
        let y = b.drop_last();
        assert forall|i: int| 0 <= i < x.len() implies (#[trigger] x[i]).len() == (
        #[trigger] y[i]).len() + d by {
            assert(x[i] == a[i] && y[i] == b[i]);
        }
        lemma_total_same(x, y, d);
        let n = a.len() as int;
        assert(d * n == d * (n - 1) + d) by (nonlinear_arith);
    } else {
        assert(d * 0 == 0);
    }
}

proof fn lemma_width_bound(name: Seq<char>, rows: Seq<Seq<Seq<char>>>, c: int, n: nat, i: int)
    requires
        0 <= i < n <= rows.len(),
        0 <= c < rows[i].len(),
    ensures
        rows[i][c].len() <= column_width(name, rows, c, n),
        name.len() <= column_width(name, rows, c, n),
    decreases n,
{
    if i < n - 1 {
        lemma_width_bound(name, rows, c, (n - 1) as nat, i);
    } else {
        lemma_width_name(name, rows, c, (n - 1) as nat);
    }
}

proof fn lemma_width_name(name: Seq<char>, rows: Seq<Seq<Seq<char>>>, c: int, n: nat)
    ensures
        name.len() <= column_width(name, rows, c, n),
    decreases n,
{
    if 0 < n <= rows.len() {
        lemma_width_name(name, rows, c, (n - 1) as nat);
    }
}

/// In a table with a cell for each column, the lines of cells are as wide as the rules,
/// counted in characters.
pub proof fn lemma_frame_even(columns: Seq<Seq<char>>, rows: Seq<Seq<Seq<char>>>, row: Seq<Seq<char>>)
    requires
        columns.len() > 0,
        row == columns || exists|i: int| 0 <= i < rows.len() && row == #[trigger] rows[i],
        row.len() == columns.len(),
    ensures
        ({
            let w = widths(columns, rows);
            cell_line(row, w).len() == ("├"@ + rule(w, "┼"@) + "┤\n"@).len()
        }),
{
    reveal_strlit("├");
    reveal_strlit("┼");
    reveal_strlit("┤\n");
    reveal_strlit("│ ");
    reveal_strlit(" │ ");
    reveal_strlit(" │\n");
    let w = widths(columns, rows);
    let a = Seq::new(row.len(), |c: int| padded(row[c], w[c]));
    let b = Seq::new(w.len(), |c: int| repeated('─', w[c] + 2));
    assert forall|c: int| 0 <= c < a.len() implies (#[trigger] b[c]).len() == (#[trigger] a[c]).len()
        + 2 by {
        if row == columns {
            lemma_width_name(columns[c], rows, c, rows.len());
        } else {
            let i = choose|i: int| 0 <= i < rows.len() && row == #[trigger] rows[i];
            lemma_width_bound(columns[c], rows, c, rows.len(), i);
        }
    }
    lemma_total_same(b, a, 2);
    lemma_join_len(a, " │ "@);
    lemma_join_len(b, "┼"@);
}

// --- what is known of the tables ------------------------------------------------------------------

/// Which columns stand under which table.
pub uninterp spec fn columns_in(m: FxHashMap<String, Vec<String>>) -> Map<Seq<char>, Seq<Seq<char>>>;

/// `FxHashMap::default` of `rustc_hash`: a map without entries.
#[verifier::external_body]
fn no_columns() -> (r: FxHashMap<String, Vec<String>>)
    ensures
        columns_in(r).dom() == Set::<Seq<char>>::empty(),
{
    FxHashMap::default()
}

/// `insert` of an `FxHashMap` of `rustc_hash`: the columns stand under the table.
#[verifier::external_body]
fn put_columns(m: &mut FxHashMap<String, Vec<String>>, table: String, columns: Vec<String>)
    ensures
        columns_in(*final(m)) == columns_in(*old(m)).insert(table@, strings(columns@)),
{
    m.insert(table, columns);
}

/// `values` of an `FxHashMap` of `rustc_hash`: the columns of every table, in an order of
/// which nothing is claimed.
#[verifier::external_body]
fn column_lists(m: &FxHashMap<String, Vec<String>>) -> (r: Vec<&Vec<String>>)
    ensures
        forall|i: int|
            0 <= i < r@.len() ==> exists|k: Seq<char>| #[trigger]
                columns_in(*m).dom().contains(k) && columns_in(*m)[k] == strings((#[trigger] r@[i])@),
        forall|k: Seq<char>| #[trigger]
            columns_in(*m).dom().contains(k) ==> exists|i: int|
                0 <= i < r@.len() && strings((#[trigger] r@[i])@) == columns_in(*m)[k],
{
    m.values().collect()
}

/// What a client knows of the database: the tables and their columns.
pub struct Catalog {
    pub tables: Vec<String>,
    /// Columns by the name of the table in lower case.
    pub columns: FxHashMap<String, Vec<String>>,
}

impl Default for Catalog {
    fn default() -> (r: Catalog)
        ensures
            r.tables@.len() == 0,
            columns_in(r.columns).dom() == Set::<Seq<char>>::empty(),
    {
        Catalog { tables: Vec::new(), columns: no_columns() }
    }
}

/// The names under `name` of the first `n` of some values that have one.
pub open spec fn named_items(v: Seq<Json>, n: nat) -> Seq<Seq<char>>
    decreases n,
{
    if n == 0 || n > v.len() {
        Seq::empty()
    } else {
        let out = named_items(v, (n - 1) as nat);
        match text_under(v[n - 1], "name"@) {
            Some(s) => out.push(s),
            None => out,
        }
    }
}

/// The columns that the description of a table lists.
pub open spec fn listed_columns(t: Json) -> Seq<Seq<char>> {
    match items_of(t, "columns"@) {
        Some(v) => named_items(v, v.len()),
        None => Seq::empty(),
    }
}

/// The columns of the first `n` of some tables, by the name of the table in lower case.
pub open spec fn columns_of(v: Seq<Json>, n: nat) -> Map<Seq<char>, Seq<Seq<char>>>
    decreases n,
{
    if n == 0 || n > v.len() {
        Map::empty()
    } else {
        let m = columns_of(v, (n - 1) as nat);
        match text_under(v[n - 1], "name"@) {
            Some(s) => m.insert(lowercase(s), listed_columns(v[n - 1])),
            None => m,
        }
    }
}

/// The tables that an answer describes.
pub open spec fn described_tables(j: Json) -> Seq<Json> {
    match items_of(j, "tables"@) {
        Some(v) => v,
        None => Seq::empty(),
    }
}

fn names_in(v: &Vec<JsonValue>) -> (r: Vec<String>)
    ensures
        strings(r@) == named_items(json_trees(v@), v@.len()),
{
    let ghost t = json_trees(v@);
    let mut out: Vec<String> = Vec::new();
    let mut i: usize = 0;
    assert(strings(out@) =~= Seq::<Seq<char>>::empty());
    while i < v.len()
        invariant
            i <= v.len(),
            t == json_trees(v@),
            strings(out@) == named_items(t, i as nat),
        decreases v.len() - i,
    {
        assert(t[i as int] == json_tree(v@[i as int]));
        if let Some(s) = str_under(&v[i], "name") {
            let ghost before = strings(out@);
            let s = s.to_owned();
            out.push(s);
            assert(strings(out@) =~= before.push(s@));
        }
        i += 1;
    }
    out
}

/// A text more, wherever it is put in, is the same texts as with it at the end.
proof fn lemma_put_in(v: Seq<Seq<char>>, i: int, x: Seq<char>)
    requires
        0 <= i <= v.len(),
    ensures
        v.insert(i, x).to_multiset() == v.push(x).to_multiset(),
{
    let left = v.subrange(0, i);
    let right = v.subrange(i, v.len() as int);
    assert(v.insert(i, x) =~= left + seq![x] + right);
    assert(v.push(x) =~= left + right + seq![x]);
    vstd::seq_lib::lemma_multiset_commutative(left, right);
    vstd::seq_lib::lemma_multiset_commutative(left + right, seq![x]);
    vstd::seq_lib::lemma_multiset_commutative(left + seq![x], right);
    vstd::seq_lib::lemma_multiset_commutative(left, seq![x]);
    assert(v.insert(i, x).to_multiset() =~= v.push(x).to_multiset());
}

impl Catalog {
    /// Whether the catalog is what an answer says of the tables: their names in order, and
    /// the columns under each.
    pub open spec fn tells(&self, j: Json) -> bool {
        let d = described_tables(j);
        &&& texts_sorted(strings(self.tables@))
        &&& strings(self.tables@).to_multiset() == named_items(d, d.len()).to_multiset()
        &&& columns_in(self.columns) == columns_of(d, d.len())
    }

    /// What an answer says of the tables, as it came over the wire.
    pub fn from_schema_bytes(body: &[u8]) -> (r: Result<Catalog, Error>)
        ensures
            match r {
                Ok(c) => json_in(body@) matches Ok(j) && c.tells(j),
                Err(e) => json_in(body@) == Err::<Json, Seq<char>>(e@),
            },
    {
        match json_of(body) {
            Ok(v) => Ok(Catalog::from_schema_json(&v)),
            Err(e) => Err(err(e)),
        }
    }

    /// What an answer says of the tables: their names in order, and their columns.
    pub fn from_schema_json(v: &JsonValue) -> (r: Catalog)
        ensures
            r.tells(json_tree(*v)),
    {
        let mut c = Catalog::default();
        assert(columns_in(c.columns) =~= Map::<Seq<char>, Seq<Seq<char>>>::empty());
        assert(strings(c.tables@) =~= Seq::<Seq<char>>::empty());
        let items = match items_under(v, "tables") {
            Some(x) => x,
            None => {
                return c;
            },
        };
        let ghost d = json_trees(items@);
        let mut i: usize = 0;
        while i < items.len()
            invariant
                i <= items.len(),
                d == json_trees(items@),
                texts_sorted(strings(c.tables@)),
                strings(c.tables@).to_multiset() == named_items(d, i as nat).to_multiset(),
                columns_in(c.columns) == columns_of(d, i as nat),
            decreases items.len() - i,
        {
            let t = &items[i];
            assert(d[i as int] == json_tree(*t));
            if let Some(name) = str_under(t, "name") {
                let columns = match items_under(t, "columns") {
                    Some(x) => names_in(x),
                    None => {
                        let none: Vec<String> = Vec::new();
                        assert(strings(none@) =~= Seq::<Seq<char>>::empty());
                        none
                    },
                };
                let ghost before = strings(c.tables@);
                assert(keys(c.tables@) =~= before);
                let at: usize = put_in_order(&mut c.tables, name.to_owned());
                assert(keys(c.tables@) =~= strings(c.tables@));
                assert(strings(c.tables@) =~= before.insert(at as int, name@));
                put_columns(&mut c.columns, to_lowercase(name), columns);
                proof {
                    let names = named_items(d, i as nat);
                    lemma_put_in(before, at as int, name@);
                    before.to_multiset_ensures();
                    names.to_multiset_ensures();
                    assert(before.push(name@).to_multiset() =~= names.push(name@).to_multiset());
                }
            }
            i += 1;
        }
        c
    }

    /// The columns of all tables, in order, each once.
    fn all_columns(&self) -> (r: Vec<String>)
        ensures
            texts_ascend(strings(r@)),
            forall|x: Seq<char>| #[trigger]
                strings(r@).contains(x) <==> is_column(columns_in(self.columns), x),
    {
        let lists = column_lists(&self.columns);
        let ghost m = columns_in(self.columns);
        let mut out: Vec<String> = Vec::new();
        let mut i: usize = 0;
        while i < lists.len()
            invariant
                i <= lists.len(),
                texts_ascend(strings(out@)),
                forall|x: Seq<char>| #[trigger]
                    strings(out@).contains(x) <==> exists|k: int|
                        0 <= k < i && strings((#[trigger] lists@[k])@).contains(x),
            decreases lists.len() - i,
        {
            let list = lists[i];
            let ghost v = strings(list@);
            let ghost before = strings(out@);
            let mut j: usize = 0;
            while j < list.len()
                invariant
                    j <= list.len(),
                    v == strings(list@),
                    texts_ascend(strings(out@)),
                    forall|x: Seq<char>| #[trigger]
                        strings(out@).contains(x) <==> before.contains(x) || v.take(
                            j as int,
                        ).contains(x),
                decreases list.len() - j,
            {
                put_sorted(&mut out, list[j].as_str());
                proof {
                    let a = v.take(j as int);
                    let b = v.take(j + 1);
                    assert(b =~= a.push(v[j as int]));
                    assert forall|x: Seq<char>| b.contains(x) <==> a.contains(x) || x
                        == v[j as int] by {
                        if a.contains(x) {
                            let k = choose|k: int| 0 <= k < a.len() && a[k] == x;
                            assert(b[k] == x);
                        }
                        if x == v[j as int] {
                            assert(b[j as int] == x);
                        }
                    }
                }
                j += 1;
            }
            assert(v.take(j as int) =~= v);
            proof {
                assert forall|x: Seq<char>| #[trigger] strings(out@).contains(x) <==> exists|k: int|
                    0 <= k < i + 1 && strings((#[trigger] lists@[k])@).contains(x) by {
                    if before.contains(x) {
                        let k = choose|k: int|
                            0 <= k < i && strings((#[trigger] lists@[k])@).contains(x);
                        assert(strings(lists@[k]@).contains(x));
                    }
                    if v.contains(x) {
                        assert(strings(lists@[i as int]@).contains(x));
                    }
                    if exists|k: int| 0 <= k < i + 1 && strings((#[trigger] lists@[k])@).contains(x) {
                        let k = choose|k: int|
                            0 <= k < i + 1 && strings((#[trigger] lists@[k])@).contains(x);
                        if k < i {
                            assert(before.contains(x));
                        }
                    }
                }
            }
            i += 1;
        }
        proof {
            assert forall|x: Seq<char>| #[trigger] strings(out@).contains(x) <==> is_column(m, x) by {
                if strings(out@).contains(x) {
                    let i = choose|i: int|
                        0 <= i < lists@.len() && strings((#[trigger] lists@[i])@).contains(x);
                    let k = choose|k: Seq<char>| #[trigger]
                        m.dom().contains(k) && m[k] == strings(lists@[i]@);
                    assert(m.dom().contains(k) && m[k].contains(x));
                }
                if is_column(m, x) {
                    let k = choose|k: Seq<char>| #[trigger] m.dom().contains(k) && m[k].contains(x);
                    let i = choose|i: int|
                        0 <= i < lists@.len() && strings((#[trigger] lists@[i])@) == m[k];
                    assert(strings(lists@[i]@).contains(x));
                }
            }
        }
        out
    }
}

/// Whether a table has a column of a name.
pub open spec fn is_column(m: Map<Seq<char>, Seq<Seq<char>>>, x: Seq<char>) -> bool {
    exists|k: Seq<char>| #[trigger] m.dom().contains(k) && m[k].contains(x)
}

// --- completion ----------------------------------------------------------------------------------------

/// What is offered of the language: only what the engine can do.
pub open spec fn keyword_texts() -> Seq<Seq<char>> {
    seq![
        "SELECT"@, "FROM"@, "WHERE"@, "GROUP BY"@, "ORDER BY"@, "LIMIT"@, "OFFSET"@,
        "INSERT INTO"@, "VALUES"@, "CREATE TABLE"@, "DROP TABLE"@, "IF EXISTS"@,
        "IF NOT EXISTS"@, "SHOW TABLES"@, "AND"@, "OR"@, "NOT"@, "IN"@, "BETWEEN"@, "LIKE"@,
        "ILIKE"@, "AS"@, "ASC"@, "DESC"@, "DISTINCT"@, "CAST"@, "EXTRACT"@, "INT"@, "DOUBLE"@,
        "BOOL"@, "TEXT"@, "VECTOR"@, "count("@, "sum("@, "avg("@, "min("@, "max("@, "uniq("@,
        "length("@, "lower("@, "upper("@, "abs("@, "floor("@, "ceil("@, "round("@, "sqrt("@,
        "substring("@, "to_hour("@, "to_day("@, "to_month("@, "to_year("@, "if("@,
        "l2_distance("@, "cosine_distance("@, "inner_product("@,
    ]
}

pub open spec fn texts_of(v: Seq<&str>) -> Seq<Seq<char>> {
    Seq::new(v.len(), |i: int| v[i]@)
}

/// What is offered of the language: only what the engine can do.
#[verifier::rlimit(60)]
pub fn keywords() -> (r: Vec<&'static str>)
    ensures
        texts_of(r@) == keyword_texts(),
{
    let r: Vec<&'static str> = vec![
        "SELECT", "FROM", "WHERE", "GROUP BY", "ORDER BY", "LIMIT", "OFFSET", "INSERT INTO",
        "VALUES", "CREATE TABLE", "DROP TABLE", "IF EXISTS", "IF NOT EXISTS", "SHOW TABLES",
        "AND", "OR", "NOT", "IN", "BETWEEN", "LIKE", "ILIKE", "AS", "ASC", "DESC", "DISTINCT",
        "CAST", "EXTRACT", "INT", "DOUBLE", "BOOL", "TEXT", "VECTOR", "count(", "sum(", "avg(",
        "min(", "max(", "uniq(", "length(", "lower(", "upper(", "abs(", "floor(", "ceil(",
        "round(", "sqrt(", "substring(", "to_hour(", "to_day(", "to_month(", "to_year(", "if(",
        "l2_distance(", "cosine_distance(", "inner_product(",
    ];
    assert(texts_of(r@) =~= keyword_texts());
    r
}

/// The commands of the client itself.
pub open spec fn command_texts() -> Seq<Seq<char>> {
    seq!["\\dt"@, "\\d"@, "\\timing"@, "\\q"@, "\\help"@]
}

fn commands() -> (r: Vec<&'static str>)
    ensures
        texts_of(r@) == command_texts(),
{
    let r: Vec<&'static str> = vec!["\\dt", "\\d", "\\timing", "\\q", "\\help"];
    assert(texts_of(r@) =~= command_texts());
    r
}

/// Whether a character belongs to a word that can be completed.
pub open spec fn in_word(c: char) -> bool {
    is_word_char(c) || c == '_' || c == '\\'
}

/// Where the word that ends at `i` begins.
pub open spec fn word_start(s: Seq<char>, i: int) -> int
    decreases i,
{
    if 0 < i <= s.len() && in_word(s[i - 1]) {
        word_start(s, i - 1)
    } else {
        i
    }
}

/// The text before a place, which is counted in bytes.
pub open spec fn head_of(line: Seq<char>, pos: int) -> Seq<char> {
    decode_utf8(encode_utf8(line).subrange(0, pos))
}

proof fn lemma_encode_add(a: Seq<char>, b: Seq<char>)
    ensures
        encode_utf8(a + b) == encode_utf8(a) + encode_utf8(b),
    decreases a.len(),
{
    if a.len() == 0 {
        assert(a + b =~= b);
        assert(encode_utf8(a) + encode_utf8(b) =~= encode_utf8(b));
    } else {
        lemma_encode_add(a.drop_first(), b);
        assert((a + b).drop_first() =~= a.drop_first() + b);
        assert((a + b)[0] == a[0]);
        assert(encode_utf8(a + b) =~= encode_utf8(a) + encode_utf8(b));
    }
}

/// The characters before a place, and where the word before it begins among them.
fn split_word(line: &str, pos: usize) -> (r: (Vec<char>, usize))
    requires
        is_char_boundary(encode_utf8(line@), pos as int),
        pos <= encode_utf8(line@).len(),
    ensures
        r.0@ == head_of(line@, pos as int),
        r.1 == word_start(r.0@, r.0@.len() as int),
        r.1 <= r.0@.len(),
        encode_utf8(r.0@).len() == pos,
{
    let bytes = line.as_bytes();
    let head = vstd::slice::slice_subrange(bytes, 0, pos);
    proof {
        encode_utf8_valid_utf8(line@);
        valid_utf8_split(encode_utf8(line@), pos as int);
        assert(head@ == encode_utf8(line@).subrange(0, pos as int));
        decode_utf8_encode_utf8(head@);
    }
    let v = match crate::column::utf8(head) {
        Ok(s) => {
            proof {
                encode_utf8_decode_utf8(s@);
            }
            chars_of(s)
        },
        Err(_) => Vec::new(),
    };
    let mut start: usize = v.len();
    while start > 0 && (char_is_word(v[start - 1]) || v[start - 1] == '_' || v[start - 1] == '\\')
        invariant
            start <= v.len(),
            word_start(v@, start as int) == word_start(v@, v@.len() as int),
        decreases start,
    {
        start -= 1;
    }
    (v, start)
}

/// The word before a place, and where it begins; places are counted in bytes.
pub fn word_at(line: &str, pos: usize) -> (r: (usize, String))
    requires
        is_char_boundary(encode_utf8(line@), pos as int),
        pos <= encode_utf8(line@).len(),
    ensures
        ({
            let head = head_of(line@, pos as int);
            let k = word_start(head, head.len() as int);
            r.1@ == head.skip(k) && r.0 == encode_utf8(head.take(k)).len()
        }),
{
    let (v, k) = split_word(line, pos);
    let word = string_of_range(&v, k, v.len());
    let n: usize = word.as_str().as_bytes().len();
    proof {
        assert(v@ =~= v@.take(k as int) + v@.skip(k as int));
        lemma_encode_add(v@.take(k as int), v@.skip(k as int));
        assert(word@ =~= v@.skip(k as int));
    }
    (pos - n, word)
}

/// The last word of a text, in lower case.
pub open spec fn last_word(s: Seq<char>) -> Seq<char> {
    let w = split_words(s);
    lowercase(
        if w.len() == 0 {
            ""@
        } else {
            w.last()
        },
    )
}

/// Whether only a table can follow a word.
pub open spec fn before_table(w: Seq<char>) -> bool {
    w == "from"@ || w == "into"@ || w == "table"@ || w == "join"@ || w == "update"@
}

/// Whether something is offered at the end of a text, of which a word begins at `k`: a
/// command after a backslash, a table where only a table can stand, else a column, a table
/// or a keyword.
pub open spec fn offered(
    head: Seq<char>,
    k: int,
    tables: Seq<Seq<char>>,
    columns: Map<Seq<char>, Seq<Seq<char>>>,
    x: Seq<char>,
) -> bool {
    let word = head.skip(k);
    &&& lowercase(word).is_prefix_of(lowercase(x))
    &&& if word.len() > 0 && word[0] == '\\' {
        command_texts().contains(x)
    } else if before_table(last_word(head.take(k))) {
        tables.contains(x)
    } else {
        is_column(columns, x) || tables.contains(x) || keyword_texts().contains(x)
    }
}

/// Puts those of some texts that begin with `prefix`, whatever the case, among texts that
/// ascend.
fn pick_from(cands: &Vec<String>, prefix: &str, out: &mut Vec<String>)
    requires
        texts_ascend(strings(old(out)@)),
    ensures
        texts_ascend(strings(final(out)@)),
        forall|x: Seq<char>| #[trigger]
            strings(final(out)@).contains(x) <==> strings(old(out)@).contains(x) || (strings(
                cands@,
            ).contains(x) && prefix@.is_prefix_of(lowercase(x))),
{
    let ghost t = strings(cands@);
    let ghost before = strings(out@);
    let mut i: usize = 0;
    while i < cands.len()
        invariant
            i <= cands.len(),
            t == strings(cands@),
            texts_ascend(strings(out@)),
            forall|x: Seq<char>| #[trigger]
                strings(out@).contains(x) <==> before.contains(x) || (t.take(i as int).contains(x)
                    && prefix@.is_prefix_of(lowercase(x))),
        decreases cands.len() - i,
    {
        let c = cands[i].as_str();
        assert(t[i as int] == c@);
        proof {
            let a = t.take(i as int);
            let b = t.take(i + 1);
            assert(b =~= a.push(t[i as int]));
            assert forall|x: Seq<char>| b.contains(x) <==> a.contains(x) || x == t[i as int] by {
                if a.contains(x) {
                    let k = choose|k: int| 0 <= k < a.len() && a[k] == x;
                    assert(b[k] == x);
                }
                if x == t[i as int] {
                    assert(b[i as int] == x);
                }
            }
        }
        let low = to_lowercase(c);
        if starts_with(low.as_str(), prefix) {
            put_sorted(out, c);
        }
        i += 1;
    }
    assert(t.take(i as int) =~= t);
}

fn owned(v: &Vec<&'static str>) -> (r: Vec<String>)
    ensures
        strings(r@) == texts_of(v@),
{
    let mut out: Vec<String> = Vec::new();
    let mut i: usize = 0;
    while i < v.len()
        invariant
            i <= v.len(),
            out@.len() == i,
            forall|k: int| 0 <= k < i ==> (#[trigger] out@[k])@ == v@[k]@,
        decreases v.len() - i,
    {
        out.push(v[i].to_owned());
        i += 1;
    }
    assert(strings(out@) =~= texts_of(v@));
    out
}

/// What is offered at a place of a line, in order and each once, and where the word to
/// complete begins; places are counted in bytes.
pub fn complete(line: &str, pos: usize, cat: &Catalog) -> (r: (usize, Vec<String>))
    requires
        is_char_boundary(encode_utf8(line@), pos as int),
        pos <= encode_utf8(line@).len(),
    ensures
        ({
            let head = head_of(line@, pos as int);
            let k = word_start(head, head.len() as int);
            &&& r.0 == encode_utf8(head.take(k)).len()
            &&& texts_ascend(strings(r.1@))
            &&& forall|x: Seq<char>| #[trigger]
                strings(r.1@).contains(x) <==> offered(
                    head,
                    k,
                    strings(cat.tables@),
                    columns_in(cat.columns),
                    x,
                )
        }),
{
    let (v, k) = split_word(line, pos);
    let (start, word) = word_at(line, pos);
    let lower = to_lowercase(word.as_str());
    let mut out: Vec<String> = Vec::new();
    assert(strings(out@) =~= Seq::<Seq<char>>::empty());
    let w = chars_of(word.as_str());
    if w.len() > 0 && w[0] == '\\' {
        let c = owned(&commands());
        pick_from(&c, lower.as_str(), &mut out);
        return (start, out);
    }
    let rest = string_of_range(&v, 0, k);
    assert(rest@ =~= v@.take(k as int));
    let words = words_of(rest.as_str());
    let last = if words.len() == 0 {
        to_lowercase("")
    } else {
        assert(strings(words@).last() == words@[words@.len() - 1]@);
        to_lowercase(words[words.len() - 1].as_str())
    };
    assert(last@ == last_word(rest@)) by {
        assert(strings(words@).len() == words@.len());
    }
    let p = last.as_str();
    if eq_text(p, "from") || eq_text(p, "into") || eq_text(p, "table") || eq_text(p, "join")
        || eq_text(p, "update") {
        pick_from(&cat.tables, lower.as_str(), &mut out);
        return (start, out);
    }
    let columns = cat.all_columns();
    pick_from(&columns, lower.as_str(), &mut out);
    pick_from(&cat.tables, lower.as_str(), &mut out);
    let keys = owned(&keywords());
    pick_from(&keys, lower.as_str(), &mut out);
    (start, out)
}

/// Where only a table can stand, only tables are offered.
pub proof fn lemma_only_tables(
    head: Seq<char>,
    k: int,
    tables: Seq<Seq<char>>,
    columns: Map<Seq<char>, Seq<Seq<char>>>,
    x: Seq<char>,
)
    requires
        offered(head, k, tables, columns, x),
        before_table(last_word(head.take(k))),
        head.skip(k).len() == 0 || head.skip(k)[0] != '\\',
    ensures
        tables.contains(x),
{
}

// --- the dialogue ------------------------------------------------------------------------------------

/// A command of the client.
#[derive(Debug)]
pub enum Meta {
    Quit,
    /// Runs a statement.
    Query(String),
    Timing,
    Refresh,
    Snapshot,
    Help,
    Unknown(String),
}

/// What a [`Meta`] command is.
#[verifier::ext_equal]
pub enum MetaTree {
    Quit,
    Query(Seq<char>),
    Timing,
    Refresh,
    Snapshot,
    Help,
    Unknown(Seq<char>),
}

impl View for Meta {
    type V = MetaTree;

    open spec fn view(&self) -> MetaTree {
        match *self {
            Meta::Quit => MetaTree::Quit,
            Meta::Query(s) => MetaTree::Query(s@),
            Meta::Timing => MetaTree::Timing,
            Meta::Refresh => MetaTree::Refresh,
            Meta::Snapshot => MetaTree::Snapshot,
            Meta::Help => MetaTree::Help,
            Meta::Unknown(s) => MetaTree::Unknown(s@),
        }
    }
}

/// The command that a line holds.
pub open spec fn command_in(line: Seq<char>) -> MetaTree {
    let w = split_words(line);
    let c = if w.len() == 0 {
        ""@
    } else {
        w[0]
    };
    if c == "\\q"@ || c == "\\quit"@ {
        MetaTree::Quit
    } else if c == "\\dt"@ {
        MetaTree::Query("SHOW TABLES"@)
    } else if c == "\\d"@ {
        if w.len() > 1 {
            MetaTree::Query("DESCRIBE "@ + w[1])
        } else {
            MetaTree::Query("SHOW TABLES"@)
        }
    } else if c == "\\timing"@ {
        MetaTree::Timing
    } else if c == "\\refresh"@ {
        MetaTree::Refresh
    } else if c == "\\snapshot"@ {
        MetaTree::Snapshot
    } else if c == "\\help"@ {
        MetaTree::Help
    } else {
        MetaTree::Unknown(c)
    }
}

/// The command that a line holds.
pub fn meta(line: &str) -> (r: Meta)
    ensures
        r@ == command_in(line@),
{
    let w = words_of(line);
    let ghost t = split_words(line@);
    assert(t.len() == w@.len());
    let none = String::new();
    assert(none@ =~= ""@) by {
        reveal_strlit("");
    }
    let first = if w.len() == 0 {
        none
    } else {
        assert(t[0] == w@[0]@);
        w[0].clone()
    };
    let c = first.as_str();
    if eq_text(c, "\\q") || eq_text(c, "\\quit") {
        Meta::Quit
    } else if eq_text(c, "\\dt") {
        Meta::Query("SHOW TABLES".to_owned())
    } else if eq_text(c, "\\d") {
        if w.len() > 1 {
            assert(t[1] == w@[1]@);
            Meta::Query(text2("DESCRIBE ", w[1].as_str()))
        } else {
            Meta::Query("SHOW TABLES".to_owned())
        }
    } else if eq_text(c, "\\timing") {
        Meta::Timing
    } else if eq_text(c, "\\refresh") {
        Meta::Refresh
    } else if eq_text(c, "\\snapshot") {
        Meta::Snapshot
    } else if eq_text(c, "\\help") {
        Meta::Help
    } else {
        Meta::Unknown(first)
    }
}

/// What a line of input calls for.
#[derive(Debug)]
pub enum Input {
    Nothing,
    /// More lines of the statement.
    More,
    Command(String),
    Run(String),
}

/// What an [`Input`] is.
#[verifier::ext_equal]
pub enum InputTree {
    Nothing,
    More,
    Command(Seq<char>),
    Run(Seq<char>),
}

impl View for Input {
    type V = InputTree;

    open spec fn view(&self) -> InputTree {
        match *self {
            Input::Nothing => InputTree::Nothing,
            Input::More => InputTree::More,
            Input::Command(s) => InputTree::Command(s@),
            Input::Run(s) => InputTree::Run(s@),
        }
    }
}

/// What a line calls for after the lines in `buf`, and what then stands in the buffer. A
/// statement goes on over the lines until a semicolon outside a string ends it; an empty line
/// ends it too, unless a bracket or a string is open.
pub open spec fn read(buf: Seq<char>, line: Seq<char>) -> (InputTree, Seq<char>) {
    let bare = trim(line);
    if buf.len() == 0 && bare.len() == 0 {
        (InputTree::Nothing, buf)
    } else if buf.len() == 0 && bare[0] == '\\' {
        (InputTree::Command(bare), buf)
    } else {
        let all = buf + line + "\n"@;
        if !ends_in(all, 0, false, false) && (bare.len() > 0 || is_open(all)) {
            (InputTree::More, all)
        } else {
            let stmt = without_end(trim(all), ';');
            if stmt.len() == 0 {
                (InputTree::Nothing, Seq::empty())
            } else {
                (InputTree::Run(stmt), Seq::empty())
            }
        }
    }
}

/// Reads a line: what it calls for, after the lines in `buf`.
pub fn read_line(buf: &mut String, line: &str) -> (r: Input)
    ensures
        r@ == read(old(buf)@, line@).0,
        final(buf)@ == read(old(buf)@, line@).1,
{
    let bare = trimmed(line);
    let first = chars_of(bare.as_str());
    let empty = chars_of(buf.as_str()).len() == 0;
    if empty && first.len() == 0 {
        return Input::Nothing;
    }
    if empty && first[0] == '\\' {
        return Input::Command(bare);
    }
    let all = text3(buf.as_str(), line, "\n");
    if !is_complete(all.as_str()) && (first.len() > 0 || needs_more(all.as_str())) {
        *buf = all;
        return Input::More;
    }
    let stmt = strip_end(trimmed(all.as_str()).as_str(), ';');
    *buf = String::new();
    assert(buf@ =~= Seq::<char>::empty());
    if stmt.as_str().is_empty() {
        Input::Nothing
    } else {
        Input::Run(stmt)
    }
}

// --- answers ----------------------------------------------------------------------------------------

/// A value of an answer as the client shows it.
pub open spec fn shown(j: Json) -> Seq<char> {
    match *j.node {
        JsonNode::Text(s) => s,
        JsonNode::Null => Seq::empty(),
        _ => j.text,
    }
}

pub fn render(v: &JsonValue) -> (r: String)
    ensures
        r@ == shown(json_tree(*v)),
{
    match json_str(v) {
        Some(s) => s.to_owned(),
        None => {
            if json_null(v) {
                let s = String::new();
                assert(s@ =~= Seq::<char>::empty());
                s
            } else {
                json_text(v)
            }
        },
    }
}

/// The names of the columns of an answer.
pub open spec fn answer_columns(j: Json) -> Seq<Seq<char>> {
    match items_of(j, "columns"@) {
        Some(v) => Seq::new(
            v.len(),
            |i: int|
                match *v[i].node {
                    JsonNode::Text(s) => s,
                    _ => "?"@,
                },
        ),
        None => Seq::empty(),
    }
}

pub open spec fn answer_row(j: Json) -> Seq<Seq<char>> {
    match *j.node {
        JsonNode::Array(v) => Seq::new(v.len(), |i: int| shown(v[i])),
        _ => Seq::empty(),
    }
}

/// The rows of an answer.
pub open spec fn answer_rows(j: Json) -> Seq<Seq<Seq<char>>> {
    match items_of(j, "rows"@) {
        Some(v) => Seq::new(v.len(), |i: int| answer_row(v[i])),
        None => Seq::empty(),
    }
}

fn read_columns(v: &JsonValue) -> (r: Vec<String>)
    ensures
        strings(r@) == answer_columns(json_tree(*v)),
{
    let mut out: Vec<String> = Vec::new();
    let items = match items_under(v, "columns") {
        Some(x) => x,
        None => {
            assert(strings(out@) =~= Seq::<Seq<char>>::empty());
            return out;
        },
    };
    let ghost t = json_trees(items@);
    let ghost want = answer_columns(json_tree(*v));
    let mut i: usize = 0;
    while i < items.len()
        invariant
            i <= items.len(),
            t == json_trees(items@),
            items_of(json_tree(*v), "columns"@) == Some(t),
            want == answer_columns(json_tree(*v)),
            out@.len() == i,
            forall|k: int| 0 <= k < i ==> (#[trigger] out@[k])@ == want[k],
        decreases items.len() - i,
    {
        assert(t[i as int] == json_tree(items@[i as int]));
        match json_str(&items[i]) {
            Some(s) => out.push(s.to_owned()),
            None => out.push("?".to_owned()),
        }
        i += 1;
    }
    assert(strings(out@) =~= want);
    out
}

fn read_cells(v: &JsonValue) -> (r: Vec<String>)
    ensures
        strings(r@) == answer_row(json_tree(*v)),
{
    let mut out: Vec<String> = Vec::new();
    let items = match json_items(v) {
        Some(x) => x,
        None => {
            assert(strings(out@) =~= Seq::<Seq<char>>::empty());
            return out;
        },
    };
    let ghost t = json_trees(items@);
    let mut i: usize = 0;
    while i < items.len()
        invariant
            i <= items.len(),
            t == json_trees(items@),
            out@.len() == i,
            forall|k: int| 0 <= k < i ==> (#[trigger] out@[k])@ == shown(t[k]),
        decreases items.len() - i,
    {
        assert(t[i as int] == json_tree(items@[i as int]));
        out.push(render(&items[i]));
        i += 1;
    }
    assert(strings(out@) =~= answer_row(json_tree(*v)));
    out
}

/// The columns and the rows of an answer.
pub fn read_answer(v: &JsonValue) -> (r: (Vec<String>, Vec<Vec<String>>))
    ensures
        strings(r.0@) == answer_columns(json_tree(*v)),
        string_rows(r.1@) == answer_rows(json_tree(*v)),
{
    let columns = read_columns(v);
    let mut out: Vec<Vec<String>> = Vec::new();
    let items = match items_under(v, "rows") {
        Some(x) => x,
        None => {
            assert(string_rows(out@) =~= Seq::<Seq<Seq<char>>>::empty());
            return (columns, out);
        },
    };
    let ghost t = json_trees(items@);
    let mut i: usize = 0;
    while i < items.len()
        invariant
            i <= items.len(),
            t == json_trees(items@),
            out@.len() == i,
            forall|k: int| 0 <= k < i ==> strings((#[trigger] out@[k])@) == answer_row(t[k]),
        decreases items.len() - i,
    {
        assert(t[i as int] == json_tree(items@[i as int]));
        out.push(read_cells(&items[i]));
        i += 1;
    }
    assert(string_rows(out@) =~= answer_rows(json_tree(*v)));
    (columns, out)
}

/// An answer of a server to a query.
#[derive(Debug)]
pub struct Reply {
    pub columns: Vec<String>,
    pub rows: Vec<Vec<String>>,
    /// The answer itself, for one without columns.
    pub text: String,
    /// How long the query took in milliseconds, as the bits of a double.
    pub elapsed: Option<u64>,
}

/// How long a query took, where an answer says so.
pub open spec fn elapsed_in(j: Json) -> Option<u64> {
    match field_of(j, "elapsed_ms"@) {
        Some(x) => match *x.node {
            JsonNode::Number { bits, .. } => Some(bits),
            _ => None,
        },
        None => None,
    }
}

/// An answer of a server to a query, as it came over the wire.
pub fn read_reply(body: &[u8]) -> (r: Result<Reply, Error>)
    ensures
        match r {
            Ok(x) => json_in(body@) matches Ok(j) && strings(x.columns@) == answer_columns(j)
                && string_rows(x.rows@) == answer_rows(j) && x.text@ == j.text && x.elapsed
                == elapsed_in(j),
            Err(e) => json_in(body@) == Err::<Json, Seq<char>>(e@),
        },
{
    let v = match json_of(body) {
        Ok(v) => v,
        Err(e) => {
            return Err(err(e));
        },
    };
    let (columns, rows) = read_answer(&v);
    let elapsed = match json_field(&v, "elapsed_ms") {
        Some(x) => json_bits(x),
        None => None,
    };
    Ok(Reply { columns, rows, text: json_text(&v), elapsed })
}

} // verus!
