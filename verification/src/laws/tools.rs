//! What the prompt offers, what test data looks like, and which statements are kept from the
//! parser.
use crate::bench::{
    generated, lcg_below, lemma_made_rows_len, made_rows, shortened, visit, BATCH,
};
use crate::cli::{columns_of, command_texts, listed_columns, named_items, offered};
use crate::db::{put_rows, State};
use crate::float::Floats;
use crate::json::{text_under, Json};
use crate::table::Attr;
use crate::text::{join, lowercase, split_words};
use crate::token::{depth, seen, Mark};
use vstd::prelude::*;

verus! {

// --- what the prompt offers ------------------------------------------------------------------

/// Whether a text begins as another does, whatever the case.
pub open spec fn begins_as(x: Seq<char>, word: Seq<char>) -> bool {
    let (a, b) = (lowercase(x), lowercase(word));
    a.len() >= b.len() && forall|i: int| 0 <= i < b.len() ==> #[trigger] a[i] == b[i]
}

/// Only what begins as the word that is being typed is offered: behind a backslash a command,
/// behind a word that a table's name follows a table; elsewhere a table, a column or a word of
/// the language. All of those are offered.
pub proof fn lemma_offered(
    before: Seq<char>,
    word: Seq<char>,
    tables: Seq<Seq<char>>,
    columns: Map<Seq<char>, Seq<Seq<char>>>,
    x: Seq<char>,
    k: Seq<char>,
)
    ensures
        ({
            let head = before + word;
            let offers = offered(head, before.len() as int, tables, columns, x);
            let words = split_words(before);
            let last = lowercase(
                if words.len() > 0 {
                    words[words.len() - 1]
                } else {
                    ""@
                },
            );
            let named = last == "from"@ || last == "into"@ || last == "table"@ || last == "join"@
                || last == "update"@;
            &&& offers ==> begins_as(x, word)
            &&& word.len() > 0 && word[0] == '\\' ==> (offers <==> begins_as(x, word) && (x
                == "\\dt"@ || x == "\\d"@ || x == "\\timing"@ || x == "\\q"@ || x == "\\help"@))
            &&& !(word.len() > 0 && word[0] == '\\') && named ==> (offers <==> begins_as(x, word)
                && tables.contains(x))
            &&& !(word.len() > 0 && word[0] == '\\') && !named && begins_as(x, word) && (
            tables.contains(x) || columns.dom().contains(k) && columns[k].contains(x)) ==> offers
        }),
{
    let head = before + word;
    assert(head.skip(before.len() as int) =~= word);
    assert(head.take(before.len() as int) =~= before);
    let (a, b) = (lowercase(x), lowercase(word));
    if begins_as(x, word) {
        assert(a.subrange(0, b.len() as int) =~= b);
    }
    assert(b.is_prefix_of(a) <==> begins_as(x, word));
    let c = command_texts();
    assert(c[0] == "\\dt"@ && c[1] == "\\d"@ && c[2] == "\\timing"@ && c[3] == "\\q"@ && c[4]
        == "\\help"@);
}

/// The names of what is listed, in its order.
pub proof fn lemma_named_items(v: Seq<Json>, names: Seq<Seq<char>>, n: nat)
    requires
        n <= v.len(),
        names.len() == v.len(),
        forall|i: int| 0 <= i < v.len() ==> text_under(#[trigger] v[i], "name"@) == Some(names[i]),
    ensures
        named_items(v, n) == names.take(n as int),
    decreases n,
{
    if n == 0 {
        assert(names.take(0) =~= Seq::empty());
    } else {
        lemma_named_items(v, names, (n - 1) as nat);
        assert(text_under(v[n - 1], "name"@) == Some(names[n - 1]));
        assert(names.take(n - 1).push(names[n - 1]) =~= names.take(n as int));
    }
}

/// Each table that was described has its columns, by its name in any case; no others are known.
pub proof fn lemma_columns_of(v: Seq<Json>, n: nat, i: int, name: Seq<char>)
    requires
        0 <= i < n <= v.len(),
        text_under(v[i], "name"@) == Some(name),
        forall|j: int, other: Seq<char>|
            i < j < v.len() && text_under(#[trigger] v[j], "name"@) == Some(other) ==> #[trigger]
            lowercase(other) != lowercase(name),
    ensures
        columns_of(v, n).dom().contains(lowercase(name)),
        columns_of(v, n)[lowercase(name)] == listed_columns(v[i]),
    decreases n,
{
    if i < n - 1 {
        lemma_columns_of(v, (n - 1) as nat, i, name);
        if let Some(other) = text_under(v[n - 1], "name"@) {
            assert(lowercase(other) != lowercase(name));
        }
    }
}

// --- test data -------------------------------------------------------------------------------

/// A number below a bound is below it.
pub proof fn lemma_below(s: u64, n: u64)
    requires
        n > 0,
    ensures
        lcg_below(s, n) < n,
{
}

/// Visits are by one of a million users, to one of five hosts and ten thousand pages, within
/// thirty days of July 2013; every third is counted under 62.
pub proof fn lemma_visit(i: nat, s: u64)
    ensures
        ({
            let v = visit(i, s).0;
            &&& 0 <= v.user < 1_000_000
            &&& v.host == "google.com"@ || v.host == "yandex.ru"@ || v.host == "vk.com"@ || v.host
                == "example.org"@ || v.host == "shop.test"@
            &&& v.path < 10_000
            &&& 0 <= v.counter < 1000
            &&& i % 3 == 0 ==> v.counter == 62
            &&& 1_372_636_800 <= v.time < 1_372_636_800 + 30 * 86_400
        }),
{
}

/// As many rows are made as asked for, and all of them are put in.
pub proof fn lemma_generated<F: Floats>(
    st: State,
    a: Seq<Attr>,
    from: nat,
    n: nat,
    s: u64,
    fl: F,
)
    requires
        from <= n,
    ensures
        generated(st, a, from, n, s, fl).0 matches Ok(count) ==> count == n - from,
    decreases n - from,
{
    if from < n {
        let k = if n - from < BATCH {
            (n - from) as nat
        } else {
            BATCH as nat
        };
        let (rows, s1) = made_rows(a, from, k, s, fl);
        lemma_made_rows_len(a, from, k, s, fl);
        let (r, st1) = put_rows(st, "hits"@, rows, fl);
        if r is Ok {
            lemma_generated(st1, a, from + k, n, s1, fl);
        }
    }
}

/// A statement in a report is on one line, its words with one blank between them, cut where it
/// is longer than 110 characters.
pub proof fn lemma_shortened(sql: Seq<char>)
    ensures
        ({
            let one = join(split_words(sql), seq![' ']);
            &&& one.len() <= 110 ==> shortened(sql) == one
            &&& one.len() > 110 ==> shortened(sql) == one.take(110).push('…')
        }),
{
    reveal_strlit(" ");
    reveal_strlit("…");
    assert(" "@ =~= seq![' ']);
    let one = join(split_words(sql), seq![' ']);
    if one.len() > 110 {
        assert(one.take(110) + "…"@ =~= one.take(110).push('…'));
    }
}

// --- tokens ----------------------------------------------------------------------------------

/// White space between tokens does not count.
pub proof fn lemma_seen(v: Seq<Mark>)
    ensures
        seen(v) == v.filter(|m: Mark| !(m is Space)),
    decreases v.len(),
{
    reveal(Seq::filter);
    if v.len() > 0 {
        lemma_seen(v.drop_last());
    }
}

/// How deep a token lies: the brackets that were opened before it, less those that were closed.
pub proof fn lemma_depth(v: Seq<Mark>, n: nat)
    requires
        n <= v.len(),
    ensures
        depth(v, n) == v.take(n as int).filter(|m: Mark| m is Open).len() - v.take(n as int).filter(
            |m: Mark| m is Close,
        ).len(),
    decreases n,
{
    reveal(Seq::filter);
    if n > 0 {
        lemma_depth(v, (n - 1) as nat);
        assert(v.take(n as int).drop_last() =~= v.take(n - 1));
    }
}

} // verus!
