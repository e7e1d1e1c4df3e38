//! What lines at a prompt and lines of a file are taken for.
use crate::bench::{
    code_lines, field_cell, field_cells, is_comment, is_median, numbers_in, ranked, tsv_line,
    unescaped_char, unescaped_from,
};
use crate::cli::{
    column_width, command_in, ends_in, is_open, open_after, padded, read, statements,
    statements_from, InputTree, MetaTree,
};
use crate::column::{Cell, DataType};
use crate::float::{total_rank, Floats};
use crate::laws::order::{comes_before, lemma_places};
use crate::laws::texts::{lemma_integer_back, lemma_join_splits, lemma_same_name};
use crate::text::{
    dec, is_space, join, natural, run_start, split_words, trim, without_end, Rank,
};
use vstd::prelude::*;

verus! {

// --- statements ------------------------------------------------------------------------------

/// Whether the place behind the first `n` characters lies inside quotes.
pub open spec fn quoted(s: Seq<char>, n: nat) -> bool
    decreases n,
{
    n > 0 && (quoted(s, (n - 1) as nat) != (s[n - 1] == '\''))
}

proof fn lemma_quoted_prefix(a: Seq<char>, b: Seq<char>, n: nat)
    requires
        n <= a.len(),
    ensures
        quoted(a + b, n) == quoted(a, n),
    decreases n,
{
    if n > 0 {
        lemma_quoted_prefix(a, b, (n - 1) as nat);
        assert((a + b)[n - 1] == a[n - 1]);
    }
}

proof fn lemma_in_one_piece(s: Seq<char>, i: int, to: int, cur: Seq<char>)
    requires
        0 <= i <= to <= s.len(),
        forall|k: int| i <= k < to && #[trigger] s[k] == ';' ==> quoted(s, k as nat),
    ensures
        statements_from(s, i, cur, quoted(s, i as nat)) == statements_from(
            s,
            to,
            cur + s.subrange(i, to),
            quoted(s, to as nat),
        ),
    decreases to - i,
{
    if i < to {
        lemma_in_one_piece(s, i + 1, to, cur.push(s[i]));
        assert(cur.push(s[i]) + s.subrange(i + 1, to) =~= cur + s.subrange(i, to));
        assert(quoted(s, (i + 1) as nat) == (quoted(s, i as nat) != (s[i] == '\'')));
    } else {
        assert(cur + s.subrange(i, to) =~= cur);
    }
}

proof fn lemma_statements_shift(h: Seq<char>, t: Seq<char>, i: int, cur: Seq<char>, q: bool)
    requires
        0 <= i <= t.len(),
    ensures
        statements_from(h + t, h.len() + i, cur, q) == statements_from(t, i, cur, q),
    decreases t.len() - i,
{
    if i < t.len() {
        let s = h + t;
        assert(s[h.len() + i] == t[i]);
        assert(h.len() + i + 1 == h.len() + (i + 1));
        if t[i] == '\'' {
            lemma_statements_shift(h, t, i + 1, cur.push(t[i]), !q);
        } else if t[i] == ';' && !q {
            lemma_statements_shift(h, t, i + 1, Seq::empty(), q);
        } else {
            lemma_statements_shift(h, t, i + 1, cur.push(t[i]), q);
        }
    }
}

/// A semicolon outside quotes ends a statement, and nothing else does; white space around a
/// statement is no part of it, and where there is nothing else there is none.
pub proof fn lemma_statements(a: Seq<char>, b: Seq<char>)
    requires
        forall|k: int| 0 <= k < a.len() && #[trigger] a[k] == ';' ==> quoted(a, k as nat),
    ensures
        ({
            let one = if trim(a).len() == 0 {
                Seq::empty()
            } else {
                seq![trim(a)]
            };
            &&& statements(a) == one
            &&& !quoted(a, a.len()) ==> statements(a + seq![';'] + b) == one + statements(b)
        }),
{
    let n = a.len() as int;
    lemma_in_one_piece(a, 0, n, Seq::empty());
    assert(Seq::<char>::empty() + a.subrange(0, n) =~= a);
    if !quoted(a, a.len()) {
        let s = a + seq![';'] + b;
        let rest = seq![';'] + b;
        assert(s =~= a + rest);
        assert forall|k: int| 0 <= k < n && #[trigger] s[k] == ';' implies quoted(s, k as nat) by {
            assert(s[k] == a[k]);
            lemma_quoted_prefix(a, rest, k as nat);
        }
        lemma_quoted_prefix(a, rest, a.len());
        lemma_in_one_piece(s, 0, n, Seq::empty());
        assert(Seq::<char>::empty() + s.subrange(0, n) =~= a);
        assert(s[n] == ';');
        lemma_statements_shift(a + seq![';'], b, 0, Seq::empty(), false);
    }
}

/// How often a character stands outside quotes among the first `n`.
pub open spec fn outside(s: Seq<char>, c: char, n: nat) -> int
    decreases n,
{
    if n == 0 {
        0
    } else {
        outside(s, c, (n - 1) as nat) + if s[n - 1] == c && !quoted(s, (n - 1) as nat) {
            1int
        } else {
            0
        }
    }
}

/// A statement goes on where a quote or a bracket is open.
pub proof fn lemma_open(s: Seq<char>)
    ensures
        is_open(s) <==> quoted(s, s.len()) || outside(s, '(', s.len()) > outside(s, ')', s.len()),
{
    lemma_open_after(s, s.len());
}

proof fn lemma_open_after(s: Seq<char>, n: nat)
    requires
        n <= s.len(),
    ensures
        open_after(s, n) == (outside(s, '(', n) - outside(s, ')', n), quoted(s, n)),
    decreases n,
{
    if n > 0 {
        lemma_open_after(s, (n - 1) as nat);
    }
}

/// Whether nothing but white space and quotes stands from a place on.
pub open spec fn idle_from(s: Seq<char>, i: int) -> bool {
    forall|k: int| i <= k < s.len() ==> is_space(#[trigger] s[k]) || s[k] == '\''
}

proof fn lemma_ends_from(s: Seq<char>, i: int, semi: bool)
    requires
        0 <= i <= s.len(),
    ensures
        ends_in(s, i, quoted(s, i as nat), semi) <==> {
            ||| semi && idle_from(s, i)
            ||| exists|k: int|
                i <= k < s.len() && #[trigger] s[k] == ';' && !quoted(s, k as nat) && idle_from(
                    s,
                    k + 1,
                )
        },
    decreases s.len() - i,
{
    if i < s.len() {
        let q = quoted(s, i as nat);
        let found = |from: int|
            exists|k: int|
                from <= k < s.len() && #[trigger] s[k] == ';' && !quoted(s, k as nat)
                    && idle_from(s, k + 1);
        assert(quoted(s, (i + 1) as nat) == (q != (s[i] == '\'')));
        if s[i] == '\'' && q && i + 1 < s.len() && s[i + 1] == '\'' {
            assert(quoted(s, (i + 2) as nat) == (quoted(s, (i + 1) as nat) != (s[i + 1] == '\'')));
            lemma_ends_from(s, i + 2, semi);
            assert(idle_from(s, i) <==> idle_from(s, i + 2)) by {
                if idle_from(s, i + 2) {
                    assert forall|k: int| i <= k < s.len() implies is_space(#[trigger] s[k]) || s[k]
                        == '\'' by {
                        assert(k == i || k == i + 1 || k >= i + 2);
                    }
                }
            }
            assert(found(i) <==> found(i + 2));
        } else {
            let now = if s[i] == '\'' {
                semi
            } else if s[i] == ';' && !q {
                true
            } else if !is_space(s[i]) {
                false
            } else {
                semi
            };
            lemma_ends_from(s, i + 1, now);
            assert(idle_from(s, i) <==> idle_from(s, i + 1) && (is_space(s[i]) || s[i] == '\''));
            if s[i] == ';' && !q {
                if idle_from(s, i + 1) {
                    assert(found(i));
                }
            }
            assert(found(i) <==> found(i + 1) || s[i] == ';' && !q && idle_from(s, i + 1));
        }
    }
}

/// Input is a whole statement if a semicolon outside quotes is the last thing in it.
pub proof fn lemma_ends(s: Seq<char>)
    ensures
        ends_in(s, 0, false, false) <==> exists|k: int|
            0 <= k < s.len() && #[trigger] s[k] == ';' && !quoted(s, k as nat) && idle_from(
                s,
                k + 1,
            ),
{
    lemma_ends_from(s, 0, false);
}

/// What is read at a prompt runs once it is whole, without the semicolons at its end; until
/// then lines are gathered.
pub proof fn lemma_read(buf: Seq<char>, line: Seq<char>) -> (n: nat)
    requires
        buf.len() > 0 || trim(line).len() > 0 && trim(line)[0] != '\\',
    ensures
        ({
            let all = buf + line + seq!['\n'];
            let (r, now) = read(buf, line);
            if !ends_in(all, 0, false, false) && (trim(line).len() > 0 || is_open(all)) {
                r == InputTree::More && now == all
            } else {
                &&& now.len() == 0
                &&& match r {
                    InputTree::Run(x) => x.len() > 0 && x.last() != ';' && trim(all) == x
                        + Seq::new(n, |i: int| ';'),
                    InputTree::Nothing => trim(all) == Seq::new(n, |i: int| ';'),
                    _ => false,
                }
            }
        }),
{
    reveal_strlit("\n");
    assert("\n"@ =~= seq!['\n']);
    let all = buf + line + seq!['\n'];
    let t = trim(all);
    let k = run_start(t, ';', 0, t.len() as int);
    lemma_run(t, ';', t.len() as int);
    let n = (t.len() - k) as nat;
    let x = without_end(t, ';');
    assert(t =~= x + Seq::new(n, |i: int| ';'));
    if x.len() == 0 {
        assert(t =~= Seq::new(n, |i: int| ';'));
    }
    n
}

proof fn lemma_run(s: Seq<char>, c: char, i: int)
    requires
        0 <= i <= s.len(),
    ensures
        0 <= run_start(s, c, 0, i) <= i,
        forall|k: int| run_start(s, c, 0, i) <= k < i ==> #[trigger] s[k] == c,
        run_start(s, c, 0, i) > 0 ==> s[run_start(s, c, 0, i) - 1] != c,
    decreases i,
{
    if 0 < i && s[i - 1] == c {
        lemma_run(s, c, i - 1);
    }
}

/// A blank line is nothing, a line that begins with a backslash is a command; neither where
/// lines are being gathered.
pub proof fn lemma_read_first(line: Seq<char>)
    ensures
        trim(line).len() == 0 ==> read(Seq::empty(), line) == (
            InputTree::Nothing,
            Seq::<char>::empty(),
        ),
        trim(line).len() > 0 && trim(line)[0] == '\\' ==> read(Seq::empty(), line) == (
            InputTree::Command(trim(line)),
            Seq::<char>::empty(),
        ),
{
}

/// The commands by their words.
pub proof fn lemma_commands(line: Seq<char>)
    requires
        split_words(line).len() > 0,
    ensures
        ({
            let w = split_words(line);
            &&& w[0] == "\\q"@ || w[0] == "\\quit"@ ==> command_in(line) == MetaTree::Quit
            &&& w[0] == "\\dt"@ ==> command_in(line) == MetaTree::Query("SHOW TABLES"@)
            &&& w[0] == "\\d"@ && w.len() == 1 ==> command_in(line) == MetaTree::Query(
                "SHOW TABLES"@,
            )
            &&& w[0] == "\\d"@ && w.len() > 1 ==> command_in(line) == MetaTree::Query(
                "DESCRIBE "@ + w[1],
            )
            &&& w[0] == "\\timing"@ ==> command_in(line) == MetaTree::Timing
            &&& w[0] == "\\refresh"@ ==> command_in(line) == MetaTree::Refresh
            &&& w[0] == "\\snapshot"@ ==> command_in(line) == MetaTree::Snapshot
            &&& w[0] == "\\help"@ ==> command_in(line) == MetaTree::Help
        }),
{
    reveal_strlit("\\q");
    reveal_strlit("\\quit");
    reveal_strlit("\\dt");
    reveal_strlit("\\d");
    reveal_strlit("\\timing");
    reveal_strlit("\\refresh");
    reveal_strlit("\\snapshot");
    reveal_strlit("\\help");
    assert("\\q"@[1] == 'q' && "\\d"@[1] == 'd' && "\\q"@.len() == 2 && "\\d"@.len() == 2);
    assert("\\quit"@[1] == 'q' && "\\help"@[1] == 'h' && "\\dt"@.len() == 3);
    assert("\\quit"@.len() == 5 && "\\help"@.len() == 5 && "\\timing"@.len() == 7);
    assert("\\refresh"@.len() == 8 && "\\snapshot"@.len() == 9);
}

// --- tables ----------------------------------------------------------------------------------

/// A column is as wide as the longest of its name and its values.
pub proof fn lemma_width(name: Seq<char>, rows: Seq<Seq<Seq<char>>>, c: int, n: nat)
    requires
        n <= rows.len(),
        0 <= c,
        forall|i: int| 0 <= i < rows.len() ==> c < (#[trigger] rows[i]).len(),
    ensures
        column_width(name, rows, c, n) >= name.len(),
        forall|i: int|
            0 <= i < n ==> column_width(name, rows, c, n) >= (#[trigger] rows[i])[c].len(),
        column_width(name, rows, c, n) == name.len() || exists|i: int|
            0 <= i < n && column_width(name, rows, c, n) == (#[trigger] rows[i])[c].len(),
    decreases n,
{
    if n > 0 {
        lemma_width(name, rows, c, (n - 1) as nat);
        assert(c < rows[n - 1].len());
    }
}

/// A value is filled up with blanks behind it, and never cut.
pub proof fn lemma_padded(s: Seq<char>, w: nat)
    ensures
        padded(s, w).len() == if w > s.len() {
            w
        } else {
            s.len()
        },
        padded(s, w).take(s.len() as int) == s,
        forall|i: int| s.len() <= i < padded(s, w).len() ==> #[trigger] padded(s, w)[i] == ' ',
{
    assert(padded(s, w).take(s.len() as int) =~= s);
}

// --- files of rows ---------------------------------------------------------------------------

/// A text as it stands in a file of rows: what would end a field or a line, and the backslash,
/// behind a backslash.
pub open spec fn escaped_text(s: Seq<char>) -> Seq<char>
    decreases s.len(),
{
    if s.len() == 0 {
        Seq::empty()
    } else {
        let c = s.last();
        escaped_text(s.drop_last()) + (if c == '\t' {
            seq!['\\', 't']
        } else if c == '\n' {
            seq!['\\', 'n']
        } else if c == '\r' {
            seq!['\\', 'r']
        } else if c == '\0' {
            seq!['\\', '0']
        } else if c == '\\' {
            seq!['\\', '\\']
        } else {
            seq![c]
        })
    }
}

/// The first of the characters of an escaped text, and the rest.
proof fn lemma_escaped_first(c: char, s: Seq<char>)
    ensures
        escaped_text(seq![c] + s) == escaped_text(seq![c]) + escaped_text(s),
    decreases s.len(),
{
    let t = seq![c] + s;
    if s.len() == 0 {
        assert(t =~= seq![c]);
        assert(escaped_text(seq![c]) + escaped_text(s) =~= escaped_text(seq![c]));
    } else {
        assert(t.drop_last() =~= seq![c] + s.drop_last());
        assert(t.last() == s.last());
        lemma_escaped_first(c, s.drop_last());
        assert(escaped_text(t) =~= escaped_text(seq![c]) + escaped_text(s));
    }
}

proof fn lemma_escaped_one(c: char)
    ensures
        escaped_text(seq![c]) == if c == '\t' {
            seq!['\\', 't']
        } else if c == '\n' {
            seq!['\\', 'n']
        } else if c == '\r' {
            seq!['\\', 'r']
        } else if c == '\0' {
            seq!['\\', '0']
        } else if c == '\\' {
            seq!['\\', '\\']
        } else {
            seq![c]
        },
{
    let one = seq![c];
    assert(one.drop_last() =~= Seq::empty());
    assert(escaped_text(one.drop_last()) =~= Seq::empty());
    assert(Seq::<char>::empty() + seq!['\\', 't'] =~= seq!['\\', 't']);
    assert(Seq::<char>::empty() + seq!['\\', 'n'] =~= seq!['\\', 'n']);
    assert(Seq::<char>::empty() + seq!['\\', 'r'] =~= seq!['\\', 'r']);
    assert(Seq::<char>::empty() + seq!['\\', '0'] =~= seq!['\\', '0']);
    assert(Seq::<char>::empty() + seq!['\\', '\\'] =~= seq!['\\', '\\']);
    assert(Seq::<char>::empty() + seq![c] =~= seq![c]);
}

proof fn lemma_unescape_shift(h: Seq<char>, t: Seq<char>, i: int)
    requires
        0 <= i <= t.len(),
    ensures
        unescaped_from(h + t, h.len() + i) == unescaped_from(t, i),
    decreases t.len() - i,
{
    let s = h + t;
    if i < t.len() {
        assert(s[h.len() + i] == t[i]);
        if t[i] != '\\' || i + 1 >= t.len() {
            lemma_unescape_shift(h, t, i + 1);
        } else {
            assert(s[h.len() + (i + 1)] == t[i + 1]);
            lemma_unescape_shift(h, t, i + 2);
        }
    }
}

/// A text is read back as it was.
pub proof fn lemma_unescaped(s: Seq<char>)
    ensures
        unescaped_from(escaped_text(s), 0) == s,
    decreases s.len(),
{
    if s.len() > 0 {
        let c = s[0];
        let rest = s.skip(1);
        lemma_unescaped(rest);
        assert(s =~= seq![c] + rest);
        lemma_escaped_first(c, rest);
        lemma_escaped_one(c);
        let (h, t) = (escaped_text(seq![c]), escaped_text(rest));
        let e = h + t;
        lemma_unescape_shift(h, t, 0);
        assert(e[0] == h[0]);
        if h.len() == 2 {
            assert(e[1] == h[1]);
            assert(unescaped_char(h[1]) == c);
        }
        assert(unescaped_from(e, 0) =~= seq![c] + rest);
    }
}

proof fn lemma_escaped_plain(s: Seq<char>)
    ensures
        forall|i: int|
            0 <= i < escaped_text(s).len() ==> (#[trigger] escaped_text(s)[i]) != '\t'
                && escaped_text(s)[i] != '\n' && escaped_text(s)[i] != '\r',
    decreases s.len(),
{
    if s.len() > 0 {
        lemma_escaped_plain(s.drop_last());
        let (before, now) = (escaped_text(s.drop_last()), escaped_text(s));
        assert forall|i: int| 0 <= i < now.len() implies (#[trigger] now[i]) != '\t' && now[i]
            != '\n' && now[i] != '\r' by {
            if i < before.len() {
                assert(now[i] == before[i]);
            } else {
                assert(i == before.len() || i == before.len() + 1);
            }
        }
    }
}

/// A value as it stands in a file of rows.
pub open spec fn field_of(c: Cell) -> Seq<char> {
    match c {
        Cell::I64(n) => dec(n as int),
        Cell::Bool(b) => if b {
            seq!['1']
        } else {
            seq!['0']
        },
        Cell::Str(s) => escaped_text(s),
        _ => Seq::empty(),
    }
}

/// Whether a value is an integer, a truth value or a text, for a column of its type.
pub open spec fn in_files(c: Cell, ty: DataType) -> bool {
    match ty {
        DataType::I64 => c is I64,
        DataType::Bool => c is Bool,
        DataType::Str => c is Str,
        _ => false,
    }
}

proof fn lemma_field<F: Floats>(c: Cell, ty: DataType, fl: F)
    requires
        in_files(c, ty),
    ensures
        field_cell(field_of(c), ty, fl) == Ok::<Cell, Seq<char>>(c),
        forall|i: int|
            0 <= i < field_of(c).len() ==> (#[trigger] field_of(c)[i]) != '\t' && field_of(c)[i]
                != '\n' && field_of(c)[i] != '\r',
{
    match c {
        Cell::I64(n) => {
            lemma_integer_back(n as int);
            lemma_integer_back(-n);
            let s = dec(n as int);
            assert forall|i: int| 0 <= i < s.len() implies (#[trigger] s[i]) != '\t' && s[i] != '\n'
                && s[i] != '\r' by {
                if n < 0 && i > 0 {
                    assert(s[i] == dec(-n)[i - 1]);
                }
            }
        },
        Cell::Bool(b) => {
            reveal_strlit("1");
            reveal_strlit("true");
            assert("1"@ =~= seq!['1']);
            assert(seq!['0'][0] != "1"@[0]);
            lemma_same_name(seq!['0'], "true"@);
        },
        Cell::Str(s) => {
            lemma_unescaped(s);
            lemma_escaped_plain(s);
        },
        _ => {},
    }
}

proof fn lemma_fields<F: Floats>(row: Seq<Cell>, types: Seq<DataType>, n: nat, fl: F)
    requires
        row.len() == types.len(),
        n <= row.len(),
        forall|i: int| 0 <= i < row.len() ==> in_files(#[trigger] row[i], types[i]),
    ensures
        field_cells(Seq::new(row.len(), |i: int| field_of(row[i])), types, n, fl) == Ok::<
            Seq<Cell>,
            Seq<char>,
        >(row.take(n as int)),
    decreases n,
{
    if n == 0 {
        assert(row.take(0) =~= Seq::empty());
    } else {
        lemma_fields(row, types, (n - 1) as nat, fl);
        assert(in_files(row[n - 1], types[n - 1]));
        lemma_field(row[n - 1], types[n - 1], fl);
        assert(row.take(n - 1).push(row[n - 1]) =~= row.take(n as int));
    }
}

proof fn lemma_joined_plain(v: Seq<Seq<char>>, i: int)
    requires
        forall|k: int, j: int|
            0 <= k < v.len() && 0 <= j < v[k].len() ==> (#[trigger] v[k][j]) != '\n' && v[k][j]
                != '\r',
        0 <= i < join(v, seq!['\t']).len(),
    ensures
        join(v, seq!['\t'])[i] != '\n',
        join(v, seq!['\t'])[i] != '\r',
    decreases v.len(),
{
    if v.len() == 1 {
        assert(v[0][i] != '\n');
    } else if v.len() > 1 {
        let w = v.drop_last();
        let a = join(w, seq!['\t']);
        assert forall|k: int, j: int| 0 <= k < w.len() && 0 <= j < w[k].len() implies (
        #[trigger] w[k][j]) != '\n' && w[k][j] != '\r' by {
            assert(w[k] == v[k]);
            assert(v[k][j] != '\n');
        }
        if i < a.len() {
            lemma_joined_plain(w, i);
        } else if i > a.len() {
            assert(v[v.len() - 1][i - a.len() - 1] != '\n');
        }
    }
}

/// A row of integers, truth values and texts that stands in a file as a line, its values with
/// tabs between them, is read back as it was; a line with nothing in it is no row.
pub proof fn lemma_line_back<F: Floats>(
    row: Seq<Cell>,
    types: Seq<DataType>,
    number: int,
    fl: F,
)
    requires
        row.len() == types.len(),
        row.len() > 0,
        forall|i: int| 0 <= i < row.len() ==> in_files(#[trigger] row[i], types[i]),
    ensures
        ({
            let line = join(Seq::new(row.len(), |i: int| field_of(row[i])), seq!['\t']);
            let r = if line.len() == 0 {
                None
            } else {
                Some(row)
            };
            &&& tsv_line(line, types, number, fl) == Ok::<Option<Seq<Cell>>, Seq<char>>(r)
            &&& tsv_line(line + seq!['\n'], types, number, fl) == Ok::<
                Option<Seq<Cell>>,
                Seq<char>,
            >(r)
            &&& tsv_line(line + seq!['\r', '\n'], types, number, fl) == Ok::<
                Option<Seq<Cell>>,
                Seq<char>,
            >(r)
        }),
{
    let v = Seq::new(row.len(), |i: int| field_of(row[i]));
    let line = join(v, seq!['\t']);
    assert forall|k: int, j: int| 0 <= k < v.len() && 0 <= j < v[k].len() implies (
    #[trigger] v[k][j]) != '\n' && v[k][j] != '\r' && v[k][j] != '\t' by {
        assert(in_files(row[k], types[k]));
        lemma_field(row[k], types[k], fl);
        assert(field_of(row[k])[j] != '\t');
    }
    assert forall|k: int| 0 <= k < v.len() implies !(#[trigger] v[k]).contains('\t') by {
        if v[k].contains('\t') {
            let j = choose|j: int| 0 <= j < v[k].len() && v[k][j] == '\t';
            assert(v[k][j] != '\t');
        }
    }
    lemma_join_splits(v, '\t');
    lemma_fields(row, types, row.len(), fl);
    assert(row.take(row.len() as int) =~= row);
    lemma_bare(line, Seq::empty(), v);
    lemma_bare(line, seq!['\n'], v);
    lemma_bare(line, seq!['\r', '\n'], v);
    assert(line + Seq::<char>::empty() =~= line);
}

proof fn lemma_bare(line: Seq<char>, end: Seq<char>, v: Seq<Seq<char>>)
    requires
        line == join(v, seq!['\t']),
        forall|k: int, j: int|
            0 <= k < v.len() && 0 <= j < v[k].len() ==> (#[trigger] v[k][j]) != '\n' && v[k][j]
                != '\r',
        end.len() == 0 || end == seq!['\n'] || end == seq!['\r', '\n'],
    ensures
        without_end(without_end(line + end, '\n'), '\r') == line,
{
    let s = line + end;
    let n = line.len() as int;
    if n > 0 {
        lemma_joined_plain(v, n - 1);
    }
    let a = without_end(s, '\n');
    lemma_run(s, '\n', s.len() as int);
    let k = run_start(s, '\n', 0, s.len() as int);
    let to = if end.len() == 2 {
        n + 1
    } else {
        n
    };
    assert(to > 0 ==> s[to - 1] != '\n');
    assert(end.len() > 0 ==> s[to] == '\n');
    assert(k == to);
    assert(a =~= s.take(to));
    lemma_run(a, '\r', a.len() as int);
    let j = run_start(a, '\r', 0, a.len() as int);
    assert(n > 0 ==> a[n - 1] == line[n - 1]);
    assert(end.len() == 2 ==> a[n] == '\r');
    assert(j == n);
    assert(a.take(n) =~= line);
}

/// Lines that begin with two dashes, behind white space or not, are left out; the others stay
/// in their order.
pub proof fn lemma_code_lines(v: Seq<Seq<char>>, n: nat)
    requires
        n <= v.len(),
    ensures
        code_lines(v, n) == v.take(n as int).filter(
            |line: Seq<char>| !is_comment(line),
        ),
    decreases n,
{
    reveal(Seq::filter);
    if n > 0 {
        lemma_code_lines(v, (n - 1) as nat);
        assert(v.take(n as int).drop_last() =~= v.take(n - 1));
    }
}

/// Numbers that are listed are read, each in its place.
pub proof fn lemma_numbers_listed(ks: Seq<usize>, v: Seq<Seq<char>>, n: nat)
    requires
        n <= v.len(),
        ks.len() == v.len(),
        forall|i: int| 0 <= i < v.len() ==> trim(#[trigger] v[i]) == dec(ks[i] as int),
    ensures
        numbers_in(v, n) == ks.take(n as int),
    decreases n,
{
    if n == 0 {
        assert(ks.take(0) =~= Seq::empty());
    } else {
        lemma_numbers_listed(ks, v, (n - 1) as nat);
        assert(trim(v[n - 1]) == dec(ks[n - 1] as int));
        lemma_integer_back(ks[n - 1] as int);
        assert(natural(dec(ks[n - 1] as int)) == Some(ks[n - 1] as nat));
        assert(ks.take(n - 1).push(ks[n - 1]) =~= ks.take(n as int));
    }
}

/// The median is what stands in the middle when the times are put in order, the upper one of
/// two.
pub proof fn lemma_median(v: Seq<u64>, m: u64)
    ensures
        is_median(v, m) <==> exists|s: Seq<u64>| #[trigger]
            ascends(s) && s.to_multiset() == v.to_multiset() && s.len() == v.len() && s[s.len()
                as int / 2] == m,
{
    assert forall|s: Seq<u64>| #[trigger] ascends(s) == ranked(s) by {
        assert forall|i: int, j: int| 0 <= i < j < s.len() implies (total_rank(
            #[trigger] s[i],
            #[trigger] s[j],
        ) != Rank::Greater <==> !comes_before(s[j], s[i])) by {
            lemma_places(s[i], s[j]);
        }
    }
    if is_median(v, m) {
        let s = choose|s: Seq<u64>| #[trigger]
            ranked(s) && s.to_multiset() == v.to_multiset() && s.len() == v.len() && s[v.len()
                as int / 2] == m;
        assert(ascends(s));
    }
}

/// Whether no double of some comes before one that stands in front of it.
pub open spec fn ascends(s: Seq<u64>) -> bool {
    forall|i: int, j: int|
        0 <= i < j < s.len() ==> !comes_before(#[trigger] s[j], #[trigger] s[i])
}

} // verus!
