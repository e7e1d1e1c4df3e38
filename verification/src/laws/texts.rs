//! What texts are taken for, and how they come apart.
use crate::client::lemma_trim_around;
use crate::like::like;
use crate::text::{
    all_digits, ascii_lower, ascii_lowered, dec, digit, digits, holds, integer, is_digit,
    is_space, join, lemma_next_place, lemma_space_end, lines_of, natural, next_place, number,
    run_end, run_start, same_name, space_end, space_start, split, split_from, split_words,
    stands_at, strip, trim, without_return, word_end, words_from,
};
use vstd::prelude::*;

verus! {

// --- numbers ---------------------------------------------------------------------------------

/// The number that digits write, the first of them counting most.
pub open spec fn written(s: Seq<char>) -> int {
    s.fold_left(0int, |n: int, c: char| 10 * n + (c as int - '0' as int))
}

/// Whether a text is made of digits, at least one.
pub open spec fn in_digits(s: Seq<char>) -> bool {
    s.len() > 0 && forall|i: int| 0 <= i < s.len() ==> '0' as int <= #[trigger] s[i] as int
        && s[i] as int <= '9' as int
}

proof fn lemma_written(s: Seq<char>)
    requires
        forall|i: int| 0 <= i < s.len() ==> is_digit(#[trigger] s[i]),
    ensures
        number(s) == written(s),
    decreases s.len(),
{
    if s.len() > 0 {
        assert forall|i: int| 0 <= i < s.drop_last().len() implies is_digit(
            #[trigger] s.drop_last()[i],
        ) by {
            assert(s.drop_last()[i] == s[i]);
        }
        lemma_written(s.drop_last());
        assert(is_digit(s[s.len() - 1]));
    }
}

/// A text is an integer if it is made of digits behind at most one sign, and then that number.
pub proof fn lemma_integer(s: Seq<char>)
    ensures
        in_digits(s) ==> integer(s) == Some(written(s)) && natural(s) == Some(written(s) as nat),
        in_digits(s) ==> integer(seq!['-'] + s) == Some(-written(s)) && natural(seq!['-'] + s)
            is None,
        in_digits(s) ==> integer(seq!['+'] + s) == Some(written(s)) && natural(seq!['+'] + s)
            == Some(written(s) as nat),
        integer(s) is Some <==> in_digits(s) || s.len() > 0 && (s[0] == '-' || s[0] == '+')
            && in_digits(s.skip(1)),
        natural(s) is Some <==> in_digits(s) || s.len() > 0 && s[0] == '+' && in_digits(s.skip(1)),
{
    assert(all_digits(s) <==> in_digits(s));
    assert(all_digits(s.skip(1)) <==> in_digits(s.skip(1)));
    let (m, p) = (seq!['-'] + s, seq!['+'] + s);
    assert(m.skip(1) =~= s);
    assert(p.skip(1) =~= s);
    if in_digits(s) {
        lemma_written(s);
        assert(is_digit(s[0]));
        assert(!is_digit(m[0]) && !is_digit(p[0]));
    }
}

proof fn lemma_digits(n: nat)
    ensures
        in_digits(digits(n)),
        written(digits(n)) == n,
        n > 0 ==> digits(n)[0] != '0',
        n == 0 ==> digits(n) == seq!['0'],
    decreases n,
{
    if n < 10 {
        let c = digit(n as int);
        assert(seq![c].drop_last() =~= Seq::empty());
        assert(written(seq![c].drop_last()) == 0);
        assert(written(seq![c]) == c as int - 48);
        assert(c as int == 48 + n);
    } else {
        lemma_digits(n / 10);
        let c = digit((n % 10) as int);
        assert(c as int == 48 + n % 10);
        let s = digits(n / 10);
        assert(s.push(c).drop_last() =~= s);
        assert(written(s.push(c)) == 10 * written(s) + (c as int - 48));
    }
}

/// An integer is written in digits, behind a minus if it is negative and without zeros in
/// front, and read back as what it was.
pub proof fn lemma_integer_back(n: int)
    ensures
        integer(dec(n)) == Some(n),
        n >= 0 ==> in_digits(dec(n)) && written(dec(n)) == n && natural(dec(n)) == Some(n as nat),
        n < 0 ==> dec(n) == seq!['-'] + dec(-n),
        n > 0 ==> dec(n)[0] != '0',
        dec(0) == seq!['0'],
{
    let m = if n < 0 {
        -n
    } else {
        n
    };
    lemma_digits(m as nat);
    lemma_digits(0);
    lemma_integer(digits(m as nat));
}

// --- white space -----------------------------------------------------------------------------

/// A text is what trimming leaves of it with white space on both sides; what is left has
/// none at its ends.
pub proof fn lemma_trim(s: Seq<char>) -> (r: (Seq<char>, Seq<char>))
    ensures
        s == r.0 + trim(s) + r.1,
        forall|i: int| 0 <= i < r.0.len() ==> is_space(#[trigger] r.0[i]),
        forall|i: int| 0 <= i < r.1.len() ==> is_space(#[trigger] r.1[i]),
        trim(s).len() > 0 ==> !is_space(trim(s)[0]) && !is_space(trim(s).last()),
        trim(trim(s)) == trim(s),
{
    let from = space_end(s, 0);
    lemma_space_end(s, 0);
    let to = space_start(s, from, s.len() as int);
    lemma_space_start(s, from, s.len() as int);
    let (a, b) = (s.take(from), s.skip(to));
    assert(s =~= a + trim(s) + b);
    let none = Seq::<char>::empty();
    lemma_trim_around(none, trim(s), none);
    assert(none + trim(s) + none =~= trim(s));
    (a, b)
}

proof fn lemma_space_start(s: Seq<char>, from: int, i: int)
    requires
        0 <= from <= i <= s.len(),
    ensures
        from <= space_start(s, from, i) <= i,
        forall|k: int| space_start(s, from, i) <= k < i ==> is_space(#[trigger] s[k]),
        space_start(s, from, i) > from ==> !is_space(s[space_start(s, from, i) - 1]),
    decreases i - from,
{
    if from < i && is_space(s[i - 1]) {
        lemma_space_start(s, from, i - 1);
    }
}

/// White space around a text goes, and nothing else.
pub proof fn lemma_trim_gives(a: Seq<char>, m: Seq<char>, b: Seq<char>)
    requires
        forall|i: int| 0 <= i < a.len() ==> is_space(#[trigger] a[i]),
        forall|i: int| 0 <= i < b.len() ==> is_space(#[trigger] b[i]),
        m.len() > 0 ==> !is_space(m[0]) && !is_space(m.last()),
    ensures
        trim(a + m + b) == m,
{
    lemma_trim_around(a, m, b);
}

/// The blank, the tab and the ends of lines are white space; letters, digits and signs are not.
pub proof fn lemma_spaces(c: char)
    ensures
        (c as int) < 128 ==> (is_space(c) <==> c == ' ' || c == '\t' || c == '\n' || c == '\r'
            || c as int == 11 || c as int == 12),
{
}

// --- parts -----------------------------------------------------------------------------------

/// A text without the character is one part; with it, what is before its first place is the
/// first part, and the parts of what is behind follow.
pub proof fn lemma_split(a: Seq<char>, c: char, b: Seq<char>)
    requires
        !a.contains(c),
    ensures
        split(a, c) == seq![a],
        split(a + seq![c] + b, c) == seq![a] + split(b, c),
{
    lemma_next_place(a, c, 0);
    let k = next_place(a, c, 0);
    if k < a.len() {
        assert(a[k] == c);
    }
    assert(a.subrange(0, a.len() as int) =~= a);
    let s = a + seq![c] + b;
    lemma_next_place(s, c, 0);
    let m = next_place(s, c, 0);
    assert(s[a.len() as int] == c);
    if m < a.len() {
        assert(s[m] == a[m]);
    }
    if m > a.len() {
        assert(s[a.len() as int] != c);
    }
    assert(s.subrange(0, m) =~= a);
    lemma_split_shift(a + seq![c], b, c, 0);
}

proof fn lemma_next_shift(h: Seq<char>, t: Seq<char>, c: char, i: int)
    requires
        0 <= i <= t.len(),
    ensures
        next_place(h + t, c, h.len() + i) == h.len() + next_place(t, c, i),
    decreases t.len() - i,
{
    let s = h + t;
    if i < t.len() {
        assert(s[h.len() + i] == t[i]);
        if t[i] != c {
            lemma_next_shift(h, t, c, i + 1);
        }
    }
}

proof fn lemma_split_shift(h: Seq<char>, t: Seq<char>, c: char, i: int)
    requires
        0 <= i <= t.len(),
    ensures
        split_from(h + t, c, h.len() + i) == split_from(t, c, i),
    decreases t.len() - i,
{
    let s = h + t;
    lemma_next_shift(h, t, c, i);
    lemma_next_place(t, c, i);
    let k = next_place(t, c, i);
    assert(s.subrange(h.len() + i, h.len() + k) =~= t.subrange(i, k));
    if k < t.len() {
        lemma_split_shift(h, t, c, k + 1);
        assert(h.len() + k + 1 == h.len() + (k + 1));
    } else {
        assert(s.subrange(h.len() + i, s.len() as int) =~= t.subrange(i, t.len() as int));
    }
}

/// Splitting and joining undo each other, and no part has the character.
pub proof fn lemma_split_joins(s: Seq<char>, c: char)
    ensures
        split(s, c).len() > 0,
        join(split(s, c), seq![c]) == s,
        forall|i: int| 0 <= i < split(s, c).len() ==> !(#[trigger] split(s, c)[i]).contains(c),
    decreases s.len(),
{
    lemma_next_place(s, c, 0);
    let k = next_place(s, c, 0);
    let a = s.take(k);
    assert(!a.contains(c)) by {
        if a.contains(c) {
            let i = choose|i: int| 0 <= i < a.len() && a[i] == c;
            assert(s[i] != c);
        }
    }
    if k < s.len() {
        let b = s.skip(k + 1);
        assert(s =~= a + seq![c] + b);
        lemma_split(a, c, b);
        lemma_split_joins(b, c);
        lemma_join_first(a, split(b, c), seq![c]);
        let v = split(s, c);
        assert forall|i: int| 0 <= i < v.len() implies !(#[trigger] v[i]).contains(c) by {
            if i > 0 {
                assert(v[i] == split(b, c)[i - 1]);
            }
        }
    } else {
        assert(s =~= a);
        lemma_split(a, c, Seq::empty());
    }
}

/// A text in front of others that are joined is followed by the separator.
pub proof fn lemma_join_first(a: Seq<char>, v: Seq<Seq<char>>, sep: Seq<char>)
    requires
        v.len() > 0,
    ensures
        join(seq![a] + v, sep) == a + sep + join(v, sep),
        join(seq![a], sep) == a,
        join(Seq::empty(), sep) == Seq::<char>::empty(),
    decreases v.len(),
{
    let w = seq![a] + v;
    assert(w.last() == v.last());
    if v.len() == 1 {
        assert(w.drop_last() =~= seq![a]);
        assert(v.drop_last() =~= Seq::empty());
        reveal_with_fuel(join, 2);
        assert(a + sep + v[0] =~= join(w, sep));
    } else {
        assert(w.drop_last() =~= seq![a] + v.drop_last());
        lemma_join_first(a, v.drop_last(), sep);
        assert(join(w, sep) =~= a + sep + join(v, sep));
    }
}

/// Joined texts come apart again, where none has the separator.
pub proof fn lemma_join_splits(v: Seq<Seq<char>>, c: char)
    requires
        v.len() > 0,
        forall|i: int| 0 <= i < v.len() ==> !(#[trigger] v[i]).contains(c),
    ensures
        split(join(v, seq![c]), c) == v,
    decreases v.len(),
{
    let rest = v.skip(1);
    let a = v[0];
    assert(!v[0].contains(c));
    if rest.len() == 0 {
        assert(v =~= seq![a]);
        lemma_split(a, c, Seq::empty());
    } else {
        assert(v =~= seq![a] + rest);
        assert forall|i: int| 0 <= i < rest.len() implies !(#[trigger] rest[i]).contains(c) by {
            assert(rest[i] == v[i + 1]);
        }
        lemma_join_splits(rest, c);
        lemma_join_first(a, rest, seq![c]);
        lemma_split(a, c, join(rest, seq![c]));
    }
}

/// A line ends where the next begins or the text ends; the end of a line belongs to none, be
/// it one character or two.
pub proof fn lemma_lines(a: Seq<char>, b: Seq<char>)
    requires
        !a.contains('\n'),
    ensures
        lines_of(Seq::empty()).len() == 0,
        a.len() > 0 ==> lines_of(a) == seq![a],
        lines_of(a + seq!['\n'] + b) == seq![
            if a.len() > 0 && a.last() == '\r' {
                a.drop_last()
            } else {
                a
            },
        ] + lines_of(b),
{
    let none = Seq::<char>::empty();
    lemma_split(none, '\n', none);
    lemma_split(a, '\n', b);
    lemma_split_joins(b, '\n');
    let f = |p: Seq<char>| without_return(p);
    assert(seq![none].drop_last() =~= Seq::<Seq<char>>::empty());
    assert(Seq::<Seq<char>>::empty().map_values(f) =~= Seq::empty());
    assert(seq![a].drop_last() =~= Seq::<Seq<char>>::empty());
    assert(Seq::<Seq<char>>::empty().push(a) =~= seq![a]);
    let parts = seq![a] + split(b, '\n');
    let behind = split(b, '\n');
    assert(parts.drop_last() =~= seq![a] + behind.drop_last());
    assert(parts.drop_last().map_values(f) =~= seq![without_return(a)]
        + behind.drop_last().map_values(f));
    assert(parts.last() == behind.last());
    assert(lines_of(a + seq!['\n'] + b) =~= seq![without_return(a)] + lines_of(b));
}

// --- words -----------------------------------------------------------------------------------

proof fn lemma_word_end(s: Seq<char>, i: int)
    requires
        0 <= i <= s.len(),
    ensures
        i <= word_end(s, i) <= s.len(),
        forall|k: int| i <= k < word_end(s, i) ==> !is_space(#[trigger] s[k]),
        word_end(s, i) < s.len() ==> is_space(s[word_end(s, i)]),
    decreases s.len() - i,
{
    if i < s.len() && !is_space(s[i]) {
        lemma_word_end(s, i + 1);
    }
}

/// A text without its white space.
pub open spec fn packed(s: Seq<char>) -> Seq<char> {
    s.filter(|c: char| !is_space(c))
}

/// Words hold no white space and are not empty, and together they hold all the rest of the
/// text, in its order.
pub proof fn lemma_words(s: Seq<char>)
    ensures
        forall|k: int| 0 <= k < split_words(s).len() ==> (#[trigger] split_words(s)[k]).len() > 0,
        split_words(s).flatten() == packed(s),
{
    lemma_words_from(s, 0);
    assert(s.skip(0) =~= s);
}

proof fn lemma_words_from(s: Seq<char>, i: int)
    requires
        0 <= i <= s.len(),
    ensures
        forall|k: int|
            0 <= k < words_from(s, i).len() ==> (#[trigger] words_from(s, i)[k]).len() > 0,
        words_from(s, i).flatten() == packed(s.skip(i)),
    decreases s.len() - i,
{
    let from = space_end(s, i);
    lemma_space_end(s, i);
    let blank = s.subrange(i, from);
    lemma_filter_none(blank, |c: char| !is_space(c));
    if from >= s.len() {
        assert(s.skip(i) =~= blank);
        assert(words_from(s, i).flatten() =~= Seq::empty());
    } else {
        lemma_word_end(s, from);
        let to = word_end(s, from);
        assert(to > from) by {
            assert(!is_space(s[from]));
        }
        let w = s.subrange(from, to);
        let rest = words_from(s, to);
        lemma_words_from(s, to);
        lemma_packed(s, i, from, to);
        let v = words_from(s, i);
        assert(v == seq![w] + rest);
        lemma_first_flat(w, rest);
        assert forall|k: int| 0 <= k < v.len() implies (#[trigger] v[k]).len() > 0 by {
            if k > 0 {
                assert(v[k] == rest[k - 1]);
            }
        }
    }
}

proof fn lemma_first_flat(w: Seq<char>, rest: Seq<Seq<char>>)
    ensures
        (seq![w] + rest).flatten() == w + rest.flatten(),
{
    let v = seq![w] + rest;
    assert(v.drop_first() =~= rest);
    assert(v.first() == w);
}

proof fn lemma_packed(s: Seq<char>, i: int, from: int, to: int)
    requires
        0 <= i <= from <= to <= s.len(),
        forall|k: int| i <= k < from ==> is_space(#[trigger] s[k]),
        forall|k: int| from <= k < to ==> !is_space(#[trigger] s[k]),
    ensures
        packed(s.skip(i)) == s.subrange(from, to) + packed(s.skip(to)),
{
    let keep = |c: char| !is_space(c);
    let (blank, w, rest) = (s.subrange(i, from), s.subrange(from, to), s.skip(to));
    lemma_filter_none(blank, keep);
    lemma_filter_all(w, keep);
    assert(s.skip(i) =~= blank + (w + rest));
    Seq::filter_distributes_over_add(blank, w + rest, keep);
    Seq::filter_distributes_over_add(w, rest, keep);
    assert(packed(s.skip(i)) =~= w + packed(rest));
}

proof fn lemma_filter_none(s: Seq<char>, keep: spec_fn(char) -> bool)
    requires
        forall|k: int| 0 <= k < s.len() ==> !keep(#[trigger] s[k]),
    ensures
        s.filter(keep) == Seq::<char>::empty(),
    decreases s.len(),
{
    reveal(Seq::filter);
    if s.len() > 0 {
        assert(!keep(s[s.len() - 1]));
        assert forall|k: int| 0 <= k < s.drop_last().len() implies !keep(
            #[trigger] s.drop_last()[k],
        ) by {
            assert(s.drop_last()[k] == s[k]);
        }
        lemma_filter_none(s.drop_last(), keep);
    }
}

proof fn lemma_filter_all(s: Seq<char>, keep: spec_fn(char) -> bool)
    requires
        forall|k: int| 0 <= k < s.len() ==> keep(#[trigger] s[k]),
    ensures
        s.filter(keep) == s,
    decreases s.len(),
{
    reveal(Seq::filter);
    if s.len() > 0 {
        assert(keep(s[s.len() - 1]));
        assert forall|k: int| 0 <= k < s.drop_last().len() implies keep(
            #[trigger] s.drop_last()[k],
        ) by {
            assert(s.drop_last()[k] == s[k]);
        }
        lemma_filter_all(s.drop_last(), keep);
        assert(s.drop_last().push(s.last()) =~= s);
    }
}

// --- letters ---------------------------------------------------------------------------------

/// Whether two characters are the same, or one Latin letter as a capital and as a small one.
pub open spec fn same_letter(a: char, b: char) -> bool {
    ||| a == b
    ||| 'A' as int <= a as int <= 'Z' as int && b as int == a as int + 32
    ||| 'A' as int <= b as int <= 'Z' as int && a as int == b as int + 32
}

/// Names are the same if their letters are, capital or small.
pub proof fn lemma_same_name(a: Seq<char>, b: Seq<char>)
    ensures
        same_name(a, b) <==> a.len() == b.len() && forall|i: int|
            0 <= i < a.len() ==> same_letter(#[trigger] a[i], b[i]),
{
    let (x, y) = (ascii_lowered(a), ascii_lowered(b));
    assert forall|p: char, q: char| #[trigger] same_letter(p, q) <==> ascii_lower(p)
        == ascii_lower(q) by {
        if 'A' <= p <= 'Z' {
            assert(ascii_lower(p) as int == p as int + 32);
        }
        if 'A' <= q <= 'Z' {
            assert(ascii_lower(q) as int == q as int + 32);
        }
    }
    if same_name(a, b) {
        assert(a.len() == x.len() && b.len() == y.len());
        assert forall|i: int| 0 <= i < a.len() implies same_letter(#[trigger] a[i], b[i]) by {
            assert(x[i] == y[i]);
        }
    }
    if a.len() == b.len() && forall|i: int| 0 <= i < a.len() ==> same_letter(#[trigger] a[i], b[i]) {
        assert forall|i: int| 0 <= i < a.len() implies x[i] == y[i] by {
            assert(same_letter(a[i], b[i]));
        }
        assert(x =~= y);
    }
}

/// A text holds another that stands somewhere in it.
pub proof fn lemma_holds(a: Seq<char>, w: Seq<char>, b: Seq<char>, s: Seq<char>)
    ensures
        holds(a + w + b, w),
        holds(s, w) ==> exists|x: Seq<char>, y: Seq<char>| s == #[trigger] (x + w + y),
{
    let t = a + w + b;
    assert(t.subrange(a.len() as int, (a.len() + w.len()) as int) =~= w);
    assert(stands_at(t, w, a.len() as int));
    if holds(s, w) {
        let i = choose|i: int| #[trigger] stands_at(s, w, i);
        let (x, y) = (s.take(i), s.skip(i + w.len()));
        assert(s =~= x + w + y);
    }
}

/// What is left when one character is taken from the start of a text, and one from its end, as
/// often as they stand there.
pub proof fn lemma_strip(n: nat, a: char, m: Seq<char>, k: nat, b: char)
    requires
        m.len() > 0,
        m[0] != a,
        m.last() != b,
    ensures
        strip(Seq::new(n, |i: int| a) + m + Seq::new(k, |i: int| b), a, b) == m,
{
    let x = Seq::new(n, |i: int| a);
    let y = Seq::new(k, |i: int| b);
    let s = x + m + y;
    assert forall|i: int| 0 <= i < n implies #[trigger] s[i] == a by {
        assert(s[i] == x[i]);
    }
    assert(s[n as int] == m[0]);
    lemma_run_end(s, a, 0, n as int);
    assert forall|i: int| n + m.len() <= i < s.len() implies #[trigger] s[i] == b by {
        assert(s[i] == y[i - n - m.len()]);
    }
    assert(s[n + m.len() - 1] == m.last());
    lemma_run_start(s, b, n as int, s.len() as int, (n + m.len()) as int);
    assert(s.subrange(n as int, (n + m.len()) as int) =~= m);
}

proof fn lemma_run_end(s: Seq<char>, c: char, i: int, to: int)
    requires
        0 <= i <= to < s.len(),
        forall|k: int| i <= k < to ==> #[trigger] s[k] == c,
        s[to] != c,
    ensures
        run_end(s, c, i) == to,
    decreases to - i,
{
    if i < to {
        lemma_run_end(s, c, i + 1, to);
    }
}

proof fn lemma_run_start(s: Seq<char>, c: char, from: int, i: int, to: int)
    requires
        0 <= from < to <= i <= s.len(),
        forall|k: int| to <= k < i ==> #[trigger] s[k] == c,
        s[to - 1] != c,
    ensures
        run_start(s, c, from, i) == to,
    decreases i - to,
{
    if to < i {
        lemma_run_start(s, c, from, i - 1, to);
    }
}

// --- patterns --------------------------------------------------------------------------------

/// Whether a pattern can be laid on a text: character `i` of the pattern covers the text from
/// `at[i]` to `at[i + 1]`. A percent sign covers any part of it, an underscore any one
/// character, any other character itself.
pub open spec fn lies_on(at: Seq<int>, s: Seq<char>, p: Seq<char>) -> bool {
    &&& at.len() == p.len() + 1
    &&& at[0] == 0
    &&& at[p.len() as int] == s.len()
    &&& forall|i: int| 0 <= i < p.len() ==> 0 <= #[trigger] at[i] && covers_part(at, s, p, i)
}

pub open spec fn covers_part(at: Seq<int>, s: Seq<char>, p: Seq<char>, i: int) -> bool {
    let (from, to) = (at[i], at[i + 1]);
    if p[i] == '%' {
        from <= to <= s.len()
    } else {
        to == from + 1 && to <= s.len() && (p[i] == '_' || s[from] == p[i])
    }
}

proof fn lemma_laid_first(at: Seq<int>, s: Seq<char>, p: Seq<char>, d: int, x: Seq<char>)
    requires
        p.len() > 0,
        0 <= d <= s.len(),
        x == s.skip(d),
        lies_on(at, x, p.skip(1)),
        if p[0] == '%' {
            true
        } else {
            d == 1 && (p[0] == '_' || s[0] == p[0])
        },
    ensures
        lies_on(seq![0int] + at.map_values(|k: int| k + d), s, p),
{
    let q = p.skip(1);
    let now = seq![0int] + at.map_values(|k: int| k + d);
    assert(now[1] == d);
    assert forall|i: int| 0 <= i < p.len() implies 0 <= #[trigger] now[i] && covers_part(
        now,
        s,
        p,
        i,
    ) by {
        if i > 0 {
            assert(now[i] == at[i - 1] + d);
            assert(now[i + 1] == at[i] + d);
            assert(covers_part(at, x, q, i - 1));
            assert(q[i - 1] == p[i]);
            if p[i] != '%' {
                assert(x[at[i - 1]] == s[at[i - 1] + d]);
            }
        }
    }
    assert(now[p.len() as int] == at[q.len() as int] + d);
}

/// A text matches a pattern if and only if the pattern can be laid on it.
pub proof fn lemma_like(s: Seq<char>, p: Seq<char>)
    ensures
        like(s, p) <==> exists|at: Seq<int>| lies_on(at, s, p),
{
    if like(s, p) {
        lemma_like_lies(s, p);
    }
    if exists|at: Seq<int>| lies_on(at, s, p) {
        let at = choose|at: Seq<int>| lies_on(at, s, p);
        lemma_lies_like(at, s, p);
    }
}

proof fn lemma_like_lies(s: Seq<char>, p: Seq<char>)
    requires
        like(s, p),
    ensures
        exists|at: Seq<int>| lies_on(at, s, p),
    decreases s.len() + p.len(),
{
    if p.len() == 0 {
        assert(lies_on(seq![0int], s, p));
    } else if p[0] == '%' {
        if like(s, p.skip(1)) {
            lemma_like_lies(s, p.skip(1));
            let at = choose|at: Seq<int>| lies_on(at, s, p.skip(1));
            assert(s.skip(0) =~= s);
            lemma_laid_first(at, s, p, 0, s);
        } else {
            lemma_like_lies(s.skip(1), p);
            let at = choose|at: Seq<int>| lies_on(at, s.skip(1), p);
            lemma_laid_longer(at, s, p);
        }
    } else {
        lemma_like_lies(s.skip(1), p.skip(1));
        let at = choose|at: Seq<int>| lies_on(at, s.skip(1), p.skip(1));
        lemma_laid_first(at, s, p, 1, s.skip(1));
    }
}

/// A percent sign in front covers one character more.
proof fn lemma_laid_longer(at: Seq<int>, s: Seq<char>, p: Seq<char>)
    requires
        s.len() > 0,
        p.len() > 0,
        p[0] == '%',
        lies_on(at, s.skip(1), p),
    ensures
        exists|now: Seq<int>| lies_on(now, s, p),
{
    let now = at.map_values(|k: int| k + 1).update(0, 0);
    let x = s.skip(1);
    assert forall|i: int| 0 <= i < p.len() implies 0 <= #[trigger] now[i] && covers_part(
        now,
        s,
        p,
        i,
    ) by {
        assert(0 <= at[i]);
        assert(covers_part(at, x, p, i));
        assert(now[i + 1] == at[i + 1] + 1);
        if i > 0 {
            assert(now[i] == at[i] + 1);
            if p[i] != '%' {
                assert(x[at[i]] == s[at[i] + 1]);
            }
        }
    }
    assert(now[p.len() as int] == at[p.len() as int] + 1);
    assert(lies_on(now, s, p));
}

proof fn lemma_lies_like(at: Seq<int>, s: Seq<char>, p: Seq<char>)
    requires
        lies_on(at, s, p),
    ensures
        like(s, p),
    decreases s.len() + p.len(),
{
    if p.len() > 0 {
        assert(0 <= at[0] && covers_part(at, s, p, 0));
        let d = at[1];
        if p[0] == '%' && d > 0 {
            let x = s.skip(1);
            let now = at.map_values(|k: int| k - 1).update(0, 0);
            lemma_laid_on(at, s, p, 1);
            assert forall|i: int| 0 <= i < p.len() implies 0 <= #[trigger] now[i] && covers_part(
                now,
                x,
                p,
                i,
            ) by {
                assert(covers_part(at, s, p, i));
                assert(now[i + 1] == at[i + 1] - 1);
                assert(at[i + 1] >= d);
                if i > 0 {
                    assert(now[i] == at[i] - 1);
                    if p[i] != '%' {
                        assert(x[at[i] - 1] == s[at[i]]);
                    }
                }
            }
            assert(now[p.len() as int] == at[p.len() as int] - 1);
            lemma_lies_like(now, x, p);
        } else {
            lemma_laid_on(at, s, p, 1);
            let x = s.skip(d);
            let q = p.skip(1);
            let now = at.skip(1).map_values(|k: int| k - d);
            assert forall|i: int| 0 <= i < q.len() implies 0 <= #[trigger] now[i] && covers_part(
                now,
                x,
                q,
                i,
            ) by {
                assert(covers_part(at, s, p, i + 1));
                assert(now[i] == at[i + 1] - d);
                assert(now[i + 1] == at[i + 2] - d);
                assert(q[i] == p[i + 1]);
                assert(at[i + 1] >= d);
                if q[i] != '%' {
                    assert(x[at[i + 1] - d] == s[at[i + 1]]);
                }
            }
            assert(now[q.len() as int] == at[p.len() as int] - d);
            lemma_lies_like(now, x, q);
            if d == 0 {
                assert(x =~= s);
            }
        }
    }
}

proof fn lemma_laid_on(at: Seq<int>, s: Seq<char>, p: Seq<char>, k: int)
    requires
        lies_on(at, s, p),
        1 <= k <= p.len(),
    ensures
        forall|i: int| k <= i <= p.len() ==> #[trigger] at[i] >= at[k],
    decreases p.len() - k,
{
    if k < p.len() {
        lemma_laid_on(at, s, p, k + 1);
        assert(0 <= at[k] && covers_part(at, s, p, k));
        assert(at[k + 1] >= at[k]);
    }
}

} // verus!
