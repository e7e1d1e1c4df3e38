//! SQL `LIKE`: `%` is any sequence, `_` is one character.
use crate::text::{chars_of, string_of, strings};
use vstd::prelude::*;
use vstd::string::*;

verus! {

broadcast use vstd::string::group_string_axioms;

/// Whether a text matches a pattern.
pub open spec fn like(s: Seq<char>, p: Seq<char>) -> bool
    decreases s.len() + p.len(),
{
    if p.len() == 0 {
        s.len() == 0
    } else if p[0] == '%' {
        like(s, p.skip(1)) || (s.len() > 0 && like(s.skip(1), p))
    } else {
        s.len() > 0 && (p[0] == '_' || p[0] == s[0]) && like(s.skip(1), p.skip(1))
    }
}

/// A compiled pattern: compiled once for a query, applied to each text.
#[derive(Debug)]
pub enum Pattern {
    /// A pattern without `_`: literal parts to be found one after another, the
    /// first at the start and the last at the end where the pattern has no `%`
    /// there.
    Chunks { parts: Vec<String>, anchored_start: bool, anchored_end: bool },
    /// A pattern with `_`, character by character.
    Chars(Vec<char>),
}

/// The parts, each followed by `%`.
pub open spec fn closed_parts(parts: Seq<Seq<char>>) -> Seq<char>
    decreases parts.len(),
{
    if parts.len() == 0 {
        Seq::empty()
    } else {
        parts[0] + seq!['%'] + closed_parts(parts.skip(1))
    }
}

/// The parts with `%` between them, and one more at the end unless it is anchored.
pub open spec fn tail_pattern(parts: Seq<Seq<char>>, anchored_end: bool) -> Seq<char>
    decreases parts.len(),
{
    if parts.len() == 0 {
        Seq::empty()
    } else if parts.len() == 1 && anchored_end {
        parts[0]
    } else {
        parts[0] + seq!['%'] + tail_pattern(parts.skip(1), anchored_end)
    }
}

pub open spec fn chunk_pattern(
    parts: Seq<Seq<char>>,
    anchored_start: bool,
    anchored_end: bool,
) -> Seq<char> {
    if anchored_start {
        tail_pattern(parts, anchored_end)
    } else {
        seq!['%'] + tail_pattern(parts, anchored_end)
    }
}

/// Whether a text has neither `%` nor `_`.
pub open spec fn plain(s: Seq<char>) -> bool {
    forall|i: int| 0 <= i < s.len() ==> (#[trigger] s[i]) != '%' && s[i] != '_'
}

// --- lemmas ----------------------------------------------------------------------

/// A pattern that starts with `%` matches a longer text too.
proof fn lemma_star_longer(s: Seq<char>, p: Seq<char>, i: int, j: int)
    requires
        p.len() > 0,
        p[0] == '%',
        0 <= i <= j <= s.len(),
        like(s.skip(j), p),
    ensures
        like(s.skip(i), p),
    decreases j - i,
{
    if i < j {
        lemma_star_longer(s, p, i + 1, j);
        assert(s.skip(i).skip(1) =~= s.skip(i + 1));
    }
}

/// Where a leading `%` ends.
proof fn lemma_star_ends(s: Seq<char>, p: Seq<char>, i: int) -> (k: int)
    requires
        p.len() > 0,
        p[0] == '%',
        0 <= i <= s.len(),
        like(s.skip(i), p),
    ensures
        i <= k <= s.len(),
        like(s.skip(k), p.skip(1)),
    decreases s.len() - i,
{
    if like(s.skip(i), p.skip(1)) {
        i
    } else {
        assert(s.skip(i).skip(1) =~= s.skip(i + 1));
        lemma_star_ends(s, p, i + 1)
    }
}

/// Characters of a pattern that are no `%` take one character of the text each.
proof fn lemma_segment(s: Seq<char>, p: Seq<char>, k: int, a: int, b: int)
    requires
        0 <= k <= s.len(),
        0 <= a <= b <= p.len(),
        forall|i: int| a <= i < b ==> (#[trigger] p[i]) != '%',
        like(s.skip(k), p.skip(a)),
    ensures
        k + (b - a) <= s.len(),
        like(s.skip(k + (b - a)), p.skip(b)),
    decreases b - a,
{
    if a < b {
        assert(p.skip(a)[0] == p[a]);
        assert(s.skip(k).skip(1) =~= s.skip(k + 1));
        assert(p.skip(a).skip(1) =~= p.skip(a + 1));
        lemma_segment(s, p, k + 1, a + 1, b);
    }
}

proof fn lemma_all_stars(p: Seq<char>, s: Seq<char>)
    requires
        s.len() == 0,
    ensures
        like(s, p) == (forall|i: int| 0 <= i < p.len() ==> p[i] == '%'),
    decreases p.len(),
{
    if p.len() > 0 {
        lemma_all_stars(p.skip(1), s);
        if p[0] == '%' {
            assert forall|i: int| 0 <= i < p.len() && (forall|k: int|
                0 <= k < p.skip(1).len() ==> p.skip(1)[k] == '%') implies p[i] == '%' by {
                if i > 0 {
                    assert(p.skip(1)[i - 1] == '%');
                }
            }
            if forall|i: int| 0 <= i < p.len() ==> p[i] == '%' {
                assert forall|k: int| 0 <= k < p.skip(1).len() implies p.skip(1)[k] == '%' by {
                    assert(p[k + 1] == '%');
                }
            }
        }
    }
}

/// A literal at the start of a pattern is a literal at the start of the text.
proof fn lemma_literal(s: Seq<char>, w: Seq<char>, r: Seq<char>)
    requires
        plain(w),
    ensures
        like(s, w + r) == (w.is_prefix_of(s) && like(s.skip(w.len() as int), r)),
    decreases w.len(),
{
    if w.len() == 0 {
        assert(w + r =~= r);
        assert(s.skip(0) =~= s);
    } else {
        assert((w + r)[0] == w[0]);
        assert((w + r).skip(1) =~= w.skip(1) + r);
        if s.len() > 0 {
            assert forall|i: int| 0 <= i < w.skip(1).len() implies (#[trigger] w.skip(1)[i]) != '%'
                && w.skip(1)[i] != '_' by {
                assert(w[i + 1] != '%');
            }
            lemma_literal(s.skip(1), w.skip(1), r);
            if w.len() <= s.len() {
                assert(s.skip(1).skip(w.skip(1).len() as int) =~= s.skip(w.len() as int));
            }
            if w.is_prefix_of(s) {
                assert(w.skip(1) =~= s.skip(1).take(w.len() - 1));
                assert(w[0] == s[0]);
            }
            if w[0] == s[0] && w.skip(1).is_prefix_of(s.skip(1)) {
                assert(w =~= s.take(w.len() as int)) by {
                    assert forall|i: int| 0 <= i < w.len() implies w[i] == s[i] by {
                        if i > 0 {
                            assert(w.skip(1)[i - 1] == s.skip(1)[i - 1]);
                        }
                    }
                }
            }
        }
    }
}

/// Two `%` in a row are one.
proof fn lemma_double_star(s: Seq<char>, x: Seq<char>, r: Seq<char>)
    ensures
        like(s, x + seq!['%'] + seq!['%'] + r) == like(s, x + seq!['%'] + r),
    decreases s.len() + x.len(),
{
    let p = x + seq!['%'] + seq!['%'] + r;
    let q = x + seq!['%'] + r;
    if x.len() == 0 {
        assert(p.skip(1) =~= q);
        if s.len() > 0 {
            lemma_double_star(s.skip(1), x, r);
        }
    } else {
        assert(p[0] == x[0] && q[0] == x[0]);
        assert(p.skip(1) =~= x.skip(1) + seq!['%'] + seq!['%'] + r);
        assert(q.skip(1) =~= x.skip(1) + seq!['%'] + r);
        lemma_double_star(s, x.skip(1), r);
        if s.len() > 0 {
            lemma_double_star(s.skip(1), x, r);
            lemma_double_star(s.skip(1), x.skip(1), r);
        }
    }
}

proof fn lemma_closed_push(parts: Seq<Seq<char>>, w: Seq<char>)
    ensures
        closed_parts(parts.push(w)) == closed_parts(parts) + w + seq!['%'],
    decreases parts.len(),
{
    if parts.len() == 0 {
        assert(parts.push(w).skip(1) =~= parts);
        assert(closed_parts(parts.push(w)) =~= closed_parts(parts) + w + seq!['%']);
    } else {
        lemma_closed_push(parts.skip(1), w);
        assert(parts.push(w).skip(1) =~= parts.skip(1).push(w));
        assert(closed_parts(parts.push(w)) =~= closed_parts(parts) + w + seq!['%']);
    }
}

/// Parts that are all closed make the pattern whose end is free.
proof fn lemma_free_end(parts: Seq<Seq<char>>)
    ensures
        tail_pattern(parts, false) == closed_parts(parts),
    decreases parts.len(),
{
    if parts.len() > 0 {
        lemma_free_end(parts.skip(1));
    }
}

proof fn lemma_anchored_end(parts: Seq<Seq<char>>, w: Seq<char>)
    ensures
        tail_pattern(parts.push(w), true) == closed_parts(parts) + w,
    decreases parts.len(),
{
    if parts.len() == 0 {
        assert(closed_parts(parts) + w =~= w);
    } else {
        assert(parts.push(w).skip(1) =~= parts.skip(1).push(w));
        lemma_anchored_end(parts.skip(1), w);
        assert(tail_pattern(parts.push(w), true) =~= closed_parts(parts) + w);
    }
}

// --- matching --------------------------------------------------------------------

impl Pattern {
    /// The texts that the compiled pattern is meant for.
    pub open spec fn accepts(self, s: Seq<char>) -> bool {
        match self {
            Pattern::Chunks { parts, anchored_start, anchored_end } => like(
                s,
                chunk_pattern(strings(parts@), anchored_start, anchored_end),
            ),
            Pattern::Chars(p) => like(s, p@),
        }
    }

    /// What the parts of a compiled pattern are like.
    pub open spec fn wf(self) -> bool {
        match self {
            Pattern::Chunks { parts, anchored_start, anchored_end } => {
                &&& forall|i: int|
                    0 <= i < parts@.len() ==> plain(#[trigger] strings(parts@)[i]) && strings(
                        parts@,
                    )[i].len() > 0
                &&& parts@.len() == 0 ==> anchored_start == anchored_end
            },
            Pattern::Chars(_) => true,
        }
    }

    #[verifier::loop_isolation(false)]
    #[verifier::rlimit(40)]
    #[verifier::spinoff_prover]
    pub fn compile(pat: &str) -> (r: Pattern)
        ensures
            r.wf(),
            forall|s: Seq<char>| #[trigger] r.accepts(s) == like(s, pat@),
    {
        let v = chars_of(pat);
        let mut k: usize = 0;
        while k < v.len()
            invariant
                k <= v.len(),
                forall|i: int| 0 <= i < k ==> (#[trigger] v@[i]) != '_',
            decreases v.len() - k,
        {
            if v[k] == '_' {
                return Pattern::Chars(v);
            }
            k += 1;
        }
        let mut parts: Vec<String> = Vec::new();
        let mut cur: Vec<char> = Vec::new();
        let free_start: bool = v.len() > 0 && v[0] == '%';
        let ghost lead: Seq<char> = if free_start {
            seq!['%']
        } else {
            Seq::empty()
        };
        let ghost mut built: Seq<char> = Seq::empty();
        let mut i: usize = 0;
        proof {
            assert(strings(parts@) =~= Seq::<Seq<char>>::empty());
            assert(pat@.take(0) =~= Seq::<char>::empty());
        }
        while i < v.len()
            invariant
                i <= v.len(),
                i == 0 ==> built.len() == 0 && parts@.len() == 0 && cur@.len() == 0,
                i > 0 ==> built == lead + closed_parts(strings(parts@)) + cur@,
                i > 0 && cur@.len() == 0 ==> built.len() > 0 && built.last() == '%',
                plain(cur@),
                forall|j: int|
                    0 <= j < parts@.len() ==> plain(#[trigger] strings(parts@)[j]) && strings(
                        parts@,
                    )[j].len() > 0,
                forall|s: Seq<char>, r: Seq<char>|
                    #![trigger like(s, pat@.take(i as int) + r)]
                    like(s, pat@.take(i as int) + r) == like(s, built + r),
            decreases v.len() - i,
        {
            let c = v[i];
            let ghost before = built;
            let ghost parts0 = strings(parts@);
            if c != '%' {
                cur.push(c);
                proof {
                    built = before.push(c);
                    if i == 0 {
                        assert(closed_parts(parts0) =~= Seq::<char>::empty());
                    }
                    assert(built =~= lead + closed_parts(parts0) + cur@);
                    assert forall|s: Seq<char>, r: Seq<char>|
                        #![trigger like(s, pat@.take(i + 1) + r)]
                        like(s, pat@.take(i + 1) + r) == like(s, built + r) by {
                        assert(pat@.take(i + 1) + r =~= pat@.take(i as int) + (seq![c] + r));
                        assert(built + r =~= before + (seq![c] + r));
                    }
                }
            } else if i == 0 || cur.len() == 0 {
                proof {
                    if i == 0 {
                        built = seq!['%'];
                        assert(closed_parts(parts0) =~= Seq::<char>::empty());
                        assert(built =~= lead + closed_parts(parts0) + cur@);
                        assert forall|s: Seq<char>, r: Seq<char>|
                            #![trigger like(s, pat@.take(i + 1) + r)]
                            like(s, pat@.take(i + 1) + r) == like(s, built + r) by {
                            assert(pat@.take(i + 1) + r =~= built + r);
                        }
                    } else {
                        assert forall|s: Seq<char>, r: Seq<char>|
                            #![trigger like(s, pat@.take(i + 1) + r)]
                            like(s, pat@.take(i + 1) + r) == like(s, built + r) by {
                            let x = built.drop_last();
                            assert(pat@.take(i + 1) + r =~= pat@.take(i as int) + (seq!['%'] + r));
                            assert(built + (seq!['%'] + r) =~= x + seq!['%'] + seq!['%'] + r);
                            assert(built + r =~= x + seq!['%'] + r);
                            lemma_double_star(s, x, r);
                        }
                    }
                }
            } else {
                parts.push(string_of(&cur));
                proof {
                    built = before.push('%');
                    lemma_closed_push(parts0, cur@);
                    assert(strings(parts@) =~= parts0.push(cur@));
                    assert(built =~= lead + closed_parts(strings(parts@)) + Seq::<char>::empty());
                    assert forall|s: Seq<char>, r: Seq<char>|
                        #![trigger like(s, pat@.take(i + 1) + r)]
                        like(s, pat@.take(i + 1) + r) == like(s, built + r) by {
                        assert(pat@.take(i + 1) + r =~= pat@.take(i as int) + (seq![c] + r));
                        assert(built + r =~= before + (seq![c] + r));
                    }
                    assert forall|j: int| 0 <= j < parts@.len() implies plain(
                        #[trigger] strings(parts@)[j],
                    ) && strings(parts@)[j].len() > 0 by {
                        if j < parts0.len() {
                            assert(strings(parts@)[j] == parts0[j]);
                        }
                    }
                }
                cur = Vec::new();
            }
            i += 1;
        }
        let ghost parts1 = strings(parts@);
        let anchored_end: bool = v.len() == 0 || cur.len() > 0;
        if cur.len() > 0 {
            parts.push(string_of(&cur));
            proof {
                assert(strings(parts@) =~= parts1.push(cur@));
                lemma_anchored_end(parts1, cur@);
                assert forall|j: int| 0 <= j < parts@.len() implies plain(
                    #[trigger] strings(parts@)[j],
                ) && strings(parts@)[j].len() > 0 by {
                    if j < parts1.len() {
                        assert(strings(parts@)[j] == parts1[j]);
                    }
                }
            }
        }
        proof {
            lemma_free_end(parts1);
            let whole = chunk_pattern(strings(parts@), !free_start, anchored_end);
            if v@.len() > 0 {
                assert(whole =~= built);
            } else {
                assert(whole =~= pat@);
                assert(built =~= pat@);
            }
            assert forall|s: Seq<char>| like(s, whole) == like(s, pat@) by {
                let none = Seq::<char>::empty();
                assert(pat@.take(v@.len() as int) + none =~= pat@);
                assert(built + none =~= built);
                assert(like(s, pat@.take(v@.len() as int) + none) == like(s, built + none));
            }
        }
        Pattern::Chunks { parts, anchored_start: !free_start, anchored_end }
    }

    /// Whether the text matches the pattern.
    pub fn matches(&self, s: &str) -> (r: bool)
        requires
            self.wf(),
        ensures
            r == self.accepts(s@),
    {
        match self {
            Pattern::Chunks { parts, anchored_start, anchored_end } => {
                let v = chars_of(s);
                match_parts(&v, parts, *anchored_start, *anchored_end)
            },
            Pattern::Chars(p) => {
                let v = chars_of(s);
                match_chars(&v, p)
            },
        }
    }
}

/// Whether `w` stands in `s` at place `k`.
fn stands_at(s: &Vec<char>, k: usize, w: &Vec<char>) -> (r: bool)
    requires
        k <= s.len(),
    ensures
        r == w@.is_prefix_of(s@.skip(k as int)),
{
    if s.len() - k < w.len() {
        return false;
    }
    let mut i: usize = 0;
    while i < w.len()
        invariant
            i <= w.len(),
            k + w.len() <= s.len(),
            forall|j: int| 0 <= j < i ==> (#[trigger] w@[j]) == s@[k + j],
        decreases w.len() - i,
    {
        if w[i] != s[k + i] {
            assert(s@.skip(k as int)[i as int] == s@[k + i]);
            return false;
        }
        i += 1;
    }
    assert(w@ =~= s@.skip(k as int).take(w@.len() as int));
    true
}

/// The first place at or after `from` where `w` stands in `s`.
fn find(s: &Vec<char>, from: usize, w: &Vec<char>) -> (r: Option<usize>)
    requires
        from <= s.len(),
    ensures
        match r {
            Some(k) => from <= k <= s.len() && w@.is_prefix_of(s@.skip(k as int)) && forall|j: int|
                from <= j < k ==> !w@.is_prefix_of(#[trigger] s@.skip(j)),
            None => forall|j: int|
                from <= j <= s@.len() ==> !w@.is_prefix_of(#[trigger] s@.skip(j)),
        },
{
    let mut k: usize = from;
    loop
        invariant
            from <= k <= s.len(),
            forall|j: int| from <= j < k ==> !w@.is_prefix_of(#[trigger] s@.skip(j)),
        decreases s.len() - k,
    {
        if stands_at(s, k, w) {
            return Some(k);
        }
        if k == s.len() {
            return None;
        }
        k += 1;
    }
}

proof fn lemma_ends_with(s: Seq<char>, w: Seq<char>)
    requires
        plain(w),
    ensures
        like(s, seq!['%'] + w) == (w.len() <= s.len() && s.skip(s.len() - w.len()) == w),
    decreases s.len(),
{
    let p = seq!['%'] + w;
    assert(p.skip(1) =~= w);
    assert(w + Seq::<char>::empty() =~= w);
    lemma_literal(s, w, Seq::empty());
    if w.len() == s.len() {
        assert(s.skip(0) =~= s);
        if w.is_prefix_of(s) {
            assert(s.take(w.len() as int) =~= s);
        }
    }
    if s.len() > 0 {
        lemma_ends_with(s.skip(1), w);
        if w.len() < s.len() {
            assert(s.skip(1).skip(s.skip(1).len() - w.len()) =~= s.skip(s.len() - w.len()));
        }
    }
}

proof fn lemma_found(s: Seq<char>, from: int, w: Seq<char>, r: Seq<char>, k: int)
    requires
        plain(w),
        r.len() > 0,
        r[0] == '%',
        0 <= from <= k <= s.len(),
        w.is_prefix_of(s.skip(k)),
        forall|j: int| from <= j < k ==> !w.is_prefix_of(#[trigger] s.skip(j)),
    ensures
        k + w.len() <= s.len(),
        like(s.skip(from), seq!['%'] + w + r) == like(s.skip(k + w.len()), r),
{
    let p = seq!['%'] + w + r;
    assert(p.skip(1) =~= w + r);
    assert(s.skip(k).skip(w.len() as int) =~= s.skip(k + w.len()));
    lemma_literal(s.skip(k), w, r);
    if like(s.skip(k + w.len()), r) {
        assert(like(s.skip(k), p));
        lemma_star_longer(s, p, from, k);
    }
    if like(s.skip(from), p) {
        let m = lemma_star_ends(s, p, from);
        lemma_literal(s.skip(m), w, r);
        assert(m >= k);
        assert(s.skip(m).skip(w.len() as int) =~= s.skip(m + w.len()));
        lemma_star_longer(s, r, k + w.len(), m + w.len());
    }
}

proof fn lemma_not_found(s: Seq<char>, from: int, w: Seq<char>, r: Seq<char>)
    requires
        plain(w),
        0 <= from <= s.len(),
        forall|j: int| from <= j <= s.len() ==> !w.is_prefix_of(#[trigger] s.skip(j)),
    ensures
        !like(s.skip(from), seq!['%'] + w + r),
{
    let p = seq!['%'] + w + r;
    assert(p.skip(1) =~= w + r);
    if like(s.skip(from), p) {
        let m = lemma_star_ends(s, p, from);
        lemma_literal(s.skip(m), w, r);
    }
}

/// What is left to match from part `i` on.
spec fn left(parts: Seq<Seq<char>>, i: int, anchored_start: bool, anchored_end: bool) -> Seq<char> {
    if i == 0 {
        chunk_pattern(parts, anchored_start, anchored_end)
    } else if i >= parts.len() && anchored_end {
        Seq::empty()
    } else {
        seq!['%'] + tail_pattern(parts.skip(i), anchored_end)
    }
}

fn match_parts(s: &Vec<char>, parts: &Vec<String>, anchored_start: bool, anchored_end: bool) -> (r:
    bool)
    requires
        (Pattern::Chunks { parts: *parts, anchored_start, anchored_end }).wf(),
    ensures
        r == like(s@, chunk_pattern(strings(parts@), anchored_start, anchored_end)),
{
    let ghost ps = strings(parts@);
    if parts.len() == 0 {
        proof {
            if !anchored_start {
                assert(chunk_pattern(ps, anchored_start, anchored_end) =~= seq!['%']);
                lemma_like_any(s@);
            }
        }
        return !(anchored_start && anchored_end) || s.len() == 0;
    }
    let mut pos: usize = 0;
    let mut i: usize = 0;
    assert(s@.skip(0) =~= s@);
    while i < parts.len()
        invariant
            i <= parts.len(),
            pos <= s.len(),
            ps == strings(parts@),
            parts.len() > 0,
            forall|j: int| 0 <= j < ps.len() ==> plain(#[trigger] ps[j]) && ps[j].len() > 0,
            i > 0 && i == parts.len() && anchored_end ==> i == 1 && anchored_start,
            like(s@.skip(pos as int), left(ps, i as int, anchored_start, anchored_end)) == like(
                s@,
                chunk_pattern(ps, anchored_start, anchored_end),
            ),
        decreases parts.len() - i,
    {
        let part = chars_of(parts[i].as_str());
        let last: bool = i + 1 == parts.len();
        let ghost w = ps[i as int];
        let ghost rest = left(ps, i + 1, anchored_start, anchored_end);
        proof {
            assert(w == part@);
            assert(plain(w));
            assert(ps.skip(i as int)[0] == w);
            assert(ps.skip(i as int).skip(1) =~= ps.skip(i + 1));
            assert(ps.skip(0) =~= ps);
            if last {
                assert(ps.skip(i + 1) =~= Seq::<Seq<char>>::empty());
            }
        }
        if i == 0 && anchored_start {
            assert(left(ps, i as int, anchored_start, anchored_end) =~= w + rest);
            proof {
                lemma_literal(s@.skip(pos as int), w, rest);
            }
            if !stands_at(s, pos, &part) {
                return false;
            }
            assert(s@.skip(pos as int).skip(w.len() as int) =~= s@.skip(pos + w.len()));
            pos += part.len();
        } else if last && anchored_end {
            assert(left(ps, i as int, anchored_start, anchored_end) =~= seq!['%'] + w);
            proof {
                lemma_ends_with(s@.skip(pos as int), w);
            }
            if s.len() - pos < part.len() {
                return false;
            }
            let k: usize = s.len() - part.len();
            assert(s@.skip(pos as int).skip(s@.skip(pos as int).len() - w.len()) =~= s@.skip(
                k as int,
            ));
            let hit = stands_at(s, k, &part);
            proof {
                assert(s@.skip(k as int).len() == w.len());
                if w.is_prefix_of(s@.skip(k as int)) {
                    assert(s@.skip(k as int).take(w.len() as int) =~= s@.skip(k as int));
                }
                if s@.skip(k as int) == w {
                    assert(w.is_prefix_of(s@.skip(k as int)));
                }
            }
            return hit;
        } else {
            assert(left(ps, i as int, anchored_start, anchored_end) =~= seq!['%'] + w + rest);
            match find(s, pos, &part) {
                Some(k) => {
                    proof {
                        lemma_found(s@, pos as int, w, rest, k as int);
                    }
                    pos = k + part.len();
                },
                None => {
                    proof {
                        lemma_not_found(s@, pos as int, w, rest);
                    }
                    return false;
                },
            }
        }
        i += 1;
    }
    proof {
        assert(ps.skip(i as int) =~= Seq::<Seq<char>>::empty());
        if anchored_end {
            assert(s@.skip(pos as int).len() == s@.len() - pos);
        } else {
            assert(left(ps, i as int, anchored_start, anchored_end) =~= seq!['%']);
            lemma_like_any(s@.skip(pos as int));
        }
    }
    !anchored_end || pos == s.len()
}

/// A greedy matcher that goes back to the last `%` only.
fn match_chars(s: &Vec<char>, p: &Vec<char>) -> (r: bool)
    ensures
        r == like(s@, p@),
{
    let mut si: usize = 0;
    let mut pi: usize = 0;
    let mut starred: bool = false;
    let mut star_pi: usize = 0;
    let mut star_si: usize = 0;
    assert(s@.skip(0) =~= s@);
    assert(p@.skip(0) =~= p@);
    while si < s.len()
        invariant
            si <= s.len(),
            pi <= p.len(),
            starred ==> star_pi < pi && p@[star_pi as int] == '%' && star_si <= si && si - star_si
                == pi - star_pi - 1,
            starred ==> forall|k: int| star_pi < k < pi ==> (#[trigger] p@[k]) != '%',
            !starred ==> star_pi == 0 && star_si == 0,
            like(s@, p@) == (like(s@.skip(si as int), p@.skip(pi as int)) || (starred && star_si
                < s.len() && like(s@.skip(star_si + 1), p@.skip(star_pi as int)))),
        decreases
                p.len() - star_pi + (if starred {
                    0int
                } else {
                    1
                }),
                s.len() - star_si,
                p.len() - pi,
    {
        let ghost here = p@.skip(pi as int);
        proof {
            if pi < p.len() {
                assert(here[0] == p@[pi as int]);
                assert(here.skip(1) =~= p@.skip(pi + 1));
            }
            assert(s@.skip(si as int).skip(1) =~= s@.skip(si + 1));
        }
        if pi < p.len() && p[pi] == '%' {
            proof {
                if starred && star_si < s.len() && like(
                    s@.skip(star_si + 1),
                    p@.skip(star_pi as int),
                ) {
                    let old_star = p@.skip(star_pi as int);
                    assert(old_star[0] == '%');
                    let k = lemma_star_ends(s@, old_star, star_si + 1);
                    assert(old_star.skip(1) =~= p@.skip(star_pi + 1));
                    lemma_segment(s@, p@, k, star_pi + 1, pi as int);
                    lemma_star_longer(s@, here, si as int, k + (pi - (star_pi + 1)));
                }
            }
            starred = true;
            star_pi = pi;
            star_si = si;
            pi += 1;
        } else if pi < p.len() && (p[pi] == '_' || p[pi] == s[si]) {
            si += 1;
            pi += 1;
        } else if starred {
            proof {
                let back = p@.skip(star_pi as int);
                assert(back[0] == '%');
                assert(back.skip(1) =~= p@.skip(star_pi + 1));
                if star_si + 1 < s.len() {
                    assert(s@.skip(star_si + 1).skip(1) =~= s@.skip(star_si + 2));
                }
            }
            star_si += 1;
            si = star_si;
            pi = star_pi + 1;
        } else {
            return false;
        }
    }
    proof {
        if starred && star_si < s.len() && like(s@.skip(star_si + 1), p@.skip(star_pi as int)) {
            let old_star = p@.skip(star_pi as int);
            assert(old_star[0] == '%');
            let k = lemma_star_ends(s@, old_star, star_si + 1);
            assert(old_star.skip(1) =~= p@.skip(star_pi + 1));
            lemma_segment(s@, p@, k, star_pi + 1, pi as int);
        }
        lemma_all_stars(p@.skip(pi as int), s@.skip(si as int));
    }
    let ghost start = pi;
    while pi < p.len()
        invariant
            start <= pi <= p.len(),
            forall|k: int| start <= k < pi ==> (#[trigger] p@[k]) == '%',
            like(s@, p@) == (forall|i: int|
                0 <= i < p@.skip(start as int).len() ==> p@.skip(start as int)[i] == '%'),
        decreases p.len() - pi,
    {
        if p[pi] != '%' {
            assert(p@.skip(start as int)[pi - start] == p@[pi as int]);
            return false;
        }
        pi += 1;
    }
    assert forall|i: int| 0 <= i < p@.skip(start as int).len() implies p@.skip(start as int)[i]
        == '%' by {
        assert(p@[start + i] == '%');
    }
    true
}

// --- laws -------------------------------------------------------------------------------------

/// `%` matches every text.
pub proof fn lemma_like_any(s: Seq<char>)
    ensures
        like(s, seq!['%']),
    decreases s.len(),
{
    let p = seq!['%'];
    assert(p.skip(1) =~= Seq::<char>::empty());
    reveal_with_fuel(like, 2);
    if s.len() > 0 {
        lemma_like_any(s.skip(1));
    }
}

/// A pattern without `%` and `_` matches only itself.
pub proof fn lemma_like_plain(s: Seq<char>, w: Seq<char>)
    requires
        plain(w),
    ensures
        like(s, w) <==> s == w,
    decreases w.len(),
{
    if w.len() > 0 {
        assert(w[0] != '%' && w[0] != '_');
        let rest = w.skip(1);
        assert forall|i: int| 0 <= i < rest.len() implies #[trigger] rest[i] != '%' && rest[i]
            != '_' by {
            assert(w[i + 1] != '%' && w[i + 1] != '_');
        }
        lemma_like_plain(s.skip(1), rest);
        if s.len() > 0 && s[0] == w[0] && s.skip(1) == rest {
            assert(s =~= seq![s[0]] + s.skip(1));
            assert(w =~= seq![w[0]] + rest);
        }
    } else {
        assert(s.len() == 0 ==> s =~= w);
    }
}

/// A text followed by `%` matches the texts that begin with it.
pub proof fn lemma_like_prefix(s: Seq<char>, w: Seq<char>)
    requires
        plain(w),
    ensures
        like(s, w.push('%')) <==> w.is_prefix_of(s),
    decreases w.len(),
{
    let p = w.push('%');
    if w.len() == 0 {
        assert(p =~= seq!['%']);
        lemma_like_any(s);
        assert(w =~= s.subrange(0, 0));
    } else {
        assert(p[0] == w[0]);
        assert(w[0] != '%' && w[0] != '_');
        let rest = w.skip(1);
        assert forall|i: int| 0 <= i < rest.len() implies #[trigger] rest[i] != '%' && rest[i]
            != '_' by {
            assert(w[i + 1] != '%' && w[i + 1] != '_');
        }
        assert(p.skip(1) =~= rest.push('%'));
        if s.len() > 0 {
            let tail = s.skip(1);
            lemma_like_prefix(tail, rest);
            if w.is_prefix_of(s) {
                assert(s[0] == w[0]) by {
                    assert(s.subrange(0, w.len() as int)[0] == w[0]);
                }
                assert(rest =~= tail.subrange(0, rest.len() as int)) by {
                    assert forall|i: int| 0 <= i < rest.len() implies rest[i] == tail[i] by {
                        assert(s.subrange(0, w.len() as int)[i + 1] == w[i + 1]);
                    }
                }
            }
            if s[0] == w[0] && rest.is_prefix_of(tail) {
                assert(w =~= s.subrange(0, w.len() as int)) by {
                    assert forall|i: int| 0 <= i < w.len() implies w[i] == s[i] by {
                        if i > 0 {
                            assert(tail.subrange(0, rest.len() as int)[i - 1] == rest[i - 1]);
                        }
                    }
                }
            }
        }
    }
}

} // verus!
