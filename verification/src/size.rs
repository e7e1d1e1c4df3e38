//! Sizes of memory as text.
use crate::float::{number_rank, rank_numbers, FloatOp, Floats, ZERO};
use crate::storage::Durability;
use crate::text::{
    chars_of, eq_text, err, float_error, in_context, not_a_float, string_of_range, text3, trim,
    trimmed, Error, Rank,
};
use vstd::prelude::*;
use vstd::string::*;

verus! {

broadcast use vstd::string::group_string_axioms;

pub open spec fn ascii_upper(c: char) -> char {
    if 'a' <= c <= 'z' {
        ((c as int) - 32) as char
    } else {
        c
    }
}

pub open spec fn ascii_uppered(s: Seq<char>) -> Seq<char> {
    s.map_values(|c: char| ascii_upper(c))
}

fn upper(c: char) -> (r: char)
    ensures
        r == ascii_upper(c),
{
    if 'a' <= c && c <= 'z' {
        ((c as u8) - 32) as char
    } else {
        c
    }
}

/// Whether a text ends in a unit: its letter, with or without `B` or `IB`.
pub open spec fn in_units(s: Seq<char>, unit: char) -> bool {
    let n = s.len() as int;
    ||| n >= 1 && s[n - 1] == unit
    ||| n >= 2 && s[n - 2] == unit && s[n - 1] == 'B'
    ||| n >= 3 && s[n - 3] == unit && s[n - 2] == 'I' && s[n - 1] == 'B'
}

/// Where the letters of a unit begin at the end of `s[..i]`.
pub open spec fn unit_start(s: Seq<char>, unit: char, i: int) -> int
    decreases i,
{
    if 0 < i <= s.len() && (s[i - 1] == unit || s[i - 1] == 'I' || s[i - 1] == 'B') {
        unit_start(s, unit, i - 1)
    } else {
        i
    }
}

/// The number before the unit of a size, and how many bytes the unit has.
pub open spec fn size_in(s: Seq<char>) -> (Seq<char>, u64) {
    let v = ascii_uppered(trim(s));
    if in_units(v, 'G') {
        (v.take(unit_start(v, 'G', v.len() as int)), 0x4000_0000)
    } else if in_units(v, 'M') {
        (v.take(unit_start(v, 'M', v.len() as int)), 0x10_0000)
    } else if in_units(v, 'K') {
        (v.take(unit_start(v, 'K', v.len() as int)), 0x400)
    } else {
        (v, 1)
    }
}

fn ends_in_unit(v: &Vec<char>, unit: char) -> (r: bool)
    ensures
        r == in_units(v@, unit),
{
    let n: usize = v.len();
    (n >= 1 && v[n - 1] == unit) || (n >= 2 && v[n - 2] == unit && v[n - 1] == 'B') || (n >= 3
        && v[n - 3] == unit && v[n - 2] == 'I' && v[n - 1] == 'B')
}

fn without_unit(v: &Vec<char>, unit: char) -> (r: String)
    ensures
        r@ == v@.take(unit_start(v@, unit, v@.len() as int)),
{
    let mut i: usize = v.len();
    while i > 0 && (v[i - 1] == unit || v[i - 1] == 'I' || v[i - 1] == 'B')
        invariant
            i <= v.len(),
            unit_start(v@, unit, i as int) == unit_start(v@, unit, v@.len() as int),
        decreases i,
    {
        i -= 1;
    }
    let r = string_of_range(v, 0, i);
    assert(r@ =~= v@.take(i as int));
    r
}

/// The number before the unit of a size, and how many bytes the unit has.
pub fn size_parts(s: &str) -> (r: (String, u64))
    ensures
        (r.0@, r.1) == size_in(s@),
{
    let t = trimmed(s);
    let w = chars_of(t.as_str());
    let mut v: Vec<char> = Vec::new();
    let mut i: usize = 0;
    while i < w.len()
        invariant
            i <= w.len(),
            v@.len() == i,
            forall|k: int| 0 <= k < i ==> #[trigger] v@[k] == ascii_upper(w@[k]),
        decreases w.len() - i,
    {
        v.push(upper(w[i]));
        i += 1;
    }
    assert(v@ =~= ascii_uppered(trim(s@)));
    if ends_in_unit(&v, 'G') {
        (without_unit(&v, 'G'), 0x4000_0000)
    } else if ends_in_unit(&v, 'M') {
        (without_unit(&v, 'M'), 0x10_0000)
    } else if ends_in_unit(&v, 'K') {
        (without_unit(&v, 'K'), 0x400)
    } else {
        (crate::text::string_of(&v), 1)
    }
}

/// How many bytes a size like `512MiB`, `3GB` or `1073741824` is.
pub open spec fn bytes_in<F: Floats>(s: Seq<char>, fl: F) -> Result<u64, Seq<char>> {
    let (num, unit) = size_in(s);
    match fl.double_in(trim(num)) {
        None => Err(in_context("размер '"@ + trim(s) + "'"@, float_error(trim(num)))),
        Some(n) => if number_rank(n, ZERO) == Some(Rank::Less) {
            Err("размер '"@ + trim(s) + "' отрицательный"@)
        } else {
            Ok(fl.to_count(fl.apply(FloatOp::Mul, n, fl.from_int(unit as i64))))
        },
    }
}

/// How many bytes a size like `512MiB`, `3GB` or `1073741824` is.
pub fn parse_size<F: Floats>(s: &str, fl: &F) -> (r: Result<u64, Error>)
    requires
        fl.exact(),
    ensures
        match r {
            Ok(n) => bytes_in(s@, *fl) == Ok::<u64, Seq<char>>(n),
            Err(e) => bytes_in(s@, *fl) == Err::<u64, Seq<char>>(e@),
        },
{
    let (num, unit) = size_parts(s);
    let bare = trimmed(s);
    let digits = trimmed(num.as_str());
    let n = match fl.parse(digits.as_str()) {
        Some(n) => n,
        None => {
            let place = text3("размер '", bare.as_str(), "'");
            return Err(not_a_float(digits.as_str()).context(place.as_str()));
        },
    };
    if rank_numbers(n, ZERO) == Some(Rank::Less) {
        return Err(err(text3("размер '", bare.as_str(), "' отрицательный")));
    }
    Ok(fl.as_count(fl.compute(FloatOp::Mul, n, fl.of_int(unit as i64))))
}

/// How a log is written, by name.
pub fn durability_named(s: &str) -> (r: Result<Durability, Error>)
    ensures
        match r {
            Ok(d) => d == (if s@ == "fsync"@ {
                Durability::Fsync
            } else {
                Durability::Buffered
            }) && (s@ == "fsync"@ || s@ == "buffered"@),
            Err(e) => s@ != "fsync"@ && s@ != "buffered"@ && e@
                == "--durability: ожидалось fsync|buffered, получено '"@ + s@ + "'"@,
        },
{
    if eq_text(s, "fsync") {
        Ok(Durability::Fsync)
    } else if eq_text(s, "buffered") {
        Ok(Durability::Buffered)
    } else {
        Err(err(text3("--durability: ожидалось fsync|buffered, получено '", s, "'")))
    }
}

} // verus!
