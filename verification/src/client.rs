//! Addresses of servers, and what a server answers in place of a result.
use crate::ast::text_of;
use crate::json::{json_in, json_of, str_under, text_under};
use crate::text::{
    err, is_space, run_start, space_end, space_start, strip_end, strip_prefix, text4, trim, trimmed,
    without_end, without_prefix, Error,
};
use vstd::prelude::*;
use vstd::string::*;
use vstd::utf8::*;

verus! {

broadcast use vstd::string::group_string_axioms;

/// An address without its scheme and without slashes at its end.
pub open spec fn host_of(url: Seq<char>) -> Seq<char> {
    without_end(
        without_prefix(without_prefix(trim(url), "http://"@), "https://"@),
        '/',
    )
}

/// `http://host:port/` and `host:port` as `host:port`.
pub fn normalize(url: &str) -> (r: String)
    ensures
        r@ == host_of(url@),
{
    let bare = trimmed(url);
    let bare = strip_prefix(bare.as_str(), "http://");
    let bare = strip_prefix(bare.as_str(), "https://");
    strip_end(bare.as_str(), '/')
}

/// What an error of a server says: the text of its answer's `error` where the answer has
/// one (`told`), else the answer itself.
pub open spec fn refused(host: Seq<char>, uri: Seq<char>, told: Option<Seq<char>>, body: Seq<char>) -> Seq<
    char,
> {
    host + uri + ": "@ + match told {
        Some(t) => t,
        None => body,
    }
}

pub fn refusal(host: &str, uri: &str, told: Option<String>, body: &str) -> (r: Error)
    ensures
        r@ == refused(host@, uri@, text_of(told), body@),
{
    match told {
        Some(t) => err(text4(host, uri, ": ", t.as_str())),
        None => err(text4(host, uri, ": ", body)),
    }
}

/// Bytes as text, with replacement characters where they are no UTF-8.
pub uninterp spec fn lossy(b: Seq<u8>) -> Seq<char>;

/// `String::from_utf8_lossy` of std: the text that the bytes encode. Of bytes that are not
/// valid UTF-8 nothing more is claimed than that the text depends on them alone.
#[verifier::external_body]
fn text_in(b: &[u8]) -> (r: String)
    ensures
        r@ == lossy(b@),
        valid_utf8(b@) ==> encode_utf8(r@) == b@,
{
    String::from_utf8_lossy(b).into_owned()
}

/// What the `error` of an answer says, where the answer is JSON and has one.
pub open spec fn told_in(body: Seq<u8>) -> Option<Seq<char>> {
    match json_in(body) {
        Ok(j) => text_under(j, "error"@),
        Err(_) => None,
    }
}

/// What an answer of a server that is no success says.
pub fn refusal_in(host: &str, uri: &str, body: &[u8]) -> (r: Error)
    ensures
        r@ == refused(host@, uri@, told_in(body@), lossy(body@)),
{
    let told = match json_of(body) {
        Ok(v) => match str_under(&v, "error") {
            Some(s) => Some(s.to_owned()),
            None => None,
        },
        Err(_) => None,
    };
    let text = text_in(body);
    refusal(host, uri, told, text.as_str())
}

// --- laws -------------------------------------------------------------------------------------

pub open spec fn all_space(s: Seq<char>) -> bool {
    forall|i: int| 0 <= i < s.len() ==> is_space(#[trigger] s[i])
}

/// A name and a port as they stand in an address: neither white space nor a slash.
pub open spec fn is_host(h: Seq<char>) -> bool {
    forall|i: int| 0 <= i < h.len() ==> !is_space(#[trigger] h[i]) && h[i] != '/'
}

pub open spec fn is_scheme(s: Seq<char>) -> bool {
    s.len() == 0 || s == "http://"@ || s == "https://"@
}

proof fn lemma_spaces_end(s: Seq<char>, i: int, to: int)
    requires
        0 <= i <= to <= s.len(),
        forall|k: int| i <= k < to ==> is_space(#[trigger] s[k]),
        to < s.len() ==> !is_space(s[to]),
    ensures
        space_end(s, i) == to,
    decreases to - i,
{
    if i < to {
        lemma_spaces_end(s, i + 1, to);
    }
}

proof fn lemma_spaces_start(s: Seq<char>, from: int, i: int, to: int)
    requires
        0 <= from <= to <= i <= s.len(),
        forall|k: int| to <= k < i ==> is_space(#[trigger] s[k]),
        from < to ==> !is_space(s[to - 1]),
    ensures
        space_start(s, from, i) == to,
    decreases i - to,
{
    if to < i {
        lemma_spaces_start(s, from, i - 1, to);
    }
}

/// White space around a text that has none at its ends goes, and nothing else.
pub proof fn lemma_trim_around(before: Seq<char>, m: Seq<char>, after: Seq<char>)
    requires
        all_space(before),
        all_space(after),
        m.len() > 0 ==> !is_space(m[0]) && !is_space(m.last()),
    ensures
        trim(before + m + after) == m,
{
    let s = before + m + after;
    if m.len() > 0 {
        let from = before.len() as int;
        let to = from + m.len();
        assert forall|k: int| 0 <= k < from implies is_space(#[trigger] s[k]) by {
            assert(s[k] == before[k]);
        }
        assert(s[from] == m[0]);
        lemma_spaces_end(s, 0, from);
        assert forall|k: int| to <= k < s.len() implies is_space(#[trigger] s[k]) by {
            assert(s[k] == after[k - to]);
        }
        assert(s[to - 1] == m.last());
        lemma_spaces_start(s, from, s.len() as int, to);
        assert(s.subrange(from, to) =~= m);
    } else {
        assert forall|k: int| 0 <= k < s.len() implies is_space(#[trigger] s[k]) by {
            if k < before.len() {
                assert(s[k] == before[k]);
            } else {
                assert(s[k] == after[k - before.len()]);
            }
        }
        lemma_spaces_end(s, 0, s.len() as int);
        assert(trim(s) =~= m);
    }
}

proof fn lemma_slashes_start(s: Seq<char>, i: int, to: int)
    requires
        0 <= to <= i <= s.len(),
        forall|k: int| to <= k < i ==> (#[trigger] s[k]) == '/',
        0 < to ==> s[to - 1] != '/',
    ensures
        run_start(s, '/', 0, i) == to,
    decreases i - to,
{
    if to < i {
        lemma_slashes_start(s, i - 1, to);
    }
}

/// A host, with a slash behind it or without one, does not start with a scheme.
proof fn lemma_no_scheme(h: Seq<char>, slash: Seq<char>, scheme: Seq<char>)
    requires
        is_host(h),
        slash.len() <= 1,
        scheme == "http://"@ || scheme == "https://"@,
    ensures
        without_prefix(h + slash, scheme) == h + slash,
{
    reveal_strlit("http://");
    reveal_strlit("https://");
    let s = h + slash;
    if scheme.is_prefix_of(s) {
        let i = scheme.len() - 2;
        assert(scheme[i] == '/');
        assert(s[i] == scheme[i]);
        assert(s[i] == h[i]);
    }
}

/// An address gives its host: with a scheme or without one, with a slash behind the host
/// or without one, and whatever white space stands around it.
pub proof fn lemma_host(
    before: Seq<char>,
    scheme: Seq<char>,
    h: Seq<char>,
    slash: bool,
    after: Seq<char>,
)
    requires
        all_space(before),
        is_scheme(scheme),
        is_host(h),
        all_space(after),
    ensures
        host_of(
            before + (scheme + h + if slash {
                seq!['/']
            } else {
                Seq::empty()
            }) + after,
        ) == h,
{
    reveal_strlit("http://");
    reveal_strlit("https://");
    let end: Seq<char> = if slash {
        seq!['/']
    } else {
        Seq::empty()
    };
    let bare = h + end;
    let m = scheme + h + end;
    assert(m =~= scheme + bare);
    assert(m.len() > 0 ==> !is_space(m[0]) && !is_space(m.last())) by {
        if m.len() > 0 {
            if scheme.len() > 0 {
                assert(m[0] == 'h');
            } else if h.len() > 0 {
                assert(m[0] == h[0]);
            }
            if !slash && h.len() > 0 {
                assert(m.last() == h.last());
            }
        }
    }
    lemma_trim_around(before, m, after);
    lemma_no_scheme(h, end, "http://"@);
    lemma_no_scheme(h, end, "https://"@);
    if scheme == "http://"@ {
        assert(scheme.is_prefix_of(m));
        assert(m.skip(scheme.len() as int) =~= bare);
    } else if scheme == "https://"@ {
        assert(m[4] == 's');
        assert("http://"@[4] == ':');
        assert(!("http://"@.is_prefix_of(m)));
        assert(scheme.is_prefix_of(m));
        assert(m.skip(scheme.len() as int) =~= bare);
    } else {
        assert(m =~= bare);
    }
    assert(without_prefix(without_prefix(m, "http://"@), "https://"@) == bare);
    if h.len() > 0 {
        assert(bare[h.len() - 1] == h[h.len() - 1]);
    }
    lemma_slashes_start(bare, bare.len() as int, h.len() as int);
    assert(bare.take(h.len() as int) =~= h);
}

/// A host that an address gave is its own host.
pub proof fn lemma_host_again(url: Seq<char>)
    requires
        is_host(host_of(url)),
    ensures
        host_of(host_of(url)) == host_of(url),
{
    let h = host_of(url);
    let none = Seq::<char>::empty();
    lemma_host(none, none, h, false, none);
    assert(none + (none + h + none) + none =~= h);
}

} // verus!
