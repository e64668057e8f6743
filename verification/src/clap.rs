//! Readers for command-line values: resolutions, speed limits and proxies.
use vstd::prelude::*;
use crate::parse::{parse_resolution, parse_uint, parse_uint_exec, resolution_of, Resolution};
use crate::text::{chars_of, ends_with, ends_with_exec, lower, lower_vec, occurs_at_exec, slice_vec, starts_with, string_from};

verus! {

broadcast use vstd::string::group_string_axioms;

/// Reads a resolution for the command line; the error is the message to show.
pub fn clap_parse_resolution(s: &str) -> (r: Result<Resolution, String>)
    ensures
        match resolution_of(s@) {
            Some(res) => r == Ok::<Resolution, String>(res),
            None => r matches Err(m) && m@ == "Could not find resolution"@,
        },
{
    match parse_resolution(s) {
        Ok(res) => Ok(res),
        Err(e) => Err(e.message()),
    }
}

/// `s` with every trailing repetition of `t` removed (as `str::trim_end_matches` does).
pub open spec fn strip_suffixes(s: Seq<char>, t: Seq<char>) -> Seq<char>
    decreases s.len(),
{
    if t.len() > 0 && ends_with(s, t) {
        strip_suffixes(s.subrange(0, s.len() - t.len()), t)
    } else {
        s
    }
}

/// `s` with every leading repetition of `t` removed (as `str::trim_start_matches` does).
pub open spec fn strip_prefixes(s: Seq<char>, t: Seq<char>) -> Seq<char>
    decreases s.len(),
{
    if t.len() > 0 && starts_with(s, t) {
        strip_prefixes(s.subrange(t.len() as int, s.len() as int), t)
    } else {
        s
    }
}

/// The bytes per second a speed limit text names, case-insensitively: a plain number, or a
/// number followed by `b`, `kb` (times 1024) or `mb` (times 1024 * 1024). A product beyond the
/// `u32` range is no speed limit. A suffix may be repeated (`5bb` reads as 5).
pub open spec fn speed_limit_of(s: Seq<char>) -> Option<u32> {
    let q = lower(s);
    match parse_uint(q, u32::MAX as nat) {
        Some(b) => Some(b as u32),
        None => match parse_uint(strip_suffixes(q, "b"@), u32::MAX as nat) {
            Some(b) => Some(b as u32),
            None => match parse_uint(strip_suffixes(q, "kb"@), u32::MAX as nat) {
                Some(kb) => if kb * 1024 <= u32::MAX { Some((kb * 1024) as u32) } else { None },
                None => match parse_uint(strip_suffixes(q, "mb"@), u32::MAX as nat) {
                    Some(mb) => if mb * 1024 * 1024 <= u32::MAX { Some((mb * 1024 * 1024) as u32) } else { None },
                    None => None,
                },
            },
        },
    }
}

/// The length of `s` once every trailing repetition of `t` is removed.
fn strip_suffixes_len(s: &Vec<char>, t: &Vec<char>) -> (r: usize)
    ensures
        r <= s@.len(),
        s@.subrange(0, r as int) == strip_suffixes(s@, t@),
{
    let mut n = s.len();
    assert(s@.subrange(0, n as int) =~= s@);
    if t.len() == 0 {
        return n;
    }
    loop
        invariant
            n <= s@.len(),
            t@.len() > 0,
            strip_suffixes(s@, t@) == strip_suffixes(s@.subrange(0, n as int), t@),
        decreases n,
    {
        let cur = slice_vec(s, 0, n);
        if ends_with_exec(&cur, t) {
            assert(cur@.subrange(0, cur@.len() - t@.len()) =~= s@.subrange(0, n - t@.len()));
            n = n - t.len();
        } else {
            return n;
        }
    }
}

/// Reads a speed limit in bytes per second (see [`speed_limit_of`]); the error is the message to
/// show.
pub fn clap_parse_speed_limit(s: &str) -> (r: Result<u32, String>)
    ensures
        match speed_limit_of(s@) {
            Some(b) => r == Ok::<u32, String>(b),
            None => r matches Err(m) && m@ == "Invalid speed limit"@,
        },
{
    let q = lower_vec(&chars_of(s));
    assert(q@.subrange(0, q@.len() as int) =~= q@);
    if let Some(b) = parse_uint_exec(&q, 0, q.len(), u32::MAX as u64) {
        return Ok(b as u32);
    }
    let nb = strip_suffixes_len(&q, &chars_of("b"));
    if let Some(b) = parse_uint_exec(&q, 0, nb, u32::MAX as u64) {
        return Ok(b as u32);
    }
    let nk = strip_suffixes_len(&q, &chars_of("kb"));
    if let Some(kb) = parse_uint_exec(&q, 0, nk, u32::MAX as u64) {
        if kb > 4194303 {
            return Err(String::from_str("Invalid speed limit"));
        }
        return Ok((kb * 1024) as u32);
    }
    let nm = strip_suffixes_len(&q, &chars_of("mb"));
    if let Some(mb) = parse_uint_exec(&q, 0, nm, u32::MAX as u64) {
        if mb > 4095 {
            return Err(String::from_str("Invalid speed limit"));
        }
        return Ok((mb * 1024 * 1024) as u32);
    }
    Err(String::from_str("Invalid speed limit"))
}

// ---------------------------------------------------------------------------------------------
// Proxies.
// ---------------------------------------------------------------------------------------------

/// Whether `s` starts with the scheme of a proxy url (`http`, `https`, `socks5` or `socks5h`
/// followed by `://`) and has at least one more character after it.
pub open spec fn proxy_url_shape(s: Seq<char>) -> bool {
    ||| (starts_with(s, "http://"@) && s.len() > 7)
    ||| (starts_with(s, "https://"@) && s.len() > 8)
    ||| (starts_with(s, "socks5://"@) && s.len() > 9)
    ||| (starts_with(s, "socks5h://"@) && s.len() > 10)
}

/// Whether the text splits at the colon at position `c` into two proxy urls.
pub open spec fn splits_at(s: Seq<char>, c: int) -> bool {
    &&& 0 < c < s.len()
    &&& s[c] == ':'
    &&& proxy_url_shape(s.subrange(0, c))
    &&& proxy_url_shape(s.subrange(c + 1, s.len() as int))
    &&& !s.contains('\n')
}

/// The proxy texts a proxy value names, for plain and for secure traffic. Two proxy urls joined
/// by a colon are split at the last colon that leaves two proxy urls; a value that starts with a
/// colon names only the second, one that ends with a colon only the first, and any other value
/// names one proxy for both.
pub open spec fn proxy_texts(s: Seq<char>) -> (Option<Seq<char>>, Option<Seq<char>>) {
    if exists|c: int| splits_at(s, c) {
        let c = choose|c: int| splits_at(s, c) && forall|d: int| splits_at(s, d) ==> d <= c;
        (Some(s.subrange(0, c)), Some(s.subrange(c + 1, s.len() as int)))
    } else if s.len() > 0 && s[0] == ':' {
        (None, Some(strip_prefixes(s, ":"@)))
    } else if s.len() > 0 && s.last() == ':' {
        (Some(strip_suffixes(s, ":"@)), None)
    } else {
        (Some(s), Some(s))
    }
}

fn proxy_url_shape_exec(s: &Vec<char>) -> (r: bool)
    ensures
        r == proxy_url_shape(s@),
{
    (starts_with_lit(s, "http://") && s.len() > 7) || (starts_with_lit(s, "https://") && s.len() > 8)
        || (starts_with_lit(s, "socks5://") && s.len() > 9) || (starts_with_lit(s, "socks5h://") && s.len() > 10)
}

fn starts_with_lit(s: &Vec<char>, t: &str) -> (r: bool)
    ensures
        r == starts_with(s@, t@),
{
    let tv = chars_of(t);
    occurs_at_exec(s, &tv, 0)
}

fn has_newline(s: &Vec<char>) -> (r: bool)
    ensures
        r == s@.contains('\n'),
{
    let mut i: usize = 0;
    while i < s.len()
        invariant
            i <= s@.len(),
            forall|j: int| 0 <= j < i ==> s@[j] != '\n',
        decreases s@.len() - i,
    {
        if s[i] == '\n' {
            return true;
        }
        i = i + 1;
    }
    false
}

/// The last colon at which the text splits into two proxy urls, if any.
fn find_split(v: &Vec<char>) -> (r: Option<usize>)
    ensures
        match r {
            Some(c) => splits_at(v@, c as int) && forall|d: int| splits_at(v@, d) ==> d <= c,
            None => !exists|d: int| splits_at(v@, d),
        },
{
    let nl = has_newline(v);
    let mut c = v.len();
    while c > 0
        invariant
            c <= v@.len(),
            nl == v@.contains('\n'),
            forall|d: int| c <= d < v@.len() ==> !splits_at(v@, d),
        decreases c,
    {
        let d = c - 1;
        if !nl && d > 0 && v[d] == ':' {
            let first = slice_vec(v, 0, d);
            let second = slice_vec(v, d + 1, v.len());
            if proxy_url_shape_exec(&first) && proxy_url_shape_exec(&second) {
                return Some(d);
            }
        }
        c = d;
    }
    assert forall|d: int| !splits_at(v@, d) by {
        if 0 <= d < v@.len() {
            assert(c <= d);
        }
    }
    None
}

/// The proxy texts of a proxy value (see [`proxy_texts`]).
pub fn split_proxies(s: &str) -> (r: (Option<String>, Option<String>))
    ensures
        match (r.0, r.1) {
            (Some(a), Some(b)) => proxy_texts(s@) == (Some(a@), Some(b@)),
            (Some(a), None) => proxy_texts(s@) == (Some(a@), None::<Seq<char>>),
            (None, Some(b)) => proxy_texts(s@) == (None::<Seq<char>>, Some(b@)),
            (None, None) => false,
        },
{
    let v = chars_of(s);
    match find_split(&v) {
        Some(d) => {
            let ghost cc = choose|c: int| splits_at(s@, c) && forall|e: int| splits_at(s@, e) ==> e <= c;
            assert(cc == d) by {
                assert(cc <= d);
                assert(d <= cc);
            }
            return (Some(string_from(&slice_vec(&v, 0, d))), Some(string_from(&slice_vec(&v, d + 1, v.len()))));
        },
        None => {},
    }
    if v.len() > 0 && v[0] == ':' {
        let colon = chars_of(":");
        let mut a: usize = 0;
        assert(v@.subrange(0, v@.len() as int) =~= v@);
        while a < v.len() && v[a] == ':'
            invariant
                a <= v@.len(),
                colon@ == ":"@,
                strip_prefixes(v@, colon@) == strip_prefixes(v@.subrange(a as int, v@.len() as int), colon@),
            decreases v@.len() - a,
        {
            let ghost sub = v@.subrange(a as int, v@.len() as int);
            proof {
                reveal_strlit(":");
                assert(colon@.len() == 1);
                assert(colon@[0] == ':');
            }
            assert(sub.subrange(0, 1) =~= colon@);
            assert(v@.subrange(a + 1, v@.len() as int) =~= sub.subrange(1, sub.len() as int));
            a = a + 1;
        }
        proof {
            reveal_strlit(":");
            let sub = v@.subrange(a as int, v@.len() as int);
            if sub.len() > 0 {
                assert(sub.subrange(0, 1)[0] != ':');
                assert(sub.subrange(0, 1) != colon@);
            }
        }
        return (None, Some(string_from(&slice_vec(&v, a, v.len()))));
    }
    if v.len() > 0 && v[v.len() - 1] == ':' {
        let colon = chars_of(":");
        let n = strip_suffixes_len(&v, &colon);
        return (Some(string_from(&slice_vec(&v, 0, n))), None);
    }
    (Some(String::from_str(s)), Some(String::from_str(s)))
}

/// The proxy type of the http client.
#[verifier::external_type_specification]
#[verifier::external_body]
pub struct ExProxy(reqwest::Proxy);

/// The error type of the http client.
#[verifier::external_type_specification]
#[verifier::external_body]
pub struct ExReqwestError(reqwest::Error);

/// Whether the http client accepts `url` as a proxy url: its url parser reads it (also with
/// `http://` put in front where it names no scheme).
pub uninterp spec fn proxy_accepted(url: Seq<char>) -> bool;

/// The proxy for all traffic that the http client builds from an accepted proxy url.
pub uninterp spec fn proxy_of(url: Seq<char>) -> reqwest::Proxy;

/// The error the http client gives for a proxy url it refuses.
pub uninterp spec fn proxy_error(url: Seq<char>) -> reqwest::Error;

/// The message of an error of the http client.
pub uninterp spec fn error_text(e: reqwest::Error) -> Seq<char>;

/// Calls `reqwest::Proxy::all`, which reads a proxy url for all traffic. The proxy, or the error,
/// is built from the parsed url alone (no environment is read), so each is named as a function of
/// the text: [`proxy_accepted`] whether it succeeds, [`proxy_of`] the proxy, [`proxy_error`] the
/// error.
#[verifier::external_body]
fn proxy_all(url: &str) -> (r: Result<reqwest::Proxy, reqwest::Error>)
    ensures
        r is Ok <==> proxy_accepted(url@),
        r matches Ok(p) ==> p == proxy_of(url@),
        r matches Err(e) ==> e == proxy_error(url@),
{
    reqwest::Proxy::all(url)
}

/// Calls `Clone::clone` on a proxy of the http client, whose derived impl copies every field: the
/// copy equals the proxy.
#[verifier::external_body]
fn clone_proxy(p: &reqwest::Proxy) -> (r: reqwest::Proxy)
    ensures
        r == *p,
{
    p.clone()
}

/// Calls `ToString::to_string` on an error of the http client: its message, named
/// [`error_text`].
#[verifier::external_body]
fn reqwest_error_text(e: &reqwest::Error) -> (r: String)
    ensures
        r@ == error_text(*e),
{
    e.to_string()
}

/// The message with which reading a proxy value fails: the client's message for the first text it
/// refuses (see [`proxy_texts`]), prefixed with `first proxy: ` or `second proxy: ` when the value
/// names two proxies.
pub open spec fn proxy_error_message(s: Seq<char>) -> Seq<char> {
    let double = exists|c: int| splits_at(s, c);
    match proxy_texts(s).0 {
        Some(a) if !proxy_accepted(a) => (if double { "first proxy: "@ } else { Seq::empty() }) + error_text(
            proxy_error(a),
        ),
        _ => match proxy_texts(s).1 {
            Some(b) => (if double { "second proxy: "@ } else { Seq::empty() }) + error_text(proxy_error(b)),
            None => Seq::empty(),
        },
    }
}

/// Whether the http client accepts each proxy text that a proxy value names (see
/// [`proxy_texts`]).
pub open spec fn proxies_accepted(s: Seq<char>) -> bool {
    &&& proxy_texts(s).0 matches Some(a) ==> proxy_accepted(a)
    &&& proxy_texts(s).1 matches Some(b) ==> proxy_accepted(b)
}

/// Reads a proxy value into the proxies for plain and for secure traffic; [`proxy_texts`] says
/// which texts are handed to the http client; it succeeds when the client accepts each of them. The
/// error is the client's message, prefixed with `first proxy: ` or `second proxy: ` (the first text
/// that was refused) when the value names two proxies.
pub fn clap_parse_proxies(s: &str) -> (r: Result<(Option<reqwest::Proxy>, Option<reqwest::Proxy>), String>)
    ensures
        r is Ok <==> proxies_accepted(s@),
        r matches Ok(v) ==> (v.0 is Some <==> proxy_texts(s@).0 is Some) && (v.1 is Some <==> proxy_texts(s@).1 is Some),
        r matches Ok(v) ==> (v.0 matches Some(p) ==> p == proxy_of(proxy_texts(s@).0->0)) && (v.1 matches Some(q) ==> q
            == proxy_of(proxy_texts(s@).1->0)),
        r matches Err(m) ==> m@ == proxy_error_message(s@),
{
    let v = chars_of(s);
    let double = find_split(&v).is_some();
    let (first, second) = split_proxies(s);
    if !double {
        if let (Some(a), Some(_)) = (&first, &second) {
            return match proxy_all(a.as_str()) {
                Ok(p) => {
                    let q = clone_proxy(&p);
                    Ok((Some(q), Some(p)))
                },
                Err(e) => Err(reqwest_error_text(&e)),
            };
        }
    }
    let fp = match first {
        Some(a) => match proxy_all(a.as_str()) {
            Ok(p) => Some(p),
            Err(e) => {
                let text = reqwest_error_text(&e);
                return Err(prefixed(double, "first proxy: ", &text));
            },
        },
        None => None,
    };
    let sp = match second {
        Some(b) => match proxy_all(b.as_str()) {
            Ok(p) => Some(p),
            Err(e) => {
                let text = reqwest_error_text(&e);
                return Err(prefixed(double, "second proxy: ", &text));
            },
        },
        None => None,
    };
    Ok((fp, sp))
}

fn prefixed(with: bool, prefix: &str, text: &String) -> (r: String)
    ensures
        r@ == (if with { prefix@ } else { Seq::empty() }) + text@,
{
    if with {
        let mut m = String::from_str(prefix);
        m.append(text.as_str());
        m
    } else {
        assert(Seq::<char>::empty() + text@ =~= text@);
        text.clone()
    }
}

} // verus!
