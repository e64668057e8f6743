//! File names: making text safe to use as one, and finding a name that is not taken.
use vstd::prelude::*;
use crate::text::{chars_of, lower_char, lower_char_exec, string_from, trim, trim_vec, decimal, decimal_exec, ends_with,
    ends_with_exec, slice_vec};

verus! {

broadcast use vstd::string::group_string_axioms;

/// Whether a path names a special file (such as a pipe): it exists but is neither a regular
/// file nor a directory.
pub fn is_special_file(exists: bool, is_file: bool, is_dir: bool) -> (r: bool)
    ensures
        r == (exists && !is_file && !is_dir),
{
    exists && !is_file && !is_dir
}

/// The characters of `s` for which `f` holds, in order.
pub open spec fn keep(s: Seq<char>, f: spec_fn(char) -> bool) -> Seq<char>
    decreases s.len(),
{
    if s.len() == 0 {
        s
    } else {
        keep(s.drop_last(), f) + if f(s.last()) {
            seq![s.last()]
        } else {
            Seq::empty()
        }
    }
}

/// The characters that sanitizing drops.
pub enum Dropped {
    /// The control characters `\x00`-`\x1f` and `\x80`-`\x9f`, which Windows cannot print.
    NonPrintable,
    /// `<>:"|?*`, which Windows forbids in file names.
    Illegal,
    /// Both path separators, `\` and `/`.
    Separators,
    /// The NUL character.
    Nul,
    /// The path separator `/`.
    Slash,
}

/// Whether sanitizing of the given kind drops `c`.
pub open spec fn dropped(kind: Dropped, c: char) -> bool {
    match kind {
        Dropped::NonPrintable => (c as u32) <= 0x1f || (0x80 <= (c as u32) && (c as u32) <= 0x9f),
        Dropped::Illegal => c == '<' || c == '>' || c == ':' || c == '"' || c == '|' || c == '?' || c == '*',
        Dropped::Separators => c == '\\' || c == '/',
        Dropped::Nul => c == '\0',
        Dropped::Slash => c == '/',
    }
}

/// `s` without the characters that sanitizing of the given kind drops.
pub open spec fn without(s: Seq<char>, kind: Dropped) -> Seq<char> {
    keep(s, |c: char| !dropped(kind, c))
}

fn dropped_exec(kind: &Dropped, c: char) -> (r: bool)
    ensures
        r == dropped(*kind, c),
{
    match kind {
        Dropped::NonPrintable => {
            let u = c as u32;
            u <= 0x1f || (0x80 <= u && u <= 0x9f)
        },
        Dropped::Illegal => c == '<' || c == '>' || c == ':' || c == '"' || c == '|' || c == '?' || c == '*',
        Dropped::Separators => c == '\\' || c == '/',
        Dropped::Nul => c == '\0',
        Dropped::Slash => c == '/',
    }
}

fn without_exec(v: &Vec<char>, kind: Dropped) -> (r: Vec<char>)
    ensures
        r@ == without(v@, kind),
{
    let mut r: Vec<char> = Vec::new();
    let mut i: usize = 0;
    while i < v.len()
        invariant
            i <= v@.len(),
            r@ == without(v@.subrange(0, i as int), kind),
        decreases v@.len() - i,
    {
        assert(v@.subrange(0, i + 1).drop_last() =~= v@.subrange(0, i as int));
        if !dropped_exec(&kind, v[i]) {
            r.push(v[i]);
        }
        i = i + 1;
        assert(r@ =~= without(v@.subrange(0, i as int), kind));
    }
    assert(v@.subrange(0, v@.len() as int) =~= v@);
    r
}

/// Whether `s` is made of dots only (`^\.+$`).
pub open spec fn all_dots(s: Seq<char>) -> bool {
    s.len() > 0 && forall|i: int| 0 <= i < s.len() ==> #[trigger] s[i] == '.'
}

/// Whether `c` is an ASCII decimal digit.
pub open spec fn ascii_digit(c: char) -> bool {
    '0' <= c && c <= '9'
}

/// Whether `s` is a name that Windows reserves for devices, in any case and with any extension
/// (`(?i)^(con|prn|aux|nul|com[0-9]|lpt[0-9])(\..*)?$`).
pub open spec fn windows_reserved(s: Seq<char>) -> bool {
    let l = Seq::new(s.len(), |i: int| lower_char(s[i]));
    let base: int = if s.len() >= 3 && (l.subrange(0, 3) == "con"@ || l.subrange(0, 3) == "prn"@ || l.subrange(0, 3)
        == "aux"@ || l.subrange(0, 3) == "nul"@) {
        3
    } else if s.len() >= 4 && (l.subrange(0, 3) == "com"@ || l.subrange(0, 3) == "lpt"@) && ascii_digit(s[3]) {
        4
    } else {
        0
    };
    base > 0 && (s.len() == base || (s[base] == '.' && forall|i: int| base < i < s.len() ==> #[trigger] s[i] != '\n'))
}

/// `s` without its trailing dots and spaces (`[\. ]+$`).
pub open spec fn trim_dots_spaces(s: Seq<char>) -> Seq<char>
    decreases s.len(),
{
    if s.len() > 0 && (s.last() == '.' || s.last() == ' ') {
        trim_dots_spaces(s.drop_last())
    } else {
        s
    }
}

/// The number of bytes that encode `c` in UTF-8.
pub open spec fn utf8_len(c: char) -> nat {
    if (c as u32) < 0x80 {
        1
    } else if (c as u32) < 0x800 {
        2
    } else if (c as u32) < 0x10000 {
        3
    } else {
        4
    }
}

/// The number of bytes that encode `s` in UTF-8.
pub open spec fn bytes_len(s: Seq<char>) -> nat
    decreases s.len(),
{
    if s.len() == 0 {
        0
    } else {
        bytes_len(s.drop_last()) + utf8_len(s.last())
    }
}

/// Whether the UTF-8 encoding of `s` can be cut after its 255th byte (as it must be, to be cut
/// there): it is no longer, or a prefix of `s` takes exactly 255 bytes.
pub open spec fn cuttable(s: Seq<char>) -> bool {
    bytes_len(s) <= 255 || exists|k: int| 0 <= k <= s.len() && bytes_len(#[trigger] s.subrange(0, k)) == 255
}

/// `s` cut to its first 255 bytes, where it is longer.
pub open spec fn cut(s: Seq<char>) -> Seq<char> {
    if bytes_len(s) <= 255 {
        s
    } else {
        s.subrange(0, choose|k: int| 0 <= k <= s.len() && bytes_len(#[trigger] s.subrange(0, k)) == 255)
    }
}

/// What sanitizing leaves of `path` before it is cut to 255 bytes: trimmed, emptied if it is
/// made of dots only; then, for a name valid on every system, without control and forbidden
/// characters, emptied if Windows reserves it, without trailing dots and spaces, and optionally
/// without both path separators; else without NUL characters and optionally without `/`.
pub open spec fn sanitized_uncut(path: Seq<char>, include_path_separator: bool, universal: bool) -> Seq<char> {
    let t = trim(path);
    let p = if all_dots(t) { Seq::empty() } else { t };
    if universal {
        let a = without(without(p, Dropped::NonPrintable), Dropped::Illegal);
        let b = if windows_reserved(a) { Seq::empty() } else { a };
        let c = trim_dots_spaces(b);
        if include_path_separator { without(c, Dropped::Separators) } else { c }
    } else {
        let a = without(p, Dropped::Nul);
        if include_path_separator { without(a, Dropped::Slash) } else { a }
    }
}

fn all_dots_exec(v: &Vec<char>) -> (r: bool)
    ensures
        r == all_dots(v@),
{
    if v.len() == 0 {
        return false;
    }
    let mut i: usize = 0;
    while i < v.len()
        invariant
            i <= v@.len(),
            forall|j: int| 0 <= j < i ==> #[trigger] v@[j] == '.',
        decreases v@.len() - i,
    {
        if v[i] != '.' {
            return false;
        }
        i = i + 1;
    }
    true
}

fn windows_reserved_exec(s: &Vec<char>) -> (r: bool)
    ensures
        r == windows_reserved(s@),
{
    let ghost l = Seq::new(s@.len(), |i: int| lower_char(s@[i]));
    let n = s.len();
    let mut base: usize = 0;
    if n >= 3 {
        let a = lower_char_exec(s[0]);
        let b = lower_char_exec(s[1]);
        let c = lower_char_exec(s[2]);
        proof {
            reveal_strlit("con");
            reveal_strlit("prn");
            reveal_strlit("aux");
            reveal_strlit("nul");
            reveal_strlit("com");
            reveal_strlit("lpt");
            assert(l.subrange(0, 3) =~= seq![a, b, c]);
            assert("con"@ =~= seq!['c', 'o', 'n']);
            assert("prn"@ =~= seq!['p', 'r', 'n']);
            assert("aux"@ =~= seq!['a', 'u', 'x']);
            assert("nul"@ =~= seq!['n', 'u', 'l']);
            assert("com"@ =~= seq!['c', 'o', 'm']);
            assert("lpt"@ =~= seq!['l', 'p', 't']);
        }
        if (a == 'c' && b == 'o' && c == 'n') || (a == 'p' && b == 'r' && c == 'n') || (a == 'a' && b == 'u' && c == 'x')
            || (a == 'n' && b == 'u' && c == 'l') {
            base = 3;
        } else if n >= 4 && ((a == 'c' && b == 'o' && c == 'm') || (a == 'l' && b == 'p' && c == 't')) && '0' <= s[3]
            && s[3] <= '9' {
            base = 4;
        }
    }
    if base == 0 {
        return false;
    }
    if n == base {
        return true;
    }
    if s[base] != '.' {
        return false;
    }
    assert(windows_reserved(s@) <==> forall|j: int| base < j < n ==> #[trigger] s@[j] != '\n');
    let mut i: usize = base + 1;
    while i < n
        invariant
            base < i <= n,
            n == s@.len(),
            windows_reserved(s@) <==> forall|j: int| base < j < n ==> #[trigger] s@[j] != '\n',
            forall|j: int| base < j < i ==> #[trigger] s@[j] != '\n',
        decreases n - i,
    {
        if s[i] == '\n' {
            return false;
        }
        i = i + 1;
    }
    true
}

fn trim_dots_spaces_exec(v: &Vec<char>) -> (r: Vec<char>)
    ensures
        r@ == trim_dots_spaces(v@),
{
    let mut b: usize = v.len();
    assert(v@.subrange(0, b as int) =~= v@);
    while b > 0 && (v[b - 1] == '.' || v[b - 1] == ' ')
        invariant
            b <= v@.len(),
            trim_dots_spaces(v@) == trim_dots_spaces(v@.subrange(0, b as int)),
        decreases b,
    {
        assert(v@.subrange(0, b as int).drop_last() =~= v@.subrange(0, b - 1));
        b = b - 1;
    }
    slice_vec(v, 0, b)
}

fn utf8_len_exec(c: char) -> (r: usize)
    ensures
        r == utf8_len(c),
{
    let u = c as u32;
    if u < 0x80 {
        1
    } else if u < 0x800 {
        2
    } else if u < 0x10000 {
        3
    } else {
        4
    }
}

/// A prefix takes no more bytes than the whole.
proof fn lemma_bytes_len_prefix(s: Seq<char>, k: int)
    requires
        0 <= k <= s.len(),
    ensures
        bytes_len(s.subrange(0, k)) <= bytes_len(s),
    decreases s.len() - k,
{
    if k < s.len() {
        lemma_bytes_len_prefix(s, k + 1);
        assert(s.subrange(0, k + 1).drop_last() =~= s.subrange(0, k));
    } else {
        assert(s.subrange(0, k) =~= s);
    }
}

/// Prefix lengths in bytes grow strictly, so at most one prefix takes exactly `n` bytes.
proof fn lemma_bytes_len_strict(s: Seq<char>, j: int, k: int)
    requires
        0 <= j < k <= s.len(),
    ensures
        bytes_len(s.subrange(0, j)) < bytes_len(s.subrange(0, k)),
    decreases k - j,
{
    assert(s.subrange(0, k).drop_last() =~= s.subrange(0, k - 1));
    if j < k - 1 {
        lemma_bytes_len_strict(s, j, k - 1);
    }
}

fn cut_exec(v: Vec<char>) -> (r: Vec<char>)
    requires
        cuttable(v@),
    ensures
        r@ == cut(v@),
{
    let mut total: usize = 0;
    let mut i: usize = 0;
    assert(v@.subrange(0, 0) =~= Seq::<char>::empty());
    while i < v.len() && total < 255
        invariant
            i <= v@.len(),
            total == bytes_len(v@.subrange(0, i as int)),
            total <= 258,
            i > 0 ==> bytes_len(v@.subrange(0, i - 1)) < 255,
        decreases v@.len() - i,
    {
        assert(v@.subrange(0, i + 1).drop_last() =~= v@.subrange(0, i as int));
        total = total + utf8_len_exec(v[i]);
        i = i + 1;
    }
    if i == v.len() && total <= 255 {
        assert(v@.subrange(0, i as int) =~= v@);
        return v;
    }
    proof {
        if i == v@.len() {
            assert(v@.subrange(0, i as int) =~= v@);
        } else {
            lemma_bytes_len_strict(v@, i as int, v@.len() as int);
            assert(v@.subrange(0, v@.len() as int) =~= v@);
        }
        assert(bytes_len(v@) > 255);
        let k = choose|k: int| 0 <= k <= v@.len() && bytes_len(#[trigger] v@.subrange(0, k)) == 255;
        assert(0 <= k <= v@.len() && bytes_len(v@.subrange(0, k)) == 255);
        if k < i {
            if k < i - 1 {
                lemma_bytes_len_strict(v@, k, i - 1);
            }
        } else if k > i {
            lemma_bytes_len_strict(v@, i as int, k);
        }
        assert(k == i);
    }
    slice_vec(&v, 0, i)
}

/// Reads `std::path::MAIN_SEPARATOR`, the separator of paths on the system the program is built
/// for (a backslash on Windows, `/` elsewhere). It depends on that system, so nothing is promised of it.
#[verifier::external_body]
fn main_separator() -> (r: char) {
    std::path::MAIN_SEPARATOR
}

/// The text made safe to use as a file name, with the rules of every system (Windows' included)
/// where `universal` is asked for or the program is built for Windows, else with those of
/// Unix-like systems (see [`sanitize_with_rules`]). Which of the two applies without `universal`
/// depends on the system the program is built for.
pub fn sanitize(path: &str, include_path_separator: bool, universal: bool) -> (r: String)
    requires
        cuttable(sanitized_uncut(path@, include_path_separator, universal)),
        cuttable(sanitized_uncut(path@, include_path_separator, true)),
    ensures
        r@ == cut(sanitized_uncut(path@, include_path_separator, universal)) || r@ == cut(
            sanitized_uncut(path@, include_path_separator, true),
        ),
{
    let windows = main_separator() == '\\';
    sanitize_with_rules(path, include_path_separator, universal || windows)
}

/// The text made safe to use as a file name: see [`sanitized_uncut`], then cut to 255 bytes.
/// With `universal` the name is safe on every system (Windows' rules included); without it only
/// the rules of Unix-like systems apply.
pub fn sanitize_with_rules(path: &str, include_path_separator: bool, universal: bool) -> (r: String)
    requires
        cuttable(sanitized_uncut(path@, include_path_separator, universal)),
    ensures
        r@ == cut(sanitized_uncut(path@, include_path_separator, universal)),
{
    let v = chars_of(path);
    let t = trim_vec(&v);
    let p = if all_dots_exec(&t) {
        let e: Vec<char> = Vec::new();
        assert(e@ =~= Seq::<char>::empty());
        e
    } else {
        t
    };
    let out = if universal {
        let a = without_exec(&without_exec(&p, Dropped::NonPrintable), Dropped::Illegal);
        let b = if windows_reserved_exec(&a) {
            let e: Vec<char> = Vec::new();
            assert(e@ =~= Seq::<char>::empty());
            e
        } else {
            a
        };
        let c = trim_dots_spaces_exec(&b);
        if include_path_separator { without_exec(&c, Dropped::Separators) } else { c }
    } else {
        let a = without_exec(&p, Dropped::Nul);
        if include_path_separator { without_exec(&a, Dropped::Slash) } else { a }
    };
    let r = cut_exec(out);
    string_from(&r)
}

proof fn lemma_keep_elements(s: Seq<char>, f: spec_fn(char) -> bool)
    ensures
        forall|i: int| 0 <= i < keep(s, f).len() ==> f(#[trigger] keep(s, f)[i]) && s.contains(keep(s, f)[i]),
    decreases s.len(),
{
    if s.len() > 0 {
        let p = s.drop_last();
        lemma_keep_elements(p, f);
        let k = keep(s, f);
        let kp = keep(p, f);
        assert forall|i: int| 0 <= i < k.len() implies f(#[trigger] k[i]) && s.contains(k[i]) by {
            if i < kp.len() {
                assert(k[i] == kp[i]);
                let j = choose|j: int| 0 <= j < p.len() && p[j] == kp[i];
                assert(s[j] == p[j]);
            } else {
                assert(k[i] == s.last());
                assert(s[s.len() - 1] == s.last());
            }
        }
    }
}

proof fn lemma_trim_dots_spaces_prefix(s: Seq<char>)
    ensures
        trim_dots_spaces(s).len() <= s.len(),
        trim_dots_spaces(s) == s.subrange(0, trim_dots_spaces(s).len() as int),
    decreases s.len(),
{
    if s.len() > 0 && (s.last() == '.' || s.last() == ' ') {
        lemma_trim_dots_spaces_prefix(s.drop_last());
        let t = trim_dots_spaces(s);
        assert(t =~= s.subrange(0, t.len() as int));
    } else {
        assert(s =~= s.subrange(0, s.len() as int));
    }
}

/// Cutting keeps a prefix of at most 255 bytes.
proof fn lemma_cut_prefix(d: Seq<char>)
    requires
        cuttable(d),
    ensures
        cut(d).len() <= d.len(),
        cut(d) == d.subrange(0, cut(d).len() as int),
        bytes_len(cut(d)) <= 255,
{
    if bytes_len(d) <= 255 {
        assert(d.subrange(0, d.len() as int) =~= d);
    } else {
        let k = choose|k: int| 0 <= k <= d.len() && bytes_len(#[trigger] d.subrange(0, k)) == 255;
        assert(cut(d) == d.subrange(0, k));
        assert(d.subrange(0, k).len() == k);
    }
}

/// A sanitized name takes at most 255 bytes and holds none of the characters its mode drops: a
/// name valid on every system holds no control character and none of `<>:"|?*`, a name for this
/// system no NUL character; with path separators included, the first holds neither `\` nor `/`,
/// the second no `/`.
pub proof fn lemma_sanitized_name_is_safe(path: Seq<char>, include_path_separator: bool, universal: bool)
    requires
        cuttable(sanitized_uncut(path, include_path_separator, universal)),
    ensures
        forall|i: int| 0 <= i < cut(sanitized_uncut(path, include_path_separator, universal)).len() ==> {
            let c = #[trigger] cut(sanitized_uncut(path, include_path_separator, universal))[i];
            &&& universal ==> !dropped(Dropped::NonPrintable, c) && !dropped(Dropped::Illegal, c)
            &&& universal && include_path_separator ==> !dropped(Dropped::Separators, c)
            &&& !universal ==> !dropped(Dropped::Nul, c)
            &&& !universal && include_path_separator ==> !dropped(Dropped::Slash, c)
        },
        bytes_len(cut(sanitized_uncut(path, include_path_separator, universal))) <= 255,
{
    let t = trim(path);
    let p = if all_dots(t) { Seq::<char>::empty() } else { t };
    let d = sanitized_uncut(path, include_path_separator, universal);
    let r = cut(d);
    lemma_cut_prefix(d);
    if universal {
        let a1 = without(p, Dropped::NonPrintable);
        let a = without(a1, Dropped::Illegal);
        let b = if windows_reserved(a) { Seq::<char>::empty() } else { a };
        let c = trim_dots_spaces(b);
        lemma_keep_elements(p, |x: char| !dropped(Dropped::NonPrintable, x));
        lemma_keep_elements(a1, |x: char| !dropped(Dropped::Illegal, x));
        lemma_keep_elements(c, |x: char| !dropped(Dropped::Separators, x));
        lemma_trim_dots_spaces_prefix(b);
        assert forall|i: int| 0 <= i < r.len() implies {
            let ch = #[trigger] r[i];
            &&& !dropped(Dropped::NonPrintable, ch) && !dropped(Dropped::Illegal, ch)
            &&& include_path_separator ==> !dropped(Dropped::Separators, ch)
        } by {
            let ch = r[i];
            assert(ch == d[i]);
            let j: int = if include_path_separator {
                assert(!dropped(Dropped::Separators, ch) && c.contains(ch));
                choose|j: int| 0 <= j < c.len() && c[j] == ch
            } else {
                i
            };
            assert(c[j] == ch);
            assert(b[j] == c[j]);
            assert(a[j] == b[j]);
            assert(!dropped(Dropped::Illegal, a[j]) && a1.contains(a[j]));
            let m = choose|m: int| 0 <= m < a1.len() && a1[m] == ch;
            assert(!dropped(Dropped::NonPrintable, a1[m]));
        }
    } else {
        let a = without(p, Dropped::Nul);
        lemma_keep_elements(p, |x: char| !dropped(Dropped::Nul, x));
        lemma_keep_elements(a, |x: char| !dropped(Dropped::Slash, x));
        assert forall|i: int| 0 <= i < r.len() implies {
            let ch = #[trigger] r[i];
            &&& !dropped(Dropped::Nul, ch)
            &&& include_path_separator ==> !dropped(Dropped::Slash, ch)
        } by {
            let ch = r[i];
            assert(ch == d[i]);
            if include_path_separator {
                assert(!dropped(Dropped::Slash, ch) && a.contains(ch));
                let j = choose|j: int| 0 <= j < a.len() && a[j] == ch;
                assert(!dropped(Dropped::Nul, a[j]));
            } else {
                assert(!dropped(Dropped::Nul, a[i]));
            }
        }
    }
}

/// The file extension of a path, as `std::path::Path::extension` gives it (empty where there is
/// none).
pub uninterp spec fn extension_of(p: Seq<char>) -> Seq<char>;

/// Calls `std::path::Path::extension`. Its documentation says it gives the part of the file name
/// after the last dot (none where the name has no dot or only a leading one); the contract names
/// the result, with the empty string for none.
#[verifier::external_body]
pub(crate) fn path_extension(p: &str) -> (r: String)
    ensures
        r@ == extension_of(p@),
{
    std::path::Path::new(p).extension().unwrap_or_default().to_string_lossy().to_string()
}

/// The file name of a path without its extension, as `std::path::Path::file_stem` gives it (empty
/// where there is none).
pub uninterp spec fn file_stem_of(p: Seq<char>) -> Seq<char>;

/// Calls `std::path::Path::file_stem`. Its documentation says it gives the file name up to its
/// last dot (the whole name where the name has no dot or only a leading one); the contract names
/// the result, with the empty string for none.
#[verifier::external_body]
fn path_file_stem(p: &str) -> (r: String)
    ensures
        r@ == file_stem_of(p@),
{
    std::path::Path::new(p).file_stem().unwrap_or_default().to_string_lossy().to_string()
}

/// A path with its file name replaced, as `std::path::Path::with_file_name` gives it.
pub uninterp spec fn with_file_name_of(p: Seq<char>, name: Seq<char>) -> Seq<char>;

/// Calls `std::path::Path::with_file_name`. Its documentation says it replaces the last component
/// of the path by `name` (or adds `name` where the path has no file name); the contract names the
/// result.
#[verifier::external_body]
fn path_with_file_name(p: &str, name: &str) -> (r: String)
    ensures
        r@ == with_file_name_of(p@, name@),
{
    std::path::Path::new(p).with_file_name(name).to_string_lossy().to_string()
}

/// The file name tried at attempt `i` (from 1) when the name with stem `stem` and extension `ext`
/// is taken: `<stem> (<i>).<ext>`, where a stem that ends with the mark of the previous attempt
/// loses it, and a name without extension (such as `.mp4`) counts as all extension.
pub open spec fn renamed(stem: Seq<char>, ext: Seq<char>, i: nat) -> Seq<char> {
    let e = if ext.len() == 0 { stem } else { ext };
    let f = if ext.len() == 0 { Seq::<char>::empty() } else { stem };
    let previous = " ("@ + decimal((i - 1) as nat) + ")"@;
    let base = if ends_with(f, previous) { f.subrange(0, f.len() - previous.len()) } else { f };
    base + " ("@ + decimal(i) + ")."@ + e
}

fn mark(n: u64) -> (r: Vec<char>)
    ensures
        r@ == " ("@ + decimal(n as nat) + ")"@,
{
    let mut s = String::from_str(" (");
    let d = string_from(&decimal_exec(n));
    s.append(d.as_str());
    s.append(")");
    chars_of(s.as_str())
}

/// The file name tried at attempt `i` (see [`renamed`]).
pub fn renamed_file_name(stem: &str, ext: &str, i: u64) -> (r: String)
    requires
        i >= 1,
    ensures
        r@ == renamed(stem@, ext@, i as nat),
{
    proof {
        reveal_strlit("");
        assert(""@ =~= Seq::<char>::empty());
    }
    let (e, f) = if ext.is_empty() { (stem, "") } else { (ext, stem) };
    let fv = chars_of(f);
    let previous = mark(i - 1);
    let base = if ends_with_exec(&fv, &previous) { slice_vec(&fv, 0, fv.len() - previous.len()) } else { fv };
    let mut s = string_from(&base);
    s.append(" (");
    let d = string_from(&decimal_exec(i));
    s.append(d.as_str());
    s.append(").");
    s.append(e);
    s
}

/// One renaming step: the path tried at attempt `i` (from 1) when `path`, the path tried at the
/// attempt before (the path asked for, at the first attempt), is taken: its file name renamed (see
/// [`renamed`]). Repeating the step counts the mark up (see [`lemma_renaming_counts_up`]).
pub fn free_file_candidate(path: &str, i: u64) -> (r: String)
    requires
        i >= 1,
    ensures
        r@ == with_file_name_of(path@, renamed(file_stem_of(path@), extension_of(path@), i as nat)),
{
    let stem = path_file_stem(path);
    let ext = path_extension(path);
    let name = renamed_file_name(stem.as_str(), ext.as_str(), i);
    path_with_file_name(path, name.as_str())
}

/// Renaming again replaces the mark of the previous attempt: a file name `stem (i-1).ext` (with
/// a non-empty extension) is renamed at attempt `i` to `stem (i).ext`, so the attempts on a name
/// `stem.ext` give `stem (1).ext`, `stem (2).ext`, and so on.
pub proof fn lemma_renaming_counts_up(stem: Seq<char>, ext: Seq<char>, i: nat)
    requires
        i >= 1,
        ext.len() > 0,
    ensures
        renamed(stem + " ("@ + decimal((i - 1) as nat) + ")"@, ext, i) == stem + " ("@ + decimal(i) + ")."@ + ext,
{
    let previous = " ("@ + decimal((i - 1) as nat) + ")"@;
    let f = stem + " ("@ + decimal((i - 1) as nat) + ")"@;
    assert(f =~= stem + previous);
    assert(f.subrange(f.len() - previous.len(), f.len() as int) =~= previous);
    assert(ends_with(f, previous));
    assert(f.subrange(0, f.len() - previous.len()) =~= stem);
    let previous2 = " ("@ + decimal((i - 1) as nat) + ")"@;
    assert(previous2 == previous);
    assert(renamed(f, ext, i) == f.subrange(0, f.len() - previous.len()) + " ("@ + decimal(i) + ")."@ + ext);
}

} // verus!
