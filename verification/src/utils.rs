//! File naming and human-readable formatting.

use vstd::prelude::*;
use crate::binary64::{fixed_decimal, nearest_binary64, nearest_binary64_u128, push_fixed_decimal};
use crate::text::{chars_of, decimal, push_chars, push_decimal, push_str, string_of};
use url::ParseError;

verus! {

/// Why `url::Url::parse` refused a text: the variants of `url::ParseError` in the
/// version this library is built with, plus `Other` for a variant that a later
/// version may add.
#[derive(Debug, Clone, Copy, PartialEq, Eq, Structural)]
pub enum UrlErrorKind {
    EmptyHost,
    IdnaError,
    InvalidPort,
    InvalidIpv4Address,
    InvalidIpv6Address,
    InvalidDomainCharacter,
    RelativeUrlWithoutBase,
    RelativeUrlWithCannotBeABaseBase,
    SetHostOnCannotBeABaseUrl,
    Overflow,
    Other,
}

/// What `url::Url::parse` makes of the text: the URL's path, or the kind of
/// error it refuses the text with.
pub uninterp spec fn url_parse_of(url: Seq<char>) -> Result<Seq<char>, UrlErrorKind>;

/// The path of the URL that `url::Url::parse` makes of the text, or `None` where
/// it refuses the text.
pub open spec fn url_path_of(url: Seq<char>) -> Option<Seq<char>> {
    match url_parse_of(url) {
        Ok(path) => Some(path),
        Err(_) => None,
    }
}

/// Calls `url::Url::parse` and, on success, `Url::path`; a refusal is converted
/// to its `UrlErrorKind`, variant by variant. Claimed: the result is
/// `url_parse_of` of the text, a function of the text alone.
#[verifier::external_body]
pub(crate) fn parse_url_path(url: &str) -> (res: Result<String, UrlErrorKind>)
    ensures
        url_parse_of(url@) == (match res {
            Ok(path) => Ok::<Seq<char>, UrlErrorKind>(path@),
            Err(k) => Err::<Seq<char>, UrlErrorKind>(k),
        }),
{
    match url::Url::parse(url) {
        Ok(parsed) => Ok(parsed.path().to_string()),
        Err(e) => Err(match e {
            ParseError::EmptyHost => UrlErrorKind::EmptyHost, ParseError::IdnaError => UrlErrorKind::IdnaError,
            ParseError::InvalidPort => UrlErrorKind::InvalidPort, ParseError::InvalidIpv4Address => UrlErrorKind::InvalidIpv4Address,
            ParseError::InvalidIpv6Address => UrlErrorKind::InvalidIpv6Address, ParseError::InvalidDomainCharacter => UrlErrorKind::InvalidDomainCharacter,
            ParseError::RelativeUrlWithoutBase => UrlErrorKind::RelativeUrlWithoutBase, ParseError::RelativeUrlWithCannotBeABaseBase => UrlErrorKind::RelativeUrlWithCannotBeABaseBase,
            ParseError::SetHostOnCannotBeABaseUrl => UrlErrorKind::SetHostOnCannotBeABaseUrl, ParseError::Overflow => UrlErrorKind::Overflow,
            _ => UrlErrorKind::Other,
        }),
    }
}

/// The description the url crate gives each kind of refusal (its `Display` of
/// `url::ParseError`); `Other` has none there and reads `invalid URL`.
pub open spec fn url_error_description(k: UrlErrorKind) -> Seq<char> {
    match k {
        UrlErrorKind::EmptyHost => "empty host"@,
        UrlErrorKind::IdnaError => "invalid international domain name"@,
        UrlErrorKind::InvalidPort => "invalid port number"@,
        UrlErrorKind::InvalidIpv4Address => "invalid IPv4 address"@,
        UrlErrorKind::InvalidIpv6Address => "invalid IPv6 address"@,
        UrlErrorKind::InvalidDomainCharacter => "invalid domain character"@,
        UrlErrorKind::RelativeUrlWithoutBase => "relative URL without a base"@,
        UrlErrorKind::RelativeUrlWithCannotBeABaseBase => "relative URL with a cannot-be-a-base base"@,
        UrlErrorKind::SetHostOnCannotBeABaseUrl => "a cannot-be-a-base URL doesn’t have a host to set"@,
        UrlErrorKind::Overflow => "URLs more than 4 GB are not supported"@,
        UrlErrorKind::Other => "invalid URL"@,
    }
}

/// Why no file name can be taken from a URL.
#[derive(Debug, Clone, Copy, PartialEq, Eq, Structural)]
pub enum FilenameError {
    /// The text is not a URL that `url::Url::parse` accepts; the kind of error.
    InvalidUrl(UrlErrorKind),
    /// The URL's path ends with `/` (or is empty).
    NoFilename,
}

impl FilenameError {
    /// The error's text: `No filename found`, or the url crate's description of
    /// why it refused the URL.
    pub fn message(&self) -> (m: String)
        ensures
            self matches FilenameError::NoFilename ==> m@ == "No filename found"@,
            self matches FilenameError::InvalidUrl(k) ==> m@ == url_error_description(*k),
    {
        let text = match self {
            FilenameError::NoFilename => "No filename found",
            FilenameError::InvalidUrl(k) => match k {
                UrlErrorKind::EmptyHost => "empty host",
                UrlErrorKind::IdnaError => "invalid international domain name",
                UrlErrorKind::InvalidPort => "invalid port number",
                UrlErrorKind::InvalidIpv4Address => "invalid IPv4 address",
                UrlErrorKind::InvalidIpv6Address => "invalid IPv6 address",
                UrlErrorKind::InvalidDomainCharacter => "invalid domain character",
                UrlErrorKind::RelativeUrlWithoutBase => "relative URL without a base",
                UrlErrorKind::RelativeUrlWithCannotBeABaseBase => "relative URL with a cannot-be-a-base base",
                UrlErrorKind::SetHostOnCannotBeABaseUrl => "a cannot-be-a-base URL doesn’t have a host to set",
                UrlErrorKind::Overflow => "URLs more than 4 GB are not supported",
                UrlErrorKind::Other => "invalid URL",
            },
        };
        let mut m = String::new();
        push_str(&mut m, text);
        m
    }
}

/// Index of the last occurrence of `c` in `s`.
pub open spec fn last_index_of(s: Seq<char>, c: char) -> Option<int>
    decreases s.len(),
{
    if s.len() == 0 {
        None
    } else if s.last() == c {
        Some(s.len() - 1)
    } else {
        last_index_of(s.drop_last(), c)
    }
}

/// The part of `p` after its last `/` (all of `p` when it has none).
pub open spec fn after_last_slash(p: Seq<char>) -> Seq<char> {
    match last_index_of(p, '/') {
        None => p,
        Some(k) => p.skip(k + 1),
    }
}

/// `std::path::Path::file_name` on a Unix path: the last component, skipping
/// trailing `/` and `.` components; `None` for an empty path, a root, `.` or a
/// path that ends in `..`.
pub open spec fn path_file_name(p: Seq<char>) -> Option<Seq<char>>
    decreases p.len(),
{
    if p.len() == 0 {
        None
    } else if p.last() == '/' {
        path_file_name(p.drop_last())
    } else if p =~= seq!['.'] {
        None
    } else if p.len() >= 2 && p.last() == '.' && p[p.len() - 2] == '/' {
        path_file_name(p.drop_last())
    } else {
        let seg = after_last_slash(p);
        if seg =~= seq!['.', '.'] {
            None
        } else {
            Some(seg)
        }
    }
}

/// The extension of a file name as `Path::extension` gives it: what follows the
/// last `.`, unless there is none or the only one starts the name.
pub open spec fn name_extension(name: Seq<char>) -> Option<Seq<char>> {
    match last_index_of(name, '.') {
        None => None,
        Some(k) => if k == 0 {
            None
        } else {
            Some(name.skip(k + 1))
        },
    }
}

/// The stem of a file name as `Path::file_stem` gives it.
pub open spec fn name_stem(name: Seq<char>) -> Seq<char> {
    match last_index_of(name, '.') {
        Some(k) => if k > 0 {
            name.take(k)
        } else {
            name
        },
        None => name,
    }
}

/// `Path::extension` on a Unix path.
pub open spec fn path_extension(p: Seq<char>) -> Option<Seq<char>> {
    match path_file_name(p) {
        None => None,
        Some(name) => name_extension(name),
    }
}

/// `Path::file_stem` on a Unix path.
pub open spec fn path_file_stem(p: Seq<char>) -> Option<Seq<char>> {
    match path_file_name(p) {
        None => None,
        Some(name) => Some(name_stem(name)),
    }
}

/// The file name a URL path names: its last `/`-separated piece, when that
/// piece is not empty.
pub open spec fn filename_in_path(path: Seq<char>) -> Option<Seq<char>> {
    let last = after_last_slash(path);
    if last.len() == 0 {
        None
    } else {
        Some(last)
    }
}

/// The file name a URL names: `filename_in_path` of its path; `None` when the
/// URL is refused or its path names no file.
pub open spec fn url_filename(url: Seq<char>) -> Option<Seq<char>> {
    match url_path_of(url) {
        None => None,
        Some(path) => filename_in_path(path),
    }
}

/// Index of the last `c` in `v[..end]`.
pub fn last_index_in(v: &Vec<char>, c: char, end: usize) -> (r: Option<usize>)
    requires
        end <= v.len(),
    ensures
        r matches Some(k) ==> last_index_of(v@.take(end as int), c) == Some(k as int) && k < end,
        r is None ==> last_index_of(v@.take(end as int), c) is None,
{
    let mut i: usize = end;
    while i > 0
        invariant
            i <= end <= v.len(),
            last_index_of(v@.take(end as int), c) == last_index_of(v@.take(i as int), c),
        decreases i,
    {
        assert(v@.take(i as int).drop_last() =~= v@.take(i - 1));
        if v[i - 1] == c {
            return Some(i - 1);
        }
        i = i - 1;
    }
    None
}

/// The range `(start, end)` of `v` that `path_file_name(v)` names, if any.
pub fn file_name_range(v: &Vec<char>) -> (r: Option<(usize, usize)>)
    ensures
        r is None ==> path_file_name(v@) is None,
        r matches Some((a, b)) ==> a <= b <= v.len() && path_file_name(v@) == Some(
            v@.subrange(a as int, b as int),
        ),
{
    let mut end: usize = v.len();
    assert(v@.take(end as int) =~= v@);
    loop
        invariant
            end <= v.len(),
            path_file_name(v@) == path_file_name(v@.take(end as int)),
        decreases end,
    {
        let ghost p = v@.take(end as int);
        if end == 0 {
            return None;
        }
        assert(p.drop_last() =~= v@.take(end - 1));
        if v[end - 1] == '/' {
            end = end - 1;
        } else if end == 1 && v[0] == '.' {
            assert(p =~= seq!['.']);
            return None;
        } else if end >= 2 && v[end - 1] == '.' && v[end - 2] == '/' {
            end = end - 1;
        } else {
            assert(!(p =~= seq!['.']));
            let start = match last_index_in(v, '/', end) {
                None => 0,
                Some(k) => k + 1,
            };
            assert(after_last_slash(p) =~= v@.subrange(start as int, end as int));
            if end - start == 2 && v[start] == '.' && v[start + 1] == '.' {
                assert(after_last_slash(p) =~= seq!['.', '.']);
                return None;
            }
            assert(!(after_last_slash(p) =~= seq!['.', '.']));
            return Some((start, end));
        }
    }
}

/// `v[from..to]` as a vector of its own.
pub fn sub_vec(v: &Vec<char>, from: usize, to: usize) -> (r: Vec<char>)
    requires
        from <= to <= v.len(),
    ensures
        r@ == v@.subrange(from as int, to as int),
{
    let mut r: Vec<char> = Vec::new();
    let mut i: usize = from;
    while i < to
        invariant
            from <= i <= to <= v.len(),
            r@ == v@.subrange(from as int, i as int),
        decreases to - i,
    {
        r.push(v[i]);
        i = i + 1;
        assert(r@ =~= v@.subrange(from as int, i as int));
    }
    r
}

/// `Path::extension` of the path `v`, as a vector of characters.
pub fn extension_of(v: &Vec<char>) -> (r: Option<Vec<char>>)
    ensures
        r is None ==> path_extension(v@) is None,
        r matches Some(e) ==> path_extension(v@) == Some(e@),
{
    match file_name_range(v) {
        None => None,
        Some((a, b)) => {
            let name = sub_vec(v, a, b);
            assert(name@.take(name.len() as int) =~= name@);
            match last_index_in(&name, '.', name.len()) {
                None => None,
                Some(k) => if k == 0 {
                    None
                } else {
                    Some(sub_vec(&name, k + 1, name.len()))
                },
            }
        },
    }
}

/// The last file name in a URL path: `/x/y.zip` gives `y.zip`; a path ending
/// in `/` gives `NoFilename`.
pub fn filename_from_path(path: &str) -> (r: Result<String, FilenameError>)
    ensures
        filename_in_path(path@) matches Some(name) ==> r matches Ok(s) && s@ == name,
        filename_in_path(path@) is None ==> r matches Err(FilenameError::NoFilename),
{
    let v = chars_of(path);
    let start = match last_index_in(&v, '/', v.len()) {
        None => 0,
        Some(k) => k + 1,
    };
    assert(v@.take(v.len() as int) =~= v@);
    assert(after_last_slash(v@) =~= v@.subrange(start as int, v.len() as int));
    if start == v.len() {
        Err(FilenameError::NoFilename)
    } else {
        let mut name = String::new();
        push_chars(&mut name, &v, start, v.len());
        Ok(name)
    }
}

/// The last file name in a URL's path: `https://a.b/x/y.zip?q=1` gives `y.zip`.
pub fn extract_filename(url_str: &str) -> (r: Result<String, FilenameError>)
    ensures
        r is Ok <==> url_filename(url_str@) is Some,
        r matches Ok(name) ==> url_filename(url_str@) == Some(name@),
        r matches Err(FilenameError::InvalidUrl(_)) <==> url_path_of(url_str@) is None,
        r matches Err(FilenameError::InvalidUrl(k)) ==> url_parse_of(url_str@) == Err::<
            Seq<char>,
            UrlErrorKind,
        >(k),
        r matches Err(FilenameError::NoFilename) <==> (url_path_of(url_str@) is Some
            && url_filename(url_str@) is None),
{
    match parse_url_path(url_str) {
        Err(e) => Err(FilenameError::InvalidUrl(e)),
        Ok(path) => filename_from_path(path.as_str()),
    }
}

/// The text of `format_bytes(b)`: `b` is converted to binary64, divided (in
/// binary64) by the largest unit among 1, 10^3, 10^6 and 10^9 that does not exceed
/// it, and printed with 0, 1, 1 or 2 decimal places followed by `B`, `KB`, `MB`
/// or `GB`. (The unit thresholds lie below 2^53, where the conversion of `b` to
/// binary64 is exact, so they compare with `b` itself.)
pub open spec fn format_bytes_text(b: nat) -> Seq<char> {
    let (n, d) = nearest_binary64(b, 1);
    if b < 1000 {
        fixed_decimal(n, d, 0) + seq!['B']
    } else if b < 1000000 {
        let (n2, d2) = nearest_binary64(n, d * 1000);
        fixed_decimal(n2, d2, 1) + seq!['K', 'B']
    } else if b < 1000000000 {
        let (n2, d2) = nearest_binary64(n, d * 1000000);
        fixed_decimal(n2, d2, 1) + seq!['M', 'B']
    } else {
        let (n2, d2) = nearest_binary64(n, d * 1000000000);
        fixed_decimal(n2, d2, 2) + seq!['G', 'B']
    }
}

/// Human-readable byte count: `999B`, `1.5KB`, `62.5MB`, `1.25GB`.
pub fn format_bytes(b: u64) -> (s: String)
    ensures
        s@ == format_bytes_text(b as nat),
{
    let (n, d) = nearest_binary64_u128(b as u128, 1);
    let mut out = String::new();
    if b < 1000 {
        push_fixed_decimal(&mut out, n, d, 0);
        out.push('B');
    } else {
        let (unit, places, prefix): (u128, u32, char) = if b < 1000000 {
            (1000, 1, 'K')
        } else if b < 1000000000 {
            (1000000, 1, 'M')
        } else {
            (1000000000, 2, 'G')
        };
        let (n2, d2) = nearest_binary64_u128(n, d * unit);
        push_fixed_decimal(&mut out, n2, d2, places);
        out.push(prefix);
        out.push('B');
    }
    out
}

/// The text of `format_duration(secs)`: `45s`, `2m5s`, `1h2m3s`.
pub open spec fn format_duration_text(secs: nat) -> Seq<char> {
    if secs < 60 {
        decimal(secs) + seq!['s']
    } else if secs < 3600 {
        decimal(secs / 60) + seq!['m'] + decimal(secs % 60) + seq!['s']
    } else {
        decimal(secs / 3600) + seq!['h'] + decimal((secs % 3600) / 60) + seq!['m'] + decimal(
            secs % 60,
        ) + seq!['s']
    }
}

/// Hours, minutes and seconds of `secs` put back together give `secs`.
pub(crate) proof fn lemma_hms_split(secs: nat)
    ensures
        (secs / 3600) * 3600 + ((secs % 3600) / 60) * 60 + secs % 60 == secs,
        (secs % 3600) / 60 < 60,
        secs % 60 < 60,
        (secs / 60) * 60 + secs % 60 == secs,
        secs < 3600 ==> secs / 60 < 60,
{
    let x: int = secs as int;
    vstd::arithmetic::div_mod::lemma_fundamental_div_mod(x, 3600);
    vstd::arithmetic::div_mod::lemma_fundamental_div_mod(x % 3600, 60);
    vstd::arithmetic::div_mod::lemma_fundamental_div_mod(x, 60);
    let h = x / 3600;
    let r = x % 3600;
    let m = r / 60;
    let s = r % 60;
    assert(x == (h * 60 + m) * 60 + s) by (nonlinear_arith)
        requires
            x == 3600 * h + r,
            r == 60 * m + s,
    ;
    vstd::arithmetic::div_mod::lemma_fundamental_div_mod_converse_mod(x, 60, h * 60 + m, s);
    assert(m < 60) by (nonlinear_arith)
        requires
            r == 60 * m + s,
            0 <= s,
            r < 3600,
    ;
    if x < 3600 {
        assert(x / 60 < 60) by (nonlinear_arith)
            requires
                x == 60 * (x / 60) + x % 60,
                0 <= x % 60,
                x < 3600,
        ;
    }
}

/// Law: the elapsed-time text reads back to the seconds it was made from:
/// `<s>s` under a minute, `<m>m<s>s` under an hour and `<h>h<m>m<s>s` from an
/// hour on, where `h * 3600 + m * 60 + s` is the elapsed time and the minutes
/// and seconds are each under 60.
pub proof fn lemma_duration_reads_back(secs: nat)
    ensures
        secs < 60 ==> format_duration_text(secs) == decimal(secs) + seq!['s'],
        60 <= secs < 3600 ==> exists|m: nat, s: nat|
            #![trigger decimal(m), decimal(s)]
            m * 60 + s == secs && m < 60 && s < 60 && format_duration_text(secs) == decimal(m)
                + seq!['m'] + decimal(s) + seq!['s'],
        secs >= 3600 ==> exists|h: nat, m: nat, s: nat|
            #![trigger decimal(h), decimal(m), decimal(s)]
            h * 3600 + m * 60 + s == secs && m < 60 && s < 60 && format_duration_text(secs)
                == decimal(h) + seq!['h'] + decimal(m) + seq!['m'] + decimal(s) + seq!['s'],
{
    lemma_hms_split(secs);
    let h = secs / 3600;
    let m = (secs % 3600) / 60;
    let s = secs % 60;
    if 60 <= secs < 3600 {
        assert(decimal(secs / 60) == decimal(secs / 60) && decimal(s) == decimal(s));
    }
    if secs >= 3600 {
        assert(decimal(h) == decimal(h) && decimal(m) == decimal(m) && decimal(s) == decimal(s));
    }
}

/// Elapsed time in seconds as `Ns`, `NmNs` or `NhNmNs`.
pub fn format_duration(secs: u64) -> (s: String)
    ensures
        s@ == format_duration_text(secs as nat),
{
    let mut out = String::new();
    let ghost start = out@;
    if secs < 60 {
        push_decimal(&mut out, secs as u128);
    } else if secs < 3600 {
        push_decimal(&mut out, (secs / 60) as u128);
        out.push('m');
        push_decimal(&mut out, (secs % 60) as u128);
    } else {
        push_decimal(&mut out, (secs / 3600) as u128);
        out.push('h');
        push_decimal(&mut out, ((secs % 3600) / 60) as u128);
        out.push('m');
        push_decimal(&mut out, (secs % 60) as u128);
    }
    out.push('s');
    assert(out@ =~= format_duration_text(secs as nat));
    out
}

/// The characters that Windows refuses in file names.
pub open spec fn is_reserved_name_char(c: char) -> bool {
    c == '<' || c == '>' || c == ':' || c == '"' || c == '/' || c == '\\' || c == '|' || c == '?'
        || c == '*'
}

/// `s` with every reserved character replaced by `_`.
pub open spec fn replace_reserved(s: Seq<char>) -> Seq<char> {
    s.map_values(|c: char| if is_reserved_name_char(c) { '_' } else { c })
}

/// `s` without its leading occurrences of `c`.
pub open spec fn strip_leading(s: Seq<char>, c: char) -> Seq<char>
    decreases s.len(),
{
    if s.len() > 0 && s[0] == c {
        strip_leading(s.skip(1), c)
    } else {
        s
    }
}

/// `s` without its trailing occurrences of `c`.
pub open spec fn strip_trailing(s: Seq<char>, c: char) -> Seq<char>
    decreases s.len(),
{
    if s.len() > 0 && s.last() == c {
        strip_trailing(s.drop_last(), c)
    } else {
        s
    }
}

/// `str::trim_matches(c)`: `s` without its leading and trailing occurrences of `c`.
pub open spec fn trim_char(s: Seq<char>, c: char) -> Seq<char> {
    strip_trailing(strip_leading(s, c), c)
}

/// The name a user asked for, made safe: straight quotes around it (`"`, then
/// `'`) are trimmed, then reserved characters become `_`.
pub open spec fn clean_custom_name(custom: Seq<char>) -> Seq<char> {
    replace_reserved(trim_char(trim_char(custom, '"'), '\''))
}

/// The name a download is saved under when the user gives none: the URL's file
/// name, or `download`.
pub open spec fn default_save_name(url: Seq<char>) -> Seq<char> {
    match url_filename(url) {
        Some(name) => name,
        None => seq!['d', 'o', 'w', 'n', 'l', 'o', 'a', 'd'],
    }
}

/// The path a single download is saved to. A custom name is cleaned; when it has
/// no extension (and is a file name at all: not empty, `.` or `..`) it takes the
/// non-empty extension of the default name. A cleaned name holds no `/`, so it
/// is its own file name and `Path::set_extension` appends `.` and the extension.
pub open spec fn save_path_spec(url: Seq<char>, custom: Option<Seq<char>>) -> Seq<char> {
    let base = default_save_name(url);
    match custom {
        None => base,
        Some(c) => {
            let name = clean_custom_name(c);
            match path_extension(base) {
                Some(ext) => if path_extension(name) is None && path_file_name(name) is Some
                    && ext.len() > 0 {
                    name + seq!['.'] + ext
                } else {
                    name
                },
                None => name,
            }
        },
    }
}

/// The range `[a, b)` of `v[from..to]` left after trimming `c` on both sides.
pub fn trim_range(v: &Vec<char>, from: usize, to: usize, c: char) -> (r: (usize, usize))
    requires
        from <= to <= v.len(),
    ensures
        from <= r.0 <= r.1 <= to,
        v@.subrange(r.0 as int, r.1 as int) == trim_char(v@.subrange(from as int, to as int), c),
{
    let mut a: usize = from;
    while a < to && v[a] == c
        invariant
            from <= a <= to <= v.len(),
            strip_leading(v@.subrange(from as int, to as int), c) == strip_leading(
                v@.subrange(a as int, to as int),
                c,
            ),
        decreases to - a,
    {
        assert(v@.subrange(a as int, to as int).skip(1) =~= v@.subrange(a + 1, to as int));
        a = a + 1;
    }
    let mut b: usize = to;
    assert(strip_leading(v@.subrange(a as int, to as int), c) =~= v@.subrange(a as int, to as int));
    while b > a && v[b - 1] == c
        invariant
            from <= a <= b <= to <= v.len(),
            trim_char(v@.subrange(from as int, to as int), c) == strip_trailing(
                v@.subrange(a as int, b as int),
                c,
            ),
        decreases b,
    {
        assert(v@.subrange(a as int, b as int).drop_last() =~= v@.subrange(a as int, b - 1));
        b = b - 1;
    }
    (a, b)
}

fn is_reserved(ch: char) -> (r: bool)
    ensures
        r == is_reserved_name_char(ch),
{
    ch == '<' || ch == '>' || ch == ':' || ch == '"' || ch == '/' || ch == '\\' || ch == '|' || ch
        == '?' || ch == '*'
}

/// `replace_reserved` of `raw`.
fn replace_reserved_chars(raw: &Vec<char>) -> (cleaned: Vec<char>)
    ensures
        cleaned@ == replace_reserved(raw@),
{
    let mut cleaned: Vec<char> = Vec::new();
    let mut i: usize = 0;
    while i < raw.len()
        invariant
            i <= raw.len(),
            cleaned@ == replace_reserved(raw@.take(i as int)),
        decreases raw.len() - i,
    {
        let ch = raw[i];
        let out = if is_reserved(ch) {
            '_'
        } else {
            ch
        };
        cleaned.push(out);
        i = i + 1;
        assert(cleaned@ =~= replace_reserved(raw@.take(i as int)));
    }
    assert(raw@.take(raw.len() as int) =~= raw@);
    cleaned
}

/// `clean_custom_name` of `c`.
pub fn clean_custom(c: &str) -> (name: Vec<char>)
    ensures
        name@ == clean_custom_name(c@),
{
    let raw = chars_of(c);
    let (a1, b1) = trim_range(&raw, 0, raw.len(), '"');
    assert(raw@.subrange(0, raw.len() as int) =~= raw@);
    let (a2, b2) = trim_range(&raw, a1, b1, '\'');
    let trimmed = sub_vec(&raw, a2, b2);
    replace_reserved_chars(&trimmed)
}

/// `default_save_name(url)`.
pub fn default_name(url: &str) -> (name: String)
    ensures
        name@ == default_save_name(url@),
{
    match extract_filename(url) {
        Ok(name) => name,
        Err(_) => {
            let mut d = String::new();
            d.push('d');
            d.push('o');
            d.push('w');
            d.push('n');
            d.push('l');
            d.push('o');
            d.push('a');
            d.push('d');
            d
        },
    }
}

/// Where a single download is saved: the custom name, cleaned and given the
/// URL file name's extension when it has none; else the URL's file name; else
/// `download`.
pub fn determine_save_path(url: &str, custom: Option<&str>) -> (path: String)
    ensures
        path@ == save_path_spec(
            url@,
            match custom {
                Some(c) => Some(c@),
                None => None,
            },
        ),
{
    let base = default_name(url);
    match custom {
        None => base,
        Some(c) => {
            let name = clean_custom(c);
            let base_chars = chars_of(base.as_str());
            let mut result = string_of(&name);
            match extension_of(&base_chars) {
                Some(ext) => {
                    if ext.len() > 0 && extension_of(&name).is_none() && file_name_range(
                        &name,
                    ).is_some() {
                        result.push('.');
                        push_chars(&mut result, &ext, 0, ext.len());
                        assert(ext@.subrange(0, ext.len() as int) =~= ext@);
                    }
                },
                None => {},
            }
            result
        },
    }
}

/// `last_index_of` finds the last occurrence.
pub proof fn lemma_last_index_of(s: Seq<char>, c: char)
    ensures
        last_index_of(s, c) matches Some(k) ==> 0 <= k < s.len() && s[k] == c && forall|j: int|
            k < j < s.len() ==> s[j] != c,
        last_index_of(s, c) is None ==> forall|j: int| 0 <= j < s.len() ==> s[j] != c,
    decreases s.len(),
{
    if s.len() > 0 && s.last() != c {
        lemma_last_index_of(s.drop_last(), c);
        assert forall|j: int| 0 <= j < s.len() - 1 implies s.drop_last()[j] == s[j] by {}
    }
}

/// Law: a file name taken from a URL is a single, non-empty path piece: it
/// holds no `/`.
pub proof fn lemma_filename_is_one_piece(url: Seq<char>)
    ensures
        url_filename(url) matches Some(name) ==> name.len() > 0 && !name.contains('/'),
{
    if let Some(path) = url_path_of(url) {
        lemma_last_index_of(path, '/');
        let last = after_last_slash(path);
        if last.contains('/') {
            let j = choose|j: int| 0 <= j < last.len() && last[j] == '/';
            match last_index_of(path, '/') {
                Some(k) => assert(path[k + 1 + j] == '/'),
                None => assert(path[j] == '/'),
            }
        }
    }
}

/// `strip_leading` leaves a suffix that does not start with `c`.
proof fn lemma_strip_leading(s: Seq<char>, c: char)
    ensures
        strip_leading(s, c).len() <= s.len(),
        strip_leading(s, c) =~= s.skip(s.len() - strip_leading(s, c).len()),
        strip_leading(s, c).len() > 0 ==> strip_leading(s, c)[0] != c,
    decreases s.len(),
{
    if s.len() > 0 && s[0] == c {
        lemma_strip_leading(s.skip(1), c);
        assert(s.skip(1).skip(s.len() - 1 - strip_leading(s, c).len()) =~= s.skip(
            s.len() - strip_leading(s, c).len(),
        ));
    }
}

/// `strip_trailing` leaves a prefix that does not end with `c`.
proof fn lemma_strip_trailing(s: Seq<char>, c: char)
    ensures
        strip_trailing(s, c).len() <= s.len(),
        strip_trailing(s, c) =~= s.take(strip_trailing(s, c).len() as int),
        strip_trailing(s, c).len() > 0 ==> strip_trailing(s, c).last() != c,
    decreases s.len(),
{
    if s.len() > 0 && s.last() == c {
        lemma_strip_trailing(s.drop_last(), c);
        assert(s.drop_last().take(strip_trailing(s, c).len() as int) =~= s.take(
            strip_trailing(s, c).len() as int,
        ));
    }
}

/// Every character of `trim_char(s, c)` is a character of `s`, and the result
/// neither starts nor ends with `c`.
proof fn lemma_trim_char(s: Seq<char>, c: char)
    ensures
        forall|j: int|
            0 <= j < trim_char(s, c).len() ==> exists|k: int|
                0 <= k < s.len() && s[k] == #[trigger] trim_char(s, c)[j],
        trim_char(s, c).len() > 0 ==> trim_char(s, c)[0] != c && trim_char(s, c).last() != c,
{
    let l = strip_leading(s, c);
    lemma_strip_leading(s, c);
    lemma_strip_trailing(l, c);
    let t = trim_char(s, c);
    let off = s.len() - l.len();
    assert forall|j: int| 0 <= j < t.len() implies exists|k: int|
        0 <= k < s.len() && s[k] == #[trigger] t[j] by {
        assert(t[j] == l[j]);
        assert(l[j] == s[j + off]);
    }
    if t.len() > 0 {
        assert(t[0] == l[0]);
    }
}

/// Every character that `strip_leading` or `strip_trailing` removes is `c`.
proof fn lemma_strip_removes_only(s: Seq<char>, c: char)
    ensures
        forall|k: int| 0 <= k < s.len() - strip_leading(s, c).len() ==> s[k] == c,
        forall|k: int| strip_trailing(s, c).len() <= k < s.len() ==> s[k] == c,
    decreases s.len(),
{
    if s.len() > 0 && s[0] == c {
        lemma_strip_removes_only(s.skip(1), c);
        assert forall|k: int| 0 <= k < s.len() - strip_leading(s, c).len() implies s[k] == c by {
            if k > 0 {
                assert(s[k] == s.skip(1)[k - 1]);
            }
        }
    }
    if s.len() > 0 && s.last() == c {
        lemma_strip_removes_only(s.drop_last(), c);
        assert forall|k: int| strip_trailing(s, c).len() <= k < s.len() implies s[k] == c by {
            if k < s.len() - 1 {
                assert(s[k] == s.drop_last()[k]);
            }
        }
    }
}

/// `trim_char(s, c)` is a stretch `s[a..b]` with only `c` outside it.
proof fn lemma_trim_is_stretch(s: Seq<char>, c: char) -> (ab: (int, int))
    ensures
        0 <= ab.0 <= ab.1 <= s.len(),
        trim_char(s, c) == s.subrange(ab.0, ab.1),
        forall|k: int| (0 <= k < ab.0 || ab.1 <= k < s.len()) ==> s[k] == c,
        s.len() == 0 || (s[0] != c && s.last() != c) ==> ab == (0int, s.len() as int),
{
    let l = strip_leading(s, c);
    lemma_strip_leading(s, c);
    lemma_strip_trailing(l, c);
    lemma_strip_removes_only(s, c);
    lemma_strip_removes_only(l, c);
    let a = s.len() - l.len();
    let b = a + strip_trailing(l, c).len();
    assert(trim_char(s, c) =~= s.subrange(a, b));
    assert forall|k: int| (0 <= k < a || b <= k < s.len()) implies s[k] == c by {
        if b <= k < s.len() {
            assert(s[k] == l[k - a]);
        }
    }
    (a, b)
}

/// Law: cleaning a custom name changes nothing but the characters
/// `< > : " / \ | ? *`, each of which becomes `_`, and the straight quotes it
/// trims from its two ends. The result is a stretch `custom[a..b]` of the name,
/// outside of which only `"` and `'` stand, with those characters replaced and
/// every other character (a space included) kept in its place; a name that
/// neither starts nor ends with a straight quote keeps all of its characters.
pub proof fn lemma_clean_name_keeps_other_chars(custom: Seq<char>)
    ensures
        exists|a: int, b: int|
            #![trigger custom.subrange(a, b)]
            {
                &&& 0 <= a <= b <= custom.len()
                &&& forall|k: int|
                    (0 <= k < a || b <= k < custom.len()) ==> (custom[k] == '"' || custom[k]
                        == '\'')
                &&& clean_custom_name(custom) == custom.subrange(a, b).map_values(
                    |ch: char|
                        if ch == '<' || ch == '>' || ch == ':' || ch == '"' || ch == '/' || ch
                            == '\\' || ch == '|' || ch == '?' || ch == '*' {
                            '_'
                        } else {
                            ch
                        },
                )
            },
        custom.len() == 0 || (custom[0] != '"' && custom[0] != '\'' && custom.last() != '"'
            && custom.last() != '\'') ==> clean_custom_name(custom) == custom.map_values(
            |ch: char|
                if ch == '<' || ch == '>' || ch == ':' || ch == '"' || ch == '/' || ch == '\\'
                    || ch == '|' || ch == '?' || ch == '*' {
                    '_'
                } else {
                    ch
                },
        ),
{
    let (a1, b1) = lemma_trim_is_stretch(custom, '"');
    let t1 = trim_char(custom, '"');
    let (a2, b2) = lemma_trim_is_stretch(t1, '\'');
    let a = a1 + a2;
    let b = a1 + b2;
    assert(trim_char(t1, '\'') =~= custom.subrange(a, b));
    assert forall|k: int| (0 <= k < a || b <= k < custom.len()) implies (custom[k] == '"'
        || custom[k] == '\'') by {
        if a1 <= k < b1 {
            assert(custom[k] == t1[k - a1]);
        }
    }
    assert(clean_custom_name(custom) =~= custom.subrange(a, b).map_values(
        |ch: char|
            if ch == '<' || ch == '>' || ch == ':' || ch == '"' || ch == '/' || ch == '\\' || ch
                == '|' || ch == '?' || ch == '*' {
                '_'
            } else {
                ch
            },
    ));
    if custom.len() == 0 || (custom[0] != '"' && custom[0] != '\'' && custom.last() != '"'
        && custom.last() != '\'') {
        assert(a1 == 0 && b1 == custom.len());
        assert(t1 =~= custom);
        assert(custom.subrange(a, b) =~= custom);
    }
}

/// Law: the path a download is saved under, when the user names it, begins with
/// the cleaned name; after it comes nothing, or a `.` and the extension of the
/// URL's file name.
pub proof fn lemma_save_path_starts_with_name(url: Seq<char>, custom: Seq<char>)
    ensures
        clean_custom_name(custom).is_prefix_of(save_path_spec(url, Some(custom))),
        save_path_spec(url, Some(custom)).len() == clean_custom_name(custom).len() || save_path_spec(
            url,
            Some(custom),
        )[clean_custom_name(custom).len() as int] == '.',
{
    let name = clean_custom_name(custom);
    let p = save_path_spec(url, Some(custom));
    if p.len() != name.len() {
        let ext = path_extension(default_save_name(url)).unwrap();
        assert(p =~= name + seq!['.'] + ext);
        assert(p[name.len() as int] == '.');
        assert(p.take(name.len() as int) =~= name);
    } else {
        assert(p =~= name);
    }
}

/// Law: a cleaned custom name holds none of `< > : " / \ | ? *`, and neither
/// starts nor ends with `'`: straight quotes typed around a name are gone.
pub proof fn lemma_clean_name_is_safe(custom: Seq<char>)
    ensures
        forall|j: int|
            0 <= j < clean_custom_name(custom).len() ==> !is_reserved_name_char(
                #[trigger] clean_custom_name(custom)[j],
            ),
        clean_custom_name(custom).len() > 0 ==> clean_custom_name(custom)[0] != '\''
            && clean_custom_name(custom).last() != '\'',
{
    let t1 = trim_char(custom, '"');
    let t2 = trim_char(t1, '\'');
    lemma_trim_char(t1, '\'');
    let r = replace_reserved(t2);
    assert forall|j: int| 0 <= j < r.len() implies !is_reserved_name_char(#[trigger] r[j]) by {}
    if r.len() > 0 {
        assert(r[0] == if is_reserved_name_char(t2[0]) { '_' } else { t2[0] });
        assert(r.last() == r[r.len() - 1]);
        assert(t2.last() == t2[t2.len() - 1]);
    }
}

} // verus!
