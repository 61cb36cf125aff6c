//! Batch downloads: the `[start-end]` / `[start-end:step]` range expression in a
//! URL, the URLs and file names it expands to, and the run's tally.

use vstd::prelude::*;
use crate::utils::{
    extract_filename, url_filename, file_name_range, last_index_in, name_stem, path_file_stem,
    parse_url_path, sub_vec, url_path_of,
};
use crate::text::{chars_of, decimal, push_chars, push_decimal, push_str, push_zero_padded, zero_pad};
use vstd::arithmetic::div_mod::{lemma_add_mod_noop, lemma_fundamental_div_mod, lemma_small_mod};

verus! {

/// Whether the regex crate's `\d` (Unicode `\p{Nd}`) matches `c`.
pub uninterp spec fn regex_digit(c: char) -> bool;

/// Calls `regex::Regex::is_match` with the pattern `\A\d\z` on the one-character
/// text `c`. Claimed: the answer is `regex_digit(c)`, and among ASCII characters
/// exactly `0`..`9` are digits (`\d` is `\p{Nd}`, whose ASCII members are those).
#[verifier::external_body]
fn is_regex_digit(c: char) -> (r: bool)
    ensures
        r == regex_digit(c),
        (c as u32) < 128 ==> (r <==> ('0' <= c && c <= '9')),
{
    let mut buf = [0u8; 4];
    regex::Regex::new(r"\A\d\z").unwrap().is_match(c.encode_utf8(&mut buf))
}

/// Whether the regex `\d` matches `c`: among ASCII characters exactly `0`..`9`;
/// beyond ASCII, the Unicode decimal digits that `regex_digit` names.
pub open spec fn pattern_digit(c: char) -> bool {
    if (c as u32) < 128 {
        '0' <= c && c <= '9'
    } else {
        regex_digit(c)
    }
}

/// The end of the run of `\d` characters of `s` that starts at `k`.
pub open spec fn digit_run_end(s: Seq<char>, k: int) -> int
    decreases s.len() - k,
{
    if 0 <= k < s.len() && pattern_digit(s[k]) {
        digit_run_end(s, k + 1)
    } else {
        k
    }
}

/// End of the first number of a range expression that opens at `i`.
pub open spec fn first_end(s: Seq<char>, i: int) -> int {
    digit_run_end(s, i + 1)
}

/// End of the second number.
pub open spec fn last_end(s: Seq<char>, i: int) -> int {
    digit_run_end(s, first_end(s, i) + 1)
}

/// End of the step number (when there is one).
pub open spec fn step_end(s: Seq<char>, i: int) -> int {
    digit_run_end(s, last_end(s, i) + 1)
}

/// Whether the regex `\[(\d+)-(\d+)(?::(\d+))?\]` matches at `i`. A run of
/// digits must be followed by `-`, `:` or `]`, none of which is a digit, so each
/// group takes its whole run.
pub open spec fn pattern_at(s: Seq<char>, i: int) -> bool {
    let f = first_end(s, i);
    let l = last_end(s, i);
    &&& 0 <= i < s.len()
    &&& s[i] == '['
    &&& i + 1 < f < s.len()
    &&& s[f] == '-'
    &&& f + 1 < l < s.len()
    &&& (s[l] == ']' || (s[l] == ':' && l + 1 < step_end(s, i) < s.len() && s[step_end(s, i)]
        == ']'))
}

/// Whether the match at `i` has a step.
pub open spec fn has_step(s: Seq<char>, i: int) -> bool {
    s[last_end(s, i)] == ':'
}

/// Where the match at `i` ends (exclusive).
pub open spec fn pattern_end(s: Seq<char>, i: int) -> int {
    if has_step(s, i) {
        step_end(s, i) + 1
    } else {
        last_end(s, i) + 1
    }
}

/// The leftmost match starting at or after `i`.
pub open spec fn find_pattern(s: Seq<char>, i: int) -> Option<int>
    decreases s.len() - i,
{
    if 0 <= i < s.len() {
        if pattern_at(s, i) {
            Some(i)
        } else {
            find_pattern(s, i + 1)
        }
    } else {
        None
    }
}

/// The value of the ASCII digits `s[a..b]`.
pub open spec fn digits_value(s: Seq<char>, a: int, b: int) -> nat
    decreases b - a,
{
    if a < b {
        digits_value(s, a, b - 1) * 10 + (s[b - 1] as int - 48) as nat
    } else {
        0
    }
}

/// Whether `s[a..b]` holds ASCII digits only.
pub open spec fn ascii_digits(s: Seq<char>, a: int, b: int) -> bool {
    forall|k: int| a <= k < b ==> '0' <= #[trigger] s[k] && s[k] <= '9'
}

/// Whether `s[a..b]` parses as a `u32`.
pub open spec fn fits_u32(s: Seq<char>, a: int, b: int) -> bool {
    ascii_digits(s, a, b) && digits_value(s, a, b) <= u32::MAX
}

/// Whether every number of the leftmost range expression parses as a `u32`
/// (true when there is none). Elsewhere the parse of a number fails.
pub open spec fn batch_url_parsable(s: Seq<char>) -> bool {
    match find_pattern(s, 0) {
        None => true,
        Some(i) => {
            &&& fits_u32(s, i + 1, first_end(s, i))
            &&& fits_u32(s, first_end(s, i) + 1, last_end(s, i))
            &&& has_step(s, i) ==> fits_u32(s, last_end(s, i) + 1, step_end(s, i))
        },
    }
}

/// `start, start + step, ...` up to `end`.
pub open spec fn batch_numbers(start: nat, end: nat, step: nat) -> Seq<u32> {
    Seq::new(((end - start) / (step as int) + 1) as nat, |k: int| (start + k * step) as u32)
}

/// The URL with its leftmost range expression replaced by `%0<width>d`, where
/// `width` is the number of digits of the range's first number.
pub open spec fn batch_template(s: Seq<char>, i: int) -> Seq<char> {
    s.take(i) + seq!['%', '0'] + decimal((first_end(s, i) - (i + 1)) as nat) + seq!['d'] + s.skip(
        pattern_end(s, i),
    )
}

/// What `parse_batch_url` gives for the URL `s`.
pub open spec fn parse_batch_spec(s: Seq<char>) -> Result<(Seq<char>, Seq<u32>), Seq<char>> {
    match find_pattern(s, 0) {
        None => Err("invalid batch pattern"@),
        Some(i) => {
            let start = digits_value(s, i + 1, first_end(s, i));
            let end = digits_value(s, first_end(s, i) + 1, last_end(s, i));
            let step = if has_step(s, i) {
                digits_value(s, last_end(s, i) + 1, step_end(s, i))
            } else {
                1
            };
            if start > end || step == 0 {
                Err("invalid range"@)
            } else {
                Ok((batch_template(s, i), batch_numbers(start, end, step)))
            }
        },
    }
}

/// The `k`-th number of a range is `start + k * step`, and it lies in the range.
proof fn lemma_batch_number_at(start: nat, end: nat, step: nat, k: int)
    requires
        start <= end <= u32::MAX,
        step > 0,
        0 <= k < batch_numbers(start, end, step).len(),
    ensures
        batch_numbers(start, end, step)[k] == start + k * step,
        start <= start + k * step <= end,
{
    let d: int = end - start;
    let st: int = step as int;
    let q: int = d / st;
    vstd::arithmetic::div_mod::lemma_fundamental_div_mod(d, st);
    assert(k * st <= q * st && k * st >= 0) by (nonlinear_arith)
        requires
            0 <= k <= q,
            st > 0,
    ;
}

/// Law: the numbers of a range `start..=end` taken every `step` are exactly the
/// `x` with `start <= x <= end` and `(x - start) % step == 0`, in increasing
/// order: there are `(end - start) / step + 1` of them, the first is `start`,
/// each is `step` more than the one before, and the last is
/// `start + ((end - start) / step) * step`.
pub proof fn lemma_batch_numbers_cover_range(start: nat, end: nat, step: nat)
    requires
        start <= end <= u32::MAX,
        step > 0,
    ensures
        batch_numbers(start, end, step).len() == (end - start) / (step as int) + 1,
        batch_numbers(start, end, step)[0] == start,
        batch_numbers(start, end, step).last() == start + ((end - start) / (step as int)) * step,
        forall|k: int|
            0 <= k < batch_numbers(start, end, step).len() ==> #[trigger] batch_numbers(
                start,
                end,
                step,
            )[k] == start + k * step,
        forall|k: int|
            0 <= k < batch_numbers(start, end, step).len() - 1 ==> #[trigger] batch_numbers(
                start,
                end,
                step,
            )[k] < batch_numbers(start, end, step)[k + 1],
        forall|x: u32|
            #[trigger] batch_numbers(start, end, step).contains(x) <==> (start <= x <= end && (x
                - start) % (step as int) == 0),
{
    let nums = batch_numbers(start, end, step);
    let d: int = end - start;
    let st: int = step as int;
    let q: int = d / st;
    vstd::arithmetic::div_mod::lemma_fundamental_div_mod(d, st);
    assert(nums.len() == q + 1);
    assert forall|k: int| 0 <= k < nums.len() implies #[trigger] nums[k] == start + k * step by {
        lemma_batch_number_at(start, end, step, k);
    }
    lemma_batch_number_at(start, end, step, 0);
    lemma_batch_number_at(start, end, step, q);
    assert forall|k: int| 0 <= k < nums.len() - 1 implies #[trigger] nums[k] < nums[k + 1] by {
        lemma_batch_number_at(start, end, step, k);
        lemma_batch_number_at(start, end, step, k + 1);
        assert((k + 1) * st == k * st + st) by (nonlinear_arith);
    }
    assert forall|x: u32| #[trigger] nums.contains(x) <==> (start <= x <= end && (x - start) % st
        == 0) by {
        if nums.contains(x) {
            let k = choose|k: int| 0 <= k < nums.len() && nums[k] == x;
            lemma_batch_number_at(start, end, step, k);
            vstd::arithmetic::div_mod::lemma_mod_multiples_basic(k, st);
            assert(x - start == k * st);
        }
        if start <= x <= end && (x - start) % st == 0 {
            let k: int = (x - start) / st;
            vstd::arithmetic::div_mod::lemma_fundamental_div_mod(x - start, st);
            assert(k * st == x - start) by (nonlinear_arith)
                requires
                    x - start == st * k + (x - start) % st,
                    (x - start) % st == 0,
            ;
            assert(0 <= k <= q) by (nonlinear_arith)
                requires
                    k * st == x - start,
                    0 <= x - start <= d,
                    st > 0,
                    q * st + d % st == d,
                    0 <= d % st < st,
            ;
            lemma_batch_number_at(start, end, step, k);
            assert(nums[k] as int == x as int);
            assert(nums[k] == x);
        }
    }
}

/// Law: a batch URL that reads as `[start-end]` or `[start-end:step]` expands to
/// every number of that range, `start` to `end` in steps of `step` (1 when none
/// is written): `(end - start) / step + 1` numbers, the `k`-th being
/// `start + k * step`.
pub proof fn lemma_parsed_numbers_cover_range(s: Seq<char>)
    requires
        batch_url_parsable(s),
        parse_batch_spec(s) is Ok,
    ensures
        ({
            let i = find_pattern(s, 0).unwrap();
            let start = digits_value(s, i + 1, first_end(s, i));
            let end = digits_value(s, first_end(s, i) + 1, last_end(s, i));
            let step = if has_step(s, i) {
                digits_value(s, last_end(s, i) + 1, step_end(s, i))
            } else {
                1
            };
            let nums = parse_batch_spec(s)->Ok_0.1;
            &&& start <= end
            &&& step > 0
            &&& nums.len() == (end - start) / (step as int) + 1
            &&& forall|k: int| 0 <= k < nums.len() ==> #[trigger] nums[k] == start + k * step
        }),
{
    let i = find_pattern(s, 0).unwrap();
    let start = digits_value(s, i + 1, first_end(s, i));
    let end = digits_value(s, first_end(s, i) + 1, last_end(s, i));
    let step = if has_step(s, i) {
        digits_value(s, last_end(s, i) + 1, step_end(s, i))
    } else {
        1
    };
    lemma_batch_numbers_cover_range(start, end, step);
}


/// The end of the run of digits of `v` that starts at `k`.
fn run_end(v: &Vec<char>, k: usize) -> (e: usize)
    requires
        k <= v.len(),
    ensures
        e == digit_run_end(v@, k as int),
        k <= e <= v.len(),
{
    let mut j: usize = k;
    while j < v.len() && is_regex_digit(v[j])
        invariant
            k <= j <= v.len(),
            digit_run_end(v@, k as int) == digit_run_end(v@, j as int),
        decreases v.len() - j,
    {
        j = j + 1;
    }
    j
}

/// The match of the range expression at `i`: the ends of its numbers and
/// whether it has a step.
fn match_at(v: &Vec<char>, i: usize) -> (r: Option<(usize, usize, Option<usize>)>)
    requires
        i < v.len(),
    ensures
        r is Some <==> pattern_at(v@, i as int),
        r matches Some((f, l, st)) ==> {
            &&& f == first_end(v@, i as int)
            &&& l == last_end(v@, i as int)
            &&& (st is Some <==> has_step(v@, i as int))
            &&& (st matches Some(e) ==> e == step_end(v@, i as int))
        },
{
    if v[i] != '[' {
        return None;
    }
    let f = run_end(v, i + 1);
    if !(i + 1 < f && f < v.len() && v[f] == '-') {
        return None;
    }
    let l = run_end(v, f + 1);
    if !(f + 1 < l && l < v.len()) {
        return None;
    }
    if v[l] == ']' {
        return Some((f, l, None));
    }
    if v[l] != ':' {
        return None;
    }
    let e = run_end(v, l + 1);
    if l + 1 < e && e < v.len() && v[e] == ']' {
        Some((f, l, Some(e)))
    } else {
        None
    }
}

/// The leftmost match in `v`.
fn find_match(v: &Vec<char>) -> (r: Option<(usize, usize, usize, Option<usize>)>)
    ensures
        r matches Some((j, f, l, st)) ==> pattern_at(v@, j as int) && j < v.len(),
        match find_pattern(v@, 0) {
            None => r is None,
            Some(i) => r matches Some((j, f, l, st)) && j == i && f == first_end(v@, i) && l
                == last_end(v@, i) && (st is Some <==> has_step(v@, i)) && (st matches Some(e)
                ==> e == step_end(v@, i)),
        },
{
    let mut i: usize = 0;
    while i < v.len()
        invariant
            i <= v.len(),
            find_pattern(v@, 0) == find_pattern(v@, i as int),
        decreases v.len() - i,
    {
        match match_at(v, i) {
            Some((f, l, st)) => {
                return Some((i, f, l, st));
            },
            None => {},
        }
        i = i + 1;
    }
    None
}

/// The value of ASCII digits grows as digits are appended.
proof fn lemma_digits_value_monotone(s: Seq<char>, a: int, k: int, b: int)
    requires
        a <= k <= b,
        ascii_digits(s, a, b),
    ensures
        digits_value(s, a, k) <= digits_value(s, a, b),
    decreases b - k,
{
    if k < b {
        lemma_digits_value_monotone(s, a, k, b - 1);
        assert('0' <= s[b - 1]);
    }
}

/// `s[a..b]` parsed as a `u32`, as `str::parse::<u32>` on digits does.
fn parse_digits_u32(v: &Vec<char>, a: usize, b: usize) -> (r: Option<u32>)
    requires
        a <= b <= v.len(),
    ensures
        r is Some <==> fits_u32(v@, a as int, b as int),
        r matches Some(x) ==> x == digits_value(v@, a as int, b as int),
{
    let mut acc: u64 = 0;
    let mut k: usize = a;
    while k < b
        invariant
            a <= k <= b <= v.len(),
            ascii_digits(v@, a as int, k as int),
            acc == digits_value(v@, a as int, k as int),
            acc <= u32::MAX,
        decreases b - k,
    {
        let c = v[k];
        if !('0' <= c && c <= '9') {
            return None;
        }
        let d = (c as u32 - 48) as u64;
        let next = acc * 10 + d;
        if next > 0xFFFF_FFFF {
            proof {
                assert(ascii_digits(v@, a as int, (k + 1) as int));
                if ascii_digits(v@, a as int, b as int) {
                    lemma_digits_value_monotone(v@, a as int, (k + 1) as int, b as int);
                }
            }
            return None;
        }
        acc = next;
        k = k + 1;
    }
    Some(acc as u32)
}

/// `batch_numbers(start, end, step)` as a vector.
fn batch_numbers_vec(start: u32, end: u32, step: u32) -> (nums: Vec<u32>)
    requires
        start <= end,
        step > 0,
    ensures
        nums@ == batch_numbers(start as nat, end as nat, step as nat),
{
    let mut nums: Vec<u32> = Vec::new();
    let mut cur: u64 = start as u64;
    let ghost q: int = (end - start) as int / step as int;
    proof {
        vstd::arithmetic::div_mod::lemma_fundamental_div_mod((end - start) as int, step as int);
        assert(nums@.len() * (step as int) == 0) by (nonlinear_arith)
            requires
                nums@.len() == 0,
        ;
    }
    while cur <= end as u64
        invariant
            start <= end,
            step > 0,
            q == (end - start) as int / step as int,
            q * step + (end - start) as int % step as int == (end - start) as int,
            0 <= (end - start) as int % (step as int) < step,
            (cur as int) == (start as int) + nums@.len() * (step as int),
            nums@.len() <= q + 1,
            nums@ =~= Seq::new(nums@.len(), |j: int| (start + j * step) as u32),
            cur <= end as int + step as int,
        decreases end as int + step as int - cur,
    {
        proof {
            assert(nums@.len() <= q) by (nonlinear_arith)
                requires
                    start as int + nums@.len() * step as int <= end as int,
                    q * step + (end - start) as int % step as int == (end - start) as int,
                    0 <= (end - start) as int % (step as int) < step,
                    step > 0,
            ;
        }
        let ghost n = nums@.len();
        nums.push(cur as u32);
        cur = cur + step as u64;
        proof {
            assert((n + 1) * (step as int) == n * (step as int) + step) by (nonlinear_arith);
        }
    }
    proof {
        assert(nums@.len() >= q + 1) by (nonlinear_arith)
            requires
                start as int + nums@.len() * step as int > end as int,
                q * step + (end - start) as int % step as int == (end - start) as int,
                0 <= (end - start) as int % (step as int) < step,
                step > 0,
        ;
    }
    nums
}

/// Whether every number of the leftmost range expression of `raw` parses as a
/// `u32`.
pub fn batch_url_is_parsable(raw: &str) -> (b: bool)
    ensures
        b == batch_url_parsable(raw@),
{
    let v = chars_of(raw);
    match find_match(&v) {
        None => true,
        Some((i, f, l, st)) => {
            parse_digits_u32(&v, i + 1, f).is_some() && parse_digits_u32(&v, f + 1, l).is_some()
                && match st {
                None => true,
                Some(e) => parse_digits_u32(&v, l + 1, e).is_some(),
            }
        },
    }
}

/// Reads the range expression `[start-end]` or `[start-end:step]` of a batch URL
/// (the leftmost one): the URL becomes a template with `%0<width>d` in its place,
/// `width` being the number of digits written for `start`, and the numbers are
/// `start, start + step, ...` up to `end`. No expression gives the error
/// `invalid batch pattern`; `start > end` or a zero step gives `invalid range`.
pub fn parse_batch_url(raw: &str) -> (r: Result<(String, Vec<u32>), String>)
    requires
        batch_url_parsable(raw@),
    ensures
        match r {
            Ok((template, nums)) => parse_batch_spec(raw@) == Ok::<
                (Seq<char>, Seq<u32>),
                Seq<char>,
            >((template@, nums@)),
            Err(e) => parse_batch_spec(raw@) == Err::<(Seq<char>, Seq<u32>), Seq<char>>(e@),
        },
{
    let v = chars_of(raw);
    match find_match(&v) {
        None => {
            let mut e = String::new();
            push_str(&mut e, "invalid batch pattern");
            Err(e)
        },
        Some((i, f, l, st)) => {
            let start = parse_digits_u32(&v, i + 1, f);
            let end = parse_digits_u32(&v, f + 1, l);
            let step = match st {
                None => Some(1u32),
                Some(e) => parse_digits_u32(&v, l + 1, e),
            };
            match (start, end, step) {
                (Some(start), Some(end), Some(step)) => {
                    if start > end || step == 0 {
                        let mut e = String::new();
                        push_str(&mut e, "invalid range");
                        Err(e)
                    } else {
                        let end_pos = match st {
                            None => l + 1,
                            Some(e) => e + 1,
                        };
                        let mut template = String::new();
                        push_chars(&mut template, &v, 0, i);
                        template.push('%');
                        template.push('0');
                        push_decimal(&mut template, (f - (i + 1)) as u128);
                        template.push('d');
                        push_chars(&mut template, &v, end_pos, v.len());
                        assert(template@ =~= batch_template(v@, i as int));
                        let nums = batch_numbers_vec(start, end, step);
                        Ok((template, nums))
                    }
                },
                _ => {
                    proof {
                        assert(false);
                    }
                    Err(String::new())
                },
            }
        },
    }
}

/// `parse_batch_url` where every number of the range expression parses as a
/// `u32`; `None` elsewhere (where reading the numbers fails).
pub fn parse_batch_url_checked(raw: &str) -> (r: Option<Result<(String, Vec<u32>), String>>)
    ensures
        r is None <==> !batch_url_parsable(raw@),
        r matches Some(res) ==> match res {
            Ok((template, nums)) => parse_batch_spec(raw@) == Ok::<
                (Seq<char>, Seq<u32>),
                Seq<char>,
            >((template@, nums@)),
            Err(e) => parse_batch_spec(raw@) == Err::<(Seq<char>, Seq<u32>), Seq<char>>(e@),
        },
{
    if batch_url_is_parsable(raw) {
        Some(parse_batch_url(raw))
    } else {
        None
    }
}

/// The end of the run of ASCII digits of `s` that starts at `k`.
pub open spec fn ascii_run_end(s: Seq<char>, k: int) -> int
    decreases s.len() - k,
{
    if 0 <= k < s.len() && '0' <= s[k] && s[k] <= '9' {
        ascii_run_end(s, k + 1)
    } else {
        k
    }
}

/// Whether `s` holds a placeholder `%0<digits>d` at `p`.
pub open spec fn placeholder_at(s: Seq<char>, p: int) -> bool {
    &&& 0 <= p
    &&& p + 1 < s.len()
    &&& s[p] == '%'
    &&& s[p + 1] == '0'
    &&& p + 2 < ascii_run_end(s, p + 2) < s.len()
    &&& s[ascii_run_end(s, p + 2)] == 'd'
}

/// The padding width a placeholder at `p` asks for: its digits, or `1` when they
/// do not fit a `usize`.
pub open spec fn placeholder_width(s: Seq<char>, p: int) -> nat {
    let w = digits_value(s, p + 2, ascii_run_end(s, p + 2));
    if w <= usize::MAX {
        w
    } else {
        1
    }
}

/// The first index `>= i` where `s` holds a placeholder.
pub open spec fn find_placeholder(s: Seq<char>, i: int) -> Option<int>
    decreases s.len() - i,
{
    if 0 <= i < s.len() {
        if placeholder_at(s, i) {
            Some(i)
        } else {
            find_placeholder(s, i + 1)
        }
    } else {
        None
    }
}

/// The text of the placeholder at `p`, from `%` to `d`.
pub open spec fn placeholder_text(s: Seq<char>, p: int) -> Seq<char> {
    s.subrange(p, ascii_run_end(s, p + 2) + 1)
}

/// `str::replace`: every occurrence of `pat` in `t`, found from the left without
/// overlap, replaced by `rep`.
pub open spec fn replace_all(t: Seq<char>, pat: Seq<char>, rep: Seq<char>) -> Seq<char>
    decreases t.len(),
{
    if t.len() == 0 || pat.len() == 0 {
        t
    } else if pat.len() <= t.len() && t.take(pat.len() as int) == pat {
        rep + replace_all(t.skip(pat.len() as int), pat, rep)
    } else {
        seq![t[0]] + replace_all(t.skip(1), pat, rep)
    }
}

/// What `format_template(t, num)` gives: the first placeholder `%0<width>d` of
/// `t` names the padding; every copy of its text becomes `num` zero-padded to
/// `width` digits. A template without a placeholder is returned unchanged.
pub open spec fn format_template_spec(t: Seq<char>, num: nat) -> Seq<char> {
    match find_placeholder(t, 0) {
        None => t,
        Some(p) => replace_all(
            t,
            placeholder_text(t, p),
            zero_pad(decimal(num), placeholder_width(t, p)),
        ),
    }
}

/// The index of the `d` that ends the placeholder at `p`, if there is one.
fn placeholder_end(v: &Vec<char>, p: usize) -> (r: Option<usize>)
    requires
        p < v.len(),
    ensures
        r is Some <==> placeholder_at(v@, p as int),
        r matches Some(q) ==> q == ascii_run_end(v@, p + 2) && q < v.len(),
{
    if !(v[p] == '%' && p + 1 < v.len() && v[p + 1] == '0') {
        return None;
    }
    let mut q: usize = p + 2;
    while q < v.len() && '0' <= v[q] && v[q] <= '9'
        invariant
            p + 2 <= q <= v.len(),
            ascii_run_end(v@, p + 2) == ascii_run_end(v@, q as int),
        decreases v.len() - q,
    {
        q = q + 1;
    }
    if p + 2 < q && q < v.len() && v[q] == 'd' {
        Some(q)
    } else {
        None
    }
}

/// Whether `v[k..k + pat.len()]` is `pat`.
fn occurs_at(v: &Vec<char>, k: usize, pat: &Vec<char>) -> (b: bool)
    requires
        k <= v.len(),
    ensures
        b == (k + pat.len() <= v.len() && v@.subrange(k as int, k + pat.len()) == pat@),
{
    if pat.len() > v.len() - k {
        return false;
    }
    let mut j: usize = 0;
    while j < pat.len()
        invariant
            k + pat.len() <= v.len(),
            j <= pat.len(),
            v@.subrange(k as int, k + j) == pat@.take(j as int),
        decreases pat.len() - j,
    {
        if v[k + j] != pat[j] {
            assert(v@.subrange(k as int, k + pat.len())[j as int] != pat@[j as int]);
            return false;
        }
        j = j + 1;
        assert(v@.subrange(k as int, k + j) =~= pat@.take(j as int));
    }
    assert(pat@.take(pat.len() as int) =~= pat@);
    true
}

/// Appends `replace_all(v, pat, rep)` to `out`.
fn push_replace_all(out: &mut String, v: &Vec<char>, pat: &Vec<char>, rep: &Vec<char>)
    requires
        pat.len() > 0,
    ensures
        final(out)@ == old(out)@ + replace_all(v@, pat@, rep@),
{
    let ghost start = out@;
    let mut k: usize = 0;
    assert(v@.skip(0) =~= v@);
    while k < v.len()
        invariant
            pat.len() > 0,
            k <= v.len(),
            start + replace_all(v@, pat@, rep@) == out@ + replace_all(v@.skip(k as int), pat@, rep@),
        decreases v.len() - k,
    {
        let ghost rest = v@.skip(k as int);
        if occurs_at(v, k, pat) {
            assert(rest.take(pat.len() as int) =~= v@.subrange(k as int, k + pat.len()));
            assert(rest.skip(pat.len() as int) =~= v@.skip(k + pat.len()));
            push_chars(out, rep, 0, rep.len());
            assert(rep@.subrange(0, rep.len() as int) =~= rep@);
            k = k + pat.len();
        } else {
            proof {
                if pat@.len() <= rest.len() {
                    assert(rest.take(pat.len() as int) =~= v@.subrange(k as int, k + pat.len()));
                }
            }
            assert(rest.skip(1) =~= v@.skip(k + 1));
            out.push(v[k]);
            k = k + 1;
        }
        assert(start + replace_all(v@, pat@, rep@) =~= out@ + replace_all(
            v@.skip(k as int),
            pat@,
            rep@,
        ));
    }
    assert(v@.skip(k as int) =~= Seq::<char>::empty());
    assert(out@ + replace_all(v@.skip(k as int), pat@, rep@) =~= out@);
}

/// The URL for `num` in a batch: `format_template("pic%03d.jpg", 7)` is
/// `pic007.jpg`.
pub fn format_template(template: &str, num: u32) -> (url: String)
    ensures
        url@ == format_template_spec(template@, num as nat),
{
    let v = chars_of(template);
    let mut p: usize = 0;
    let mut found: Option<usize> = None;
    while p < v.len() && found.is_none()
        invariant
            p <= v.len(),
            found is None ==> find_placeholder(v@, 0) == find_placeholder(v@, p as int),
            found matches Some(e) ==> find_placeholder(v@, 0) == Some(p as int) && p < v.len()
                && e == ascii_run_end(v@, p + 2) && e < v.len(),
        decreases v.len() - p + (if found is None { 1int } else { 0int }),
    {
        match placeholder_end(&v, p) {
            Some(e) => {
                assert(find_placeholder(v@, p as int) == Some(p as int));
                found = Some(e);
            },
            None => {
                assert(find_placeholder(v@, p as int) == find_placeholder(v@, p + 1));
                p = p + 1;
            },
        }
    }
    let q = match found {
        None => {
            assert(find_placeholder(v@, p as int) is None);
            return crate::text::string_of(&v);
        },
        Some(q) => q,
    };
    let mut width: usize = 0;
    let mut overflow = false;
    let mut k: usize = p + 2;
    proof {
        lemma_ascii_run_facts(v@, p + 2);
    }
    while k < q
        invariant
            p + 2 <= k <= q < v.len(),
            ascii_digits(v@, p + 2, q as int),
            !overflow ==> width == digits_value(v@, p + 2, k as int),
            overflow ==> digits_value(v@, p + 2, q as int) > usize::MAX,
        decreases q - k,
    {
        if !overflow {
            let d = (v[k] as u32 - 48) as usize;
            match width.checked_mul(10) {
                Some(t) => match t.checked_add(d) {
                    Some(w) => {
                        width = w;
                    },
                    None => {
                        proof {
                            lemma_digits_value_monotone(v@, p + 2, (k + 1) as int, q as int);
                        }
                        overflow = true;
                    },
                },
                None => {
                    proof {
                        lemma_digits_value_monotone(v@, p + 2, (k + 1) as int, q as int);
                    }
                    overflow = true;
                },
            }
        }
        k = k + 1;
    }
    if overflow {
        width = 1;
    }
    let mut padded = String::new();
    push_zero_padded(&mut padded, num as u128, width);
    let rep = chars_of(padded.as_str());
    let pat = crate::utils::sub_vec(&v, p, q + 1);
    let mut url = String::new();
    push_replace_all(&mut url, &v, &pat, &rep);
    assert(url@ =~= format_template_spec(template@, num as nat));
    url
}

/// The folder a batch is saved to when no folder is given: the file stem of the
/// template URL's path (empty when the path names no file).
pub open spec fn default_folder(path: Seq<char>) -> Seq<char> {
    match path_file_stem(path) {
        Some(stem) => stem,
        None => seq![],
    }
}

/// What `determine_folder` gives: the given folder, else `default_folder` of
/// the template URL's path.
pub open spec fn folder_spec(template: Seq<char>, custom: Option<Seq<char>>) -> Seq<char> {
    match custom {
        Some(c) => c,
        None => default_folder(url_path_of(template).unwrap()),
    }
}

/// Law: a folder the user names is used exactly as given, character for
/// character, whatever the template URL.
pub proof fn lemma_given_folder_kept(template: Seq<char>, custom: Seq<char>)
    ensures
        folder_spec(template, Some(custom)) == custom,
{
}

/// The folder a batch is saved to for a URL path: `default_folder(path)`.
pub fn folder_of_path(path: &str) -> (folder: String)
    ensures
        folder@ == default_folder(path@),
{
    let v = chars_of(path);
    match file_name_range(&v) {
        None => String::new(),
        Some((a, b)) => {
            let name = sub_vec(&v, a, b);
            assert(name@.take(name.len() as int) =~= name@);
            let end = match last_index_in(&name, '.', name.len()) {
                Some(k) => if k > 0 {
                    k
                } else {
                    name.len()
                },
                None => name.len(),
            };
            let mut folder = String::new();
            push_chars(&mut folder, &name, 0, end);
            assert(folder@ =~= name_stem(name@));
            folder
        },
    }
}

/// The folder a batch is saved to. Without a given folder, the template must be
/// a URL that `url::Url::parse` accepts.
pub fn determine_folder(template: &str, custom: Option<&str>) -> (folder: String)
    requires
        custom is Some || url_path_of(template@) is Some,
    ensures
        folder@ == folder_spec(
            template@,
            match custom {
                Some(c) => Some(c@),
                None => None,
            },
        ),
{
    match custom {
        Some(c) => {
            let mut folder = String::new();
            push_str(&mut folder, c);
            folder
        },
        None => match parse_url_path(template) {
            Ok(path) => folder_of_path(path.as_str()),
            Err(_) => String::new(),
        },
    }
}

/// `determine_folder` where it applies; `None` when no folder is given and the
/// template is not a URL.
pub fn determine_folder_checked(template: &str, custom: Option<&str>) -> (folder: Option<String>)
    ensures
        folder is None <==> (custom is None && url_path_of(template@) is None),
        folder matches Some(f) ==> f@ == folder_spec(
            template@,
            match custom {
                Some(c) => Some(c@),
                None => None,
            },
        ),
{
    match custom {
        Some(_) => Some(determine_folder(template, custom)),
        None => match parse_url_path(template) {
            Ok(_) => Some(determine_folder(template, custom)),
            Err(_) => None,
        },
    }
}

/// The file name a batch item is saved under: the URL's file name, else
/// `file_<num>`.
pub open spec fn batch_file_name_spec(url: Seq<char>, num: nat) -> Seq<char> {
    match url_filename(url) {
        Some(name) => name,
        None => seq!['f', 'i', 'l', 'e', '_'] + decimal(num),
    }
}

/// The file name a batch item is saved under.
pub fn batch_file_name(url: &str, num: u32) -> (name: String)
    ensures
        name@ == batch_file_name_spec(url@, num as nat),
{
    match extract_filename(url) {
        Ok(name) => name,
        Err(_) => {
            let mut name = String::new();
            name.push('f');
            name.push('i');
            name.push('l');
            name.push('e');
            name.push('_');
            push_decimal(&mut name, num as u128);
            name
        },
    }
}

/// The URL of number `n` of the batch read from `s` at `i`: the range
/// expression replaced by `n`, zero-padded to as many digits as the range's
/// first number was written with.
pub open spec fn expanded_url(s: Seq<char>, i: int, n: nat) -> Seq<char> {
    s.take(i) + zero_pad(decimal(n), (first_end(s, i) - (i + 1)) as nat) + s.skip(
        pattern_end(s, i),
    )
}

/// `digits_value` reads only the characters in its range.
proof fn lemma_digits_value_shift(s: Seq<char>, t: Seq<char>, a: int, b: int, off: int)
    requires
        forall|k: int| a <= k < b ==> s[k] == t[k + off],
    ensures
        digits_value(s, a, b) == digits_value(t, a + off, b + off),
    decreases b - a,
{
    if a < b {
        lemma_digits_value_shift(s, t, a, b - 1, off);
        assert(s[b - 1] == t[b - 1 + off]);
    }
}

/// The decimal text of `n` is made of ASCII digits and reads back as `n`.
proof fn lemma_decimal_reads_back(n: nat)
    ensures
        ascii_digits(decimal(n), 0, decimal(n).len() as int),
        digits_value(decimal(n), 0, decimal(n).len() as int) == n,
        decimal(n).len() >= 1,
    decreases n,
{
    let c = crate::text::digit_char(n % 10);
    assert(c as int == 48 + n % 10);
    if n < 10 {
        assert(decimal(n) =~= seq![c]);
        assert(digits_value(decimal(n), 0, 0) == 0);
    } else {
        lemma_decimal_reads_back(n / 10);
        let d = decimal(n / 10);
        assert(decimal(n) =~= d.push(c));
        lemma_digits_value_shift(decimal(n), d, 0, d.len() as int, 0);
    }
}

/// `find_placeholder` finds the first placeholder.
proof fn lemma_find_placeholder(t: Seq<char>, j: int, i: int)
    requires
        0 <= j <= i < t.len(),
        placeholder_at(t, i),
        forall|k: int| j <= k < i ==> !placeholder_at(t, k),
    ensures
        find_placeholder(t, j) == Some(i),
    decreases i - j,
{
    if j < i {
        lemma_find_placeholder(t, j + 1, i);
    }
}

/// `ascii_run_end` stops at the first non-digit.
proof fn lemma_ascii_run_end(t: Seq<char>, a: int, b: int)
    requires
        0 <= a <= b < t.len(),
        ascii_digits(t, a, b),
        !('0' <= t[b] && t[b] <= '9'),
    ensures
        ascii_run_end(t, a) == b,
    decreases b - a,
{
    if a < b {
        lemma_ascii_run_end(t, a + 1, b);
    }
}

/// Everything `ascii_run_end` passes over is a digit.
proof fn lemma_ascii_run_facts(t: Seq<char>, a: int)
    requires
        0 <= a,
    ensures
        a <= ascii_run_end(t, a),
        ascii_digits(t, a, ascii_run_end(t, a)),
        ascii_run_end(t, a) < t.len() ==> !('0' <= t[ascii_run_end(t, a)] && t[ascii_run_end(
            t,
            a,
        )] <= '9'),
        a <= t.len() ==> ascii_run_end(t, a) <= t.len(),
    decreases t.len() - a,
{
    if a < t.len() && '0' <= t[a] && t[a] <= '9' {
        lemma_ascii_run_facts(t, a + 1);
    }
}

/// Wherever a placeholder's text occurs, a placeholder starts.
proof fn lemma_copy_is_placeholder(t: Seq<char>, pat: Seq<char>, x: int)
    requires
        pat.len() >= 4,
        pat[0] == '%',
        pat[1] == '0',
        ascii_digits(pat, 2, pat.len() - 1),
        pat[pat.len() - 1] == 'd',
        0 <= x,
        x + pat.len() <= t.len(),
        t.subrange(x, x + pat.len()) == pat,
    ensures
        placeholder_at(t, x),
        ascii_run_end(t, x + 2) == x + pat.len() - 1,
{
    assert forall|k: int| x + 2 <= k < x + pat.len() - 1 implies '0' <= #[trigger] t[k] && t[k]
        <= '9' by {
        assert(t[k] == pat[k - x]);
    }
    assert(t[x + pat.len() - 1] == pat[pat.len() - 1]);
    lemma_ascii_run_end(t, x + 2, x + pat.len() - 1);
    assert(t[x] == pat[0]);
    assert(t[x + 1] == pat[1]);
}

/// A placeholder of `t` that starts before `i`, where `t[i]` is `%` and `t`
/// agrees with `a` below `i`, is a placeholder of `a` too.
proof fn lemma_placeholder_before(t: Seq<char>, a: Seq<char>, i: int, j: int)
    requires
        0 <= j < i < t.len(),
        a.len() == i,
        t[i] == '%',
        forall|k: int| 0 <= k < i ==> t[k] == a[k],
        placeholder_at(t, j),
    ensures
        placeholder_at(a, j),
{
    lemma_ascii_run_facts(t, j + 2);
    let k = ascii_run_end(t, j + 2);
    assert(j + 1 != i);
    if k >= i {
        assert(t[i] == '%');
        if k > i {
            assert('0' <= t[i]);
        }
    }
    assert(k < i);
    assert forall|x: int| j + 2 <= x < k implies '0' <= #[trigger] a[x] && a[x] <= '9' by {
        assert(t[x] == a[x]);
    }
    assert(a[k] == t[k]);
    lemma_ascii_run_end(a, j + 2, k);
    assert(a[j] == t[j] && a[j + 1] == t[j + 1]);
}

/// With no copy of `pat` starting below `k`, `replace_all` keeps `t[..k]`.
proof fn lemma_replace_skip(t: Seq<char>, pat: Seq<char>, rep: Seq<char>, k: int)
    requires
        0 <= k <= t.len(),
        pat.len() > 0,
        forall|x: int|
            0 <= x < k && x + pat.len() <= t.len() ==> #[trigger] t.subrange(x, x + pat.len()) != pat,
    ensures
        replace_all(t, pat, rep) == t.take(k) + replace_all(t.skip(k), pat, rep),
    decreases k,
{
    if k == 0 {
        assert(t.skip(0) =~= t);
        assert(t.take(0) + replace_all(t.skip(0), pat, rep) =~= replace_all(t, pat, rep));
    } else {
        if pat.len() <= t.len() {
            assert(t.subrange(0, 0 + pat.len() as int) != pat);
            assert(t.take(pat.len() as int) =~= t.subrange(0, pat.len() as int));
        }
        assert(replace_all(t, pat, rep) == seq![t[0]] + replace_all(t.skip(1), pat, rep));
        let r = t.skip(1);
        assert forall|x: int|
            0 <= x < k - 1 && x + pat.len() <= r.len() implies #[trigger] r.subrange(
            x,
            x + pat.len(),
        ) != pat by {
            assert(r.subrange(x, x + pat.len()) =~= t.subrange(x + 1, x + 1 + pat.len()));
        }
        lemma_replace_skip(r, pat, rep, k - 1);
        assert(r.skip(k - 1) =~= t.skip(k));
        assert(seq![t[0]] + r.take(k - 1) =~= t.take(k));
        assert(seq![t[0]] + (r.take(k - 1) + replace_all(r.skip(k - 1), pat, rep)) =~= t.take(k)
            + replace_all(t.skip(k), pat, rep));
    }
}

/// Whether `pat` occurs in `t`.
pub open spec fn occurs_in(t: Seq<char>, pat: Seq<char>) -> bool {
    exists|x: int| 0 <= x && x + pat.len() <= t.len() && #[trigger] t.subrange(x, x + pat.len()) == pat
}

/// The placeholder text made for the range at `i`.
pub open spec fn range_placeholder(s: Seq<char>, i: int) -> Seq<char> {
    seq!['%', '0'] + decimal((first_end(s, i) - (i + 1)) as nat) + seq!['d']
}

/// In a batch template, the first placeholder is the one made for the range,
/// it asks for the range's width, and no copy of it starts earlier.
proof fn lemma_template_placeholder(s: Seq<char>, i: int)
    requires
        s.len() <= usize::MAX,
        pattern_at(s, i),
        forall|j: int| 0 <= j < i ==> !placeholder_at(s.take(i), j),
    ensures
        find_placeholder(batch_template(s, i), 0) == Some(i),
        placeholder_text(batch_template(s, i), i) == range_placeholder(s, i),
        placeholder_width(batch_template(s, i), i) == (first_end(s, i) - (i + 1)) as nat,
        forall|x: int|
            0 <= x < i && x + range_placeholder(s, i).len() <= batch_template(s, i).len()
                ==> #[trigger] batch_template(s, i).subrange(
                x,
                x + range_placeholder(s, i).len(),
            ) != range_placeholder(s, i),
{
    let w = (first_end(s, i) - (i + 1)) as nat;
    let d = decimal(w);
    let t = batch_template(s, i);
    let a = s.take(i);
    let b = s.skip(pattern_end(s, i));
    let pat = range_placeholder(s, i);
    lemma_decimal_reads_back(w);
    let q = i + 2 + d.len();
    assert(t =~= a + pat + b);
    assert forall|k: int| 2 <= k < pat.len() - 1 implies '0' <= #[trigger] pat[k] && pat[k]
        <= '9' by {
        assert(pat[k] == d[k - 2]);
    }
    assert(t.subrange(i, q + 1) =~= pat);
    lemma_copy_is_placeholder(t, pat, i);
    assert forall|j: int| 0 <= j < i implies !placeholder_at(t, j) by {
        assert forall|k: int| 0 <= k < i implies t[k] == a[k] by {}
        if placeholder_at(t, j) {
            lemma_placeholder_before(t, a, i, j);
        }
    }
    lemma_find_placeholder(t, 0, i);
    assert(placeholder_text(t, i) =~= pat);
    assert forall|k: int| i + 2 <= k < q implies '0' <= #[trigger] t[k] && t[k] <= '9' by {
        assert(t[k] == d[k - (i + 2)]);
    }
    lemma_digits_value_shift(t, d, i + 2, q, -(i + 2));
    assert(placeholder_width(t, i) == w);
    assert forall|x: int|
        0 <= x < i && x + pat.len() <= t.len() implies #[trigger] t.subrange(x, x + pat.len())
            != pat by {
        if t.subrange(x, x + pat.len()) == pat {
            lemma_copy_is_placeholder(t, pat, x);
        }
    }
}

/// Law: each number of a batch is turned into its URL by `format_template` on
/// the batch's template: the range expression is replaced by the number,
/// zero-padded to the width of the range's first number
/// (`file[001-100].jpg` gives `file001.jpg` ... `file100.jpg`). This needs that
/// no placeholder `%0<digits>d` stands before the range expression (the first
/// one is taken), and that the placeholder made for the range (`%0<width>d`)
/// does not recur after it (every copy is replaced).
pub proof fn lemma_batch_expansion(s: Seq<char>, n: nat)
    requires
        s.len() <= usize::MAX,
        find_pattern(s, 0) is Some,
        forall|j: int|
            0 <= j < find_pattern(s, 0).unwrap() ==> !placeholder_at(
                s.take(find_pattern(s, 0).unwrap()),
                j,
            ),
        !occurs_in(
            s.skip(pattern_end(s, find_pattern(s, 0).unwrap())),
            range_placeholder(s, find_pattern(s, 0).unwrap()),
        ),
    ensures
        format_template_spec(batch_template(s, find_pattern(s, 0).unwrap()), n) == expanded_url(
            s,
            find_pattern(s, 0).unwrap(),
            n,
        ),
{
    let i = find_pattern(s, 0).unwrap();
    lemma_find_pattern_found(s, 0);
    lemma_template_placeholder(s, i);
    let w = (first_end(s, i) - (i + 1)) as nat;
    let t = batch_template(s, i);
    let a = s.take(i);
    let b = s.skip(pattern_end(s, i));
    let pat = range_placeholder(s, i);
    let rep = zero_pad(decimal(n), w);
    assert(t =~= a + pat + b);
    lemma_replace_skip(t, pat, rep, i);
    let tail = t.skip(i);
    assert(tail.take(pat.len() as int) =~= pat);
    assert(tail.skip(pat.len() as int) =~= b);
    assert(replace_all(tail, pat, rep) == rep + replace_all(b, pat, rep));
    assert forall|x: int|
        0 <= x < b.len() && x + pat.len() <= b.len() implies #[trigger] b.subrange(
            x,
            x + pat.len(),
        ) != pat by {}
    lemma_replace_skip(b, pat, rep, b.len() as int);
    assert(b.take(b.len() as int) =~= b);
    assert(b.skip(b.len() as int) =~= Seq::<char>::empty());
    assert(t.take(i) =~= a);
    assert(replace_all(t, pat, rep) =~= expanded_url(s, i, n));
}

/// A match that `find_pattern` reports is a match, at or after where the search
/// began.
proof fn lemma_find_pattern_found(s: Seq<char>, j: int)
    requires
        find_pattern(s, j) is Some,
    ensures
        pattern_at(s, find_pattern(s, j).unwrap()),
        j <= find_pattern(s, j).unwrap() < s.len(),
    decreases s.len() - j,
{
    if 0 <= j < s.len() && !pattern_at(s, j) {
        lemma_find_pattern_found(s, j + 1);
    }
}

/// Whether a command-line URL asks for a batch: it holds both `[` and `]`.
pub open spec fn is_batch_url_spec(url: Seq<char>) -> bool {
    url.contains('[') && url.contains(']')
}

/// Whether a command-line URL asks for a batch download.
pub fn is_batch_url(url: &str) -> (b: bool)
    ensures
        b == is_batch_url_spec(url@),
{
    let v = chars_of(url);
    let mut open = false;
    let mut close = false;
    let mut i: usize = 0;
    while i < v.len()
        invariant
            i <= v.len(),
            open == v@.take(i as int).contains('['),
            close == v@.take(i as int).contains(']'),
        decreases v.len() - i,
    {
        assert(v@.take(i + 1) =~= v@.take(i as int).push(v@[i as int]));
        if v[i] == '[' {
            open = true;
        }
        if v[i] == ']' {
            close = true;
        }
        i = i + 1;
        assert(v@.take(i as int).contains('[') == open) by {
            if open && !v@.take(i - 1).contains('[') {
                assert(v@.take(i as int)[i - 1] == '[');
            }
        }
        assert(v@.take(i as int).contains(']') == close) by {
            if close && !v@.take(i - 1).contains(']') {
                assert(v@.take(i as int)[i - 1] == ']');
            }
        }
    }
    assert(v@.take(v.len() as int) =~= v@);
    open && close
}

/// `x + 1`, wrapping to `0` past `u32::MAX` as an atomic counter does.
pub open spec fn wrapping_inc(x: u32) -> u32 {
    if x == u32::MAX {
        0
    } else {
        (x + 1) as u32
    }
}

/// What became of one item of a batch: its file was already there, it was
/// downloaded (this many bytes), or its download failed.
#[derive(Debug, Clone, Copy, PartialEq, Eq, Structural)]
pub enum ItemOutcome {
    Skipped,
    Succeeded(u64),
    Failed,
}

/// How many items of `s` were downloaded, failed and were skipped, and how many
/// bytes were downloaded, counted without wrapping: `(succeeded, failed,
/// skipped, bytes)`.
pub open spec fn outcome_counts(s: Seq<ItemOutcome>) -> (nat, nat, nat, nat)
    decreases s.len(),
{
    if s.len() == 0 {
        (0, 0, 0, 0)
    } else {
        let c = outcome_counts(s.drop_last());
        match s.last() {
            ItemOutcome::Succeeded(n) => ((c.0 + 1) as nat, c.1, c.2, (c.3 + n) as nat),
            ItemOutcome::Failed => (c.0, (c.1 + 1) as nat, c.2, c.3),
            ItemOutcome::Skipped => (c.0, c.1, (c.2 + 1) as nat, c.3),
        }
    }
}

/// Counting one more modulo `2^32` is `wrapping_inc` of the count so far.
proof fn lemma_wrapping_inc_mod(a: nat)
    ensures
        wrapping_inc((a % 0x1_0000_0000) as u32) == (a + 1) % 0x1_0000_0000,
{
    lemma_fundamental_div_mod(a as int, 0x1_0000_0000);
    lemma_fundamental_div_mod((a + 1) as int, 0x1_0000_0000);
}

/// Law: every item of a batch lands in exactly one of the three counters: over
/// the outcomes of `n` items, succeeded + failed + skipped is `n`.
pub proof fn lemma_every_item_counted(s: Seq<ItemOutcome>)
    ensures
        outcome_counts(s).0 + outcome_counts(s).1 + outcome_counts(s).2 == s.len(),
    decreases s.len(),
{
    if s.len() > 0 {
        lemma_every_item_counted(s.drop_last());
    }
}

/// The outcome counts of a batch run and the bytes it fetched.
pub struct BatchTally {
    pub succeeded: u32,
    pub failed: u32,
    pub skipped: u32,
    pub bytes: u64,
}

/// The closing line of a batch run: `Succ:<n> Fail:<n> Skip:<n> <duration>`.
pub open spec fn summary_text(succeeded: nat, failed: nat, skipped: nat, secs: nat) -> Seq<
    char,
> {
    seq!['S', 'u', 'c', 'c', ':'] + decimal(succeeded) + seq![' ', 'F', 'a', 'i', 'l', ':']
        + decimal(failed) + seq![' ', 'S', 'k', 'i', 'p', ':'] + decimal(skipped) + seq![' ']
        + crate::utils::format_duration_text(secs)
}

impl BatchTally {
    /// A run with nothing recorded yet.
    pub fn new() -> (t: Self)
        ensures
            t.succeeded == 0 && t.failed == 0 && t.skipped == 0 && t.bytes == 0,
    {
        BatchTally { succeeded: 0, failed: 0, skipped: 0, bytes: 0 }
    }

    /// An item whose file already existed.
    pub fn record_skip(&mut self)
        ensures
            final(self).skipped == wrapping_inc(old(self).skipped),
            final(self).succeeded == old(self).succeeded,
            final(self).failed == old(self).failed,
            final(self).bytes == old(self).bytes,
    {
        self.skipped = if self.skipped == u32::MAX {
            0
        } else {
            self.skipped + 1
        };
    }

    /// An item that failed to download.
    pub fn record_failure(&mut self)
        ensures
            final(self).failed == wrapping_inc(old(self).failed),
            final(self).succeeded == old(self).succeeded,
            final(self).skipped == old(self).skipped,
            final(self).bytes == old(self).bytes,
    {
        self.failed = if self.failed == u32::MAX {
            0
        } else {
            self.failed + 1
        };
    }

    /// An item downloaded in full, `bytes` long.
    pub fn record_success(&mut self, bytes: u64)
        ensures
            final(self).succeeded == wrapping_inc(old(self).succeeded),
            final(self).bytes == (old(self).bytes + bytes) % 0x1_0000_0000_0000_0000,
            final(self).failed == old(self).failed,
            final(self).skipped == old(self).skipped,
    {
        self.succeeded = if self.succeeded == u32::MAX {
            0
        } else {
            self.succeeded + 1
        };
        self.bytes = if bytes <= u64::MAX - self.bytes {
            self.bytes + bytes
        } else {
            bytes - (u64::MAX - self.bytes) - 1
        };
    }

    /// An item's outcome: `record_skip`, `record_success` or `record_failure`.
    pub fn record(&mut self, outcome: ItemOutcome)
        ensures
            final(self).succeeded == if outcome is Succeeded {
                wrapping_inc(old(self).succeeded)
            } else {
                old(self).succeeded
            },
            final(self).failed == if outcome is Failed {
                wrapping_inc(old(self).failed)
            } else {
                old(self).failed
            },
            final(self).skipped == if outcome is Skipped {
                wrapping_inc(old(self).skipped)
            } else {
                old(self).skipped
            },
            final(self).bytes == (old(self).bytes + match outcome {
                ItemOutcome::Succeeded(n) => n as int,
                _ => 0int,
            }) % 0x1_0000_0000_0000_0000,
    {
        proof {
            lemma_small_mod(self.bytes as nat, 0x1_0000_0000_0000_0000);
        }
        match outcome {
            ItemOutcome::Skipped => self.record_skip(),
            ItemOutcome::Succeeded(n) => self.record_success(n),
            ItemOutcome::Failed => self.record_failure(),
        }
    }

    /// The tally of a whole run from the outcome of each of its items; the
    /// counters wrap as the atomic counters of a run do.
    pub fn from_outcomes(outcomes: &Vec<ItemOutcome>) -> (t: Self)
        ensures
            t.succeeded == outcome_counts(outcomes@).0 % 0x1_0000_0000,
            t.failed == outcome_counts(outcomes@).1 % 0x1_0000_0000,
            t.skipped == outcome_counts(outcomes@).2 % 0x1_0000_0000,
            t.bytes == outcome_counts(outcomes@).3 % 0x1_0000_0000_0000_0000,
    {
        let mut t = BatchTally::new();
        let mut i: usize = 0;
        assert(outcomes@.take(0) =~= Seq::<ItemOutcome>::empty());
        while i < outcomes.len()
            invariant
                i <= outcomes.len(),
                t.succeeded == outcome_counts(outcomes@.take(i as int)).0 % 0x1_0000_0000,
                t.failed == outcome_counts(outcomes@.take(i as int)).1 % 0x1_0000_0000,
                t.skipped == outcome_counts(outcomes@.take(i as int)).2 % 0x1_0000_0000,
                t.bytes == outcome_counts(outcomes@.take(i as int)).3 % 0x1_0000_0000_0000_0000,
            decreases outcomes.len() - i,
        {
            let ghost c = outcome_counts(outcomes@.take(i as int));
            assert(outcomes@.take(i + 1).drop_last() =~= outcomes@.take(i as int));
            assert(outcomes@.take(i + 1).last() == outcomes@[i as int]);
            proof {
                lemma_wrapping_inc_mod(c.0);
                lemma_wrapping_inc_mod(c.1);
                lemma_wrapping_inc_mod(c.2);
                if let ItemOutcome::Succeeded(n) = outcomes@[i as int] {
                    lemma_small_mod(n as nat, 0x1_0000_0000_0000_0000);
                    lemma_add_mod_noop(c.3 as int, n as int, 0x1_0000_0000_0000_0000);
                }
            }
            t.record(outcomes[i]);
            i = i + 1;
        }
        assert(outcomes@.take(outcomes.len() as int) =~= outcomes@);
        t
    }

    /// The closing line, with the run's duration in seconds.
    pub fn summary(&self, secs: u64) -> (line: String)
        ensures
            line@ == summary_text(
                self.succeeded as nat,
                self.failed as nat,
                self.skipped as nat,
                secs as nat,
            ),
    {
        let mut line = String::new();
        push_str(&mut line, "Succ:");
        push_decimal(&mut line, self.succeeded as u128);
        push_str(&mut line, " Fail:");
        push_decimal(&mut line, self.failed as u128);
        push_str(&mut line, " Skip:");
        push_decimal(&mut line, self.skipped as u128);
        line.push(' ');
        let d = crate::utils::format_duration(secs);
        push_str(&mut line, d.as_str());
        proof {
            reveal_strlit("Succ:");
            reveal_strlit(" Fail:");
            reveal_strlit(" Skip:");
        }
        assert(line@ =~= summary_text(
            self.succeeded as nat,
            self.failed as nat,
            self.skipped as nat,
            secs as nat,
        ));
        line
    }
}

} // verus!
