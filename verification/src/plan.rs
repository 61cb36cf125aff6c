//! Planning a single-file download: which way to fetch it, how to split it into
//! byte ranges, how to resume it, and the request and progress text involved.

use vstd::prelude::*;
use vstd::arithmetic::div_mod::lemma_fundamental_div_mod;
use crate::text::{chars_of, decimal, push_chars, push_decimal, push_str, push_zero_padded, zero_pad};
use crate::utils::{file_name_range, path_file_name};

verus! {

/// Files at least this large (5 MiB) are fetched in several ranges.
pub const CHUNK_THRESHOLD: u64 = 5242880;

/// Files at least this large (50 MiB) use one connection per range.
pub const INDEPENDENT_CONNECTION_THRESHOLD: u64 = 52428800;

/// How many ranges are fetched at once.
pub const MAX_CONCURRENT_CHUNKS: usize = 8;

/// The smallest range a split file gets (1 MiB).
pub const MIN_CHUNK_SIZE: u64 = 1048576;

/// The most ranges a file is split into.
pub const MAX_CHUNKS: u64 = 16;

/// The range length of a resumed download (5 MiB).
pub const RESUME_CHUNK_SIZE: u64 = 5242880;

/// How a file of known size is fetched first (a split fetch that fails falls
/// back to one stream).
#[derive(Debug, Clone, Copy, PartialEq, Eq, Structural)]
pub enum Strategy {
    /// One request for the whole file.
    SingleStream,
    /// Several ranges over one shared connection pool.
    ChunkedShared,
    /// Several ranges, each over a connection of its own.
    ChunkedIndependent,
}

/// The strategy for a file of `total` bytes.
pub open spec fn strategy_for(total: nat) -> Strategy {
    if total < CHUNK_THRESHOLD {
        Strategy::SingleStream
    } else if total < INDEPENDENT_CONNECTION_THRESHOLD {
        Strategy::ChunkedShared
    } else {
        Strategy::ChunkedIndependent
    }
}

/// The order of the strategies by how much they split a file.
pub open spec fn strategy_rank(s: Strategy) -> int {
    match s {
        Strategy::SingleStream => 0,
        Strategy::ChunkedShared => 1,
        Strategy::ChunkedIndependent => 2,
    }
}

/// Law: the strategy depends on the size alone through two thresholds: every
/// file under 5 MiB (5242880 bytes) is fetched in one stream, every file from
/// 5 MiB up to under 50 MiB (52428800 bytes) in shared ranges, and every file
/// of 50 MiB or more in independent ranges; so a larger file never gets a
/// strategy that splits it less.
pub proof fn lemma_strategy_by_size(a: nat, b: nat)
    ensures
        a < 5242880 ==> strategy_for(a) == Strategy::SingleStream,
        5242880 <= a < 52428800 ==> strategy_for(a) == Strategy::ChunkedShared,
        a >= 52428800 ==> strategy_for(a) == Strategy::ChunkedIndependent,
        a <= b ==> strategy_rank(strategy_for(a)) <= strategy_rank(strategy_for(b)),
{
}

/// Below 5 MiB one stream; below 50 MiB shared ranges; else independent ranges.
pub fn choose_strategy(total: u64) -> (s: Strategy)
    ensures
        s == strategy_for(total as nat),
{
    if total >= CHUNK_THRESHOLD {
        if total >= INDEPENDENT_CONNECTION_THRESHOLD {
            Strategy::ChunkedIndependent
        } else {
            Strategy::ChunkedShared
        }
    } else {
        Strategy::SingleStream
    }
}

/// Whether the file is then fetched in one stream: at once under
/// `SingleStream`, and after a split fetch only when that fetch failed.
pub fn needs_single_stream(strategy: Strategy, split_succeeded: bool) -> (b: bool)
    ensures
        b == (strategy == Strategy::SingleStream || !split_succeeded),
{
    match strategy {
        Strategy::SingleStream => true,
        _ => !split_succeeded,
    }
}

/// The target range length: a quarter of the file, but at least 1 MiB.
pub open spec fn dynamic_chunk_size(total: nat) -> nat {
    if total / 4 >= MIN_CHUNK_SIZE {
        total / 4
    } else {
        MIN_CHUNK_SIZE as nat
    }
}

/// How many ranges the file is split into: enough ranges of the target length,
/// at most 16 and at least 1.
pub open spec fn chunk_count(total: nat) -> nat {
    let d = dynamic_chunk_size(total);
    let c = ((total + d - 1) as nat) / d;
    let c = if c <= MAX_CHUNKS {
        c
    } else {
        MAX_CHUNKS as nat
    };
    if c >= 1 {
        c
    } else {
        1
    }
}

/// The length of the ranges: the file size over the range count, rounded up.
pub open spec fn chunk_len(total: nat) -> nat {
    ((total + chunk_count(total) - 1) as nat) / chunk_count(total)
}

/// The length the last range gets when every other range has `chunk_len`.
pub open spec fn tail_len(total: nat) -> int {
    total - (chunk_count(total) - 1) * chunk_len(total)
}

/// Whether ranges of `chunk_len` bytes would leave a last range under 1 MiB
/// (with at least two ranges); the file is then shared out evenly instead.
pub open spec fn short_tail(total: nat) -> bool {
    chunk_count(total) >= 2 && tail_len(total) < MIN_CHUNK_SIZE
}

/// Range number `i` when every range has `chunk_len` bytes but the last, which
/// takes what is left: the inclusive byte range `(first, last)`.
pub open spec fn ceil_range(total: nat, i: nat) -> (nat, nat) {
    let first = i * chunk_len(total);
    let last = first + chunk_len(total) - 1;
    (first, if last <= total - 1 {
        last as nat
    } else {
        (total - 1) as nat
    })
}

/// The length every range of an even split has at least: the file size over
/// the range count, rounded down. The first `total % count` ranges take one byte
/// more.
pub open spec fn chunk_base_len(total: nat) -> nat {
    total / chunk_count(total)
}

/// Where range number `i` of an even split starts: `i` base lengths, plus one
/// byte for each earlier range that takes a byte of the remainder.
pub open spec fn even_start(total: nat, i: nat) -> nat {
    let r = total % chunk_count(total);
    i * chunk_base_len(total) + if i <= r {
        i
    } else {
        r
    }
}

/// Range number `i` of an even split: the inclusive byte range `(first, last)`.
pub open spec fn even_range(total: nat, i: nat) -> (nat, nat) {
    (even_start(total, i), (even_start(total, i + 1) - 1) as nat)
}

/// The inclusive byte range `(first, last)` of range number `i`: ranges of
/// `chunk_len` bytes, or an even split where those would leave a short last
/// range.
pub open spec fn chunk_range(total: nat, i: nat) -> (nat, nat) {
    if short_tail(total) {
        even_range(total, i)
    } else {
        ceil_range(total, i)
    }
}

/// The inputs on which splitting stays within `u64`: a non-empty file whose
/// size leaves room for the sums `total + target length - 1` and
/// `total + count - 1` that the rounding-up divisions start from.
pub open spec fn chunk_plan_fits(total: nat) -> bool {
    &&& total >= 1
    &&& total + dynamic_chunk_size(total) - 1 <= u64::MAX
    &&& total + chunk_count(total) - 1 <= u64::MAX
}

/// Whether `plan_chunks` applies to a file of `total` bytes.
pub fn can_plan_chunks(total: u64) -> (b: bool)
    ensures
        b == chunk_plan_fits(total as nat),
{
    if total == 0 {
        return false;
    }
    let quarter = total / 4;
    let dynamic = if quarter >= MIN_CHUNK_SIZE {
        quarter
    } else {
        MIN_CHUNK_SIZE
    };
    if dynamic - 1 > u64::MAX - total {
        return false;
    }
    let mut count = (total + (dynamic - 1)) / dynamic;
    if count > MAX_CHUNKS {
        count = MAX_CHUNKS;
    }
    if count < 1 {
        count = 1;
    }
    count - 1 <= u64::MAX - total
}

/// A split into 1 to 5 ranges, and only files above 1 MiB get more than one.
proof fn lemma_chunk_count_bounds(total: nat)
    requires
        total >= 1,
    ensures
        1 <= chunk_count(total) <= 5,
        chunk_count(total) >= 2 ==> total > MIN_CHUNK_SIZE,
{
    let t: int = total as int;
    let d: int = dynamic_chunk_size(total) as int;
    lemma_fundamental_div_mod(t, 4);
    lemma_fundamental_div_mod(t + d - 1, d);
    let c: int = (t + d - 1) / d;
    assert(c == ((total + dynamic_chunk_size(total) - 1) as nat) / dynamic_chunk_size(total));
    if total / 4 >= MIN_CHUNK_SIZE {
        assert(4 <= c <= 5) by (nonlinear_arith)
            requires
                d == t / 4,
                t == 4 * (t / 4) + t % 4,
                0 <= t % 4 < 4,
                d >= 1048576,
                c * d + (t + d - 1) % d == t + d - 1,
                0 <= (t + d - 1) % d < d,
        ;
    } else {
        assert(1 <= c <= 4) by (nonlinear_arith)
            requires
                d == 1048576,
                t / 4 < 1048576,
                t == 4 * (t / 4) + t % 4,
                0 <= t % 4 < 4,
                t >= 1,
                c * d + (t + d - 1) % d == t + d - 1,
                0 <= (t + d - 1) % d < d,
        ;
        if c >= 2 {
            assert(t > 1048576) by (nonlinear_arith)
                requires
                    d == 1048576,
                    c >= 2,
                    c * d + (t + d - 1) % d == t + d - 1,
                    0 <= (t + d - 1) % d < d,
            ;
        }
    }
}

/// The ranges of a split cover the file: every range but the last is full, and
/// the last one starts inside the file and reaches its end.
proof fn lemma_chunk_len_bounds(total: nat)
    requires
        total >= 1,
    ensures
        chunk_len(total) >= 1,
        (chunk_count(total) - 1) * chunk_len(total) <= total - 1,
        chunk_count(total) * chunk_len(total) >= total,
        chunk_count(total) * chunk_len(total) <= total + chunk_count(total) - 1,
{
    lemma_chunk_count_bounds(total);
    let t: int = total as int;
    let n: int = chunk_count(total) as int;
    let cs: int = chunk_len(total) as int;
    lemma_fundamental_div_mod(t + n - 1, n);
    assert(cs == (t + n - 1) / n);
    assert(cs >= 1 && n * cs >= t && n * cs <= t + n - 1) by (nonlinear_arith)
        requires
            n >= 1,
            t >= 1,
            cs * n + (t + n - 1) % n == t + n - 1,
            0 <= (t + n - 1) % n < n,
    ;
    if n >= 2 {
        assert((n - 1) * cs <= t - 1) by (nonlinear_arith)
            requires
                2 <= n <= 5,
                t > 1048576,
                n * cs >= t,
                n * cs <= t + n - 1,
        ;
    } else {
        assert((n - 1) * cs == 0) by (nonlinear_arith)
            requires
                n == 1,
        ;
    }
}

/// The base length is at least one byte, and the file is `count` base lengths
/// plus a remainder smaller than `count`.
proof fn lemma_chunk_base_len(total: nat)
    requires
        total >= 1,
    ensures
        chunk_base_len(total) >= 1,
        total == chunk_count(total) * chunk_base_len(total) + total % chunk_count(total),
        total % chunk_count(total) < chunk_count(total),
{
    lemma_chunk_count_bounds(total);
    let t: int = total as int;
    let n: int = chunk_count(total) as int;
    lemma_fundamental_div_mod(t, n);
    let q: int = t / n;
    assert(q >= 1) by (nonlinear_arith)
        requires
            1 <= n <= 5,
            n >= 2 ==> t > 1048576,
            t >= 1,
            t == n * q + t % n,
            0 <= t % n < n,
    ;
}

/// Law: a file large enough to be split (at least 5 MiB) gets between 4 and 16
/// ranges, and every one of them is at least 1 MiB long.
pub proof fn lemma_split_sizes(total: nat)
    requires
        total >= CHUNK_THRESHOLD,
    ensures
        4 <= chunk_count(total) <= MAX_CHUNKS,
        forall|i: nat|
            i < chunk_count(total) ==> #[trigger] chunk_range(total, i).1 - chunk_range(
                total,
                i,
            ).0 + 1 >= MIN_CHUNK_SIZE,
{
    lemma_chunk_count_bounds(total);
    lemma_chunk_len_bounds(total);
    lemma_chunk_base_len(total);
    let t: int = total as int;
    let d: int = dynamic_chunk_size(total) as int;
    let n: int = chunk_count(total) as int;
    let cs: int = chunk_len(total) as int;
    let q: int = chunk_base_len(total) as int;
    let r: int = (total % chunk_count(total)) as int;
    lemma_fundamental_div_mod(t, 4);
    lemma_fundamental_div_mod(t + d - 1, d);
    assert(d == t / 4);
    let c: int = (t + d - 1) / d;
    assert(c >= 1) by (nonlinear_arith)
        requires
            c * d + (t + d - 1) % d == t + d - 1,
            0 <= (t + d - 1) % d < d,
            t >= 1,
            d >= 1,
    ;
    assert(c == ((total + dynamic_chunk_size(total) - 1) as nat) / dynamic_chunk_size(total));
    assert(n == (t + d - 1) / d);
    assert(n >= 4) by (nonlinear_arith)
        requires
            d == t / 4,
            t == 4 * (t / 4) + t % 4,
            0 <= t % 4 < 4,
            t >= 5242880,
            n == (t + d - 1) / d,
            (t + d - 1) / d * d + (t + d - 1) % d == t + d - 1,
            0 <= (t + d - 1) % d < d,
    ;
    assert(cs >= 1048576) by (nonlinear_arith)
        requires
            n * cs >= t,
            1 <= n <= 5,
            cs >= 0,
            t >= 5242880,
    ;
    assert(q >= 1048576) by (nonlinear_arith)
        requires
            t == n * q + r,
            0 <= r < n,
            1 <= n <= 5,
            q >= 0,
            t >= 5242880,
    ;
    assert forall|i: nat| i < chunk_count(total) implies #[trigger] chunk_range(total, i).1
        - chunk_range(total, i).0 + 1 >= MIN_CHUNK_SIZE by {
        if short_tail(total) {
            assert((i + 1) * q == i * q + q) by (nonlinear_arith);
        } else if i + 1 < n {
            assert(i * cs + cs <= (n - 1) * cs) by (nonlinear_arith)
                requires
                    i + 1 <= n - 1,
                    cs >= 0,
            ;
        } else {
            assert(i * cs == (n - 1) * cs);
        }
    }
}

/// Ranges of `len` bytes, the last one taking what is left: range `i` is
/// `ceil_range(total, i)`.
fn plan_ceil(total: u64, count: u64, len: u64) -> (plan: Vec<(u64, u64)>)
    requires
        chunk_plan_fits(total as nat),
        count == chunk_count(total as nat),
        len == chunk_len(total as nat),
    ensures
        plan.len() == count,
        forall|i: int|
            0 <= i < plan.len() ==> (plan[i].0 as nat, plan[i].1 as nat) == ceil_range(
                total as nat,
                i as nat,
            ),
        plan[0].0 == 0,
        plan[plan.len() - 1].1 == total - 1,
        forall|i: int| 0 <= i < plan.len() ==> #[trigger] plan[i].0 <= plan[i].1,
        forall|i: int| 0 <= i < plan.len() - 1 ==> #[trigger] plan[i + 1].0 == plan[i].1 + 1,
{
    proof {
        lemma_chunk_len_bounds(total as nat);
        lemma_chunk_count_bounds(total as nat);
    }
    let mut plan: Vec<(u64, u64)> = Vec::new();
    let mut i: u64 = 0;
    while i < count
        invariant
            count == chunk_count(total as nat),
            len == chunk_len(total as nat),
            1 <= count <= 5,
            len >= 1,
            (count - 1) * len <= total - 1,
            count * len >= total,
            chunk_plan_fits(total as nat),
            i <= count,
            plan.len() == i,
            forall|j: int|
                0 <= j < i ==> (plan[j].0 as nat, plan[j].1 as nat) == ceil_range(
                    total as nat,
                    j as nat,
                ),
        decreases count - i,
    {
        proof {
            assert(i * len <= (count - 1) * len) by (nonlinear_arith)
                requires
                    i <= count - 1,
            ;
            assert(i * len + len <= count * len) by (nonlinear_arith)
                requires
                    i <= count - 1,
            ;
            assert(count * len <= total + count - 1) by {
                lemma_fundamental_div_mod((total + count - 1) as int, count as int);
            }
        }
        let first = i * len;
        let last_full = first + len - 1;
        let last = if last_full <= total - 1 {
            last_full
        } else {
            total - 1
        };
        plan.push((first, last));
        i = i + 1;
    }
    proof {
        assert forall|j: int| 0 <= j < plan.len() implies #[trigger] plan[j].0 <= plan[j].1 by {
            assert(j * len <= (count - 1) * len) by (nonlinear_arith)
                requires
                    j <= count - 1,
            ;
        }
        assert forall|j: int| 0 <= j < plan.len() - 1 implies #[trigger] plan[j + 1].0 == plan[j].1
            + 1 by {
            assert((j + 1) * len == j * len + len) by (nonlinear_arith);
            assert(j * len + len - 1 <= total - 1) by (nonlinear_arith)
                requires
                    j + 1 <= count - 1,
                    (count - 1) * len <= total - 1,
            ;
        }
        assert(0 * chunk_len(total as nat) == 0);
        assert((count - 1) * len + len - 1 >= total - 1) by (nonlinear_arith)
            requires
                count * len >= total,
        ;
    }
    plan
}

/// The file shared out evenly over `count` ranges: range `i` is
/// `even_range(total, i)`, of `total / count` bytes or one more.
fn plan_even(total: u64, count: u64) -> (plan: Vec<(u64, u64)>)
    requires
        total >= 1,
        count == chunk_count(total as nat),
    ensures
        plan.len() == count,
        forall|i: int|
            0 <= i < plan.len() ==> (plan[i].0 as nat, plan[i].1 as nat) == even_range(
                total as nat,
                i as nat,
            ),
        plan[0].0 == 0,
        plan[plan.len() - 1].1 == total - 1,
        forall|i: int| 0 <= i < plan.len() ==> #[trigger] plan[i].0 <= plan[i].1,
        forall|i: int| 0 <= i < plan.len() - 1 ==> #[trigger] plan[i + 1].0 == plan[i].1 + 1,
{
    proof {
        lemma_chunk_count_bounds(total as nat);
        lemma_chunk_base_len(total as nat);
    }
    let base = total / count;
    let rem = total % count;
    let mut plan: Vec<(u64, u64)> = Vec::new();
    let mut i: u64 = 0;
    let mut start: u64 = 0;
    assert(0 * base == 0);
    while i < count
        invariant
            count == chunk_count(total as nat),
            base == chunk_base_len(total as nat),
            rem == total % count,
            total == count * base + rem,
            rem < count,
            1 <= count <= 5,
            base >= 1,
            i <= count,
            plan.len() == i,
            start == even_start(total as nat, i as nat),
            forall|j: int|
                0 <= j < i ==> (plan[j].0 as nat, plan[j].1 as nat) == even_range(
                    total as nat,
                    j as nat,
                ),
            forall|j: int| 0 <= j < i ==> #[trigger] plan[j].0 <= plan[j].1,
            forall|j: int| 0 <= j < i - 1 ==> #[trigger] plan[j + 1].0 == plan[j].1 + 1,
            i > 0 ==> plan[i - 1].1 + 1 == start,
        decreases count - i,
    {
        proof {
            assert((i + 1) * base == i * base + base) by (nonlinear_arith);
            assert((i + 1) * base <= count * base) by (nonlinear_arith)
                requires
                    i + 1 <= count,
                    base >= 0,
            ;
        }
        let len = if i < rem {
            base + 1
        } else {
            base
        };
        let next = start + len;
        assert(next == even_start(total as nat, (i + 1) as nat));
        plan.push((start, next - 1));
        start = next;
        i = i + 1;
    }
    plan
}

/// The ranges of a file of `total` bytes, split for a concurrent fetch: range
/// `i` is `chunk_range(total, i)`. They are ranges of `chunk_len` bytes, the
/// last taking what is left, unless that last range would be under 1 MiB; then
/// the file is shared out evenly over the same number of ranges. Either way they
/// tile the file: the first starts at 0, each starts right after the one
/// before, and the last ends at the file's last byte.
pub fn plan_chunks(total: u64) -> (plan: Vec<(u64, u64)>)
    requires
        chunk_plan_fits(total as nat),
    ensures
        plan.len() == chunk_count(total as nat),
        1 <= plan.len() <= 5,
        forall|i: int|
            0 <= i < plan.len() ==> (plan[i].0 as nat, plan[i].1 as nat) == chunk_range(
                total as nat,
                i as nat,
            ),
        plan[0].0 == 0,
        plan[plan.len() - 1].1 == total - 1,
        forall|i: int| 0 <= i < plan.len() ==> #[trigger] plan[i].0 <= plan[i].1,
        forall|i: int| 0 <= i < plan.len() - 1 ==> #[trigger] plan[i + 1].0 == plan[i].1 + 1,
{
    proof {
        lemma_chunk_count_bounds(total as nat);
        lemma_chunk_len_bounds(total as nat);
    }
    let quarter = total / 4;
    let dynamic = if quarter >= MIN_CHUNK_SIZE {
        quarter
    } else {
        MIN_CHUNK_SIZE
    };
    assert(dynamic == dynamic_chunk_size(total as nat));
    let mut count = (total + (dynamic - 1)) / dynamic;
    if count > MAX_CHUNKS {
        count = MAX_CHUNKS;
    }
    if count < 1 {
        count = 1;
    }
    assert(count == chunk_count(total as nat));
    let len = (total + (count - 1)) / count;
    assert(len == chunk_len(total as nat));
    let tail = total - (count - 1) * len;
    if count >= 2 && tail < MIN_CHUNK_SIZE {
        plan_even(total, count)
    } else {
        plan_ceil(total, count, len)
    }
}

/// How many 5 MiB ranges remain when `done` of `total` bytes are on disk (none
/// once the file on disk is as long as the remote one, or longer).
pub open spec fn resume_chunk_count(total: nat, done: nat) -> nat {
    if done >= total {
        0
    } else {
        ((total - done + RESUME_CHUNK_SIZE - 1) as nat) / (RESUME_CHUNK_SIZE as nat)
    }
}

/// The half-open byte range `[start, end)` of remaining range number `i`.
pub open spec fn resume_range(total: nat, done: nat, i: nat) -> (nat, nat) {
    let start = (done + i * RESUME_CHUNK_SIZE) as nat;
    (start, if start + RESUME_CHUNK_SIZE <= total {
        (start + RESUME_CHUNK_SIZE) as nat
    } else {
        total
    })
}

/// The inputs a resume plan is made for: nothing left to fetch, or room within
/// `u64` for the rounding-up sum and for the end of every range.
pub open spec fn resume_plan_fits(total: nat, done: nat) -> bool {
    ||| done >= total
    ||| {
        &&& total - done + RESUME_CHUNK_SIZE <= u64::MAX
        &&& done + resume_chunk_count(total, done) * RESUME_CHUNK_SIZE <= u64::MAX
    }
}

/// Whether `plan_resume_chunks` applies to `done` of `total` bytes.
pub fn can_plan_resume(total: u64, done: u64) -> (b: bool)
    ensures
        b == resume_plan_fits(total as nat, done as nat),
{
    if done >= total {
        return true;
    }
    let remaining = total - done;
    if remaining > u64::MAX - RESUME_CHUNK_SIZE {
        return false;
    }
    let count = (remaining + RESUME_CHUNK_SIZE - 1) / RESUME_CHUNK_SIZE;
    match count.checked_mul(RESUME_CHUNK_SIZE) {
        Some(span) => span <= u64::MAX - done,
        None => false,
    }
}

/// The 5 MiB ranges that remain to fetch when `done` of `total` bytes are on
/// disk: range `i` is `resume_range(total, done, i)`. They tile `[done, total)`:
/// the first starts at `done`, each starts where the one before ends, none is
/// empty or longer than 5 MiB, and the last ends at `total`. A file on disk as
/// long as the remote one, or longer, leaves nothing to fetch.
pub fn plan_resume_chunks(total: u64, done: u64) -> (plan: Vec<(u64, u64)>)
    requires
        resume_plan_fits(total as nat, done as nat),
    ensures
        plan.len() == resume_chunk_count(total as nat, done as nat),
        forall|i: int|
            0 <= i < plan.len() ==> (plan[i].0 as nat, plan[i].1 as nat) == resume_range(
                total as nat,
                done as nat,
                i as nat,
            ),
        plan.len() == 0 <==> done >= total,
        plan.len() > 0 ==> plan[0].0 == done && plan[plan.len() - 1].1 == total,
        forall|i: int|
            0 <= i < plan.len() ==> #[trigger] plan[i].0 < plan[i].1 && plan[i].1 - plan[i].0
                <= RESUME_CHUNK_SIZE,
        forall|i: int| 0 <= i < plan.len() - 1 ==> #[trigger] plan[i + 1].0 == plan[i].1,
{
    if done >= total {
        return Vec::new();
    }
    let remaining = total - done;
    let count = (remaining + RESUME_CHUNK_SIZE - 1) / RESUME_CHUNK_SIZE;
    let ghost cs: int = RESUME_CHUNK_SIZE as int;
    proof {
        lemma_fundamental_div_mod((remaining + cs - 1) as int, cs);
        assert(count * cs <= remaining + cs - 1 && count * cs >= remaining) by (nonlinear_arith)
            requires
                cs == 5242880,
                count * cs + (remaining + cs - 1) % cs == remaining + cs - 1,
                0 <= (remaining + cs - 1) % cs < cs,
        ;
        if count > 0 {
            assert((count - 1) * cs < remaining) by (nonlinear_arith)
                requires
                    count * cs <= remaining + cs - 1,
            ;
        } else {
            assert(remaining == 0);
        }
    }
    let mut plan: Vec<(u64, u64)> = Vec::new();
    let mut i: u64 = 0;
    while i < count
        invariant
            count == resume_chunk_count(total as nat, done as nat),
            cs == RESUME_CHUNK_SIZE,
            remaining == total - done,
            count > 0 ==> (count - 1) * cs < remaining,
            count * cs >= remaining,
            resume_plan_fits(total as nat, done as nat),
            i <= count,
            plan.len() == i,
            forall|j: int|
                0 <= j < i ==> (plan[j].0 as nat, plan[j].1 as nat) == resume_range(
                    total as nat,
                    done as nat,
                    j as nat,
                ),
        decreases count - i,
    {
        proof {
            assert(i * cs + cs <= count * cs) by (nonlinear_arith)
                requires
                    i < count,
                    cs == 5242880,
            ;
        }
        let start = done + i * RESUME_CHUNK_SIZE;
        let end = if start + RESUME_CHUNK_SIZE <= total {
            start + RESUME_CHUNK_SIZE
        } else {
            total
        };
        plan.push((start, end));
        i = i + 1;
    }
    proof {
        assert forall|j: int| 0 <= j < plan.len() implies #[trigger] plan[j].0 < plan[j].1
            && plan[j].1 - plan[j].0 <= RESUME_CHUNK_SIZE by {
            assert(j * cs <= (count - 1) * cs) by (nonlinear_arith)
                requires
                    j <= count - 1,
                    cs == 5242880,
            ;
        }
        assert forall|j: int| 0 <= j < plan.len() - 1 implies #[trigger] plan[j + 1].0
            == plan[j].1 by {
            assert((j + 1) * cs == j * cs + cs) by (nonlinear_arith);
            assert(j * cs + cs <= (count - 1) * cs) by (nonlinear_arith)
                requires
                    j + 1 <= count - 1,
                    cs == 5242880,
            ;
        }
        if count > 0 {
            assert(0 * cs == 0);
            assert((count - 1) * cs + cs >= remaining) by (nonlinear_arith)
                requires
                    count * cs >= remaining,
            ;
        }
    }
    plan
}

/// The `Range` header value for the inclusive byte range `first..=last`.
pub open spec fn range_header_text(first: nat, last: nat) -> Seq<char> {
    seq!['b', 'y', 't', 'e', 's', '='] + decimal(first) + seq!['-'] + decimal(last)
}

/// The `Range` header value for everything from `offset` on.
pub open spec fn open_range_header_text(offset: nat) -> Seq<char> {
    seq!['b', 'y', 't', 'e', 's', '='] + decimal(offset) + seq!['-']
}

fn push_bytes_prefix(out: &mut String)
    ensures
        final(out)@ == old(out)@ + seq!['b', 'y', 't', 'e', 's', '='],
{
    out.push('b');
    out.push('y');
    out.push('t');
    out.push('e');
    out.push('s');
    out.push('=');
}

/// `bytes=<first>-<last>`.
pub fn range_header(first: u64, last: u64) -> (h: String)
    ensures
        h@ == range_header_text(first as nat, last as nat),
{
    let mut h = String::new();
    push_bytes_prefix(&mut h);
    push_decimal(&mut h, first as u128);
    h.push('-');
    push_decimal(&mut h, last as u128);
    assert(h@ =~= range_header_text(first as nat, last as nat));
    h
}

/// `bytes=<offset>-`.
pub fn open_range_header(offset: u64) -> (h: String)
    ensures
        h@ == open_range_header_text(offset as nat),
{
    let mut h = String::new();
    push_bytes_prefix(&mut h);
    push_decimal(&mut h, offset as u128);
    h.push('-');
    assert(h@ =~= open_range_header_text(offset as nat));
    h
}

/// Whether an HTTP status is a success (2xx).
pub open spec fn is_success_status(status: nat) -> bool {
    200 <= status < 300
}

/// A resumed stream must start over when the server answered a request from
/// `offset > 0` with a success other than `206 Partial Content`: it sent the
/// whole file.
pub fn stream_restart_needed(offset: u64, status: u16) -> (b: bool)
    ensures
        b == (offset > 0 && status != 206 && is_success_status(status as nat)),
{
    offset > 0 && status != 206 && 200 <= status && status < 300
}

/// A stream response is usable when it is a success or `206 Partial Content`.
pub fn stream_status_ok(status: u16) -> (b: bool)
    ensures
        b == (is_success_status(status as nat) || status == 206),
{
    (200 <= status && status < 300) || status == 206
}

/// The size the progress of a stream is measured against: the bytes on disk
/// plus the announced length, or `0` when none is announced.
pub fn stream_total(offset: u64, content_length: Option<u64>) -> (t: u64)
    requires
        content_length matches Some(len) ==> offset + len <= u64::MAX,
    ensures
        t == match content_length {
            Some(len) => offset + len,
            None => 0,
        },
{
    match content_length {
        Some(len) => offset + len,
        None => 0,
    }
}

/// The remaining time as `MM:SS`, or `HH:MM:SS` from one hour on; each field
/// has at least two digits.
pub open spec fn eta_text(secs: nat) -> Seq<char> {
    if secs >= 3600 {
        zero_pad(decimal(secs / 3600), 2) + seq![':'] + zero_pad(decimal((secs % 3600) / 60), 2)
            + seq![':'] + zero_pad(decimal(secs % 60), 2)
    } else {
        zero_pad(decimal(secs / 60), 2) + seq![':'] + zero_pad(decimal(secs % 60), 2)
    }
}

/// Law: the remaining-time text reads back to the seconds it was made from:
/// `<m>:<s>` under an hour and `<h>:<m>:<s>` from an hour on, each field
/// zero-padded to two digits, where `h * 3600 + m * 60 + s` is the remaining
/// time and the minutes and seconds are each under 60.
pub proof fn lemma_eta_reads_back(secs: nat)
    ensures
        secs < 3600 ==> exists|m: nat, s: nat|
            #![trigger decimal(m), decimal(s)]
            m * 60 + s == secs && m < 60 && s < 60 && eta_text(secs) == zero_pad(decimal(m), 2)
                + seq![':'] + zero_pad(decimal(s), 2),
        secs >= 3600 ==> exists|h: nat, m: nat, s: nat|
            #![trigger decimal(h), decimal(m), decimal(s)]
            h * 3600 + m * 60 + s == secs && m < 60 && s < 60 && eta_text(secs) == zero_pad(
                decimal(h),
                2,
            ) + seq![':'] + zero_pad(decimal(m), 2) + seq![':'] + zero_pad(decimal(s), 2),
{
    crate::utils::lemma_hms_split(secs);
    let h = secs / 3600;
    let m = (secs % 3600) / 60;
    let s = secs % 60;
    if secs < 3600 {
        assert(decimal(secs / 60) == decimal(secs / 60) && decimal(s) == decimal(s));
    } else {
        assert(decimal(h) == decimal(h) && decimal(m) == decimal(m) && decimal(s) == decimal(s));
    }
}

/// The remaining-time field of the progress line.
pub fn format_eta(secs: u64) -> (s: String)
    ensures
        s@ == eta_text(secs as nat),
{
    let mut s = String::new();
    if secs >= 3600 {
        push_zero_padded(&mut s, (secs / 3600) as u128, 2);
        s.push(':');
        push_zero_padded(&mut s, ((secs % 3600) / 60) as u128, 2);
    } else {
        push_zero_padded(&mut s, (secs / 60) as u128, 2);
    }
    s.push(':');
    push_zero_padded(&mut s, (secs % 60) as u128, 2);
    assert(s@ =~= eta_text(secs as nat));
    s
}

/// The temporary file of range `index` of a download saved to `save_path`:
/// `ars-dl-<file name>.part<index>` (an empty file name when the path has none).
pub open spec fn part_file_name_text(save_path: Seq<char>, index: nat) -> Seq<char> {
    seq!['a', 'r', 's', '-', 'd', 'l', '-'] + match path_file_name(save_path) {
        Some(name) => name,
        None => seq![],
    } + seq!['.', 'p', 'a', 'r', 't'] + decimal(index)
}

/// The temporary file name for range `index` of a split download.
pub fn part_file_name(save_path: &str, index: u64) -> (name: String)
    ensures
        name@ == part_file_name_text(save_path@, index as nat),
{
    let v = chars_of(save_path);
    let mut name = String::new();
    push_str(&mut name, "ars-dl-");
    match file_name_range(&v) {
        Some((a, b)) => push_chars(&mut name, &v, a, b),
        None => {},
    }
    push_str(&mut name, ".part");
    push_decimal(&mut name, index as u128);
    proof {
        reveal_strlit("ars-dl-");
        reveal_strlit(".part");
    }
    assert(name@ =~= part_file_name_text(save_path@, index as nat));
    name
}

} // verus!
