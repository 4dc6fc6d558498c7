//! Exclusive prefix sums and the radix-sort histogram bookkeeping.

use vstd::prelude::*;

verus! {

/// Sum of the first `n` entries of `s`, over the integers.
pub open spec fn sum_prefix(s: Seq<u32>, n: int) -> int
    decreases n,
{
    if n <= 0 {
        0
    } else {
        sum_prefix(s, n - 1) + s[n - 1]
    }
}

/// An integer reduced to its `u32` representative (arithmetic modulo 2^32).
pub open spec fn wrap_u32(x: int) -> u32 {
    (x % 0x1_0000_0000) as u32
}

/// The exclusive prefix sum of `s` in `u32` wrapping arithmetic: entry `i`
/// is the sum of the entries before `i`, modulo 2^32.
pub open spec fn exclusive_scan_spec(s: Seq<u32>) -> Seq<u32> {
    Seq::new(s.len(), |i: int| wrap_u32(sum_prefix(s, i)))
}

proof fn lemma_wrapping_step(total: int, v: u32)
    requires
        total >= 0,
    ensures
        vstd::wrapping::u32_specs::wrapping_add(wrap_u32(total), v) == wrap_u32(total + v),
{
    let m: int = 0x1_0000_0000;
    let a = total % m;
    vstd::arithmetic::div_mod::lemma_add_mod_noop_right(v as int, total, m);
    vstd::arithmetic::div_mod::lemma_mod_bound(total, m);
    assert((v + a) % m == (total + v) % m);
    if a + v >= m {
        vstd::arithmetic::div_mod::lemma_fundamental_div_mod(a + v, m);
        assert((a + v) % m == a + v - m) by {
            vstd::arithmetic::div_mod::lemma_mod_sub_multiples_vanish(a + v, m);
            vstd::arithmetic::div_mod::lemma_small_mod((a + v - m) as nat, m as nat);
        }
    } else {
        vstd::arithmetic::div_mod::lemma_small_mod((a + v) as nat, m as nat);
    }
}

/// Exclusive prefix sum in wrapping `u32` arithmetic: entry `i` of the
/// result is the sum of `input[0..i]` modulo 2^32.
pub fn cpu_exclusive_scan(input: &[u32]) -> (out: Vec<u32>)
    ensures
        out@ == exclusive_scan_spec(input@),
{
    let mut out: Vec<u32> = Vec::with_capacity(input.len());
    let mut acc: u32 = 0;
    let mut i: usize = 0;
    while i < input.len()
        invariant
            i <= input.len(),
            out@.len() == i,
            acc == wrap_u32(sum_prefix(input@, i as int)),
            forall|j: int| 0 <= j < i ==> out@[j] == wrap_u32(#[trigger] sum_prefix(input@, j)),
        decreases input.len() - i,
    {
        out.push(acc);
        proof {
            lemma_sum_prefix_nonneg(input@, i as int);
            lemma_wrapping_step(sum_prefix(input@, i as int), input@[i as int]);
        }
        acc = acc.wrapping_add(input[i]);
        i = i + 1;
    }
    assert(out@ =~= exclusive_scan_spec(input@));
    out
}

/// Prefix sums of `u32` entries are never negative.
pub proof fn lemma_sum_prefix_nonneg(s: Seq<u32>, n: int)
    ensures
        sum_prefix(s, n) >= 0,
    decreases n,
{
    if n > 0 {
        lemma_sum_prefix_nonneg(s, n - 1);
    }
}


/// Buckets of one radix digit (one byte).
pub const NUM_DIGITS: usize = 256;

/// Prefix sums of `u32` entries grow with the prefix.
pub proof fn lemma_sum_prefix_mono(s: Seq<u32>, i: int, j: int)
    requires
        0 <= i <= j,
    ensures
        sum_prefix(s, i) <= sum_prefix(s, j),
    decreases j - i,
{
    if i < j {
        lemma_sum_prefix_mono(s, i, j - 1);
    }
}

/// Only the entries before `n` count towards the first `n`.
pub proof fn lemma_sum_prefix_take(s: Seq<u32>, m: int, n: int)
    requires
        0 <= n <= m <= s.len(),
    ensures
        sum_prefix(s.take(m), n) == sum_prefix(s, n),
    decreases n,
{
    if n > 0 {
        lemma_sum_prefix_take(s, m, n - 1);
    }
}

/// Raising one entry by `v` raises every prefix sum past it by `v`.
pub proof fn lemma_sum_prefix_update(s: Seq<u32>, k: int, v: u32, n: int)
    requires
        0 <= k < s.len(),
        0 <= n <= s.len(),
    ensures
        sum_prefix(s.update(k, v), n) == sum_prefix(s, n) + if k < n {
            v - s[k]
        } else {
            0
        },
    decreases n,
{
    if n > 0 {
        lemma_sum_prefix_update(s, k, v, n - 1);
    }
}

proof fn lemma_mul_bounds(d: int, w: int, n: int)
    requires
        0 <= d < 256,
        0 <= w < n,
    ensures
        0 <= d * n + w < 256 * n,
        d * n + w < (d + 1) * n,
        d * n >= 0,
{
    assert(d * n + w < (d + 1) * n) by (nonlinear_arith)
        requires
            w < n,
    ;
    assert((d + 1) * n <= 256 * n) by (nonlinear_arith)
        requires
            d + 1 <= 256,
            n >= 0,
    ;
    assert(d * n >= 0) by (nonlinear_arith)
        requires
            d >= 0,
            n >= 0,
    ;
}

proof fn lemma_index_unique(d1: int, w1: int, d2: int, w2: int, n: int)
    requires
        0 <= w1 < n,
        0 <= w2 < n,
        0 <= d1,
        0 <= d2,
        d1 * n + w1 == d2 * n + w2,
    ensures
        d1 == d2,
        w1 == w2,
{
    if d1 < d2 {
        assert((d1 + 1) * n <= d2 * n) by (nonlinear_arith)
            requires
                d1 + 1 <= d2,
                n >= 0,
        ;
        assert((d1 + 1) * n == d1 * n + n) by (nonlinear_arith);
    } else if d2 < d1 {
        assert((d2 + 1) * n <= d1 * n) by (nonlinear_arith)
            requires
                d2 + 1 <= d1,
                n >= 0,
        ;
        assert((d2 + 1) * n == d2 * n + n) by (nonlinear_arith);
    }
}

proof fn lemma_index_split(k: int, n: int)
    requires
        n > 0,
        0 <= k < 256 * n,
    ensures
        0 <= k / n < 256,
        0 <= k % n < n,
        k == (k / n) * n + k % n,
{
    vstd::arithmetic::div_mod::lemma_fundamental_div_mod(k, n);
    vstd::arithmetic::div_mod::lemma_mod_bound(k, n);
    assert(n * (k / n) == (k / n) * n) by (nonlinear_arith);
    assert(k / n >= 0) by {
        vstd::arithmetic::div_mod::lemma_div_pos_is_pos(k, n);
    }
    let q = k / n;
    let r = k % n;
    assert(q < 256) by (nonlinear_arith)
        requires
            k == q * n + r,
            r >= 0,
            k < 256 * n,
            n > 0,
    ;
}

/// Exclusive prefix sums of a column-major histogram (`num_workgroups`
/// counters per digit, digit after digit): entry `k` is the sum of the
/// first `k` counters.
pub fn compute_prefix_from_hist(histogram: Vec<u32>, num_workgroups: usize) -> (r: Vec<u32>)
    requires
        NUM_DIGITS * num_workgroups <= usize::MAX,
        histogram@.len() >= NUM_DIGITS * num_workgroups,
        sum_prefix(histogram@, NUM_DIGITS * num_workgroups) <= u32::MAX,
    ensures
        r@.len() == NUM_DIGITS * num_workgroups,
        forall|k: int| 0 <= k < r@.len() ==> r@[k] == #[trigger] sum_prefix(histogram@, k),
{
    let total = NUM_DIGITS * num_workgroups;
    let mut result: Vec<u32> = vec![0u32; total];
    let mut acc: u32 = 0;
    let mut digit: usize = 0;
    while digit < NUM_DIGITS
        invariant
            digit <= NUM_DIGITS,
            total == NUM_DIGITS * num_workgroups,
            histogram@.len() >= total,
            sum_prefix(histogram@, total as int) <= u32::MAX,
            result@.len() == total,
            digit * num_workgroups <= total,
            acc == sum_prefix(histogram@, digit * num_workgroups),
            forall|j: int|
                0 <= j < digit * num_workgroups ==> result@[j] == #[trigger] sum_prefix(
                    histogram@,
                    j,
                ),
        decreases NUM_DIGITS - digit,
    {
        let mut wg: usize = 0;
        proof {
            lemma_mul_bounds(digit as int, 0, num_workgroups as int + 1);
        }
        while wg < num_workgroups
            invariant
                digit < NUM_DIGITS,
                wg <= num_workgroups,
                total == NUM_DIGITS * num_workgroups,
                histogram@.len() >= total,
                sum_prefix(histogram@, total as int) <= u32::MAX,
                result@.len() == total,
                digit * num_workgroups + wg <= total,
                acc == sum_prefix(histogram@, digit * num_workgroups + wg),
                forall|j: int|
                    0 <= j < digit * num_workgroups + wg ==> result@[j] == #[trigger] sum_prefix(
                        histogram@,
                        j,
                    ),
            decreases num_workgroups - wg,
        {
            proof {
                lemma_mul_bounds(digit as int, wg as int, num_workgroups as int);
            }
            let k = digit * num_workgroups + wg;
            result.set(k, acc);
            proof {
                lemma_sum_prefix_mono(histogram@, k + 1, total as int);
            }
            acc = acc + histogram[k];
            wg = wg + 1;
        }
        proof {
            assert(digit * num_workgroups + num_workgroups == (digit + 1) * num_workgroups) by (
            nonlinear_arith);
            lemma_mul_bounds(digit as int, 0, num_workgroups as int + 1);
            assert((digit + 1) * num_workgroups <= 256 * num_workgroups) by (nonlinear_arith)
                requires
                    digit + 1 <= 256,
            ;
        }
        digit = digit + 1;
    }
    result
}

/// The prefix sums of a histogram are its exclusive scan, as long as its
/// total fits in a `u32`.
pub proof fn lemma_prefix_from_hist_is_exclusive_scan(histogram: Seq<u32>, m: int)
    requires
        0 <= m <= histogram.len(),
        sum_prefix(histogram, m) <= u32::MAX,
    ensures
        forall|k: int|
            0 <= k < m ==> #[trigger] exclusive_scan_spec(histogram.take(m))[k] == sum_prefix(
                histogram,
                k,
            ),
{
    assert forall|k: int| 0 <= k < m implies #[trigger] exclusive_scan_spec(histogram.take(m))[k]
        == sum_prefix(histogram, k) by {
        lemma_sum_prefix_take(histogram, m, k);
        lemma_sum_prefix_mono(histogram, k, m);
        lemma_sum_prefix_nonneg(histogram, k);
        vstd::arithmetic::div_mod::lemma_small_mod(
            sum_prefix(histogram, k) as nat,
            0x1_0000_0000nat,
        );
    }
}

/// The byte of `v` that radix pass `pass_index` sorts by.
pub open spec fn digit_of(v: u32, pass_index: u32) -> u32 {
    (v >> (pass_index * 8) as u32) & 0xFFu32
}

/// The digit of radix pass `p` is byte `p` of the key: the key divided by
/// `2^(8p)`, modulo 256. So the histogram entry of digit `d` counts the
/// keys whose byte `p` is `d`.
pub proof fn lemma_digit_is_key_byte(v: u32, p: u32)
    requires
        p < 4,
    ensures
        digit_of(v, p) as nat == (v as nat / vstd::arithmetic::power2::pow2((8 * p) as nat)) % 256,
{
    vstd::arithmetic::power2::lemma2_to64();
    if p == 0 {
        assert((v >> 0u32) & 0xFFu32 == v % 256) by (bit_vector);
        assert((0 * 8) as u32 == 0u32);
        assert(vstd::arithmetic::power2::pow2((8 * p) as nat) == 1);
    } else if p == 1 {
        assert((v >> 8u32) & 0xFFu32 == (v / 256) % 256) by (bit_vector);
        assert((1 * 8) as u32 == 8u32);
        assert(vstd::arithmetic::power2::pow2((8 * p) as nat) == 256);
    } else if p == 2 {
        assert((v >> 16u32) & 0xFFu32 == (v / 65536) % 256) by (bit_vector);
        assert((2 * 8) as u32 == 16u32);
        assert(vstd::arithmetic::power2::pow2((8 * p) as nat) == 65536);
    } else {
        assert((v >> 24u32) & 0xFFu32 == (v / 16777216) % 256) by (bit_vector);
        assert((3 * 8) as u32 == 24u32);
        assert(vstd::arithmetic::power2::pow2((8 * p) as nat) == 16777216);
    }
}

/// First input position of workgroup `wg`'s chunk.
pub open spec fn chunk_start(len: int, elements_per_wg: int, wg: int) -> int {
    if wg * elements_per_wg < len {
        wg * elements_per_wg
    } else {
        len
    }
}

/// One past the last input position of workgroup `wg`'s chunk.
pub open spec fn chunk_end(len: int, elements_per_wg: int, wg: int) -> int {
    if chunk_start(len, elements_per_wg, wg) + elements_per_wg < len {
        chunk_start(len, elements_per_wg, wg) + elements_per_wg
    } else {
        len
    }
}

/// How many of `s[lo..hi]` have digit `d` in pass `pass_index`.
pub open spec fn count_digit(s: Seq<u32>, lo: int, hi: int, d: int, pass_index: u32) -> nat
    decreases hi - lo,
{
    if hi <= lo {
        0
    } else {
        count_digit(s, lo, hi - 1, d, pass_index) + if digit_of(s[hi - 1], pass_index) == d {
            1nat
        } else {
            0nat
        }
    }
}

/// The column-major digit histogram of a radix pass: entry `d * n + wg`
/// counts the elements of workgroup `wg`'s chunk whose digit is `d`.
pub open spec fn radix_histogram(
    input: Seq<u32>,
    num_workgroups: int,
    elements_per_wg: int,
    pass_index: u32,
) -> Seq<u32> {
    Seq::new(
        (NUM_DIGITS * num_workgroups) as nat,
        |k: int|
            count_digit(
                input,
                chunk_start(input.len() as int, elements_per_wg, k % num_workgroups),
                chunk_end(input.len() as int, elements_per_wg, k % num_workgroups),
                k / num_workgroups,
                pass_index,
            ) as u32,
    )
}

proof fn lemma_chunks_tile(len: int, epw: int, wg: int)
    requires
        len >= 0,
        epw >= 0,
        wg >= 0,
    ensures
        chunk_end(len, epw, wg) == chunk_start(len, epw, wg + 1),
        chunk_start(len, epw, wg) <= chunk_end(len, epw, wg),
{
    assert((wg + 1) * epw == wg * epw + epw) by (nonlinear_arith);
}

/// The column-major digit histogram of a radix pass: for each digit and
/// workgroup, how many elements of the workgroup's chunk (64 threads times
/// `elements_per_thread` elements) have that digit. Its entries add up to
/// the number of elements the chunks cover.
pub fn compute_histogram(
    input: &[u32],
    num_workgroups: usize,
    elements_per_thread: u32,
    pass_index: u32,
) -> (r: Vec<u32>)
    requires
        64 * elements_per_thread <= u32::MAX,
        num_workgroups * (64 * elements_per_thread) <= usize::MAX,
        NUM_DIGITS * num_workgroups <= usize::MAX,
        pass_index < 4,
    ensures
        r@ == radix_histogram(input@, num_workgroups as int, 64 * elements_per_thread, pass_index),
        sum_prefix(r@, NUM_DIGITS * num_workgroups) == chunk_start(
            input@.len() as int,
            64 * elements_per_thread,
            num_workgroups as int,
        ),
{
    let elements_per_wg = (64 * elements_per_thread) as usize;
    let ghost epw = elements_per_wg as int;
    let ghost len = input@.len() as int;
    let ghost n = num_workgroups as int;
    let total = NUM_DIGITS * num_workgroups;
    let mut histogram: Vec<u32> = vec![0u32; total];
    let mut wg: usize = 0;
    proof {
        assert(sum_prefix(histogram@, total as int) == 0) by {
            lemma_sum_zeros(histogram@, total as int);
        }
        assert forall|d: int, w: int| 0 <= d < 256 && 0 <= w < n implies #[trigger] histogram@[d
            * n + w] == 0 by {
            lemma_mul_bounds(d, w, n);
        }
    }
    while wg < num_workgroups
        invariant
            wg <= num_workgroups,
            n == num_workgroups,
            epw == elements_per_wg,
            epw == 64 * elements_per_thread,
            epw <= u32::MAX,
            len == input@.len(),
            n * epw <= usize::MAX,
            total == NUM_DIGITS * num_workgroups,
            histogram@.len() == total,
            pass_index < 4,
            sum_prefix(histogram@, total as int) == chunk_start(len, epw, wg as int),
            forall|d: int, w: int|
                0 <= d < 256 && 0 <= w < n ==> #[trigger] histogram@[d * n + w] == if w < wg {
                    count_digit(input@, chunk_start(len, epw, w), chunk_end(len, epw, w), d, pass_index)
                } else {
                    0
                },
        decreases num_workgroups - wg,
    {
        proof {
            assert(wg * epw <= n * epw) by (nonlinear_arith)
                requires
                    wg <= n,
                    epw >= 0,
            ;
            assert((wg + 1) * epw <= n * epw) by (nonlinear_arith)
                requires
                    wg + 1 <= n,
                    epw >= 0,
            ;
            assert((wg + 1) * epw == wg * epw + epw) by (nonlinear_arith);
            lemma_chunks_tile(len, epw, wg as int);
            lemma_chunk_start_mono(len, epw, wg as int + 1, n);
        }
        let scaled = wg * elements_per_wg;
        let start = if scaled < input.len() {
            scaled
        } else {
            input.len()
        };
        let end = if start + elements_per_wg < input.len() {
            start + elements_per_wg
        } else {
            input.len()
        };
        let mut j: usize = start;
        while j < end
            invariant
                start <= j <= end,
                epw <= u32::MAX,
                end <= start + epw,
                start == chunk_start(len, epw, wg as int),
                end == chunk_end(len, epw, wg as int),
                end <= input@.len(),
                wg < num_workgroups,
                n == num_workgroups,
                len == input@.len(),
                total == NUM_DIGITS * num_workgroups,
                histogram@.len() == total,
                pass_index < 4,
                end == chunk_start(len, epw, wg + 1),
                sum_prefix(histogram@, total as int) == j,
                forall|d: int, w: int|
                    0 <= d < 256 && 0 <= w < n ==> #[trigger] histogram@[d * n + w] == if w
                        < wg {
                        count_digit(
                            input@,
                            chunk_start(len, epw, w),
                            chunk_end(len, epw, w),
                            d,
                            pass_index,
                        )
                    } else if w == wg {
                        count_digit(input@, start as int, j as int, d, pass_index)
                    } else {
                        0
                    },
            decreases end - j,
        {
            let val = input[j];
            let shift = pass_index * 8;
            let digit = ((val >> shift) & 0xFF) as usize;
            proof {
                assert((val >> shift) & 0xFF <= 0xFF) by (bit_vector);
                assert(digit == digit_of(val, pass_index));
                lemma_mul_bounds(digit as int, wg as int, n);
            }
            let k = digit * num_workgroups + wg;
            let old_count = histogram[k];
            proof {
                assert(histogram@[digit * n + wg] == count_digit(
                    input@,
                    start as int,
                    j as int,
                    digit as int,
                    pass_index,
                ));
                lemma_count_le(input@, start as int, j as int, digit as int, pass_index);
                lemma_sum_prefix_update(histogram@, k as int, (old_count + 1) as u32, total as int);
            }
            histogram.set(k, old_count + 1);
            proof {
                assert forall|d: int, w: int| 0 <= d < 256 && 0 <= w < n implies #[trigger] histogram@[d
                    * n + w] == if w < wg {
                    count_digit(
                        input@,
                        chunk_start(len, epw, w),
                        chunk_end(len, epw, w),
                        d,
                        pass_index,
                    )
                } else if w == wg {
                    count_digit(input@, start as int, j + 1, d, pass_index)
                } else {
                    0
                } by {
                    lemma_mul_bounds(d, w, n);
                    if d * n + w == k {
                        lemma_index_unique(d, w, digit as int, wg as int, n);
                    }
                }
            }
            j = j + 1;
        }
        wg = wg + 1;
    }
    proof {
        let h = radix_histogram(input@, n, epw, pass_index);
        assert forall|k: int| 0 <= k < total implies #[trigger] histogram@[k] == h[k] by {
            lemma_index_split(k, n);
            let d = k / n;
            let w = k % n;
            assert(histogram@[d * n + w] == count_digit(
                input@,
                chunk_start(len, epw, w),
                chunk_end(len, epw, w),
                d,
                pass_index,
            ));
        }
        assert(histogram@ =~= h);
    }
    histogram
}

/// The exclusive prefix sums of a radix pass's column-major digit
/// histogram: where, in the sorted output, each workgroup's elements of
/// each digit begin.
pub fn compute_prefix_sums(
    input: &[u32],
    num_workgroups: usize,
    elements_per_thread: u32,
    pass_index: u32,
) -> (r: Vec<u32>)
    requires
        64 * elements_per_thread <= u32::MAX,
        num_workgroups * (64 * elements_per_thread) <= usize::MAX,
        NUM_DIGITS * num_workgroups <= usize::MAX,
        pass_index < 4,
        chunk_start(input@.len() as int, 64 * elements_per_thread, num_workgroups as int)
            <= u32::MAX,
    ensures
        r@.len() == NUM_DIGITS * num_workgroups,
        forall|k: int|
            0 <= k < r@.len() ==> r@[k] == #[trigger] sum_prefix(
                radix_histogram(
                    input@,
                    num_workgroups as int,
                    64 * elements_per_thread,
                    pass_index,
                ),
                k,
            ),
{
    let histogram = compute_histogram(input, num_workgroups, elements_per_thread, pass_index);
    compute_prefix_from_hist(histogram, num_workgroups)
}

proof fn lemma_sum_zeros(s: Seq<u32>, n: int)
    requires
        0 <= n,
        n <= s.len(),
        forall|i: int| 0 <= i < s.len() ==> s[i] == 0,
    ensures
        sum_prefix(s, n) == 0,
    decreases n,
{
    if n > 0 {
        lemma_sum_zeros(s, n - 1);
    }
}

proof fn lemma_count_le(s: Seq<u32>, lo: int, hi: int, d: int, pass_index: u32)
    requires
        lo <= hi,
    ensures
        count_digit(s, lo, hi, d, pass_index) <= hi - lo,
    decreases hi - lo,
{
    if lo < hi {
        lemma_count_le(s, lo, hi - 1, d, pass_index);
    }
}

proof fn lemma_chunk_start_mono(len: int, epw: int, a: int, b: int)
    requires
        0 <= a <= b,
        epw >= 0,
    ensures
        chunk_start(len, epw, a) <= chunk_start(len, epw, b),
{
    assert(a * epw <= b * epw) by (nonlinear_arith)
        requires
            a <= b,
            epw >= 0,
    ;
}


/// The exclusive scan starts at zero, and each entry is the one before it
/// plus the input before it, in wrapping `u32` arithmetic.
pub proof fn lemma_exclusive_scan_recurrence(s: Seq<u32>)
    ensures
        exclusive_scan_spec(s).len() == s.len(),
        s.len() > 0 ==> exclusive_scan_spec(s)[0] == 0,
        forall|i: int|
            0 <= i < s.len() - 1 ==> #[trigger] exclusive_scan_spec(s)[i + 1]
                == vstd::wrapping::u32_specs::wrapping_add(exclusive_scan_spec(s)[i], s[i]),
{
    assert forall|i: int| 0 <= i < s.len() - 1 implies #[trigger] exclusive_scan_spec(s)[i + 1]
        == vstd::wrapping::u32_specs::wrapping_add(exclusive_scan_spec(s)[i], s[i]) by {
        lemma_sum_prefix_nonneg(s, i);
        lemma_wrapping_step(sum_prefix(s, i), s[i]);
    }
    if s.len() > 0 {
        vstd::arithmetic::div_mod::lemma_small_mod(0, 0x1_0000_0000);
    }
}

/// Scanning only zeros gives only zeros.
pub proof fn lemma_exclusive_scan_of_zeros(s: Seq<u32>)
    requires
        forall|i: int| 0 <= i < s.len() ==> s[i] == 0,
    ensures
        forall|i: int| 0 <= i < s.len() ==> #[trigger] exclusive_scan_spec(s)[i] == 0,
{
    assert forall|i: int| 0 <= i < s.len() implies #[trigger] exclusive_scan_spec(s)[i] == 0 by {
        lemma_sum_zeros(s, i);
        vstd::arithmetic::div_mod::lemma_small_mod(0, 0x1_0000_0000);
    }
}

/// Scanning a prefix of the input gives the same prefix of the output.
pub proof fn lemma_exclusive_scan_prefix(s: Seq<u32>, m: int)
    requires
        0 <= m <= s.len(),
    ensures
        exclusive_scan_spec(s.take(m)) == exclusive_scan_spec(s).take(m),
{
    assert forall|i: int| 0 <= i < m implies #[trigger] exclusive_scan_spec(s.take(m))[i]
        == exclusive_scan_spec(s)[i] by {
        lemma_sum_prefix_take(s, m, i);
    }
    assert(exclusive_scan_spec(s.take(m)) =~= exclusive_scan_spec(s).take(m));
}

} // verus!
