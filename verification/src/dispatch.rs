//! Sizes and dispatch plans for the GPU passes: how workgroup counts are
//! split over the three dispatch dimensions, the levels of the multi-level
//! prefix scan and the order of its dispatches, and the buffer sizes of the
//! parsing pipeline and of the radix sort.

use vstd::prelude::*;

verus! {

/// Threads per workgroup in every compute shader.
pub const WORKGROUP_SIZE: u32 = 64;

/// Elements one block of the prefix scan covers.
pub const TILE_SIZE: usize = 64;

/// Workgroups the radix sort aims for.
pub const RADIX_SORT_TARGET_SORT_WORKGROUPS: u32 = 512;

/// Elements each radix-sort thread handles.
pub const RADIX_ELEMENTS_PER_THREAD: u32 = 16;

/// Buckets of one radix digit (one byte).
pub const RADIX_BUCKETS: usize = 256;

/// `a / b` rounded up.
pub open spec fn ceil_div(a: int, b: int) -> int {
    (a + b - 1) / b
}

/// The first dimension of a split dispatch.
pub open spec fn split_x(needed: int, max_dim: int) -> int {
    if needed < max_dim {
        needed
    } else {
        max_dim
    }
}

/// The second dimension of a split dispatch.
pub open spec fn split_y(needed: int, max_dim: int) -> int {
    let rem = ceil_div(needed, split_x(needed, max_dim));
    if rem < max_dim {
        rem
    } else {
        max_dim
    }
}

/// The third dimension of a split dispatch.
pub open spec fn split_z(needed: int, max_dim: int) -> int {
    ceil_div(needed, split_x(needed, max_dim) * split_y(needed, max_dim))
}

/// `needed` workgroups can be split into three dimensions of at most
/// `max_dim` each, with no intermediate sum leaving `u32`.
pub open spec fn split_fits(needed: u32, max_dim: u32) -> bool {
    &&& needed >= 1
    &&& max_dim >= 1
    &&& needed + split_x(needed as int, max_dim as int) <= u32::MAX
    &&& split_z(needed as int, max_dim as int) <= max_dim
}

proof fn lemma_ceil_div_bounds(a: int, b: int)
    requires
        a >= 1,
        b >= 1,
    ensures
        ceil_div(a, b) >= 1,
        ceil_div(a, b) * b >= a,
        ceil_div(a, b) <= a,
{
    let q = (a + b - 1) / b;
    let r = (a + b - 1) % b;
    vstd::arithmetic::div_mod::lemma_fundamental_div_mod(a + b - 1, b);
    vstd::arithmetic::div_mod::lemma_mod_bound(a + b - 1, b);
    assert(b * q == a + b - 1 - r);
    assert(q >= 1) by (nonlinear_arith)
        requires
            b * q >= a,
            a >= 1,
            b >= 1,
    ;
    assert(q * b >= a) by (nonlinear_arith)
        requires
            b * q >= a,
    ;
    assert(q <= a) by (nonlinear_arith)
        requires
            b * q <= a + b - 1,
            a >= 1,
            b >= 1,
    ;
}

/// Splits a workgroup count over up to three dispatch dimensions of at most
/// `max_dim` each: `x` as large as allowed, then `y`, then `z`.
pub fn split_dispatch_3d(workgroups_needed: u32, max_dim: u32) -> (r: [u32; 3])
    requires
        split_fits(workgroups_needed, max_dim),
    ensures
        r@[0] == split_x(workgroups_needed as int, max_dim as int),
        r@[1] == split_y(workgroups_needed as int, max_dim as int),
        r@[2] == split_z(workgroups_needed as int, max_dim as int),
{
    let x = if workgroups_needed < max_dim {
        workgroups_needed
    } else {
        max_dim
    };
    assert(x == split_x(workgroups_needed as int, max_dim as int));
    let remaining_after_x = (workgroups_needed + x - 1) / x;
    let y = if remaining_after_x < max_dim {
        remaining_after_x
    } else {
        max_dim
    };
    proof {
        lemma_ceil_div_bounds(workgroups_needed as int, x as int);
        assert(y >= 1);
        assert((x as u64) * (y as u64) <= u64::MAX) by (nonlinear_arith)
            requires
                x <= u32::MAX,
                y <= u32::MAX,
        ;
        assert((x as u64) * (y as u64) <= 0xFFFF_FFFE_0000_0001u64) by (nonlinear_arith)
            requires
                x <= u32::MAX,
                y <= u32::MAX,
        ;
        assert((x as u64) * (y as u64) >= 1) by (nonlinear_arith)
            requires
                x >= 1,
                y >= 1,
        ;
    }
    let xy = (x as u64) * (y as u64);
    let z = ((workgroups_needed as u64) + xy - 1) / xy;
    [x, y, z as u32]
}

/// Every dimension of a split dispatch lies in `1..=max_dim`, and together
/// they cover at least the workgroups asked for.
pub proof fn lemma_split_covers(needed: u32, max_dim: u32)
    requires
        split_fits(needed, max_dim),
    ensures
        1 <= split_x(needed as int, max_dim as int) <= max_dim,
        1 <= split_y(needed as int, max_dim as int) <= max_dim,
        1 <= split_z(needed as int, max_dim as int) <= max_dim,
        split_x(needed as int, max_dim as int) * split_y(needed as int, max_dim as int)
            * split_z(needed as int, max_dim as int) >= needed,
{
    let x = split_x(needed as int, max_dim as int);
    let y = split_y(needed as int, max_dim as int);
    lemma_ceil_div_bounds(needed as int, x);
    assert(x * y >= 1) by (nonlinear_arith)
        requires
            x >= 1,
            y >= 1,
    ;
    lemma_ceil_div_bounds(needed as int, x * y);
    let z = split_z(needed as int, max_dim as int);
    assert(x * y * z == z * (x * y)) by (nonlinear_arith);
}

/// Element counts of the levels of the multi-level scan over `n` elements:
/// each level above the tile size is followed by its count of blocks.
pub open spec fn level_sizes(n: nat) -> Seq<nat>
    decreases n,
{
    if n > TILE_SIZE {
        proof {
            lemma_ceil_div_shrinks(n);
        }
        seq![n].add(level_sizes(ceil_div(n as int, TILE_SIZE as int) as nat))
    } else {
        seq![n]
    }
}

/// Above the tile size, the block count is smaller than the element count.
pub proof fn lemma_ceil_div_shrinks(n: nat)
    requires
        n > TILE_SIZE,
    ensures
        1 <= ceil_div(n as int, TILE_SIZE as int) < n,
{
    lemma_ceil_div_bounds(n as int, TILE_SIZE as int);
    let m = n as int;
    assert((m + 63) / 64 < m) by (nonlinear_arith)
        requires
            m > 64,
    ;
}

/// The `u32` element counts of the levels of a scan over `n` elements, as
/// the scan records them.
pub open spec fn level_counts(n: nat) -> Seq<u32> {
    level_sizes(n).map_values(|v: nat| v as u32)
}

/// Plans the levels of the multi-level prefix scan over `numbers_to_sum`
/// elements: the element count of every level, from the input down to the
/// last level, which fits in one tile.
pub fn scan_levels(numbers_to_sum: usize) -> (r: Vec<u32>)
    ensures
        r@ == level_counts(numbers_to_sum as nat),
{
    let mut elements_per_level: Vec<u32> = Vec::new();
    let mut level_elms = numbers_to_sum;
    while level_elms > TILE_SIZE
        invariant
            level_counts(numbers_to_sum as nat) == elements_per_level@ + level_counts(
                level_elms as nat,
            ),
        decreases level_elms,
    {
        proof {
            lemma_ceil_div_shrinks(level_elms as nat);
            assert(level_counts(level_elms as nat) =~= seq![#[verifier::truncate] (level_elms as u32)]
                + level_counts(ceil_div(level_elms as int, 64) as nat));
        }
        elements_per_level.push(#[verifier::truncate] (level_elms as u32));
        let num_blocks = level_elms / TILE_SIZE + if level_elms % TILE_SIZE == 0 {
            0
        } else {
            1
        };
        proof {
            vstd::arithmetic::div_mod::lemma_fundamental_div_mod(level_elms as int, 64);
            vstd::arithmetic::div_mod::lemma_fundamental_div_mod(level_elms + 63, 64);
            vstd::arithmetic::div_mod::lemma_mod_bound(level_elms as int, 64);
            vstd::arithmetic::div_mod::lemma_mod_bound(level_elms + 63, 64);
            assert(num_blocks == ceil_div(level_elms as int, 64));
        }
        level_elms = num_blocks;
    }
    proof {
        assert(level_counts(level_elms as nat) =~= seq![#[verifier::truncate] (level_elms as u32)]);
    }
    elements_per_level.push(#[verifier::truncate] (level_elms as u32));
    proof {
        assert(level_counts(numbers_to_sum as nat) =~= elements_per_level@);
    }
    elements_per_level
}


/// Bytes of the buffer that holds level `i + 1` of a scan over `n`
/// elements: one `u32` per block of level `i`, and never less than 4.
pub open spec fn block_buffer_bytes(n: nat, i: int) -> u64 {
    let blocks = level_sizes(n)[i + 1];
    if blocks * 4 < 4 {
        4
    } else {
        (blocks * 4) as u64
    }
}

/// Sizes in bytes of the block-sum buffers of a scan over `numbers_to_sum`
/// elements: one buffer for each level after the first.
pub fn scan_block_bytes(numbers_to_sum: usize) -> (r: Vec<u64>)
    ensures
        r@.len() == level_sizes(numbers_to_sum as nat).len() - 1,
        forall|i: int| 0 <= i < r@.len() ==> #[trigger] r@[i] == block_buffer_bytes(numbers_to_sum as nat, i),
{
    let ghost n = numbers_to_sum as nat;
    let mut sizes: Vec<u64> = Vec::new();
    let mut level_elms = numbers_to_sum;
    let ghost mut done: int = 0;
    proof {
        lemma_level_sizes_shape(n);
    }
    while level_elms > TILE_SIZE
        invariant
            0 <= done < level_sizes(n).len(),
            level_sizes(n)[done] == level_elms,
            sizes@.len() == done,
            forall|i: int| 0 <= i < done ==> #[trigger] sizes@[i] == block_buffer_bytes(n, i),
            forall|i: int|
                0 <= i < level_sizes(n).len() - 1 ==> #[trigger] level_sizes(n)[i] > TILE_SIZE
                    && level_sizes(n)[i + 1] == ceil_div(level_sizes(n)[i] as int, TILE_SIZE as int),
            level_sizes(n).last() <= TILE_SIZE,
        decreases level_elms,
    {
        let num_blocks = level_elms / TILE_SIZE + if level_elms % TILE_SIZE == 0 {
            0
        } else {
            1
        };
        proof {
            vstd::arithmetic::div_mod::lemma_fundamental_div_mod(level_elms as int, 64);
            vstd::arithmetic::div_mod::lemma_fundamental_div_mod(level_elms + 63, 64);
            vstd::arithmetic::div_mod::lemma_mod_bound(level_elms as int, 64);
            vstd::arithmetic::div_mod::lemma_mod_bound(level_elms + 63, 64);
            assert(num_blocks == ceil_div(level_elms as int, 64));
            lemma_ceil_div_shrinks(level_elms as nat);
            assert(done < level_sizes(n).len() - 1);
        }
        let bytes = (num_blocks as u64) * 4;
        sizes.push(if bytes < 4 {
            4
        } else {
            bytes
        });
        level_elms = num_blocks;
        proof {
            done = done + 1;
        }
    }
    proof {
        assert(done == level_sizes(n).len() - 1);
    }
    sizes
}

/// Workgroups that cover `count` elements, one element per thread, and at
/// least one.
pub open spec fn level_workgroups(count: u32) -> u32 {
    let w = ceil_div(count as int, WORKGROUP_SIZE as int);
    if w < 1 {
        1
    } else {
        w as u32
    }
}

fn level_workgroups_exec(count: u32) -> (w: u32)
    ensures
        w == level_workgroups(count),
{
    let w = count / WORKGROUP_SIZE + if count % WORKGROUP_SIZE == 0 {
        0
    } else {
        1
    };
    proof {
        vstd::arithmetic::div_mod::lemma_fundamental_div_mod(count as int, 64);
        vstd::arithmetic::div_mod::lemma_fundamental_div_mod(count + 63, 64);
        vstd::arithmetic::div_mod::lemma_mod_bound(count as int, 64);
        vstd::arithmetic::div_mod::lemma_mod_bound(count + 63, 64);
    }
    if w < 1 {
        1
    } else {
        w
    }
}

/// A pass of the multi-level prefix scan.
#[derive(Debug, Clone, Copy, PartialEq, Eq)]
pub enum ScanStage {
    /// Scan the blocks of level `i`, writing each block's sum to level `i + 1`.
    BlockScanWriteSum(usize),
    /// Scan the last level, which fits in one block.
    BlockScanNoSum,
    /// Add the scanned block sums back, with the `i`-th carry bind group
    /// (the levels taken from the top down).
    AddCarry(usize),
}

/// One dispatch of the prefix scan: which pass, over how many workgroups in
/// each dimension.
#[derive(Debug, Clone, Copy, PartialEq, Eq)]
pub struct ScanDispatch {
    pub stage: ScanStage,
    pub workgroups: [u32; 3],
}

/// The pass of dispatch `k` of a scan over `l` levels: a block scan with
/// sums for each level but the last, the last level's block scan, then the
/// carries from the top level down.
pub open spec fn scan_stage(l: int, k: int) -> ScanStage {
    if k < l - 1 {
        ScanStage::BlockScanWriteSum(k as usize)
    } else if k == l - 1 {
        ScanStage::BlockScanNoSum
    } else {
        ScanStage::AddCarry((k - l) as usize)
    }
}

/// The element count that dispatch `k` covers: its own level for a block
/// scan, the level it adds carries into for a carry pass.
pub open spec fn scan_block(levels: Seq<u32>, k: int) -> u32 {
    if k < levels.len() {
        levels[k]
    } else {
        levels[2 * levels.len() - 2 - k]
    }
}

/// Every level's workgroup count splits within `max_dim`.
pub open spec fn levels_fit(levels: Seq<u32>, max_dim: u32) -> bool {
    forall|i: int| 0 <= i < levels.len() ==> split_fits(level_workgroups(#[trigger] levels[i]), max_dim)
}

/// Plans the dispatches of the prefix scan over the given levels, in
/// order: a block scan per level, then the carry passes back down.
pub fn scan_dispatches(levels: &Vec<u32>, max_dimensions: u32) -> (r: Vec<ScanDispatch>)
    requires
        levels@.len() >= 1,
        levels_fit(levels@, max_dimensions),
    ensures
        r@.len() == 2 * levels@.len() - 1,
        forall|k: int|
            0 <= k < r@.len() ==> {
                let w = level_workgroups(scan_block(levels@, k));
                &&& (#[trigger] r@[k]).stage == scan_stage(levels@.len() as int, k)
                &&& r@[k].workgroups@[0] == split_x(w as int, max_dimensions as int)
                &&& r@[k].workgroups@[1] == split_y(w as int, max_dimensions as int)
                &&& r@[k].workgroups@[2] == split_z(w as int, max_dimensions as int)
            },
{
    let l = levels.len();
    let mut out: Vec<ScanDispatch> = Vec::new();
    let mut k: usize = 0;
    while k < l
        invariant
            k <= l,
            l == levels@.len(),
            l >= 1,
            levels_fit(levels@, max_dimensions),
            out@.len() == k,
            forall|j: int|
                0 <= j < k ==> {
                    let w = level_workgroups(scan_block(levels@, j));
                    &&& (#[trigger] out@[j]).stage == scan_stage(l as int, j)
                    &&& out@[j].workgroups@[0] == split_x(w as int, max_dimensions as int)
                    &&& out@[j].workgroups@[1] == split_y(w as int, max_dimensions as int)
                    &&& out@[j].workgroups@[2] == split_z(w as int, max_dimensions as int)
                },
        decreases l - k,
    {
        let w = level_workgroups_exec(levels[k]);
        assert(split_fits(level_workgroups(levels@[k as int]), max_dimensions));
        let stage = if k < l - 1 {
            ScanStage::BlockScanWriteSum(k)
        } else {
            ScanStage::BlockScanNoSum
        };
        out.push(ScanDispatch { stage, workgroups: split_dispatch_3d(w, max_dimensions) });
        k = k + 1;
    }
    let mut level: usize = l - 1;
    while level >= 1
        invariant
            level < l,
            l == levels@.len(),
            levels_fit(levels@, max_dimensions),
            out@.len() == 2 * l - 1 - level,
            forall|j: int|
                0 <= j < out@.len() ==> {
                    let w = level_workgroups(scan_block(levels@, j));
                    &&& (#[trigger] out@[j]).stage == scan_stage(l as int, j)
                    &&& out@[j].workgroups@[0] == split_x(w as int, max_dimensions as int)
                    &&& out@[j].workgroups@[1] == split_y(w as int, max_dimensions as int)
                    &&& out@[j].workgroups@[2] == split_z(w as int, max_dimensions as int)
                },
        decreases level,
    {
        let block_len = levels[level - 1];
        let w = level_workgroups_exec(block_len);
        assert(split_fits(level_workgroups(levels@[level - 1]), max_dimensions));
        out.push(
            ScanDispatch {
                stage: ScanStage::AddCarry(l - 1 - level),
                workgroups: split_dispatch_3d(w, max_dimensions),
            },
        );
        level = level - 1;
    }
    out
}


/// Whether `needed` workgroups split within `max_dim` per dimension.
pub fn dispatch_fits(needed: u32, max_dim: u32) -> (r: bool)
    ensures
        r == split_fits(needed, max_dim),
{
    if needed < 1 || max_dim < 1 {
        return false;
    }
    let x = if needed < max_dim {
        needed
    } else {
        max_dim
    };
    if needed > u32::MAX - x {
        return false;
    }
    let remaining_after_x = (needed + x - 1) / x;
    let y = if remaining_after_x < max_dim {
        remaining_after_x
    } else {
        max_dim
    };
    proof {
        lemma_ceil_div_bounds(needed as int, x as int);
        assert((x as u64) * (y as u64) <= 0xFFFF_FFFE_0000_0001u64) by (nonlinear_arith)
            requires
                x <= u32::MAX,
                y <= u32::MAX,
        ;
        assert((x as u64) * (y as u64) >= 1) by (nonlinear_arith)
            requires
                x >= 1,
                y >= 1,
        ;
    }
    let xy = (x as u64) * (y as u64);
    let z = ((needed as u64) + xy - 1) / xy;
    z <= max_dim as u64
}

/// Whether every level's dispatch splits within `max_dim` per dimension.
pub fn scan_levels_fit(levels: &Vec<u32>, max_dim: u32) -> (r: bool)
    ensures
        r == levels_fit(levels@, max_dim),
{
    let mut i: usize = 0;
    while i < levels.len()
        invariant
            i <= levels@.len(),
            forall|j: int| 0 <= j < i ==> split_fits(level_workgroups(#[trigger] levels@[j]), max_dim),
        decreases levels.len() - i,
    {
        if !dispatch_fits(level_workgroups_exec(levels[i]), max_dim) {
            return false;
        }
        i = i + 1;
    }
    true
}

/// The sizes that the parsing pipeline derives from the padded input
/// length.
#[derive(Debug, Clone, Copy, PartialEq, Eq)]
pub struct PipelineSizes {
    /// 32-bit words of input.
    pub word_count: usize,
    /// 32-bit words of a bitmap over the input words.
    pub output_word_count: usize,
    /// Bytes of an output buffer with one `u32` per input byte.
    pub output_size: u64,
    /// Bytes of a bitmap buffer.
    pub output_size_bitmap: u64,
    /// Workgroups of a pass with one thread per input word.
    pub number_of_workgroups: u32,
    /// Elements each radix-sort thread handles.
    pub radix_sort_elements_per_thread: u32,
    /// Workgroups of the radix sort.
    pub number_of_radix_sort_workgroups: u32,
}

/// `ceil(a / b)` in `u32`, as `u32::div_ceil` computes it.
pub open spec fn div_ceil_u32(a: u32, b: u32) -> u32 {
    (a / b + if a % b == 0 {
        0int
    } else {
        1int
    }) as u32
}

fn div_ceil_exec(a: u32, b: u32) -> (r: u32)
    requires
        b > 0,
    ensures
        r == div_ceil_u32(a, b),
{
    proof {
        vstd::arithmetic::div_mod::lemma_fundamental_div_mod(a as int, b as int);
        vstd::arithmetic::div_mod::lemma_mod_bound(a as int, b as int);
        if b == 1 {
            vstd::arithmetic::div_mod::lemma_div_by_self(1);
        }
        assert(a / b <= a) by {
            vstd::arithmetic::div_mod::lemma_div_is_ordered_by_denominator(a as int, 1, b as int);
            vstd::arithmetic::div_mod::lemma_div_basics(a as int);
        }
        assert(a % b != 0 ==> a / b < u32::MAX) by {
            if a % b != 0 && a / b == u32::MAX {
                assert(b * (a / b) + a % b >= u32::MAX + 1) by (nonlinear_arith)
                    requires
                        b >= 1,
                        a / b == u32::MAX,
                        a % b >= 1,
                ;
            }
        }
    }
    a / b + if a % b == 0 {
        0
    } else {
        1
    }
}

/// The sizes derived from an input of `padded_len` bytes: word and bitmap
/// counts, output buffer sizes in bytes, and workgroup counts (counts taken
/// as `u32`, as the dispatches take them).
pub fn pipeline_sizes(padded_len: usize) -> (r: PipelineSizes)
    requires
        padded_len * 4 <= usize::MAX,
    ensures
        r.word_count == padded_len / 4,
        r.output_word_count == (padded_len / 4 + 7) / 8,
        r.output_size == padded_len * 4,
        r.output_size_bitmap == r.output_word_count * 4,
        r.number_of_workgroups == div_ceil_u32(r.word_count as u32, WORKGROUP_SIZE),
        r.radix_sort_elements_per_thread == if div_ceil_u32(
            padded_len as u32,
            (RADIX_SORT_TARGET_SORT_WORKGROUPS * WORKGROUP_SIZE) as u32,
        ) < 1 {
            1
        } else {
            div_ceil_u32(
                padded_len as u32,
                (RADIX_SORT_TARGET_SORT_WORKGROUPS * WORKGROUP_SIZE) as u32,
            )
        },
        r.number_of_radix_sort_workgroups == if div_ceil_u32(
            padded_len as u32,
            (r.radix_sort_elements_per_thread * WORKGROUP_SIZE) as u32,
        ) < 1 {
            1
        } else {
            div_ceil_u32(
                padded_len as u32,
                (r.radix_sort_elements_per_thread * WORKGROUP_SIZE) as u32,
            )
        },
{
    let word_count = padded_len / 4;
    let output_word_count = (word_count + 7) / 8;
    let output_size = (padded_len * 4) as u64;
    let output_size_bitmap = (output_word_count * 4) as u64;
    let number_of_workgroups = div_ceil_exec(#[verifier::truncate] (word_count as u32), WORKGROUP_SIZE);
    let len32: u32 = #[verifier::truncate] (padded_len as u32);
    let ept0 = div_ceil_exec(len32, RADIX_SORT_TARGET_SORT_WORKGROUPS * WORKGROUP_SIZE);
    let radix_sort_elements_per_thread = if ept0 < 1 {
        1
    } else {
        ept0
    };
    proof {
        assert(ept0 <= 131072) by {
            vstd::arithmetic::div_mod::lemma_div_is_ordered(len32 as int, u32::MAX as int, 32768);
        }
    }
    let rw0 = div_ceil_exec(len32, radix_sort_elements_per_thread * WORKGROUP_SIZE);
    let number_of_radix_sort_workgroups = if rw0 < 1 {
        1
    } else {
        rw0
    };
    PipelineSizes {
        word_count,
        output_word_count,
        output_size,
        output_size_bitmap,
        number_of_workgroups,
        radix_sort_elements_per_thread,
        number_of_radix_sort_workgroups,
    }
}

/// Buffer sizes of the radix sort over a given number of workgroups.
#[derive(Debug, Clone, Copy, PartialEq, Eq)]
pub struct RadixSortSizes {
    /// Entries of the per-workgroup digit histogram.
    pub histogram_len: usize,
    /// Entries of the scatter scratch space.
    pub scratch_len: usize,
    /// The workgroup count, as a dispatch takes it.
    pub workgroups: u32,
}

/// The radix sort's buffer sizes: one histogram of every digit per
/// workgroup, and one scratch slot per element a workgroup handles.
pub fn radix_sort_sizes(number_of_workgroups: usize) -> (r: RadixSortSizes)
    requires
        number_of_workgroups * 1024 <= usize::MAX,
    ensures
        r.histogram_len == RADIX_BUCKETS * number_of_workgroups,
        r.scratch_len == (WORKGROUP_SIZE * RADIX_ELEMENTS_PER_THREAD) * number_of_workgroups,
        r.workgroups == number_of_workgroups as u32,
{
    let scratch_size = (WORKGROUP_SIZE * RADIX_ELEMENTS_PER_THREAD) as usize;
    RadixSortSizes {
        histogram_len: RADIX_BUCKETS * number_of_workgroups,
        scratch_len: scratch_size * number_of_workgroups,
        workgroups: #[verifier::truncate] (number_of_workgroups as u32),
    }
}


/// The scan levels start with the whole input, shrink level by level to
/// the block count of the level before, and end with a level that fits in
/// one tile.
pub proof fn lemma_level_sizes_shape(n: nat)
    ensures
        level_sizes(n).len() >= 1,
        level_sizes(n)[0] == n,
        level_sizes(n).last() <= TILE_SIZE,
        forall|i: int|
            0 <= i < level_sizes(n).len() - 1 ==> #[trigger] level_sizes(n)[i] > TILE_SIZE
                && level_sizes(n)[i + 1] == ceil_div(level_sizes(n)[i] as int, TILE_SIZE as int)
                && level_sizes(n)[i + 1] < level_sizes(n)[i],
    decreases n,
{
    if n > TILE_SIZE {
        let m = ceil_div(n as int, TILE_SIZE as int) as nat;
        lemma_ceil_div_shrinks(n);
        lemma_level_sizes_shape(m);
        let rest = level_sizes(m);
        assert(level_sizes(n) == seq![n] + rest);
        assert forall|i: int| 0 <= i < level_sizes(n).len() - 1 implies #[trigger] level_sizes(n)[i]
            > TILE_SIZE && level_sizes(n)[i + 1] == ceil_div(level_sizes(n)[i] as int, TILE_SIZE as int)
            && level_sizes(n)[i + 1] < level_sizes(n)[i] by {
            if i > 0 {
                assert(level_sizes(n)[i] == rest[i - 1]);
                assert(level_sizes(n)[i + 1] == rest[i]);
            }
        }
    }
}

/// With at least 8192 workgroups allowed per dimension (and not so many
/// that sums leave `u32`), every level of a scan over any input fits one
/// dispatch.
pub proof fn lemma_scan_levels_fit(n: nat, max_dim: u32)
    requires
        8192 <= max_dim <= 0xF000_0000u32,
    ensures
        levels_fit(level_counts(n), max_dim),
{
    let levels = level_counts(n);
    assert forall|i: int| 0 <= i < levels.len() implies split_fits(
        level_workgroups(#[trigger] levels[i]),
        max_dim,
    ) by {
        let w = level_workgroups(levels[i]);
        let c = levels[i];
        assert(w <= 0x400_0000) by {
            vstd::arithmetic::div_mod::lemma_div_is_ordered(c + 63, u32::MAX + 63, 64);
        }
        let x = split_x(w as int, max_dim as int);
        lemma_ceil_div_bounds(w as int, x);
        if w > max_dim {
            assert(ceil_div(w as int, x) <= 8192) by {
                vstd::arithmetic::div_mod::lemma_fundamental_div_mod(w + x - 1, x);
                vstd::arithmetic::div_mod::lemma_mod_bound(w + x - 1, x);
                let q = (w + x - 1) / x;
                assert(q <= 8192) by (nonlinear_arith)
                    requires
                        x * q + (w + x - 1) % x == w + x - 1,
                        (w + x - 1) % x >= 0,
                        w <= 0x400_0000,
                        x >= 8192,
                ;
            }
        } else {
            vstd::arithmetic::div_mod::lemma_div_by_self(w as int);
            assert(ceil_div(w as int, x) == 1) by {
                vstd::arithmetic::div_mod::lemma_fundamental_div_mod(w + w - 1, w as int);
                vstd::arithmetic::div_mod::lemma_mod_bound(w + w - 1, w as int);
                let q = (w + w - 1) / (w as int);
                assert(q == 1) by (nonlinear_arith)
                    requires
                        (w as int) * q + (w + w - 1) % (w as int) == w + w - 1,
                        0 <= (w + w - 1) % (w as int) < w,
                        w >= 1,
                ;
            }
        }
        let y = split_y(w as int, max_dim as int);
        assert(y == ceil_div(w as int, x));
        assert(x * y >= w) by (nonlinear_arith)
            requires
                y * x >= w,
        ;
        assert(x * y >= 1) by (nonlinear_arith)
            requires
                x >= 1,
                y >= 1,
        ;
        lemma_ceil_div_bounds(w as int, x * y);
        assert(split_z(w as int, max_dim as int) == 1) by {
            vstd::arithmetic::div_mod::lemma_fundamental_div_mod(w + x * y - 1, x * y);
            vstd::arithmetic::div_mod::lemma_mod_bound(w + x * y - 1, x * y);
            let q = (w + x * y - 1) / (x * y);
            let r = (w + x * y - 1) % (x * y);
            assert(q <= 1) by (nonlinear_arith)
                requires
                    (x * y) * q + r == w + x * y - 1,
                    r >= 0,
                    w <= x * y,
                    x * y >= 1,
            ;
        }
    }
}


/// A rounded-up quotient covers its dividend and is the least count that
/// does: `div_ceil_u32(a, b)` blocks of `b` hold `a` items, and one block
/// fewer would not.
pub proof fn lemma_div_ceil_u32_covers(a: u32, b: u32)
    requires
        b > 0,
    ensures
        div_ceil_u32(a, b) * b >= a,
        a > 0 ==> (div_ceil_u32(a, b) - 1) * b < a,
        a == 0 ==> div_ceil_u32(a, b) == 0,
{
    let q = a / b;
    let m = a % b;
    vstd::arithmetic::div_mod::lemma_fundamental_div_mod(a as int, b as int);
    vstd::arithmetic::div_mod::lemma_mod_bound(a as int, b as int);
    assert(q <= a) by {
        vstd::arithmetic::div_mod::lemma_div_is_ordered_by_denominator(a as int, 1, b as int);
        vstd::arithmetic::div_mod::lemma_div_basics(a as int);
    }
    if m != 0 {
        assert(q < u32::MAX) by {
            if q == u32::MAX {
                assert(b * q + m >= u32::MAX + 1) by (nonlinear_arith)
                    requires
                        b >= 1,
                        q == u32::MAX,
                        m >= 1,
                ;
            }
        }
        assert(div_ceil_u32(a, b) == q + 1);
        assert((q + 1) * b >= a) by (nonlinear_arith)
            requires
                a == b * q + m,
                m < b,
        ;
        assert(q * b < a) by (nonlinear_arith)
            requires
                a == b * q + m,
                m >= 1,
        ;
    } else {
        assert(div_ceil_u32(a, b) == q);
        assert(q * b == a) by (nonlinear_arith)
            requires
                a == b * q + m,
                m == 0,
        ;
        if a > 0 {
            assert((q - 1) * b < a) by (nonlinear_arith)
                requires
                    q * b == a,
                    b >= 1,
            ;
        } else {
            assert(q == 0) by (nonlinear_arith)
                requires
                    q * b == 0,
                    b >= 1,
                    q >= 0,
            ;
        }
    }
}

/// The workgroups of a pass with one thread per input word cover every
/// word, with no workgroup to spare: `number_of_workgroups` as
/// `pipeline_sizes` computes it, times the threads of a workgroup, reaches
/// the word count, and one workgroup fewer does not.
pub proof fn lemma_pipeline_workgroups_cover_words(word_count: u32)
    ensures
        div_ceil_u32(word_count, WORKGROUP_SIZE) * WORKGROUP_SIZE >= word_count,
        word_count > 0 ==> (div_ceil_u32(word_count, WORKGROUP_SIZE) - 1) * WORKGROUP_SIZE
            < word_count,
{
    lemma_div_ceil_u32_covers(word_count, WORKGROUP_SIZE);
}

/// Each level of the scan after the first holds one entry per block of the
/// level before: its blocks of `TILE_SIZE` cover that level, and one block
/// fewer would not. So each block-sum buffer has one `u32` for each block
/// of the level it sums, and no more.
pub proof fn lemma_block_buffers_hold_every_block_sum(n: nat, i: int)
    requires
        n <= usize::MAX,
        0 <= i < level_sizes(n).len() - 1,
    ensures
        level_sizes(n)[i + 1] * TILE_SIZE >= level_sizes(n)[i],
        (level_sizes(n)[i + 1] - 1) * TILE_SIZE < level_sizes(n)[i],
        block_buffer_bytes(n, i) == 4 * level_sizes(n)[i + 1],
        block_buffer_bytes(n, i) * 16 >= level_sizes(n)[i],
{
    lemma_level_sizes_shape(n);
    assert(level_sizes(n)[i] <= n) by {
        lemma_level_sizes_bounded(n, i);
    }
    let a = level_sizes(n)[i] as int;
    let c = level_sizes(n)[i + 1] as int;
    assert(c == (a + 63) / 64);
    vstd::arithmetic::div_mod::lemma_fundamental_div_mod(a + 63, 64);
    vstd::arithmetic::div_mod::lemma_mod_bound(a + 63, 64);
    assert(c * 64 >= a);
    assert((c - 1) * 64 < a);
    assert(c * 4 < 0x1_0000_0000_0000_0000);
}

/// Every level of a scan over `n` elements holds at most `n`.
proof fn lemma_level_sizes_bounded(n: nat, i: int)
    requires
        0 <= i < level_sizes(n).len(),
    ensures
        level_sizes(n)[i] <= n,
    decreases i,
{
    lemma_level_sizes_shape(n);
    if i > 0 {
        lemma_level_sizes_bounded(n, i - 1);
        assert(level_sizes(n)[i] < level_sizes(n)[i - 1]);
    }
}

/// The carry passes use each carry bind group once, from the top down: in a
/// scan over `levels`, the dispatches after the block scans are the carry
/// passes `0, 1, ...` in order, carry `j` (dispatch `levels.len() + j`)
/// adding into level `levels.len() - 2 - j`; and no two dispatches run the
/// same pass.
pub proof fn lemma_carry_passes_top_down(levels: Seq<u32>)
    requires
        1 <= levels.len() <= usize::MAX,
    ensures
        forall|k: int|
            levels.len() <= k < 2 * levels.len() - 1 ==> {
                &&& #[trigger] scan_stage(levels.len() as int, k) == ScanStage::AddCarry(
                    (k - levels.len()) as usize,
                )
                &&& scan_block(levels, k) == levels[levels.len() - 2 - (k - levels.len())]
            },
        forall|i: int|
            0 <= i < levels.len() - 1 ==> #[trigger] scan_stage(levels.len() as int, i)
                == ScanStage::BlockScanWriteSum(i as usize),
        scan_stage(levels.len() as int, levels.len() - 1) == ScanStage::BlockScanNoSum,
        forall|k1: int, k2: int|
            0 <= k1 < k2 < 2 * levels.len() - 1 ==> scan_stage(levels.len() as int, k1)
                != scan_stage(levels.len() as int, k2),
{
    let l = levels.len() as int;
    assert forall|k1: int, k2: int| 0 <= k1 < k2 < 2 * l - 1 implies scan_stage(l, k1)
        != scan_stage(l, k2) by {
        if k1 < l - 1 && k2 < l - 1 {
            assert((k1 as usize) != (k2 as usize));
        } else if k1 >= l && k2 >= l {
            assert(((k1 - l) as usize) != ((k2 - l) as usize));
        }
    }
}
} // verus!
