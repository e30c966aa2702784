use crate::keys::{lemma_sorted_concat, lemma_table_bytes_push, sorted, table_bytes};
use vstd::arithmetic::div_mod::{lemma_div_non_zero, lemma_fundamental_div_mod};
use vstd::bytes::u32_to_le_bytes;
use vstd::prelude::*;
use vstd::seq_lib::group_to_multiset_ensures;

verus! {

/// Number of distinct 32-bit keys: the key domain is `[0, domain_size())`.
pub open spec fn domain_size() -> int {
    0x1_0000_0000
}

/// Width of each worker's partition of the key domain, by integer division.
pub open spec fn partition_width(w: int) -> int {
    domain_size() / w
}

/// Smallest key of worker `t`'s partition.
pub open spec fn partition_lo(w: int, t: int) -> int {
    t * partition_width(w)
}

/// Largest key of worker `t`'s partition.  The last partition absorbs the
/// division remainder, up to the domain maximum.
pub open spec fn partition_hi(w: int, t: int) -> int {
    if t == w - 1 {
        domain_size() - 1
    } else {
        partition_lo(w, t + 1) - 1
    }
}

/// The partitions are non-empty, lie inside the key domain, and tile it in
/// ascending order of worker index with no gap and no overlap.
pub proof fn lemma_partition_facts(w: int, t: int)
    requires
        1 <= w <= domain_size(),
        0 <= t < w,
    ensures
        1 <= partition_width(w),
        0 <= partition_lo(w, t) <= partition_hi(w, t) < domain_size(),
        t > 0 ==> partition_hi(w, t - 1) + 1 == partition_lo(w, t),
{
    let n = domain_size();
    let width = partition_width(w);
    lemma_div_non_zero(n, w);
    lemma_fundamental_div_mod(n, w);
    assert(w * width <= n);
    assert(0 <= t * width) by (nonlinear_arith)
        requires
            0 <= t,
            0 <= width,
    ;
    assert((t + 1) * width == t * width + width) by (nonlinear_arith);
    assert(t + 1 <= w ==> (t + 1) * width <= w * width) by (nonlinear_arith)
        requires
            0 <= width,
    ;
    assert(w * width == (w - 1) * width + width) by (nonlinear_arith);
    if t > 0 {
        assert((t - 1) + 1 == t);
    }
}

/// Relies on rand::random_range over the inclusive range `lo..=hi`: a
/// uniformly drawn value inside the range.  Two calls with the same bounds
/// may of course differ; nothing beyond membership is promised.
#[verifier::external_body]
fn random_key_in(lo: u32, hi: u32) -> (r: u32)
    requires
        lo <= hi,
    ensures
        lo <= r <= hi,
{
    rand::random_range(lo..=hi)
}

/// Bounds of worker `idx`'s partition, inclusive on both ends.
pub fn partition_bounds(worker_count: usize, idx: usize) -> (r: (u32, u32))
    requires
        1 <= worker_count,
        worker_count as int <= domain_size(),
        idx < worker_count,
    ensures
        r.0 as int == partition_lo(worker_count as int, idx as int),
        r.1 as int == partition_hi(worker_count as int, idx as int),
        r.0 <= r.1,
{
    let w = worker_count as u64;
    let width: u64 = 0x1_0000_0000u64 / w;
    proof {
        lemma_partition_facts(w as int, idx as int);
        if idx as int + 1 < w as int {
            lemma_partition_facts(w as int, idx as int + 1);
        }
    }
    let lo64: u64 = (idx as u64) * width;
    let hi64: u64 = if idx == worker_count - 1 {
        0xFFFF_FFFFu64
    } else {
        (idx as u64 + 1) * width - 1
    };
    ((lo64 as u32), (hi64 as u32))
}

/// Sorts the given keys into a fresh buffer: the result is non-decreasing
/// and holds exactly the same keys, multiplicity included.
#[verifier::loop_isolation(false)]
pub fn sort_keys(v: &Vec<u32>) -> (out: Vec<u32>)
    ensures
        sorted(out@),
        out@.to_multiset() == v@.to_multiset(),
        out@.len() == v@.len(),
{
    broadcast use group_to_multiset_ensures;

    let mut out: Vec<u32> = Vec::with_capacity(v.len());
    let mut i: usize = 0;
    while i < v.len()
        invariant
            i <= v.len(),
            out@.len() == i,
            sorted(out@),
            out@.to_multiset() == v@.take(i as int).to_multiset(),
        decreases v.len() - i,
    {
        let x = v[i];
        let mut j: usize = 0;
        while j < out.len() && out[j] <= x
            invariant
                j <= out.len(),
                forall|q: int| 0 <= q < j ==> out@[q] <= x,
            decreases out.len() - j,
        {
            j = j + 1;
        }
        let ghost before = out@;
        out.insert(j, x);
        proof {
            vstd::seq_lib::to_multiset_insert(before, j as int, x);
            vstd::seq_lib::to_multiset_build(v@.take(i as int), x);
            assert(v@.take(i as int + 1) =~= v@.take(i as int).push(v@[i as int]));
            assert(v@.take(i as int + 1).to_multiset() == v@.take(i as int).to_multiset().insert(x));
            assert forall|a: int, b: int| 0 <= a <= b < out@.len() implies out@[a] <= out@[b] by {
                if a < j {
                    assert(out@[a] == before[a]);
                }
                if a > j {
                    assert(out@[a] == before[a - 1]);
                }
                if b < j {
                    assert(out@[b] == before[b]);
                }
                if b > j {
                    assert(out@[b] == before[b - 1]);
                }
                if a < j && b == j {
                    assert(before[a] <= x);
                }
                if a == j && b > j {
                    assert(j < before.len());
                    assert(x < before[j as int]);
                    assert(before[j as int] <= before[b - 1]);
                }
                if a < j && b > j {
                    assert(before[a] <= before[b - 1]);
                }
            }
        }
        i = i + 1;
    }
    proof {
        assert(v@.take(v@.len() as int) =~= v@);
    }
    out
}

/// Draws `quota` keys uniformly at random from the inclusive range
/// `[lo, hi]` and sorts them, as one worker of the loader does for its own
/// partition.  Every outcome has exactly `quota` keys, all inside the range,
/// in non-decreasing order.
pub fn generate_partition(lo: u32, hi: u32, quota: usize) -> (out: Vec<u32>)
    requires
        lo <= hi,
    ensures
        out@.len() == quota,
        sorted(out@),
        forall|i: int| 0 <= i < out@.len() ==> lo <= #[trigger] out@[i] <= hi,
{
    broadcast use group_to_multiset_ensures;

    let mut buf: Vec<u32> = Vec::with_capacity(quota);
    let mut c: usize = 0;
    while c < quota
        invariant
            lo <= hi,
            c <= quota,
            buf@.len() == c,
            forall|i: int| 0 <= i < buf@.len() ==> lo <= #[trigger] buf@[i] <= hi,
        decreases quota - c,
    {
        buf.push(random_key_in(lo, hi));
        c = c + 1;
    }
    let out = sort_keys(&buf);
    proof {
        assert forall|i: int| 0 <= i < out@.len() implies lo <= #[trigger] out@[i] <= hi by {
            assert(out@.contains(out@[i]));
            assert(out@.to_multiset().count(out@[i]) > 0);
            assert(buf@.to_multiset().count(out@[i]) > 0);
            assert(buf@.contains(out@[i]));
            let k = choose|k: int| 0 <= k < buf@.len() && buf@[k] == out@[i];
            assert(lo <= buf@[k] <= hi);
        }
    }
    out
}

/// Produces the keys of a whole table: the key domain is split into
/// `worker_count` partitions, each contributes `total_count / worker_count`
/// random keys of its own range, sorted, and the chunks are concatenated in
/// ascending partition order.  Because the partitions are disjoint and
/// ordered, the result is globally sorted with no merge step, and holds
/// exactly `worker_count * (total_count / worker_count)` keys.
pub fn generate_keys(total_count: usize, worker_count: usize) -> (out: Vec<u32>)
    requires
        1 <= worker_count,
        worker_count as int <= domain_size(),
    ensures
        out@.len() == worker_count * (total_count / worker_count),
        sorted(out@),
{
    let quota: usize = total_count / worker_count;
    proof {
        lemma_fundamental_div_mod(total_count as int, worker_count as int);
        assert(worker_count * quota <= total_count) by (nonlinear_arith)
            requires
                quota == total_count / worker_count,
                worker_count as int * quota as int + total_count as int % worker_count as int
                    == total_count as int,
                total_count as int % worker_count as int >= 0,
        ;
    }
    let mut out: Vec<u32> = Vec::with_capacity(worker_count * quota);
    let mut t: usize = 0;
    while t < worker_count
        invariant
            1 <= worker_count,
            worker_count as int <= domain_size(),
            t <= worker_count,
            worker_count * quota <= total_count,
            out@.len() == t * quota,
            sorted(out@),
            forall|i: int|
                0 <= i < out@.len() ==> #[trigger] out@[i] as int <= partition_hi(
                    worker_count as int,
                    t as int - 1,
                ),
        decreases worker_count - t,
    {
        let (lo, hi) = partition_bounds(worker_count, t);
        let mut chunk = generate_partition(lo, hi, quota);
        let ghost prefix = out@;
        proof {
            lemma_partition_facts(worker_count as int, t as int);
            lemma_sorted_concat(prefix, chunk@, lo as int);
            assert((t + 1) * quota == t * quota + quota) by (nonlinear_arith);
            assert(t as int * quota as int <= worker_count as int * quota as int)
                by (nonlinear_arith)
                requires
                    0 <= quota,
                    t as int <= worker_count as int,
            ;
        }
        out.append(&mut chunk);
        t = t + 1;
        proof {
            assert forall|i: int|
                0 <= i < out@.len() implies #[trigger] out@[i] as int <= partition_hi(
                worker_count as int,
                t as int - 1,
            ) by {
                if i < prefix.len() {
                    assert(out@[i] == prefix[i]);
                } else {
                    assert(out@[i] as int <= hi as int);
                }
            }
        }
    }
    out
}

/// Serialises keys into table-file bytes: each key contributes its four
/// little-endian bytes, in order.
pub fn encode_keys(keys: &Vec<u32>) -> (out: Vec<u8>)
    ensures
        out@ == table_bytes(keys@),
{
    let mut out: Vec<u8> = Vec::new();
    let mut i: usize = 0;
    while i < keys.len()
        invariant
            i <= keys.len(),
            out@ == table_bytes(keys@.take(i as int)),
        decreases keys.len() - i,
    {
        let mut b = u32_to_le_bytes(keys[i]);
        proof {
            lemma_table_bytes_push(keys@.take(i as int), keys@[i as int]);
            assert(keys@.take(i as int + 1) =~= keys@.take(i as int).push(keys@[i as int]));
        }
        out.append(&mut b);
        i = i + 1;
    }
    proof {
        assert(keys@.take(keys@.len() as int) =~= keys@);
    }
    out
}

} // verus!
