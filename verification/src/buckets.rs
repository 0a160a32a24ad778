//! The partitioner: a list of files is cut into `n` contiguous runs whose
//! lengths differ by at most one, the longer runs first.

use vstd::prelude::*;
use vstd::arithmetic::div_mod::*;

verus! {

/// How many of `total` files bucket `i` of `n` receives (`i` counts from 0).
pub open spec fn bucket_size(total: nat, n: nat, i: nat) -> nat {
    if i < total % n {
        total / n + 1
    } else {
        total / n
    }
}

/// The position in the file list at which bucket `i` of `n` begins.
pub open spec fn bucket_start(total: nat, n: nat, i: nat) -> nat {
    i * (total / n) + if i < total % n {
        i
    } else {
        total % n
    }
}

/// The sizes of the first `k` buckets, added up.
pub open spec fn sizes_sum(total: nat, n: nat, k: nat) -> nat
    decreases k,
{
    if k == 0 {
        0
    } else {
        sizes_sum(total, n, (k - 1) as nat) + bucket_size(total, n, (k - 1) as nat)
    }
}

/// `total` divided by `n`, rounded up.
pub open spec fn ceil_div(total: nat, n: nat) -> nat {
    (total + n - 1) as nat / n
}

/// The buckets of `items` when it is split `n` ways: one contiguous run each.
pub open spec fn split_evenly<T>(items: Seq<T>, n: nat) -> Seq<Seq<T>> {
    Seq::new(
        n,
        |i: int|
            items.subrange(
                bucket_start(items.len(), n, i as nat) as int,
                bucket_start(items.len(), n, (i + 1) as nat) as int,
            ),
    )
}

/// Each bucket begins where the one before it ends; the first begins at 0 and
/// the last ends at `total`.
pub proof fn lemma_bucket_bounds(total: nat, n: nat, i: nat)
    requires
        n >= 1,
        i < n,
    ensures
        bucket_start(total, n, 0) == 0,
        bucket_start(total, n, n) == total,
        bucket_start(total, n, i + 1) == bucket_start(total, n, i) + bucket_size(total, n, i),
        bucket_start(total, n, i + 1) <= total,
{
    let q = total / n;
    let r = total % n;
    lemma_mod_bound(total as int, n as int);
    lemma_fundamental_div_mod(total as int, n as int);
    assert((i + 1) * q == i * q + q) by (nonlinear_arith);
    assert(n * q == q * n) by (nonlinear_arith);
    assert(0 * q == 0) by (nonlinear_arith);
    assert((i + 1) * q <= n * q) by (nonlinear_arith)
        requires
            i + 1 <= n,
            q >= 0,
    ;
}

/// The ceiling of `total / n` is one more than the floor when `n` does not
/// divide `total`, and the same when it does.
pub proof fn lemma_ceil_div(total: nat, n: nat)
    requires
        n >= 1,
    ensures
        total % n == 0 ==> ceil_div(total, n) == total / n,
        total % n != 0 ==> ceil_div(total, n) == total / n + 1,
{
    let q = (total / n) as int;
    let r = (total % n) as int;
    lemma_mod_bound(total as int, n as int);
    lemma_fundamental_div_mod(total as int, n as int);
    if r == 0 {
        assert(total + n - 1 == q * n + (n - 1)) by (nonlinear_arith)
            requires
                total == n * q + r,
                r == 0,
        ;
        lemma_fundamental_div_mod_converse(total + n - 1, n as int, q, n - 1);
    } else {
        assert(total + n - 1 == (q + 1) * n + (r - 1)) by (nonlinear_arith)
            requires
                total == n * q + r,
        ;
        lemma_fundamental_div_mod_converse(total + n - 1, n as int, q + 1, r - 1);
    }
}

/// The sizes of the first `k` buckets add up to the start of bucket `k`.
pub proof fn lemma_sizes_sum(total: nat, n: nat, k: nat)
    requires
        n >= 1,
        k <= n,
    ensures
        sizes_sum(total, n, k) == bucket_start(total, n, k),
    decreases k,
{
    if k == 0 {
        lemma_bucket_bounds(total, n, 0);
    } else {
        lemma_sizes_sum(total, n, (k - 1) as nat);
        lemma_bucket_bounds(total, n, (k - 1) as nat);
    }
}

/// An even split is balanced: every bucket holds the floor or the ceiling of
/// `total / n` files, the buckets that hold more than the floor are exactly
/// the first `total % n`, and all sizes together make `total`.
pub proof fn lemma_split_is_balanced(total: nat, n: nat)
    requires
        n >= 1,
    ensures
        forall|i: nat|
            i < n ==> #[trigger] bucket_size(total, n, i) == total / n || bucket_size(total, n, i)
                == ceil_div(total, n),
        forall|i: nat| i < n ==> (#[trigger] bucket_size(total, n, i) > total / n <==> i < total % n),
        forall|i: nat|
            i < n && i < total % n ==> #[trigger] bucket_size(total, n, i) == ceil_div(total, n),
        sizes_sum(total, n, n) == total,
{
    lemma_ceil_div(total, n);
    lemma_sizes_sum(total, n, n);
    lemma_bucket_bounds(total, n, 0);
}

/// Every bucket of an even split has the size that `bucket_size` gives, and
/// the buckets, laid end to end, are the list that was split.
pub proof fn lemma_split_covers<T>(items: Seq<T>, n: nat)
    requires
        n >= 1,
    ensures
        split_evenly(items, n).len() == n,
        forall|i: int|
            0 <= i < n ==> (#[trigger] split_evenly(items, n)[i]).len() == bucket_size(
                items.len(),
                n,
                i as nat,
            ),
        split_evenly(items, n).flatten() == items,
{
    let parts = split_evenly(items, n);
    assert forall|i: int| 0 <= i < n implies (#[trigger] parts[i]).len() == bucket_size(
        items.len(),
        n,
        i as nat,
    ) by {
        lemma_bucket_bounds(items.len(), n, i as nat);
    }
    lemma_flatten_prefix(items, n, n);
    lemma_bucket_bounds(items.len(), n, 0);
    assert(parts.take(n as int) =~= parts);
    assert(items.take(items.len() as int) =~= items);
}

/// The first `k` buckets of an even split, laid end to end, are the files
/// before the start of bucket `k`.
proof fn lemma_flatten_prefix<T>(items: Seq<T>, n: nat, k: nat)
    requires
        n >= 1,
        k <= n,
    ensures
        split_evenly(items, n).take(k as int).flatten() == items.take(
            bucket_start(items.len(), n, k) as int,
        ),
    decreases k,
{
    let parts = split_evenly(items, n);
    if k == 0 {
        lemma_bucket_bounds(items.len(), n, 0);
        assert(parts.take(0).flatten() =~= Seq::<T>::empty());
    } else {
        let j = (k - 1) as nat;
        lemma_flatten_prefix(items, n, j);
        lemma_bucket_bounds(items.len(), n, j);
        assert(parts.take(k as int) =~= parts.take(j as int).push(parts[j as int]));
        parts.take(j as int).lemma_flatten_push(parts[j as int]);
        assert(items.take(bucket_start(items.len(), n, k) as int) =~= items.take(
            bucket_start(items.len(), n, j) as int,
        ) + parts[j as int]);
    }
}

/// The first `k` of `parts`, laid end to end, are as long as the start of
/// bucket `k` says, where each part has the size of its bucket.
proof fn lemma_joined_prefix_length<T>(parts: Seq<Seq<T>>, total: nat, k: nat)
    requires
        parts.len() >= 1,
        k <= parts.len(),
        forall|i: int|
            0 <= i < parts.len() ==> (#[trigger] parts[i]).len() == bucket_size(
                total,
                parts.len(),
                i as nat,
            ),
    ensures
        parts.take(k as int).flatten().len() == bucket_start(total, parts.len(), k),
    decreases k,
{
    let n = parts.len();
    if k == 0 {
        lemma_bucket_bounds(total, n, 0);
        assert(parts.take(0).flatten() =~= Seq::<T>::empty());
    } else {
        let j = (k - 1) as nat;
        lemma_joined_prefix_length(parts, total, j);
        lemma_bucket_bounds(total, n, j);
        assert(parts.take(k as int) =~= parts.take(j as int).push(parts[j as int]));
        parts.take(j as int).lemma_flatten_push(parts[j as int]);
    }
}

/// Splitting undoes joining: parts that have the sizes of an even split,
/// laid end to end and split evenly again, are the same parts.
pub proof fn lemma_split_of_joined<T>(parts: Seq<Seq<T>>, total: nat)
    requires
        parts.len() >= 1,
        forall|i: int|
            0 <= i < parts.len() ==> (#[trigger] parts[i]).len() == bucket_size(
                total,
                parts.len(),
                i as nat,
            ),
    ensures
        parts.flatten().len() == total,
        split_evenly(parts.flatten(), parts.len()) == parts,
{
    let n = parts.len();
    let joined = parts.flatten();
    lemma_joined_prefix_length(parts, total, n);
    lemma_bucket_bounds(total, n, 0);
    assert(parts.take(n as int) =~= parts);
    assert forall|i: int| 0 <= i < n implies #[trigger] split_evenly(joined, n)[i] == parts[i] by {
        lemma_joined_prefix_length(parts, total, i as nat);
        lemma_bucket_bounds(total, n, i as nat);
        let before = parts.take(i);
        let after = parts.skip(i + 1);
        assert(parts =~= before.push(parts[i]) + after);
        vstd::seq_lib::lemma_flatten_concat(before.push(parts[i]), after);
        before.lemma_flatten_push(parts[i]);
        assert(joined =~= before.flatten() + parts[i] + after.flatten());
        assert(joined.subrange(
            bucket_start(total, n, i as nat) as int,
            bucket_start(total, n, (i + 1) as nat) as int,
        ) =~= parts[i]);
    }
    assert(split_evenly(joined, n) =~= parts);
}

/// Splits `files` into `n` buckets as evenly as possible, keeping their
/// order: bucket `i` is the run of files from `bucket_start(.., i)` up to
/// `bucket_start(.., i + 1)`. With fewer files than buckets the trailing
/// buckets are empty; with `n == 0` there is no bucket at all.
pub fn partition(files: Vec<String>, n: usize) -> (buckets: Vec<Vec<String>>)
    ensures
        buckets.len() == n,
        forall|i: int| 0 <= i < n ==> (#[trigger] buckets[i])@ == split_evenly(files@, n as nat)[i],
{
    let total = files.len();
    let mut buckets: Vec<Vec<String>> = Vec::new();
    if n == 0 {
        return buckets;
    }
    let base = total / n;
    let rem = total % n;
    let mut start: usize = 0;
    let mut i: usize = 0;
    proof {
        lemma_bucket_bounds(total as nat, n as nat, 0);
    }
    while i < n
        invariant
            n >= 1,
            i <= n,
            total == files.len(),
            base == total / n,
            rem == total % n,
            buckets.len() == i,
            start == bucket_start(total as nat, n as nat, i as nat),
            forall|k: int|
                0 <= k < i ==> (#[trigger] buckets[k])@ == split_evenly(files@, n as nat)[k],
        decreases n - i,
    {
        proof {
            lemma_bucket_bounds(total as nat, n as nat, i as nat);
        }
        let take = if i < rem {
            base + 1
        } else {
            base
        };
        let mut bucket: Vec<String> = Vec::new();
        let mut j: usize = 0;
        while j < take
            invariant
                j <= take,
                start + take <= files.len(),
                bucket@ == files@.subrange(start as int, start + j),
            decreases take - j,
        {
            bucket.push(files[start + j].clone());
            j += 1;
            assert(files@.subrange(start as int, start + j) =~= files@.subrange(
                start as int,
                start + j - 1,
            ).push(files@[start + j - 1]));
        }
        buckets.push(bucket);
        start += take;
        i += 1;
    }
    buckets
}

} // verus!
