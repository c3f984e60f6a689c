//! Cumulative scaffold offset tables.
use vstd::prelude::*;

verus! {

/// Sum of the first `k` lengths.
pub open spec fn sum_prefix(lens: Seq<i64>, k: int) -> int
    decreases k,
{
    if k <= 0 || lens.len() == 0 {
        0
    } else if k > lens.len() {
        sum_prefix(lens, lens.len() as int)
    } else {
        sum_prefix(lens, k - 1) + lens[k - 1]
    }
}

/// Every length is non-negative.
pub open spec fn lengths_ok(lens: Seq<i64>) -> bool {
    forall|i: int| 0 <= i < lens.len() ==> lens[i] >= 0
}

/// A well-formed offset table: starts at zero and never decreases.
pub open spec fn table_ok(b: Seq<i64>) -> bool {
    &&& b.len() >= 1
    &&& b[0] == 0
    &&& forall|i: int, j: int| 0 <= i <= j < b.len() ==> b[i] <= b[j]
}

/// The sequence that owns genome-wide coordinate `c`: the last sequence
/// whose start is at or before `c`.
pub open spec fn owns(b: Seq<i64>, i: int, c: int) -> bool {
    &&& 0 <= i < b.len() - 1
    &&& b[i] <= c
    &&& (i == b.len() - 2 || c < b[i + 1])
}

pub proof fn lemma_sum_prefix_step(lens: Seq<i64>, k: int)
    requires
        0 <= k < lens.len(),
    ensures
        sum_prefix(lens, k + 1) == sum_prefix(lens, k) + lens[k],
{
}

pub proof fn lemma_sum_prefix_monotone(lens: Seq<i64>, i: int, j: int)
    requires
        lengths_ok(lens),
        0 <= i <= j <= lens.len(),
    ensures
        0 <= sum_prefix(lens, i) <= sum_prefix(lens, j),
    decreases j,
{
    if j > 0 {
        lemma_sum_prefix_step(lens, j - 1);
        if i < j {
            lemma_sum_prefix_monotone(lens, i, j - 1);
        } else {
            lemma_sum_prefix_monotone(lens, j - 1, j - 1);
        }
    }
}

/// Builds the offset table by one left-to-right prefix sum; `None` when
/// the total length does not fit in an `i64`.
pub fn scaffold_offsets(lens: &Vec<i64>) -> (r: Option<Vec<i64>>)
    requires
        lengths_ok(lens@),
    ensures
        r is None <==> sum_prefix(lens@, lens@.len() as int) > i64::MAX,
        r matches Some(b) ==> b@.len() == lens@.len() + 1 && forall|i: int|
            0 <= i <= lens@.len() ==> b@[i] == sum_prefix(lens@, i),
{
    let mut b: Vec<i64> = Vec::new();
    let mut acc: i64 = 0;
    b.push(0);
    let mut i: usize = 0;
    while i < lens.len()
        invariant
            lengths_ok(lens@),
            0 <= i <= lens@.len(),
            b@.len() == i + 1,
            acc == sum_prefix(lens@, i as int),
            acc >= 0,
            forall|k: int| 0 <= k <= i ==> b@[k] == sum_prefix(lens@, k),
        decreases lens@.len() - i,
    {
        proof {
            lemma_sum_prefix_step(lens@, i as int);
            lemma_sum_prefix_monotone(lens@, i as int, i as int);
        }
        if lens[i] > i64::MAX - acc {
            proof {
                lemma_sum_prefix_monotone(lens@, i as int + 1, lens@.len() as int);
            }
            return None;
        }
        acc = acc + lens[i];
        b.push(acc);
        i = i + 1;
    }
    Some(b)
}

/// A table built from non-negative lengths is well formed.
pub proof fn lemma_offsets_table_ok(lens: Seq<i64>, b: Seq<i64>)
    requires
        lengths_ok(lens),
        b.len() == lens.len() + 1,
        forall|i: int| 0 <= i <= lens.len() ==> b[i] == sum_prefix(lens, i),
    ensures
        table_ok(b),
{
    assert forall|i: int, j: int| 0 <= i <= j < b.len() implies b[i] <= b[j] by {
        lemma_sum_prefix_monotone(lens, i, j);
    }
}

/// The table never decreases.
pub open spec fn nondecreasing(b: Seq<i64>) -> bool {
    forall|i: int, j: int| 0 <= i <= j < b.len() ==> b[i] <= b[j]
}

/// Finds the sequence that owns coordinate `coord` by binary search over
/// the offset table. Where no sequence owns it (a coordinate before the
/// first start), the answer is the last sequence; a table with fewer than
/// two entries gives 0.
pub fn find_sequence_index(boundaries: &Vec<i64>, coord: i64) -> (r: usize)
    requires
        nondecreasing(boundaries@),
    ensures
        boundaries@.len() < 2 ==> r == 0,
        boundaries@.len() >= 2 ==> r + 1 < boundaries@.len(),
        boundaries@.len() >= 2 && coord < boundaries@[0] ==> r == boundaries@.len() - 2,
        boundaries@.len() >= 2 && boundaries@[0] <= coord ==> owns(
            boundaries@,
            r as int,
            coord as int,
        ),
{
    if boundaries.len() < 2 {
        return 0;
    }
    let n = boundaries.len() - 1;
    if coord < boundaries[0] {
        return n - 1;
    }
    let mut lo: usize = 0;
    let mut hi: usize = n;
    while lo + 1 < hi
        invariant
            nondecreasing(boundaries@),
            n == boundaries@.len() - 1,
            0 <= lo < hi <= n,
            boundaries@[lo as int] <= coord,
            hi == n || coord < boundaries@[hi as int],
        decreases hi - lo,
    {
        let mid = lo + (hi - lo) / 2;
        if boundaries[mid] <= coord {
            lo = mid;
        } else {
            hi = mid;
        }
    }
    lo
}

/// At most one sequence owns a coordinate.
pub proof fn lemma_owner_unique(b: Seq<i64>, i: int, j: int, c: int)
    requires
        table_ok(b),
        owns(b, i, c),
        owns(b, j, c),
    ensures
        i == j,
{
    if i < j {
        assert(b[i + 1] <= b[j]);
    } else if j < i {
        assert(b[j + 1] <= b[i]);
    }
}

proof fn lemma_owner_below(b: Seq<i64>, c: int, j: int)
    requires
        table_ok(b),
        1 <= j < b.len(),
        b[0] <= c < b[j],
    ensures
        exists|i: int| 0 <= i < j && #[trigger] b[i] <= c < b[i + 1],
    decreases j,
{
    if b[j - 1] <= c {
        assert(b[j - 1] <= c < b[j]);
    } else {
        lemma_owner_below(b, c, j - 1);
        let i = choose|i: int| 0 <= i < j - 1 && #[trigger] b[i] <= c < b[i + 1];
        assert(0 <= i < j && b[i] <= c < b[i + 1]);
    }
}

/// Every coordinate from zero on has an owner.
pub proof fn lemma_owner_exists(b: Seq<i64>, c: int)
    requires
        table_ok(b),
        b.len() >= 2,
        0 <= c,
    ensures
        exists|i: int| owns(b, i, c),
{
    let n = b.len() - 1;
    if b[n - 1] <= c {
        assert(owns(b, n - 1, c));
    } else {
        lemma_owner_below(b, c, n - 1);
        let i = choose|i: int| 0 <= i < n - 1 && #[trigger] b[i] <= c < b[i + 1];
        assert(owns(b, i, c));
    }
}

/// An interval inside sequence `id` also lies inside the sequence that
/// owns its start.
pub proof fn lemma_interval_owner(b: Seq<i64>, id: int, lo: int, hi: int)
    requires
        table_ok(b),
        0 <= id < b.len() - 1,
        b[id] <= lo <= hi <= b[id + 1],
    ensures
        exists|o: int| owns(b, o, lo) && hi <= b[o + 1],
{
    lemma_owner_exists(b, lo);
    let o = choose|o: int| owns(b, o, lo);
    if o < id {
        assert(b[o + 1] <= b[id]);
    } else if o > id {
        assert(b[id + 1] <= b[o]);
        assert(b[o] <= b[o + 1]);
    }
    assert(owns(b, o, lo) && hi <= b[o + 1]);
}

} // verus!
