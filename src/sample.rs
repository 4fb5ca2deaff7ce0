use vstd::prelude::*;

verus! {

/// At most this many ranges are probed in one run.
pub const MAX_RANGES: usize = 200;

/// At most this many addresses of one range are probed in one run.
pub const MAX_TARGETS: usize = 10;

pub open spec fn min_of(a: int, b: int) -> int {
    if a <= b { a } else { b }
}

/// How many addresses the inclusive range `start..=end` holds; none when
/// `start > end`.
pub open spec fn range_size(start: u32, end: u32) -> int {
    if start <= end { end - start + 1 } else { 0 }
}

/// `r` lists elements of `src` taken from distinct positions.
pub open spec fn is_selection_from(r: Seq<(u32, u32)>, src: Seq<(u32, u32)>) -> bool {
    exists|idx: Seq<int>| #[trigger] selects_at(r, src, idx)
}

/// `idx` gives, for each element of `r`, a distinct position of `src` that holds it.
pub open spec fn selects_at(r: Seq<(u32, u32)>, src: Seq<(u32, u32)>, idx: Seq<int>) -> bool {
    &&& idx.len() == r.len()
    &&& idx.no_duplicates()
    &&& forall|i: int| 0 <= i < idx.len() ==> 0 <= #[trigger] idx[i] < src.len() && r[i] == src[idx[i]]
}

/// Relies on rand::seq::index::sample, drawing from rand::thread_rng: `amount`
/// distinct indices below `length`, in random order. It panics when
/// `amount > length`.
#[verifier::external_body]
fn sample_indices(length: usize, amount: usize) -> (r: Vec<usize>)
    requires
        amount <= length,
    ensures
        r@.len() == amount,
        r@.no_duplicates(),
        forall|i: int| 0 <= i < r@.len() ==> #[trigger] r@[i] < length,
{
    rand::seq::index::sample(&mut rand::thread_rng(), length, amount).into_vec()
}

/// A random choice of at most `MAX_RANGES` of the given ranges, each from a
/// distinct position of the input, in random order.
pub fn sample_ranges(ranges: &Vec<(u32, u32)>) -> (r: Vec<(u32, u32)>)
    ensures
        r@.len() == min_of(ranges@.len() as int, MAX_RANGES as int),
        is_selection_from(r@, ranges@),
{
    let n = ranges.len();
    let amount = if n < MAX_RANGES { n } else { MAX_RANGES };
    let picks = sample_indices(n, amount);
    let mut r: Vec<(u32, u32)> = Vec::new();
    let mut i: usize = 0;
    while i < picks.len()
        invariant
            i <= picks@.len(),
            picks@.len() == amount,
            picks@.no_duplicates(),
            forall|k: int| 0 <= k < picks@.len() ==> #[trigger] picks@[k] < n,
            n == ranges@.len(),
            r@.len() == i,
            forall|k: int| 0 <= k < i ==> #[trigger] r@[k] == ranges@[picks@[k] as int],
        decreases picks@.len() - i,
    {
        r.push(ranges[picks[i]]);
        i = i + 1;
    }
    let ghost idx = picks@.map_values(|x: usize| x as int);
    assert(selects_at(r@, ranges@, idx)) by {
        assert forall|a: int, b: int| 0 <= a < idx.len() && 0 <= b < idx.len() && a != b implies idx[a] != idx[b] by {
            assert(picks@[a] != picks@[b]);
        }
    }
    r
}

/// A random choice of at most `MAX_TARGETS` distinct addresses of the
/// inclusive range `start..=end`; none when `start > end`.
pub fn sample_targets(start: u32, end: u32) -> (r: Vec<u32>)
    ensures
        r@.len() == min_of(range_size(start, end), MAX_TARGETS as int),
        r@.no_duplicates(),
        forall|i: int| 0 <= i < r@.len() ==> start <= #[trigger] r@[i] <= end,
{
    let size: u64 = if start <= end { (end - start) as u64 + 1 } else { 0 };
    let length: usize = if size <= usize::MAX as u64 { size as usize } else { usize::MAX };
    let amount: usize = if size < MAX_TARGETS as u64 { size as usize } else { MAX_TARGETS };
    let picks = sample_indices(length, amount);
    let mut r: Vec<u32> = Vec::new();
    let mut i: usize = 0;
    while i < picks.len()
        invariant
            i <= picks@.len(),
            picks@.len() == amount,
            picks@.no_duplicates(),
            forall|k: int| 0 <= k < picks@.len() ==> #[trigger] picks@[k] < length,
            length <= size,
            size == range_size(start, end),
            r@.len() == i,
            forall|k: int| 0 <= k < i ==> #[trigger] r@[k] == start + picks@[k],
        decreases picks@.len() - i,
    {
        let a = start + picks[i] as u32;
        r.push(a);
        i = i + 1;
    }
    assert forall|a: int, b: int| 0 <= a < r@.len() && 0 <= b < r@.len() && a != b implies r@[a] != r@[b] by {
        assert(picks@[a] != picks@[b]);
    }
    r
}

} // verus!
