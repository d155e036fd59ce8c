use vstd::prelude::*;

pub mod parallel;

verus! {

/// The length a `width x height` buffer must have.
pub fn checked_target_len(width: usize, height: usize) -> (r: usize)
    requires
        width * height <= usize::MAX,
    ensures
        r == width * height,
{
    width * height
}

/// The first index in `indices` that is not below `vertex_count`, if any.
pub fn find_out_of_bounds_index(indices: &[usize], vertex_count: usize) -> (r: Option<usize>)
    ensures
        r is None <==> forall|i: int| 0 <= i < indices@.len() ==> #[trigger] indices@[i] < vertex_count,
        r matches Some(v) ==> exists|i: int|
            0 <= i < indices@.len() && indices@[i] == v && v >= vertex_count && forall|j: int|
                0 <= j < i ==> #[trigger] indices@[j] < vertex_count,
{
    let n = indices.len();
    let mut i: usize = 0;
    while i < n
        invariant
            n == indices@.len(),
            i <= n,
            forall|j: int| 0 <= j < i ==> #[trigger] indices@[j] < vertex_count,
        decreases n - i,
    {
        if indices[i] >= vertex_count {
            return Some(indices[i]);
        }
        i += 1;
    }
    None
}

/// Replaces the contents of `index_cache` with `indexed`, all of which must
/// name one of the `vertex_count` vertices.
pub fn cache_indices(index_cache: &mut Vec<usize>, indexed: &[usize], vertex_count: usize)
    requires
        forall|i: int| 0 <= i < indexed@.len() ==> #[trigger] indexed@[i] < vertex_count,
    ensures
        final(index_cache)@ == indexed@,
{
    index_cache.clear();
    let n = indexed.len();
    let mut i: usize = 0;
    while i < n
        invariant
            n == indexed@.len(),
            i <= n,
            index_cache@ == indexed@.subrange(0, i as int),
        decreases n - i,
    {
        index_cache.push(indexed[i]);
        i += 1;
        assert(index_cache@ =~= indexed@.subrange(0, i as int));
    }
    assert(indexed@.subrange(0, n as int) =~= indexed@);
}

/// Whether `indices` is exactly `0, 1, ..., vertex_count - 1`, in which case
/// a draw may shade the vertices in order without going through the indices.
pub fn indices_are_sequential(indices: &[usize], vertex_count: usize) -> (r: bool)
    ensures
        r == (indices@.len() == vertex_count && forall|i: int|
            0 <= i < indices@.len() ==> #[trigger] indices@[i] == i),
{
    if indices.len() != vertex_count {
        return false;
    }
    let n = indices.len();
    let mut i: usize = 0;
    while i < n
        invariant
            n == indices@.len(),
            i <= n,
            forall|j: int| 0 <= j < i ==> #[trigger] indices@[j] == j,
        decreases n - i,
    {
        if indices[i] != i {
            return false;
        }
        i += 1;
    }
    true
}

/// The position of pixel `(x, y)` in a row-major buffer `width` pixels wide.
pub fn fragment_index(x: usize, y: usize, width: usize) -> (r: usize)
    requires
        x + y * width <= usize::MAX,
    ensures
        r == x + y * width,
{
    x + y * width
}

} // verus!
