use core::marker::PhantomData;
use vstd::prelude::*;

verus! {

/// A typed marker that selects how a vertex stream is grouped into
/// primitives.
#[derive(Debug, PartialEq, Eq)]
pub struct PrimitiveTopology<T = ()> {
    _marker: PhantomData<T>,
}

impl<T> Clone for PrimitiveTopology<T> {
    fn clone(&self) -> (r: Self)
        ensures
            r == *self,
    {
        PrimitiveTopology { _marker: PhantomData }
    }
}

impl<T> Copy for PrimitiveTopology<T> {
}

impl PrimitiveTopology {
    pub fn point_list() -> PrimitiveTopology<PointList> {
        PrimitiveTopology { _marker: PhantomData }
    }

    pub fn line_list() -> PrimitiveTopology<LineList> {
        PrimitiveTopology { _marker: PhantomData }
    }

    pub fn line_strip() -> PrimitiveTopology<LineStrip> {
        PrimitiveTopology { _marker: PhantomData }
    }

    pub fn line_loop() -> PrimitiveTopology<LineLoop> {
        PrimitiveTopology { _marker: PhantomData }
    }

    pub fn triangle_list() -> PrimitiveTopology<TriangleList> {
        PrimitiveTopology { _marker: PhantomData }
    }

    pub fn triangle_strip() -> PrimitiveTopology<TriangleStrip> {
        PrimitiveTopology { _marker: PhantomData }
    }

    pub fn triangle_fan() -> PrimitiveTopology<TriangleFan> {
        PrimitiveTopology { _marker: PhantomData }
    }
}

/// Every vertex is a point.
pub struct PointList;

/// Vertices `2k, 2k + 1` form line `k`; an odd last vertex is ignored.
pub struct LineList;

/// Consecutive vertices form connected lines.
pub struct LineStrip;

/// A line strip closed by a line from the last vertex back to the first.
pub struct LineLoop;

/// Vertices `3k, 3k + 1, 3k + 2` form triangle `k`; a trailing partial
/// triangle is ignored.
pub struct TriangleList;

/// Every three consecutive vertices form a triangle.
pub struct TriangleStrip;

/// The first vertex and each later pair of consecutive vertices form a
/// triangle.
pub struct TriangleFan;

/// The vertices named by the positions `pattern`, taken from `s`.
pub open spec fn gather<V>(s: Seq<V>, pattern: Seq<int>) -> Seq<V> {
    Seq::new(pattern.len(), |i: int| s[pattern[i]])
}

/// The vertex positions that an index buffer `indices` names at the index
/// buffer positions `pattern`.
pub open spec fn through_indices(indices: Seq<usize>, pattern: Seq<int>) -> Seq<int> {
    Seq::new(pattern.len(), |i: int| indices[pattern[i]] as int)
}

/// Every index buffer position that `pattern` reads names a vertex below
/// `vertex_count`.
pub open spec fn read_indices_in_range(
    indices: Seq<usize>,
    pattern: Seq<Seq<int>>,
    vertex_count: nat,
) -> bool {
    forall|k: int, i: int|
        0 <= k < pattern.len() && 0 <= i < pattern[k].len() ==> indices[#[trigger] pattern[k][i]]
            < vertex_count
}

/// The number `n - k`, or 0 when `n < k`.
pub open spec fn minus_or_zero(n: nat, k: nat) -> nat {
    if n >= k { (n - k) as nat } else { 0 }
}

/// Primitive assembly: how a topology groups a stream of vertices (or an
/// index buffer into it) into primitives.
///
/// `pattern(n)` lists, for a stream of `n` vertices, the stream positions of
/// the corners of each primitive, in the order the primitives are produced;
/// `corners(p)` lists the vertices of a primitive.
pub trait Primitive<V: Copy> {
    type Item: Copy;

    spec fn pattern(n: nat) -> Seq<Seq<int>>;

    spec fn corners(p: Self::Item) -> Seq<V>;

    /// Groups `vertices` into primitives.
    fn assemble(vertices: &[V]) -> (r: Vec<Self::Item>)
        ensures
            r@.len() == Self::pattern(vertices@.len()).len(),
            forall|k: int|
                0 <= k < r@.len() ==> Self::corners(#[trigger] r@[k]) == gather(
                    vertices@,
                    Self::pattern(vertices@.len())[k],
                ),
    ;

    /// Groups the vertices named by `indices` into primitives: the result is
    /// what `assemble` gives for the vertex stream `indices` selects. Only the
    /// indices that some primitive reads must name a vertex.
    fn assemble_indexed(vertices: &[V], indices: &[usize]) -> (r: Vec<Self::Item>)
        requires
            read_indices_in_range(indices@, Self::pattern(indices@.len()), vertices@.len()),
        ensures
            r@.len() == Self::pattern(indices@.len()).len(),
            forall|k: int|
                0 <= k < r@.len() ==> Self::corners(#[trigger] r@[k]) == gather(
                    vertices@,
                    through_indices(indices@, Self::pattern(indices@.len())[k]),
                ),
    ;

    /// The number of primitives produced from `index_count` indices (or
    /// vertices).
    fn primitive_count(index_count: usize) -> (r: usize)
        ensures
            r == Self::pattern(index_count as nat).len(),
    ;

    /// Assembly only refers to vertices that exist: every corner position of
    /// every primitive of a stream of `n` vertices is below `n`.
    proof fn law_corners_in_range(n: nat)
        ensures
            forall|k: int, i: int|
                0 <= k < Self::pattern(n).len() && 0 <= i < Self::pattern(n)[k].len() ==> 0
                    <= #[trigger] Self::pattern(n)[k][i] < n,
    ;
}

/// Each vertex on its own.
pub open spec fn point_pattern(n: nat) -> Seq<Seq<int>> {
    Seq::new(n, |k: int| seq![k])
}

impl<V: Copy> Primitive<V> for PointList {
    type Item = V;

    open spec fn pattern(n: nat) -> Seq<Seq<int>> {
        point_pattern(n)
    }

    open spec fn corners(p: V) -> Seq<V> {
        seq![p]
    }

    fn assemble(vertices: &[V]) -> (r: Vec<V>) {
        let n = vertices.len();
        let mut r: Vec<V> = Vec::new();
        let mut k: usize = 0;
        while k < n
            invariant
                n == vertices@.len(),
                k <= n,
                r@.len() == k,
                forall|j: int|
                    0 <= j < k ==> r@[j] == vertices@[j],
            decreases n - k,
        {
            r.push(vertices[k]);
            k += 1;
        }
        proof {
            assert forall|j: int| 0 <= j < r@.len() implies Self::corners(#[trigger] r@[j]) == gather(
                vertices@,
                point_pattern(n as nat)[j],
            ) by {
                assert(Self::corners(r@[j]) =~= gather(vertices@, point_pattern(n as nat)[j]));
            }
        }
        r
    }

    fn assemble_indexed(vertices: &[V], indices: &[usize]) -> (r: Vec<V>) {
        let n = indices.len();
        let mut r: Vec<V> = Vec::new();
        let mut k: usize = 0;
        while k < n
            invariant
                n == indices@.len(),
                read_indices_in_range(indices@, point_pattern(n as nat), vertices@.len()),
                k <= n,
                r@.len() == k,
                forall|j: int|
                    0 <= j < k ==> r@[j] == vertices@[indices@[j] as int],
            decreases n - k,
        {
            proof {
                assert(point_pattern(n as nat)[k as int][0] == k);
            }
            r.push(vertices[indices[k]]);
            k += 1;
        }
        proof {
            assert forall|j: int| 0 <= j < r@.len() implies Self::corners(#[trigger] r@[j]) == gather(
                vertices@,
                through_indices(indices@, point_pattern(n as nat)[j]),
            ) by {
                assert(Self::corners(r@[j]) =~= gather(
                    vertices@,
                    through_indices(indices@, point_pattern(n as nat)[j]),
                ));
            }
        }
        r
    }

    proof fn law_corners_in_range(n: nat) {
        assert forall|k: int, i: int|
            0 <= k < point_pattern(n).len() && 0 <= i < point_pattern(n)[k].len() implies 0
                <= #[trigger] point_pattern(n)[k][i] < n by {
        }
    }

    fn primitive_count(index_count: usize) -> (r: usize) {
        index_count
    }
}

/// Pairs of consecutive positions, without overlap.
pub open spec fn line_list_pattern(n: nat) -> Seq<Seq<int>> {
    Seq::new(n / 2, |k: int| seq![2 * k, 2 * k + 1])
}

impl<V: Copy> Primitive<V> for LineList {
    type Item = [V; 2];

    open spec fn pattern(n: nat) -> Seq<Seq<int>> {
        line_list_pattern(n)
    }

    open spec fn corners(p: [V; 2]) -> Seq<V> {
        seq![p[0], p[1]]
    }

    fn assemble(vertices: &[V]) -> (r: Vec<[V; 2]>) {
        let n = vertices.len();
        let mut r: Vec<[V; 2]> = Vec::new();
        let count = n / 2;
        let mut k: usize = 0;
        while k < count
            invariant
                n == vertices@.len(),
                count == line_list_pattern(n as nat).len(),
                k <= count,
                r@.len() == k,
                forall|j: int| 0 <= j < k ==> <Self as Primitive<V>>::corners(#[trigger] r@[j]) == gather(vertices@, line_list_pattern(n as nat)[j]),
            decreases count - k,
        {
            r.push([vertices[2 * k], vertices[2 * k + 1]]);
            proof {
                assert(<Self as Primitive<V>>::corners(r@[k as int]) =~= gather(vertices@, line_list_pattern(n as nat)[k as int]));
            }
            k += 1;
        }
        r
    }

    fn assemble_indexed(vertices: &[V], indices: &[usize]) -> (r: Vec<[V; 2]>) {
        let n = indices.len();
        let mut r: Vec<[V; 2]> = Vec::new();
        let count = n / 2;
        let mut k: usize = 0;
        while k < count
            invariant
                n == indices@.len(),
                read_indices_in_range(indices@, line_list_pattern(n as nat), vertices@.len()),
                count == line_list_pattern(n as nat).len(),
                k <= count,
                r@.len() == k,
                forall|j: int| 0 <= j < k ==> <Self as Primitive<V>>::corners(#[trigger] r@[j]) == gather(vertices@, through_indices(indices@, line_list_pattern(n as nat)[j])),
            decreases count - k,
        {
            proof {
                assert(line_list_pattern(n as nat)[k as int][0] == 2 * k);
                assert(line_list_pattern(n as nat)[k as int][1] == 2 * k + 1);
            }
            r.push([vertices[indices[2 * k]], vertices[indices[2 * k + 1]]]);
            proof {
                assert(<Self as Primitive<V>>::corners(r@[k as int]) =~= gather(vertices@, through_indices(indices@, line_list_pattern(n as nat)[k as int])));
            }
            k += 1;
        }
        r
    }

    proof fn law_corners_in_range(n: nat) {
        assert forall|k: int, i: int|
            0 <= k < line_list_pattern(n).len() && 0 <= i < line_list_pattern(n)[k].len() implies 0
                <= #[trigger] line_list_pattern(n)[k][i] < n by {
        }
    }

    fn primitive_count(index_count: usize) -> (r: usize) {
        index_count / 2
    }
}

/// Each position with the next one.
pub open spec fn line_strip_pattern(n: nat) -> Seq<Seq<int>> {
    Seq::new(minus_or_zero(n, 1), |k: int| seq![k, k + 1])
}

impl<V: Copy> Primitive<V> for LineStrip {
    type Item = [V; 2];

    open spec fn pattern(n: nat) -> Seq<Seq<int>> {
        line_strip_pattern(n)
    }

    open spec fn corners(p: [V; 2]) -> Seq<V> {
        seq![p[0], p[1]]
    }

    fn assemble(vertices: &[V]) -> (r: Vec<[V; 2]>) {
        let n = vertices.len();
        let mut r: Vec<[V; 2]> = Vec::new();
        let count = n.saturating_sub(1);
        let mut k: usize = 0;
        while k < count
            invariant
                n == vertices@.len(),
                count == line_strip_pattern(n as nat).len(),
                k <= count,
                r@.len() == k,
                forall|j: int| 0 <= j < k ==> <Self as Primitive<V>>::corners(#[trigger] r@[j]) == gather(vertices@, line_strip_pattern(n as nat)[j]),
            decreases count - k,
        {
            r.push([vertices[k], vertices[k + 1]]);
            proof {
                assert(<Self as Primitive<V>>::corners(r@[k as int]) =~= gather(vertices@, line_strip_pattern(n as nat)[k as int]));
            }
            k += 1;
        }
        r
    }

    fn assemble_indexed(vertices: &[V], indices: &[usize]) -> (r: Vec<[V; 2]>) {
        let n = indices.len();
        let mut r: Vec<[V; 2]> = Vec::new();
        let count = n.saturating_sub(1);
        let mut k: usize = 0;
        while k < count
            invariant
                n == indices@.len(),
                read_indices_in_range(indices@, line_strip_pattern(n as nat), vertices@.len()),
                count == line_strip_pattern(n as nat).len(),
                k <= count,
                r@.len() == k,
                forall|j: int| 0 <= j < k ==> <Self as Primitive<V>>::corners(#[trigger] r@[j]) == gather(vertices@, through_indices(indices@, line_strip_pattern(n as nat)[j])),
            decreases count - k,
        {
            proof {
                assert(line_strip_pattern(n as nat)[k as int][0] == k);
                assert(line_strip_pattern(n as nat)[k as int][1] == k + 1);
            }
            r.push([vertices[indices[k]], vertices[indices[k + 1]]]);
            proof {
                assert(<Self as Primitive<V>>::corners(r@[k as int]) =~= gather(vertices@, through_indices(indices@, line_strip_pattern(n as nat)[k as int])));
            }
            k += 1;
        }
        r
    }

    proof fn law_corners_in_range(n: nat) {
        assert forall|k: int, i: int|
            0 <= k < line_strip_pattern(n).len() && 0 <= i < line_strip_pattern(n)[k].len() implies 0
                <= #[trigger] line_strip_pattern(n)[k][i] < n by {
        }
    }

    fn primitive_count(index_count: usize) -> (r: usize) {
        index_count.saturating_sub(1)
    }
}

/// Each position with the next one, then the last with the first.
pub open spec fn line_loop_pattern(n: nat) -> Seq<Seq<int>> {
    if n == 0 { Seq::empty() } else { Seq::new((n - 1) as nat, |k: int| seq![k, k + 1]).push(seq![n - 1, 0]) }
}

impl<V: Copy> Primitive<V> for LineLoop {
    type Item = [V; 2];

    open spec fn pattern(n: nat) -> Seq<Seq<int>> {
        line_loop_pattern(n)
    }

    open spec fn corners(p: [V; 2]) -> Seq<V> {
        seq![p[0], p[1]]
    }

    fn assemble(vertices: &[V]) -> (r: Vec<[V; 2]>) {
        let n = vertices.len();
        let mut r: Vec<[V; 2]> = Vec::new();
        if n == 0 {
            return r;
        }
        let count = n - 1;
        let mut k: usize = 0;
        while k < count
            invariant
                n == vertices@.len(),
                count == line_loop_pattern(n as nat).len() - 1,
                k <= count,
                r@.len() == k,
                forall|j: int| 0 <= j < k ==> <Self as Primitive<V>>::corners(#[trigger] r@[j]) == gather(vertices@, line_loop_pattern(n as nat)[j]),
            decreases count - k,
        {
            r.push([vertices[k], vertices[k + 1]]);
            proof {
                assert(<Self as Primitive<V>>::corners(r@[k as int]) =~= gather(vertices@, line_loop_pattern(n as nat)[k as int]));
            }
            k += 1;
        }
        r.push([vertices[n - 1], vertices[0]]);
        proof {
            assert(<Self as Primitive<V>>::corners(r@[k as int]) =~= gather(vertices@, line_loop_pattern(n as nat)[k as int]));
        }
        r
    }

    fn assemble_indexed(vertices: &[V], indices: &[usize]) -> (r: Vec<[V; 2]>) {
        let n = indices.len();
        let mut r: Vec<[V; 2]> = Vec::new();
        if n == 0 {
            return r;
        }
        let count = n - 1;
        let mut k: usize = 0;
        while k < count
            invariant
                n == indices@.len(),
                read_indices_in_range(indices@, line_loop_pattern(n as nat), vertices@.len()),
                count == line_loop_pattern(n as nat).len() - 1,
                k <= count,
                r@.len() == k,
                forall|j: int| 0 <= j < k ==> <Self as Primitive<V>>::corners(#[trigger] r@[j]) == gather(vertices@, through_indices(indices@, line_loop_pattern(n as nat)[j])),
            decreases count - k,
        {
            proof {
                assert(line_loop_pattern(n as nat)[k as int][0] == k);
                assert(line_loop_pattern(n as nat)[k as int][1] == k + 1);
            }
            r.push([vertices[indices[k]], vertices[indices[k + 1]]]);
            proof {
                assert(<Self as Primitive<V>>::corners(r@[k as int]) =~= gather(vertices@, through_indices(indices@, line_loop_pattern(n as nat)[k as int])));
            }
            k += 1;
        }
        proof {
            assert(line_loop_pattern(n as nat)[count as int][0] == n - 1);
            assert(line_loop_pattern(n as nat)[count as int][1] == 0);
        }
        r.push([vertices[indices[n - 1]], vertices[indices[0]]]);
        proof {
            assert(<Self as Primitive<V>>::corners(r@[k as int]) =~= gather(vertices@, through_indices(indices@, line_loop_pattern(n as nat)[k as int])));
        }
        r
    }

    proof fn law_corners_in_range(n: nat) {
        assert forall|k: int, i: int|
            0 <= k < line_loop_pattern(n).len() && 0 <= i < line_loop_pattern(n)[k].len() implies 0
                <= #[trigger] line_loop_pattern(n)[k][i] < n by {
        }
    }

    fn primitive_count(index_count: usize) -> (r: usize) {
        index_count
    }
}

/// Triples of consecutive positions, without overlap.
pub open spec fn triangle_list_pattern(n: nat) -> Seq<Seq<int>> {
    Seq::new(n / 3, |k: int| seq![3 * k, 3 * k + 1, 3 * k + 2])
}

impl<V: Copy> Primitive<V> for TriangleList {
    type Item = [V; 3];

    open spec fn pattern(n: nat) -> Seq<Seq<int>> {
        triangle_list_pattern(n)
    }

    open spec fn corners(p: [V; 3]) -> Seq<V> {
        seq![p[0], p[1], p[2]]
    }

    fn assemble(vertices: &[V]) -> (r: Vec<[V; 3]>) {
        let n = vertices.len();
        let mut r: Vec<[V; 3]> = Vec::new();
        let count = n / 3;
        let mut k: usize = 0;
        while k < count
            invariant
                n == vertices@.len(),
                count == triangle_list_pattern(n as nat).len(),
                k <= count,
                r@.len() == k,
                forall|j: int| 0 <= j < k ==> <Self as Primitive<V>>::corners(#[trigger] r@[j]) == gather(vertices@, triangle_list_pattern(n as nat)[j]),
            decreases count - k,
        {
            r.push([vertices[3 * k], vertices[3 * k + 1], vertices[3 * k + 2]]);
            proof {
                assert(<Self as Primitive<V>>::corners(r@[k as int]) =~= gather(vertices@, triangle_list_pattern(n as nat)[k as int]));
            }
            k += 1;
        }
        r
    }

    fn assemble_indexed(vertices: &[V], indices: &[usize]) -> (r: Vec<[V; 3]>) {
        let n = indices.len();
        let mut r: Vec<[V; 3]> = Vec::new();
        let count = n / 3;
        let mut k: usize = 0;
        while k < count
            invariant
                n == indices@.len(),
                read_indices_in_range(indices@, triangle_list_pattern(n as nat), vertices@.len()),
                count == triangle_list_pattern(n as nat).len(),
                k <= count,
                r@.len() == k,
                forall|j: int| 0 <= j < k ==> <Self as Primitive<V>>::corners(#[trigger] r@[j]) == gather(vertices@, through_indices(indices@, triangle_list_pattern(n as nat)[j])),
            decreases count - k,
        {
            proof {
                assert(triangle_list_pattern(n as nat)[k as int][0] == 3 * k);
                assert(triangle_list_pattern(n as nat)[k as int][1] == 3 * k + 1);
                assert(triangle_list_pattern(n as nat)[k as int][2] == 3 * k + 2);
            }
            r.push([vertices[indices[3 * k]], vertices[indices[3 * k + 1]], vertices[indices[3 * k + 2]]]);
            proof {
                assert(<Self as Primitive<V>>::corners(r@[k as int]) =~= gather(vertices@, through_indices(indices@, triangle_list_pattern(n as nat)[k as int])));
            }
            k += 1;
        }
        r
    }

    proof fn law_corners_in_range(n: nat) {
        assert forall|k: int, i: int|
            0 <= k < triangle_list_pattern(n).len() && 0 <= i < triangle_list_pattern(n)[k].len() implies 0
                <= #[trigger] triangle_list_pattern(n)[k][i] < n by {
        }
    }

    fn primitive_count(index_count: usize) -> (r: usize) {
        index_count / 3
    }
}

/// Each position with the next two.
pub open spec fn triangle_strip_pattern(n: nat) -> Seq<Seq<int>> {
    Seq::new(minus_or_zero(n, 2), |k: int| seq![k, k + 1, k + 2])
}

impl<V: Copy> Primitive<V> for TriangleStrip {
    type Item = [V; 3];

    open spec fn pattern(n: nat) -> Seq<Seq<int>> {
        triangle_strip_pattern(n)
    }

    open spec fn corners(p: [V; 3]) -> Seq<V> {
        seq![p[0], p[1], p[2]]
    }

    fn assemble(vertices: &[V]) -> (r: Vec<[V; 3]>) {
        let n = vertices.len();
        let mut r: Vec<[V; 3]> = Vec::new();
        let count = n.saturating_sub(2);
        let mut k: usize = 0;
        while k < count
            invariant
                n == vertices@.len(),
                count == triangle_strip_pattern(n as nat).len(),
                k <= count,
                r@.len() == k,
                forall|j: int| 0 <= j < k ==> <Self as Primitive<V>>::corners(#[trigger] r@[j]) == gather(vertices@, triangle_strip_pattern(n as nat)[j]),
            decreases count - k,
        {
            r.push([vertices[k], vertices[k + 1], vertices[k + 2]]);
            proof {
                assert(<Self as Primitive<V>>::corners(r@[k as int]) =~= gather(vertices@, triangle_strip_pattern(n as nat)[k as int]));
            }
            k += 1;
        }
        r
    }

    fn assemble_indexed(vertices: &[V], indices: &[usize]) -> (r: Vec<[V; 3]>) {
        let n = indices.len();
        let mut r: Vec<[V; 3]> = Vec::new();
        let count = n.saturating_sub(2);
        let mut k: usize = 0;
        while k < count
            invariant
                n == indices@.len(),
                read_indices_in_range(indices@, triangle_strip_pattern(n as nat), vertices@.len()),
                count == triangle_strip_pattern(n as nat).len(),
                k <= count,
                r@.len() == k,
                forall|j: int| 0 <= j < k ==> <Self as Primitive<V>>::corners(#[trigger] r@[j]) == gather(vertices@, through_indices(indices@, triangle_strip_pattern(n as nat)[j])),
            decreases count - k,
        {
            proof {
                assert(triangle_strip_pattern(n as nat)[k as int][0] == k);
                assert(triangle_strip_pattern(n as nat)[k as int][1] == k + 1);
                assert(triangle_strip_pattern(n as nat)[k as int][2] == k + 2);
            }
            r.push([vertices[indices[k]], vertices[indices[k + 1]], vertices[indices[k + 2]]]);
            proof {
                assert(<Self as Primitive<V>>::corners(r@[k as int]) =~= gather(vertices@, through_indices(indices@, triangle_strip_pattern(n as nat)[k as int])));
            }
            k += 1;
        }
        r
    }

    proof fn law_corners_in_range(n: nat) {
        assert forall|k: int, i: int|
            0 <= k < triangle_strip_pattern(n).len() && 0 <= i < triangle_strip_pattern(n)[k].len() implies 0
                <= #[trigger] triangle_strip_pattern(n)[k][i] < n by {
        }
    }

    fn primitive_count(index_count: usize) -> (r: usize) {
        index_count.saturating_sub(2)
    }
}

/// The first position with each later pair of consecutive positions.
pub open spec fn triangle_fan_pattern(n: nat) -> Seq<Seq<int>> {
    Seq::new(minus_or_zero(n, 2), |k: int| seq![0, k + 1, k + 2])
}

impl<V: Copy> Primitive<V> for TriangleFan {
    type Item = [V; 3];

    open spec fn pattern(n: nat) -> Seq<Seq<int>> {
        triangle_fan_pattern(n)
    }

    open spec fn corners(p: [V; 3]) -> Seq<V> {
        seq![p[0], p[1], p[2]]
    }

    fn assemble(vertices: &[V]) -> (r: Vec<[V; 3]>) {
        let n = vertices.len();
        let mut r: Vec<[V; 3]> = Vec::new();
        let count = n.saturating_sub(2);
        let mut k: usize = 0;
        while k < count
            invariant
                n == vertices@.len(),
                count == triangle_fan_pattern(n as nat).len(),
                k <= count,
                r@.len() == k,
                forall|j: int| 0 <= j < k ==> <Self as Primitive<V>>::corners(#[trigger] r@[j]) == gather(vertices@, triangle_fan_pattern(n as nat)[j]),
            decreases count - k,
        {
            r.push([vertices[0], vertices[k + 1], vertices[k + 2]]);
            proof {
                assert(<Self as Primitive<V>>::corners(r@[k as int]) =~= gather(vertices@, triangle_fan_pattern(n as nat)[k as int]));
            }
            k += 1;
        }
        r
    }

    fn assemble_indexed(vertices: &[V], indices: &[usize]) -> (r: Vec<[V; 3]>) {
        let n = indices.len();
        let mut r: Vec<[V; 3]> = Vec::new();
        let count = n.saturating_sub(2);
        let mut k: usize = 0;
        while k < count
            invariant
                n == indices@.len(),
                read_indices_in_range(indices@, triangle_fan_pattern(n as nat), vertices@.len()),
                count == triangle_fan_pattern(n as nat).len(),
                k <= count,
                r@.len() == k,
                forall|j: int| 0 <= j < k ==> <Self as Primitive<V>>::corners(#[trigger] r@[j]) == gather(vertices@, through_indices(indices@, triangle_fan_pattern(n as nat)[j])),
            decreases count - k,
        {
            proof {
                assert(triangle_fan_pattern(n as nat)[k as int][0] == 0);
                assert(triangle_fan_pattern(n as nat)[k as int][1] == k + 1);
                assert(triangle_fan_pattern(n as nat)[k as int][2] == k + 2);
            }
            r.push([vertices[indices[0]], vertices[indices[k + 1]], vertices[indices[k + 2]]]);
            proof {
                assert(<Self as Primitive<V>>::corners(r@[k as int]) =~= gather(vertices@, through_indices(indices@, triangle_fan_pattern(n as nat)[k as int])));
            }
            k += 1;
        }
        r
    }

    proof fn law_corners_in_range(n: nat) {
        assert forall|k: int, i: int|
            0 <= k < triangle_fan_pattern(n).len() && 0 <= i < triangle_fan_pattern(n)[k].len() implies 0
                <= #[trigger] triangle_fan_pattern(n)[k][i] < n by {
        }
    }

    fn primitive_count(index_count: usize) -> (r: usize) {
        index_count.saturating_sub(2)
    }
}

} // verus!
