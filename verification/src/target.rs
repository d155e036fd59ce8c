use vstd::prelude::*;

use crate::pipeline::parallel::{div_ceil, lemma_div_ceil_least};
use crate::graphics::rasterizer::min_int;

verus! {

/// A color buffer of `width x height` pixels in row-major order, with an
/// optional depth buffer `depths` (`()` when there is none).
pub struct RenderTarget<'a, C, D = ()> {
    pub width: usize,
    pub height: usize,
    pub colors: &'a mut [C],
    pub depths: D,
}

impl<'a, C> RenderTarget<'a, C, ()> {
    /// Wraps a color buffer whose length is `width * height`.
    pub fn new(width: usize, height: usize, colors: &'a mut [C]) -> (r: Self)
        requires
            colors@.len() == width * height,
        ensures
            r.width == width,
            r.height == height,
            r.colors@ == old(colors)@,
            final(colors)@ == final(r.colors)@,
    {
        RenderTarget { width, height, colors, depths: () }
    }

    /// Adds a depth buffer, whose length must also be `width * height`.
    pub fn with_depth<Z>(self, depths: &'a mut [Z]) -> (r: RenderTarget<'a, C, &'a mut [Z]>)
        requires
            depths@.len() == self.width * self.height,
        ensures
            r.width == self.width,
            r.height == self.height,
            r.colors@ == old(self.colors)@,
            r.depths@ == old(depths)@,
            final(depths)@ == final(r.depths)@,
            final(self.colors)@ == final(r.colors)@,
    {
        RenderTarget { width: self.width, height: self.height, colors: self.colors, depths }
    }

    /// Sets every pixel to `color`.
    pub fn clear_color(&mut self, color: C)
        where
            C: Copy,
        ensures
            final(self).width == old(self).width,
            final(self).height == old(self).height,
            final(self).colors@ == Seq::new(old(self).colors@.len(), |i: int| color),
    {
        let n = self.colors.len();
        let mut i: usize = 0;
        while i < n
            invariant
                n == self.colors@.len(),
                i <= n,
                self.width == old(self).width,
                self.height == old(self).height,
                n == old(self).colors@.len(),
                forall|j: int| 0 <= j < i ==> self.colors@[j] == color,
            decreases n - i,
        {
            self.colors[i] = color;
            i += 1;
        }
        assert(self.colors@ =~= Seq::new(n as nat, |i: int| color));
    }
}

/// `<[T]>::split_at_mut` of std: the first half holds the elements before
/// `mid`, the second those from `mid` on, and what is written through the
/// halves is what the whole slice holds afterwards.
///
/// vstd already specifies `split_at_mut` with exactly those three clauses;
/// this wrapper exists only for the last two, which vstd does not state: each
/// half still has its length when its borrow ends. That holds because the
/// length of a `&mut [T]` cannot change while it is borrowed, and the splits
/// need it to say which rows of the target each band writes.
#[verifier::external_body]
fn split_slice_at<T>(slice: &mut [T], mid: usize) -> (halves: (&mut [T], &mut [T]))
    requires
        mid <= old(slice)@.len(),
    ensures
        halves.0@ == old(slice)@.subrange(0, mid as int),
        halves.1@ == old(slice)@.subrange(mid as int, old(slice)@.len() as int),
        final(slice)@ == final(halves.0)@ + final(halves.1)@,
        final(halves.0)@.len() == mid,
        final(halves.1)@.len() == old(slice)@.len() - mid,
{
    slice.split_at_mut(mid)
}

fn fill_slice<T: Copy>(buffer: &mut [T], value: T)
    ensures
        final(buffer)@ == Seq::new(old(buffer)@.len(), |i: int| value),
{
    let n = buffer.len();
    let mut i: usize = 0;
    while i < n
        invariant
            n == buffer@.len(),
            n == old(buffer)@.len(),
            i <= n,
            forall|j: int| 0 <= j < i ==> buffer@[j] == value,
        decreases n - i,
    {
        buffer[i] = value;
        i += 1;
    }
    assert(buffer@ =~= Seq::new(n as nat, |i: int| value));
}

/// The part of a buffer of length `len` that tile `k` of `chunk` elements
/// covers: `[k * chunk, min((k + 1) * chunk, len))`.
pub open spec fn chunk_start(k: int, chunk: int) -> int {
    k * chunk
}

pub open spec fn chunk_end(k: int, chunk: int, len: int) -> int {
    min_int((k + 1) * chunk, len)
}

proof fn lemma_chunk_step(k: int, chunk: int)
    requires
        k >= 0,
        chunk > 0,
    ensures
        (k + 1) * chunk == k * chunk + chunk,
        k * chunk >= k,
{
    assert((k + 1) * chunk == k * chunk + chunk) by (nonlinear_arith);
    assert(k * chunk >= k) by (nonlinear_arith)
        requires
            k >= 0,
            chunk > 0,
    ;
}

/// When splitting stops after `k` tiles, `k` is the number of chunks of the
/// shorter buffer.
proof fn lemma_chunk_count(k: int, chunk: int, cl: int, dl: int)
    requires
        k >= 0,
        chunk > 0,
        cl >= 0,
        dl >= 0,
        k == 0 || ((k - 1) * chunk < cl && (k - 1) * chunk < dl),
        k * chunk >= cl || k * chunk >= dl,
    ensures
        k == min_int(div_ceil(cl, chunk), div_ceil(dl, chunk)),
{
    lemma_div_ceil_least(cl, chunk, k);
    lemma_div_ceil_least(dl, chunk, k);
    if k > 0 {
        lemma_div_ceil_least(cl, chunk, k - 1);
        lemma_div_ceil_least(dl, chunk, k - 1);
    }
}

impl<'a, C, Z> RenderTarget<'a, C, &'a mut [Z]> {
    /// Sets every pixel to `color`.
    pub fn clear_color(&mut self, color: C)
        where
            C: Copy,
        ensures
            final(self).width == old(self).width,
            final(self).height == old(self).height,
            final(self).colors@ == Seq::new(old(self).colors@.len(), |i: int| color),
            final(self).depths@ == old(self).depths@,
    {
        fill_slice(self.colors, color);
    }

    /// Sets every depth to `depth`.
    pub fn clear_depth(&mut self, depth: Z)
        where
            Z: Copy,
        ensures
            final(self).width == old(self).width,
            final(self).height == old(self).height,
            final(self).colors@ == old(self).colors@,
            final(self).depths@ == Seq::new(old(self).depths@.len(), |i: int| depth),
    {
        fill_slice(self.depths, depth);
    }

    /// Splits the target into horizontal bands of `tile_height` rows (the
    /// last one possibly shorter), top to bottom. Each band owns its rows of
    /// both buffers, so the bands can be rendered independently.
    pub fn split_into_horizontal_tiles(self, tile_height: usize) -> (r: Vec<
        RenderTarget<'a, C, &'a mut [Z]>,
    >)
        requires
            0 < self.width * tile_height <= usize::MAX,
        ensures
            r@.len() == min_int(
                div_ceil(old(self.colors)@.len() as int, self.width * tile_height),
                div_ceil(old(self.depths)@.len() as int, self.width * tile_height),
            ),
            forall|k: int|
                0 <= k < r@.len() ==> {
                    let chunk = self.width * tile_height;
                    &&& (#[trigger] r@[k]).width == self.width
                    &&& r@[k].colors@ == old(self.colors)@.subrange(
                        chunk_start(k, chunk),
                        chunk_end(k, chunk, old(self.colors)@.len() as int),
                    )
                    &&& r@[k].depths@ == old(self.depths)@.subrange(
                        chunk_start(k, chunk),
                        chunk_end(k, chunk, old(self.depths)@.len() as int),
                    )
                    &&& r@[k].height == r@[k].colors@.len() as int / (self.width as int)
                },
            old(self.colors)@.len() == self.width * self.height && old(self.depths)@.len()
                == self.width * self.height ==> {
                &&& r@.len() == div_ceil(self.height as int, tile_height as int)
                &&& forall|k: int|
                    0 <= k < r@.len() ==> (#[trigger] r@[k]).height == min_int(
                        tile_height as int,
                        self.height - k * tile_height,
                    )
            },
            final(self.colors)@ == Seq::new(r@.len(), |k: int| final(r@[k].colors)@).flatten()
                + old(self.colors)@.subrange(
                min_int(r@.len() * (self.width * tile_height), old(self.colors)@.len() as int),
                old(self.colors)@.len() as int,
            ),
            final(self.depths)@ == Seq::new(r@.len(), |k: int| final(r@[k].depths)@).flatten()
                + old(self.depths)@.subrange(
                min_int(r@.len() * (self.width * tile_height), old(self.depths)@.len() as int),
                old(self.depths)@.len() as int,
            ),
            forall|k: int|
                0 <= k < r@.len() ==> final(#[trigger] r@[k].colors)@.len() == r@[k].colors@.len()
                    && final(r@[k].depths)@.len() == r@[k].depths@.len(),
            forall|k: int, i: int|
                0 <= k < r@.len() && 0 <= i < r@[k].colors@.len() ==> #[trigger] final(r@[k].colors)@[i]
                    == final(self.colors)@[chunk_start(k, self.width * tile_height) + i],
            forall|k: int, i: int|
                0 <= k < r@.len() && 0 <= i < r@[k].depths@.len() ==> #[trigger] final(r@[k].depths)@[i]
                    == final(self.depths)@[chunk_start(k, self.width * tile_height) + i],
            old(self.colors)@ == Seq::new(r@.len(), |k: int| r@[k].colors@).flatten() + old(
                self.colors,
            )@.subrange(
                min_int(r@.len() * (self.width * tile_height), old(self.colors)@.len() as int),
                old(self.colors)@.len() as int,
            ),
            old(self.depths)@ == Seq::new(r@.len(), |k: int| r@[k].depths@).flatten() + old(
                self.depths,
            )@.subrange(
                min_int(r@.len() * (self.width * tile_height), old(self.depths)@.len() as int),
                old(self.depths)@.len() as int,
            ),
    {
        let width = self.width;
        let chunk_size = width * tile_height;
        let ghost colors0 = self.colors@;
        let ghost depths0 = self.depths@;
        let mut colors = self.colors;
        let mut depths = self.depths;
        let ghost colors_after = final(colors)@;
        let ghost depths_after = final(depths)@;
        let mut tiles: Vec<RenderTarget<'a, C, &'a mut [Z]>> = Vec::new();
        proof {
            assert(Seq::new(0, |k: int| final(tiles@[k].colors)@).flatten() =~= Seq::<C>::empty());
            assert(Seq::new(0, |k: int| final(tiles@[k].depths)@).flatten() =~= Seq::<Z>::empty());
            assert(Seq::new(0, |k: int| tiles@[k].colors@).flatten() =~= Seq::<C>::empty());
            assert(Seq::new(0, |k: int| tiles@[k].depths@).flatten() =~= Seq::<Z>::empty());
            assert(colors0 =~= Seq::<C>::empty() + colors0.subrange(0, colors0.len() as int));
            assert(depths0 =~= Seq::<Z>::empty() + depths0.subrange(0, depths0.len() as int));
        }
        while colors.len() > 0 && depths.len() > 0
            invariant
                colors_after == Seq::new(tiles@.len(), |k: int| final(tiles@[k].colors)@).flatten()
                    + final(colors)@,
                depths_after == Seq::new(tiles@.len(), |k: int| final(tiles@[k].depths)@).flatten()
                    + final(depths)@,
                colors0 == Seq::new(tiles@.len(), |k: int| tiles@[k].colors@).flatten() + colors@,
                depths0 == Seq::new(tiles@.len(), |k: int| tiles@[k].depths@).flatten() + depths@,
                Seq::new(tiles@.len(), |k: int| final(tiles@[k].colors)@).flatten().len()
                    == colors0.len() - colors@.len(),
                Seq::new(tiles@.len(), |k: int| final(tiles@[k].depths)@).flatten().len()
                    == depths0.len() - depths@.len(),
                forall|k: int|
                    0 <= k < tiles@.len() ==> final(#[trigger] tiles@[k].colors)@.len()
                        == tiles@[k].colors@.len() && final(tiles@[k].depths)@.len()
                        == tiles@[k].depths@.len(),
                forall|k: int, i: int|
                    0 <= k < tiles@.len() && 0 <= i < tiles@[k].colors@.len() ==> #[trigger] final(tiles@[k].colors)@[i]
                        == colors_after[chunk_start(k, chunk_size as int) + i],
                forall|k: int, i: int|
                    0 <= k < tiles@.len() && 0 <= i < tiles@[k].depths@.len() ==> #[trigger] final(tiles@[k].depths)@[i]
                        == depths_after[chunk_start(k, chunk_size as int) + i],
                chunk_size == width * tile_height,
                chunk_size > 0,
                colors@ == colors0.subrange(
                    min_int(tiles@.len() * chunk_size, colors0.len() as int),
                    colors0.len() as int,
                ),
                depths@ == depths0.subrange(
                    min_int(tiles@.len() * chunk_size, depths0.len() as int),
                    depths0.len() as int,
                ),
                tiles@.len() <= colors0.len(),
                tiles@.len() == 0 || ((tiles@.len() - 1) * chunk_size < colors0.len() && (tiles@.len()
                    - 1) * chunk_size < depths0.len()),
                forall|k: int|
                    0 <= k < tiles@.len() ==> {
                        &&& (#[trigger] tiles@[k]).width == width
                        &&& tiles@[k].colors@ == colors0.subrange(
                            chunk_start(k, chunk_size as int),
                            chunk_end(k, chunk_size as int, colors0.len() as int),
                        )
                        &&& tiles@[k].depths@ == depths0.subrange(
                            chunk_start(k, chunk_size as int),
                            chunk_end(k, chunk_size as int, depths0.len() as int),
                        )
                        &&& tiles@[k].height == tiles@[k].colors@.len() as int / (width as int)
                    },
            decreases colors@.len(),
        {
            let ghost k = tiles@.len() as int;
            proof {
                lemma_chunk_step(k, chunk_size as int);
            }
            let ghost colors_final_before = final(colors)@;
            let ghost depths_final_before = final(depths)@;
            let color_take = if colors.len() < chunk_size { colors.len() } else { chunk_size };
            let depth_take = if depths.len() < chunk_size { depths.len() } else { chunk_size };
            let (color_chunk, color_rest) = split_slice_at(colors, color_take);
            let (depth_chunk, depth_rest) = split_slice_at(depths, depth_take);
            let actual_height = color_chunk.len() / width;
            let ghost tiles_before = tiles@;
            let ghost chunk_c = final(color_chunk)@;
            let ghost chunk_d = final(depth_chunk)@;
            let ghost rest_c = final(color_rest)@;
            let ghost rest_d = final(depth_rest)@;
            assert(colors_final_before == chunk_c + rest_c);
            assert(depths_final_before == chunk_d + rest_d);
            proof {
                assert(color_chunk@ =~= colors0.subrange(
                    chunk_start(k, chunk_size as int),
                    chunk_end(k, chunk_size as int, colors0.len() as int),
                ));
                assert(depth_chunk@ =~= depths0.subrange(
                    chunk_start(k, chunk_size as int),
                    chunk_end(k, chunk_size as int, depths0.len() as int),
                ));
                assert(color_rest@ =~= colors0.subrange(
                    min_int((k + 1) * chunk_size, colors0.len() as int),
                    colors0.len() as int,
                ));
                assert(depth_rest@ =~= depths0.subrange(
                    min_int((k + 1) * chunk_size, depths0.len() as int),
                    depths0.len() as int,
                ));
            }
            tiles.push(RenderTarget { width, height: actual_height, colors: color_chunk, depths: depth_chunk });
            colors = color_rest;
            depths = depth_rest;
            proof {
                let cs = Seq::new(k as nat, |j: int| final(tiles_before[j].colors)@);
                let ds = Seq::new(k as nat, |j: int| final(tiles_before[j].depths)@);
                assert(final(tiles@[k].colors)@ == chunk_c);
                assert(final(colors)@ == rest_c);
                assert(Seq::new(tiles@.len(), |j: int| final(tiles@[j].colors)@) =~= cs.push(chunk_c));
                assert(Seq::new(tiles@.len(), |j: int| final(tiles@[j].depths)@) =~= ds.push(chunk_d));
                cs.lemma_flatten_push(chunk_c);
                ds.lemma_flatten_push(chunk_d);
                let cc = Seq::new(k as nat, |j: int| tiles_before[j].colors@);
                let dc = Seq::new(k as nat, |j: int| tiles_before[j].depths@);
                assert(Seq::new(tiles@.len(), |j: int| tiles@[j].colors@) =~= cc.push(tiles@[k].colors@));
                assert(Seq::new(tiles@.len(), |j: int| tiles@[j].depths@) =~= dc.push(tiles@[k].depths@));
                cc.lemma_flatten_push(tiles@[k].colors@);
                dc.lemma_flatten_push(tiles@[k].depths@);
                let fc = cs.flatten();
                let fd = ds.flatten();
                assert(fc.len() == k * chunk_size);
                assert(fd.len() == k * chunk_size);
                assert forall|i: int| 0 <= i < chunk_c.len() implies chunk_c[i] == colors_after[k
                    * chunk_size + i] by {
                    assert(colors_after == fc + (chunk_c + rest_c));
                    assert((chunk_c + rest_c)[i] == chunk_c[i]);
                }
                assert forall|i: int| 0 <= i < chunk_d.len() implies chunk_d[i] == depths_after[k
                    * chunk_size + i] by {
                    assert(depths_after == fd + (chunk_d + rest_d));
                    assert((chunk_d + rest_d)[i] == chunk_d[i]);
                }
            }
        }
        proof {
            let k = tiles@.len() as int;
            let cl = colors0.len() as int;
            let dl = depths0.len() as int;
            lemma_chunk_count(k, chunk_size as int, cl, dl);
            if cl == width * self.height && dl == width * self.height {
                assert(width > 0 && tile_height > 0) by (nonlinear_arith)
                    requires
                        chunk_size == width * tile_height,
                        chunk_size > 0,
                ;
                law_split_band_heights(width as int, self.height as int, tile_height as int, 0);
                assert forall|j: int| 0 <= j < tiles@.len() implies (#[trigger] tiles@[j]).height
                    == min_int(tile_height as int, self.height - j * tile_height) by {
                    law_split_band_heights(width as int, self.height as int, tile_height as int, j);
                    lemma_div_ceil_least(cl, chunk_size as int, j);
                    lemma_chunk_step(j, chunk_size as int);
                }
            }
        }
        tiles
    }

    /// Splits the target into single-row bands, top to bottom.
    pub fn split_into_scanlines(self) -> (r: Vec<RenderTarget<'a, C, &'a mut [Z]>>)
        requires
            self.width > 0,
        ensures
            r@.len() == min_int(
                div_ceil(old(self.colors)@.len() as int, self.width as int),
                div_ceil(old(self.depths)@.len() as int, self.width as int),
            ),
            forall|k: int|
                0 <= k < r@.len() ==> {
                    &&& (#[trigger] r@[k]).width == self.width
                    &&& r@[k].colors@ == old(self.colors)@.subrange(
                        chunk_start(k, self.width as int),
                        chunk_end(k, self.width as int, old(self.colors)@.len() as int),
                    )
                    &&& r@[k].depths@ == old(self.depths)@.subrange(
                        chunk_start(k, self.width as int),
                        chunk_end(k, self.width as int, old(self.depths)@.len() as int),
                    )
                    &&& r@[k].height == r@[k].colors@.len() as int / (self.width as int)
                },
            forall|k: int|
                0 <= k < r@.len() ==> final(#[trigger] r@[k].colors)@.len() == r@[k].colors@.len()
                    && final(r@[k].depths)@.len() == r@[k].depths@.len(),
            forall|k: int, i: int|
                0 <= k < r@.len() && 0 <= i < r@[k].colors@.len() ==> #[trigger] final(r@[k].colors)@[i]
                    == final(self.colors)@[chunk_start(k, self.width as int) + i],
            forall|k: int, i: int|
                0 <= k < r@.len() && 0 <= i < r@[k].depths@.len() ==> #[trigger] final(r@[k].depths)@[i]
                    == final(self.depths)@[chunk_start(k, self.width as int) + i],
            old(self.colors)@.len() == self.width * self.height && old(self.depths)@.len()
                == self.width * self.height ==> r@.len() == self.height && forall|k: int|
                0 <= k < r@.len() ==> (#[trigger] r@[k]).height == 1,
            final(self.colors)@ == Seq::new(r@.len(), |k: int| final(r@[k].colors)@).flatten()
                + old(self.colors)@.subrange(
                min_int(r@.len() * self.width, old(self.colors)@.len() as int),
                old(self.colors)@.len() as int,
            ),
            final(self.depths)@ == Seq::new(r@.len(), |k: int| final(r@[k].depths)@).flatten()
                + old(self.depths)@.subrange(
                min_int(r@.len() * self.width, old(self.depths)@.len() as int),
                old(self.depths)@.len() as int,
            ),
            old(self.colors)@ == Seq::new(r@.len(), |k: int| r@[k].colors@).flatten() + old(
                self.colors,
            )@.subrange(
                min_int(r@.len() * self.width, old(self.colors)@.len() as int),
                old(self.colors)@.len() as int,
            ),
            old(self.depths)@ == Seq::new(r@.len(), |k: int| r@[k].depths@).flatten() + old(
                self.depths,
            )@.subrange(
                min_int(r@.len() * self.width, old(self.depths)@.len() as int),
                old(self.depths)@.len() as int,
            ),
    {
        let r = self.split_into_horizontal_tiles(1);
        proof {
            let h = self.height as int;
            assert(div_ceil(h, 1) == h) by {
                vstd::arithmetic::div_mod::lemma_div_basics(h);
                vstd::arithmetic::div_mod::lemma_fundamental_div_mod(h, 1);
            }
        }
        r
    }
}

/// The tiles of a split partition the buffer: position `i` of a buffer of
/// `len` elements lies in tile `i / chunk`, at offset `i % chunk`, and that
/// tile is one of the `div_ceil(len, chunk)` tiles.
pub proof fn law_tiles_partition_buffer(len: int, chunk: int, i: int)
    requires
        chunk > 0,
        0 <= i < len,
    ensures
        0 <= i / chunk < div_ceil(len, chunk),
        chunk_start(i / chunk, chunk) <= i < chunk_end(i / chunk, chunk, len),
        i - chunk_start(i / chunk, chunk) == i % chunk,
{
    vstd::arithmetic::div_mod::lemma_fundamental_div_mod(i, chunk);
    vstd::arithmetic::div_mod::lemma_mod_pos_bound(i, chunk);
    let k = i / chunk;
    assert(k >= 0 && k * chunk <= i < (k + 1) * chunk) by (nonlinear_arith)
        requires
            i == chunk * k + i % chunk,
            0 <= i % chunk < chunk,
            i >= 0,
            chunk > 0,
    ;
    assert(k * chunk == chunk * k) by (nonlinear_arith);
    lemma_div_ceil_least(len, chunk, k);
}

/// `j` bands of `t` rows cover `h` rows exactly when `j` chunks of `w * t`
/// pixels cover `w * h` pixels.
proof fn lemma_scaled_cover(w: int, t: int, h: int, j: int)
    requires
        w > 0,
    ensures
        j * (w * t) >= w * h <==> j * t >= h,
{
    assert(j * (w * t) == w * (j * t)) by (nonlinear_arith);
    assert(w * (j * t) >= w * h <==> j * t >= h) by (nonlinear_arith)
        requires
            w > 0,
    ;
}

/// Splitting a target of `width x height` pixels into bands of
/// `tile_height` rows gives `height.div_ceil(tile_height)` bands, and band `k`
/// has `min(tile_height, height - k * tile_height)` rows: all of them
/// `tile_height` rows high but the last, which takes what is left. (That the
/// bands' buffers, joined in order, give back the target's buffers is stated
/// by the split itself, and so is this law, for a target whose buffers hold
/// `width * height` pixels each; scanlines are the case `tile_height == 1`.)
pub proof fn law_split_band_heights(width: int, height: int, tile_height: int, k: int)
    requires
        width > 0,
        height >= 0,
        tile_height > 0,
    ensures
        div_ceil(width * height, width * tile_height) == div_ceil(height, tile_height),
        0 <= k < div_ceil(height, tile_height) ==> (chunk_end(
            k,
            width * tile_height,
            width * height,
        ) - chunk_start(k, width * tile_height)) / width == min_int(
            tile_height,
            height - k * tile_height,
        ),
{
    let w = width;
    let h = height;
    let t = tile_height;
    assert(w * t > 0 && w * h >= 0) by (nonlinear_arith)
        requires
            w > 0,
            t > 0,
            h >= 0,
    ;
    let a = div_ceil(w * h, w * t);
    let b = div_ceil(h, t);
    vstd::arithmetic::div_mod::lemma_div_pos_is_pos(w * h, w * t);
    vstd::arithmetic::div_mod::lemma_div_pos_is_pos(h, t);
    assert(a >= 0 && b >= 0);
    lemma_scaled_cover(w, t, h, a);
    lemma_scaled_cover(w, t, h, b);
    lemma_div_ceil_least(w * h, w * t, a);
    lemma_div_ceil_least(h, t, a);
    lemma_div_ceil_least(w * h, w * t, b);
    lemma_div_ceil_least(h, t, b);
    if 0 <= k < b {
        lemma_div_ceil_least(h, t, k);
        assert(k * t < h);
        assert(k * (w * t) == w * (k * t)) by (nonlinear_arith);
        assert((k + 1) * (w * t) == w * (k * t + t)) by (nonlinear_arith);
        let m = min_int(t, h - k * t);
        assert(m > 0);
        assert(min_int(w * (k * t + t), w * h) - w * (k * t) == w * m) by (nonlinear_arith)
            requires
                w > 0,
                m == min_int(t, h - k * t),
        ;
        vstd::arithmetic::div_mod::lemma_div_multiples_vanish(m, w);
    }
}

/// A rectangular part of a render target, placed at `(x, y)`.
pub struct TileView<'a, C, D = ()> {
    pub x: usize,
    pub y: usize,
    pub width: usize,
    pub height: usize,
    pub target: RenderTarget<'a, C, D>,
}

} // verus!
