//! Layout of the output image: pixel numbering, the mapping from a pixel number to
//! its image coordinates, and the partition of the pixel buffer into contiguous
//! chunks, one per worker.
use vstd::prelude::*;
use vstd::arithmetic::div_mod::{
    lemma_div_is_ordered, lemma_div_is_ordered_by_denominator, lemma_fundamental_div_mod,
    lemma_fundamental_div_mod_converse_div,
};
use vstd::arithmetic::mul::lemma_mul_inequality;

verus! {

/// Rows of the image are split into this many bands; a chunk spans one band of rows.
pub const ROW_BANDS: u32 = 10;

/// First pixel number of chunk `k` when every chunk holds `chunk_size` pixels.
pub open spec fn chunk_start(chunk_size: nat, k: nat) -> nat {
    k * chunk_size
}

/// One past the last pixel number of chunk `k`; the last chunk is cut at `total`.
pub open spec fn chunk_end(chunk_size: nat, total: nat, k: nat) -> nat {
    if (k + 1) * chunk_size <= total {
        (k + 1) * chunk_size
    } else {
        total
    }
}

/// Number of chunks of `chunk_size` pixels needed to cover `total` pixels.
pub open spec fn chunk_count(chunk_size: nat, total: nat) -> nat {
    if total % chunk_size == 0 {
        total / chunk_size
    } else {
        total / chunk_size + 1
    }
}

/// Whether pixel `p` lies in chunk `k`.
pub open spec fn chunk_holds(chunk_size: nat, total: nat, k: nat, p: nat) -> bool {
    chunk_start(chunk_size, k) <= p < chunk_end(chunk_size, total, k)
}

/// Pixel `p` lies in chunk `k` exactly when it is a pixel of the buffer and `k`
/// is its quotient by the chunk size.
pub proof fn lemma_chunk_holds_iff(chunk_size: nat, total: nat, k: nat, p: nat)
    requires
        chunk_size > 0,
    ensures
        chunk_holds(chunk_size, total, k, p) <==> (p < total && k == p / chunk_size),
{
    let cs = chunk_size as int;
    let ki = k as int;
    let pi = p as int;
    lemma_fundamental_div_mod(pi, cs);
    assert((ki + 1) * cs == ki * cs + cs) by (nonlinear_arith);
    if chunk_holds(chunk_size, total, k, p) {
        lemma_fundamental_div_mod_converse_div(pi, cs, ki, pi - ki * cs);
    }
    if p < total && k == p / chunk_size {
        assert(cs * (pi / cs) == ki * cs) by (nonlinear_arith)
            requires
                ki == pi / cs,
        ;
    }
}

/// A chunk numbered below the chunk count starts below `total`; all but the last
/// are full, and the last one ends at `total`.
pub proof fn lemma_chunk_start_in_buffer(chunk_size: nat, total: nat, k: nat)
    requires
        chunk_size > 0,
        k < chunk_count(chunk_size, total),
    ensures
        chunk_start(chunk_size, k) < total,
        k + 1 < chunk_count(chunk_size, total) ==> (k + 1) * chunk_size < total,
        k + 1 == chunk_count(chunk_size, total) ==> chunk_end(chunk_size, total, k) == total,
{
    let cs = chunk_size as int;
    let ki = k as int;
    let t = total as int;
    let q = t / cs;
    lemma_fundamental_div_mod(t, cs);
    assert(cs * q == q * cs) by (nonlinear_arith);
    assert((ki + 1) * cs == ki * cs + cs) by (nonlinear_arith);
    assert((ki + 2) * cs == (ki + 1) * cs + cs) by (nonlinear_arith);
    if total % chunk_size == 0 {
        lemma_mul_inequality(ki + 1, q, cs);
        if ki + 1 < q {
            lemma_mul_inequality(ki + 2, q, cs);
        }
    } else {
        lemma_mul_inequality(ki, q, cs);
        if ki < q {
            lemma_mul_inequality(ki + 1, q, cs);
        }
    }
}

/// The chunks partition the pixel buffer: every pixel number below `total` lies
/// in exactly one chunk, that chunk is numbered below the chunk count, no chunk
/// holds a pixel at or past `total`, every chunk is non-empty, the first starts at
/// pixel 0, each later one starts where the one before it ends, and the last one
/// ends at `total`.
pub proof fn lemma_chunks_partition_buffer(chunk_size: nat, total: nat)
    requires
        chunk_size > 0,
    ensures
        forall|p: nat|
            p < total ==> #[trigger] (p / chunk_size) < chunk_count(chunk_size, total)
                && chunk_holds(chunk_size, total, p / chunk_size, p),
        forall|k: nat, p: nat|
            #[trigger] chunk_holds(chunk_size, total, k, p) ==> p < total && k == p / chunk_size,
        forall|k: nat|
            k < chunk_count(chunk_size, total) ==> chunk_start(chunk_size, k) < #[trigger] chunk_end(
                chunk_size,
                total,
                k,
            ) <= total,
        forall|k: nat|
            k + 1 < chunk_count(chunk_size, total) ==> #[trigger] chunk_end(chunk_size, total, k)
                == chunk_start(chunk_size, k + 1),
        total > 0 ==> chunk_start(chunk_size, 0) == 0 && chunk_end(
            chunk_size,
            total,
            (chunk_count(chunk_size, total) - 1) as nat,
        ) == total,
{
    let cs = chunk_size as int;
    let t = total as int;
    assert forall|p: nat|
        p < total implies #[trigger] (p / chunk_size) < chunk_count(chunk_size, total)
            && chunk_holds(chunk_size, total, p / chunk_size, p) by {
        let pi = p as int;
        lemma_chunk_holds_iff(chunk_size, total, p / chunk_size, p);
        lemma_div_is_ordered(pi, t, cs);
        if total % chunk_size == 0 && pi / cs >= t / cs {
            lemma_fundamental_div_mod(t, cs);
            lemma_fundamental_div_mod(pi, cs);
            lemma_mul_inequality(t / cs, pi / cs, cs);
            assert(cs * (t / cs) == (t / cs) * cs && cs * (pi / cs) == (pi / cs) * cs)
                by (nonlinear_arith);
        }
    }
    assert forall|k: nat, p: nat| #[trigger] chunk_holds(chunk_size, total, k, p) implies p < total
        && k == p / chunk_size by {
        lemma_chunk_holds_iff(chunk_size, total, k, p);
    }
    assert forall|k: nat| k < chunk_count(chunk_size, total) implies chunk_start(chunk_size, k)
        < #[trigger] chunk_end(chunk_size, total, k) <= total by {
        lemma_chunk_start_in_buffer(chunk_size, total, k);
        let ki = k as int;
        assert((ki + 1) * cs == ki * cs + cs) by (nonlinear_arith);
    }
    assert forall|k: nat| k + 1 < chunk_count(chunk_size, total) implies #[trigger] chunk_end(
        chunk_size,
        total,
        k,
    ) == chunk_start(chunk_size, k + 1) by {
        lemma_chunk_start_in_buffer(chunk_size, total, k);
    }
    if total > 0 {
        assert(0 < chunk_count(chunk_size, total)) by {
            if total % chunk_size == 0 {
                lemma_fundamental_div_mod(t, cs);
                assert(cs * 0 == 0) by (nonlinear_arith);
            }
        }
        lemma_chunk_start_in_buffer(chunk_size, total, (chunk_count(chunk_size, total) - 1) as nat);
    }
}

/// Dimensions of the output image and the size of the chunks it is rendered in.
/// Pixels are numbered row-major from the top-left corner: `row * width + col`.
pub struct Frame {
    pub width: u32,
    pub height: u32,
    pub chunk_size: u32,
}

impl Frame {
    /// The image has at least one column, at least one row per band, a pixel count
    /// that fits in `u32`, and chunks of one band of rows each.
    pub open spec fn wf(&self) -> bool {
        &&& self.width >= 1
        &&& self.height >= ROW_BANDS
        &&& self.width * self.height <= u32::MAX
        &&& self.chunk_size == (self.height / ROW_BANDS) * self.width
    }

    pub open spec fn total(&self) -> nat {
        (self.width * self.height) as nat
    }

    pub open spec fn chunks(&self) -> nat {
        chunk_count(self.chunk_size as nat, self.total())
    }

    /// Lays out an image of `width` by `height` pixels in row bands.
    pub fn new(width: u32, height: u32) -> (r: Frame)
        requires
            width >= 1,
            height >= ROW_BANDS,
            width * height <= u32::MAX,
        ensures
            r.wf(),
            r.width == width,
            r.height == height,
    {
        let band: u32 = height / ROW_BANDS;
        proof {
            assert(band <= height);
            assert(band * width <= height * width) by (nonlinear_arith)
                requires band <= height;
        }
        Frame { width, height, chunk_size: band * width }
    }

    /// Chunks of a well-formed frame are never empty.
    pub proof fn lemma_chunk_size_positive(&self)
        requires
            self.wf(),
        ensures
            self.chunk_size > 0,
            self.chunk_size <= self.total(),
    {
        let band = self.height / ROW_BANDS;
        assert(band >= 1);
        assert(band * self.width >= 1) by (nonlinear_arith)
            requires
                band >= 1,
                self.width >= 1,
        ;
        assert(band * self.width <= self.width * self.height) by (nonlinear_arith)
            requires
                band <= self.height,
        ;
    }

    /// Number of pixels in the image.
    pub fn pixel_count(&self) -> (r: usize)
        requires
            self.wf(),
        ensures
            r == self.total(),
    {
        (self.width * self.height) as usize
    }

    /// Number of chunks the pixel buffer is split into; the last one may be short.
    pub fn chunk_count(&self) -> (r: usize)
        requires
            self.wf(),
        ensures
            r == self.chunks(),
    {
        proof {
            self.lemma_chunk_size_positive();
        }
        let total: u32 = self.width * self.height;
        let full: u32 = total / self.chunk_size;
        if total % self.chunk_size == 0 {
            full as usize
        } else {
            proof {
                lemma_div_is_ordered_by_denominator(total as int, 2, self.chunk_size as int);
            }
            (full + 1) as usize
        }
    }

    /// First pixel number of chunk `chunk_idx`.
    pub fn chunk_idx_to_start_pixel_pos(&self, chunk_idx: usize) -> (r: usize)
        requires
            self.wf(),
            chunk_idx < self.chunks(),
        ensures
            r == chunk_start(self.chunk_size as nat, chunk_idx as nat),
            r < self.total(),
    {
        proof {
            self.lemma_chunk_size_positive();
            lemma_chunk_start_in_buffer(self.chunk_size as nat, self.total(), chunk_idx as nat);
        }
        chunk_idx * self.chunk_size as usize
    }

    /// One past the last pixel number of chunk `chunk_idx`.
    pub fn chunk_end_pixel_pos(&self, chunk_idx: usize) -> (r: usize)
        requires
            self.wf(),
            chunk_idx < self.chunks(),
        ensures
            r == chunk_end(self.chunk_size as nat, self.total(), chunk_idx as nat),
    {
        let start = self.chunk_idx_to_start_pixel_pos(chunk_idx);
        let total = self.pixel_count();
        let size = self.chunk_size as usize;
        proof {
            let ki = chunk_idx as int;
            let cs = self.chunk_size as int;
            assert((ki + 1) * cs == ki * cs + cs) by (nonlinear_arith);
        }
        if total - start < size {
            total
        } else {
            start + size
        }
    }

    /// Fills the slice of the pixel buffer that the worker of chunk `chunk_idx`
    /// owns: slot `i` receives `shade` of pixel `start + i`, where `start` is the
    /// chunk's first pixel number, and nothing outside the slice is written.
    pub fn fill_chunk<F: Fn(u32) -> Vec<u8>>(
        &self,
        chunk_idx: usize,
        slice: &mut [Vec<u8>],
        shade: &F,
    )
        requires
            self.wf(),
            chunk_idx < self.chunks(),
            old(slice)@.len() == chunk_end(self.chunk_size as nat, self.total(), chunk_idx as nat)
                - chunk_start(self.chunk_size as nat, chunk_idx as nat),
            forall|p: u32|
                chunk_holds(self.chunk_size as nat, self.total(), chunk_idx as nat, p as nat)
                    ==> #[trigger] shade.requires((p,)),
        ensures
            final(slice)@.len() == old(slice)@.len(),
            forall|i: int|
                0 <= i < final(slice)@.len() ==> shade.ensures(
                    ((chunk_start(self.chunk_size as nat, chunk_idx as nat) + i) as u32,),
                    #[trigger] final(slice)@[i],
                ),
    {
        let start = self.chunk_idx_to_start_pixel_pos(chunk_idx);
        let end = self.chunk_end_pixel_pos(chunk_idx);
        proof {
            self.lemma_chunk_size_positive();
            lemma_chunks_partition_buffer(self.chunk_size as nat, self.total());
        }
        let mut idx: usize = 0;
        while idx < slice.len()
            invariant
                start + slice@.len() == end,
                end <= self.total() <= u32::MAX,
                idx <= slice@.len(),
                slice@.len() == old(slice)@.len(),
                start == chunk_start(self.chunk_size as nat, chunk_idx as nat),
                end == chunk_end(self.chunk_size as nat, self.total(), chunk_idx as nat),
                forall|p: u32|
                    chunk_holds(self.chunk_size as nat, self.total(), chunk_idx as nat, p as nat)
                        ==> #[trigger] shade.requires((p,)),
                forall|i: int|
                    0 <= i < idx ==> shade.ensures(((start + i) as u32,), #[trigger] slice@[i]),
            decreases slice@.len() - idx,
        {
            let pixel_nbr: u32 = (start + idx) as u32;
            assert(chunk_holds(self.chunk_size as nat, self.total(), chunk_idx as nat, pixel_nbr as nat));
            let line = shade(pixel_nbr);
            slice[idx] = line;
            idx = idx + 1;
        }
    }

    /// Image row counted from the bottom, as the camera expects it, of pixel
    /// `pixel_nbr`, whose buffer row counts from the top: `height - row`.
    pub fn pixel_to_line_nbr(&self, pixel_nbr: u32) -> (r: u32)
        requires
            self.wf(),
            pixel_nbr < self.total(),
        ensures
            r == self.height - pixel_nbr / self.width,
            1 <= r <= self.height,
    {
        proof {
            let w = self.width as int;
            let h = self.height as int;
            let p = pixel_nbr as int;
            lemma_fundamental_div_mod(p, w);
            assert(p / w < h) by (nonlinear_arith)
                requires
                    p < w * h,
                    w >= 1,
                    p == w * (p / w) + p % w,
                    p % w >= 0,
            ;
        }
        self.height - pixel_nbr / self.width
    }

    /// Column of pixel `pixel_nbr`, counted from the left.
    pub fn pixel_nbr_to_image_width_pos(&self, pixel_nbr: u32) -> (r: u32)
        requires
            self.wf(),
        ensures
            r == pixel_nbr % self.width,
            r < self.width,
    {
        pixel_nbr % self.width
    }
}

} // verus!
