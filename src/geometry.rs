//! Buffer dimensions and index arithmetic derived from the telescope metadata.
use vstd::prelude::*;
use vstd::arithmetic::div_mod::lemma_fundamental_div_mod_converse;

verus! {

/// Number of single-precision planes per fine channel: four polarisations,
/// each as a real and an imaginary part.
pub const NUM_PLANES: usize = 8;

/// The row stride that a width is padded to: the next multiple of eight.
pub open spec fn spec_stride(width: int) -> int {
    ((width - 1) / 8 + 1) * 8
}

/// Number of baselines (antenna pairs, autocorrelations included) of an array
/// with `num_ants` antennas.
pub open spec fn spec_num_baselines(num_ants: int) -> int {
    num_ants * (num_ants + 1) / 2
}

/// Pads `width` up to the next multiple of eight.
pub fn stride(width: usize) -> (r: usize)
    requires
        1 <= width <= usize::MAX - 7,
    ensures
        r == spec_stride(width as int),
{
    ((width - 1) / 8 + 1) * 8
}

/// For every width of at least one, the padded stride is a multiple of eight
/// and exceeds the width by less than eight.
pub proof fn lemma_stride_invariant(width: int)
    requires
        width >= 1,
    ensures
        spec_stride(width) % 8 == 0,
        width <= spec_stride(width) < width + 8,
{
    let q = (width - 1) / 8;
    let r = (width - 1) % 8;
    assert(width - 1 == q * 8 + r);
    lemma_fundamental_div_mod_converse(spec_stride(width), 8, q + 1, 0);
}

/// Shape of one observation: what the buffers, chunks and flag files are
/// sized from.
#[derive(Clone, Copy, Debug, PartialEq, Eq, Structural)]
pub struct Geometry {
    /// Timesteps: the width of every image buffer.
    pub num_timesteps: usize,
    /// Coarse channels present in the dataset.
    pub num_coarse_chans: usize,
    /// Fine channels per coarse channel.
    pub fine_chans_per_coarse: usize,
    /// Antennas of the array.
    pub num_ants: usize,
    /// Baselines: `num_ants * (num_ants + 1) / 2`.
    pub num_baselines: usize,
}

impl Geometry {
    /// Rows of an image buffer: one per fine channel of every coarse channel.
    pub open spec fn spec_height(self) -> int {
        self.num_coarse_chans * self.fine_chans_per_coarse
    }

    pub open spec fn spec_stride(self) -> int {
        spec_stride(self.num_timesteps as int)
    }

    /// Cells of one plane, padding included.
    pub open spec fn spec_plane_len(self) -> int {
        self.spec_height() * self.spec_stride()
    }

    /// Cells of one image buffer: all its planes.
    pub open spec fn spec_image_len(self) -> int {
        NUM_PLANES * self.spec_plane_len()
    }

    /// Values in one raw chunk: for every baseline and fine channel, one per plane.
    pub open spec fn spec_chunk_len(self) -> int {
        self.num_baselines * self.fine_chans_per_coarse * NUM_PLANES
    }

    /// Flag bytes in the body of one flag file.
    pub open spec fn spec_body_len(self) -> int {
        self.num_timesteps * self.num_baselines * self.fine_chans_per_coarse
    }

    /// The dimensions are consistent, and every size derived from them (and
    /// each partial product on the way) fits a `usize`.
    pub open spec fn wf(self) -> bool {
        let t = self.num_timesteps as int;
        let a = self.num_ants as int;
        let b = self.num_baselines as int;
        let f = self.fine_chans_per_coarse as int;
        &&& t >= 1
        &&& t + 7 <= usize::MAX
        &&& a * (a + 1) <= usize::MAX
        &&& b == spec_num_baselines(a)
        &&& self.spec_height() <= usize::MAX
        &&& self.spec_plane_len() <= usize::MAX
        &&& self.spec_image_len() <= usize::MAX
        &&& b * self.spec_image_len() <= usize::MAX
        &&& b * f <= usize::MAX
        &&& self.spec_chunk_len() <= usize::MAX
        &&& t * b <= usize::MAX
        &&& self.spec_body_len() <= usize::MAX
        &&& self.num_coarse_chans * t <= usize::MAX
    }

    /// Derives a geometry from the metadata counts; `None` exactly where the
    /// result would not be well formed (no timestep, or a size too large).
    pub fn new(
        num_timesteps: usize,
        num_coarse_chans: usize,
        fine_chans_per_coarse: usize,
        num_ants: usize,
    ) -> (r: Option<Geometry>)
        ensures
            ({
                let g = Geometry {
                    num_timesteps,
                    num_coarse_chans,
                    fine_chans_per_coarse,
                    num_ants,
                    num_baselines: spec_num_baselines(num_ants as int) as usize,
                };
                &&& g.wf() ==> r == Some(g)
                &&& !g.wf() ==> r is None
            }),
    {
        if num_timesteps == 0 || num_timesteps > usize::MAX - 7 {
            return None;
        }
        let s = stride(num_timesteps);
        proof {
            let a = num_ants as int;
            assert(a * (a + 1) == a * a + a) by (nonlinear_arith);
            assert(a * a <= a * (a + 1)) by (nonlinear_arith) requires a >= 0;
        }
        let ants_sq = match num_ants.checked_mul(num_ants) {
            Some(v) => v,
            None => return None,
        };
        let ants_pairs = match ants_sq.checked_add(num_ants) {
            Some(v) => v,
            None => return None,
        };
        assert(ants_pairs == num_ants * (num_ants + 1)) by (nonlinear_arith)
            requires ants_pairs == num_ants * num_ants + num_ants;
        let nb = ants_pairs / 2;
        let height = match num_coarse_chans.checked_mul(fine_chans_per_coarse) {
            Some(v) => v,
            None => return None,
        };
        let plane = match height.checked_mul(s) {
            Some(v) => v,
            None => return None,
        };
        let image = match plane.checked_mul(NUM_PLANES) {
            Some(v) => v,
            None => return None,
        };
        assert(image == NUM_PLANES * plane);
        if nb.checked_mul(image).is_none() {
            return None;
        }
        let bf = match nb.checked_mul(fine_chans_per_coarse) {
            Some(v) => v,
            None => return None,
        };
        if bf.checked_mul(NUM_PLANES).is_none() {
            return None;
        }
        let tb = match num_timesteps.checked_mul(nb) {
            Some(v) => v,
            None => return None,
        };
        if tb.checked_mul(fine_chans_per_coarse).is_none() {
            return None;
        }
        if num_coarse_chans.checked_mul(num_timesteps).is_none() {
            return None;
        }
        Some(Geometry {
            num_timesteps,
            num_coarse_chans,
            fine_chans_per_coarse,
            num_ants,
            num_baselines: nb,
        })
    }

    /// Rows of an image buffer.
    pub fn height(&self) -> (r: usize)
        requires
            self.wf(),
        ensures
            r == self.spec_height(),
    {
        self.num_coarse_chans * self.fine_chans_per_coarse
    }

    /// Padded row stride of an image buffer.
    pub fn image_stride(&self) -> (r: usize)
        requires
            self.wf(),
        ensures
            r == self.spec_stride(),
    {
        stride(self.num_timesteps)
    }

    /// Values in one raw chunk.
    pub fn chunk_len(&self) -> (r: usize)
        requires
            self.wf(),
        ensures
            r == self.spec_chunk_len(),
    {
        self.num_baselines * self.fine_chans_per_coarse * NUM_PLANES
    }

    /// Flag bytes in the body of one flag file.
    pub fn body_len(&self) -> (r: usize)
        requires
            self.wf(),
        ensures
            r == self.spec_body_len(),
    {
        self.num_timesteps * self.num_baselines * self.fine_chans_per_coarse
    }

    /// Row of an image buffer that holds fine channel `fine` of coarse channel `coarse`.
    pub fn row_offset(&self, coarse: usize, fine: usize) -> (r: usize)
        requires
            self.wf(),
            coarse < self.num_coarse_chans,
            fine < self.fine_chans_per_coarse,
        ensures
            r == self.fine_chans_per_coarse * coarse + fine,
            r < self.spec_height(),
    {
        proof {
            let f = self.fine_chans_per_coarse as int;
            let c = coarse as int;
            assert(f * c + fine < self.num_coarse_chans * f) by (nonlinear_arith)
                requires c < self.num_coarse_chans, fine < f, 0 <= c;
        }
        self.fine_chans_per_coarse * coarse + fine
    }
}

/// Splits `x` into quotient and remainder by `d`, given one such split.
pub proof fn lemma_div_mod_unique(x: int, d: int, q: int, r: int)
    requires
        d > 0,
        0 <= r < d,
        x == q * d + r,
    ensures
        x / d == q,
        x % d == r,
{
    lemma_fundamental_div_mod_converse(x, d, q, r);
}

/// Row `f * coarse + fine` of a buffer is fine channel `fine` of coarse
/// channel `coarse`.
pub proof fn lemma_row_split(g: Geometry, coarse: int, fine: int)
    requires
        g.wf(),
        0 <= coarse < g.num_coarse_chans,
        0 <= fine < g.fine_chans_per_coarse,
    ensures
        ({
            let f = g.fine_chans_per_coarse as int;
            &&& (f * coarse + fine) / f == coarse
            &&& (f * coarse + fine) % f == fine
            &&& 0 <= f * coarse + fine < g.spec_height()
        }),
{
    let f = g.fine_chans_per_coarse as int;
    assert(f * coarse == coarse * f) by (nonlinear_arith);
    lemma_div_mod_unique(f * coarse + fine, f, coarse, fine);
    assert(0 <= f * coarse + fine < g.num_coarse_chans * f) by (nonlinear_arith)
        requires 0 <= coarse < g.num_coarse_chans, 0 <= fine < f;
}

} // verus!
