//! Per-baseline flag masks, and their transposition into the byte layout of a
//! flag file.
use vstd::prelude::*;
use vstd::arithmetic::div_mod::lemma_fundamental_div_mod;
use crate::geometry::{Geometry, lemma_div_mod_unique, lemma_row_split};

verus! {

/// One baseline's flags: a grid of `height` rows of `stride` cells, of which
/// the first `width` of each row are meaningful.
pub struct FlagMask {
    pub width: usize,
    pub height: usize,
    pub stride: usize,
    /// The rows, one after another.
    pub flags: Vec<bool>,
}

impl FlagMask {
    pub open spec fn wf(&self) -> bool {
        &&& self.width <= self.stride
        &&& self.flags@.len() == self.height * self.stride
    }

    /// The flag of cell (`row`, `col`).
    pub open spec fn spec_get(&self, row: int, col: int) -> bool {
        self.flags@[row * self.stride + col]
    }

    /// A mask of `height` rows of `stride` cells, every one set to `value`.
    pub fn new(width: usize, height: usize, stride: usize, value: bool) -> (r: FlagMask)
        requires
            width <= stride,
            height * stride <= usize::MAX,
        ensures
            r.wf(),
            r.width == width,
            r.height == height,
            r.stride == stride,
            forall|i: int| 0 <= i < r.flags@.len() ==> r.flags@[i] == value,
    {
        let len = height * stride;
        let mut flags: Vec<bool> = Vec::new();
        let mut i: usize = 0;
        while i < len
            invariant
                i <= len,
                flags@.len() == i,
                forall|j: int| 0 <= j < i ==> flags@[j] == value,
            decreases len - i,
        {
            flags.push(value);
            i += 1;
        }
        FlagMask { width, height, stride, flags }
    }

    /// The flag of cell (`row`, `col`).
    pub fn get(&self, row: usize, col: usize) -> (r: bool)
        requires
            self.wf(),
            row < self.height,
            col < self.stride,
        ensures
            r == self.spec_get(row as int, col as int),
    {
        let len = self.flags.len();
        proof {
            lemma_cell_in_mask(self.height as int, self.stride as int, row as int, col as int);
        }
        self.flags[row * self.stride + col]
    }

    /// Sets the flag of cell (`row`, `col`) and leaves every other cell as it was.
    pub fn set(&mut self, row: usize, col: usize, value: bool)
        requires
            old(self).wf(),
            row < old(self).height,
            col < old(self).stride,
        ensures
            final(self).wf(),
            final(self).width == old(self).width,
            final(self).height == old(self).height,
            final(self).stride == old(self).stride,
            final(self).spec_get(row as int, col as int) == value,
            forall|r: int, c: int|
                0 <= r < old(self).height && 0 <= c < old(self).stride && (r, c) != (
                row as int,
                col as int,
                ) ==> final(self).spec_get(r, c) == old(self).spec_get(r, c),
    {
        let len = self.flags.len();
        proof {
            lemma_cell_in_mask(self.height as int, self.stride as int, row as int, col as int);
        }
        let i = row * self.stride + col;
        self.flags.set(i, value);
        proof {
            assert forall|r: int, c: int|
                0 <= r < self.height && 0 <= c < self.stride && (r, c) != (row as int, col as int)
                implies #[trigger] self.spec_get(r, c) == old(self).spec_get(r, c) by {
                lemma_cell_in_mask(self.height as int, self.stride as int, r, c);
            }
        }
    }
}

/// Cell (`row`, `col`) of a grid of `height` rows of `stride` cells lies inside
/// it, and decodes back into its row and column.
pub proof fn lemma_cell_in_mask(height: int, stride: int, row: int, col: int)
    requires
        0 <= row < height,
        0 <= col < stride,
    ensures
        0 <= row * stride <= row * stride + col < height * stride,
        (row * stride + col) / stride == row,
        (row * stride + col) % stride == col,
{
    lemma_div_mod_unique(row * stride + col, stride, row, col);
    assert(0 <= row * stride) by (nonlinear_arith)
        requires 0 <= row, 0 <= col < stride;
    assert(row * stride + col < height * stride) by (nonlinear_arith)
        requires 0 <= row < height, 0 <= col < stride;
}

/// Position in a flag file's body of timestep `t`, baseline `b` and fine
/// channel `f`: timestep varies slowest, fine channel fastest.
pub open spec fn file_offset(g: Geometry, t: int, b: int, f: int) -> int {
    (t * g.num_baselines + b) * g.fine_chans_per_coarse + f
}

pub open spec fn offset_timestep(g: Geometry, o: int) -> int {
    o / (g.fine_chans_per_coarse as int) / (g.num_baselines as int)
}

pub open spec fn offset_baseline(g: Geometry, o: int) -> int {
    o / (g.fine_chans_per_coarse as int) % (g.num_baselines as int)
}

pub open spec fn offset_fine(g: Geometry, o: int) -> int {
    o % (g.fine_chans_per_coarse as int)
}

/// The byte that stands for a flag: one when flagged, zero when not.
pub open spec fn flag_byte(flag: bool) -> u8 {
    if flag {
        1
    } else {
        0
    }
}

/// The masks hold one mask per baseline, each covering every row of the
/// geometry and at least its timesteps as columns.
pub open spec fn masks_fit(g: Geometry, masks: Seq<FlagMask>) -> bool {
    &&& masks.len() == g.num_baselines
    &&& forall|b: int| 0 <= b < masks.len() ==> mask_fits(g, #[trigger] masks[b])
}

/// The body of the flag file of coarse channel `coarse`: for every timestep,
/// baseline and fine channel, in that order, the byte of that cell's flag.
pub open spec fn channel_body(g: Geometry, masks: Seq<FlagMask>, coarse: int) -> Seq<u8> {
    Seq::new(
        g.spec_body_len() as nat,
        |o: int|
            flag_byte(
                masks[offset_baseline(g, o)].spec_get(
                    g.fine_chans_per_coarse * coarse + offset_fine(g, o),
                    offset_timestep(g, o),
                ),
            ),
    )
}

/// A body position decodes into its timestep, baseline and fine channel.
pub proof fn lemma_offset_decompose(g: Geometry, o: int)
    requires
        g.wf(),
        0 <= o < g.spec_body_len(),
    ensures
        0 <= offset_timestep(g, o) < g.num_timesteps,
        0 <= offset_baseline(g, o) < g.num_baselines,
        0 <= offset_fine(g, o) < g.fine_chans_per_coarse,
        o == file_offset(g, offset_timestep(g, o), offset_baseline(g, o), offset_fine(g, o)),
{
    let f = g.fine_chans_per_coarse as int;
    let nb = g.num_baselines as int;
    let t = g.num_timesteps as int;
    assert(f > 0 && nb > 0) by (nonlinear_arith)
        requires 0 <= o < (t * nb) * f, t >= 0, nb >= 0, f >= 0;
    lemma_fundamental_div_mod(o, f);
    let q = o / f;
    assert(0 <= q < t * nb) by (nonlinear_arith)
        requires o == f * q + o % f, 0 <= o % f < f, 0 <= o < (t * nb) * f;
    lemma_fundamental_div_mod(q, nb);
    assert(0 <= q / nb < t) by (nonlinear_arith)
        requires q == nb * (q / nb) + q % nb, 0 <= q % nb < nb, 0 <= q < t * nb;
    assert(o == ((q / nb) * nb + q % nb) * f + o % f) by (nonlinear_arith)
        requires o == f * q + o % f, q == nb * (q / nb) + q % nb;
}

/// The body position of a timestep, baseline and fine channel lies inside the
/// body and decodes back into them.
pub proof fn lemma_file_offset(g: Geometry, t: int, b: int, f: int)
    requires
        g.wf(),
        0 <= t < g.num_timesteps,
        0 <= b < g.num_baselines,
        0 <= f < g.fine_chans_per_coarse,
    ensures
        0 <= file_offset(g, t, b, f) < g.spec_body_len(),
        offset_timestep(g, file_offset(g, t, b, f)) == t,
        offset_baseline(g, file_offset(g, t, b, f)) == b,
        offset_fine(g, file_offset(g, t, b, f)) == f,
{
    let fc = g.fine_chans_per_coarse as int;
    let nb = g.num_baselines as int;
    assert(0 <= t * nb + b < g.num_timesteps * nb) by (nonlinear_arith)
        requires 0 <= t < g.num_timesteps, 0 <= b < nb;
    assert(0 <= (t * nb + b) * fc + f < (g.num_timesteps * nb) * fc) by (nonlinear_arith)
        requires 0 <= t * nb + b < g.num_timesteps * nb, 0 <= f < fc;
    lemma_div_mod_unique(file_offset(g, t, b, f), fc, t * nb + b, f);
    lemma_div_mod_unique(t * nb + b, nb, t, b);
}

/// Why a set of flag masks cannot be laid out as flag files.
#[derive(Clone, Copy, Debug, PartialEq, Eq, Structural)]
pub enum MaskError {
    /// There are fewer masks than baselines; this is the first baseline without one.
    MissingBaseline { baseline: usize },
    /// There are more masks than baselines.
    ExtraMasks { count: usize },
    /// This baseline's mask does not cover every row and timestep of the geometry.
    DimensionMismatch { baseline: usize },
}

/// The mask is well formed, has one row per fine channel of every coarse
/// channel, and a column for every timestep.
pub open spec fn mask_fits(g: Geometry, mask: FlagMask) -> bool {
    mask.wf() && mask.height == g.spec_height() && g.num_timesteps <= mask.stride
}

/// `r` is the outcome of checking `masks` against geometry `g`: success when
/// there is one fitting mask per baseline; otherwise a missing baseline, a
/// surplus, or the first baseline whose mask does not fit.
pub open spec fn mask_check(g: Geometry, masks: Seq<FlagMask>, r: Result<(), MaskError>) -> bool {
    &&& masks.len() < g.num_baselines ==> r == Err::<(), MaskError>(
        MaskError::MissingBaseline { baseline: masks.len() as usize },
    )
    &&& masks.len() > g.num_baselines ==> r == Err::<(), MaskError>(
        MaskError::ExtraMasks { count: masks.len() as usize },
    )
    &&& masks_fit(g, masks) ==> r is Ok
    &&& masks.len() == g.num_baselines && !masks_fit(g, masks) ==> (r matches Err(
        MaskError::DimensionMismatch { baseline },
    ) && baseline < masks.len() && !mask_fits(g, masks[baseline as int]) && (forall|b: int|
        0 <= b < baseline ==> mask_fits(g, #[trigger] masks[b])))
}

/// Checks that `masks` holds one mask per baseline, each covering every row
/// and timestep of the geometry.
pub fn check_masks(g: &Geometry, masks: &Vec<FlagMask>) -> (r: Result<(), MaskError>)
    requires
        g.wf(),
    ensures
        mask_check(*g, masks@, r),
{
    let nb = g.num_baselines;
    if masks.len() < nb {
        return Err(MaskError::MissingBaseline { baseline: masks.len() });
    }
    if masks.len() > nb {
        return Err(MaskError::ExtraMasks { count: masks.len() });
    }
    let h = g.height();
    let mut b: usize = 0;
    while b < nb
        invariant
            g.wf(),
            nb == g.num_baselines,
            masks@.len() == nb,
            h == g.spec_height(),
            b <= nb,
            forall|m: int| 0 <= m < b ==> mask_fits(*g, #[trigger] masks@[m]),
        decreases nb - b,
    {
        let m = &masks[b];
        let n = m.flags.len();
        let cells_match = match m.height.checked_mul(m.stride) {
            Some(cells) => cells == n,
            None => false,
        };
        if !(cells_match && m.width <= m.stride && m.height == h && g.num_timesteps <= m.stride) {
            proof {
                assert(!mask_fits(*g, masks@[b as int]));
            }
            return Err(MaskError::DimensionMismatch { baseline: b });
        }
        b += 1;
    }
    Ok(())
}

/// The mask has the shape of an image buffer of the geometry: one column per
/// timestep and one row per fine channel of every coarse channel.
pub open spec fn mask_matches_image(g: Geometry, mask: FlagMask) -> bool {
    mask_fits(g, mask) && mask.width == g.num_timesteps
}

impl FlagMask {
    /// Whether this mask has the shape of an image buffer of `g`.
    pub fn matches_image(&self, g: &Geometry) -> (r: bool)
        requires
            g.wf(),
        ensures
            r == mask_matches_image(*g, *self),
    {
        let n = self.flags.len();
        let cells_match = match self.height.checked_mul(self.stride) {
            Some(cells) => cells == n,
            None => false,
        };
        cells_match && self.width <= self.stride && self.height == g.height()
            && g.num_timesteps <= self.stride && self.width == g.num_timesteps
    }
}

/// Lays out the flags of coarse channel `coarse` (by its index in the
/// geometry) in flag-file order: for every timestep, baseline and fine
/// channel, one byte, one when flagged and zero when not. `masks` holds one
/// mask per baseline, in baseline order.
pub fn channel_flags(g: &Geometry, masks: &Vec<FlagMask>, coarse: usize) -> (r: Result<
    Vec<u8>,
    MaskError,
>)
    requires
        g.wf(),
        coarse < g.num_coarse_chans,
    ensures
        match r {
            Ok(v) => masks_fit(*g, masks@) && v@ == channel_body(*g, masks@, coarse as int),
            Err(e) => mask_check(*g, masks@, Err(e)),
        },
{
    match check_masks(g, masks) {
        Ok(()) => {},
        Err(e) => {
            return Err(e);
        },
    }
    let nb = g.num_baselines;
    let fpc = g.fine_chans_per_coarse;
    let len = g.body_len();
    let mut out: Vec<u8> = Vec::new();
    let mut o: usize = 0;
    while o < len
        invariant
            g.wf(),
            masks_fit(*g, masks@),
            coarse < g.num_coarse_chans,
            fpc == g.fine_chans_per_coarse,
            nb == g.num_baselines,
            len == g.spec_body_len(),
            o <= len,
            out@.len() == o,
            forall|j: int| 0 <= j < o ==> #[trigger] out@[j] == channel_body(*g, masks@, coarse as int)[j],
        decreases len - o,
    {
        proof {
            lemma_offset_decompose(*g, o as int);
        }
        let f = o % fpc;
        let q = o / fpc;
        let bl = q % nb;
        let t = q / nb;
        proof {
            lemma_row_split(*g, coarse as int, f as int);
        }
        let flagged = masks[bl].get(fpc * coarse + f, t);
        out.push(if flagged { 1u8 } else { 0u8 });
        o += 1;
    }
    proof {
        assert(out@ =~= channel_body(*g, masks@, coarse as int));
    }
    Ok(out)
}

/// The byte of timestep `t`, baseline `b` and fine channel `f` in the body of
/// a channel's flag file is that cell's flag.
pub proof fn lemma_channel_body_at(g: Geometry, masks: Seq<FlagMask>, coarse: int, t: int, b: int, f: int)
    requires
        g.wf(),
        0 <= t < g.num_timesteps,
        0 <= b < g.num_baselines,
        0 <= f < g.fine_chans_per_coarse,
    ensures
        0 <= file_offset(g, t, b, f) < channel_body(g, masks, coarse).len(),
        channel_body(g, masks, coarse)[file_offset(g, t, b, f)] == flag_byte(
            masks[b].spec_get(g.fine_chans_per_coarse * coarse + f, t),
        ),
{
    lemma_file_offset(g, t, b, f);
}

} // verus!
