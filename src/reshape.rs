//! The scatter of raw visibility chunks into per-baseline image buffers.
//!
//! A raw chunk holds every value of one (coarse channel, timestep) pair,
//! ordered by baseline, then fine channel, then plane. Chunks may arrive in any
//! order; each one fills the column of its timestep in the rows of its coarse
//! channel, in every plane of every baseline's buffer.
use vstd::prelude::*;
use vstd::arithmetic::div_mod::lemma_fundamental_div_mod;
use crate::geometry::{Geometry, NUM_PLANES, lemma_div_mod_unique, lemma_row_split, lemma_stride_invariant};
use crate::image::{ImageBuffer, cell_index, lemma_cell_index};

verus! {

/// Why a chunk was refused, or why reshaping could not be completed.
#[derive(Clone, Copy, Debug, PartialEq, Eq, Structural)]
pub enum ReshapeError {
    /// The chunk names a coarse channel that the geometry does not have.
    CoarseChanOutOfRange { coarse_chan: usize },
    /// The chunk names a timestep that the geometry does not have.
    TimestepOutOfRange { timestep: usize },
    /// The chunk does not hold one value per baseline, fine channel and plane.
    MalformedChunk { expected: usize, actual: usize },
    /// A chunk for this coarse channel and timestep was already taken.
    DuplicateChunk { coarse_chan: usize, timestep: usize },
    /// No chunk was taken for this coarse channel and timestep.
    MissingChunk { coarse_chan: usize, timestep: usize },
    /// The reader could not read the chunk of this coarse channel and timestep.
    SourceRead { coarse_chan: usize, timestep: usize },
}

/// Position in a raw chunk of the value of baseline `baseline`, fine channel
/// `fine` and plane `plane`.
pub open spec fn source_index(g: Geometry, baseline: int, fine: int, plane: int) -> int {
    (baseline * g.fine_chans_per_coarse + fine) * NUM_PLANES + plane
}

/// What cell (`row`, `col`) of plane `plane` of baseline `baseline` holds once
/// the chunks in `chunks` (keyed by coarse channel and timestep) are scattered
/// into buffers that start out as `fill`.
pub open spec fn scattered_value<T>(
    g: Geometry,
    chunks: Map<(int, int), Seq<T>>,
    fill: T,
    baseline: int,
    plane: int,
    row: int,
    col: int,
) -> T {
    let coarse = row / (g.fine_chans_per_coarse as int);
    let fine = row % (g.fine_chans_per_coarse as int);
    if col < g.num_timesteps && chunks.contains_key((coarse, col)) {
        chunks[(coarse, col)][source_index(g, baseline, fine, plane)]
    } else {
        fill
    }
}

/// Position, in the storage of all buffers one after another, of a cell of
/// baseline `baseline`.
pub open spec fn flat_index(g: Geometry, baseline: int, plane: int, row: int, col: int) -> int {
    baseline * g.spec_image_len() + cell_index(g.spec_height(), g.spec_stride(), plane, row, col)
}

pub open spec fn flat_baseline(g: Geometry, i: int) -> int {
    i / g.spec_image_len()
}

pub open spec fn flat_plane(g: Geometry, i: int) -> int {
    (i % g.spec_image_len()) / g.spec_stride() / g.spec_height()
}

pub open spec fn flat_row(g: Geometry, i: int) -> int {
    (i % g.spec_image_len()) / g.spec_stride() % g.spec_height()
}

pub open spec fn flat_col(g: Geometry, i: int) -> int {
    (i % g.spec_image_len()) % g.spec_stride()
}

/// A cell position decodes back into its baseline, plane, row and column.
pub proof fn lemma_flat_index(g: Geometry, baseline: int, plane: int, row: int, col: int)
    requires
        g.wf(),
        0 <= baseline,
        0 <= plane < NUM_PLANES,
        0 <= row < g.spec_height(),
        0 <= col < g.spec_stride(),
    ensures
        0 <= baseline * g.spec_image_len() <= flat_index(g, baseline, plane, row, col)
            < (baseline + 1) * g.spec_image_len(),
        flat_baseline(g, flat_index(g, baseline, plane, row, col)) == baseline,
        flat_plane(g, flat_index(g, baseline, plane, row, col)) == plane,
        flat_row(g, flat_index(g, baseline, plane, row, col)) == row,
        flat_col(g, flat_index(g, baseline, plane, row, col)) == col,
{
    let h = g.spec_height();
    let s = g.spec_stride();
    let n = g.spec_image_len();
    let j = cell_index(h, s, plane, row, col);
    lemma_cell_index(h, s, plane, row, col);
    assert((plane + 1) * h * s <= NUM_PLANES * (h * s)) by (nonlinear_arith)
        requires plane < NUM_PLANES, 0 <= row < h, 0 < s;
    assert(0 <= baseline * n) by (nonlinear_arith)
        requires 0 <= baseline, 0 <= n;
    assert(baseline * n + j < (baseline + 1) * n) by (nonlinear_arith)
        requires j < n;
    lemma_div_mod_unique(flat_index(g, baseline, plane, row, col), n, baseline, j);
}

/// Every position inside the storage of `num_baselines` buffers is the
/// position of one cell.
pub proof fn lemma_flat_decompose(g: Geometry, i: int)
    requires
        g.wf(),
        0 <= i < g.num_baselines * g.spec_image_len(),
    ensures
        0 <= flat_baseline(g, i) < g.num_baselines,
        0 <= flat_plane(g, i) < NUM_PLANES,
        0 <= flat_row(g, i) < g.spec_height(),
        0 <= flat_col(g, i) < g.spec_stride(),
        i == flat_index(g, flat_baseline(g, i), flat_plane(g, i), flat_row(g, i), flat_col(g, i)),
{
    let h = g.spec_height();
    let s = g.spec_stride();
    let n = g.spec_image_len();
    let nb = g.num_baselines as int;
    lemma_stride_invariant(g.num_timesteps as int);
    assert(n > 0) by (nonlinear_arith)
        requires i < nb * n, 0 <= i, n >= 0;
    lemma_fundamental_div_mod(i, n);
    let b = i / n;
    let j = i % n;
    assert(0 <= b < nb) by (nonlinear_arith)
        requires i == n * b + j, 0 <= j < n, 0 <= i < nb * n;
    lemma_fundamental_div_mod(j, s);
    let q = j / s;
    let col = j % s;
    assert(0 <= q < NUM_PLANES * h) by (nonlinear_arith)
        requires j == s * q + col, 0 <= col < s, 0 <= j < n, n == NUM_PLANES * (h * s);
    assert(h > 0) by (nonlinear_arith)
        requires 0 <= q < NUM_PLANES * h;
    lemma_fundamental_div_mod(q, h);
    let p = q / h;
    let row = q % h;
    assert(0 <= p < NUM_PLANES) by (nonlinear_arith)
        requires q == h * p + row, 0 <= row < h, 0 <= q < NUM_PLANES * h;
    assert(i == b * n + (p * h + row) * s + col) by (nonlinear_arith)
        requires i == n * b + j, j == s * q + col, q == h * p + row;
}

/// A position in a raw chunk decodes into its baseline, fine channel and plane.
pub proof fn lemma_source_decompose(g: Geometry, k: int)
    requires
        g.wf(),
        0 <= k < g.spec_chunk_len(),
    ensures
        ({
            let f = g.fine_chans_per_coarse as int;
            let b = (k / NUM_PLANES as int) / f;
            let fine = (k / NUM_PLANES as int) % f;
            let p = k % NUM_PLANES as int;
            &&& f > 0
            &&& 0 <= b < g.num_baselines
            &&& 0 <= fine < f
            &&& 0 <= p < NUM_PLANES
            &&& k == source_index(g, b, fine, p)
        }),
{
    let f = g.fine_chans_per_coarse as int;
    let nb = g.num_baselines as int;
    lemma_fundamental_div_mod(k, NUM_PLANES as int);
    let q = k / NUM_PLANES as int;
    let p = k % NUM_PLANES as int;
    assert(0 <= q < nb * f) by (nonlinear_arith)
        requires k == NUM_PLANES * q + p, 0 <= p < NUM_PLANES, 0 <= k < (nb * f) * NUM_PLANES;
    assert(f > 0) by (nonlinear_arith)
        requires 0 <= q < nb * f, nb >= 0;
    lemma_fundamental_div_mod(q, f);
    assert(0 <= q / f < nb) by (nonlinear_arith)
        requires q == f * (q / f) + q % f, 0 <= q % f < f, 0 <= q < nb * f;
}

/// Position in its raw chunk of the value that lands in the cell at storage
/// position `i`.
pub open spec fn flat_source(g: Geometry, i: int) -> int {
    source_index(
        g,
        flat_baseline(g, i),
        flat_row(g, i) % (g.fine_chans_per_coarse as int),
        flat_plane(g, i),
    )
}

/// The cell at storage position `i` is written by the chunk of coarse channel
/// `coarse` and timestep `timestep`.
pub open spec fn flat_targets(g: Geometry, coarse: int, timestep: int, i: int) -> bool {
    flat_col(g, i) == timestep && flat_row(g, i) / (g.fine_chans_per_coarse as int) == coarse
}

/// Chunk positions of in-range baselines, fine channels and planes lie inside
/// the chunk.
pub proof fn lemma_source_bound(g: Geometry, baseline: int, fine: int, plane: int)
    requires
        g.wf(),
        0 <= baseline < g.num_baselines,
        0 <= fine < g.fine_chans_per_coarse,
        0 <= plane < NUM_PLANES,
    ensures
        0 <= source_index(g, baseline, fine, plane) < g.spec_chunk_len(),
{
    let f = g.fine_chans_per_coarse as int;
    assert(0 <= baseline * f + fine < g.num_baselines * f) by (nonlinear_arith)
        requires 0 <= baseline < g.num_baselines, 0 <= fine < f;
    assert(0 <= (baseline * f + fine) * NUM_PLANES + plane < (g.num_baselines * f) * NUM_PLANES)
        by (nonlinear_arith)
        requires 0 <= baseline * f + fine < g.num_baselines * f, 0 <= plane < NUM_PLANES;
}

/// Receives the raw chunks of one observation and scatters each into the
/// image buffers of all baselines.
pub struct Reshaper<T> {
    pub geometry: Geometry,
    /// The value of every cell that no chunk has written.
    pub fill: T,
    /// All buffers, one after another, in baseline order.
    pub data: Vec<T>,
    /// Whether the chunk of (coarse channel `c`, timestep `t`) was taken, at
    /// `c * num_timesteps + t`.
    pub received: Vec<bool>,
    /// The chunks taken so far, by coarse channel and timestep.
    pub chunks: Ghost<Map<(int, int), Seq<T>>>,
}

impl<T: Copy> Reshaper<T> {
    pub open spec fn wf(&self) -> bool {
        let g = self.geometry;
        &&& g.wf()
        &&& self.data@.len() == g.num_baselines * g.spec_image_len()
        &&& self.received@.len() == g.num_coarse_chans * g.num_timesteps
        &&& forall|c: int, t: int|
            0 <= c < g.num_coarse_chans && 0 <= t < g.num_timesteps ==> (self.received@[c
                * g.num_timesteps + t] <==> #[trigger] self.chunks@.contains_key((c, t)))
        &&& forall|key: (int, int)| #[trigger]
            self.chunks@.contains_key(key) ==> 0 <= key.0 < g.num_coarse_chans && 0 <= key.1
                < g.num_timesteps && self.chunks@[key].len() == g.spec_chunk_len()
        &&& forall|i: int|
            0 <= i < self.data@.len() ==> #[trigger] self.data@[i] == scattered_value(
                g,
                self.chunks@,
                self.fill,
                flat_baseline(g, i),
                flat_plane(g, i),
                flat_row(g, i),
                flat_col(g, i),
            )
    }

    /// A reshaper that has taken no chunk yet: every buffer holds `fill`.
    pub fn new(geometry: Geometry, fill: T) -> (r: Reshaper<T>)
        requires
            geometry.wf(),
        ensures
            r.wf(),
            r.geometry == geometry,
            r.fill == fill,
            r.chunks@ == Map::<(int, int), Seq<T>>::empty(),
    {
        let s = geometry.image_stride();
        let image_len = NUM_PLANES * (geometry.height() * s);
        let len = geometry.num_baselines * image_len;
        let mut data: Vec<T> = Vec::new();
        let mut i: usize = 0;
        while i < len
            invariant
                i <= len,
                data@.len() == i,
                forall|j: int| 0 <= j < i ==> data@[j] == fill,
            decreases len - i,
        {
            data.push(fill);
            i += 1;
        }
        let grid = geometry.num_coarse_chans * geometry.num_timesteps;
        let mut received: Vec<bool> = Vec::new();
        let mut j: usize = 0;
        while j < grid
            invariant
                j <= grid,
                received@.len() == j,
                forall|m: int| 0 <= m < j ==> !received@[m],
            decreases grid - j,
        {
            received.push(false);
            j += 1;
        }
        let r = Reshaper { geometry, fill, data, received, chunks: Ghost(Map::empty()) };
        proof {
            let g = geometry;
            assert forall|c: int, t: int|
                0 <= c < g.num_coarse_chans && 0 <= t < g.num_timesteps implies (r.received@[c
                    * g.num_timesteps + t] <==> #[trigger] r.chunks@.contains_key((c, t))) by {
                assert(0 <= c * g.num_timesteps + t < g.num_coarse_chans * g.num_timesteps)
                    by (nonlinear_arith)
                    requires 0 <= c < g.num_coarse_chans, 0 <= t < g.num_timesteps;
            }
        }
        r
    }

    /// The error with which a chunk for (`coarse_chan`, `timestep`) holding
    /// `chunk_len` values is refused, if it is.
    pub open spec fn accept_error(&self, coarse_chan: usize, timestep: usize, chunk_len: int) -> Option<
        ReshapeError,
    > {
        let g = self.geometry;
        if coarse_chan >= g.num_coarse_chans {
            Some(ReshapeError::CoarseChanOutOfRange { coarse_chan })
        } else if timestep >= g.num_timesteps {
            Some(ReshapeError::TimestepOutOfRange { timestep })
        } else if chunk_len != g.spec_chunk_len() {
            Some(
                ReshapeError::MalformedChunk {
                    expected: g.spec_chunk_len() as usize,
                    actual: chunk_len as usize,
                },
            )
        } else if self.chunks@.contains_key((coarse_chan as int, timestep as int)) {
            Some(ReshapeError::DuplicateChunk { coarse_chan, timestep })
        } else {
            None
        }
    }

    /// Takes the raw chunk of coarse channel `coarse_chan` at timestep
    /// `timestep` and scatters it into every baseline's buffer: value
    /// `source_index(b, f, p)` of the chunk goes to row
    /// `fine_chans_per_coarse * coarse_chan + f`, column `timestep` of plane
    /// `p` of baseline `b`. A chunk that is out of range, of the wrong length
    /// or a repeat is refused and changes nothing.
    pub fn accept_chunk(&mut self, coarse_chan: usize, timestep: usize, chunk: &Vec<T>) -> (r:
        Result<(), ReshapeError>)
        requires
            old(self).wf(),
        ensures
            final(self).wf(),
            match old(self).accept_error(coarse_chan, timestep, chunk@.len() as int) {
                Some(e) => r == Err::<(), ReshapeError>(e) && *final(self) == *old(self),
                None => r is Ok && final(self).geometry == old(self).geometry && final(self).fill
                    == old(self).fill && final(self).chunks@ == old(self).chunks@.insert(
                    (coarse_chan as int, timestep as int),
                    chunk@,
                ),
            },
    {
        let g = self.geometry;
        if coarse_chan >= g.num_coarse_chans {
            return Err(ReshapeError::CoarseChanOutOfRange { coarse_chan });
        }
        if timestep >= g.num_timesteps {
            return Err(ReshapeError::TimestepOutOfRange { timestep });
        }
        let expected = g.chunk_len();
        if chunk.len() != expected {
            return Err(ReshapeError::MalformedChunk { expected, actual: chunk.len() });
        }
        let ghost c0 = coarse_chan as int;
        let ghost t0 = timestep as int;
        proof {
            assert(0 <= c0 * g.num_timesteps + t0 < g.num_coarse_chans * g.num_timesteps)
                by (nonlinear_arith)
                requires 0 <= c0 < g.num_coarse_chans, 0 <= t0 < g.num_timesteps;
            assert(self.chunks@.contains_key((c0, t0)) == self.received@[c0 * g.num_timesteps + t0]);
        }
        let slot = coarse_chan * g.num_timesteps + timestep;
        if self.received[slot] {
            return Err(ReshapeError::DuplicateChunk { coarse_chan, timestep });
        }
        let s = g.image_stride();
        let h = g.height();
        proof {
            lemma_stride_invariant(g.num_timesteps as int);
        }
        let image_len = NUM_PLANES * (h * s);
        let fpc = g.fine_chans_per_coarse;
        assert(fpc * c0 <= g.num_coarse_chans * fpc) by (nonlinear_arith)
            requires 0 <= c0 < g.num_coarse_chans, fpc >= 0;
        let row_base = fpc * coarse_chan;
        let ghost old_data = self.data@;
        let mut k: usize = 0;
        while k < expected
            invariant
                self.geometry == g,
                self.fill == old(self).fill,
                self.received == old(self).received,
                self.chunks == old(self).chunks,
                self.data@.len() == old_data.len(),
                old_data.len() == g.num_baselines * g.spec_image_len(),
                g.wf(),
                k <= expected,
                expected == g.spec_chunk_len(),
                chunk@.len() == expected,
                s == g.spec_stride(),
                h == g.spec_height(),
                image_len == g.spec_image_len(),
                fpc == g.fine_chans_per_coarse,
                row_base == fpc * c0,
                c0 == coarse_chan,
                t0 == timestep,
                0 <= c0 < g.num_coarse_chans,
                0 <= t0 < g.num_timesteps,
                forall|i: int|
                    0 <= i < self.data@.len() ==> #[trigger] self.data@[i] == (if flat_targets(
                        g,
                        c0,
                        t0,
                        i,
                    ) && flat_source(g, i) < k {
                        chunk@[flat_source(g, i)]
                    } else {
                        old_data[i]
                    }),
            decreases expected - k,
        {
            let bf = k / NUM_PLANES;
            let p = k % NUM_PLANES;
            proof {
                lemma_source_decompose(g, k as int);
            }
            let b = bf / fpc;
            let f = bf % fpc;
            proof {
                lemma_row_split(g, c0, f as int);
                lemma_flat_index(g, b as int, p as int, fpc * c0 + f, t0);
                lemma_cell_index(h as int, s as int, p as int, fpc * c0 + f, t0);
                assert(b * image_len <= (g.num_baselines - 1) * image_len) by (nonlinear_arith)
                    requires b < g.num_baselines, image_len >= 0;
                assert((b + 1) * image_len <= g.num_baselines * image_len) by (nonlinear_arith)
                    requires b < g.num_baselines, image_len >= 0;
            }
            let dest = b * image_len + ((p * h + (row_base + f)) * s + timestep);
            self.data.set(dest, chunk[k]);
            proof {
                let d = dest as int;
                assert(d == flat_index(g, b as int, p as int, fpc * c0 + f, t0));
                assert forall|i: int| 0 <= i < self.data@.len() implies #[trigger] self.data@[i] == (
                if flat_targets(g, c0, t0, i) && flat_source(g, i) < k + 1 {
                    chunk@[flat_source(g, i)]
                } else {
                    old_data[i]
                }) by {
                    if i == d {
                    } else {
                        if flat_targets(g, c0, t0, i) && flat_source(g, i) == k {
                            lemma_flat_decompose(g, i);
                            let fv = g.fine_chans_per_coarse as int;
                            let bi = flat_baseline(g, i);
                            let pi = flat_plane(g, i);
                            let ri = flat_row(g, i);
                            lemma_fundamental_div_mod(ri, fv);
                            let fi = ri % fv;
                            assert(0 <= fi < fv);
                            lemma_div_mod_unique(k as int, NUM_PLANES as int, bi * fv + fi, pi);
                            assert(0 <= bi * fv + fi) by (nonlinear_arith)
                                requires 0 <= bi, 0 <= fi, 0 <= fv;
                            lemma_div_mod_unique(bi * fv + fi, fv, bi, fi);
                            assert(ri == fv * c0 + fi);
                            assert(false);
                        }
                    }
                }
            }
            k += 1;
        }
        self.received.set(slot, true);
        let ghost old_chunks = self.chunks@;
        self.chunks = Ghost(self.chunks@.insert((c0, t0), chunk@));
        proof {
            let t = g.num_timesteps as int;
            assert forall|c: int, tt: int|
                0 <= c < g.num_coarse_chans && 0 <= tt < g.num_timesteps implies (self.received@[c
                    * t + tt] <==> #[trigger] self.chunks@.contains_key((c, tt))) by {
                assert(0 <= c * t + tt < g.num_coarse_chans * t) by (nonlinear_arith)
                    requires 0 <= c < g.num_coarse_chans, 0 <= tt < t;
                lemma_div_mod_unique(c * t + tt, t, c, tt);
                lemma_div_mod_unique(c0 * t + t0, t, c0, t0);
                assert(old_chunks.contains_key((c, tt)) == old(self).received@[c * t + tt]);
            }
            assert forall|i: int| 0 <= i < self.data@.len() implies #[trigger] self.data@[i]
                == scattered_value(
                g,
                self.chunks@,
                self.fill,
                flat_baseline(g, i),
                flat_plane(g, i),
                flat_row(g, i),
                flat_col(g, i),
            ) by {
                lemma_flat_decompose(g, i);
                let fv = g.fine_chans_per_coarse as int;
                let ri = flat_row(g, i);
                lemma_fundamental_div_mod(ri, fv);
                lemma_source_bound(g, flat_baseline(g, i), ri % fv, flat_plane(g, i));
                assert(old_data[i] == scattered_value(
                    g,
                    old_chunks,
                    self.fill,
                    flat_baseline(g, i),
                    flat_plane(g, i),
                    flat_row(g, i),
                    flat_col(g, i),
                ));
            }
        }
        Ok(())
    }

    /// Every (coarse channel, timestep) pair has had its chunk taken.
    pub open spec fn is_complete(&self) -> bool {
        forall|c: int, t: int|
            0 <= c < self.geometry.num_coarse_chans && 0 <= t < self.geometry.num_timesteps
                ==> #[trigger] self.chunks@.contains_key((c, t))
    }

    /// `buffers` are this reshaper's image buffers: one per baseline, in
    /// baseline order, each cell holding what the chunks taken put there.
    pub open spec fn holds_buffers(&self, buffers: Seq<ImageBuffer<T>>) -> bool {
        let g = self.geometry;
        &&& buffers.len() == g.num_baselines
        &&& forall|b: int|
            0 <= b < buffers.len() ==> {
                &&& (#[trigger] buffers[b]).wf()
                &&& buffers[b].width == g.num_timesteps
                &&& buffers[b].height == g.spec_height()
                &&& forall|p: int, row: int, col: int|
                    0 <= p < NUM_PLANES && 0 <= row < g.spec_height() && 0 <= col
                        < g.spec_stride() ==> #[trigger] buffers[b].spec_value(p, row, col)
                        == scattered_value(g, self.chunks@, self.fill, b, p, row, col)
            }
    }

    /// Slot `j` of the received grid is the first one still empty.
    pub open spec fn first_missing(&self, j: int) -> bool {
        &&& 0 <= j < self.received@.len()
        &&& !self.received@[j]
        &&& forall|m: int| 0 <= m < j ==> self.received@[m]
    }

    /// Hands out the image buffers, one per baseline in baseline order, once
    /// every chunk has been taken; otherwise names the first missing
    /// (coarse channel, timestep) pair, in coarse-channel-major order.
    pub fn finish(self) -> (r: Result<Vec<ImageBuffer<T>>, ReshapeError>)
        requires
            self.wf(),
        ensures
            r is Ok <==> self.is_complete(),
            r matches Ok(v) ==> self.holds_buffers(v@),
            r matches Err(e) ==> (exists|j: int|
                self.first_missing(j) && e == (ReshapeError::MissingChunk {
                    coarse_chan: (j / self.geometry.num_timesteps as int) as usize,
                    timestep: (j % self.geometry.num_timesteps as int) as usize,
                })),
    {
        let g = self.geometry;
        let nt = g.num_timesteps;
        let grid = self.received.len();
        let mut j: usize = 0;
        while j < grid
            invariant
                self.wf(),
                g == self.geometry,
                nt == g.num_timesteps,
                grid == self.received@.len(),
                j <= grid,
                forall|m: int| 0 <= m < j ==> self.received@[m],
            decreases grid - j,
        {
            if !self.received[j] {
                proof {
                    lemma_fundamental_div_mod(j as int, nt as int);
                    let c = j as int / nt as int;
                    let t = j as int % nt as int;
                    assert(0 <= c < g.num_coarse_chans) by (nonlinear_arith)
                        requires j == nt * c + t, 0 <= t < nt, j < g.num_coarse_chans * nt;
                    assert(j == c * nt + t);
                    assert(!self.chunks@.contains_key((c, t)));
                    assert(self.first_missing(j as int));
                }
                return Err(ReshapeError::MissingChunk { coarse_chan: j / nt, timestep: j % nt });
            }
            j += 1;
        }
        proof {
            assert forall|c: int, t: int|
                0 <= c < g.num_coarse_chans && 0 <= t < g.num_timesteps implies #[trigger] self.chunks@.contains_key(
                (c, t)) by {
                assert(0 <= c * nt + t < g.num_coarse_chans * nt) by (nonlinear_arith)
                    requires 0 <= c < g.num_coarse_chans, 0 <= t < nt;
            }
            lemma_stride_invariant(nt as int);
        }
        let s = g.image_stride();
        let h = g.height();
        let image_len = NUM_PLANES * (h * s);
        let nb = g.num_baselines;
        let ghost all = self.data@;
        let mut rest = self.data;
        let mut rev: Vec<ImageBuffer<T>> = Vec::new();
        let mut b: usize = nb;
        while b > 0
            invariant
                b <= nb,
                nb == g.num_baselines,
                image_len == g.spec_image_len(),
                all.len() == nb * image_len,
                nb * image_len <= usize::MAX,
                rest@ == all.subrange(0, b * image_len),
                rev@.len() == nb - b,
                forall|m: int|
                    0 <= m < rev@.len() ==> (#[trigger] rev@[m]).data@ == all.subrange(
                        (nb - 1 - m) * image_len,
                        (nb - m) * image_len,
                    ) && rev@[m].width == nt && rev@[m].height == h && rev@[m].stride == s,
            decreases b,
        {
            proof {
                assert((b - 1) * image_len <= b * image_len <= nb * image_len) by (nonlinear_arith)
                    requires 1 <= b <= nb, image_len >= 0;
            }
            let tail = rest.split_off((b - 1) * image_len);
            rev.push(ImageBuffer { width: nt, height: h, stride: s, data: tail });
            b -= 1;
        }
        let ghost rev0 = rev@;
        let mut out: Vec<ImageBuffer<T>> = Vec::new();
        while rev.len() > 0
            invariant
                out@.len() + rev@.len() == nb,
                rev0.len() == nb,
                rev@ == rev0.subrange(0, rev@.len() as int),
                forall|m: int| 0 <= m < out@.len() ==> #[trigger] out@[m] == rev0[nb - 1 - m],
            decreases rev@.len(),
        {
            let buf = rev.pop().unwrap();
            out.push(buf);
        }
        proof {
            assert forall|bb: int| 0 <= bb < out@.len() implies {
                &&& (#[trigger] out@[bb]).wf()
                &&& out@[bb].width == g.num_timesteps
                &&& out@[bb].height == g.spec_height()
                &&& forall|p: int, row: int, col: int|
                    0 <= p < NUM_PLANES && 0 <= row < g.spec_height() && 0 <= col
                        < g.spec_stride() ==> #[trigger] out@[bb].spec_value(p, row, col)
                        == scattered_value(g, self.chunks@, self.fill, bb, p, row, col)
            } by {
                assert(out@[bb] == rev0[nb - 1 - bb]);
                assert(out@[bb].data@ == all.subrange(bb * image_len, (bb + 1) * image_len));
                assert((bb + 1) * image_len <= nb * image_len) by (nonlinear_arith)
                    requires bb < nb, image_len >= 0;
                assert(0 <= bb * image_len) by (nonlinear_arith)
                    requires 0 <= bb, image_len >= 0;
                assert((bb + 1) * image_len - bb * image_len == image_len) by (nonlinear_arith);
                assert forall|p: int, row: int, col: int|
                    0 <= p < NUM_PLANES && 0 <= row < g.spec_height() && 0 <= col
                        < g.spec_stride() implies #[trigger] out@[bb].spec_value(p, row, col)
                        == scattered_value(g, self.chunks@, self.fill, bb, p, row, col) by {
                    lemma_flat_index(g, bb, p, row, col);
                    let fi = flat_index(g, bb, p, row, col);
                    assert(all[fi] == self.data@[fi]);
                }
            }
        }
        Ok(out)
    }
}

/// Once every chunk has been taken, every cell inside the `height` by
/// `num_timesteps` region of every plane of every baseline's buffer holds the
/// value that its chunk gave for that baseline, fine channel and plane; every
/// padding cell beyond `num_timesteps` still holds the fill value.
pub proof fn lemma_scatter_coverage<T: Copy>(r: Reshaper<T>, buffers: Seq<ImageBuffer<T>>)
    requires
        r.wf(),
        r.is_complete(),
        r.holds_buffers(buffers),
    ensures
        forall|b: int, c: int, t: int, f: int, p: int|
            0 <= b < r.geometry.num_baselines && 0 <= c < r.geometry.num_coarse_chans && 0 <= t
                < r.geometry.num_timesteps && 0 <= f < r.geometry.fine_chans_per_coarse && 0 <= p
                < NUM_PLANES ==> #[trigger] buffers[b].spec_value(
                p,
                r.geometry.fine_chans_per_coarse * c + f,
                t,
            ) == #[trigger] r.chunks@[(c, t)][source_index(r.geometry, b, f, p)],
        forall|b: int, p: int, row: int, col: int|
            0 <= b < r.geometry.num_baselines && 0 <= p < NUM_PLANES && 0 <= row
                < r.geometry.spec_height() && r.geometry.num_timesteps <= col
                < r.geometry.spec_stride() ==> #[trigger] buffers[b].spec_value(p, row, col)
                == r.fill,
{
    let g = r.geometry;
    lemma_stride_invariant(g.num_timesteps as int);
    assert forall|b: int, c: int, t: int, f: int, p: int|
        0 <= b < g.num_baselines && 0 <= c < g.num_coarse_chans && 0 <= t < g.num_timesteps && 0
            <= f < g.fine_chans_per_coarse && 0 <= p < NUM_PLANES implies #[trigger] buffers[b].spec_value(
        p,
        g.fine_chans_per_coarse * c + f,
        t,
    ) == #[trigger] r.chunks@[(c, t)][source_index(g, b, f, p)] by {
        lemma_row_split(g, c, f);
        assert(r.chunks@.contains_key((c, t)));
    }
}

} // verus!