//! The flag-file format: a header of four little-endian 64-bit integers
//! (gpubox id, timesteps, antennas, fine channels) followed by one byte per
//! cell, ordered by timestep, then baseline, then fine channel.
use vstd::prelude::*;
use crate::geometry::Geometry;
use crate::flags::{FlagMask, channel_body, masks_fit, file_offset, lemma_channel_body_at};

verus! {

/// Bytes before the body of a flag file.
pub const HEADER_LEN: usize = 32;

/// The header of the flag file of one coarse channel.
#[derive(Clone, Copy, Debug, PartialEq, Eq, Structural)]
pub struct FlagFileHeader {
    /// The coarse channel's gpubox number.
    pub gpubox_id: usize,
    pub num_timesteps: usize,
    pub num_ants: usize,
    /// Fine channels of the coarse channel.
    pub num_channels: usize,
}

/// A header field that is checked against the geometry when a file is read.
#[derive(Clone, Copy, Debug, PartialEq, Eq, Structural)]
pub enum HeaderField {
    NumAnts,
    NumTimesteps,
    NumChannels,
}

/// Why a flag file could not be read.
#[derive(Clone, Copy, Debug, PartialEq, Eq, Structural)]
pub enum FlagFileError {
    /// The file is shorter than a header.
    TooShort { len: usize },
    /// A header field disagrees with the geometry.
    DimensionMismatch { field: HeaderField, expected: u64, found: u64 },
    /// The gpubox id does not fit a `usize`.
    GpuboxIdOutOfRange { found: u64 },
    /// The body does not hold one byte per timestep, baseline and fine channel.
    BodyLength { expected_len: usize, found_len: usize },
}

/// The eight little-endian bytes of `v`.
pub open spec fn u64_le_bytes(v: u64) -> Seq<u8> {
    seq![
        (v & 0xff) as u8,
        ((v >> 8u64) & 0xff) as u8,
        ((v >> 16u64) & 0xff) as u8,
        ((v >> 24u64) & 0xff) as u8,
        ((v >> 32u64) & 0xff) as u8,
        ((v >> 40u64) & 0xff) as u8,
        ((v >> 48u64) & 0xff) as u8,
        ((v >> 56u64) & 0xff) as u8,
    ]
}

/// The integer whose little-endian bytes are the eight bytes of `s`.
pub open spec fn u64_from_le(s: Seq<u8>) -> u64 {
    (s[0] as u64) | ((s[1] as u64) << 8u64) | ((s[2] as u64) << 16u64) | ((s[3] as u64) << 24u64)
        | ((s[4] as u64) << 32u64) | ((s[5] as u64) << 40u64) | ((s[6] as u64) << 48u64) | ((
    s[7] as u64) << 56u64)
}

/// Reading back the little-endian bytes of an integer gives the integer.
pub proof fn lemma_u64_le_round_trip(v: u64)
    ensures
        u64_le_bytes(v).len() == 8,
        u64_from_le(u64_le_bytes(v)) == v,
{
    let s = u64_le_bytes(v);
    assert(s.len() == 8);
    assert(u64_from_le(s) == ((v & 0xff) as u8 as u64) | ((((v >> 8u64) & 0xff) as u8 as u64)
        << 8u64) | ((((v >> 16u64) & 0xff) as u8 as u64) << 16u64) | ((((v >> 24u64) & 0xff) as u8
        as u64) << 24u64) | ((((v >> 32u64) & 0xff) as u8 as u64) << 32u64) | ((((v >> 40u64)
        & 0xff) as u8 as u64) << 40u64) | ((((v >> 48u64) & 0xff) as u8 as u64) << 48u64) | ((((v
        >> 56u64) & 0xff) as u8 as u64) << 56u64));
    assert(((v & 0xff) as u8 as u64) | ((((v >> 8u64) & 0xff) as u8 as u64) << 8u64) | ((((v
        >> 16u64) & 0xff) as u8 as u64) << 16u64) | ((((v >> 24u64) & 0xff) as u8 as u64)
        << 24u64) | ((((v >> 32u64) & 0xff) as u8 as u64) << 32u64) | ((((v >> 40u64) & 0xff) as u8
        as u64) << 40u64) | ((((v >> 48u64) & 0xff) as u8 as u64) << 48u64) | ((((v >> 56u64)
        & 0xff) as u8 as u64) << 56u64) == v) by (bit_vector);
}

/// Appends the eight little-endian bytes of `v`.
fn push_u64_le(out: &mut Vec<u8>, v: u64)
    ensures
        final(out)@ == old(out)@ + u64_le_bytes(v),
{
    out.push((v & 0xff) as u8);
    out.push(((v >> 8u64) & 0xff) as u8);
    out.push(((v >> 16u64) & 0xff) as u8);
    out.push(((v >> 24u64) & 0xff) as u8);
    out.push(((v >> 32u64) & 0xff) as u8);
    out.push(((v >> 40u64) & 0xff) as u8);
    out.push(((v >> 48u64) & 0xff) as u8);
    out.push(((v >> 56u64) & 0xff) as u8);
    proof {
        assert(out@ =~= old(out)@ + u64_le_bytes(v));
    }
}

/// The integer whose little-endian bytes start at `at`.
fn read_u64_le(bytes: &Vec<u8>, at: usize) -> (r: u64)
    requires
        at + 8 <= bytes@.len(),
    ensures
        r == u64_from_le(bytes@.subrange(at as int, at + 8)),
{
    let n = bytes.len();
    let s = Ghost(bytes@.subrange(at as int, at + 8));
    assert(s@[0] == bytes@[at as int]);
    assert(s@[7] == bytes@[at + 7]);
    (bytes[at] as u64) | ((bytes[at + 1] as u64) << 8u64) | ((bytes[at + 2] as u64) << 16u64) | ((
    bytes[at + 3] as u64) << 24u64) | ((bytes[at + 4] as u64) << 32u64) | ((bytes[at + 5] as u64)
        << 40u64) | ((bytes[at + 6] as u64) << 48u64) | ((bytes[at + 7] as u64) << 56u64)
}

/// The bytes of a header: its four fields in order, each as a little-endian
/// 64-bit integer.
pub open spec fn header_bytes(h: FlagFileHeader) -> Seq<u8> {
    u64_le_bytes(h.gpubox_id as u64) + u64_le_bytes(h.num_timesteps as u64) + u64_le_bytes(
        h.num_ants as u64,
    ) + u64_le_bytes(h.num_channels as u64)
}

/// The bytes of a flag file: its header, then its body.
pub open spec fn flag_file_bytes(h: FlagFileHeader, body: Seq<u8>) -> Seq<u8> {
    header_bytes(h) + body
}

/// The header of the flag file of the coarse channel numbered `gpubox_id`.
pub open spec fn channel_header(g: Geometry, gpubox_id: usize) -> FlagFileHeader {
    FlagFileHeader {
        gpubox_id,
        num_timesteps: g.num_timesteps,
        num_ants: g.num_ants,
        num_channels: g.fine_chans_per_coarse,
    }
}

impl FlagFileHeader {
    /// The header of the flag file of the coarse channel numbered `gpubox_id`.
    pub fn for_channel(g: &Geometry, gpubox_id: usize) -> (r: FlagFileHeader)
        ensures
            r == channel_header(*g, gpubox_id),
    {
        FlagFileHeader {
            gpubox_id,
            num_timesteps: g.num_timesteps,
            num_ants: g.num_ants,
            num_channels: g.fine_chans_per_coarse,
        }
    }
}

/// What reading `bytes` as a flag file of geometry `g` gives: the header and
/// the body, unchanged, once the header agrees with the geometry (antennas,
/// then timesteps, then fine channels) and the body has its length.
pub open spec fn read_flag_file(bytes: Seq<u8>, g: Geometry) -> Result<(FlagFileHeader, Seq<u8>), FlagFileError> {
    if bytes.len() < HEADER_LEN {
        Err(FlagFileError::TooShort { len: bytes.len() as usize })
    } else {
        let id = u64_from_le(bytes.subrange(0, 8));
        let nt = u64_from_le(bytes.subrange(8, 16));
        let na = u64_from_le(bytes.subrange(16, 24));
        let nc = u64_from_le(bytes.subrange(24, 32));
        if na != g.num_ants as u64 {
            Err(
                FlagFileError::DimensionMismatch {
                    field: HeaderField::NumAnts,
                    expected: g.num_ants as u64,
                    found: na,
                },
            )
        } else if nt != g.num_timesteps as u64 {
            Err(
                FlagFileError::DimensionMismatch {
                    field: HeaderField::NumTimesteps,
                    expected: g.num_timesteps as u64,
                    found: nt,
                },
            )
        } else if nc != g.fine_chans_per_coarse as u64 {
            Err(
                FlagFileError::DimensionMismatch {
                    field: HeaderField::NumChannels,
                    expected: g.fine_chans_per_coarse as u64,
                    found: nc,
                },
            )
        } else if id > usize::MAX as u64 {
            Err(FlagFileError::GpuboxIdOutOfRange { found: id })
        } else if bytes.len() - HEADER_LEN != g.spec_body_len() {
            Err(
                FlagFileError::BodyLength {
                    expected_len: g.spec_body_len() as usize,
                    found_len: (bytes.len() - HEADER_LEN) as usize,
                },
            )
        } else {
            Ok((channel_header(g, id as usize), bytes.subrange(HEADER_LEN as int, bytes.len() as int)))
        }
    }
}

/// The bytes of the flag file with header `header` and body `body`.
pub fn encode_flag_file(header: &FlagFileHeader, body: &Vec<u8>) -> (r: Vec<u8>)
    ensures
        r@ == flag_file_bytes(*header, body@),
{
    let mut out: Vec<u8> = Vec::new();
    push_u64_le(&mut out, header.gpubox_id as u64);
    push_u64_le(&mut out, header.num_timesteps as u64);
    push_u64_le(&mut out, header.num_ants as u64);
    push_u64_le(&mut out, header.num_channels as u64);
    let ghost head = out@;
    let mut i: usize = 0;
    while i < body.len()
        invariant
            head == header_bytes(*header),
            i <= body@.len(),
            out@ == head + body@.subrange(0, i as int),
        decreases body@.len() - i,
    {
        out.push(body[i]);
        i += 1;
        proof {
            assert(out@ =~= head + body@.subrange(0, i as int));
        }
    }
    proof {
        assert(body@.subrange(0, body@.len() as int) =~= body@);
    }
    out
}

/// Reads `bytes` as the flag file of a coarse channel of geometry `g`: the
/// header and the body, or why the file does not fit the geometry.
pub fn decode_flag_file(bytes: &Vec<u8>, g: &Geometry) -> (r: Result<(FlagFileHeader, Vec<u8>), FlagFileError>)
    requires
        g.wf(),
    ensures
        match r {
            Ok((h, body)) => read_flag_file(bytes@, *g) == Ok::<(FlagFileHeader, Seq<u8>), FlagFileError>((h, body@)),
            Err(e) => read_flag_file(bytes@, *g) == Err::<(FlagFileHeader, Seq<u8>), FlagFileError>(e),
        },
{
    if bytes.len() < HEADER_LEN {
        return Err(FlagFileError::TooShort { len: bytes.len() });
    }
    let id = read_u64_le(bytes, 0);
    let nt = read_u64_le(bytes, 8);
    let na = read_u64_le(bytes, 16);
    let nc = read_u64_le(bytes, 24);
    if na != g.num_ants as u64 {
        return Err(
            FlagFileError::DimensionMismatch {
                field: HeaderField::NumAnts,
                expected: g.num_ants as u64,
                found: na,
            },
        );
    }
    if nt != g.num_timesteps as u64 {
        return Err(
            FlagFileError::DimensionMismatch {
                field: HeaderField::NumTimesteps,
                expected: g.num_timesteps as u64,
                found: nt,
            },
        );
    }
    if nc != g.fine_chans_per_coarse as u64 {
        return Err(
            FlagFileError::DimensionMismatch {
                field: HeaderField::NumChannels,
                expected: g.fine_chans_per_coarse as u64,
                found: nc,
            },
        );
    }
    if id > usize::MAX as u64 {
        return Err(FlagFileError::GpuboxIdOutOfRange { found: id });
    }
    let expected = g.body_len();
    let actual = bytes.len() - HEADER_LEN;
    if actual != expected {
        return Err(FlagFileError::BodyLength { expected_len: expected, found_len: actual });
    }
    let mut body: Vec<u8> = Vec::new();
    let mut i: usize = HEADER_LEN;
    while i < bytes.len()
        invariant
            HEADER_LEN <= i <= bytes@.len(),
            body@ == bytes@.subrange(HEADER_LEN as int, i as int),
        decreases bytes@.len() - i,
    {
        body.push(bytes[i]);
        i += 1;
        proof {
            assert(body@ =~= bytes@.subrange(HEADER_LEN as int, i as int));
        }
    }
    let header = FlagFileHeader::for_channel(g, id as usize);
    Ok((header, body))
}

/// Reading a flag file back gives the header and the body that were written,
/// whenever the header is that of a channel of the geometry and the body has
/// the length that the geometry gives.
pub proof fn lemma_read_written(g: Geometry, gpubox_id: usize, body: Seq<u8>)
    requires
        g.wf(),
        body.len() == g.spec_body_len(),
    ensures
        read_flag_file(flag_file_bytes(channel_header(g, gpubox_id), body), g) == Ok::<
            (FlagFileHeader, Seq<u8>),
            FlagFileError,
        >((channel_header(g, gpubox_id), body)),
{
    let h = channel_header(g, gpubox_id);
    let bytes = flag_file_bytes(h, body);
    lemma_u64_le_round_trip(h.gpubox_id as u64);
    lemma_u64_le_round_trip(h.num_timesteps as u64);
    lemma_u64_le_round_trip(h.num_ants as u64);
    lemma_u64_le_round_trip(h.num_channels as u64);
    assert(bytes.subrange(0, 8) =~= u64_le_bytes(h.gpubox_id as u64));
    assert(bytes.subrange(8, 16) =~= u64_le_bytes(h.num_timesteps as u64));
    assert(bytes.subrange(16, 24) =~= u64_le_bytes(h.num_ants as u64));
    assert(bytes.subrange(24, 32) =~= u64_le_bytes(h.num_channels as u64));
    assert(bytes.subrange(HEADER_LEN as int, bytes.len() as int) =~= body);
}

/// Writing the flags of a coarse channel and reading the file back gives the
/// header written and, for every timestep, baseline and fine channel, a byte
/// that is nonzero exactly where that baseline's mask is flagged.
pub proof fn lemma_codec_round_trip(g: Geometry, masks: Seq<FlagMask>, coarse: int, gpubox_id: usize)
    requires
        g.wf(),
        masks_fit(g, masks),
        0 <= coarse < g.num_coarse_chans,
    ensures
        ({
            let body = channel_body(g, masks, coarse);
            let read = read_flag_file(flag_file_bytes(channel_header(g, gpubox_id), body), g);
            &&& read is Ok
            &&& read->Ok_0.0 == channel_header(g, gpubox_id)
            &&& forall|t: int, b: int, f: int|
                0 <= t < g.num_timesteps && 0 <= b < g.num_baselines && 0 <= f
                    < g.fine_chans_per_coarse ==> (#[trigger] read->Ok_0.1[file_offset(g, t, b, f)]
                    != 0 <==> masks[b].spec_get(g.fine_chans_per_coarse * coarse + f, t))
        }),
{
    let body = channel_body(g, masks, coarse);
    lemma_read_written(g, gpubox_id, body);
    assert forall|t: int, b: int, f: int|
        0 <= t < g.num_timesteps && 0 <= b < g.num_baselines && 0 <= f < g.fine_chans_per_coarse
            implies (#[trigger] body[file_offset(g, t, b, f)] != 0 <==> masks[b].spec_get(
        g.fine_chans_per_coarse * coarse + f,
        t,
    )) by {
        lemma_channel_body_at(g, masks, coarse, t, b, f);
    }
}

/// A flag file whose header gives another antenna count than the geometry is
/// refused with a dimension mismatch on the antenna count, whatever its body.
pub proof fn lemma_antenna_mismatch_refused(g: Geometry, h: FlagFileHeader, body: Seq<u8>)
    requires
        g.wf(),
        h.num_ants != g.num_ants,
    ensures
        read_flag_file(flag_file_bytes(h, body), g) == Err::<(FlagFileHeader, Seq<u8>), FlagFileError>(
            FlagFileError::DimensionMismatch {
                field: HeaderField::NumAnts,
                expected: g.num_ants as u64,
                found: h.num_ants as u64,
            },
        ),
{
    let bytes = flag_file_bytes(h, body);
    lemma_u64_le_round_trip(h.num_ants as u64);
    assert(bytes.subrange(16, 24) =~= u64_le_bytes(h.num_ants as u64));
}

} // verus!
