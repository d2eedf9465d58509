//! The set of flag files of the coarse channels chosen for export: which
//! coarse channel each file holds, what it is called, and its contents.
use vstd::prelude::*;
use vstd::string::StringSliceAdditionalSpecFns;
use crate::geometry::Geometry;
use crate::flags::{
    FlagMask, MaskError, channel_body, check_masks, mask_check, masks_fit, channel_flags, file_offset,
};
use crate::codec::{
    FlagFileHeader, FlagFileError, channel_header, decode_flag_file, encode_flag_file,
    flag_file_bytes, read_flag_file, lemma_codec_round_trip,
};
use crate::template::{expand_filename_template, expand_template, first_placeholder};

verus! {

/// One file of a flag-file set.
pub struct ChannelFile {
    /// The coarse channel's gpubox number.
    pub gpubox_id: usize,
    /// The coarse channel's index in the dataset.
    pub coarse_chan: usize,
    /// The file's name, as bytes of the template.
    pub filename: Vec<u8>,
}

/// Why a flag-file set could not be made, written or read.
#[derive(Clone, Copy, Debug, PartialEq, Eq, Structural)]
pub enum FlagFileSetError {
    /// The file-name template has no `%` placeholder.
    InvalidTemplate,
    /// A requested gpubox id is not that of any coarse channel of the dataset.
    UnknownGpubox { gpubox_id: usize },
    /// The number of file contents given is not the number of files.
    FileCount { expected: usize, found: usize },
    /// The file of this gpubox could not be read.
    File { gpubox_id: usize, error: FlagFileError },
}

/// Some coarse channel has gpubox number `id`.
pub open spec fn is_chan_id(ids: Seq<usize>, id: usize) -> bool {
    exists|c: int| 0 <= c < ids.len() && ids[c] == id
}

/// `i` is the first coarse channel whose gpubox number is `id`.
pub open spec fn first_index_of(ids: Seq<usize>, id: usize, i: int) -> bool {
    &&& 0 <= i < ids.len()
    &&& ids[i] == id
    &&& forall|j: int| 0 <= j < i ==> ids[j] != id
}

/// The flag files of the chosen coarse channels, in the order they were asked for.
pub struct FlagFileSet {
    pub files: Vec<ChannelFile>,
}

impl FlagFileSet {
    /// Every file names a coarse channel of the geometry.
    pub open spec fn wf(&self, g: Geometry) -> bool {
        forall|i: int|
            0 <= i < self.files@.len() ==> (#[trigger] self.files@[i]).coarse_chan
                < g.num_coarse_chans
    }

    /// The set of files for the coarse channels numbered `gpubox_ids`, named
    /// from `template`. `chan_gpubox_ids` gives the gpubox number of each
    /// coarse channel of the dataset, in order.
    pub fn new(
        g: &Geometry,
        template: &str,
        gpubox_ids: &Vec<usize>,
        chan_gpubox_ids: &Vec<usize>,
    ) -> (r: Result<FlagFileSet, FlagFileSetError>)
        requires
            chan_gpubox_ids@.len() == g.num_coarse_chans,
        ensures
            first_placeholder(template.spec_bytes(), 0) >= template.spec_bytes().len()
                ==> r == Err::<FlagFileSet, FlagFileSetError>(FlagFileSetError::InvalidTemplate),
            first_placeholder(template.spec_bytes(), 0) < template.spec_bytes().len() ==> match r {
                Ok(set) => {
                    &&& set.wf(*g)
                    &&& set.files@.len() == gpubox_ids@.len()
                    &&& forall|i: int|
                        0 <= i < gpubox_ids@.len() ==> {
                            let f = #[trigger] set.files@[i];
                            &&& f.gpubox_id == gpubox_ids@[i]
                            &&& first_index_of(chan_gpubox_ids@, gpubox_ids@[i], f.coarse_chan as int)
                            &&& expand_template(template.spec_bytes(), f.gpubox_id as nat) == Some(
                                f.filename@,
                            )
                        }
                },
                Err(e) => exists|i: int|
                    0 <= i < gpubox_ids@.len() && e == (FlagFileSetError::UnknownGpubox {
                        gpubox_id: gpubox_ids@[i],
                    }) && !is_chan_id(chan_gpubox_ids@, gpubox_ids@[i]) && (forall|j: int|
                        0 <= j < i ==> is_chan_id(chan_gpubox_ids@, #[trigger] gpubox_ids@[j])),
            },
    {
        let mut files: Vec<ChannelFile> = Vec::new();
        let ghost ts = template.spec_bytes();
        let mut i: usize = 0;
        while i < gpubox_ids.len()
            invariant
                ts == template.spec_bytes(),
                chan_gpubox_ids@.len() == g.num_coarse_chans,
                i <= gpubox_ids@.len(),
                files@.len() == i,
                i > 0 ==> first_placeholder(ts, 0) < ts.len(),
                forall|k: int|
                    0 <= k < i ==> {
                        let f = #[trigger] files@[k];
                        &&& f.gpubox_id == gpubox_ids@[k]
                        &&& f.coarse_chan < g.num_coarse_chans
                        &&& first_index_of(chan_gpubox_ids@, gpubox_ids@[k], f.coarse_chan as int)
                        &&& expand_template(ts, f.gpubox_id as nat) == Some(f.filename@)
                    },
            decreases gpubox_ids@.len() - i,
        {
            let id = gpubox_ids[i];
            let filename = match expand_filename_template(template, id) {
                Some(name) => name,
                None => {
                    return Err(FlagFileSetError::InvalidTemplate);
                },
            };
            let mut c: usize = 0;
            while c < chan_gpubox_ids.len() && chan_gpubox_ids[c] != id
                invariant
                    c <= chan_gpubox_ids@.len(),
                    forall|j: int| 0 <= j < c ==> chan_gpubox_ids@[j] != id,
                decreases chan_gpubox_ids@.len() - c,
            {
                c += 1;
            }
            if c == chan_gpubox_ids.len() {
                proof {
                    assert forall|j: int| 0 <= j < i implies is_chan_id(
                        chan_gpubox_ids@,
                        #[trigger] gpubox_ids@[j],
                    ) by {
                        assert(first_index_of(chan_gpubox_ids@, gpubox_ids@[j], files@[j].coarse_chan as int));
                    }
                }
                return Err(FlagFileSetError::UnknownGpubox { gpubox_id: id });
            }
            files.push(ChannelFile { gpubox_id: id, coarse_chan: c, filename });
            i += 1;
        }
        if gpubox_ids.len() == 0 {
            let probe = expand_filename_template(template, 0);
            if probe.is_none() {
                return Err(FlagFileSetError::InvalidTemplate);
            }
        }
        Ok(FlagFileSet { files })
    }

    /// The contents of every file of the set, in order: the header of its
    /// coarse channel, then that channel's flags laid out by
    /// `channel_flags`. `masks` holds one mask per baseline.
    pub fn encode_baseline_flagmasks(&self, g: &Geometry, masks: &Vec<FlagMask>) -> (r: Result<
        Vec<Vec<u8>>,
        MaskError,
    >)
        requires
            g.wf(),
            self.wf(*g),
        ensures
            match r {
                Ok(v) => {
                    &&& masks_fit(*g, masks@)
                    &&& v@.len() == self.files@.len()
                    &&& forall|i: int|
                        0 <= i < v@.len() ==> (#[trigger] v@[i])@ == flag_file_bytes(
                            channel_header(*g, self.files@[i].gpubox_id),
                            channel_body(*g, masks@, self.files@[i].coarse_chan as int),
                        )
                },
                Err(e) => mask_check(*g, masks@, Err(e)),
            },
    {
        match check_masks(g, masks) {
            Ok(()) => {},
            Err(e) => {
                return Err(e);
            },
        }
        let mut out: Vec<Vec<u8>> = Vec::new();
        let mut i: usize = 0;
        while i < self.files.len()
            invariant
                g.wf(),
                self.wf(*g),
                masks_fit(*g, masks@),
                i <= self.files@.len(),
                out@.len() == i,
                forall|k: int|
                    0 <= k < i ==> (#[trigger] out@[k])@ == flag_file_bytes(
                        channel_header(*g, self.files@[k].gpubox_id),
                        channel_body(*g, masks@, self.files@[k].coarse_chan as int),
                    ),
            decreases self.files@.len() - i,
        {
            let file = &self.files[i];
            let body = match channel_flags(g, masks, file.coarse_chan) {
                Ok(body) => body,
                Err(e) => {
                    return Err(e);
                },
            };
            let header = FlagFileHeader::for_channel(g, file.gpubox_id);
            out.push(encode_flag_file(&header, &body));
            i += 1;
        }
        Ok(out)
    }

    /// Reads the contents of every file of the set, in order, into its header
    /// and body; or names the first file that does not fit the geometry.
    pub fn decode_chan_header_flags_raw(&self, g: &Geometry, contents: &Vec<Vec<u8>>) -> (r: Result<
        Vec<(FlagFileHeader, Vec<u8>)>,
        FlagFileSetError,
    >)
        requires
            g.wf(),
        ensures
            contents@.len() != self.files@.len() ==> r == Err::<
                Vec<(FlagFileHeader, Vec<u8>)>,
                FlagFileSetError,
            >(
                FlagFileSetError::FileCount {
                    expected: self.files@.len() as usize,
                    found: contents@.len() as usize,
                },
            ),
            contents@.len() == self.files@.len() ==> match r {
                Ok(v) => {
                    &&& v@.len() == contents@.len()
                    &&& forall|i: int|
                        0 <= i < v@.len() ==> read_flag_file(contents@[i]@, *g) == Ok::<
                            (FlagFileHeader, Seq<u8>),
                            FlagFileError,
                        >(((#[trigger] v@[i]).0, v@[i].1@))
                },
                Err(e) => exists|i: int|
                    0 <= i < contents@.len() && (forall|j: int|
                        0 <= j < i ==> (#[trigger] read_flag_file(contents@[j]@, *g)) is Ok)
                        && read_flag_file(contents@[i]@, *g) is Err && e == (
                    FlagFileSetError::File {
                        gpubox_id: self.files@[i].gpubox_id,
                        error: read_flag_file(contents@[i]@, *g)->Err_0,
                    }),
            },
    {
        if contents.len() != self.files.len() {
            return Err(
                FlagFileSetError::FileCount { expected: self.files.len(), found: contents.len() },
            );
        }
        let mut out: Vec<(FlagFileHeader, Vec<u8>)> = Vec::new();
        let mut i: usize = 0;
        while i < contents.len()
            invariant
                g.wf(),
                contents@.len() == self.files@.len(),
                i <= contents@.len(),
                out@.len() == i,
                forall|k: int|
                    0 <= k < i ==> read_flag_file(contents@[k]@, *g) == Ok::<
                        (FlagFileHeader, Seq<u8>),
                        FlagFileError,
                    >(((#[trigger] out@[k]).0, out@[k].1@)),
            decreases contents@.len() - i,
        {
            match decode_flag_file(&contents[i], g) {
                Ok(pair) => {
                    out.push(pair);
                },
                Err(error) => {
                    proof {
                        assert forall|j: int| 0 <= j < i implies (#[trigger] read_flag_file(
                            contents@[j]@,
                            *g,
                        )) is Ok by {
                            assert(read_flag_file(contents@[j]@, *g) == Ok::<
                                (FlagFileHeader, Seq<u8>),
                                FlagFileError,
                            >((out@[j].0, out@[j].1@)));
                        }
                    }
                    return Err(FlagFileSetError::File { gpubox_id: self.files[i].gpubox_id, error });
                },
            }
            i += 1;
        }
        Ok(out)
    }
}

/// For every file of a set, reading back what was written for it gives, for
/// every timestep, baseline and fine channel of its coarse channel, a byte
/// that is nonzero exactly where that baseline's mask is flagged.
pub proof fn lemma_file_set_round_trip(
    g: Geometry,
    set: FlagFileSet,
    masks: Seq<FlagMask>,
    contents: Seq<Seq<u8>>,
)
    requires
        g.wf(),
        set.wf(g),
        masks_fit(g, masks),
        contents.len() == set.files@.len(),
        forall|i: int|
            0 <= i < contents.len() ==> #[trigger] contents[i] == flag_file_bytes(
                channel_header(g, set.files@[i].gpubox_id),
                channel_body(g, masks, set.files@[i].coarse_chan as int),
            ),
    ensures
        forall|i: int|
            0 <= i < contents.len() ==> {
                let read = #[trigger] read_flag_file(contents[i], g);
                let coarse = set.files@[i].coarse_chan as int;
                &&& read is Ok
                &&& read->Ok_0.0.gpubox_id == set.files@[i].gpubox_id
                &&& forall|t: int, b: int, f: int|
                    0 <= t < g.num_timesteps && 0 <= b < g.num_baselines && 0 <= f
                        < g.fine_chans_per_coarse ==> (#[trigger] read->Ok_0.1[file_offset(
                        g,
                        t,
                        b,
                        f,
                    )] != 0 <==> masks[b].spec_get(g.fine_chans_per_coarse * coarse + f, t))
            },
{
    assert forall|i: int| 0 <= i < contents.len() implies {
        let read = #[trigger] read_flag_file(contents[i], g);
        let coarse = set.files@[i].coarse_chan as int;
        &&& read is Ok
        &&& read->Ok_0.0.gpubox_id == set.files@[i].gpubox_id
        &&& forall|t: int, b: int, f: int|
            0 <= t < g.num_timesteps && 0 <= b < g.num_baselines && 0 <= f
                < g.fine_chans_per_coarse ==> (#[trigger] read->Ok_0.1[file_offset(g, t, b, f)]
                != 0 <==> masks[b].spec_get(g.fine_chans_per_coarse * coarse + f, t))
    } by {
        let file = set.files@[i];
        lemma_codec_round_trip(g, masks, file.coarse_chan as int, file.gpubox_id);
    }
}

} // verus!
