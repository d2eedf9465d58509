use birli::fileset::FlagFileSet;
use birli::flags::FlagMask;
use birli::geometry::{stride, Geometry};
use birli::image::ImageBuffer;
use birli::pipeline::{accept_message, consume_chunks};
use birli::reshape::{ReshapeError, Reshaper};

/// Coarse channels, timesteps and fine channels of the MWAX sample observation.
fn mwax_geometry(num_ants: usize) -> Geometry {
    Geometry::new(4, 2, 2, num_ants).unwrap()
}

/// A raw chunk in the pattern of the MWAX sample data: every value encodes its
/// coarse channel and timestep in the third byte and its position in the low byte.
fn mwax_chunk(g: &Geometry, coarse: usize, timestep: usize) -> Vec<f32> {
    (0..g.chunk_len())
        .map(|k| (0x410000 + (coarse * g.num_timesteps + timestep) * 0x100 + k) as f32)
        .collect()
}

#[test]
fn test_context_to_baseline_imgsets_mwax() {
    let g = mwax_geometry(2);
    let width = g.num_timesteps;
    let img_stride = (((width - 1) / 8) + 1) * 8;

    let mut reshaper: Reshaper<f32> = Reshaper::new(g, 0.0);
    // chunks arrive out of order, as they do from several workers
    for &(coarse, timestep) in [(1, 2), (0, 0), (1, 0), (0, 3), (0, 1), (1, 3), (0, 2), (1, 1)].iter() {
        let chunk = mwax_chunk(&g, coarse, timestep);
        reshaper.accept_chunk(coarse, timestep, &chunk).unwrap();
    }
    let baseline_imgsets = reshaper.finish().unwrap();

    let imgset0 = &baseline_imgsets[0];
    let buf = |plane: usize| {
        let plane_len = imgset0.height * imgset0.stride;
        imgset0.data[plane * plane_len..(plane + 1) * plane_len].to_vec()
    };

    assert_eq!(buf(0)[0 * img_stride + 0], 0x410000 as f32);
    assert_eq!(buf(0)[0 * img_stride + 1], 0x410100 as f32);
    assert_eq!(buf(0)[0 * img_stride + 2], 0x410200 as f32);
    assert_eq!(buf(0)[0 * img_stride + 3], 0x410300 as f32);
    assert_eq!(buf(0)[0 * img_stride + 4], 0.0);
    assert_eq!(buf(0)[0 * img_stride + 5], 0.0);
    assert_eq!(buf(0)[0 * img_stride + 6], 0.0);
    assert_eq!(buf(0)[0 * img_stride + 7], 0.0);

    assert_eq!(buf(0)[1 * img_stride + 0], 0x410008 as f32);
    assert_eq!(buf(0)[1 * img_stride + 1], 0x410108 as f32);
    assert_eq!(buf(0)[1 * img_stride + 2], 0x410208 as f32);
    assert_eq!(buf(0)[1 * img_stride + 3], 0x410308 as f32);
    assert_eq!(buf(0)[1 * img_stride + 4], 0.0);
    assert_eq!(buf(0)[1 * img_stride + 5], 0.0);
    assert_eq!(buf(0)[1 * img_stride + 6], 0.0);
    assert_eq!(buf(0)[1 * img_stride + 7], 0.0);

    assert_eq!(buf(0)[2 * img_stride + 0], 0x410400 as f32);
    assert_eq!(buf(0)[2 * img_stride + 1], 0x410500 as f32);
    assert_eq!(buf(0)[2 * img_stride + 2], 0x410600 as f32);
    assert_eq!(buf(0)[2 * img_stride + 3], 0x410700 as f32);
    assert_eq!(buf(0)[2 * img_stride + 4], 0.0);
    assert_eq!(buf(0)[2 * img_stride + 5], 0.0);
    assert_eq!(buf(0)[2 * img_stride + 6], 0.0);
    assert_eq!(buf(0)[2 * img_stride + 7], 0.0);

    assert_eq!(buf(0)[3 * img_stride + 0], 0x410408 as f32);
    assert_eq!(buf(0)[3 * img_stride + 1], 0x410508 as f32);
    assert_eq!(buf(0)[3 * img_stride + 2], 0x410608 as f32);
    assert_eq!(buf(0)[3 * img_stride + 3], 0x410708 as f32);
    assert_eq!(buf(0)[3 * img_stride + 4], 0.0);
    assert_eq!(buf(0)[3 * img_stride + 5], 0.0);
    assert_eq!(buf(0)[3 * img_stride + 6], 0.0);
    assert_eq!(buf(0)[3 * img_stride + 7], 0.0);

    assert_eq!(buf(1)[0 * img_stride + 0], 0x410001 as f32);
    assert_eq!(buf(1)[0 * img_stride + 1], 0x410101 as f32);
    assert_eq!(buf(1)[0 * img_stride + 2], 0x410201 as f32);
    assert_eq!(buf(1)[0 * img_stride + 3], 0x410301 as f32);
    assert_eq!(buf(1)[0 * img_stride + 4], 0.0);
    assert_eq!(buf(1)[0 * img_stride + 5], 0.0);
    assert_eq!(buf(1)[0 * img_stride + 6], 0.0);
    assert_eq!(buf(1)[0 * img_stride + 7], 0.0);

    assert_eq!(buf(7)[0 * img_stride + 0], 0x410007 as f32);
    assert_eq!(buf(7)[0 * img_stride + 1], 0x410107 as f32);
    assert_eq!(buf(7)[0 * img_stride + 2], 0x410207 as f32);
    assert_eq!(buf(7)[0 * img_stride + 3], 0x410307 as f32);
    assert_eq!(buf(7)[0 * img_stride + 4], 0.0);
    assert_eq!(buf(7)[0 * img_stride + 5], 0.0);
    assert_eq!(buf(7)[0 * img_stride + 6], 0.0);
    assert_eq!(buf(7)[0 * img_stride + 7], 0.0);

    let imgset2 = &baseline_imgsets[2];
    assert_eq!(imgset2.value(0, 0, 0), 0x410020 as f32);
    assert_eq!(imgset2.value(0, 0, 1), 0x410120 as f32);
    assert_eq!(imgset2.value(0, 0, 2), 0x410220 as f32);
    assert_eq!(imgset2.value(0, 0, 3), 0x410320 as f32);
    assert_eq!(imgset2.value(0, 0, 4), 0.0);
    assert_eq!(imgset2.value(0, 0, 5), 0.0);
    assert_eq!(imgset2.value(0, 0, 6), 0.0);
    assert_eq!(imgset2.value(0, 0, 7), 0.0);

    assert_eq!(imgset2.value(0, 1, 0), 0x410028 as f32);
    assert_eq!(imgset2.value(0, 1, 1), 0x410128 as f32);
    assert_eq!(imgset2.value(0, 1, 2), 0x410228 as f32);
    assert_eq!(imgset2.value(0, 1, 3), 0x410328 as f32);
    assert_eq!(imgset2.value(0, 1, 4), 0.0);
    assert_eq!(imgset2.value(0, 1, 5), 0.0);
    assert_eq!(imgset2.value(0, 1, 6), 0.0);
    assert_eq!(imgset2.value(0, 1, 7), 0.0);
}

#[test]
fn test_write_flags_mwax_minimal() {
    let context = mwax_geometry(128);
    let height = context.height();
    let width = context.num_timesteps;
    let flag_stride = stride(width);

    let flag_timestep = 1;
    let flag_channel = 1;
    let flag_baseline = 1;

    let mut baseline_flagmasks: Vec<FlagMask> = (0..context.num_baselines)
        .map(|_| FlagMask::new(width, height, flag_stride, false))
        .collect();
    baseline_flagmasks[flag_baseline].set(flag_channel, flag_timestep, true);

    let gpubox_ids: Vec<usize> = vec![117, 118];
    let filename_template = "Flagfile%%%.mwaf";
    let selected_gpuboxes = gpubox_ids[..1].to_vec();

    let flag_file_set =
        FlagFileSet::new(&context, filename_template, &selected_gpuboxes, &gpubox_ids).unwrap();
    let contents = flag_file_set
        .encode_baseline_flagmasks(&context, &baseline_flagmasks)
        .unwrap();

    assert_eq!(contents.len(), selected_gpuboxes.len());
    assert_eq!(flag_file_set.files[0].filename, b"Flagfile117.mwaf".to_vec());

    let chan_header_flags_raw = flag_file_set
        .decode_chan_header_flags_raw(&context, &contents)
        .unwrap();
    let (chan1_header, chan1_flags_raw) = &chan_header_flags_raw[0];
    assert_eq!(chan1_header.gpubox_id, gpubox_ids[0]);
    let num_fine_chans_per_coarse = context.fine_chans_per_coarse;

    let num_baselines = chan1_header.num_ants * (chan1_header.num_ants + 1) / 2;
    assert_eq!(chan1_header.num_timesteps, context.num_timesteps);
    assert_eq!(num_baselines, context.num_baselines);
    assert_eq!(chan1_header.num_channels, num_fine_chans_per_coarse);
    assert_eq!(
        chan1_flags_raw.len(),
        chan1_header.num_timesteps * num_baselines * chan1_header.num_channels
    );

    let tests = [
        (0, 0, 0, i8::from(false)),
        (0, 0, 1, i8::from(false)),
        (0, 1, 0, i8::from(false)),
        (0, 1, 1, i8::from(false)),
        (0, 2, 0, i8::from(false)),
        (0, 2, 1, i8::from(false)),
        (1, 0, 0, i8::from(false)),
        (1, 0, 1, i8::from(false)),
        (1, 1, 0, i8::from(false)),
        (1, 1, 1, i8::from(true)),
        (1, 2, 0, i8::from(false)),
        (1, 2, 1, i8::from(false)),
    ];
    for (timestep_idx, baseline_idx, fine_chan_idx, expected_flag) in tests.iter() {
        let row_idx = timestep_idx * num_baselines + baseline_idx;
        let offset = row_idx * num_fine_chans_per_coarse + fine_chan_idx;
        assert_eq!(
            &(chan1_flags_raw[offset] as i8),
            expected_flag,
            "with timestep {}, baseline {}, fine_chan {}, expected {} at row_idx {}, offset {}",
            timestep_idx,
            baseline_idx,
            fine_chan_idx,
            expected_flag,
            row_idx,
            offset
        );
    }
}

#[test]
fn reshape_refuses_bad_chunks() {
    let g = mwax_geometry(2);
    let mut reshaper: Reshaper<f32> = Reshaper::new(g, 0.0);
    let chunk = mwax_chunk(&g, 0, 0);
    assert_eq!(
        reshaper.accept_chunk(2, 0, &chunk),
        Err(ReshapeError::CoarseChanOutOfRange { coarse_chan: 2 })
    );
    assert_eq!(
        reshaper.accept_chunk(0, 4, &chunk),
        Err(ReshapeError::TimestepOutOfRange { timestep: 4 })
    );
    let short = chunk[1..].to_vec();
    assert_eq!(
        reshaper.accept_chunk(0, 0, &short),
        Err(ReshapeError::MalformedChunk { expected: 48, actual: 47 })
    );
    assert_eq!(reshaper.accept_chunk(0, 0, &chunk), Ok(()));
    assert_eq!(
        reshaper.accept_chunk(0, 0, &chunk),
        Err(ReshapeError::DuplicateChunk { coarse_chan: 0, timestep: 0 })
    );
}

#[test]
fn reshape_reports_first_missing_chunk() {
    let g = mwax_geometry(2);
    let mut reshaper: Reshaper<f32> = Reshaper::new(g, 0.0);
    for &(coarse, timestep) in [(0, 0), (0, 1), (0, 3), (1, 0)].iter() {
        reshaper.accept_chunk(coarse, timestep, &mwax_chunk(&g, coarse, timestep)).unwrap();
    }
    assert_eq!(
        reshaper.finish().err(),
        Some(ReshapeError::MissingChunk { coarse_chan: 0, timestep: 2 })
    );
}

#[test]
fn scatter_covers_every_cell_and_keeps_padding() {
    // one coarse channel of three fine channels, ten timesteps: stride sixteen
    let g = Geometry::new(10, 1, 3, 1).unwrap();
    let mut reshaper: Reshaper<f32> = Reshaper::new(g, -1.0);
    for t in (0..10).rev() {
        let chunk: Vec<f32> = (0..g.chunk_len()).map(|k| (t * 100 + k) as f32).collect();
        reshaper.accept_chunk(0, t, &chunk).unwrap();
    }
    let buffers = reshaper.finish().unwrap();
    assert_eq!(buffers.len(), 1);
    let b = &buffers[0];
    assert_eq!(b.stride, 16);
    for plane in 0..8 {
        for fine in 0..3 {
            for t in 0..16 {
                let expected = if t < 10 { (t * 100 + fine * 8 + plane) as f32 } else { -1.0 };
                assert_eq!(b.value(plane, fine, t), expected);
            }
        }
    }
}

#[test]
fn geometry_sizes() {
    let g = Geometry::new(4, 2, 2, 128).unwrap();
    assert_eq!(g.num_baselines, 8256);
    assert_eq!(g.height(), 4);
    assert_eq!(g.image_stride(), 8);
    assert_eq!(g.chunk_len(), 8256 * 2 * 8);
    assert_eq!(g.body_len(), 4 * 8256 * 2);
    assert_eq!(g.row_offset(1, 1), 3);
    assert!(Geometry::new(0, 2, 2, 128).is_none());
    assert!(Geometry::new(4, 2, 2, usize::MAX).is_none());
}

#[test]
fn stride_pads_to_multiple_of_eight() {
    assert_eq!(stride(64), 64);
    assert_eq!(stride(65), 72);
    assert_eq!(stride(1), 8);
    assert_eq!(stride(8), 8);
    assert_eq!(stride(9), 16);
    for w in 1..200usize {
        let s = stride(w);
        assert_eq!(s % 8, 0);
        assert!(s >= w && s - w < 8);
    }
}

#[test]
fn image_buffer_holds_a_single_sentinel() {
    let mut image: ImageBuffer<f32> = ImageBuffer::new(64, 64, 0.0);
    assert_eq!(image.stride, 64);
    assert_eq!(image.data.len(), 8 * 64 * 64);
    image.set(1, 32, 32, 0xffffff as f32);
    assert_eq!(image.value(1, 32, 32), 0xffffff as f32);
    assert_eq!(image.value(0, 32, 32), 0.0);
    assert_eq!(image.value(1, 0, 0), 0.0);
    assert_eq!(image.data.iter().filter(|v| **v != 0.0).count(), 1);
}

#[test]
fn consumer_drains_the_channel() {
    let g = mwax_geometry(2);
    let (tx, rx) = crossbeam_channel::unbounded();
    for &(coarse, timestep) in [(1, 3), (0, 0), (1, 0), (0, 3), (0, 1), (1, 2), (0, 2), (1, 1)].iter() {
        tx.send((coarse, timestep, Some(mwax_chunk(&g, coarse, timestep)))).unwrap();
    }
    drop(tx);
    let buffers = consume_chunks(Reshaper::new(g, 0.0), &rx).unwrap();
    assert_eq!(buffers.len(), 3);
    assert_eq!(buffers[1].value(0, 3, 2), (0x410000 + 6 * 0x100 + 16 + 8) as f32);
    assert_eq!(buffers[1].value(5, 0, 7), 0.0);
}

#[test]
fn consumer_reports_failed_reads_and_missing_chunks() {
    let g = mwax_geometry(2);
    let (tx, rx) = crossbeam_channel::unbounded();
    tx.send((0, 0, Some(mwax_chunk(&g, 0, 0)))).unwrap();
    tx.send((1, 2, None)).unwrap();
    drop(tx);
    assert_eq!(
        consume_chunks(Reshaper::<f32>::new(g, 0.0), &rx).err(),
        Some(ReshapeError::SourceRead { coarse_chan: 1, timestep: 2 })
    );

    let (tx, rx) = crossbeam_channel::unbounded();
    tx.send((0, 0, Some(mwax_chunk(&g, 0, 0)))).unwrap();
    drop(tx);
    assert_eq!(
        consume_chunks(Reshaper::<f32>::new(g, 0.0), &rx).err(),
        Some(ReshapeError::MissingChunk { coarse_chan: 0, timestep: 1 })
    );
}

/// The plane `plane` of an image buffer, row after row.
fn plane_of(image: &ImageBuffer<f32>, plane: usize) -> Vec<f32> {
    let plane_len = image.height * image.stride;
    image.data[plane * plane_len..(plane + 1) * plane_len].to_vec()
}

/// Per-plane values of fine channel 0 of coarse channel 0 at timestep 0 in the
/// legacy sample data, for baselines 0 and 5; each later timestep adds 0x40000
/// to the magnitude.
const MWA_ORD_BASELINE_0: [i64; 8] = [0x10c5be, 0x10c5bf, 0x10c5ae, -0x10c5af, 0x10c5ae, 0x10c5af, 0x10bec6, 0x10bec7];
const MWA_ORD_BASELINE_5: [i64; 8] = [0x10f1ce, -0x10f1cf, 0x10ea26, -0x10ea27, 0x10f1be, -0x10f1bf, 0x10ea16, -0x10ea17];

fn mwa_ord_chunk(g: &Geometry, coarse: usize, timestep: usize) -> Vec<f32> {
    let f = g.fine_chans_per_coarse;
    (0..g.chunk_len())
        .map(|k| {
            let (baseline, fine, plane) = (k / 8 / f, k / 8 % f, k % 8);
            let base = match (coarse, fine, baseline) {
                (0, 0, 0) => MWA_ORD_BASELINE_0[plane],
                (0, 0, 5) => MWA_ORD_BASELINE_5[plane],
                _ => return 1.0,
            };
            let magnitude = base.abs() + timestep as i64 * 0x40000;
            (if base < 0 { -magnitude } else { magnitude }) as f32
        })
        .collect()
}

#[test]
fn test_context_to_baseline_imgsets_mwa_ord() {
    // four timesteps, two coarse channels, three antennas: six baselines
    let g = Geometry::new(4, 2, 2, 3).unwrap();
    let width = g.num_timesteps;
    let img_stride = (((width - 1) / 8) + 1) * 8;

    let mut reshaper: Reshaper<f32> = Reshaper::new(g, 0.0);
    for &(coarse, timestep) in [(1, 1), (0, 3), (0, 0), (1, 3), (0, 2), (1, 0), (0, 1), (1, 2)].iter() {
        reshaper.accept_chunk(coarse, timestep, &mwa_ord_chunk(&g, coarse, timestep)).unwrap();
    }
    let baseline_imgsets = reshaper.finish().unwrap();

    let imgset0 = &baseline_imgsets[0];
    let buf = |plane: usize| plane_of(imgset0, plane);

    assert_eq!(buf(0)[0 * img_stride + 0], 0x10c5be as f32);
    assert_eq!(buf(0)[0 * img_stride + 1], 0x14c5be as f32);
    assert_eq!(buf(0)[0 * img_stride + 2], 0x18c5be as f32);
    assert_eq!(buf(0)[0 * img_stride + 3], 0x1cc5be as f32);

    assert_eq!(buf(1)[0 * img_stride + 0], 0x10c5bf as f32);
    assert_eq!(buf(1)[0 * img_stride + 1], 0x14c5bf as f32);
    assert_eq!(buf(1)[0 * img_stride + 2], 0x18c5bf as f32);
    assert_eq!(buf(1)[0 * img_stride + 3], 0x1cc5bf as f32);

    assert_eq!(buf(2)[0 * img_stride + 0], 0x10c5ae as f32);
    assert_eq!(buf(2)[0 * img_stride + 1], 0x14c5ae as f32);
    assert_eq!(buf(2)[0 * img_stride + 2], 0x18c5ae as f32);
    assert_eq!(buf(2)[0 * img_stride + 3], 0x1cc5ae as f32);

    assert_eq!(buf(3)[0 * img_stride + 0], -0x10c5af as f32);
    assert_eq!(buf(3)[0 * img_stride + 1], -0x14c5af as f32);
    assert_eq!(buf(3)[0 * img_stride + 2], -0x18c5af as f32);
    assert_eq!(buf(3)[0 * img_stride + 3], -0x1cc5af as f32);

    assert_eq!(buf(4)[0 * img_stride + 0], 0x10c5ae as f32);
    assert_eq!(buf(4)[0 * img_stride + 1], 0x14c5ae as f32);
    assert_eq!(buf(4)[0 * img_stride + 2], 0x18c5ae as f32);
    assert_eq!(buf(4)[0 * img_stride + 3], 0x1cc5ae as f32);

    assert_eq!(buf(5)[0 * img_stride + 0], 0x10c5af as f32);
    assert_eq!(buf(5)[0 * img_stride + 1], 0x14c5af as f32);
    assert_eq!(buf(5)[0 * img_stride + 2], 0x18c5af as f32);
    assert_eq!(buf(5)[0 * img_stride + 3], 0x1cc5af as f32);

    assert_eq!(buf(6)[0 * img_stride + 0], 0x10bec6 as f32);
    assert_eq!(buf(6)[0 * img_stride + 1], 0x14bec6 as f32);
    assert_eq!(buf(6)[0 * img_stride + 2], 0x18bec6 as f32);
    assert_eq!(buf(6)[0 * img_stride + 3], 0x1cbec6 as f32);

    assert_eq!(buf(7)[0 * img_stride + 0], 0x10bec7 as f32);
    assert_eq!(buf(7)[0 * img_stride + 1], 0x14bec7 as f32);
    assert_eq!(buf(7)[0 * img_stride + 2], 0x18bec7 as f32);
    assert_eq!(buf(7)[0 * img_stride + 3], 0x1cbec7 as f32);


    let imgset5 = &baseline_imgsets[5];
    let buf5 = |plane: usize| plane_of(imgset5, plane);
    assert_eq!(buf5(0)[0 * img_stride + 0], 0x10f1ce as f32);
    assert_eq!(buf5(0)[0 * img_stride + 1], 0x14f1ce as f32);
    assert_eq!(buf5(0)[0 * img_stride + 2], 0x18f1ce as f32);
    assert_eq!(buf5(0)[0 * img_stride + 3], 0x1cf1ce as f32);

    assert_eq!(buf5(1)[0 * img_stride + 0], -0x10f1cf as f32);
    assert_eq!(buf5(1)[0 * img_stride + 1], -0x14f1cf as f32);
    assert_eq!(buf5(1)[0 * img_stride + 2], -0x18f1cf as f32);
    assert_eq!(buf5(1)[0 * img_stride + 3], -0x1cf1cf as f32);

    assert_eq!(buf5(2)[0 * img_stride + 0], 0x10ea26 as f32);
    assert_eq!(buf5(2)[0 * img_stride + 1], 0x14ea26 as f32);
    assert_eq!(buf5(2)[0 * img_stride + 2], 0x18ea26 as f32);
    assert_eq!(buf5(2)[0 * img_stride + 3], 0x1cea26 as f32);

    assert_eq!(buf5(3)[0 * img_stride + 0], -0x10ea27 as f32);
    assert_eq!(buf5(3)[0 * img_stride + 1], -0x14ea27 as f32);
    assert_eq!(buf5(3)[0 * img_stride + 2], -0x18ea27 as f32);
    assert_eq!(buf5(3)[0 * img_stride + 3], -0x1cea27 as f32);

    assert_eq!(buf5(4)[0 * img_stride + 0], 0x10f1be as f32);
    assert_eq!(buf5(4)[0 * img_stride + 1], 0x14f1be as f32);
    assert_eq!(buf5(4)[0 * img_stride + 2], 0x18f1be as f32);
    assert_eq!(buf5(4)[0 * img_stride + 3], 0x1cf1be as f32);

    assert_eq!(buf5(5)[0 * img_stride + 0], -0x10f1bf as f32);
    assert_eq!(buf5(5)[0 * img_stride + 1], -0x14f1bf as f32);
    assert_eq!(buf5(5)[0 * img_stride + 2], -0x18f1bf as f32);
    assert_eq!(buf5(5)[0 * img_stride + 3], -0x1cf1bf as f32);

    assert_eq!(buf5(6)[0 * img_stride + 0], 0x10ea16 as f32);
    assert_eq!(buf5(6)[0 * img_stride + 1], 0x14ea16 as f32);
    assert_eq!(buf5(6)[0 * img_stride + 2], 0x18ea16 as f32);
    assert_eq!(buf5(6)[0 * img_stride + 3], 0x1cea16 as f32);

    assert_eq!(buf5(7)[0 * img_stride + 0], -0x10ea17 as f32);
    assert_eq!(buf5(7)[0 * img_stride + 1], -0x14ea17 as f32);
    assert_eq!(buf5(7)[0 * img_stride + 2], -0x18ea17 as f32);
    assert_eq!(buf5(7)[0 * img_stride + 3], -0x1cea17 as f32);
}

#[test]
fn messages_are_accepted_one_at_a_time() {
    let g = mwax_geometry(2);
    let mut reshaper: Reshaper<f32> = Reshaper::new(g, 0.0);
    assert_eq!(
        accept_message(&mut reshaper, (1, 2, None)),
        Err(ReshapeError::SourceRead { coarse_chan: 1, timestep: 2 })
    );
    assert_eq!(accept_message(&mut reshaper, (1, 2, Some(mwax_chunk(&g, 1, 2)))), Ok(()));
    assert_eq!(
        accept_message(&mut reshaper, (1, 2, Some(mwax_chunk(&g, 1, 2)))),
        Err(ReshapeError::DuplicateChunk { coarse_chan: 1, timestep: 2 })
    );
    assert_eq!(
        accept_message(&mut reshaper, (0, 0, Some(vec![1.0]))),
        Err(ReshapeError::MalformedChunk { expected: 48, actual: 1 })
    );
}

#[test]
fn consumer_without_expected_chunks_succeeds() {
    let g = Geometry::new(4, 0, 2, 2).unwrap();
    let (tx, rx) = crossbeam_channel::unbounded::<(usize, usize, Option<Vec<f32>>)>();
    let buffers = consume_chunks(Reshaper::new(g, 0.0), &rx).unwrap();
    drop(tx);
    assert_eq!(buffers.len(), 3);
    assert!(buffers.iter().all(|b| b.data.is_empty()));
}
