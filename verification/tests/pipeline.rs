//! The crop pipeline end to end: array creation, per-frame extraction,
//! dense chunk addressing, and the background median.

use mupattern::crop::{
    begin_crop_run, extract_crop_u16, feed_frame, next_source, start_crop_run, widen_u8,
    PipelineError,
};
use mupattern::frames::parse_frame_name;
use mupattern::frames::NameParse;

fn name(c: u32, p: u32, t: u32, z: u32) -> String {
    format!("img_channel{:03}_position{:03}_time{:09}_z{:03}.tif", c, p, t, z)
}

/// A 50 by 50 frame: background value everywhere, the two rectangle
/// regions overwritten with values of their own.
fn frame(c: u32, t: u32) -> Vec<u16> {
    let k = (10 * (t + 1) + c) as u16;
    let mut f = vec![k; 50 * 50];
    for y in 0..10 {
        for x in 0..10 {
            f[y * 50 + x] = (60000 + t) as u16;
        }
    }
    for y in 20..25 {
        for x in 20..25 {
            f[y * 50 + x] = 50;
        }
    }
    f
}

#[test]
fn end_to_end_fills_every_chunk() {
    let mut names = Vec::new();
    for c in 0..2u32 {
        for t in 0..3u32 {
            names.push(name(c, 4, t, 0));
        }
    }
    let csv = "crop,x,y,w,h\n0,0,0,10,10\n1,20,20,5,5\n";
    let setup = begin_crop_run(&names, 4, csv).unwrap();
    let mut run = start_crop_run(setup, 4, 50, 50, true).unwrap();

    while let Some(src) = next_source(&run) {
        let (c, t) = match parse_frame_name(&names[src]) {
            NameParse::Frame { key, .. } => (key.channel, key.time),
            _ => panic!("indexed name no longer parses"),
        };
        let f = frame(c, t);
        feed_frame(&mut run, &f, 50, 50).unwrap();
    }

    assert_eq!(run.crop_ids.len(), 2);
    let a0 = &run.store.arrays[run.crop_ids[0]];
    assert_eq!(a0.shape, vec![3, 2, 1, 10, 10]);
    assert_eq!(a0.chunk_shape, vec![1, 1, 1, 10, 10]);
    let a1 = &run.store.arrays[run.crop_ids[1]];
    assert_eq!(a1.shape, vec![3, 2, 1, 5, 5]);
    assert_eq!(a1.chunk_shape, vec![1, 1, 1, 5, 5]);
    let bg = run.bg_id.unwrap();
    assert_eq!(run.store.arrays[bg].shape, vec![3, 2, 1]);
    assert_eq!(run.store.arrays[bg].chunk_shape, vec![1, 1, 1]);

    for c in 0..2u64 {
        for t in 0..3u64 {
            let chunk0 = run
                .store
                .read_chunk(run.crop_ids[0], &vec![t, c, 0, 0, 0])
                .unwrap();
            assert_eq!(chunk0, vec![(60000 + t) as u16; 100]);
            let chunk1 = run
                .store
                .read_chunk(run.crop_ids[1], &vec![t, c, 0, 0, 0])
                .unwrap();
            assert_eq!(chunk1, vec![50u16; 25]);
            let bg_chunk = run.store.read_chunk(bg, &vec![t, c, 0]).unwrap();
            assert_eq!(bg_chunk, vec![(10 * (t + 1) + c) as u16]);
        }
    }
}

#[test]
fn a_frame_of_the_wrong_size_aborts() {
    let names = vec![name(0, 1, 0, 0)];
    let csv = "crop,x,y,w,h\n0,0,0,2,2\n";
    let setup = begin_crop_run(&names, 1, csv).unwrap();
    let mut run = start_crop_run(setup, 1, 4, 4, false).unwrap();
    let bad = vec![0u16; 9];
    let e = feed_frame(&mut run, &bad, 3, 3).unwrap_err();
    assert_eq!(
        e,
        PipelineError::DimensionMismatch {
            expected_width: 4,
            expected_height: 4,
            got_width: 3,
            got_height: 3,
        },
    );
}

#[test]
fn a_short_buffer_aborts() {
    let names = vec![name(0, 1, 0, 0)];
    let csv = "crop,x,y,w,h\n0,0,0,2,2\n";
    let setup = begin_crop_run(&names, 1, csv).unwrap();
    let mut run = start_crop_run(setup, 1, 4, 4, false).unwrap();
    let bad = vec![0u16; 15];
    let e = feed_frame(&mut run, &bad, 4, 4).unwrap_err();
    assert_eq!(e, PipelineError::FrameBufferMismatch { expected: 16, got: 15 });
}

#[test]
fn arrays_live_under_their_position_paths() {
    let names = vec![name(0, 12, 0, 0)];
    let csv = "crop,x,y,w,h\n0,0,0,2,2\n";
    let setup = begin_crop_run(&names, 12, csv).unwrap();
    let run = start_crop_run(setup, 12, 4, 4, true).unwrap();
    assert_eq!(run.store.arrays[run.crop_ids[0]].path, "/pos/012/crop/000");
    assert_eq!(run.store.arrays[run.bg_id.unwrap()].path, "/pos/012/background");
    assert!(run.store.groups.contains(&String::from("/pos/012/crop")));
}

#[test]
fn extraction_copies_rows_with_the_frame_stride() {
    let frame: Vec<u16> = (0..12).collect();
    let out = extract_crop_u16(&frame, 4, 1, 1, 2, 2);
    assert_eq!(out, vec![5, 6, 9, 10]);
}

#[test]
fn widening_preserves_values() {
    let out = widen_u8(&[0, 7, 255]);
    assert_eq!(out, vec![0u16, 7, 255]);
}
