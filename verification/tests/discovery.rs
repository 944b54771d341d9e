//! Frame-name parsing, discovery and the dense axis reindexing.

use mupattern::frames::{
    axis_index, discover_frames, parse_frame_name, DiscoveryError, FrameKey, NameParse,
};

fn name(c: u32, p: u32, t: u32, z: u32) -> String {
    format!("img_channel{:03}_position{:03}_time{:09}_z{:03}.tif", c, p, t, z)
}

#[test]
fn parses_a_conventional_name() {
    let r = parse_frame_name("img_channel002_position001_time000000005_z000.tif");
    assert_eq!(
        r,
        NameParse::Frame { key: FrameKey { channel: 2, time: 5, z: 0 }, position: 1 },
    );
}

#[test]
fn rejects_foreign_names() {
    assert_eq!(parse_frame_name("notes.txt"), NameParse::NotAFrame);
    assert_eq!(parse_frame_name("img_channel_position0_time0_z0.tif"), NameParse::NotAFrame);
    assert_eq!(
        parse_frame_name("img_channel001_position001_time000000001_z001.tiff"),
        NameParse::NotAFrame,
    );
}

#[test]
fn oversize_position_digits_are_flagged() {
    let r = parse_frame_name("img_channel000_position99999999999_time000000000_z000.tif");
    assert_eq!(r, NameParse::PositionTooLarge);
}

#[test]
fn oversize_channel_digits_are_flagged_with_the_position() {
    let r = parse_frame_name("img_channel99999999999_position003_time000000000_z000.tif");
    assert_eq!(r, NameParse::FieldTooLarge { position: 3 });
}

#[test]
fn distinct_keys_index_completely() {
    let names = vec![
        name(1, 0, 0, 0),
        name(0, 0, 1, 0),
        String::from("README"),
        name(0, 0, 0, 0),
        name(1, 0, 1, 0),
        name(0, 7, 0, 0),
    ];
    let idx = discover_frames(&names, 0).unwrap();
    assert_eq!(idx.entries.len(), 4);
    let keys: Vec<(u32, u32, u32)> =
        idx.entries.iter().map(|e| (e.key.channel, e.key.time, e.key.z)).collect();
    assert_eq!(keys, vec![(0, 0, 0), (0, 1, 0), (1, 0, 0), (1, 1, 0)]);
    assert_eq!(idx.entries[0].source, 3);
}

#[test]
fn a_duplicate_key_is_fatal() {
    let names = vec![name(0, 0, 0, 0), name(1, 0, 0, 0), name(0, 0, 0, 0)];
    let e = discover_frames(&names, 0).unwrap_err();
    assert_eq!(e, DiscoveryError::DuplicateKey { channel: 0, time: 0, z: 0 });
}

#[test]
fn no_matching_names_is_fatal() {
    let names = vec![String::from("a.txt"), name(0, 2, 0, 0)];
    let e = discover_frames(&names, 1).unwrap_err();
    assert_eq!(e, DiscoveryError::NoFrames);
}

#[test]
fn axes_are_reindexed_densely() {
    let names = vec![
        name(9, 0, 4, 0),
        name(5, 0, 4, 0),
        name(2, 0, 4, 0),
        name(9, 0, 7, 1),
        name(5, 0, 7, 1),
        name(2, 0, 7, 1),
    ];
    let idx = discover_frames(&names, 0).unwrap();
    assert_eq!(idx.channels, vec![2, 5, 9]);
    assert_eq!(idx.times, vec![4, 7]);
    assert_eq!(idx.zs, vec![0, 1]);
    assert_eq!(axis_index(&idx.channels, 2), Some(0));
    assert_eq!(axis_index(&idx.channels, 5), Some(1));
    assert_eq!(axis_index(&idx.channels, 9), Some(2));
    assert_eq!(axis_index(&idx.channels, 3), None);
}

#[test]
fn formatted_names_parse_back_to_their_coordinates() {
    let n = mupattern::frames::format_frame_name(2, 1, 5, 0);
    assert_eq!(n, "img_channel002_position001_time000000005_z000.tif");
    assert_eq!(
        parse_frame_name(&n),
        NameParse::Frame { key: FrameKey { channel: 2, time: 5, z: 0 }, position: 1 },
    );
    let wide = mupattern::frames::format_frame_name(4000, 4000000, 4, 4);
    assert_eq!(n, name(2, 1, 5, 0));
    assert_eq!(
        parse_frame_name(&wide),
        NameParse::Frame { key: FrameKey { channel: 4000, time: 4, z: 4 }, position: 4000000 },
    );
}
