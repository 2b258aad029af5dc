use moq::codec::{CodecError, VideoCodec, H265, VP8};
use moq::media::{read_atom, sample_keyframe, send_order, timestamp_ms, MediaError, SourceFragment, Traf, Trun, Track, Video};
use moq::track;
use moq::varint::MAX_VARINT;

#[test]
fn h265_string() {
    let h = H265 { profile: 0x42, constraints: 0xc0, level: 0x1e };
    assert_eq!(h.to_string(), "hev1.42c01e");
    assert_eq!(VideoCodec::from_str("hev1.42c01e"), VideoCodec::H265(h));
    assert_eq!(VideoCodec::from_str("hvc1.010203"), VideoCodec::H265(H265 { profile: 1, constraints: 2, level: 3 }));
}

#[test]
fn vp8_and_unknown_codecs() {
    assert_eq!(VP8.to_string(), "vp8");
    assert_eq!(VP8::from_str("vp8"), Ok(VP8));
    assert_eq!(VP8::from_str("vp9"), Err(CodecError::Invalid));
    assert_eq!(VideoCodec::from_str("vp8"), VideoCodec::VP8(VP8));
    assert_eq!(VideoCodec::from_str("hev1.42c0zz"), VideoCodec::Unknown("hev1.42c0zz".to_string()));
    assert_eq!(VideoCodec::from_str("opus"), VideoCodec::Unknown("opus".to_string()));
}

#[test]
fn atoms_are_framed_by_size() {
    let mut data = vec![0, 0, 0, 12, b'f', b't', b'y', b'p', 1, 2, 3, 4];
    data.extend_from_slice(&[0, 0, 0, 9, b'm', b'o', b'o', b'v', 5, 6, 7]);
    let (a, end) = read_atom(&data, 0).unwrap();
    assert_eq!(a, data[..12].to_vec());
    assert_eq!(end, 12);
    let (b, end) = read_atom(&data, end).unwrap();
    assert_eq!(b, data[12..21].to_vec());
    assert_eq!(end, 21);
    assert_eq!(read_atom(&data, 21), Err(MediaError::More));
    // a declared size past the end is cut at the end of the data
    assert_eq!(read_atom(&[0, 0, 0, 20, b'm', b'd', b'a', b't', 1], 0), Ok((vec![0, 0, 0, 20, b'm', b'd', b'a', b't', 1], 9)));
    // size 0 runs to the end of the data
    assert_eq!(read_atom(&[0, 0, 0, 0, b'm', b'd', b'a', b't', 9], 0), Ok((vec![0, 0, 0, 0, b'm', b'd', b'a', b't', 9], 9)));
    assert_eq!(read_atom(&[0, 0, 0, 5, 0, 0, 0, 0], 0), Err(MediaError::ImpossibleSize(5)));
    assert_eq!(read_atom(&[0, 0, 0, 1, 0, 0, 0, 0, 0, 0, 0, 0, 0, 0, 0, 3], 0), Err(MediaError::ImpossibleSize(3)));
    assert_eq!(read_atom(&[0, 0, 0], 0), Err(MediaError::More));
    // a 64-bit size: the atom keeps its 8-byte header and its data
    let ext = [0, 0, 0, 1, b'm', b'd', b'a', b't', 0, 0, 0, 0, 0, 0, 0, 18, 9, 8, 7];
    assert_eq!(read_atom(&ext, 0), Ok((vec![0, 0, 0, 1, b'm', b'd', b'a', b't', 9, 8], 18)));
}

fn traf(flags: Vec<u32>, first: Option<u32>) -> Traf {
    Traf {
        track_id: 1,
        base_media_decode_time: Some(90000),
        default_sample_flags: Some(0x0101_0000),
        trun: Some(Trun { sample_count: flags.len() as u32, sample_flags: flags, first_sample_flags: first }),
    }
}

#[test]
fn keyframe_detection() {
    assert!(sample_keyframe(&vec![traf(vec![0x0200_0000], None)]));
    assert!(!sample_keyframe(&vec![traf(vec![0x0201_0000], None)]));
    assert!(sample_keyframe(&vec![traf(vec![0x0101_0000], Some(0x0200_0000))]));
    assert!(!sample_keyframe(&vec![Traf { track_id: 1, base_media_decode_time: None, default_sample_flags: None, trun: None }]));
    let frag = SourceFragment::new(&vec![traf(vec![0x0200_0000], None)]).unwrap();
    assert_eq!(frag, SourceFragment { track: 1, timestamp: 90000, keyframe: true });
    assert_eq!(frag.timestamp(90000), 1000);
    assert_eq!(SourceFragment::new(&vec![]), Err(MediaError::MultipleTracks));
}

#[test]
fn timing_and_send_order() {
    assert_eq!(timestamp_ms(3000, 1000), 3000);
    assert_eq!(timestamp_ms(45000, 90000), 500);
    assert_eq!(send_order(0), Ok(MAX_VARINT));
    assert_eq!(send_order(1000), Ok(MAX_VARINT - 1000));
    assert_eq!(send_order(MAX_VARINT + 1), Err(MediaError::TimestampTooLarge));
}

#[test]
fn file_track_groups_by_keyframe() {
    let (publisher, _) = track::new("1");
    let mut t = Track::new(publisher, 1000);
    assert_eq!(t.data(vec![1]), Err(MediaError::MissingSegment));
    t.header(vec![10], SourceFragment { track: 1, timestamp: 0, keyframe: true }, 0).unwrap();
    t.data(vec![11]).unwrap();
    t.header(vec![12], SourceFragment { track: 1, timestamp: 40, keyframe: false }, 0).unwrap();
    t.header(vec![20], SourceFragment { track: 1, timestamp: 1000, keyframe: true }, 0).unwrap();
    t.data(vec![21]).unwrap();
    assert_eq!(t.groups_created(), 2);
}

#[test]
fn video_frames_carry_timestamps() {
    let (publisher, _) = track::new("video");
    let mut video = Video::new(publisher);
    video.write(1, b"ab", 0).unwrap();
    video.write(64, b"c", 0).unwrap();
    let done = video.keyframe().unwrap();
    assert_eq!(done.frame_count(), 2);
    assert_eq!(done.sequence(), 0);
    assert_eq!(*done.frame(0), vec![1, b'a', b'b']);
    assert_eq!(*done.frame(1), vec![0x40, 0x40, b'c']);
    assert!(video.keyframe().is_none());
    video.write(2, b"", 0).unwrap();
    let next = video.keyframe().unwrap();
    assert_eq!(next.sequence(), 1);
    assert_eq!(*next.frame(0), vec![2]);
}
