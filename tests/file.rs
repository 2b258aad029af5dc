use moq::media::{Atom, File, MediaError};
use moq::web::{session_plan, ConnectPlan, WebError};
use std::io::Cursor;

use mp4::{MoovBox, ReadBox, WriteBox};

fn ftyp() -> Vec<u8> {
    let mut v = vec![0, 0, 0, 16];
    v.extend_from_slice(b"ftypisom");
    v.extend_from_slice(&[0, 0, 2, 0]);
    v
}

fn moov(track_id: u32, timescale: u32) -> Vec<u8> {
    let mut moov = MoovBox::default();
    moov.traks.push(Default::default());
    moov.traks[0].tkhd.track_id = track_id;
    moov.traks[0].mdia.mdhd.timescale = timescale;
    // a sample entry and a chunk offset table, which a reader requires
    moov.traks[0].mdia.minf.stbl.stsd.tx3g = Some(Default::default());
    moov.traks[0].mdia.minf.stbl.stco = Some(Default::default());
    let mut out = Vec::new();
    moov.write_box(&mut out).unwrap();
    out
}

fn boxed(kind: &[u8; 4], body: &[u8]) -> Vec<u8> {
    let mut v = ((body.len() + 8) as u32).to_be_bytes().to_vec();
    v.extend_from_slice(kind);
    v.extend_from_slice(body);
    v
}

fn moof(track_id: u32, time: u64, first_flags: u32) -> Vec<u8> {
    let mfhd = boxed(b"mfhd", &[0, 0, 0, 0, 0, 0, 0, 1]);
    let mut tfhd = vec![0, 0, 0, 0];
    tfhd.extend_from_slice(&track_id.to_be_bytes());
    let mut tfdt = vec![1, 0, 0, 0];
    tfdt.extend_from_slice(&time.to_be_bytes());
    // first-sample flags and per-sample sizes are present
    let mut trun = vec![0, 0, 0x02, 0x04];
    trun.extend_from_slice(&1u32.to_be_bytes());
    trun.extend_from_slice(&first_flags.to_be_bytes());
    trun.extend_from_slice(&4u32.to_be_bytes());
    let mut traf = boxed(b"tfhd", &tfhd);
    traf.extend(boxed(b"tfdt", &tfdt));
    traf.extend(boxed(b"trun", &trun));
    let mut body = mfhd;
    body.extend(boxed(b"traf", &traf));
    boxed(b"moof", &body)
}

fn mdat(payload: &[u8]) -> Vec<u8> {
    let mut v = ((payload.len() + 8) as u32).to_be_bytes().to_vec();
    v.extend_from_slice(b"mdat");
    v.extend_from_slice(payload);
    v
}

fn moov_tracks(data: &[u8]) -> Vec<(u32, u32)> {
    let mut c = Cursor::new(data);
    c.set_position(8);
    let moov = MoovBox::read_box(&mut c, data.len() as u64).unwrap();
    moov.traks.iter().map(|t| (t.tkhd.track_id, t.mdia.mdhd.timescale)).collect()
}

#[test]
fn file_header_checks() {
    assert_eq!(moov_tracks(&moov(3, 90000)), vec![(3, 90000)]);
    assert_eq!(File::new(&moov(1, 1000), &vec![(1, 1000)]).err(), Some(MediaError::ExpectedFtyp));
    let mut data = ftyp();
    data.extend(mdat(b"x"));
    assert_eq!(File::new(&data, &vec![(1, 1000)]).err(), Some(MediaError::ExpectedMoov));
    let mut data = ftyp();
    data.extend(moov(0xff, 1000));
    assert_eq!(File::new(&data, &vec![(0xff, 1000)]).err(), Some(MediaError::ReservedTrack));
    let mut data = ftyp();
    data.extend(moov(1, 0));
    assert_eq!(File::new(&data, &vec![(1, 0)]).err(), Some(MediaError::ZeroTimescale));
}

#[test]
fn moof_with_zero_sized_child_is_refused() {
    let mut data = ftyp();
    data.extend(moov(1, 1000));
    let (file, pos) = File::new(&data, &vec![(1, 1000)]).unwrap();
    // a moof whose child box declares size 0
    data.extend_from_slice(&[0, 0, 0, 16, b'm', b'o', b'o', b'f', 0, 0, 0, 0, b'x', b'x', b'x', b'x']);
    assert_eq!(file.read(&data, pos).err(), Some(MediaError::Mp4));
    // a traf inside it whose child declares size 0
    let mut traf = boxed(b"traf", &[0, 0, 0, 0, b'y', b'y', b'y', b'y']);
    let mut moof_body = boxed(b"mfhd", &[0, 0, 0, 0, 0, 0, 0, 1]);
    moof_body.append(&mut traf);
    let mut data2 = data[..pos].to_vec();
    data2.extend(boxed(b"moof", &moof_body));
    assert_eq!(file.read(&data2, pos).err(), Some(MediaError::Mp4));
}

#[test]
fn file_fragments_flow_to_tracks() {
    let mut data = ftyp();
    data.extend(moov(1, 1000));
    let header_end = data.len();
    data.extend(moof(1, 2500, 0x0200_0000));
    data.extend(mdat(b"abcd"));
    data.extend(moof(2, 0, 0));
    data.extend(mdat(b"x"));

    let (mut file, pos) = File::new(&data, &moov_tracks(&data[16..header_end])).unwrap();
    assert_eq!(pos, header_end);
    assert_eq!(*file.init_bytes(), data[..header_end].to_vec());

    let (atom, pos) = file.read(&data, pos).unwrap();
    match &atom {
        Atom::Moof { fragment, due_ms, .. } => {
            assert_eq!(fragment.track, 1);
            assert_eq!(fragment.timestamp, 2500);
            assert!(fragment.keyframe);
            assert_eq!(*due_ms, 2500);
        }
        _ => panic!("expected a fragment header"),
    }
    file.publish(atom, 0).unwrap();

    let (atom, pos) = file.read(&data, pos).unwrap();
    assert!(matches!(atom, Atom::Mdat { .. }));
    file.publish(atom, 0).unwrap();

    assert_eq!(file.read(&data, pos).err(), Some(MediaError::UnknownTrack));
    assert_eq!(file.publish(Atom::Mdat { raw: vec![] }, 0), Err(MediaError::MissingMoof));
    assert_eq!(file.publish(Atom::Other, 0), Ok(()));
}

#[test]
fn urls_choose_the_connection() {
    assert_eq!(session_plan("http://localhost:4443/"), Ok(ConnectPlan::Fingerprint));
    assert_eq!(session_plan("https://relay.example/"), Ok(ConnectPlan::Direct));
    assert_eq!(session_plan("HTTPS://relay.example/"), Ok(ConnectPlan::Direct));
    assert_eq!(session_plan("ftp://relay.example/"), Err(WebError::InvalidUrl));
    assert_eq!(session_plan("not a url"), Err(WebError::InvalidUrl));
}
