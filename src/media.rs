use vstd::prelude::*;

use crate::error::ServeError;
use crate::group::GroupWriter;
use crate::track::{insert_post, GroupInfo, Publisher};
use crate::varint::{encode_varint, varint_encoding, MAX_VARINT};
use mp4::ReadBox;

verus! {

/// Errors met while turning a fragmented MP4 file into groups.
#[derive(Debug, Clone, Copy, PartialEq, Eq, Structural)]
pub enum MediaError {
    /// The data ended inside an atom header.
    More,
    /// An atom declares a size smaller than its own header.
    ImpossibleSize(u64),
    /// A timestamp does not fit in a send order.
    TimestampTooLarge,
    /// Media data came before any fragment header.
    MissingSegment,
    /// The file does not start with an `ftyp` atom.
    ExpectedFtyp,
    /// The `ftyp` atom is not followed by a `moov` atom.
    ExpectedMoov,
    /// The MP4 parser refused an atom.
    Mp4,
    /// A track uses the reserved id 0xff.
    ReservedTrack,
    /// A track declares a timescale of zero.
    ZeroTimescale,
    /// A fragment names a track the file does not declare.
    UnknownTrack,
    /// Two fragment headers came without media data between them.
    MultipleMoof,
    /// Media data came without a fragment header before it.
    MissingMoof,
    /// A fragment header covers several tracks.
    MultipleTracks,
    /// A fragment header has no decode time.
    MissingTimestamp,
    /// The group sequence number no longer fits in a varint.
    SequenceTooLarge,
    /// The cache refused the group or frame.
    Serve(ServeError),
}

pub open spec fn be_u32(b: Seq<u8>) -> nat {
    b[0] as nat * 16777216 + b[1] as nat * 65536 + b[2] as nat * 256 + b[3] as nat
}

pub open spec fn be_u64(b: Seq<u8>) -> nat {
    be_u32(b) * 4294967296 + be_u32(b.subrange(4, 8))
}

/// The declared length of the atom whose header starts `b`: `None` for "up to
/// the end of the data", or the length, header included.
pub open spec fn atom_len_spec(b: Seq<u8>) -> Result<Option<nat>, MediaError> {
    if b.len() < 8 {
        Err(MediaError::More)
    } else {
        let size = be_u32(b);
        if size == 0 {
            Ok(None)
        } else if size == 1 {
            if b.len() < 16 {
                Err(MediaError::More)
            } else if be_u64(b.subrange(8, 16)) < 16 {
                Err(MediaError::ImpossibleSize(be_u64(b.subrange(8, 16)) as u64))
            } else {
                Ok(Some(be_u64(b.subrange(8, 16))))
            }
        } else if size < 8 {
            Err(MediaError::ImpossibleSize(size as u64))
        } else {
            Ok(Some(size))
        }
    }
}

/// Where the atom starting at `pos` ends: its declared end, or the end of the
/// data when that comes first.
pub open spec fn atom_end(len: nat, pos: nat, declared: Option<nat>) -> nat {
    match declared {
        None => len,
        Some(n) => if pos + n > len { len } else { pos + n },
    }
}

fn be_u32_at(b: &[u8], i: usize) -> (r: u64)
    requires
        i + 4 <= b@.len(),
    ensures
        r == be_u32(b@.subrange(i as int, i + 4)),
{
    (b[i] as u64) * 16777216 + (b[i + 1] as u64) * 65536 + (b[i + 2] as u64) * 256 + (b[i + 3] as u64)
}

/// The bytes kept of the atom at `pos`, which ends at `end`: its 8-byte header,
/// then its body. The 8 bytes of a 64-bit size are not kept: the atom is
/// handed on as the header that declared it plus its data.
pub open spec fn atom_bytes(data: Seq<u8>, pos: nat, end: nat) -> Seq<u8> {
    let skip: int = if be_u32(data.subrange(pos as int, data.len() as int)) == 1 { 16 } else { 8 };
    data.subrange(pos as int, pos + 8int) + data.subrange(pos + skip, end as int)
}

/// Reads the MP4 atom that starts at `pos`: its bytes, as `atom_bytes` keeps
/// them, and the position after it. An atom whose declared size reaches past
/// the data is cut at its end.
pub fn read_atom(data: &[u8], pos: usize) -> (r: Result<(Vec<u8>, usize), MediaError>)
    requires
        pos <= data@.len(),
    ensures
        match atom_len_spec(data@.subrange(pos as int, data@.len() as int)) {
            Err(e) => r == Err::<(Vec<u8>, usize), MediaError>(e),
            Ok(declared) => r matches Ok((atom, end)) && end == atom_end(data@.len(), pos as nat, declared)
                && atom@ == atom_bytes(data@, pos as nat, end as nat),
        },
{
    let len = data.len();
    let ghost b = data@.subrange(pos as int, len as int);
    if len - pos < 8 {
        return Err(MediaError::More);
    }
    let size = be_u32_at(data, pos);
    assert(data@.subrange(pos as int, pos + 4) =~= b.subrange(0, 4));
    assert(be_u32(b) == be_u32(b.subrange(0, 4)));
    let end: usize = if size == 0 {
        len
    } else if size == 1 {
        if len - pos < 16 {
            return Err(MediaError::More);
        }
        let hi = be_u32_at(data, pos + 8);
        let lo = be_u32_at(data, pos + 12);
        assert(data@.subrange(pos + 8, pos + 12) =~= b.subrange(8, 16).subrange(0, 4));
        assert(data@.subrange(pos + 12, pos + 16) =~= b.subrange(8, 16).subrange(4, 8));
        assert(be_u32(b.subrange(8, 16)) == be_u32(b.subrange(8, 16).subrange(0, 4)));
        let large: u128 = (hi as u128) * 4294967296 + (lo as u128);
        if large < 16 {
            return Err(MediaError::ImpossibleSize(large as u64));
        }
        if large > (len - pos) as u128 {
            len
        } else {
            pos + large as usize
        }
    } else if size < 8 {
        return Err(MediaError::ImpossibleSize(size));
    } else if size > (len - pos) as u64 {
        len
    } else {
        pos + size as usize
    };
    let mut atom: Vec<u8> = Vec::new();
    let mut i = pos;
    while i < pos + 8
        invariant
            pos <= i <= pos + 8 <= end <= data@.len(),
            atom@ == data@.subrange(pos as int, i as int),
        decreases pos + 8 - i,
    {
        atom.push(data[i]);
        assert(atom@ =~= data@.subrange(pos as int, i + 1));
        i = i + 1;
    }
    let body: usize = if size == 1 { pos + 16 } else { pos + 8 };
    let ghost header = atom@;
    let mut i = body;
    while i < end
        invariant
            body <= i <= end <= data@.len(),
            atom@ == header + data@.subrange(body as int, i as int),
        decreases end - i,
    {
        atom.push(data[i]);
        assert(atom@ =~= header + data@.subrange(body as int, i + 1));
        i = i + 1;
    }
    Ok((atom, end))
}

/// The run of samples in a track fragment, as read from its `trun` box.
pub struct Trun {
    pub sample_count: u32,
    pub sample_flags: Vec<u32>,
    pub first_sample_flags: Option<u32>,
}

/// A track fragment: its track, its default sample flags (from `tfhd`), the
/// decode time of its first sample (from `tfdt`) and its run.
pub struct Traf {
    pub track_id: u32,
    pub base_media_decode_time: Option<u64>,
    pub default_sample_flags: Option<u32>,
    pub trun: Option<Trun>,
}

/// What the logic reads of a track fragment: track, decode time, default
/// flags, and the run's sample count, flags and first-sample flags.
pub type TrafView = (u32, Option<u64>, Option<u32>, Option<(u32, Seq<u32>, Option<u32>)>);

pub open spec fn traf_view(t: Traf) -> TrafView {
    (
        t.track_id,
        t.base_media_decode_time,
        t.default_sample_flags,
        match t.trun {
            Some(r) => Some((r.sample_count, r.sample_flags@, r.first_sample_flags)),
            None => None,
        },
    )
}

/// The track fragments of a `moof` atom, as the MP4 parser reads them; `None`
/// when it refuses the atom.
pub uninterp spec fn moof_trafs(atom: Seq<u8>) -> Option<Seq<TrafView>>;

/// How far the MP4 parser moves past the box header at `c`: `Some(n)` for a
/// declared size `n` (a 64-bit size when the 32-bit one is 1), `None` for a
/// size of 0, on which it would not move at all. `Some(0)` stands for a header
/// it fails to read, which ends the walk.
pub open spec fn box_advance(b: Seq<u8>, c: int) -> Option<nat> {
    if c + 8 > b.len() {
        Some(0)
    } else {
        let s = be_u32(b.subrange(c, c + 4));
        if s == 0 {
            None
        } else if s == 1 {
            if c + 16 > b.len() {
                Some(0)
            } else {
                let l = be_u64(b.subrange(c + 8, c + 16));
                if l == 0 {
                    None
                } else if l < 16 {
                    Some(0)
                } else {
                    Some(l)
                }
            }
        } else {
            Some(s)
        }
    }
}

/// The length of the header at `c`: 16 with a 64-bit size, else 8.
pub open spec fn header_len(b: Seq<u8>, c: int) -> int {
    if be_u32(b.subrange(c, c + 4)) == 1 { 16 } else { 8 }
}

/// Every box header the parser reads among the children in `[c, end)` of a
/// track fragment declares a size it moves past.
pub open spec fn traf_walk_ok(b: Seq<u8>, c: int, end: int) -> bool
    decreases end - c,
{
    if c >= end {
        true
    } else {
        match box_advance(b, c) {
            None => false,
            Some(n) => if n == 0 || c + n >= end {
                true
            } else {
                traf_walk_ok(b, c + n, end)
            },
        }
    }
}

pub open spec fn kind_at(b: Seq<u8>, c: int) -> Seq<u8> {
    b.subrange(c + 4, c + 8)
}

pub open spec fn kind_traf() -> Seq<u8> {
    seq![0x74u8, 0x72, 0x61, 0x66]
}

/// The same for the children in `[c, end)` of a fragment header, descending
/// into its track fragments as the parser does.
pub open spec fn moof_walk_ok(b: Seq<u8>, c: int, end: int) -> bool
    decreases end - c,
{
    if c >= end {
        true
    } else {
        match box_advance(b, c) {
            None => false,
            Some(n) => if n == 0 {
                true
            } else {
                (kind_at(b, c) == kind_traf() ==> traf_walk_ok(b, c + header_len(b, c), c + n)) && (c + n >= end
                    || moof_walk_ok(b, c + n, end))
            },
        }
    }
}

/// The MP4 parser walks the boxes of a fragment header to their end: no box
/// it reads declares a size of 0.
pub open spec fn moof_walkable(atom: Seq<u8>) -> bool {
    moof_walk_ok(atom, 8, atom.len() as int)
}

fn box_advance_at(b: &[u8], c: u128) -> (r: Option<u128>)
    requires
        c <= 0x1_0000_0000_0000_0000_0000u128,
    ensures
        r matches Some(n) ==> n <= u64::MAX,
        match box_advance(b@, c as int) {
            None => r is None,
            Some(n) => r == Some(n as u128),
        },
{
    if c + 8 > b.len() as u128 {
        return Some(0);
    }
    let i = c as usize;
    let s = be_u32_at(b, i);
    if s == 0 {
        None
    } else if s == 1 {
        if c + 16 > b.len() as u128 {
            return Some(0);
        }
        let hi = be_u32_at(b, i + 8);
        let lo = be_u32_at(b, i + 12);
        assert(b@.subrange(i + 8, i + 12) =~= b@.subrange(i + 8, i + 16).subrange(0, 4));
        assert(b@.subrange(i + 12, i + 16) =~= b@.subrange(i + 8, i + 16).subrange(4, 8));
        let l: u128 = (hi as u128) * 4294967296 + (lo as u128);
        if l == 0 {
            None
        } else if l < 16 {
            Some(0)
        } else {
            Some(l)
        }
    } else {
        Some(s as u128)
    }
}

fn traf_walk(b: &[u8], start: u128, end: u128) -> (r: bool)
    requires
        end <= 0x10_0000_0000_0000_0000u128,
    ensures
        r == traf_walk_ok(b@, start as int, end as int),
{
    if start >= end {
        return true;
    }
    let mut c = start;
    while c < end
        invariant
            traf_walk_ok(b@, start as int, end as int) == traf_walk_ok(b@, c as int, end as int),
            end <= 0x10_0000_0000_0000_0000u128,
            c <= end + 0x1_0000_0000_0000_0000u128,
        decreases end - c,
    {
        match box_advance_at(b, c) {
            None => return false,
            Some(n) => {
                if n == 0 || c + n >= end {
                    return true;
                }
                c = c + n;
            },
        }
    }
    true
}

fn moof_walk(b: &[u8]) -> (r: bool)
    ensures
        r == moof_walkable(b@),
{
    let end = b.len() as u128;
    let mut c: u128 = 8;
    if c >= end {
        return true;
    }
    while c < end
        invariant
            moof_walkable(b@) == moof_walk_ok(b@, c as int, end as int),
            end == b@.len(),
            end <= usize::MAX,
            c <= end + 0x1_0000_0000_0000_0000u128,
        decreases end - c,
    {
        match box_advance_at(b, c) {
            None => return false,
            Some(n) => {
                if n == 0 {
                    return true;
                }
                let i = c as usize;
                assert(c + 8 <= end);
                assert(i as int == c as int);
                let is_traf = b[i + 4] == 0x74 && b[i + 5] == 0x72 && b[i + 6] == 0x61 && b[i + 7] == 0x66;
                proof {
                    if is_traf {
                        assert(kind_at(b@, c as int) =~= kind_traf());
                    } else {
                        assert(kind_at(b@, c as int) != kind_traf()) by {
                            if kind_at(b@, c as int) == kind_traf() {
                                assert(kind_at(b@, c as int)[0] == b@[i + 4]);
                                assert(kind_at(b@, c as int)[1] == b@[i + 5]);
                                assert(kind_at(b@, c as int)[2] == b@[i + 6]);
                                assert(kind_at(b@, c as int)[3] == b@[i + 7]);
                            }
                        }
                    }
                }
                if is_traf {
                    let size = be_u32_at(b, i);
                    let hl: u128 = if size == 1 { 16 } else { 8 };
                    if !traf_walk(b, c + hl, c + n) {
                        return false;
                    }
                }
                if c + n >= end {
                    return true;
                }
                c = c + n;
            },
        }
    }
    true
}

/// Relies on `mp4::MoofBox::read_box`: parses the fragment header whose 8-byte
/// box header starts `atom`. Its loops over child boxes move by each child's
/// declared size, so a child declaring size 0 is left out.
#[verifier::external_body]
fn parse_moof(atom: &[u8]) -> (r: Option<Vec<Traf>>)
    requires
        moof_walkable(atom@),
    ensures
        match r {
            Some(v) => moof_trafs(atom@) == Some(v@.map_values(|t: Traf| traf_view(t))),
            None => moof_trafs(atom@) is None,
        },
{
    let mut c = std::io::Cursor::new(atom);
    c.set_position(8);
    let moof = mp4::MoofBox::read_box(&mut c, atom.len() as u64).ok()?;
    Some(moof.trafs.into_iter().map(|t| Traf {
        track_id: t.tfhd.track_id,
        base_media_decode_time: t.tfdt.map(|d| d.base_media_decode_time),
        default_sample_flags: t.tfhd.default_sample_flags,
        trun: t.trun.map(|r| Trun { sample_count: r.sample_count, sample_flags: r.sample_flags, first_sample_flags: r.first_sample_flags }),
    }).collect())
}

/// Whether sample flags mark a sync sample: it depends on no other sample and is
/// not flagged as non-sync.
pub open spec fn is_sync(flags: u32) -> bool {
    (flags >> 24u32) & 3 == 2 && (flags >> 16u32) & 1 != 1
}

/// The flags of sample `i` of a run, with the fragment's default flags.
pub open spec fn flags_at(default: Option<u32>, run: (u32, Seq<u32>, Option<u32>), i: int) -> u32 {
    if i == 0 && run.2 is Some {
        run.2->Some_0
    } else if i < run.1.len() {
        run.1[i]
    } else {
        match default {
            Some(f) => f,
            None => 0,
        }
    }
}

/// Whether the fragments hold a sync sample before the first fragment without
/// a run.
pub open spec fn has_keyframe(trafs: Seq<TrafView>) -> bool
    decreases trafs.len(),
{
    if trafs.len() == 0 {
        false
    } else {
        match trafs[0].3 {
            None => false,
            Some(run) => (exists|i: int| 0 <= i < run.0 && is_sync(#[trigger] flags_at(trafs[0].2, run, i)))
                || has_keyframe(trafs.drop_first()),
        }
    }
}

pub open spec fn traf_views(trafs: Seq<Traf>) -> Seq<TrafView> {
    trafs.map_values(|t: Traf| traf_view(t))
}

fn sync_flags(flags: u32) -> (r: bool)
    ensures
        r == is_sync(flags),
{
    (flags >> 24u32) & 3 == 2 && (flags >> 16u32) & 1 != 1
}

/// Whether a fragment starts a new group: it holds a sync sample.
pub fn sample_keyframe(trafs: &Vec<Traf>) -> (r: bool)
    ensures
        r == has_keyframe(traf_views(trafs@)),
{
    let ghost v = traf_views(trafs@);
    let mut t: usize = 0;
    assert(v.subrange(0, v.len() as int) =~= v);
    while t < trafs.len()
        invariant
            t <= trafs@.len(),
            v == traf_views(trafs@),
            has_keyframe(v) == has_keyframe(v.subrange(t as int, v.len() as int)),
        decreases trafs.len() - t,
    {
        let ghost rest = v.subrange(t as int, v.len() as int);
        assert(rest.drop_first() =~= v.subrange(t + 1, v.len() as int));
        assert(rest[0] == traf_view(trafs@[t as int]));
        let traf = &trafs[t];
        let default_flags = match traf.default_sample_flags {
            Some(f) => f,
            None => 0,
        };
        let trun = match &traf.trun {
            Some(trun) => trun,
            None => return false,
        };
        let mut i: u32 = 0;
        while i < trun.sample_count
            invariant
                t < trafs@.len(),
                *traf == trafs@[t as int],
                traf.trun == Some(*trun),
                default_flags == match traf.default_sample_flags {
                    Some(f) => f,
                    None => 0u32,
                },
                v == traf_views(trafs@),
                has_keyframe(v) == has_keyframe(v.subrange(t as int, v.len() as int)),
                v.subrange(t as int, v.len() as int)[0] == traf_view(*traf),
                forall|j: int| 0 <= j < i ==> !is_sync(
                    #[trigger] flags_at(traf.default_sample_flags, (trun.sample_count, trun.sample_flags@, trun.first_sample_flags), j),
                ),
            decreases trun.sample_count - i,
        {
            let mut flags = if (i as usize) < trun.sample_flags.len() {
                trun.sample_flags[i as usize]
            } else {
                default_flags
            };
            if i == 0 {
                if let Some(f) = trun.first_sample_flags {
                    flags = f;
                }
            }
            assert(flags == flags_at(traf.default_sample_flags, (trun.sample_count, trun.sample_flags@, trun.first_sample_flags), i as int));
            if sync_flags(flags) {
                proof {
                    let rv = v.subrange(t as int, v.len() as int);
                    assert(rv[0].3 == Some((trun.sample_count, trun.sample_flags@, trun.first_sample_flags)));
                    assert(is_sync(flags_at(rv[0].2, rv[0].3->Some_0, i as int)));
                }
                return true;
            }
            i = i + 1;
        }
        t = t + 1;
    }
    assert(v.subrange(t as int, v.len() as int) =~= Seq::<TrafView>::empty());
    false
}

/// Converts a timestamp in `timescale` units per second to milliseconds.
pub fn timestamp_ms(timestamp: u64, timescale: u64) -> (r: u64)
    requires
        timescale > 0,
        timestamp <= u64::MAX / 1000,
    ensures
        r as int == (1000 * timestamp as int) / (timescale as int),
{
    1000 * timestamp / timescale
}

/// The send order of a group with the given timestamp: newer groups go first.
pub fn send_order(timestamp_ms: u64) -> (r: Result<u64, MediaError>)
    ensures
        timestamp_ms <= MAX_VARINT ==> r == Ok::<u64, MediaError>((MAX_VARINT - timestamp_ms) as u64),
        timestamp_ms > MAX_VARINT ==> r == Err::<u64, MediaError>(MediaError::TimestampTooLarge),
{
    if timestamp_ms > MAX_VARINT {
        Err(MediaError::TimestampTooLarge)
    } else {
        Ok(MAX_VARINT - timestamp_ms)
    }
}

/// The atom at `pos` of `data` and the position after it.
pub open spec fn atom_at(data: Seq<u8>, pos: nat) -> Result<(Seq<u8>, nat), MediaError> {
    match atom_len_spec(data.subrange(pos as int, data.len() as int)) {
        Err(e) => Err(e),
        Ok(declared) => Ok(
            (atom_bytes(data, pos, atom_end(data.len(), pos, declared)), atom_end(data.len(), pos, declared)),
        ),
    }
}

/// The four-character type of an atom.
pub open spec fn atom_kind(atom: Seq<u8>) -> Seq<u8> {
    atom.subrange(4, 8)
}

pub open spec fn kind_ftyp() -> Seq<u8> {
    seq![0x66u8, 0x74, 0x79, 0x70]
}

pub open spec fn kind_moov() -> Seq<u8> {
    seq![0x6du8, 0x6f, 0x6f, 0x76]
}

pub open spec fn kind_moof() -> Seq<u8> {
    seq![0x6du8, 0x6f, 0x6f, 0x66]
}

pub open spec fn kind_mdat() -> Seq<u8> {
    seq![0x6du8, 0x64, 0x61, 0x74]
}

fn kind_is(atom: &Vec<u8>, k: [u8; 4]) -> (r: bool)
    requires
        atom@.len() >= 8,
    ensures
        r == (atom_kind(atom@) == k@),
{
    let r = atom[4] == k[0] && atom[5] == k[1] && atom[6] == k[2] && atom[7] == k[3];
    if r {
        assert(atom_kind(atom@) =~= k@);
    } else {
        assert(atom_kind(atom@)[0] != k@[0] || atom_kind(atom@)[1] != k@[1] || atom_kind(atom@)[2] != k@[2] || atom_kind(atom@)[3] != k@[3]);
    }
    r
}

/// Reading a fragment header holding exactly one track fragment.
pub open spec fn moof_fragment(tv: Seq<TrafView>) -> Result<SourceFragment, MediaError> {
    if tv.len() != 1 {
        Err(MediaError::MultipleTracks)
    } else if tv[0].1 is None {
        Err(MediaError::MissingTimestamp)
    } else {
        Ok(SourceFragment { track: tv[0].0, timestamp: tv[0].1->Some_0, keyframe: has_keyframe(tv) })
    }
}

/// What a fragment header (`moof`) says: its track, the decode time of its
/// first sample in track units, and whether it starts with a sync sample.
#[derive(Debug, Clone, Copy, PartialEq, Eq, Structural)]
pub struct SourceFragment {
    pub track: u32,
    pub timestamp: u64,
    pub keyframe: bool,
}

impl SourceFragment {
    /// Reads a fragment header holding exactly one track fragment.
    pub fn new(trafs: &Vec<Traf>) -> (r: Result<SourceFragment, MediaError>)
        ensures
            r == moof_fragment(traf_views(trafs@)),
    {
        if trafs.len() != 1 {
            return Err(MediaError::MultipleTracks);
        }
        let timestamp = match trafs[0].base_media_decode_time {
            Some(t) => t,
            None => return Err(MediaError::MissingTimestamp),
        };
        Ok(SourceFragment { track: trafs[0].track_id, timestamp, keyframe: sample_keyframe(trafs) })
    }

    /// The fragment's time in milliseconds.
    pub fn timestamp(&self, timescale: u64) -> (r: u64)
        requires
            timescale > 0,
            self.timestamp <= u64::MAX / 1000,
        ensures
            r as int == (1000 * self.timestamp as int) / (timescale as int),
    {
        timestamp_ms(self.timestamp, timescale)
    }
}

/// What publishing fragment header `raw` at `now` does to the track `before`,
/// giving `after` and `r`.
pub open spec fn header_post(before: Track, after: Track, raw: Seq<u8>, fragment: SourceFragment, now: u64, r: Result<(), MediaError>) -> bool {
    &&& after.timescale() == before.timescale()
    &&& before.segment() is Some && !fragment.keyframe ==> {
                &&& r == Ok::<(), MediaError>(())
                &&& after.publisher() == before.publisher()
                &&& after.sequence() == before.sequence()
                &&& after.segment() matches Some(g) && g.info() == before.segment()->Some_0.info()
                    && g.frames() == before.segment()->Some_0.frames().push(raw)
            }
    &&& (before.segment() is None || fragment.keyframe) ==> {
                let ts = (1000 * fragment.timestamp as int) / (before.timescale() as int);
                let info = GroupInfo {
                    sequence: before.sequence(),
                    priority: (MAX_VARINT - ts) as u64,
                    expires: Some(SEGMENT_TTL_MS),
                };
                let st = before.publisher().state();
                if ts > MAX_VARINT {
                    r == Err::<(), MediaError>(MediaError::TimestampTooLarge) && after == before
                } else if before.sequence() > MAX_VARINT {
                    r == Err::<(), MediaError>(MediaError::SequenceTooLarge) && after == before
                } else if st.pruned() + st.entries().len() >= usize::MAX {
                    r == Err::<(), MediaError>(MediaError::Serve(ServeError::Done)) && after == before
                } else {
                    &&& insert_post(
                        st,
                        after.publisher().state(),
                        info,
                        now,
                        match r {
                            Ok(()) => Ok(()),
                            Err(MediaError::Serve(e)) => Err(e),
                            Err(_) => Err(ServeError::Done),
                        },
                    )
                    &&& (r is Err ==> r matches Err(MediaError::Serve(_)))
                    &&& r is Ok ==> after.sequence() == before.sequence() + 1 && (after.segment() matches Some(g)
                        && g.info() == info && g.frames() == seq![raw])
                }
            }
}

/// What publishing media data `raw` does to the track `before`, giving `after`
/// and `r`.
pub open spec fn data_post(before: Track, after: Track, raw: Seq<u8>, r: Result<(), MediaError>) -> bool {
    &&& after.publisher() == before.publisher()
    &&& after.sequence() == before.sequence()
    &&& after.timescale() == before.timescale()
    &&& before.segment() is None ==> r == Err::<(), MediaError>(MediaError::MissingSegment) && after.segment() is None
    &&& before.segment() is Some ==> r == Ok::<(), MediaError>(()) && (after.segment() matches Some(g) && g.info()
        == before.segment()->Some_0.info() && g.frames() == before.segment()->Some_0.frames().push(raw))
}

/// How long a group produced from a file stays in the cache, in milliseconds.
pub const SEGMENT_TTL_MS: u64 = 10000;

/// A track of a fragmented MP4 file being turned into groups: each sync
/// fragment starts a new group, and the atoms that follow join it.
pub struct Track {
    track: Publisher,
    segment: Option<GroupWriter>,
    timescale: u64,
    sequence: u64,
}

impl Track {
    pub closed spec fn publisher(&self) -> Publisher {
        self.track
    }

    pub closed spec fn segment(&self) -> Option<GroupWriter> {
        self.segment
    }

    pub closed spec fn timescale(&self) -> u64 {
        self.timescale
    }

    pub closed spec fn sequence(&self) -> u64 {
        self.sequence
    }

    pub closed spec fn wf(&self) -> bool {
        &&& self.track.state().wf()
        &&& self.timescale > 0
        &&& self.segment matches Some(g) ==> g.done() is None
    }

    pub fn new(track: Publisher, timescale: u64) -> (r: Track)
        requires
            track.state().wf(),
            timescale > 0,
        ensures
            r.wf(),
            r.publisher() == track,
            r.segment() is None,
            r.timescale() == timescale,
            r.sequence() == 0,
    {
        Track { track, segment: None, timescale, sequence: 0 }
    }

    /// The number of groups opened so far.
    pub fn groups_created(&self) -> (r: u64)
        ensures
            r == self.sequence(),
    {
        self.sequence
    }

    /// Publishes a fragment header atom: it joins the current group unless it
    /// starts with a sync sample, in which case it opens a new group whose send
    /// order falls as time goes on.
    pub fn header(&mut self, raw: Vec<u8>, fragment: SourceFragment, now: u64) -> (r: Result<(), MediaError>)
        requires
            old(self).wf(),
            fragment.timestamp <= u64::MAX / 1000,
        ensures
            final(self).wf(),
            header_post(*old(self), *final(self), raw@, fragment, now, r),
    {
        if let Some(segment) = self.segment.as_mut() {
            if !fragment.keyframe {
                let _ = segment.write_frame(raw);
                return Ok(());
            }
        }
        let ts = fragment.timestamp(self.timescale);
        let priority = match send_order(ts) {
            Ok(p) => p,
            Err(e) => return Err(e),
        };
        if self.sequence > MAX_VARINT {
            return Err(MediaError::SequenceTooLarge);
        }
        if self.track.track_state().positions() == usize::MAX {
            return Err(MediaError::Serve(ServeError::Done));
        }
        let info = GroupInfo { sequence: self.sequence, priority, expires: Some(SEGMENT_TTL_MS) };
        let mut segment = match self.track.create_segment(info, now) {
            Ok(w) => w,
            Err(e) => return Err(MediaError::Serve(e)),
        };
        let _ = segment.write_frame(raw);
        self.sequence = self.sequence + 1;
        self.segment = Some(segment);
        Ok(())
    }

    /// Publishes a media data atom into the current group.
    pub fn data(&mut self, raw: Vec<u8>) -> (r: Result<(), MediaError>)
        requires
            old(self).wf(),
        ensures
            final(self).wf(),
            data_post(*old(self), *final(self), raw@, r),
    {
        match self.segment.as_mut() {
            None => Err(MediaError::MissingSegment),
            Some(segment) => {
                let _ = segment.write_frame(raw);
                Ok(())
            },
        }
    }
}

/// A track of the file: its id and the groups produced from it.
pub struct FileTrack {
    pub id: u32,
    pub track: Track,
}

/// One atom of the file, read and classified.
pub enum Atom {
    /// A fragment header, with what it says and when it is due, in milliseconds
    /// from the start of the broadcast.
    Moof { raw: Vec<u8>, fragment: SourceFragment, due_ms: u64 },
    /// Media data for the fragment header before it.
    Mdat { raw: Vec<u8> },
    /// Any other atom, skipped.
    Other,
}

/// A fragmented MP4 file published as a broadcast: the initialisation data
/// (`ftyp` and `moov`), one track per track of the file, and the track of the
/// fragment header awaiting its media data.
pub struct File {
    init: Vec<u8>,
    tracks: Vec<FileTrack>,
    moof: Option<u32>,
}

/// The tracks of the file, as (id, timescale) pairs, once the header passed
/// its checks.
pub open spec fn file_header(data: Seq<u8>, ts: Seq<(u32, u32)>) -> Result<(Seq<u8>, Seq<(u32, u32)>, nat), MediaError> {
    match atom_at(data, 0) {
        Err(e) => Err(e),
        Ok((ftyp, p1)) => if atom_kind(ftyp) != kind_ftyp() {
            Err(MediaError::ExpectedFtyp)
        } else {
            match atom_at(data, p1) {
                Err(e) => Err(e),
                Ok((moov, p2)) => if atom_kind(moov) != kind_moov() {
                    Err(MediaError::ExpectedMoov)
                } else if exists|i: int| 0 <= i < ts.len() && (#[trigger] ts[i]).0 == 0xff {
                    Err(MediaError::ReservedTrack)
                } else if exists|i: int| 0 <= i < ts.len() && (#[trigger] ts[i]).1 == 0 {
                    Err(MediaError::ZeroTimescale)
                } else {
                    Ok((ftyp + moov, ts, p2))
                },
            }
        },
    }
}

impl File {
    pub closed spec fn init(&self) -> Seq<u8> {
        self.init@
    }

    /// The ids of the file's tracks and their timescales.
    pub closed spec fn track_ids(&self) -> Seq<(u32, u64)> {
        self.tracks@.map_values(|t: FileTrack| (t.id, t.track.timescale()))
    }

    pub closed spec fn tracks(&self) -> Seq<FileTrack> {
        self.tracks@
    }

    pub closed spec fn moof(&self) -> Option<u32> {
        self.moof
    }

    pub closed spec fn wf(&self) -> bool {
        forall|i: int| 0 <= i < self.tracks@.len() ==> (#[trigger] self.tracks@[i]).track.wf()
    }

    /// Reads the `ftyp` and `moov` atoms at the start of `data` and creates one
    /// track per track they declare. Returns the position after them.
    ///
    /// `tracks` holds the (track id, timescale) of each track of the `moov`
    /// atom, as an MP4 parser reads them.
    pub fn new(data: &[u8], tracks: &Vec<(u32, u32)>) -> (r: Result<(File, usize), MediaError>)
        ensures
            match file_header(data@, tracks@) {
                Err(e) => r == Err::<(File, usize), MediaError>(e),
                Ok((init, ts, end)) => r matches Ok((f, p)) && f.wf() && f.init() == init && p == end && f.moof() is None
                    && f.track_ids() == ts.map_values(|t: (u32, u32)| (t.0, t.1 as u64)),
            },
    {
        let (ftyp, p1) = read_atom(data, 0)?;
        assert(data@.subrange(0, data@.len() as int) =~= data@);
        if !kind_is(&ftyp, [0x66, 0x74, 0x79, 0x70]) {
            return Err(MediaError::ExpectedFtyp);
        }
        let (moov, p2) = read_atom(data, p1)?;
        if !kind_is(&moov, [0x6d, 0x6f, 0x6f, 0x76]) {
            return Err(MediaError::ExpectedMoov);
        }
        let ts = tracks;
        let ghost tsv = ts@;
        let ghost expected = if exists|i: int| 0 <= i < tsv.len() && (#[trigger] tsv[i]).0 == 0xff {
            Err(MediaError::ReservedTrack)
        } else if exists|i: int| 0 <= i < tsv.len() && (#[trigger] tsv[i]).1 == 0 {
            Err(MediaError::ZeroTimescale)
        } else {
            Ok((ftyp@ + moov@, tsv, p2 as nat))
        };
        assert(file_header(data@, tracks@) == expected);
        let mut i: usize = 0;
        while i < ts.len()
            invariant
                i <= ts@.len(),
                ts@ == tsv,
                (exists|j: int| 0 <= j < tsv.len() && (#[trigger] tsv[j]).0 == 0xff) ==> file_header(data@, tracks@)
                    == Err::<(Seq<u8>, Seq<(u32, u32)>, nat), MediaError>(MediaError::ReservedTrack),
                forall|j: int| 0 <= j < i ==> (#[trigger] ts@[j]).0 != 0xff,
            decreases ts.len() - i,
        {
            if ts[i].0 == 0xff {
                assert(tsv[i as int].0 == 0xff);
                return Err(MediaError::ReservedTrack);
            }
            i = i + 1;
        }
        let mut i: usize = 0;
        while i < ts.len()
            invariant
                i <= ts@.len(),
                ts@ == tsv,
                (exists|j: int| 0 <= j < tsv.len() && (#[trigger] tsv[j]).1 == 0) ==> file_header(data@, tracks@)
                    == Err::<(Seq<u8>, Seq<(u32, u32)>, nat), MediaError>(MediaError::ZeroTimescale),
                forall|j: int| 0 <= j < ts@.len() ==> (#[trigger] ts@[j]).0 != 0xff,
                forall|j: int| 0 <= j < i ==> (#[trigger] ts@[j]).1 != 0,
            decreases ts.len() - i,
        {
            if ts[i].1 == 0 {
                assert(tsv[i as int].1 == 0);
                return Err(MediaError::ZeroTimescale);
            }
            i = i + 1;
        }
        let mut tracks: Vec<FileTrack> = Vec::new();
        let mut i: usize = 0;
        while i < ts.len()
            invariant
                i <= ts@.len(),
                forall|j: int| 0 <= j < ts@.len() ==> (#[trigger] ts@[j]).1 != 0,
                tracks@.len() == i,
                forall|j: int| 0 <= j < i ==> (#[trigger] tracks@[j]).track.wf() && tracks@[j].id == ts@[j].0
                    && tracks@[j].track.timescale() == ts@[j].1 as u64,
            decreases ts.len() - i,
        {
            let (id, timescale) = ts[i];
            let (publisher, _) = crate::track::new("");
            tracks.push(FileTrack { id, track: Track::new(publisher, timescale as u64) });
            i = i + 1;
        }
        let mut init = ftyp;
        let mut k: usize = 0;
        let ghost f = init@;
        while k < moov.len()
            invariant
                k <= moov@.len(),
                init@ == f + moov@.subrange(0, k as int),
            decreases moov.len() - k,
        {
            init.push(moov[k]);
            assert(init@ =~= f + moov@.subrange(0, k + 1));
            k = k + 1;
        }
        assert(moov@.subrange(0, moov@.len() as int) =~= moov@);
        let file = File { init, tracks, moof: None };
        assert(file.track_ids() =~= ts@.map_values(|t: (u32, u32)| (t.0, t.1 as u64)));
        Ok((file, p2))
    }

    /// The initialisation data (`ftyp` then `moov`), which a player needs
    /// before any group.
    pub fn init_bytes(&self) -> (r: &Vec<u8>)
        ensures
            r@ == self.init(),
    {
        &self.init
    }

    /// Position of the first track with `id`.
    fn find(&self, id: u32) -> (r: Option<usize>)
        ensures
            match r {
                Some(i) => is_first_track(self.track_ids(), id, i as int),
                None => !has_track(self.track_ids(), id),
            },
    {
        let mut i: usize = 0;
        while i < self.tracks.len()
            invariant
                i <= self.tracks@.len(),
                forall|j: int| 0 <= j < i ==> (#[trigger] self.track_ids()[j]).0 != id,
            decreases self.tracks.len() - i,
        {
            assert(self.track_ids()[i as int].0 == self.tracks@[i as int].id);
            if self.tracks[i].id == id {
                return Some(i);
            }
            i = i + 1;
        }
        None
    }

    /// Reads the atom at `pos`: a fragment header is parsed and checked against
    /// the file's tracks, and comes with the time it is due at.
    pub fn read(&self, data: &[u8], pos: usize) -> (r: Result<(Atom, usize), MediaError>)
        requires
            self.wf(),
            pos <= data@.len(),
        ensures
            match atom_at(data@, pos as nat) {
                Err(e) => r == Err::<(Atom, usize), MediaError>(e),
                Ok((a, end)) => if atom_kind(a) == kind_moof() {
                    if !moof_walkable(a) {
                        r == Err::<(Atom, usize), MediaError>(MediaError::Mp4)
                    } else {
                    match moof_trafs(a) {
                        None => r == Err::<(Atom, usize), MediaError>(MediaError::Mp4),
                        Some(tv) => match moof_fragment(tv) {
                            Err(e) => r == Err::<(Atom, usize), MediaError>(e),
                            Ok(f) => if !has_track(self.track_ids(), f.track) {
                                r == Err::<(Atom, usize), MediaError>(MediaError::UnknownTrack)
                            } else if f.timestamp > u64::MAX / 1000 {
                                r == Err::<(Atom, usize), MediaError>(MediaError::TimestampTooLarge)
                            } else {
                                r matches Ok((Atom::Moof { raw, fragment, due_ms }, p)) && raw@ == a && fragment == f && p == end
                                    && due_ms as int == (1000 * f.timestamp as int) / (timescale_of(self.track_ids(), f.track) as int)
                            },
                        },
                    }
                    }
                } else if atom_kind(a) == kind_mdat() {
                    r matches Ok((Atom::Mdat { raw }, p)) && raw@ == a && p == end
                } else {
                    r matches Ok((Atom::Other, p)) && p == end
                },
            },
    {
        let (atom, end) = read_atom(data, pos)?;
        if kind_is(&atom, [0x6d, 0x6f, 0x6f, 0x66]) {
            if !moof_walk(atom.as_slice()) {
                return Err(MediaError::Mp4);
            }
            let trafs = match parse_moof(atom.as_slice()) {
                Some(t) => t,
                None => return Err(MediaError::Mp4),
            };
            let fragment = SourceFragment::new(&trafs)?;
            let i = match self.find(fragment.track) {
                Some(i) => i,
                None => return Err(MediaError::UnknownTrack),
            };
            if fragment.timestamp > u64::MAX / 1000 {
                return Err(MediaError::TimestampTooLarge);
            }
            proof {
                lemma_first_track_unique(self.track_ids(), fragment.track, i as int);
                assert(self.tracks@[i as int].track.wf());
            }
            let due_ms = fragment.timestamp(self.tracks[i].track.timescale);
            Ok((Atom::Moof { raw: atom, fragment, due_ms }, end))
        } else if kind_is(&atom, [0x6d, 0x64, 0x61, 0x74]) {
            Ok((Atom::Mdat { raw: atom }, end))
        } else {
            Ok((Atom::Other, end))
        }
    }
}

impl File {
    /// Tracks other than the one at `i` are the same in `a` and `b`.
    pub open spec fn others_same(a: Seq<FileTrack>, b: Seq<FileTrack>, i: int) -> bool {
        a.len() == b.len() && forall|j: int| 0 <= j < a.len() && j != i ==> #[trigger] b[j] == a[j]
    }

    /// Publishes an atom read by [`File::read`]: a fragment header goes to its
    /// track and waits for its media data; media data goes to the track of the
    /// fragment header before it.
    pub fn publish(&mut self, atom: Atom, now: u64) -> (r: Result<(), MediaError>)
        requires
            old(self).wf(),
            atom matches Atom::Moof { fragment, .. } ==> fragment.timestamp <= u64::MAX / 1000,
        ensures
            final(self).wf(),
            final(self).init() == old(self).init(),
            final(self).track_ids() == old(self).track_ids(),
            match atom {
                Atom::Moof { raw, fragment, .. } => if !has_track(old(self).track_ids(), fragment.track) {
                    r == Err::<(), MediaError>(MediaError::UnknownTrack) && final(self).tracks() == old(self).tracks()
                        && final(self).moof() == old(self).moof()
                } else if old(self).moof() is Some {
                    r == Err::<(), MediaError>(MediaError::MultipleMoof) && final(self).tracks() == old(self).tracks()
                        && final(self).moof() == old(self).moof()
                } else {
                    let i = first_track(old(self).track_ids(), fragment.track);
                    &&& final(self).moof() == Some(fragment.track)
                    &&& File::others_same(old(self).tracks(), final(self).tracks(), i)
                    &&& final(self).tracks()[i].id == old(self).tracks()[i].id
                    &&& header_post(old(self).tracks()[i].track, final(self).tracks()[i].track, raw@, fragment, now, r)
                },
                Atom::Mdat { raw } => match old(self).moof() {
                    None => r == Err::<(), MediaError>(MediaError::MissingMoof) && final(self).tracks() == old(self).tracks()
                        && final(self).moof() is None,
                    Some(id) => if !has_track(old(self).track_ids(), id) {
                        r == Err::<(), MediaError>(MediaError::UnknownTrack) && final(self).tracks() == old(self).tracks()
                            && final(self).moof() is None
                    } else {
                        let i = first_track(old(self).track_ids(), id);
                        &&& final(self).moof() is None
                        &&& File::others_same(old(self).tracks(), final(self).tracks(), i)
                        &&& final(self).tracks()[i].id == old(self).tracks()[i].id
                        &&& data_post(old(self).tracks()[i].track, final(self).tracks()[i].track, raw@, r)
                    },
                },
                Atom::Other => r == Ok::<(), MediaError>(()) && final(self).tracks() == old(self).tracks() && final(self).moof()
                    == old(self).moof(),
            },
    {
        match atom {
            Atom::Moof { raw, fragment, .. } => {
                let i = match self.find(fragment.track) {
                    Some(i) => i,
                    None => return Err(MediaError::UnknownTrack),
                };
                if self.moof.is_some() {
                    return Err(MediaError::MultipleMoof);
                }
                proof {
                    lemma_first_track_unique(self.track_ids(), fragment.track, i as int);
                }
                self.moof = Some(fragment.track);
                let ghost before = self.tracks@;
                let mut ft = self.tracks.remove(i);
                assert(ft.track.wf());
                let res = ft.track.header(raw, fragment, now);
                self.tracks.insert(i, ft);
                proof {
                    assert(File::others_same(before, self.tracks@, i as int));
                    assert(self.track_ids() =~= old(self).track_ids()) by {
                        assert forall|j: int| 0 <= j < before.len() implies self.track_ids()[j] == old(self).track_ids()[j] by {
                            if j != i {
                                assert(self.tracks@[j] == before[j]);
                            }
                        }
                    }
                }
                res
            },
            Atom::Mdat { raw } => {
                let id = match self.moof.take() {
                    Some(id) => id,
                    None => return Err(MediaError::MissingMoof),
                };
                let i = match self.find(id) {
                    Some(i) => i,
                    None => return Err(MediaError::UnknownTrack),
                };
                proof {
                    lemma_first_track_unique(self.track_ids(), id, i as int);
                }
                let ghost before = self.tracks@;
                let mut ft = self.tracks.remove(i);
                assert(ft.track.wf());
                let res = ft.track.data(raw);
                self.tracks.insert(i, ft);
                proof {
                    assert(File::others_same(before, self.tracks@, i as int));
                    assert(self.track_ids() =~= old(self).track_ids()) by {
                        assert forall|j: int| 0 <= j < before.len() implies self.track_ids()[j] == old(self).track_ids()[j] by {
                            if j != i {
                                assert(self.tracks@[j] == before[j]);
                            }
                        }
                    }
                }
                res
            },
            Atom::Other => Ok(()),
        }
    }
}

/// Whether some track has the id.
pub open spec fn has_track(ts: Seq<(u32, u64)>, id: u32) -> bool {
    exists|i: int| 0 <= i < ts.len() && (#[trigger] ts[i]).0 == id
}

/// `i` is the first position of a track with the id.
pub open spec fn is_first_track(ts: Seq<(u32, u64)>, id: u32, i: int) -> bool {
    0 <= i < ts.len() && ts[i].0 == id && forall|j: int| 0 <= j < i ==> (#[trigger] ts[j]).0 != id
}

/// The first position of a track with the id.
pub open spec fn first_track(ts: Seq<(u32, u64)>, id: u32) -> int {
    choose|i: int| is_first_track(ts, id, i)
}

/// The timescale of the first track with the id.
pub open spec fn timescale_of(ts: Seq<(u32, u64)>, id: u32) -> u64 {
    ts[first_track(ts, id)].1
}

proof fn lemma_first_track_unique(ts: Seq<(u32, u64)>, id: u32, i: int)
    requires
        is_first_track(ts, id, i),
    ensures
        first_track(ts, id) == i,
{
    let k = first_track(ts, id);
    if k < i {
        assert(ts[k].0 != id);
    } else if k > i {
        assert(ts[i].0 != id);
    }
}

/// A video track being produced frame by frame: each frame carries its
/// presentation time in microseconds, as a varint, ahead of its payload; a
/// keyframe starts a new group.
pub struct Video {
    inner: Publisher,
    group: Option<GroupWriter>,
    sequence: u64,
}

/// The bytes of a video frame: its timestamp, then its payload.
pub open spec fn video_frame(timestamp_us: u64, payload: Seq<u8>) -> Seq<u8> {
    varint_encoding(timestamp_us) + payload
}

impl Video {
    pub closed spec fn publisher(&self) -> Publisher {
        self.inner
    }

    pub closed spec fn group(&self) -> Option<GroupWriter> {
        self.group
    }

    pub closed spec fn sequence(&self) -> u64 {
        self.sequence
    }

    pub closed spec fn wf(&self) -> bool {
        &&& self.inner.state().wf()
        &&& self.group matches Some(g) ==> g.done() is None
    }

    pub fn new(inner: Publisher) -> (r: Video)
        requires
            inner.state().wf(),
        ensures
            r.wf(),
            r.publisher() == inner,
            r.group() is None,
            r.sequence() == 0,
    {
        Video { inner, group: None, sequence: 0 }
    }

    /// Ends the current group, if any, so that the next frame starts a new one;
    /// returns the completed group.
    pub fn keyframe(&mut self) -> (r: Option<GroupWriter>)
        requires
            old(self).wf(),
        ensures
            final(self).wf(),
            final(self).publisher() == old(self).publisher(),
            final(self).sequence() == old(self).sequence(),
            final(self).group() is None,
            old(self).group() is None ==> r is None,
            old(self).group() is Some ==> (r matches Some(g) && g.info() == old(self).group()->Some_0.info()
                && g.frames() == old(self).group()->Some_0.frames() && g.done() == Some(ServeError::Closed)),
    {
        match self.group.take() {
            None => None,
            Some(mut g) => {
                let _ = g.close(ServeError::Closed);
                Some(g)
            },
        }
    }

    /// Writes a frame with its timestamp, into the current group or, when there
    /// is none, into a new group appended to the track.
    pub fn write(&mut self, timestamp_us: u64, payload: &[u8], now: u64) -> (r: Result<(), ServeError>)
        requires
            old(self).wf(),
            timestamp_us <= MAX_VARINT,
        ensures
            final(self).wf(),
            old(self).group() is Some ==> {
                &&& r == Ok::<(), ServeError>(())
                &&& final(self).publisher() == old(self).publisher()
                &&& final(self).sequence() == old(self).sequence()
                &&& final(self).group() matches Some(g) && g.info() == old(self).group()->Some_0.info()
                    && g.frames() == old(self).group()->Some_0.frames().push(video_frame(timestamp_us, payload@))
            },
            old(self).group() is None ==> {
                let st = old(self).publisher().state();
                let info = GroupInfo { sequence: old(self).sequence(), priority: 0, expires: None };
                if st.pruned() + st.entries().len() >= usize::MAX {
                    r == Err::<(), ServeError>(ServeError::Done) && *final(self) == *old(self)
                } else {
                    &&& insert_post(st, final(self).publisher().state(), info, now, r)
                    &&& r is Ok ==> (final(self).group() matches Some(g) && g.info() == info && g.frames() == seq![
                        video_frame(timestamp_us, payload@),
                    ])
                }
            },
    {
        let mut frame: Vec<u8> = Vec::new();
        encode_varint(timestamp_us, &mut frame);
        let mut i: usize = 0;
        while i < payload.len()
            invariant
                i <= payload@.len(),
                frame@ == varint_encoding(timestamp_us) + payload@.subrange(0, i as int),
            decreases payload.len() - i,
        {
            frame.push(payload[i]);
            assert(frame@ =~= varint_encoding(timestamp_us) + payload@.subrange(0, i + 1));
            i = i + 1;
        }
        assert(payload@.subrange(0, payload@.len() as int) =~= payload@);
        if let Some(group) = self.group.as_mut() {
            let _ = group.write_frame(frame);
            return Ok(());
        }
        if self.inner.track_state().positions() == usize::MAX {
            return Err(ServeError::Done);
        }
        let info = GroupInfo { sequence: self.sequence, priority: 0, expires: None };
        let mut group = self.inner.create_segment(info, now)?;
        let _ = group.write_frame(frame);
        self.sequence = self.sequence.saturating_add(1);
        self.group = Some(group);
        Ok(())
    }
}

} // verus!
