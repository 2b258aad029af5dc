use vstd::prelude::*;

use crate::error::ServeError;
use crate::track::GroupInfo;

verus! {

/// The frames of one group, written in order by its single producer.
pub struct GroupWriter {
    info: GroupInfo,
    frames: Vec<Vec<u8>>,
    done: Option<ServeError>,
}

/// What reading the next frame of a group gives.
#[derive(Debug, PartialEq, Eq)]
pub enum FrameNext {
    Frame(Vec<u8>),
    /// The group is complete and every frame was read.
    End,
    /// The group ended with an error after every written frame was read.
    Failed(ServeError),
    /// No new frame yet.
    Pending,
}

pub open spec fn frames_view(v: Seq<Vec<u8>>) -> Seq<Seq<u8>> {
    v.map_values(|f: Vec<u8>| f@)
}

impl GroupWriter {
    pub closed spec fn info(&self) -> GroupInfo {
        self.info
    }

    /// The frames written so far.
    pub closed spec fn frames(&self) -> Seq<Seq<u8>> {
        frames_view(self.frames@)
    }

    /// `None` while open; `Closed` once complete; another error once dropped.
    pub closed spec fn done(&self) -> Option<ServeError> {
        self.done
    }

    pub fn new(info: GroupInfo) -> (r: GroupWriter)
        ensures
            r.info() == info,
            r.frames() == Seq::<Seq<u8>>::empty(),
            r.done() is None,
    {
        GroupWriter { info, frames: Vec::new(), done: None }
    }

    pub fn sequence(&self) -> (r: u64)
        ensures
            r == self.info().sequence,
    {
        self.info.sequence
    }

    pub fn frame_count(&self) -> (r: usize)
        ensures
            r == self.frames().len(),
    {
        self.frames.len()
    }

    /// The frame at position `i`.
    pub fn frame(&self, i: usize) -> (r: &Vec<u8>)
        requires
            i < self.frames().len(),
        ensures
            r@ == self.frames()[i as int],
    {
        &self.frames[i]
    }

    /// Appends a frame; refused with `Done` once the group has ended.
    pub fn write_frame(&mut self, frame: Vec<u8>) -> (r: Result<(), ServeError>)
        ensures
            final(self).info() == old(self).info(),
            final(self).done() == old(self).done(),
            old(self).done() is Some ==> r == Err::<(), ServeError>(ServeError::Done) && final(self).frames() == old(self).frames(),
            old(self).done() is None ==> r == Ok::<(), ServeError>(()) && final(self).frames() == old(self).frames().push(frame@),
    {
        if self.done.is_some() {
            return Err(ServeError::Done);
        }
        let ghost before = self.frames@;
        self.frames.push(frame);
        assert(frames_view(self.frames@) =~= frames_view(before).push(self.frames@.last()@));
        Ok(())
    }

    /// Ends the group: complete with `Closed`, dropped with another error. The
    /// first end stays.
    pub fn close(&mut self, err: ServeError) -> (r: Result<(), ServeError>)
        ensures
            final(self).info() == old(self).info(),
            final(self).frames() == old(self).frames(),
            old(self).done() is Some ==> r == Err::<(), ServeError>(ServeError::Done) && final(self).done() == old(self).done(),
            old(self).done() is None ==> r == Ok::<(), ServeError>(()) && final(self).done() == Some(err),
    {
        if self.done.is_some() {
            return Err(ServeError::Done);
        }
        self.done = Some(err);
        Ok(())
    }
}

/// A consumer's position in a group, with the frames it has read.
pub struct GroupReader {
    index: usize,
    seen: Ghost<Seq<Seq<u8>>>,
}

impl GroupReader {
    pub closed spec fn index(&self) -> nat {
        self.index as nat
    }

    /// The frames handed out so far, in order.
    pub closed spec fn seen(&self) -> Seq<Seq<u8>> {
        self.seen@
    }

    pub closed spec fn wf(&self) -> bool {
        self.seen@.len() == self.index
    }

    pub fn new() -> (r: GroupReader)
        ensures
            r.wf(),
            r.index() == 0,
            r.seen() == Seq::<Seq<u8>>::empty(),
    {
        GroupReader { index: 0, seen: Ghost(Seq::empty()) }
    }

    /// The next unread frame of `group`, or how the group ended once every
    /// frame was read.
    pub fn next_frame(&mut self, group: &GroupWriter) -> (r: FrameNext)
        requires
            old(self).wf(),
            old(self).index() <= group.frames().len(),
        ensures
            final(self).wf(),
            final(self).index() <= group.frames().len(),
            old(self).seen().is_prefix_of(group.frames()) ==> final(self).seen().is_prefix_of(group.frames()),
            old(self).index() < group.frames().len() ==> {
                &&& r matches FrameNext::Frame(f) && f@ == group.frames()[old(self).index() as int]
                &&& final(self).index() == old(self).index() + 1
                &&& final(self).seen() == old(self).seen().push(group.frames()[old(self).index() as int])
            },
            old(self).index() == group.frames().len() ==> final(self).index() == old(self).index()
                && final(self).seen() == old(self).seen() && r == match group.done() {
                None => FrameNext::Pending,
                Some(ServeError::Closed) => FrameNext::End,
                Some(e) => FrameNext::Failed(e),
            },
    {
        if self.index < group.frames.len() {
            let f = group.frames[self.index].clone();
            proof {
                assert(group.frames() == frames_view(group.frames@));
                assert(f@ == group.frames@[self.index as int]@);
            }
            self.seen = Ghost(self.seen@.push(f@));
            self.index = self.index + 1;
            FrameNext::Frame(f)
        } else {
            match group.done {
                None => FrameNext::Pending,
                Some(ServeError::Closed) => FrameNext::End,
                Some(e) => FrameNext::Failed(e),
            }
        }
    }
}

/// Writing a frame keeps what any reader has seen a prefix of the group: frames
/// are only ever appended.
pub proof fn lemma_prefix_after_write(seen: Seq<Seq<u8>>, frames: Seq<Seq<u8>>, frame: Seq<u8>)
    requires
        seen.is_prefix_of(frames),
    ensures
        seen.is_prefix_of(frames.push(frame)),
{
    assert forall|i: int| 0 <= i < seen.len() implies frames.push(frame)[i] == seen[i] by {
        assert(frames[i] == seen[i]);
    }
}

} // verus!
