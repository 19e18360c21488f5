//! Recording the states of a simulation, and playing them back.
//!
//! The state of a world is kept as bytes, so that a recording does not depend on what happens to
//! the world later. In the bytes of a recording the states stand with nothing around them, as they
//! do in that of any list of values, so that reading one takes the lengths of the states, which
//! whoever knows the type of the worlds can tell.
use vstd::prelude::*;
use vstd::slice::slice_subrange;
use crate::codec;
use crate::codec::{append_bytes, copy_bytes, decode_number, encode_number};

verus! {

/// Why a recording could not be written or read.
#[derive(Debug)]
pub enum RecordError {
    /// A number could not be turned into bytes.
    Encode(Box<bincode::ErrorKind>),
    /// There is no number of states to begin with.
    Decode(Box<bincode::ErrorKind>),
    /// There are not as many states as lengths.
    Count,
    /// The bytes end before the recording does.
    Cut,
}

/// The state of a world at a step.
#[derive(Clone, Debug)]
pub struct WorldFrame {
    /// The number of the capture, from zero.
    pub step: u64,
    /// The state.
    pub world: Vec<u8>,
}

impl View for WorldFrame {
    type V = (u64, Seq<u8>);

    open spec fn view(&self) -> (u64, Seq<u8>) {
        (self.step, self.world@)
    }
}

/// What a recorder holds.
#[verifier::ext_equal]
pub ghost struct Recording {
    /// The captured states with their numbers.
    pub frames: Seq<(u64, Seq<u8>)>,
    /// The number of the next capture.
    pub next_step: u64,
}

/// Whether bytes begin with those of a recording whose states have the given lengths.
pub open spec fn is_recording(bytes: Seq<u8>, lens: Seq<usize>, rec: Recording) -> bool {
    codec::has_lengths(rec.frames, lens) && codec::recording_bytes(
        rec.frames,
        rec.next_step,
    ).is_prefix_of(bytes)
}

/// Whether bytes begin with the given number of states.
pub open spec fn begins_with_count(bytes: Seq<u8>, count: nat) -> bool {
    bytes.len() >= 8 && count <= u64::MAX && bytes.subrange(0, 8) == codec::number(count as u64)
}

/// Whether a recording with states of the given lengths fits in.
pub open spec fn holds_all(bytes: Seq<u8>, lens: Seq<usize>) -> bool {
    codec::frame_place(lens, lens.len()) + 8 <= bytes.len()
}

/// A recording in progress.
#[derive(Clone, Debug)]
pub struct WorldRecorder {
    frames: Vec<WorldFrame>,
    next_step: u64,
}

impl View for WorldRecorder {
    type V = Recording;

    closed spec fn view(&self) -> Recording {
        Recording {
            frames: self.frames@.map_values(|f: WorldFrame| f@),
            next_step: self.next_step,
        }
    }
}

/// Puts a number behind bytes.
fn append_number(out: &mut Vec<u8>, x: u64) -> (r: Result<(), RecordError>)
    ensures
        r is Ok,
        final(out)@ == old(out)@ + codec::number(x),
{
    match encode_number(x) {
        Ok(bytes) => {
            append_bytes(out, bytes.as_slice());
            Ok(())
        },
        Err(e) => Err(RecordError::Encode(e)),
    }
}

/// The number of states that bytes begin with.
fn read_count(bytes: &[u8]) -> (r: Result<u64, RecordError>)
    ensures
        match r {
            Ok(count) => begins_with_count(bytes@, count as nat),
            Err(e) => e is Decode && bytes@.len() < 8,
        },
{
    match decode_number(bytes) {
        Ok(count) => {
            proof {
                codec::lemma_number(count, 0);
            }
            Ok(count)
        },
        Err(e) => Err(RecordError::Decode(e)),
    }
}

/// Where the snapshot after those of the given lengths begins, unless it begins within the last
/// eight bytes or behind them.
fn place_after(bytes: &[u8], lens: &[usize]) -> (r: Option<usize>)
    ensures
        match r {
            Some(at) => at == codec::frame_place(lens@, lens@.len()) && at + 8 <= bytes@.len(),
            None => codec::frame_place(lens@, lens@.len()) + 8 > bytes@.len(),
        },
{
    let size: usize = bytes.len();
    let n: usize = lens.len();
    if size < 16 {
        proof {
            codec::lemma_places_ascend(lens@, 0, lens@.len());
        }
        return None;
    }
    let mut at: usize = 8;
    for k in 0..n
        invariant
            n == lens@.len(),
            size == bytes@.len(),
            size >= 16,
            at == codec::frame_place(lens@, k as nat),
            at + 8 <= size,
    {
        proof {
            codec::lemma_places_ascend(lens@, (k + 1) as nat, n as nat);
        }
        let room: usize = size - at - 8;
        let len: usize = lens[k];
        if room < 8 || room - 8 < len {
            return None;
        }
        at = at + 8 + len;
    }
    Some(at)
}

impl WorldRecorder {
    /// A recording without states.
    pub fn new() -> (rec: WorldRecorder)
        ensures
            rec@ == (Recording { frames: Seq::<(u64, Seq<u8>)>::empty(), next_step: 0 }),
    {
        let rec = WorldRecorder { frames: Vec::new(), next_step: 0 };
        assert(rec@.frames =~= Seq::empty());
        rec
    }

    /// Captures a state.
    pub fn capture(&mut self, world: &[u8])
        requires
            old(self)@.next_step < u64::MAX,
        ensures
            final(self)@ == (Recording {
                frames: old(self)@.frames.push((old(self)@.next_step, world@)),
                next_step: (old(self)@.next_step + 1) as u64,
            }),
    {
        let copy = copy_bytes(world);
        self.frames.push(WorldFrame { step: self.next_step, world: copy });
        self.next_step = self.next_step + 1;
        assert(self@.frames =~= old(self)@.frames.push((old(self)@.next_step, world@)));
    }

    /// The number of captured states.
    pub fn len(&self) -> (n: usize)
        ensures
            n == self@.frames.len(),
    {
        self.frames.len()
    }

    /// Whether no state was captured.
    pub fn is_empty(&self) -> (b: bool)
        ensures
            b == (self@.frames.len() == 0),
    {
        self.frames.len() == 0
    }

    /// The number of the next capture.
    pub fn next_step(&self) -> (n: u64)
        ensures
            n == self@.next_step,
    {
        self.next_step
    }

    /// The state at a position.
    pub fn frame(&self, index: usize) -> (r: Option<&WorldFrame>)
        ensures
            match r {
                Some(f) => index < self@.frames.len() && f@ == self@.frames[index as int],
                None => index >= self@.frames.len(),
            },
    {
        if index < self.frames.len() {
            Some(&self.frames[index])
        } else {
            None
        }
    }

    /// The recording as bytes.
    pub fn to_bytes(&self) -> (r: Result<Vec<u8>, RecordError>)
        ensures
            r matches Ok(bytes) && bytes@ == codec::recording_bytes(
                self@.frames,
                self@.next_step,
            ),
    {
        let ghost all = self@.frames;
        let n: usize = self.frames.len();
        let mut out: Vec<u8> = Vec::new();
        match append_number(&mut out, n as u64) {
            Ok(done) => {},
            Err(e) => {
                return Err(e);
            },
        }
        assert(out@ =~= codec::number(n as u64) + codec::frames_bytes(all, 0));
        for i in 0..n
            invariant
                n == self.frames@.len(),
                all == self@.frames,
                out@ == codec::number(n as u64) + codec::frames_bytes(all, i as nat),
        {
            assert(all[i as int] == self.frames@[i as int]@);
            match append_number(&mut out, self.frames[i].step) {
                Ok(done) => {},
                Err(e) => {
                    return Err(e);
                },
            }
            append_bytes(&mut out, self.frames[i].world.as_slice());
            assert(out@ =~= codec::number(n as u64) + codec::frames_bytes(all, (i + 1) as nat));
        }
        match append_number(&mut out, self.next_step) {
            Ok(done) => Ok(out),
            Err(e) => Err(e),
        }
    }

    /// Where the first state begins whose length is not given, if there is one. With it the
    /// lengths can be found from the first one on.
    pub fn next_world(bytes: &[u8], lens: &[usize]) -> (r: Result<Option<usize>, RecordError>)
        ensures
            match r {
                Ok(Some(at)) => {
                    &&& exists|count: nat|
                        #[trigger] begins_with_count(bytes@, count) && lens@.len() < count
                    &&& at == codec::frame_place(lens@, lens@.len()) + 8
                    &&& at <= bytes@.len()
                },
                Ok(None) => begins_with_count(bytes@, lens@.len()),
                Err(RecordError::Decode(e)) => bytes@.len() < 8,
                Err(RecordError::Count) => exists|count: nat|
                    #[trigger] begins_with_count(bytes@, count) && count < lens@.len(),
                Err(RecordError::Cut) => {
                    &&& exists|count: nat|
                        #[trigger] begins_with_count(bytes@, count) && lens@.len() < count
                    &&& codec::frame_place(lens@, lens@.len()) + 8 > bytes@.len()
                },
                Err(RecordError::Encode(e)) => false,
            },
    {
        let size: usize = bytes.len();
        let count: u64 = match read_count(bytes) {
            Ok(count) => count,
            Err(e) => {
                return Err(e);
            },
        };
        assert(begins_with_count(bytes@, count as nat));
        let given: u64 = lens.len() as u64;
        if count == given {
            Ok(None)
        } else if count < given {
            Err(RecordError::Count)
        } else {
            match place_after(bytes, lens) {
                Some(at) => Ok(Some(at + 8)),
                None => Err(RecordError::Cut),
            }
        }
    }

    /// The recording that bytes begin with, whose states have the given lengths.
    pub fn from_bytes(bytes: &[u8], lens: &[usize]) -> (r: Result<WorldRecorder, RecordError>)
        ensures
            r is Ok <==> begins_with_count(bytes@, lens@.len()) && holds_all(bytes@, lens@),
            match r {
                Ok(rec) => is_recording(bytes@, lens@, rec@),
                Err(e) => {
                    &&& forall|rec: Recording| !(#[trigger] is_recording(bytes@, lens@, rec))
                    &&& e is Decode <==> bytes@.len() < 8
                    &&& e is Count <==> bytes@.len() >= 8 && !begins_with_count(
                        bytes@,
                        lens@.len(),
                    )
                    &&& e is Cut <==> begins_with_count(bytes@, lens@.len()) && !holds_all(
                        bytes@,
                        lens@,
                    )
                },
            },
    {
        let n: usize = lens.len();
        let size: usize = bytes.len();
        let count: u64 = match read_count(bytes) {
            Ok(count) => count,
            Err(e) => {
                assert forall|rec: Recording| !(#[trigger] is_recording(bytes@, lens@, rec)) by {
                    if is_recording(bytes@, lens@, rec) {
                        lemma_no_recording(bytes@, lens@, rec);
                    }
                }
                return Err(e);
            },
        };
        if count != n as u64 {
            proof {
                codec::lemma_number(count, n as u64);
                assert forall|rec: Recording| !(#[trigger] is_recording(bytes@, lens@, rec)) by {
                    if is_recording(bytes@, lens@, rec) {
                        lemma_no_recording(bytes@, lens@, rec);
                    }
                }
            }
            return Err(RecordError::Count);
        }
        let end: usize = match place_after(bytes, lens) {
            Some(end) => end,
            None => {
                assert forall|rec: Recording| !(#[trigger] is_recording(bytes@, lens@, rec)) by {
                    if is_recording(bytes@, lens@, rec) {
                        lemma_no_recording(bytes@, lens@, rec);
                    }
                }
                return Err(RecordError::Cut);
            },
        };
        let mut frames: Vec<WorldFrame> = Vec::new();
        let mut at: usize = 8;
        for k in 0..n
            invariant
                n == lens@.len(),
                at == codec::frame_place(lens@, k as nat),
                codec::frame_place(lens@, n as nat) + 8 <= bytes@.len(),
                size == bytes@.len(),
                frames@.len() == k,
                forall|i: int|
                    #![trigger frames@[i]]
                    0 <= i < k ==> codec::frame_stands(bytes@, frames@[i]@, lens@, i)
                        && frames@[i].world@.len() == lens@[i],
        {
            proof {
                codec::lemma_places_ascend(lens@, (k + 1) as nat, n as nat);
            }
            let len: usize = lens[k];
            let step: u64 = match decode_number(slice_subrange(bytes, at, at + 8)) {
                Ok(step) => step,
                Err(e) => 0,
            };
            proof {
                codec::lemma_number(step, 0);
                let eight = bytes@.subrange(at as int, at + 8);
                assert(codec::number(step) =~= eight.subrange(0, 8));
                assert(eight.subrange(0, 8) =~= eight);
            }
            let world = copy_bytes(slice_subrange(bytes, at + 8, at + 8 + len));
            frames.push(WorldFrame { step, world });
            at = at + 8 + len;
        }
        let next_step: u64 = match decode_number(slice_subrange(bytes, at, at + 8)) {
            Ok(step) => step,
            Err(e) => 0,
        };
        let rec = WorldRecorder { frames, next_step };
        proof {
            codec::lemma_number(next_step, 0);
            let eight = bytes@.subrange(at as int, at + 8);
            assert(codec::number(next_step) =~= eight.subrange(0, 8));
            assert(eight.subrange(0, 8) =~= eight);
            let f = rec@.frames;
            assert forall|k: int| 0 <= k < f.len() implies codec::frame_stands(
                bytes@,
                #[trigger] f[k],
                lens@,
                k,
            ) && f[k].1.len() == lens@[k] by {
                assert(f[k] == rec.frames@[k]@);
            }
            codec::lemma_recording_stands(bytes@, f, next_step, lens@);
        }
        Ok(rec)
    }
}

/// Bytes that lack the number of states, or room for them, hold no recording.
proof fn lemma_no_recording(bytes: Seq<u8>, lens: Seq<usize>, rec: Recording)
    requires
        lens.len() <= u64::MAX,
        is_recording(bytes, lens, rec),
    ensures
        begins_with_count(bytes, lens.len()),
        holds_all(bytes, lens),
{
    codec::lemma_recording_stands(bytes, rec.frames, rec.next_step, lens);
}

impl Default for WorldRecorder {
    fn default() -> (rec: WorldRecorder)
        ensures
            rec@ == (Recording { frames: Seq::<(u64, Seq<u8>)>::empty(), next_step: 0 }),
    {
        WorldRecorder::new()
    }
}

/// What a player holds.
#[verifier::ext_equal]
pub ghost struct Playback {
    /// The states with their numbers.
    pub frames: Seq<(u64, Seq<u8>)>,
    /// How many of them were restored.
    pub cursor: nat,
}

impl Playback {
    /// The states that are still to be restored, in their order.
    pub open spec fn remaining(self) -> Seq<Seq<u8>>
        decreases self.frames.len() - self.cursor,
    {
        if self.cursor >= self.frames.len() {
            Seq::empty()
        } else {
            seq![self.frames[self.cursor as int].1] + (Playback {
                cursor: self.cursor + 1,
                ..self
            }).remaining()
        }
    }
}

/// A recording that is played back.
#[derive(Clone, Debug)]
pub struct WorldPlayer {
    frames: Vec<WorldFrame>,
    cursor: usize,
}

impl View for WorldPlayer {
    type V = Playback;

    closed spec fn view(&self) -> Playback {
        Playback {
            frames: self.frames@.map_values(|f: WorldFrame| f@),
            cursor: self.cursor as nat,
        }
    }
}

impl WorldPlayer {
    /// A player at the beginning of a recording.
    pub fn from_recording(rec: WorldRecorder) -> (p: WorldPlayer)
        ensures
            p@ == (Playback { frames: rec@.frames, cursor: 0 }),
    {
        WorldPlayer { frames: rec.frames, cursor: 0 }
    }

    /// A player at the beginning of the recording that bytes begin with, whose states have the
    /// given lengths.
    pub fn from_bytes(bytes: &[u8], lens: &[usize]) -> (r: Result<WorldPlayer, RecordError>)
        ensures
            r is Ok <==> begins_with_count(bytes@, lens@.len()) && holds_all(bytes@, lens@),
            match r {
                Ok(p) => p@.cursor == 0 && exists|rec: Recording|
                    #[trigger] is_recording(bytes@, lens@, rec) && p@.frames == rec.frames,
                Err(e) => {
                    &&& e is Decode <==> bytes@.len() < 8
                    &&& e is Count <==> bytes@.len() >= 8 && !begins_with_count(
                        bytes@,
                        lens@.len(),
                    )
                    &&& e is Cut <==> begins_with_count(bytes@, lens@.len()) && !holds_all(
                        bytes@,
                        lens@,
                    )
                },
            },
    {
        match WorldRecorder::from_bytes(bytes, lens) {
            Ok(rec) => Ok(WorldPlayer::from_recording(rec)),
            Err(e) => Err(e),
        }
    }

    /// The number of states.
    pub fn len(&self) -> (n: usize)
        ensures
            n == self@.frames.len(),
    {
        self.frames.len()
    }

    /// Whether there are no states.
    pub fn is_empty(&self) -> (b: bool)
        ensures
            b == (self@.frames.len() == 0),
    {
        self.frames.len() == 0
    }

    /// The state at a position, whatever was restored.
    pub fn frame(&self, index: usize) -> (r: Option<&WorldFrame>)
        ensures
            match r {
                Some(f) => index < self@.frames.len() && f@ == self@.frames[index as int],
                None => index >= self@.frames.len(),
            },
    {
        if index < self.frames.len() {
            Some(&self.frames[index])
        } else {
            None
        }
    }

    /// Goes back to the beginning.
    pub fn reset(&mut self)
        ensures
            final(self)@ == (Playback { cursor: 0, ..old(self)@ }),
    {
        self.cursor = 0;
    }

    /// Restores the next state, by way of its byte form. Tells whether there was one.
    pub fn restore_next(&mut self, world: &mut Vec<u8>) -> (restored: bool)
        ensures
            restored == (old(self)@.cursor < old(self)@.frames.len()),
            final(self)@ == (if restored {
                Playback { cursor: old(self)@.cursor + 1, ..old(self)@ }
            } else {
                old(self)@
            }),
            final(world)@ == (if restored {
                old(self)@.frames[old(self)@.cursor as int].1
            } else {
                old(world)@
            }),
    {
        if self.cursor >= self.frames.len() {
            return false;
        }
        let step: u64 = self.frames[self.cursor].step;
        let copy = copy_bytes(self.frames[self.cursor].world.as_slice());
        *world = restored_state(step, copy);
        self.cursor = self.cursor + 1;
        true
    }
}

/// A state after a round through the byte form of its snapshot.
fn restored_state(step: u64, world: Vec<u8>) -> (out: Vec<u8>)
    ensures
        out@ == world@,
{
    let mut bytes: Vec<u8> = Vec::new();
    match append_number(&mut bytes, step) {
        Ok(done) => {},
        Err(e) => {},
    }
    append_bytes(&mut bytes, world.as_slice());
    proof {
        codec::lemma_number(step, 0);
        assert(bytes@.subrange(8, bytes@.len() as int) =~= world@);
    }
    copy_bytes(slice_subrange(bytes.as_slice(), 8, bytes.len()))
}

/// The lengths of the states of a recording.
pub open spec fn lengths(rec: Recording) -> Seq<usize> {
    rec.frames.map_values(|f: (u64, Seq<u8>)| f.1.len() as usize)
}

/// Bytes that begin with those of a recording give that recording back, and no other: with the
/// lengths of its states, they are read as that recording.
pub proof fn lemma_bytes_give_recording_back(rec: Recording, tail: Seq<u8>, other: Recording)
    requires
        codec::recording_bytes(rec.frames, rec.next_step).len() + tail.len() <= usize::MAX,
    ensures
        is_recording(
            codec::recording_bytes(rec.frames, rec.next_step) + tail,
            lengths(rec),
            other,
        ) <==> other == rec,
{
    let own = codec::recording_bytes(rec.frames, rec.next_step);
    let s = own + tail;
    let lens = lengths(rec);
    lemma_states_fit(rec.frames, rec.frames.len());
    codec::lemma_number(rec.frames.len() as u64, 0);
    assert(codec::has_lengths(rec.frames, lens));
    assert(s.subrange(0, own.len() as int) =~= own);
    assert(own.is_prefix_of(s));
    if is_recording(s, lens, other) {
        codec::lemma_one_recording(
            s,
            lens,
            rec.frames,
            rec.next_step,
            other.frames,
            other.next_step,
        );
    }
}

proof fn lemma_states_fit(frames: Seq<(u64, Seq<u8>)>, n: nat)
    requires
        n <= frames.len(),
    ensures
        forall|i: int|
            0 <= i < n ==> (#[trigger] frames[i]).1.len() <= codec::frames_bytes(frames, n).len(),
    decreases n,
{
    if n > 0 {
        lemma_states_fit(frames, (n - 1) as nat);
    }
}

/// In the bytes of a recording each state stands where the lengths of those before it say, so that
/// the lengths can be found one after the other.
pub proof fn lemma_states_are_found(rec: Recording, tail: Seq<u8>, k: nat)
    requires
        codec::recording_bytes(rec.frames, rec.next_step).len() + tail.len() <= usize::MAX,
        k < rec.frames.len(),
    ensures
        ({
            let s = codec::recording_bytes(rec.frames, rec.next_step) + tail;
            let at = codec::frame_place(lengths(rec).take(k as int), k) + 8;
            &&& begins_with_count(s, rec.frames.len())
            &&& rec.frames[k as int].1.is_prefix_of(s.skip(at as int))
        }),
{
    let own = codec::recording_bytes(rec.frames, rec.next_step);
    let s = own + tail;
    let lens = lengths(rec);
    lemma_bytes_give_recording_back(rec, tail, rec);
    codec::lemma_recording_stands(s, rec.frames, rec.next_step, lens);
    lemma_frames_count(rec.frames, rec.frames.len());
    lemma_place_of_prefix(lens, k, k);
    assert(codec::frame_stands(s, rec.frames[k as int], lens, k as int));
    let at = codec::frame_place(lens, k) as int;
    let world = rec.frames[k as int].1;
    codec::lemma_places_ascend(lens, k + 1, lens.len());
    assert(s.skip(at + 8).subrange(0, world.len() as int) =~= s.subrange(
        at + 8,
        at + 8 + lens[k as int],
    ));
}

proof fn lemma_frames_count(frames: Seq<(u64, Seq<u8>)>, n: nat)
    requires
        n <= frames.len(),
    ensures
        codec::frames_bytes(frames, n).len() >= n,
    decreases n,
{
    if n > 0 {
        lemma_frames_count(frames, (n - 1) as nat);
        codec::lemma_number(frames[n - 1].0, 0);
    }
}

proof fn lemma_place_of_prefix(lens: Seq<usize>, k: nat, n: nat)
    requires
        k <= n <= lens.len(),
    ensures
        codec::frame_place(lens.take(n as int), k) == codec::frame_place(lens, k),
    decreases k,
{
    if k > 0 {
        lemma_place_of_prefix(lens, (k - 1) as nat, n);
    }
}

/// Playing a recording from the beginning restores every captured state once, in the order of
/// the captures.
pub proof fn lemma_playback_is_faithful(p: Playback)
    requires
        p.cursor <= p.frames.len(),
    ensures
        p.remaining() == p.frames.skip(p.cursor as int).map_values(|f: (u64, Seq<u8>)| f.1),
    decreases p.frames.len() - p.cursor,
{
    let worlds = p.frames.skip(p.cursor as int).map_values(|f: (u64, Seq<u8>)| f.1);
    if p.cursor < p.frames.len() {
        let next = Playback { cursor: p.cursor + 1, ..p };
        lemma_playback_is_faithful(next);
        assert(p.remaining() =~= worlds);
    } else {
        assert(p.remaining() =~= worlds);
    }
}

} // verus!
