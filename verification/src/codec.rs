//! The byte form of recordings and baked shapes.
//!
//! Numbers are eight bytes, least significant first. A list comes behind its length, its items and
//! the fields of a value stand one after the other with nothing in between, and what follows a
//! complete value is not looked at. The states in a recording and the parts of a baked shape are
//! the caller's values in their own byte form, whose lengths only the caller can tell.
use vstd::prelude::*;

verus! {

/// An error of the `bincode` crate. Its boxed form is what encoding and decoding return.
#[verifier::external_type_specification]
#[verifier::external_body]
pub struct ExBincodeErrorKind(bincode::ErrorKind);

/// The eight bytes of a number.
pub open spec fn number(x: u64) -> Seq<u8> {
    vstd::bytes::spec_u64_to_le_bytes(x)
}

/// The byte of a flag.
pub open spec fn flag(b: bool) -> u8 {
    if b {
        1
    } else {
        0
    }
}

/// The bytes of the first `n` snapshots: for each its step, then its content.
pub open spec fn frames_bytes(frames: Seq<(u64, Seq<u8>)>, n: nat) -> Seq<u8>
    decreases n,
{
    if n == 0 {
        Seq::empty()
    } else {
        frames_bytes(frames, (n - 1) as nat) + number(frames[n - 1].0) + frames[n - 1].1
    }
}

/// The bytes of a recording: the snapshots behind their number, then the next step.
pub open spec fn recording_bytes(frames: Seq<(u64, Seq<u8>)>, next_step: u64) -> Seq<u8> {
    number(frames.len() as u64) + frames_bytes(frames, frames.len()) + number(next_step)
}

/// The bytes of a baked shape: the shape, the mass properties, and one byte for the sensor flag.
pub open spec fn baked_bytes(shape: Seq<u8>, mass: Seq<u8>, is_sensor: bool) -> Seq<u8> {
    shape + mass + seq![flag(is_sensor)]
}

/// Encodes a number with `bincode::serialize`. What is claimed: it does not fail, and writes the
/// number as eight bytes with the least significant first.
#[verifier::external_body]
pub(crate) fn encode_number(x: u64) -> (r: Result<Vec<u8>, Box<bincode::ErrorKind>>)
    ensures
        r is Ok,
        r->Ok_0@ == number(x),
{
    bincode::serialize(&x)
}

/// Decodes a number with `bincode::deserialize`. What is claimed: it fails exactly if there are
/// fewer than eight bytes, and else gives the number whose bytes are the first eight.
#[verifier::external_body]
pub(crate) fn decode_number(bytes: &[u8]) -> (r: Result<u64, Box<bincode::ErrorKind>>)
    ensures
        match r {
            Ok(x) => number(x).is_prefix_of(bytes@),
            Err(e) => bytes@.len() < 8,
        },
{
    bincode::deserialize(bytes)
}

/// Encodes a flag with `bincode::serialize`. What is claimed: it does not fail, and writes one
/// byte, one for true and zero for false.
#[verifier::external_body]
pub(crate) fn encode_flag(b: bool) -> (r: Result<Vec<u8>, Box<bincode::ErrorKind>>)
    ensures
        r is Ok,
        r->Ok_0@ == seq![flag(b)],
{
    bincode::serialize(&b)
}

/// Decodes a flag with `bincode::deserialize`. What is claimed: it fails exactly if there is no
/// byte or the first one is neither zero nor one, and else gives the flag of that byte.
#[verifier::external_body]
pub(crate) fn decode_flag(bytes: &[u8]) -> (r: Result<bool, Box<bincode::ErrorKind>>)
    ensures
        match r {
            Ok(b) => bytes@.len() > 0 && bytes@[0] == flag(b),
            Err(e) => bytes@.len() == 0 || bytes@[0] > 1,
        },
{
    bincode::deserialize(bytes)
}

/// A number has eight bytes, which no other has.
pub proof fn lemma_number(x: u64, y: u64)
    ensures
        number(x).len() == 8,
        number(x) == number(y) ==> x == y,
{
    vstd::bytes::lemma_auto_spec_u64_to_from_le_bytes();
}

/// Copies bytes.
pub(crate) fn copy_bytes(bytes: &[u8]) -> (out: Vec<u8>)
    ensures
        out@ == bytes@,
{
    let mut out: Vec<u8> = Vec::new();
    let n: usize = bytes.len();
    for i in 0..n
        invariant
            n == bytes@.len(),
            out@ == bytes@.take(i as int),
    {
        out.push(bytes[i]);
        assert(bytes@.take(i + 1) =~= bytes@.take(i as int).push(bytes@[i as int]));
    }
    assert(bytes@.take(n as int) =~= bytes@);
    out
}

/// Puts bytes behind others.
pub(crate) fn append_bytes(out: &mut Vec<u8>, bytes: &[u8])
    ensures
        final(out)@ == old(out)@ + bytes@,
{
    let mut copy = copy_bytes(bytes);
    out.append(&mut copy);
}

/// Where snapshot `k` of a recording begins, if those before it have states of the given lengths.
pub open spec fn frame_place(lens: Seq<usize>, k: nat) -> nat
    decreases k,
{
    if k == 0 {
        8
    } else {
        frame_place(lens, (k - 1) as nat) + 8 + lens[k - 1] as nat
    }
}

/// Whether the states of the snapshots have the given lengths.
pub open spec fn has_lengths(frames: Seq<(u64, Seq<u8>)>, lens: Seq<usize>) -> bool {
    &&& frames.len() == lens.len()
    &&& forall|i: int| 0 <= i < frames.len() ==> (#[trigger] frames[i]).1.len() == lens[i]
}

proof fn lemma_frames_len(frames: Seq<(u64, Seq<u8>)>, lens: Seq<usize>, k: nat)
    requires
        has_lengths(frames, lens),
        k <= frames.len(),
    ensures
        frames_bytes(frames, k).len() + 8 == frame_place(lens, k),
    decreases k,
{
    if k > 0 {
        lemma_frames_len(frames, lens, (k - 1) as nat);
        lemma_number(frames[k - 1].0, 0);
    }
}

/// Places ascend.
pub proof fn lemma_places_ascend(lens: Seq<usize>, k: nat, n: nat)
    requires
        k <= n,
    ensures
        frame_place(lens, k) + 8 * (n - k) <= frame_place(lens, n),
    decreases n,
{
    if k < n {
        lemma_places_ascend(lens, k, (n - 1) as nat);
    }
}

/// What stands in the bytes of a recording: its number of snapshots first, each snapshot at its
/// place with its step before its state, and the next step after the last one.
pub open spec fn stands(
    s: Seq<u8>,
    frames: Seq<(u64, Seq<u8>)>,
    next_step: u64,
    lens: Seq<usize>,
) -> bool {
    let end = frame_place(lens, lens.len()) as int;
    &&& end + 8 <= s.len()
    &&& s.subrange(0, 8) == number(frames.len() as u64)
    &&& forall|k: int| 0 <= k < frames.len() ==> frame_stands(s, #[trigger] frames[k], lens, k)
    &&& s.subrange(end, end + 8) == number(next_step)
}

/// Whether a snapshot stands at its place.
pub open spec fn frame_stands(s: Seq<u8>, f: (u64, Seq<u8>), lens: Seq<usize>, k: int) -> bool {
    let at = frame_place(lens, k as nat) as int;
    s.subrange(at, at + 8) == number(f.0) && s.subrange(at + 8, at + 8 + lens[k]) == f.1
}

proof fn lemma_frames_stand(s: Seq<u8>, frames: Seq<(u64, Seq<u8>)>, lens: Seq<usize>, n: nat)
    requires
        has_lengths(frames, lens),
        n <= frames.len(),
        frame_place(lens, n) <= s.len(),
    ensures
        s.subrange(8, frame_place(lens, n) as int) == frames_bytes(frames, n) <==> forall|k: int|
            0 <= k < n ==> frame_stands(s, #[trigger] frames[k], lens, k),
    decreases n,
{
    let at = frame_place(lens, n) as int;
    let all = frames_bytes(frames, n);
    lemma_frames_len(frames, lens, n);
    if n == 0 {
        assert(s.subrange(8, 8) =~= all);
    } else {
        let m = (n - 1) as nat;
        lemma_frames_len(frames, lens, m);
        lemma_frames_stand(s, frames, lens, m);
        let from = frame_place(lens, m) as int;
        let (step, world) = (number(frames[m as int].0), frames[m as int].1);
        lemma_number(frames[m as int].0, 0);
        let whole = s.subrange(8, at);
        let before = s.subrange(8, from);
        let own = frames_bytes(frames, m);
        assert(whole =~= before + s.subrange(from, from + 8) + s.subrange(from + 8, at));
        if whole == all {
            assert(before =~= all.subrange(0, from - 8));
            assert(own =~= all.subrange(0, from - 8));
            assert(s.subrange(from, from + 8) =~= all.subrange(from - 8, from));
            assert(step =~= all.subrange(from - 8, from));
            assert(s.subrange(from + 8, at) =~= all.subrange(from, at - 8));
            assert(world =~= all.subrange(from, at - 8));
            assert(frame_stands(s, frames[m as int], lens, m as int));
        }
        if forall|k: int| 0 <= k < n ==> frame_stands(s, #[trigger] frames[k], lens, k) {
            assert(frame_stands(s, frames[m as int], lens, m as int));
            assert(whole =~= all);
        }
    }
}

/// Bytes begin with those of a recording exactly if its parts stand at their places.
pub proof fn lemma_recording_stands(
    s: Seq<u8>,
    frames: Seq<(u64, Seq<u8>)>,
    next_step: u64,
    lens: Seq<usize>,
)
    requires
        has_lengths(frames, lens),
    ensures
        recording_bytes(frames, next_step).is_prefix_of(s) <==> stands(s, frames, next_step, lens),
{
    let n = frames.len();
    let whole = recording_bytes(frames, next_step);
    let end = frame_place(lens, n) as int;
    let count = number(n as u64);
    let body = frames_bytes(frames, n);
    lemma_number(n as u64, 0);
    lemma_number(next_step, 0);
    lemma_frames_len(frames, lens, n);
    if whole.is_prefix_of(s) {
        let front = s.subrange(0, whole.len() as int);
        assert(front == whole);
        assert(s.subrange(0, 8) =~= front.subrange(0, 8));
        assert(whole.subrange(0, 8) =~= count);
        assert(s.subrange(8, end) =~= front.subrange(8, end));
        assert(whole.subrange(8, end) =~= body);
        assert(s.subrange(end, end + 8) =~= front.subrange(end, end + 8));
        assert(whole.subrange(end, end + 8) =~= number(next_step));
        lemma_frames_stand(s, frames, lens, n);
    }
    if stands(s, frames, next_step, lens) {
        lemma_frames_stand(s, frames, lens, n);
        assert(s.subrange(0, whole.len() as int) =~= s.subrange(0, 8) + s.subrange(8, end)
            + s.subrange(end, end + 8));
        assert(s.subrange(0, whole.len() as int) =~= whole);
    }
}

/// With the lengths of its states given, bytes begin with those of at most one recording.
pub proof fn lemma_one_recording(
    s: Seq<u8>,
    lens: Seq<usize>,
    f: Seq<(u64, Seq<u8>)>,
    m: u64,
    g: Seq<(u64, Seq<u8>)>,
    n: u64,
)
    requires
        has_lengths(f, lens),
        has_lengths(g, lens),
        recording_bytes(f, m).is_prefix_of(s),
        recording_bytes(g, n).is_prefix_of(s),
    ensures
        f == g,
        m == n,
{
    lemma_recording_stands(s, f, m, lens);
    lemma_recording_stands(s, g, n, lens);
    assert forall|k: int| 0 <= k < f.len() implies f[k] == g[k] by {
        assert(frame_stands(s, f[k], lens, k) && frame_stands(s, g[k], lens, k));
        lemma_number(f[k].0, g[k].0);
    }
    assert(f =~= g);
    lemma_number(m, n);
}

/// With the lengths of its parts given, bytes begin with those of at most one baked shape.
pub proof fn lemma_one_baked(
    s: Seq<u8>,
    shape: Seq<u8>,
    mass: Seq<u8>,
    is_sensor: bool,
    other_shape: Seq<u8>,
    other_mass: Seq<u8>,
    other_is_sensor: bool,
)
    requires
        shape.len() == other_shape.len(),
        mass.len() == other_mass.len(),
        baked_bytes(shape, mass, is_sensor).is_prefix_of(s),
        baked_bytes(other_shape, other_mass, other_is_sensor).is_prefix_of(s),
    ensures
        shape == other_shape,
        mass == other_mass,
        is_sensor == other_is_sensor,
{
    let a = baked_bytes(shape, mass, is_sensor);
    let b = baked_bytes(other_shape, other_mass, other_is_sensor);
    assert(a == b);
    let (m, n) = (shape.len() as int, (shape.len() + mass.len()) as int);
    assert(shape =~= a.subrange(0, m));
    assert(other_shape =~= b.subrange(0, m));
    assert(mass =~= a.subrange(m, n));
    assert(other_mass =~= b.subrange(m, n));
    assert(a[n] == b[n]);
}

} // verus!
