//! Shapes that are prepared once and loaded many times.
//!
//! Baking keeps the shape of a collider as it stands, with everything that was computed for it, so
//! that loading computes nothing again. What the shape and the mass properties are is up to the
//! caller; in their byte form they can be written and read. There they stand with nothing around
//! them, so that reading takes their lengths.
use vstd::prelude::*;
use vstd::slice::slice_subrange;
use crate::codec;
use crate::codec::{append_bytes, copy_bytes, decode_flag, encode_flag};
use crate::math::Pose;
use crate::scalar::Real;

verus! {

/// What a collider is made from.
#[derive(Clone, Debug)]
pub struct ColliderBuilder<S, M, R> {
    /// The shape.
    pub shape: S,
    /// How heavy it is.
    pub mass_properties: M,
    /// Whether it only reports what it touches.
    pub is_sensor: bool,
    /// Where it is.
    pub position: Pose<R>,
    /// The user's own data.
    pub user_data: u128,
}

/// What baking keeps of a collider.
#[derive(Clone, Debug)]
pub struct BakedCompound<S, M> {
    shape: S,
    mass_properties: M,
    is_sensor: bool,
}

/// Why a baked shape could not be written or read.
#[derive(Debug)]
pub enum BakeError {
    /// The sensor flag could not be turned into bytes.
    Encode(Box<bincode::ErrorKind>),
    /// There is no sensor flag where one should be.
    Decode(Box<bincode::ErrorKind>),
    /// The bytes end before the mass properties do.
    Cut,
}

impl<S, M> BakedCompound<S, M> {
    /// The shape.
    pub closed spec fn shape(&self) -> S {
        self.shape
    }

    /// The mass properties.
    pub closed spec fn mass_properties(&self) -> M {
        self.mass_properties
    }

    /// Whether the collider only reports what it touches.
    pub closed spec fn is_sensor(&self) -> bool {
        self.is_sensor
    }
}

/// Whether bytes begin with those of a baked shape.
pub open spec fn is_baked(bytes: Seq<u8>, baked: BakedCompound<Vec<u8>, Vec<u8>>) -> bool {
    codec::baked_bytes(
        baked.shape()@,
        baked.mass_properties()@,
        baked.is_sensor(),
    ).is_prefix_of(bytes)
}

impl BakedCompound<Vec<u8>, Vec<u8>> {
    /// The baked shape as bytes.
    pub fn to_bytes(&self) -> (r: Result<Vec<u8>, BakeError>)
        ensures
            r is Ok,
            r->Ok_0@ == codec::baked_bytes(
                self.shape()@,
                self.mass_properties()@,
                self.is_sensor(),
            ),
    {
        match encode_flag(self.is_sensor) {
            Ok(flag) => {
                let mut out = copy_bytes(self.shape.as_slice());
                append_bytes(&mut out, self.mass_properties.as_slice());
                append_bytes(&mut out, flag.as_slice());
                Ok(out)
            },
            Err(e) => Err(BakeError::Encode(e)),
        }
    }

    /// The baked shape that bytes begin with, whose shape and mass properties have the given
    /// lengths.
    pub fn from_bytes(bytes: &[u8], shape_len: usize, mass_len: usize) -> (r: Result<
        BakedCompound<Vec<u8>, Vec<u8>>,
        BakeError,
    >)
        ensures
            r is Ok <==> bytes@.len() > shape_len + mass_len && bytes@[shape_len + mass_len] <= 1,
            match r {
                Ok(baked) => {
                    &&& is_baked(bytes@, baked)
                    &&& baked.shape()@.len() == shape_len
                    &&& baked.mass_properties()@.len() == mass_len
                },
                Err(e) => {
                    &&& e is Cut <==> bytes@.len() < shape_len + mass_len
                    &&& e is Decode <==> bytes@.len() == shape_len + mass_len || bytes@.len()
                        > shape_len + mass_len && bytes@[shape_len + mass_len] > 1
                },
            },
    {
        let size: usize = bytes.len();
        if size < shape_len || size - shape_len < mass_len {
            return Err(BakeError::Cut);
        }
        let at: usize = shape_len + mass_len;
        match decode_flag(slice_subrange(bytes, at, size)) {
            Ok(is_sensor) => {
                let shape = copy_bytes(slice_subrange(bytes, 0, shape_len));
                let mass_properties = copy_bytes(slice_subrange(bytes, shape_len, at));
                let ghost whole = codec::baked_bytes(shape@, mass_properties@, is_sensor);
                assert(bytes@.subrange(0, at + 1) =~= whole);
                Ok(BakedCompound { shape, mass_properties, is_sensor })
            },
            Err(e) => Err(BakeError::Decode(e)),
        }
    }
}

impl<S, M, R: Real> ColliderBuilder<S, M, R> {
    /// A collider of the given shape at the origin.
    pub fn new(shape: S, mass_properties: M) -> (b: ColliderBuilder<S, M, R>)
        ensures
            b == (ColliderBuilder {
                shape,
                mass_properties,
                is_sensor: false,
                position: Pose::<R>::spec_identity(),
                user_data: 0,
            }),
    {
        ColliderBuilder {
            shape,
            mass_properties,
            is_sensor: false,
            position: Pose::identity(),
            user_data: 0,
        }
    }

    /// Keeps the shape, the mass properties and the sensor flag.
    pub fn bake_compound(&self) -> (baked: BakedCompound<S, M>) where S: Clone, M: Clone
        ensures
            cloned(self.shape, baked.shape()),
            cloned(self.mass_properties, baked.mass_properties()),
            baked.is_sensor() == self.is_sensor,
    {
        BakedCompound {
            shape: self.shape.clone(),
            mass_properties: self.mass_properties.clone(),
            is_sensor: self.is_sensor,
        }
    }

    /// A collider with what baking kept of another one; all else is as in a new one.
    pub fn from_baked_compound(baked: BakedCompound<S, M>) -> (b: ColliderBuilder<S, M, R>)
        ensures
            b == (ColliderBuilder {
                shape: baked.shape(),
                mass_properties: baked.mass_properties(),
                is_sensor: baked.is_sensor(),
                position: Pose::<R>::spec_identity(),
                user_data: 0,
            }),
    {
        let mut builder = ColliderBuilder::new(baked.shape, baked.mass_properties);
        builder.is_sensor = baked.is_sensor;
        builder
    }
}

/// Bytes that begin with those of a baked shape give that shape back, and no other with parts of
/// the same lengths.
pub proof fn lemma_bytes_give_shape_back(
    baked: BakedCompound<Vec<u8>, Vec<u8>>,
    tail: Seq<u8>,
    other: BakedCompound<Vec<u8>, Vec<u8>>,
)
    requires
        other.shape()@.len() == baked.shape()@.len(),
        other.mass_properties()@.len() == baked.mass_properties()@.len(),
    ensures
        is_baked(
            codec::baked_bytes(
                baked.shape()@,
                baked.mass_properties()@,
                baked.is_sensor(),
            ) + tail,
            other,
        ) <==> other.shape()@ == baked.shape()@ && other.mass_properties()@
            == baked.mass_properties()@ && other.is_sensor() == baked.is_sensor(),
{
    let own = codec::baked_bytes(
        baked.shape()@,
        baked.mass_properties()@,
        baked.is_sensor(),
    );
    let s = own + tail;
    assert(s.subrange(0, own.len() as int) =~= own);
    assert(own.is_prefix_of(s));
    if is_baked(s, other) {
        codec::lemma_one_baked(
            s,
            baked.shape()@,
            baked.mass_properties()@,
            baked.is_sensor(),
            other.shape()@,
            other.mass_properties()@,
            other.is_sensor(),
        );
    }
}

} // verus!
