//! Recordings and baked shapes as bytes.
use dynakit::fixed::Fixed;
use dynakit::geometry::compound_baker::{BakeError, BakedCompound, ColliderBuilder};
use dynakit::pipeline::recorder::{RecordError, WorldPlayer, WorldRecorder};
use parry3d_f64::math::Pose;
use parry3d_f64::shape::SharedShape;

/// A falling box: position and velocity.
type World = ([f64; 3], [f64; 3]);

/// How many bytes the states of a recording take, found one after the other.
fn lengths(bytes: &[u8]) -> Vec<usize> {
    let mut lens = Vec::new();
    while let Some(at) = WorldRecorder::next_world(bytes, &lens).expect("a recording") {
        let mut rest = &bytes[at..];
        let _: World = bincode::deserialize_from(&mut rest).expect("bytes -> world");
        lens.push(bytes.len() - at - rest.len());
    }
    lens
}

fn step(world: &mut World, dt: f64) {
    world.1[1] += -9.81 * dt;
    for k in 0..3 {
        world.0[k] += world.1[k] * dt;
    }
}

#[test]
fn record_replay_reproduces_transforms() {
    let dt = 1.0 / 60.0;
    let mut world: World = ([0.0, 10.0, 0.0], [0.0, 0.0, 0.0]);

    let steps = 60;
    let mut recorded: Vec<[f64; 3]> = Vec::with_capacity(steps);
    let mut rec = WorldRecorder::new();
    for _ in 0..steps {
        step(&mut world, dt);
        rec.capture(&bincode::serialize(&world).expect("world -> bytes"));
        recorded.push(world.0);
    }

    assert_eq!(rec.len(), steps);

    let bytes = rec.to_bytes().expect("record -> bytes");
    let lens = lengths(&bytes);
    let player = WorldPlayer::from_bytes(&bytes, &lens).expect("bytes -> player");
    assert_eq!(player.len(), steps);

    let mut replayed: Vec<[f64; 3]> = Vec::with_capacity(steps);
    let mut player = WorldPlayer::from_bytes(&bytes, &lens).expect("bytes -> player");
    assert_eq!(player.len(), steps);
    let mut state: Vec<u8> = Vec::new();
    while player.restore_next(&mut state) {
        let replay: World = bincode::deserialize(&state).expect("bytes -> world");
        replayed.push(replay.0);
    }

    assert_eq!(replayed.len(), steps);

    for (orig, rep) in recorded.iter().zip(replayed.iter()) {
        let d = (orig[0] - rep[0]).abs() + (orig[1] - rep[1]).abs() + (orig[2] - rep[2]).abs();
        assert!(d < 1e-9, "replay transform diverged at frame");
    }

    let last = replayed.last().unwrap();
    let d = (recorded[steps - 1][0] - last[0]).abs()
        + (recorded[steps - 1][1] - last[1]).abs()
        + (recorded[steps - 1][2] - last[2]).abs();
    assert!(d < 1e-9, "final replay transform diverged");
}

#[test]
fn a_recording_has_the_expected_bytes() {
    let mut rec = WorldRecorder::new();
    assert!(rec.is_empty());
    rec.capture(&[7, 8]);
    rec.capture(&[]);
    let bytes = rec.to_bytes().unwrap();
    let expected: Vec<u8> = vec![
        2, 0, 0, 0, 0, 0, 0, 0, // two states
        0, 0, 0, 0, 0, 0, 0, 0, 7, 8, // the first
        1, 0, 0, 0, 0, 0, 0, 0, // the second
        2, 0, 0, 0, 0, 0, 0, 0, // the next step
    ];
    assert_eq!(bytes, expected);
}

#[test]
fn a_recording_has_the_bytes_of_its_values() {
    // The same bytes as those of the worlds themselves in a list behind their steps.
    let worlds: [World; 3] =
        [([1.5, 2.0, -3.0], [0.0; 3]), ([0.25; 3], [9.0, 8.0, 7.0]), ([0.0; 3], [1.0; 3])];
    let mut rec = WorldRecorder::new();
    for w in &worlds {
        rec.capture(&bincode::serialize(w).unwrap());
    }
    let frames: Vec<(u64, World)> = (0..).zip(worlds).collect();
    let bytes = bincode::serialize(&(&frames, 3u64)).unwrap();
    assert_eq!(rec.to_bytes().unwrap(), bytes);
    assert_eq!(lengths(&bytes), vec![48, 48, 48]);
    let back = WorldRecorder::from_bytes(&bytes, &[48, 48, 48]).unwrap();
    assert_eq!(back.frame(1).unwrap().world, bincode::serialize(&worlds[1]).unwrap());
}

#[test]
fn a_recording_read_back_goes_on_where_it_stopped() {
    let mut rec = WorldRecorder::default();
    rec.capture(&[1]);
    rec.capture(&[2, 3]);
    let mut bytes = rec.to_bytes().unwrap();
    // What follows a complete recording is not looked at.
    bytes.extend_from_slice(&[0xff; 5]);
    let mut back = WorldRecorder::from_bytes(&bytes, &[1, 2]).unwrap();
    assert_eq!(back.len(), 2);
    assert_eq!(back.frame(1).unwrap().step, 1);
    assert_eq!(back.frame(1).unwrap().world, vec![2, 3]);
    assert!(back.frame(2).is_none());
    back.capture(&[4]);
    assert_eq!(back.frame(2).unwrap().step, 2);
}

#[test]
fn bytes_that_are_cut_off_are_no_recording() {
    let mut rec = WorldRecorder::new();
    rec.capture(&[1, 2, 3]);
    let bytes = rec.to_bytes().unwrap();
    for n in 0..bytes.len() {
        let read = WorldRecorder::from_bytes(&bytes[..n], &[3]).err().unwrap();
        let played = WorldPlayer::from_bytes(&bytes[..n], &[3]).err().unwrap();
        if n < 8 {
            assert!(matches!(read, RecordError::Decode(_)));
            assert!(matches!(played, RecordError::Decode(_)));
        } else {
            assert!(matches!(read, RecordError::Cut));
            assert!(matches!(played, RecordError::Cut));
        }
    }
    // One length for each state.
    assert!(matches!(WorldRecorder::from_bytes(&bytes, &[]), Err(RecordError::Count)));
    assert!(matches!(WorldRecorder::from_bytes(&bytes, &[3, 0]), Err(RecordError::Count)));
    assert!(matches!(WorldRecorder::from_bytes(&bytes, &[usize::MAX]), Err(RecordError::Cut)));
    assert!(matches!(WorldRecorder::next_world(&bytes, &[]), Ok(Some(16))));
    assert!(matches!(WorldRecorder::next_world(&bytes, &[3]), Ok(None)));
    assert!(matches!(WorldRecorder::next_world(&bytes, &[3, 3]), Err(RecordError::Count)));
    assert!(matches!(WorldRecorder::next_world(&bytes[..15], &[]), Err(RecordError::Cut)));
    assert!(matches!(WorldRecorder::next_world(&bytes[..7], &[]), Err(RecordError::Decode(_))));
}

#[test]
fn playback_can_start_over() {
    let mut rec = WorldRecorder::new();
    rec.capture(&[1]);
    rec.capture(&[2]);
    let mut player = WorldPlayer::from_recording(rec);
    assert!(!player.is_empty());
    let mut state: Vec<u8> = vec![9];
    assert!(player.restore_next(&mut state));
    assert_eq!(state, vec![1]);
    assert_eq!(player.frame(0).unwrap().world, vec![1]);
    assert!(player.restore_next(&mut state));
    assert_eq!(state, vec![2]);
    // After the last state nothing is restored any more.
    assert!(!player.restore_next(&mut state));
    assert_eq!(state, vec![2]);
    player.reset();
    assert!(player.restore_next(&mut state));
    assert_eq!(state, vec![1]);
}

#[test]
fn bake_compound_round_trips_through_bytes() {
    let sub_shapes = vec![
        (Pose::from_translation([0.0, 0.0, 0.0].into()), SharedShape::ball(0.5)),
        (Pose::from_translation([2.0, 0.0, 0.0].into()), SharedShape::ball(0.5)),
        (
            Pose::from_translation([4.0, 1.0, 0.0].into()),
            SharedShape::cuboid(0.3, 0.3, 0.3),
        ),
    ];
    let original = SharedShape::compound(sub_shapes);
    let original_aabb = original.compute_local_aabb();
    let density = 2.0_f64;

    // Bake the builder and write it to bytes.
    let shape = bincode::serialize(&original).expect("shape -> bytes");
    let mass = bincode::serialize(&density).expect("density -> bytes");
    let (shape_len, mass_len) = (shape.len(), mass.len());
    let original_builder: ColliderBuilder<Vec<u8>, Vec<u8>, Fixed> =
        ColliderBuilder::new(shape, mass);
    let baked = original_builder.bake_compound();
    let bytes = baked.to_bytes().expect("bake -> bytes");
    // The bytes are those of the values themselves.
    assert_eq!(bytes, bincode::serialize(&(&original, density, false)).unwrap());

    // Read it and build it again.
    let restored =
        BakedCompound::from_bytes(&bytes, shape_len, mass_len).expect("bytes -> baked");
    let rebuilt_builder: ColliderBuilder<Vec<u8>, Vec<u8>, Fixed> =
        ColliderBuilder::from_baked_compound(restored);
    let rebuilt: SharedShape = bincode::deserialize(&rebuilt_builder.shape).expect("bytes -> shape");
    let rebuilt_aabb = rebuilt.compute_local_aabb();

    let dmin = (original_aabb.mins.x - rebuilt_aabb.mins.x).abs()
        + (original_aabb.mins.y - rebuilt_aabb.mins.y).abs()
        + (original_aabb.mins.z - rebuilt_aabb.mins.z).abs();
    let dmax = (original_aabb.maxs.x - rebuilt_aabb.maxs.x).abs()
        + (original_aabb.maxs.y - rebuilt_aabb.maxs.y).abs()
        + (original_aabb.maxs.z - rebuilt_aabb.maxs.z).abs();
    assert!(dmin < 1e-6, "baked AABB mins diverged");
    assert!(dmax < 1e-6, "baked AABB maxs diverged");

    let rebuilt_density: f64 =
        bincode::deserialize(&rebuilt_builder.mass_properties).expect("bytes -> density");
    assert_eq!(rebuilt_density, 2.0);
}

#[test]
fn baking_keeps_the_sensor_flag_and_nothing_else() {
    let mut builder: ColliderBuilder<Vec<u8>, Vec<u8>, Fixed> =
        ColliderBuilder::new(vec![1, 2], vec![3]);
    builder.is_sensor = true;
    builder.user_data = 77;
    let bytes = builder.bake_compound().to_bytes().unwrap();
    let expected: Vec<u8> = vec![
        1, 2, // the shape
        3, // the mass properties
        1, // a sensor
    ];
    assert_eq!(bytes, expected);
    let back: ColliderBuilder<Vec<u8>, Vec<u8>, Fixed> =
        ColliderBuilder::from_baked_compound(BakedCompound::from_bytes(&bytes, 2, 1).unwrap());
    assert_eq!((back.shape, back.mass_properties), (vec![1, 2], vec![3]));
    assert!(back.is_sensor);
    assert_eq!(back.user_data, 0);
}

#[test]
fn bytes_that_are_cut_off_are_no_baked_shape() {
    let builder: ColliderBuilder<Vec<u8>, Vec<u8>, Fixed> =
        ColliderBuilder::new(vec![5], vec![6, 7]);
    let bytes = builder.bake_compound().to_bytes().unwrap();
    for n in 0..3 {
        assert!(matches!(BakedCompound::from_bytes(&bytes[..n], 1, 2), Err(BakeError::Cut)));
    }
    assert!(matches!(BakedCompound::from_bytes(&bytes[..3], 1, 2), Err(BakeError::Decode(_))));
    assert!(BakedCompound::from_bytes(&bytes, 1, 2).is_ok());
    assert!(matches!(BakedCompound::from_bytes(&bytes, usize::MAX, 2), Err(BakeError::Cut)));
    // A flag that is neither zero nor one is refused too.
    let mut wrong = bytes.clone();
    *wrong.last_mut().unwrap() = 2;
    assert!(matches!(BakedCompound::from_bytes(&wrong, 1, 2), Err(BakeError::Decode(_))));
}
