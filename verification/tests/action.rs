use staff::convert::action::{
    insert_key, order_key, Channel, Interpolation, Keyframe, Rotation, Value,
};
use staff::convert::{Action, Keyframe as Key};

fn rot(angle: f32) -> Rotation {
    Rotation {
        output: angle.to_bits(),
        int: Interpolation::Linear,
    }
}

fn is_unset(r: &Rotation) -> bool {
    r.output == 0 && matches!(r.int, Interpolation::Linear)
}

fn times(keys: &[Keyframe]) -> Vec<f32> {
    keys.iter().map(|k| f32::from_bits(k.input)).collect()
}

#[test]
fn action_merges_channels_of_one_time() {
    let mut action = Action::default();
    assert!(action.is_empty());
    action.insert_channel("Hips".to_owned(), 1f32.to_bits(), Channel::RotationX(rot(0.5)));
    action.insert_channel("Hips".to_owned(), 1f32.to_bits(), Channel::RotationZ(rot(2.)));
    let tracks = action.keyframes();
    assert_eq!(tracks.len(), 1);
    assert_eq!(tracks[0].bone, "Hips");
    assert_eq!(tracks[0].keys.len(), 1);
    let key: &Key = &tracks[0].keys[0];
    assert_eq!(key.input, 1f32.to_bits());
    assert_eq!(key.val.rx.output, 0.5f32.to_bits());
    assert_eq!(key.val.rz.output, 2f32.to_bits());
    assert!(is_unset(&key.val.ry));
}

#[test]
fn action_keeps_channels_of_other_times_apart() {
    let mut action = Action::default();
    action.insert_channel("Hips".to_owned(), 2f32.to_bits(), Channel::RotationX(rot(0.5)));
    action.insert_channel("Hips".to_owned(), 1f32.to_bits(), Channel::RotationY(rot(2.)));
    let tracks = action.keyframes();
    assert_eq!(tracks.len(), 1);
    let keys = &tracks[0].keys;
    assert_eq!(times(keys), vec![1., 2.]);
    assert_eq!(keys[0].val.ry.output, 2f32.to_bits());
    assert!(is_unset(&keys[0].val.rx) && is_unset(&keys[0].val.rz));
    assert_eq!(keys[1].val.rx.output, 0.5f32.to_bits());
    assert!(is_unset(&keys[1].val.ry) && is_unset(&keys[1].val.rz));
}

#[test]
fn action_keeps_one_track_for_each_bone() {
    let mut action = Action::default();
    action.insert_channel("b".to_owned(), 0, Channel::RotationX(rot(1.)));
    action.insert_channel("a".to_owned(), 0, Channel::RotationX(rot(2.)));
    action.insert_channel("b".to_owned(), 1f32.to_bits(), Channel::RotationX(rot(3.)));
    let tracks = action.keyframes();
    assert_eq!(tracks.len(), 2);
    assert_eq!(tracks[0].bone, "b");
    assert_eq!(tracks[0].keys.len(), 2);
    assert_eq!(tracks[1].bone, "a");
    assert_eq!(tracks[1].keys.len(), 1);
    assert!(!action.is_empty());
}

#[test]
fn keys_are_sorted_as_floats_are() {
    let mut keys: Vec<Keyframe> = Vec::new();
    let stamps = [3.5f32, -1., 0., -0., 100., f32::NEG_INFINITY, 1e-30, f32::INFINITY, -2.5];
    for t in stamps {
        insert_key(&mut keys, t.to_bits(), Channel::RotationX(rot(t)));
    }
    let mut want = stamps.to_vec();
    want.sort_by(f32::total_cmp);
    assert_eq!(keys.len(), want.len());
    for (key, t) in keys.iter().zip(&want) {
        assert_eq!(key.input, t.to_bits());
    }
}

#[test]
fn order_key_agrees_with_the_total_order() {
    let samples = [
        0f32, -0., 1., -1., f32::MIN_POSITIVE, -f32::MIN_POSITIVE, f32::MAX, f32::MIN,
        f32::INFINITY, f32::NEG_INFINITY, f32::NAN, -f32::NAN, 1.5, 2.5e-7,
    ];
    for a in samples {
        for b in samples {
            assert_eq!(order_key(a.to_bits()).cmp(&order_key(b.to_bits())), a.total_cmp(&b));
        }
    }
    assert_eq!(order_key(0), 0);
    assert_eq!(order_key(0x8000_0000), -1);
    assert_eq!(order_key(0xFFFF_FFFF), -2147483648);
    assert_eq!(order_key(0x7FFF_FFFF), 2147483647);
}

#[test]
fn value_replaces_one_channel() {
    let value = Value::default().with(Channel::RotationY(rot(1.)));
    assert!(is_unset(&value.rx));
    assert_eq!(value.ry.output, 1f32.to_bits());
    let bezier = Rotation {
        output: 7,
        int: Interpolation::Bezier([1, 2, 3, 4]),
    };
    let value = value.with(Channel::RotationY(bezier));
    assert_eq!(value.ry.output, 7);
    assert!(matches!(value.ry.int, Interpolation::Bezier([1, 2, 3, 4])));
    assert!(is_unset(&value.rz));
}
