use staff::convert::skeleton::MAX_BONES;
use staff::convert::{Bone, Skeleton};

fn with_parent(parent: Option<u16>) -> Bone {
    Bone {
        name: String::default(),
        pos: [0f32.to_bits(); 3],
        rot: [0f32.to_bits(); 4],
        parent,
    }
}

fn named(name: &str, parent: Option<u16>) -> Bone {
    Bone {
        name: name.to_owned(),
        pos: [0f32.to_bits(); 3],
        rot: [0f32.to_bits(); 4],
        parent,
    }
}

#[test]
fn push() {
    let mut skeleton = Skeleton::default();
    assert!(skeleton.push(with_parent(None)).is_ok());
    assert!(skeleton.push(with_parent(Some(0))).is_ok());
    assert!(skeleton.push(with_parent(Some(0))).is_ok());
    assert!(skeleton.push(with_parent(Some(1))).is_ok());
    assert!(skeleton.push(with_parent(Some(2))).is_ok());
}

#[test]
fn skeleton_starts_empty() {
    let skeleton = Skeleton::default();
    assert!(skeleton.is_empty());
    assert_eq!(skeleton.len(), 0);
    assert!(skeleton.bones().is_empty());
    assert_eq!(skeleton.get("root"), None);
}

#[test]
fn skeleton_finds_the_last_bone_of_a_name() {
    let mut skeleton = Skeleton::default();
    skeleton.push(named("hips", None)).unwrap();
    skeleton.push(named("leg", Some(0))).unwrap();
    skeleton.push(named("leg", Some(0))).unwrap();
    assert_eq!(skeleton.get("hips"), Some(0));
    assert_eq!(skeleton.get("leg"), Some(2));
    assert_eq!(skeleton.get("arm"), None);
    assert!(!skeleton.is_empty());
    assert_eq!(skeleton.bones()[1].parent, Some(0));
}

#[test]
fn skeleton_holds_up_to_the_limit() {
    let mut skeleton = Skeleton::default();
    for i in 0..MAX_BONES {
        let parent = if i == 0 { None } else { Some((i - 1) as u16) };
        assert!(skeleton.push(with_parent(parent)).is_ok());
    }
    assert_eq!(skeleton.len(), 65535);
    assert!(skeleton.push(with_parent(Some(0))).is_err());
    assert_eq!(skeleton.len(), 65535);
    for (i, bone) in skeleton.bones().iter().enumerate() {
        if let Some(p) = bone.parent {
            assert!((p as usize) < i);
        }
    }
}
