use voxel_engine::controls::{apply_move_key, MoveFlags, MoveKey};

#[test]
fn test_move_keys_set_and_clear_their_flag() {
    let mut flags = MoveFlags::new();
    assert!(apply_move_key(&mut flags, MoveKey::KeyW, true));
    assert!(flags.forward);
    assert!(apply_move_key(&mut flags, MoveKey::ArrowLeft, true));
    assert!(flags.left && flags.forward);
    assert!(apply_move_key(&mut flags, MoveKey::ArrowUp, false));
    assert!(!flags.forward && flags.left);
    assert!(apply_move_key(&mut flags, MoveKey::ShiftLeft, true));
    assert!(apply_move_key(&mut flags, MoveKey::Space, true));
    assert!(apply_move_key(&mut flags, MoveKey::KeyS, true));
    assert!(apply_move_key(&mut flags, MoveKey::KeyD, true));
    assert_eq!(
        flags,
        MoveFlags { down: true, up: true, forward: false, backward: true, left: true, right: true }
    );
}

#[test]
fn test_other_keys_change_nothing() {
    let mut flags = MoveFlags::new();
    flags.up = true;
    let before = flags;
    assert!(!apply_move_key(&mut flags, MoveKey::Other, true));
    assert_eq!(flags, before);
}
