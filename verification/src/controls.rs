//! Which way the camera moves while a key is held.
use vstd::prelude::*;

verus! {

/// A key as the camera controls know it; every key without a movement is
/// `Other`.
#[derive(Clone, Copy, Debug, PartialEq, Eq, Structural)]
pub enum MoveKey {
    ShiftLeft,
    Space,
    KeyW,
    ArrowUp,
    KeyA,
    ArrowLeft,
    KeyS,
    ArrowDown,
    KeyD,
    ArrowRight,
    Other,
}

/// A direction the camera moves in.
#[derive(Clone, Copy, Debug, PartialEq, Eq, Structural)]
pub enum Movement {
    Down,
    Up,
    Forward,
    Backward,
    Left,
    Right,
}

/// The movements whose keys are held.
#[derive(Clone, Copy, Debug, PartialEq, Eq, Structural)]
pub struct MoveFlags {
    pub down: bool,
    pub up: bool,
    pub forward: bool,
    pub backward: bool,
    pub left: bool,
    pub right: bool,
}

/// The movement a key drives: left shift down, space up, W or the up
/// arrow forward, S or the down arrow backward, A or the left arrow left,
/// D or the right arrow right; no other key moves the camera.
pub open spec fn movement_of(key: MoveKey) -> Option<Movement> {
    match key {
        MoveKey::ShiftLeft => Some(Movement::Down),
        MoveKey::Space => Some(Movement::Up),
        MoveKey::KeyW | MoveKey::ArrowUp => Some(Movement::Forward),
        MoveKey::KeyA | MoveKey::ArrowLeft => Some(Movement::Left),
        MoveKey::KeyS | MoveKey::ArrowDown => Some(Movement::Backward),
        MoveKey::KeyD | MoveKey::ArrowRight => Some(Movement::Right),
        MoveKey::Other => None,
    }
}

/// `flags` with the flag of movement `m` set to `held`, the others kept.
pub open spec fn with_movement(flags: MoveFlags, m: Movement, held: bool) -> MoveFlags {
    match m {
        Movement::Down => MoveFlags { down: held, ..flags },
        Movement::Up => MoveFlags { up: held, ..flags },
        Movement::Forward => MoveFlags { forward: held, ..flags },
        Movement::Backward => MoveFlags { backward: held, ..flags },
        Movement::Left => MoveFlags { left: held, ..flags },
        Movement::Right => MoveFlags { right: held, ..flags },
    }
}

impl MoveFlags {
    /// No key held.
    pub fn new() -> (r: MoveFlags)
        ensures
            !r.down && !r.up && !r.forward && !r.backward && !r.left && !r.right,
    {
        MoveFlags { down: false, up: false, forward: false, backward: false, left: false, right: false }
    }
}

/// Records that `key` was pressed (`pressed`) or released: the flag of its
/// movement follows it. Says whether the key drives a movement; when it
/// does not, nothing changes.
pub fn apply_move_key(flags: &mut MoveFlags, key: MoveKey, pressed: bool) -> (handled: bool)
    ensures
        handled == movement_of(key) is Some,
        match movement_of(key) {
            Some(m) => *final(flags) == with_movement(*old(flags), m, pressed),
            None => *final(flags) == *old(flags),
        },
        final(flags).down == (if key == MoveKey::ShiftLeft {
            pressed
        } else {
            old(flags).down
        }),
        final(flags).up == (if key == MoveKey::Space {
            pressed
        } else {
            old(flags).up
        }),
        final(flags).forward == (if key == MoveKey::KeyW || key == MoveKey::ArrowUp {
            pressed
        } else {
            old(flags).forward
        }),
        final(flags).backward == (if key == MoveKey::KeyS || key == MoveKey::ArrowDown {
            pressed
        } else {
            old(flags).backward
        }),
        final(flags).left == (if key == MoveKey::KeyA || key == MoveKey::ArrowLeft {
            pressed
        } else {
            old(flags).left
        }),
        final(flags).right == (if key == MoveKey::KeyD || key == MoveKey::ArrowRight {
            pressed
        } else {
            old(flags).right
        }),
{
    match key {
        MoveKey::ShiftLeft => {
            flags.down = pressed;
            true
        },
        MoveKey::Space => {
            flags.up = pressed;
            true
        },
        MoveKey::KeyW | MoveKey::ArrowUp => {
            flags.forward = pressed;
            true
        },
        MoveKey::KeyA | MoveKey::ArrowLeft => {
            flags.left = pressed;
            true
        },
        MoveKey::KeyS | MoveKey::ArrowDown => {
            flags.backward = pressed;
            true
        },
        MoveKey::KeyD | MoveKey::ArrowRight => {
            flags.right = pressed;
            true
        },
        MoveKey::Other => false,
    }
}

} // verus!

verus! {

/// Each movement key moves one way only: A strafes left like the left
/// arrow and D right like the right arrow, W and the up arrow go forward,
/// S and the down arrow backward, space up and left shift down; so A and D,
/// W and S, space and shift never drive the same movement.
pub proof fn lemma_move_keys_distinct()
    ensures
        movement_of(MoveKey::KeyA) == Some(Movement::Left),
        movement_of(MoveKey::ArrowLeft) == Some(Movement::Left),
        movement_of(MoveKey::KeyD) == Some(Movement::Right),
        movement_of(MoveKey::ArrowRight) == Some(Movement::Right),
        movement_of(MoveKey::KeyW) == Some(Movement::Forward),
        movement_of(MoveKey::ArrowUp) == Some(Movement::Forward),
        movement_of(MoveKey::KeyS) == Some(Movement::Backward),
        movement_of(MoveKey::ArrowDown) == Some(Movement::Backward),
        movement_of(MoveKey::Space) == Some(Movement::Up),
        movement_of(MoveKey::ShiftLeft) == Some(Movement::Down),
        movement_of(MoveKey::Other) is None,
{
}

} // verus!
