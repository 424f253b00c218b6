use vstd::prelude::*;

use crate::keys::{Key, PressedKeys};

verus! {

/// A camera parameter that a held key changes every frame.
#[derive(Clone, Copy, Debug, PartialEq, Eq, Structural)]
pub enum Param {
    /// Translation along x.
    Horizontal,
    /// Translation along y.
    Vertical,
    /// Translation along z.
    Depth,
    /// Rotation angle about the x axis.
    RotationX,
    /// Rotation angle about the y axis.
    RotationY,
}

/// Whether a held key adds the frame time to its parameter or subtracts it.
#[derive(Clone, Copy, Debug, PartialEq, Eq, Structural)]
pub enum Direction {
    Increase,
    Decrease,
}

/// One change to apply this frame: move `param` in `direction` by the
/// frame time (times the movement speed, for a translation where the viewer
/// scales translations).
#[derive(Clone, Copy, Debug, PartialEq, Eq, Structural)]
pub struct Adjustment {
    pub param: Param,
    pub direction: Direction,
}

/// Factor by which the helicopter scene scales the frame time for the three
/// translations (rotations are not scaled).
pub const MOVEMENT_SPEED: u32 = 20;

/// The change a held key asks for, if any.
pub open spec fn key_adjustment(key: Key) -> Option<Adjustment> {
    match key {
        Key::A => Some(Adjustment { param: Param::Horizontal, direction: Direction::Increase }),
        Key::D => Some(Adjustment { param: Param::Horizontal, direction: Direction::Decrease }),
        Key::W => Some(Adjustment { param: Param::Vertical, direction: Direction::Decrease }),
        Key::S => Some(Adjustment { param: Param::Vertical, direction: Direction::Increase }),
        Key::Q => Some(Adjustment { param: Param::Depth, direction: Direction::Increase }),
        Key::E => Some(Adjustment { param: Param::Depth, direction: Direction::Decrease }),
        Key::Down => Some(Adjustment { param: Param::RotationX, direction: Direction::Increase }),
        Key::Up => Some(Adjustment { param: Param::RotationX, direction: Direction::Decrease }),
        Key::Left => Some(Adjustment { param: Param::RotationY, direction: Direction::Decrease }),
        Key::Right => Some(Adjustment { param: Param::RotationY, direction: Direction::Increase }),
        _ => None,
    }
}

/// The changes asked for by the keys of `keys`, in order, keys that ask for
/// none left out.
pub open spec fn adjustments_of(keys: Seq<Key>) -> Seq<Adjustment>
    decreases keys.len(),
{
    if keys.len() == 0 {
        Seq::empty()
    } else {
        let rest = adjustments_of(keys.drop_last());
        match key_adjustment(keys.last()) {
            Some(a) => rest.push(a),
            None => rest,
        }
    }
}

/// Whether `param` is one of the three translations.
pub open spec fn is_translation(param: Param) -> bool {
    param == Param::Horizontal || param == Param::Vertical || param == Param::Depth
}

/// The change that `key` asks for while held, if any.
pub fn key_action(key: Key) -> (action: Option<Adjustment>)
    ensures
        action == key_adjustment(key),
        key == Key::A ==> action == Some(Adjustment { param: Param::Horizontal, direction: Direction::Increase }),
        key == Key::D ==> action == Some(Adjustment { param: Param::Horizontal, direction: Direction::Decrease }),
        key == Key::W ==> action == Some(Adjustment { param: Param::Vertical, direction: Direction::Decrease }),
        key == Key::S ==> action == Some(Adjustment { param: Param::Vertical, direction: Direction::Increase }),
        key == Key::Q ==> action == Some(Adjustment { param: Param::Depth, direction: Direction::Increase }),
        key == Key::E ==> action == Some(Adjustment { param: Param::Depth, direction: Direction::Decrease }),
        key == Key::Down ==> action == Some(Adjustment { param: Param::RotationX, direction: Direction::Increase }),
        key == Key::Up ==> action == Some(Adjustment { param: Param::RotationX, direction: Direction::Decrease }),
        key == Key::Left ==> action == Some(Adjustment { param: Param::RotationY, direction: Direction::Decrease }),
        key == Key::Right ==> action == Some(Adjustment { param: Param::RotationY, direction: Direction::Increase }),
        key == Key::Escape ==> action is None,
        key matches Key::Other(_) ==> action is None,
{
    match key {
        Key::A => Some(Adjustment { param: Param::Horizontal, direction: Direction::Increase }),
        Key::D => Some(Adjustment { param: Param::Horizontal, direction: Direction::Decrease }),
        Key::W => Some(Adjustment { param: Param::Vertical, direction: Direction::Decrease }),
        Key::S => Some(Adjustment { param: Param::Vertical, direction: Direction::Increase }),
        Key::Q => Some(Adjustment { param: Param::Depth, direction: Direction::Increase }),
        Key::E => Some(Adjustment { param: Param::Depth, direction: Direction::Decrease }),
        Key::Down => Some(Adjustment { param: Param::RotationX, direction: Direction::Increase }),
        Key::Up => Some(Adjustment { param: Param::RotationX, direction: Direction::Decrease }),
        Key::Left => Some(Adjustment { param: Param::RotationY, direction: Direction::Decrease }),
        Key::Right => Some(Adjustment { param: Param::RotationY, direction: Direction::Increase }),
        _ => None,
    }
}

/// Whether `param` is one of the three translations.
pub fn param_is_translation(param: Param) -> (translation: bool)
    ensures
        translation == is_translation(param),
{
    match param {
        Param::Horizontal | Param::Vertical | Param::Depth => true,
        _ => false,
    }
}

/// The changes to apply this frame, one for each held key that asks for
/// one, in the order the keys were pressed.
pub fn frame_adjustments(keys: &PressedKeys) -> (adjustments: Vec<Adjustment>)
    ensures
        adjustments@ == adjustments_of(keys@),
        adjustments@ == keys@.filter(|k: Key| key_adjustment(k) is Some).map_values(
            |k: Key| key_adjustment(k)->0,
        ),
{
    let held = keys.as_slice();
    let n = held.len();
    let mut out: Vec<Adjustment> = Vec::new();
    let mut i: usize = 0;
    while i < n
        invariant
            n == held@.len(),
            i <= n,
            out@ == adjustments_of(held@.take(i as int)),
        decreases n - i,
    {
        assert(held@.take(i as int + 1).drop_last() =~= held@.take(i as int));
        assert(held@.take(i as int + 1).last() == held@[i as int]);
        match key_action(held[i]) {
            Some(a) => out.push(a),
            None => {},
        }
        i = i + 1;
    }
    assert(held@.take(n as int) =~= held@);
    proof {
        law_adjustments_follow_held_keys(keys@);
    }
    out
}

} // verus!

verus! {

/// Two different keys that change the same parameter change it in opposite
/// directions.
pub proof fn law_keys_pair_up(k1: Key, k2: Key)
    requires
        k1 != k2,
        key_adjustment(k1) is Some,
        key_adjustment(k2) is Some,
        key_adjustment(k1)->0.param == key_adjustment(k2)->0.param,
    ensures
        key_adjustment(k1)->0.direction != key_adjustment(k2)->0.direction,
{
}

/// Every parameter has one key that increases it and one that decreases it.
pub proof fn law_every_param_both_ways(param: Param)
    ensures
        exists|up: Key|
            key_adjustment(up) == Some(Adjustment { param, direction: Direction::Increase }),
        exists|down: Key|
            key_adjustment(down) == Some(Adjustment { param, direction: Direction::Decrease }),
{
    let (up, down) = match param {
        Param::Horizontal => (Key::A, Key::D),
        Param::Vertical => (Key::S, Key::W),
        Param::Depth => (Key::Q, Key::E),
        Param::RotationX => (Key::Down, Key::Up),
        Param::RotationY => (Key::Right, Key::Left),
    };
    assert(key_adjustment(up) == Some(Adjustment { param, direction: Direction::Increase }));
    assert(key_adjustment(down) == Some(Adjustment { param, direction: Direction::Decrease }));
}

/// Each held key gives at most one change, so a frame never has more
/// changes than held keys.
pub proof fn law_adjustments_bounded(keys: Seq<Key>)
    ensures
        adjustments_of(keys).len() <= keys.len(),
    decreases keys.len(),
{
    if keys.len() > 0 {
        law_adjustments_bounded(keys.drop_last());
    }
}

} // verus!

verus! {

/// The changes of a frame are exactly the changes of the held keys that
/// ask for one, one each, in press order: no such key is skipped or merged.
pub proof fn law_adjustments_follow_held_keys(keys: Seq<Key>)
    ensures
        adjustments_of(keys) == keys.filter(|k: Key| key_adjustment(k) is Some).map_values(
            |k: Key| key_adjustment(k)->0,
        ),
    decreases keys.len(),
{
    let has = |k: Key| key_adjustment(k) is Some;
    let act = |k: Key| key_adjustment(k)->0;
    reveal_with_fuel(Seq::filter, 1);
    if keys.len() == 0 {
        assert(keys.filter(has) =~= Seq::<Key>::empty());
        assert(keys.filter(has).map_values(act) =~= Seq::<Adjustment>::empty());
    } else {
        law_adjustments_follow_held_keys(keys.drop_last());
        let f = keys.drop_last().filter(has);
        if has(keys.last()) {
            assert(keys.filter(has) == f.push(keys.last()));
            assert(f.push(keys.last()).map_values(act) =~= f.map_values(act).push(act(keys.last())));
        } else {
            assert(keys.filter(has) == f);
        }
    }
}

} // verus!
