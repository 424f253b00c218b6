use gloom::controls::{frame_adjustments, key_action, param_is_translation, Adjustment, Direction, Param, MOVEMENT_SPEED};
use gloom::events::{handle_input, Flow, KeyState, WindowInput};
use gloom::keys::{Key, PressedKeys};

#[test]
fn press_adds_once() {
    let mut keys = PressedKeys::new();
    keys.press(Key::A);
    keys.press(Key::W);
    keys.press(Key::A);
    assert_eq!(keys.as_slice(), &[Key::A, Key::W]);
    assert_eq!(keys.len(), 2);
    assert!(keys.contains(Key::W));
    assert!(!keys.contains(Key::D));
}

#[test]
fn release_removes_and_keeps_order() {
    let mut keys = PressedKeys::new();
    keys.press(Key::A);
    keys.press(Key::W);
    keys.press(Key::Other(42));
    keys.release(Key::W);
    assert_eq!(keys.as_slice(), &[Key::A, Key::Other(42)]);
    keys.release(Key::W);
    assert_eq!(keys.as_slice(), &[Key::A, Key::Other(42)]);
    keys.release(Key::Other(41));
    assert_eq!(keys.len(), 2);
}

#[test]
fn press_release_roundtrip() {
    let mut keys = PressedKeys::new();
    keys.press(Key::Left);
    keys.press(Key::Q);
    keys.release(Key::Q);
    assert_eq!(keys.as_slice(), &[Key::Left]);
}

#[test]
fn key_actions_table() {
    let up = Direction::Increase;
    let down = Direction::Decrease;
    let expect = [
        (Key::A, Param::Horizontal, up),
        (Key::D, Param::Horizontal, down),
        (Key::W, Param::Vertical, down),
        (Key::S, Param::Vertical, up),
        (Key::Q, Param::Depth, up),
        (Key::E, Param::Depth, down),
        (Key::Down, Param::RotationX, up),
        (Key::Up, Param::RotationX, down),
        (Key::Left, Param::RotationY, down),
        (Key::Right, Param::RotationY, up),
    ];
    for (key, param, direction) in expect {
        assert_eq!(key_action(key), Some(Adjustment { param, direction }));
    }
    assert_eq!(key_action(Key::Escape), None);
    assert_eq!(key_action(Key::Other(7)), None);
}

#[test]
fn translations_are_scaled() {
    assert!(param_is_translation(Param::Horizontal));
    assert!(param_is_translation(Param::Vertical));
    assert!(param_is_translation(Param::Depth));
    assert!(!param_is_translation(Param::RotationX));
    assert!(!param_is_translation(Param::RotationY));
    assert_eq!(MOVEMENT_SPEED, 20);
}

#[test]
fn frame_adjustments_in_press_order() {
    let mut keys = PressedKeys::new();
    keys.press(Key::Right);
    keys.press(Key::Escape);
    keys.press(Key::A);
    let adjustments = frame_adjustments(&keys);
    assert_eq!(
        adjustments,
        vec![
            Adjustment { param: Param::RotationY, direction: Direction::Increase },
            Adjustment { param: Param::Horizontal, direction: Direction::Increase },
        ]
    );
    assert!(frame_adjustments(&PressedKeys::new()).is_empty());
}

#[test]
fn escape_exits_on_press_and_release() {
    let mut keys = PressedKeys::new();
    let flow = handle_input(&mut keys, true, WindowInput::Keyboard { state: KeyState::Pressed, key: Key::Escape });
    assert_eq!(flow, Flow::Exit);
    assert!(keys.contains(Key::Escape));
    let flow = handle_input(&mut keys, true, WindowInput::Keyboard { state: KeyState::Released, key: Key::Escape });
    assert_eq!(flow, Flow::Exit);
    assert!(!keys.contains(Key::Escape));
}

#[test]
fn close_request_exits() {
    let mut keys = PressedKeys::new();
    assert_eq!(handle_input(&mut keys, true, WindowInput::CloseRequested), Flow::Exit);
    assert_eq!(keys.len(), 0);
}

#[test]
fn dead_render_thread_exits() {
    let mut keys = PressedKeys::new();
    assert_eq!(handle_input(&mut keys, false, WindowInput::Other), Flow::Exit);
    let flow = handle_input(&mut keys, false, WindowInput::Keyboard { state: KeyState::Pressed, key: Key::A });
    assert_eq!(flow, Flow::Exit);
    assert!(keys.contains(Key::A));
}

#[test]
fn ordinary_keys_wait() {
    let mut keys = PressedKeys::new();
    let flow = handle_input(&mut keys, true, WindowInput::Keyboard { state: KeyState::Pressed, key: Key::W });
    assert_eq!(flow, Flow::Wait);
    assert_eq!(keys.as_slice(), &[Key::W]);
    let flow = handle_input(&mut keys, true, WindowInput::Keyboard { state: KeyState::Released, key: Key::W });
    assert_eq!(flow, Flow::Wait);
    assert_eq!(keys.len(), 0);
    assert_eq!(handle_input(&mut keys, true, WindowInput::Other), Flow::Wait);
}
