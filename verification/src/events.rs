use vstd::prelude::*;

use crate::keys::{Key, PressedKeys, pressed, released};

verus! {

/// Whether a key went down or came up.
#[derive(Clone, Copy, Debug, PartialEq, Eq, Structural)]
pub enum KeyState {
    Pressed,
    Released,
}

/// A window event, as far as the viewer's decisions depend on it.
#[derive(Clone, Copy, Debug, PartialEq, Eq, Structural)]
pub enum WindowInput {
    /// The user asked to close the window.
    CloseRequested,
    /// A key with a known key code went down or came up.
    Keyboard { state: KeyState, key: Key },
    /// Any other event (mouse motion included: its effect is on floating
    /// point deltas, kept by the caller).
    Other,
}

/// What the event loop does after an event.
#[derive(Clone, Copy, Debug, PartialEq, Eq, Structural)]
pub enum Flow {
    /// Wait for the next event.
    Wait,
    /// Leave the event loop.
    Exit,
}

/// The held keys after `input`.
pub open spec fn keys_after(keys: Seq<Key>, input: WindowInput) -> Seq<Key> {
    match input {
        WindowInput::Keyboard { state: KeyState::Pressed, key } => pressed(keys, key),
        WindowInput::Keyboard { state: KeyState::Released, key } => released(keys, key),
        _ => keys,
    }
}

/// Whether the loop ends after `input`: the render thread died, the window
/// is closed, or Escape went down or up.
pub open spec fn exits_after(render_healthy: bool, input: WindowInput) -> bool {
    ||| !render_healthy
    ||| input == WindowInput::CloseRequested
    ||| input matches WindowInput::Keyboard { key: Key::Escape, .. }
}

/// Handles one window event: updates the held keys and says whether the
/// event loop goes on. `render_healthy` is false once the render thread
/// has died.
pub fn handle_input(keys: &mut PressedKeys, render_healthy: bool, input: WindowInput) -> (flow:
    Flow)
    ensures
        final(keys)@ == keys_after(old(keys)@, input),
        (flow == Flow::Exit) == exits_after(render_healthy, input),
        render_healthy && input == WindowInput::Other ==> flow == Flow::Wait,
        forall|state: KeyState, key: Key|
            render_healthy && key != Key::Escape && input == (WindowInput::Keyboard { state, key })
                ==> flow == Flow::Wait,
        !render_healthy ==> flow == Flow::Exit,
        input == WindowInput::CloseRequested ==> flow == Flow::Exit,
        forall|state: KeyState|
            input == (WindowInput::Keyboard { state, key: Key::Escape }) ==> flow == Flow::Exit,
        forall|state: KeyState, key: Key|
            input == (WindowInput::Keyboard { state, key }) ==> final(keys)@ == (match state {
                KeyState::Pressed => pressed(old(keys)@, key),
                KeyState::Released => released(old(keys)@, key),
            }),
        !(input is Keyboard) ==> final(keys)@ == old(keys)@,
{
    let mut flow = Flow::Wait;
    if !render_healthy {
        flow = Flow::Exit;
    }
    match input {
        WindowInput::CloseRequested => {
            flow = Flow::Exit;
        },
        WindowInput::Keyboard { state, key } => {
            match state {
                KeyState::Released => {
                    keys.release(key);
                },
                KeyState::Pressed => {
                    keys.press(key);
                },
            }
            match key {
                Key::Escape => {
                    flow = Flow::Exit;
                },
                _ => {},
            }
        },
        WindowInput::Other => {},
    }
    flow
}

} // verus!

verus! {

/// Escape ends the loop whether it goes down or up, and so does a close
/// request, whatever the state of the render thread.
pub proof fn law_escape_and_close_exit(render_healthy: bool, state: KeyState)
    ensures
        exits_after(render_healthy, WindowInput::Keyboard { state, key: Key::Escape }),
        exits_after(render_healthy, WindowInput::CloseRequested),
{
}

/// Once the render thread has died, every event ends the loop.
pub proof fn law_dead_render_thread_exits(input: WindowInput)
    ensures
        exits_after(false, input),
{
}

/// Only keyboard events change the held keys; a key that goes down and
/// comes up again leaves them as they were before.
pub proof fn law_key_tap_restores(keys: Seq<Key>, key: Key)
    requires
        !keys.contains(key),
    ensures
        keys_after(
            keys_after(keys, WindowInput::Keyboard { state: KeyState::Pressed, key }),
            WindowInput::Keyboard { state: KeyState::Released, key },
        ) == keys,
        keys_after(keys, WindowInput::CloseRequested) == keys,
        keys_after(keys, WindowInput::Other) == keys,
{
    crate::keys::law_press_release_roundtrip(keys, key);
}

} // verus!

verus! {

/// While the render thread runs, only Escape and a close request end the
/// loop: every other key, pressed or released, and every other event keeps
/// it waiting.
pub proof fn law_other_inputs_wait(state: KeyState, key: Key)
    ensures
        key != Key::Escape ==> !exits_after(true, WindowInput::Keyboard { state, key }),
        !exits_after(true, WindowInput::Other),
{
}

} // verus!
