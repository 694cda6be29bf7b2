//! Input events and the loop-control state machine.
//!
//! The simulation loop has two states, running and terminated, and a single
//! transition: a quit request, the escape key or the letter Q pressed, ends
//! the run. The decision is made here on plain event values; the window
//! layer only translates its own event type into [`InputEvent`].

use vstd::prelude::*;

verus! {

/// The keys the simulation distinguishes: the two quit keys, and everything
/// else.
#[derive(Clone, Copy, PartialEq, Eq, Structural, Debug)]
pub enum Key {
    Escape,
    Q,
    Other,
}

/// One input event, as the simulation sees it: a quit request from the
/// window, a key press, or anything else (ignored).
#[derive(Clone, Copy, PartialEq, Eq, Structural, Debug)]
pub enum InputEvent {
    Quit,
    KeyDown(Key),
    Other,
}

/// The two states of the simulation loop.
#[derive(Clone, Copy, PartialEq, Eq, Structural, Debug)]
pub enum LoopState {
    Running,
    Terminated,
}

/// True for the events that end the run: a quit request, escape, or Q.
pub open spec fn is_quit_spec(e: InputEvent) -> bool {
    match e {
        InputEvent::Quit => true,
        InputEvent::KeyDown(k) => k == Key::Escape || k == Key::Q,
        InputEvent::Other => false,
    }
}

/// Decides whether one event ends the run.
pub fn is_quit_event(e: &InputEvent) -> (r: bool)
    ensures
        r == is_quit_spec(*e),
{
    match e {
        InputEvent::Quit => true,
        InputEvent::KeyDown(k) => match k {
            Key::Escape => true,
            Key::Q => true,
            Key::Other => false,
        },
        InputEvent::Other => false,
    }
}

/// Drains one poll's worth of events: true exactly when some event in the
/// batch is a quit trigger.
pub fn should_quit(events: &Vec<InputEvent>) -> (r: bool)
    ensures
        r == exists|i: int| 0 <= i < events@.len() && is_quit_spec(events@[i]),
{
    let mut k: usize = 0;
    while k < events.len()
        invariant
            k <= events@.len(),
            forall|i: int| 0 <= i < k ==> !is_quit_spec(events@[i]),
        decreases events@.len() - k,
    {
        if is_quit_event(&events[k]) {
            return true;
        }
        k = k + 1;
    }
    false
}

/// Advances the loop state on one poll of events: running becomes terminated
/// exactly when the batch holds a quit trigger; terminated stays terminated.
pub fn step_control(state: LoopState, events: &Vec<InputEvent>) -> (next: LoopState)
    ensures
        next == LoopState::Terminated <==> (state == LoopState::Terminated || exists|i: int|
            0 <= i < events@.len() && is_quit_spec(events@[i])),
{
    match state {
        LoopState::Terminated => LoopState::Terminated,
        LoopState::Running => {
            if should_quit(events) {
                LoopState::Terminated
            } else {
                LoopState::Running
            }
        },
    }
}

} // verus!
