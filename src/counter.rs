use vstd::prelude::*;

verus! {

/// A counter that buttons step up and down.
#[derive(Default, Debug)]
pub struct State {
    pub value: i64,
}

/// A press on one of the counter's buttons.
#[derive(Debug, Clone, Copy, PartialEq, Eq, Structural)]
pub enum Action {
    Increment,
    Decrement,
}

impl State {
    /// Steps the counter by one in the direction of `message`.
    pub fn update(&mut self, message: Action)
        requires
            message == Action::Increment ==> old(self).value < i64::MAX,
            message == Action::Decrement ==> old(self).value > i64::MIN,
        ensures
            final(self).value == old(self).value + match message {
                Action::Increment => 1int,
                Action::Decrement => -1int,
            },
    {
        match message {
            Action::Increment => {
                self.value += 1;
            },
            Action::Decrement => {
                self.value -= 1;
            },
        }
    }
}

} // verus!
