use vstd::prelude::*;

verus! {

/// An opaque subscription token.
///
/// A token is issued by `EventPublisher::subscribe_handler` and is the only
/// valid key for `unsubscribe_handler`. It pairs the issuing publisher's
/// identity with a per-publisher counter value, so a token names one
/// subscription of one publisher: within one publisher no two subscriptions
/// ever receive the same value, even across intervening removals (the
/// counter never goes back), and a token of one publisher is rejected by
/// every publisher with a different identity, whatever its value.
///
/// The view of a token is the pair `(origin, value)`.
#[derive(Clone, Copy, PartialEq, Eq, Structural, Debug)]
pub struct Token {
    origin: u64,
    value: u64,
}

impl View for Token {
    type V = (u64, u64);

    closed spec fn view(&self) -> (u64, u64) {
        (self.origin, self.value)
    }
}

impl Token {
    pub(crate) fn of_raw(origin: u64, value: u64) -> (t: Token)
        ensures
            t@ == (origin, value),
    {
        Token { origin, value }
    }

    pub(crate) fn origin_raw(&self) -> (origin: u64)
        ensures
            origin == self@.0,
    {
        self.origin
    }

    pub(crate) fn value_raw(&self) -> (value: u64)
        ensures
            value == self@.1,
    {
        self.value
    }
}

} // verus!
