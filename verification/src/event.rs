use vstd::prelude::*;

verus! {

/// The event envelope handed to every handler: either a payload or an
/// explicit "missing" marker. It is immutable once constructed; handlers
/// receive read access only, or an owned duplicate when a pass needs
/// per-shard isolation of the payload.
#[derive(Clone)]
pub enum Event<P> {
    Args(P),
    Missing,
}

/// A caller-supplied handler callback.
///
/// Two ghost logs record what the handler has seen and answered: `received`
/// holds every envelope it was ever invoked with, in order, and `outcomes`
/// the boolean it returned each time. Every call of `invoke` appends the
/// envelope it was handed to `received` and its own return value to
/// `outcomes`, so the dispatch contracts can state which handlers ran, how
/// often, with which event, and how the reported result follows from what
/// the handlers returned. `invoke` returns `true` on success and `false` on
/// failure.
///
/// The default ghost logs are left unspecified; an implementation verified
/// under Verus gives them bodies of its own and proves `invoke` against
/// them, while an unverified implementation simply inherits the defaults.
pub trait Handler<P> {
    open spec fn received(&self) -> Seq<Event<P>> {
        arbitrary()
    }

    open spec fn outcomes(&self) -> Seq<bool> {
        arbitrary()
    }

    fn invoke(&mut self, event: &Event<P>) -> (ok: bool)
        ensures
            final(self).received() == old(self).received().push(*event),
            final(self).outcomes() == old(self).outcomes().push(ok),
    ;
}

} // verus!
