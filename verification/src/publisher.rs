use vstd::prelude::*;
use vstd::arithmetic::div_mod::lemma_fundamental_div_mod;
use vstd::arithmetic::div_mod::lemma_fundamental_div_mod_converse_div;
use vstd::arithmetic::div_mod::lemma_fundamental_div_mod_converse_mod;
use vstd::arithmetic::div_mod::lemma_mod_division_less_than_divisor;
use vstd::arithmetic::mul::lemma_mul_inequality;
use crate::event::Event;
use crate::event::Handler;
use crate::failure::HandlerFailure;
use crate::failure::ShardFailure;
use crate::shard::delivery_outcome;
use crate::shard::failed_at;
use crate::shard::fails_of;
use crate::shard::min_int;
use crate::shard::runs;
use crate::shard::shard_count;
use crate::shard::shard_count_spec;
use crate::token::Token;

verus! {

/// Whether the registry model `s` holds an entry keyed by token value `t`.
pub open spec fn has_token<H>(s: Seq<(u64, H)>, t: u64) -> bool {
    exists|i: int| 0 <= i < s.len() && s[i].0 == t
}

/// The handler registry and identity allocator.
///
/// The registry owns all active subscriptions as (token value, handler)
/// entries, kept in token issuance order, which is also the delivery order of
/// every publish pass. Token values are issued from `next_token`, which only
/// ever grows, so no two subscriptions of one publisher ever share a token.
/// Each publisher also carries an identity (`origin`) stamped into every
/// token it issues; `unsubscribe_handler` accepts a token only when its
/// identity matches, so a token of another publisher is rejected whatever
/// its value.
pub struct EventPublisher<H> {
    pub(crate) entries: Vec<(u64, H)>,
    pub(crate) next_token: u64,
    pub(crate) origin: u64,
}

impl<H> View for EventPublisher<H> {
    type V = Seq<(u64, H)>;

    closed spec fn view(&self) -> Seq<(u64, H)> {
        self.entries@
    }
}

impl<H> EventPublisher<H> {
    /// How many token values this publisher has issued so far; every live
    /// token value is below it.
    pub closed spec fn issued(&self) -> u64 {
        self.next_token
    }

    /// This publisher's identity: the first component of every token it
    /// issues.
    pub closed spec fn origin(&self) -> u64 {
        self.origin
    }

    /// The registry invariant: entries are strictly ordered by token value
    /// (issuance order) and every stored token value is below the issue
    /// counter.
    pub closed spec fn wf(&self) -> bool {
        &&& forall|i: int, j: int| 0 <= i < j < self@.len() ==> self@[i].0 < self@[j].0
        &&& forall|i: int| 0 <= i < self@.len() ==> self@[i].0 < self.issued()
    }

    /// Creates a publisher with an empty registry, a reset token counter
    /// and a fresh identity.
    pub fn new() -> (p: EventPublisher<H>)
        ensures
            p.wf(),
            p@ == Seq::<(u64, H)>::empty(),
            p.issued() == 0,
    {
        EventPublisher { entries: Vec::new(), next_token: 0, origin: fresh_origin() }
    }

    /// The current number of live subscriptions.
    pub fn handler_count(&self) -> (n: usize)
        ensures
            n == self@.len(),
    {
        self.entries.len()
    }

    /// Registers a handler and returns the fresh token that identifies the
    /// new subscription. The token carries this publisher's identity and a
    /// value equal to the issue counter at call time, so it differs from
    /// every token this publisher has ever issued.
    pub fn subscribe_handler(&mut self, handler: H) -> (t: Token)
        requires
            old(self).wf(),
            old(self).issued() < u64::MAX,
        ensures
            final(self).wf(),
            t@ == (old(self).origin(), old(self).issued()),
            final(self).origin() == old(self).origin(),
            final(self).issued() == old(self).issued() + 1,
            final(self)@ == old(self)@.push((t@.1, handler)),
            !has_token(old(self)@, t@.1),
    {
        let value = self.next_token;
        let t = Token::of_raw(self.origin, value);
        self.entries.push((value, handler));
        self.next_token = value + 1;
        proof {
            assert forall|i: int, j: int| 0 <= i < j < self@.len() implies self@[i].0
                < self@[j].0 by {
                if j + 1 == self@.len() {
                    assert(self@[i] == old(self)@[i]);
                    assert(old(self)@[i].0 < old(self).issued());
                } else {
                    assert(self@[i] == old(self)@[i]);
                    assert(self@[j] == old(self)@[j]);
                }
            }
        }
        t
    }

    /// Removes the subscription identified by `token`, if it is live.
    /// Returns true iff the token carries this publisher's identity and an
    /// entry with its value exists; on false no state changes. A dead
    /// token, and a token issued by a publisher with a different identity
    /// whatever its value, is rejected without any mutation.
    pub fn unsubscribe_handler(&mut self, token: Token) -> (removed: bool)
        requires
            old(self).wf(),
        ensures
            final(self).wf(),
            final(self).issued() == old(self).issued(),
            final(self).origin() == old(self).origin(),
            removed == (token@.0 == old(self).origin() && has_token(old(self)@, token@.1)),
            !removed ==> final(self)@ == old(self)@,
            removed ==> exists|i: int|
                0 <= i < old(self)@.len() && old(self)@[i].0 == token@.1
                    && final(self)@ == old(self)@.remove(i),
            removed ==> !has_token(final(self)@, token@.1),
    {
        if token.origin_raw() != self.origin {
            return false;
        }
        let n = self.entries.len();
        let mut i: usize = 0;
        while i < n
            invariant
                old(self).wf(),
                token@.0 == old(self).origin(),
                n == self@.len(),
                i <= n,
                *self == *old(self),
                forall|j: int| 0 <= j < i ==> self@[j].0 != token@.1,
            decreases n - i,
        {
            if self.entries[i].0 == token.value_raw() {
                self.entries.remove(i);
                proof {
                    old(self)@.remove_ensures(i as int);
                    assert forall|a: int, b: int| 0 <= a < b < self@.len() implies self@[a].0
                        < self@[b].0 by {
                        if a < i {
                            assert(self@[a] == old(self)@[a]);
                        } else {
                            assert(self@[a] == old(self)@[a + 1]);
                        }
                        if b < i {
                            assert(self@[b] == old(self)@[b]);
                        } else {
                            assert(self@[b] == old(self)@[b + 1]);
                        }
                    }
                    assert forall|b: int| 0 <= b < self@.len() implies (#[trigger] self@[b]).0
                        != token@.1 by {
                        if b < i {
                            assert(self@[b] == old(self)@[b]);
                        } else {
                            assert(self@[b] == old(self)@[b + 1]);
                            assert(old(self)@[i as int].0 < old(self)@[b + 1].0);
                        }
                    }
                }
                return true;
            }
            i = i + 1;
        }
        false
    }

    /// Sequential dispatch: delivers `event` to every live handler, in token
    /// issuance order, on the calling execution context, stopping at the
    /// first failure (fail-fast).
    ///
    /// The contract ties the result to what the handlers actually saw and
    /// answered, through the ghost logs of `Handler`. On `Ok` every handler
    /// has run exactly once, received exactly this envelope, and returned
    /// true. On `Err` the report names the failing subscription's token and
    /// how many handlers ran before it: those ran exactly once and returned
    /// true, the failing one ran exactly once and returned false, and the
    /// handlers after it are untouched. So a failure is reported iff a
    /// handler returned false, and the first such handler is the one named.
    /// With an empty registry the call returns `Ok` and runs nothing.
    ///
    /// The pass works on the registry as it stood when the call began: the
    /// publisher is exclusively borrowed for the whole pass, so no
    /// subscription can be added or removed while it runs, and the set of
    /// live tokens is returned unchanged.
    pub fn publish_event<P>(&mut self, event: &Event<P>) -> (r: Result<(), HandlerFailure>) where
        H: Handler<P>
        requires
            old(self).wf(),
        ensures
            final(self).wf(),
            final(self).issued() == old(self).issued(),
            final(self).origin() == old(self).origin(),
            final(self)@.len() == old(self)@.len(),
            forall|i: int| 0 <= i < old(self)@.len() ==> final(self)@[i].0 == old(self)@[i].0,
            old(self)@.len() == 0 ==> r is Ok,
            match r {
                Ok(()) => forall|i: int|
                    0 <= i < old(self)@.len() ==> final(self)@[i].1.received() == old(
                        self,
                    )@[i].1.received().push(*event) && final(self)@[i].1.outcomes() == old(
                        self,
                    )@[i].1.outcomes().push(true),
                Err(f) => {
                    &&& f.completed < old(self)@.len()
                    &&& f.token@ == (old(self).origin(), old(self)@[f.completed as int].0)
                    &&& forall|i: int|
                        0 <= i < f.completed ==> final(self)@[i].1.received() == old(
                            self,
                        )@[i].1.received().push(*event) && final(self)@[i].1.outcomes() == old(
                            self,
                        )@[i].1.outcomes().push(true)
                    &&& final(self)@[f.completed as int].1.received() == old(
                        self,
                    )@[f.completed as int].1.received().push(*event)
                    &&& final(self)@[f.completed as int].1.outcomes() == old(
                        self,
                    )@[f.completed as int].1.outcomes().push(false)
                    &&& forall|i: int|
                        f.completed < i < old(self)@.len() ==> final(self)@[i].1 == old(
                            self,
                        )@[i].1
                },
            },
    {
        let n = self.entries.len();
        let mut i: usize = 0;
        while i < n
            invariant
                old(self).wf(),
                n == self@.len(),
                self@.len() == old(self)@.len(),
                i <= n,
                self.issued() == old(self).issued(),
                self.origin() == old(self).origin(),
                forall|j: int| 0 <= j < n ==> self@[j].0 == old(self)@[j].0,
                forall|j: int|
                    0 <= j < i ==> self@[j].1.received() == old(self)@[j].1.received().push(
                        *event,
                    ) && self@[j].1.outcomes() == old(self)@[j].1.outcomes().push(true),
                forall|j: int| i <= j < n ==> self@[j].1 == old(self)@[j].1,
            decreases n - i,
        {
            let token_value = self.entries[i].0;
            let entry = &mut self.entries[i];
            let ok = entry.1.invoke(event);
            if !ok {
                proof {
                    lemma_wf_same_tokens(old(self), self);
                }
                return Err(
                    HandlerFailure { token: Token::of_raw(self.origin, token_value), completed: i },
                );
            }
            i = i + 1;
        }
        proof {
            lemma_wf_same_tokens(old(self), self);
        }
        Ok(())
    }

    /// Sharded dispatch under an explicit worker bound: splits the registry
    /// round-robin across `min(handler_count, workers)` shards (at least
    /// one) and runs every shard's handlers in slot order. A handler
    /// failure (a handler returning false) aborts only its own shard's
    /// remaining slots (fail-fast per shard); every failure is kept and the
    /// whole set is reported together, in shard order, after all shards
    /// have run, and none is invented: `delivery_outcome` ties each
    /// reported failure to a handler that returned false at that shard's
    /// slot, and `Ok` to every handler having run once with this envelope
    /// and returned true. With a single shard the pass degrades to the
    /// sequential one.
    pub fn publish_event_sharded<P>(&mut self, event: &Event<P>, workers: usize) -> (r: Result<
        (),
        Vec<ShardFailure>,
    >) where H: Handler<P>
        requires
            old(self).wf(),
            1 <= workers,
        ensures
            final(self).wf(),
            final(self).issued() == old(self).issued(),
            final(self).origin() == old(self).origin(),
            delivery_outcome::<P, H>(
                old(self)@,
                final(self)@,
                fails_of(r),
                *event,
                old(self).origin(),
                shard_count_spec(old(self)@.len() as int, workers as int),
            ),
            r is Err ==> fails_of(r).len() > 0,
            old(self)@.len() == 0 ==> r is Ok,
    {
        let len = self.entries.len();
        let n = shard_count(len, workers);
        if n <= 1 {
            let seq_result = self.publish_event(event);
            proof {
                assert forall|i: int| 0 <= i implies #[trigger] (i % 1) == 0 && i / 1 == i by {
                    lemma_fundamental_div_mod_converse_mod(i, 1, i, 0);
                    lemma_fundamental_div_mod_converse_div(i, 1, i, 0);
                }
            }
            match seq_result {
                Ok(()) => {
                    proof {
                        let empty = Seq::<ShardFailure>::empty();
                        assert forall|i: int| 0 <= i < old(self)@.len() implies !failed_at(
                            empty,
                            1,
                            i,
                        ) by {}
                    }
                    Ok(())
                },
                Err(f) => {
                    let mut fails: Vec<ShardFailure> = Vec::new();
                    fails.push(ShardFailure { shard: 0, token: f.token, completed: f.completed });
                    proof {
                        assert(fails@.len() == 1);
                        assert((fails@[0].shard as int) == 0);
                        assert((f.completed as int) * 1 == f.completed as int);
                        assert forall|i: int|
                            0 <= i < old(self)@.len() && runs(fails@, 1, i) && !failed_at(
                                fails@,
                                1,
                                i,
                            ) implies (#[trigger] self@[i]).1.received() == old(
                        self)@[i].1.received().push(*event) && self@[i].1.outcomes() == old(
                        self)@[i].1.outcomes().push(true) by {
                            assert((fails@[0].shard as int) == i % 1);
                            assert(i / 1 <= f.completed as int);
                            assert(i != f.completed as int);
                            assert(i < f.completed as int);
                        }
                        assert forall|i: int|
                            0 <= i < old(self)@.len() && failed_at(fails@, 1, i) implies (
                        #[trigger] self@[i]).1.received() == old(self)@[i].1.received().push(
                        *event) && self@[i].1.outcomes() == old(self)@[i].1.outcomes().push(
                        false) by {
                            assert(i / 1 == f.completed as int);
                            assert(i == f.completed as int);
                        }
                        assert forall|i: int|
                            0 <= i < old(self)@.len() && !runs(fails@, 1, i) implies (
                        #[trigger] self@[i]).1 == old(self)@[i].1 by {
                            if i <= f.completed as int {
                                assert forall|k: int|
                                    0 <= k < fails@.len() && ((#[trigger] fails@[k]).shard as int)
                                        == i % 1 implies i / 1 <= (fails@[k].completed as int) by {
                                    assert(k == 0);
                                }
                                assert(runs(fails@, 1, i));
                            }
                            assert(i > f.completed as int);
                        }
                    }
                    Err(fails)
                },
            }
        } else {
            self.publish_event_shards(event, len, n)
        }
    }

    /// Runs the round-robin pass for `publish_event_sharded` once at least
    /// two shards are in play: shard `j` holds the snapshot indices `j`,
    /// `j + n`, `j + 2n`, ... and runs them in that order, stopping at its
    /// own first failure only.
    fn publish_event_shards<P>(&mut self, event: &Event<P>, len: usize, n: usize) -> (r: Result<
        (),
        Vec<ShardFailure>,
    >) where H: Handler<P>
        requires
            old(self).wf(),
            len == old(self)@.len(),
            2 <= n <= len,
        ensures
            final(self).wf(),
            final(self).issued() == old(self).issued(),
            final(self).origin() == old(self).origin(),
            delivery_outcome::<P, H>(
                old(self)@,
                final(self)@,
                fails_of(r),
                *event,
                old(self).origin(),
                n as int,
            ),
            r is Err ==> fails_of(r).len() > 0,
    {
        let mut fails: Vec<ShardFailure> = Vec::new();
        let mut j: usize = 0;
        while j < n
            invariant
                old(self).wf(),
                2 <= n <= len,
                len == self@.len(),
                self@.len() == old(self)@.len(),
                j <= n,
                self.issued() == old(self).issued(),
                self.origin() == old(self).origin(),
                forall|q: int| 0 <= q < len ==> (#[trigger] self@[q]).0 == old(self)@[q].0,
                forall|k1: int, k2: int|
                    0 <= k1 < k2 < fails@.len() ==> (#[trigger] fails@[k1]).shard < (
                    #[trigger] fails@[k2]).shard,
                forall|k: int|
                    0 <= k < fails@.len() ==> ((#[trigger] fails@[k]).shard as int) < j,
                forall|k: int|
                    0 <= k < fails@.len() ==> {
                        let gi = ((#[trigger] fails@[k]).shard as int) + (
                        fails@[k].completed as int) * (n as int);
                        &&& 0 <= gi < len
                        &&& fails@[k].token@ == (old(self).origin(), old(self)@[gi].0)
                    },
                forall|i: int|
                    0 <= i < len && #[trigger] (i % (n as int)) < j && runs(fails@, n as int, i)
                        && !failed_at(fails@, n as int, i) ==> self@[i].1.received() == old(
                        self,
                    )@[i].1.received().push(*event) && self@[i].1.outcomes() == old(
                        self,
                    )@[i].1.outcomes().push(true),
                forall|i: int|
                    0 <= i < len && #[trigger] (i % (n as int)) < j && failed_at(
                        fails@,
                        n as int,
                        i,
                    ) ==> self@[i].1.received() == old(self)@[i].1.received().push(*event)
                        && self@[i].1.outcomes() == old(self)@[i].1.outcomes().push(false),
                forall|i: int|
                    0 <= i < len && #[trigger] (i % (n as int)) < j && !runs(fails@, n as int, i)
                        ==> self@[i].1 == old(self)@[i].1,
                forall|i: int|
                    0 <= i < len && #[trigger] (i % (n as int)) >= j ==> self@[i].1 == old(
                        self,
                    )@[i].1,
            decreases n - j,
        {
            let ghost pre = self@;
            let ghost fails_pre = fails@;
            self.run_one_shard(event, len, n, j, &mut fails);
            proof {
                let nn = n as int;
                if fails@ != fails_pre {
                    assert(fails@ == fails_pre.push(fails@.last()));
                    assert forall|i: int|
                        0 <= i < len && #[trigger] (i % nn) != j implies (runs(fails@, nn, i)
                            == runs(fails_pre, nn, i)) && (failed_at(fails@, nn, i) == failed_at(
                            fails_pre,
                            nn,
                            i,
                        )) by {
                        if runs(fails_pre, nn, i) {
                            assert forall|k: int|
                                0 <= k < fails@.len() && ((#[trigger] fails@[k]).shard as int) == i
                                    % nn implies i / nn <= (fails@[k].completed as int) by {
                                if k < fails_pre.len() {
                                    assert(fails@[k] == fails_pre[k]);
                                } else {
                                    assert((fails@[k].shard as int) == j);
                                }
                            }
                            assert(runs(fails@, nn, i));
                        }
                        if runs(fails@, nn, i) {
                            assert forall|k: int|
                                0 <= k < fails_pre.len() && ((
                                #[trigger] fails_pre[k]).shard as int) == i % nn implies i / nn
                                <= (fails_pre[k].completed as int) by {
                                assert(fails@[k] == fails_pre[k]);
                            }
                            assert(runs(fails_pre, nn, i));
                        }
                        if failed_at(fails_pre, nn, i) {
                            let k = choose|k: int|
                                0 <= k < fails_pre.len() && ((
                                #[trigger] fails_pre[k]).shard as int) == i % nn && (
                                fails_pre[k].completed as int) == i / nn;
                            assert(fails@[k] == fails_pre[k]);
                            assert(failed_at(fails@, nn, i));
                        }
                        if failed_at(fails@, nn, i) {
                            let k = choose|k: int|
                                0 <= k < fails@.len() && ((#[trigger] fails@[k]).shard as int) == i
                                    % nn && (fails@[k].completed as int) == i / nn;
                            assert(k < fails_pre.len());
                            assert(fails@[k] == fails_pre[k]);
                            assert(failed_at(fails_pre, nn, i));
                        }
                    }
                }
                assert forall|i: int|
                    0 <= i < len && #[trigger] (i % nn) < j + 1 && runs(fails@, nn, i)
                        && !failed_at(fails@, nn, i) implies self@[i].1.received() == old(
                self)@[i].1.received().push(*event) && self@[i].1.outcomes() == old(
                self)@[i].1.outcomes().push(true) by {
                    if i % nn < j {
                        assert(self@[i].1 == pre[i].1);
                        assert(runs(fails_pre, nn, i) && !failed_at(fails_pre, nn, i));
                    } else {
                        assert(i % nn == j);
                        assert(pre[i].1 == old(self)@[i].1);
                    }
                }
                assert forall|i: int|
                    0 <= i < len && #[trigger] (i % nn) < j + 1 && failed_at(fails@, nn, i) implies
                    self@[i].1.received() == old(self)@[i].1.received().push(*event) && self@[
                i].1.outcomes() == old(self)@[i].1.outcomes().push(false) by {
                    if i % nn < j {
                        assert(self@[i].1 == pre[i].1);
                        assert(failed_at(fails_pre, nn, i));
                    } else {
                        assert(i % nn == j);
                        assert(pre[i].1 == old(self)@[i].1);
                    }
                }
                assert forall|i: int|
                    0 <= i < len && #[trigger] (i % nn) < j + 1 && !runs(fails@, nn, i) implies
                    self@[i].1 == old(self)@[i].1 by {
                    if i % nn < j {
                        assert(self@[i].1 == pre[i].1);
                        assert(!runs(fails_pre, nn, i));
                    } else {
                        assert(i % nn == j);
                        assert(pre[i].1 == old(self)@[i].1);
                    }
                }
            }
            j = j + 1;
        }
        proof {
            let nn = n as int;
            assert forall|i: int| 0 <= i < len implies 0 <= #[trigger] (i % nn) < n by {
                lemma_mod_division_less_than_divisor(i, nn);
            }
            assert forall|i: int|
                0 <= i < len && runs(fails@, nn, i) && !failed_at(fails@, nn, i) implies (
            #[trigger] self@[i]).1.received() == old(self)@[i].1.received().push(*event) && self@[
            i].1.outcomes() == old(self)@[i].1.outcomes().push(true) by {
                assert(0 <= i % nn < n);
            }
            assert forall|i: int| 0 <= i < len && failed_at(fails@, nn, i) implies (
            #[trigger] self@[i]).1.received() == old(self)@[i].1.received().push(*event) && self@[
            i].1.outcomes() == old(self)@[i].1.outcomes().push(false) by {
                assert(0 <= i % nn < n);
            }
            assert forall|i: int| 0 <= i < len && !runs(fails@, nn, i) implies (
            #[trigger] self@[i]).1 == old(self)@[i].1 by {
                assert(0 <= i % nn < n);
            }
            lemma_wf_same_tokens(old(self), self);
        }
        if fails.len() == 0 {
            proof {
                assert(fails@ =~= Seq::<ShardFailure>::empty());
            }
            Ok(())
        } else {
            Err(fails)
        }
    }

    /// Concurrency-bounded dispatch: like `publish_event`, but the pass is
    /// split round-robin across `min(handler_count, min(available
    /// parallelism, 64))` shards. Each shard's handlers run in slot order
    /// with the shard's own fail-fast; a failure aborts no other shard, and
    /// the whole pass returns only after every shard is done, with all
    /// collected failures reported together in shard order. The contract
    /// pins the plan to that bound: for some available parallelism of at
    /// least one, the pass is the `delivery_outcome` over exactly
    /// `min(handler_count, min(that parallelism, 64))` shards.
    ///
    /// Every shard runs here on the calling execution context, shard after
    /// shard, one allowed interleaving of the plan (order between shards is
    /// unspecified). An embedding runtime that owns real execution units can
    /// run the same plan concurrently through `shard_count`, `shard_size`,
    /// `token_at` and `handler_at`.
    ///
    /// With no live subscription the call returns at once with `Ok`,
    /// running nothing; with a single shard it degrades to the sequential
    /// pass.
    pub fn publish_event_multithreaded<P>(&mut self, event: &Event<P>) -> (r: Result<
        (),
        Vec<ShardFailure>,
    >) where H: Handler<P>
        requires
            old(self).wf(),
        ensures
            final(self).wf(),
            final(self).issued() == old(self).issued(),
            final(self).origin() == old(self).origin(),
            exists|p: int|
                1 <= p && #[trigger] delivery_outcome::<P, H>(
                    old(self)@,
                    final(self)@,
                    fails_of(r),
                    *event,
                    old(self).origin(),
                    shard_count_spec(old(self)@.len() as int, min_int(p, 64)),
                ),
            r is Err ==> fails_of(r).len() > 0,
            old(self)@.len() == 0 ==> r is Ok,
    {
        let avail = available_parallelism();
        let workers = if avail > 64 {
            64
        } else {
            avail
        };
        let r = self.publish_event_sharded(event, workers);
        proof {
            assert(workers as int == min_int(avail as int, 64));
        }
        r
    }

    /// The token of the subscription at position `i` of the dispatch order.
    pub fn token_at(&self, i: usize) -> (t: Token)
        requires
            i < self@.len(),
        ensures
            t@ == (self.origin(), self@[i as int].0),
    {
        Token::of_raw(self.origin, self.entries[i].0)
    }

    /// The handler of the subscription at position `i` of the dispatch
    /// order.
    pub fn handler_at(&self, i: usize) -> (h: &H)
        requires
            i < self@.len(),
        ensures
            *h == self@[i as int].1,
    {
        &self.entries[i].1
    }

    /// Runs shard `j` of a round-robin pass over `n` shards: the snapshot
    /// indices `j`, `j + n`, `j + 2n`, ... in slot order, stopping at the
    /// shard's first handler failure, which it appends to `fails`. Entries
    /// of other shards are untouched.
    fn run_one_shard<P>(
        &mut self,
        event: &Event<P>,
        len: usize,
        n: usize,
        j: usize,
        fails: &mut Vec<ShardFailure>,
    ) where H: Handler<P>
        requires
            2 <= n <= len,
            len == old(self)@.len(),
            j < n,
            forall|k: int|
                0 <= k < old(fails)@.len() ==> ((#[trigger] old(fails)@[k]).shard as int) < j,
        ensures
            final(self)@.len() == old(self)@.len(),
            final(self).issued() == old(self).issued(),
            final(self).origin() == old(self).origin(),
            forall|q: int| 0 <= q < len ==> (#[trigger] final(self)@[q]).0 == old(self)@[q].0,
            final(fails)@ == old(fails)@ || final(fails)@ == old(fails)@.push(
                final(fails)@.last(),
            ),
            final(fails)@ != old(fails)@ ==> {
                let f = final(fails)@.last();
                &&& (f.shard as int) == j
                &&& 0 <= (j as int) + (f.completed as int) * (n as int) < len
                &&& f.token@ == (
                old(self).origin(),
                old(self)@[(j as int) + (f.completed as int) * (n as int)].0,
                )
            },
            forall|i: int|
                0 <= i < len && #[trigger] (i % (n as int)) == j && runs(
                    final(fails)@,
                    n as int,
                    i,
                ) && !failed_at(final(fails)@, n as int, i) ==> final(self)@[i].1.received()
                    == old(self)@[i].1.received().push(*event) && final(self)@[i].1.outcomes()
                    == old(self)@[i].1.outcomes().push(true),
            forall|i: int|
                0 <= i < len && #[trigger] (i % (n as int)) == j && failed_at(
                    final(fails)@,
                    n as int,
                    i,
                ) ==> final(self)@[i].1.received() == old(self)@[i].1.received().push(*event)
                    && final(self)@[i].1.outcomes() == old(self)@[i].1.outcomes().push(false),
            forall|i: int|
                0 <= i < len && #[trigger] (i % (n as int)) == j && !runs(
                    final(fails)@,
                    n as int,
                    i,
                ) ==> final(self)@[i].1 == old(self)@[i].1,
            forall|i: int|
                0 <= i < len && #[trigger] (i % (n as int)) != j ==> final(self)@[i].1 == old(
                    self,
                )@[i].1,
    {
        let mut p: usize = 0;
        let mut idx: usize = j;
        loop
            invariant_except_break
                2 <= n <= len,
                j < n,
                len == self@.len(),
                self@.len() == old(self)@.len(),
                self.issued() == old(self).issued(),
                self.origin() == old(self).origin(),
                forall|q: int| 0 <= q < len ==> (#[trigger] self@[q]).0 == old(self)@[q].0,
                fails@ == old(fails)@,
                forall|k: int|
                    0 <= k < fails@.len() ==> ((#[trigger] fails@[k]).shard as int) < j,
                (idx as int) == j + (p as int) * (n as int),
                idx < len,
                forall|i: int|
                    0 <= i < len && #[trigger] (i % (n as int)) == j && i / (n as int) < p
                        ==> self@[i].1.received() == old(self)@[i].1.received().push(*event)
                        && self@[i].1.outcomes() == old(self)@[i].1.outcomes().push(true),
                forall|i: int|
                    0 <= i < len && #[trigger] (i % (n as int)) == j && i / (n as int) >= p
                        ==> self@[i].1 == old(self)@[i].1,
                forall|i: int|
                    0 <= i < len && #[trigger] (i % (n as int)) != j ==> self@[i].1 == old(
                        self,
                    )@[i].1,
            ensures
                len == self@.len(),
                self@.len() == old(self)@.len(),
                self.issued() == old(self).issued(),
                self.origin() == old(self).origin(),
                forall|q: int| 0 <= q < len ==> (#[trigger] self@[q]).0 == old(self)@[q].0,
                fails@ == old(fails)@ || fails@ == old(fails)@.push(fails@.last()),
                fails@ != old(fails)@ ==> {
                    let f = fails@.last();
                    &&& (f.shard as int) == j
                    &&& 0 <= (j as int) + (f.completed as int) * (n as int) < len
                    &&& f.token@ == (
                    old(self).origin(),
                    old(self)@[(j as int) + (f.completed as int) * (n as int)].0,
                    )
                },
                forall|i: int|
                    0 <= i < len && #[trigger] (i % (n as int)) == j && runs(fails@, n as int, i)
                        && !failed_at(fails@, n as int, i) ==> self@[i].1.received() == old(
                        self,
                    )@[i].1.received().push(*event) && self@[i].1.outcomes() == old(
                        self,
                    )@[i].1.outcomes().push(true),
                forall|i: int|
                    0 <= i < len && #[trigger] (i % (n as int)) == j && failed_at(
                        fails@,
                        n as int,
                        i,
                    ) ==> self@[i].1.received() == old(self)@[i].1.received().push(*event)
                        && self@[i].1.outcomes() == old(self)@[i].1.outcomes().push(false),
                forall|i: int|
                    0 <= i < len && #[trigger] (i % (n as int)) == j && !runs(fails@, n as int, i)
                        ==> self@[i].1 == old(self)@[i].1,
                forall|i: int|
                    0 <= i < len && #[trigger] (i % (n as int)) != j ==> self@[i].1 == old(
                        self,
                    )@[i].1,
            decreases len - idx,
        {
            let tok = self.entries[idx].0;
            let entry = &mut self.entries[idx];
            let ok = entry.1.invoke(event);
            proof {
                lemma_fundamental_div_mod_converse_mod(idx as int, n as int, p as int, j as int);
                lemma_fundamental_div_mod_converse_div(idx as int, n as int, p as int, j as int);
            }
            if !ok {
                fails.push(
                    ShardFailure {
                        shard: j,
                        token: Token::of_raw(self.origin, tok),
                        completed: p,
                    },
                );
                proof {
                    let nn = n as int;
                    let kf = fails@.len() - 1;
                    assert(fails@[kf].shard as int == j);
                    assert(fails@[kf].completed as int == p as int);
                    assert forall|i: int|
                        0 <= i < len && #[trigger] (i % nn) == j implies (failed_at(fails@, nn, i)
                            <==> i / nn == p as int) by {
                        if failed_at(fails@, nn, i) {
                            let k = choose|k: int|
                                0 <= k < fails@.len() && ((#[trigger] fails@[k]).shard as int) == i
                                    % nn && (fails@[k].completed as int) == i / nn;
                            assert(k == kf);
                        }
                    }
                    assert forall|i: int|
                        0 <= i < len && #[trigger] (i % nn) == j && runs(fails@, nn, i)
                            && !failed_at(fails@, nn, i) implies self@[i].1.received() == old(
                    self)@[i].1.received().push(*event) && self@[i].1.outcomes() == old(
                    self)@[i].1.outcomes().push(true) by {
                        assert(i / nn <= p as int);
                        assert(i / nn != p as int);
                    }
                    assert forall|i: int|
                        0 <= i < len && #[trigger] (i % nn) == j && failed_at(fails@, nn, i)
                            implies self@[i].1.received() == old(self)@[i].1.received().push(
                    *event) && self@[i].1.outcomes() == old(self)@[i].1.outcomes().push(false) by {
                        assert(i / nn == p as int);
                        lemma_fundamental_div_mod(i, nn);
                        assert(nn * (p as int) == (p as int) * nn) by (nonlinear_arith);
                        assert(i == idx as int);
                    }
                    assert forall|i: int|
                        0 <= i < len && #[trigger] (i % nn) == j && !runs(fails@, nn, i) implies
                        self@[i].1 == old(self)@[i].1 by {
                        assert(exists|k: int|
                            0 <= k < fails@.len() && (#[trigger] fails@[k]).shard as int == j
                                && i / nn > fails@[k].completed as int);
                        assert(i / nn > p as int);
                        lemma_fundamental_div_mod(i, nn);
                        assert(i != idx as int) by {
                            assert(idx as int / nn == p as int);
                        }
                    }
                }
                break ;
            }
            if n <= len - 1 - idx {
                idx = idx + n;
                p = p + 1;
                proof {
                    let nn = n as int;
                    assert((idx as int) == j + (p as int) * nn) by {
                        assert((p as int) * nn == ((p as int) - 1) * nn + nn) by (nonlinear_arith);
                    }
                    assert forall|i: int|
                        0 <= i < len && #[trigger] (i % nn) == j && i / nn < p implies self@[
                    i].1.received() == old(self)@[i].1.received().push(*event) && self@[
                    i].1.outcomes() == old(self)@[i].1.outcomes().push(true) by {
                        if i / nn == (p as int) - 1 {
                            lemma_fundamental_div_mod(i, nn);
                            assert(nn * ((p as int) - 1) == ((p as int) - 1) * nn)
                                by (nonlinear_arith);
                        }
                    }
                }
            } else {
                proof {
                    let nn = n as int;
                    assert forall|i: int|
                        0 <= i < len && #[trigger] (i % nn) == j implies i / nn <= p as int by {
                        lemma_fundamental_div_mod(i, nn);
                        if i / nn > p as int {
                            assert(((p as int) + 1) * nn <= (i / nn) * nn) by {
                                lemma_mul_inequality((p as int) + 1, i / nn, nn);
                            }
                            assert(nn * (i / nn) == (i / nn) * nn) by (nonlinear_arith);
                            assert(((p as int) + 1) * nn == (p as int) * nn + nn)
                                by (nonlinear_arith);
                        }
                    }
                    assert forall|i: int| 0 <= i < len && #[trigger] (i % nn) == j implies
                        !failed_at(fails@, nn, i) by {
                        if failed_at(fails@, nn, i) {
                            let k = choose|k: int|
                                0 <= k < fails@.len() && ((#[trigger] fails@[k]).shard as int) == i
                                    % nn && (fails@[k].completed as int) == i / nn;
                            assert((fails@[k].shard as int) < j);
                        }
                    }
                    assert forall|i: int|
                        0 <= i < len && #[trigger] (i % nn) == j && runs(fails@, nn, i)
                            && !failed_at(fails@, nn, i) implies self@[i].1.received() == old(
                    self)@[i].1.received().push(*event) && self@[i].1.outcomes() == old(
                    self)@[i].1.outcomes().push(true) by {
                        assert(i / nn <= p as int);
                        if i / nn == p as int {
                            lemma_fundamental_div_mod(i, nn);
                            assert(nn * (p as int) == (p as int) * nn) by (nonlinear_arith);
                            assert(i == idx as int);
                        }
                    }
                }
                break ;
            }
        }
    }
}

/// Relies on num_cpus::get: the number of logical CPUs available to the
/// current process, always at least one.
#[verifier::external_body]
fn available_parallelism() -> (n: usize)
    ensures
        1 <= n,
{
    num_cpus::get()
}

/// Relies on fastrand::u64: a value drawn from a per-thread generator
/// seeded from the operating system, used as a publisher identity. Nothing
/// is promised of the value itself; two publishers receive the same
/// identity only with negligible probability (one in 2^64 per pair), so
/// rejection of another publisher's tokens rests on that distinctness.
#[verifier::external_body]
fn fresh_origin() -> u64 {
    fastrand::u64(..)
}

/// Law: one subscription, one removal. A token value `t` that is fresh for
/// the registry model `s` (as `subscribe_handler` guarantees of every token
/// it issues) occurs in `s.push((t, h))` exactly once, at the end. The
/// first `unsubscribe_handler` with that token after the subscription
/// therefore returns true and restores exactly the previous registry, and a
/// second call with the same token finds `!has_token(s, t)` and returns
/// false, changing nothing.
pub proof fn lemma_unsubscribe_once<H>(s: Seq<(u64, H)>, t: u64, h: H)
    requires
        !has_token(s, t),
    ensures
        has_token(s.push((t, h)), t),
        forall|i: int|
            0 <= i < s.push((t, h)).len() && (#[trigger] s.push((t, h))[i]).0 == t ==> s.push(
                (t, h),
            ).remove(i) == s,
{
    let s2 = s.push((t, h));
    assert(s2[s.len() as int].0 == t);
    assert forall|i: int| 0 <= i < s2.len() && (#[trigger] s2[i]).0 == t implies s2.remove(i)
        == s by {
        if i < s.len() {
            assert(s2[i] == s[i]);
            assert(has_token(s, t));
        }
        assert(i == s.len() as int);
        assert(s2.remove(i) =~= s);
    }
}

/// Law: a token value this publisher has never issued is absent from its
/// live registry, so `unsubscribe_handler` with it returns false and leaves
/// the registry unchanged whatever the token's identity. A token of a
/// different publisher is rejected independently of this: its identity
/// differs from this publisher's, and `unsubscribe_handler` returns false
/// for every token whose identity is not its own, whatever its value.
pub proof fn lemma_unissued_token_absent<H>(p: &EventPublisher<H>, t: u64)
    requires
        p.wf(),
        t >= p.issued(),
    ensures
        !has_token(p@, t),
{
    assert forall|i: int| 0 <= i < p@.len() implies (#[trigger] p@[i]).0 != t by {
        assert(p@[i].0 < p.issued());
    }
}

/// Well-formedness of the registry depends only on the token values and the
/// issue counter, never on the stored handlers: a registry that keeps both
/// while its handlers change stays well formed.
pub proof fn lemma_wf_same_tokens<H>(a: &EventPublisher<H>, b: &EventPublisher<H>)
    requires
        a.wf(),
        b@.len() == a@.len(),
        forall|i: int| 0 <= i < a@.len() ==> b@[i].0 == a@[i].0,
        b.issued() == a.issued(),
    ensures
        b.wf(),
{
    assert forall|i: int, j: int| 0 <= i < j < b@.len() implies b@[i].0 < b@[j].0 by {
        assert(b@[i].0 == a@[i].0);
        assert(b@[j].0 == a@[j].0);
    }
    assert forall|i: int| 0 <= i < b@.len() implies b@[i].0 < b.issued() by {
        assert(b@[i].0 == a@[i].0);
    }
}

} // verus!
