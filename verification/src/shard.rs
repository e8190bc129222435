use vstd::prelude::*;
use vstd::arithmetic::div_mod::lemma_basic_div;
use vstd::arithmetic::div_mod::lemma_div_is_ordered;
use vstd::arithmetic::div_mod::lemma_fundamental_div_mod;
use vstd::arithmetic::div_mod::lemma_fundamental_div_mod_converse_div;
use vstd::arithmetic::div_mod::lemma_fundamental_div_mod_converse_mod;
use vstd::arithmetic::div_mod::lemma_hoist_over_denominator;
use vstd::arithmetic::div_mod::lemma_mod_division_less_than_divisor;
use vstd::arithmetic::mul::lemma_mul_inequality;
use crate::event::Event;
use crate::event::Handler;
use crate::failure::ShardFailure;

verus! {

/// The smaller of two values.
pub open spec fn min_int(a: int, b: int) -> int {
    if a < b {
        a
    } else {
        b
    }
}

/// How many shards a registry of `len` handlers is split into when up to
/// `workers` concurrent execution units may be used: the smaller of the two
/// counts, and at least one. With the worker bound fixed, this is the `n` of
/// the round-robin partition.
pub open spec fn shard_count_spec(len: int, workers: int) -> int {
    if len < 1 {
        1
    } else if len < workers {
        len
    } else {
        workers
    }
}

/// How many handlers land in shard `j` when `len` handlers are split
/// round-robin across `n` shards: shard `j` takes the snapshot indices
/// `j`, `j + n`, `j + 2n`, and so on.
pub open spec fn shard_size_spec(len: int, n: int, j: int) -> int {
    (len - j + n - 1) / n
}

/// Whether the handler at snapshot index `i` runs during a sharded pass that
/// reported the failures `fails` over `n` shards: every handler runs except
/// those behind an earlier failed slot of their own shard.
pub open spec fn runs(fails: Seq<ShardFailure>, n: int, i: int) -> bool {
    forall|k: int|
        0 <= k < fails.len() && (fails[k].shard as int) == i % n ==> i / n <= (
        fails[k].completed as int)
}

/// Whether the handler at snapshot index `i` is the one a reported failure
/// names: its own shard's failing slot.
pub open spec fn failed_at(fails: Seq<ShardFailure>, n: int, i: int) -> bool {
    exists|k: int|
        0 <= k < fails.len() && ((#[trigger] fails[k]).shard as int) == i % n && (
        fails[k].completed as int) == i / n
}

/// The failures a sharded pass reported: none on `Ok`.
pub open spec fn fails_of(r: Result<(), Vec<ShardFailure>>) -> Seq<ShardFailure> {
    match r {
        Ok(_) => Seq::empty(),
        Err(v) => v@,
    }
}

/// What a sharded pass over `n` shards delivering the envelope `ev` for the
/// publisher with identity `origin` guarantees, relating the registry model
/// `before` the pass to the model `after` it together with the reported
/// failures:
/// the registry keeps its length and its token order; failures are reported
/// at most one per shard, in shard order, each naming the token at its
/// shard's failing slot; a handler has run exactly once, receiving exactly
/// `ev`, iff no earlier slot of its own shard failed, and is untouched
/// otherwise; a handler returned `false` exactly where a failure names its
/// slot, and `true` everywhere else it ran. No failure is ever dropped, none
/// is invented, and no handler ever runs twice.
pub open spec fn delivery_outcome<P, H: Handler<P>>(
    before: Seq<(u64, H)>,
    after: Seq<(u64, H)>,
    fails: Seq<ShardFailure>,
    ev: Event<P>,
    origin: u64,
    n: int,
) -> bool {
    &&& after.len() == before.len()
    &&& forall|i: int| 0 <= i < before.len() ==> (#[trigger] after[i]).0 == before[i].0
    &&& forall|k1: int, k2: int|
        0 <= k1 < k2 < fails.len() ==> (#[trigger] fails[k1]).shard < (#[trigger] fails[k2]).shard
    &&& forall|k: int| 0 <= k < fails.len() ==> ((#[trigger] fails[k]).shard as int) < n
    &&& forall|k: int|
        0 <= k < fails.len() ==> {
            let i = ((#[trigger] fails[k]).shard as int) + (fails[k].completed as int) * n;
            &&& 0 <= i < before.len()
            &&& fails[k].token@ == (origin, before[i].0)
        }
    &&& forall|i: int|
        0 <= i < before.len() && runs(fails, n, i) && !failed_at(fails, n, i) ==> (
        #[trigger] after[i]).1.received() == before[i].1.received().push(ev) && after[
            i
        ].1.outcomes() == before[i].1.outcomes().push(true)
    &&& forall|i: int|
        0 <= i < before.len() && failed_at(fails, n, i) ==> (#[trigger] after[i]).1.received()
            == before[i].1.received().push(ev) && after[i].1.outcomes()
            == before[i].1.outcomes().push(false)
    &&& forall|i: int|
        0 <= i < before.len() && !runs(fails, n, i) ==> (#[trigger] after[i]).1 == before[i].1
}

/// Computes the shard count for `len` handlers under `workers` available
/// execution units.
pub fn shard_count(len: usize, workers: usize) -> (n: usize)
    requires
        1 <= workers,
    ensures
        n == shard_count_spec(len as int, workers as int),
        1 <= n <= workers,
        len >= 1 ==> n <= len,
{
    if len < 1 {
        1
    } else if len < workers {
        len
    } else {
        workers
    }
}

/// Computes how many handlers shard `j` receives when `len` handlers are
/// split round-robin across `n` shards.
pub fn shard_size(len: usize, n: usize, j: usize) -> (s: usize)
    requires
        1 <= n,
        j < n,
    ensures
        s == shard_size_spec(len as int, n as int, j as int),
{
    if j >= len {
        proof {
            let num = len - j + n - 1;
            assert(0 <= num < n);
            assert(num / (n as int) == 0) by {
                lemma_fundamental_div_mod_converse_div(num, n as int, 0, num);
            }
        }
        0
    } else {
        let s = (len - 1 - j) / n + 1;
        proof {
            lemma_hoist_over_denominator(len - 1 - (j as int), 1, n as nat);
        }
        s
    }
}

/// Law: the round-robin partition is balanced. Any two shards of one pass
/// differ in size by at most one handler.
pub proof fn lemma_shard_sizes_balanced(len: int, n: int, j: int, k: int)
    requires
        1 <= n,
        0 <= j < n,
        0 <= k < n,
        0 <= len,
    ensures
        shard_size_spec(len, n, j) - shard_size_spec(len, n, k) <= 1,
{
    let a = len - j + n - 1;
    let b = len - k + n - 1;
    if a <= b {
        lemma_div_is_ordered(a, b, n);
    } else {
        assert(a <= b - 1 + n);
        lemma_div_is_ordered(a, b - 1 + n, n);
        lemma_hoist_over_denominator(b - 1, 1, n as nat);
        lemma_div_is_ordered(b - 1, b, n);
    }
}

/// Law: the round-robin partition is exact. The slots of shard `j` are
/// exactly the snapshot indices `i` below `len` with `i % n == j`, and they
/// number `shard_size_spec(len, n, j)`: every handler of the snapshot
/// belongs to exactly one shard slot and no slot is empty or duplicated.
pub proof fn lemma_shard_slots(len: int, n: int, j: int)
    requires
        1 <= n,
        0 <= j < n,
        0 <= len,
    ensures
        forall|i: int|
            0 <= i < len && #[trigger] (i % n) == j ==> i / n < shard_size_spec(len, n, j),
        forall|p: int| 0 <= p < shard_size_spec(len, n, j) ==> j + #[trigger] (p * n) < len,
{
    assert forall|i: int| 0 <= i < len && #[trigger] (i % n) == j implies i / n < shard_size_spec(
        len,
        n,
        j,
    ) by {
        lemma_fundamental_div_mod(i, n);
        assert((i / n) * n <= len - 1 - j) by {
            assert(i == n * (i / n) + j);
            assert(n * (i / n) == (i / n) * n) by (nonlinear_arith);
        }
        assert(i / n <= (len - 1 - j) / n) by {
            assert((i / n) * n / n == i / n) by {
                lemma_fundamental_div_mod_converse_div((i / n) * n, n, i / n, 0);
            }
            lemma_div_is_ordered((i / n) * n, len - 1 - j, n);
        }
        lemma_hoist_over_denominator(len - 1 - j, 1, n as nat);
        assert(shard_size_spec(len, n, j) == (len - 1 - j) / n + 1);
    }
    assert forall|p: int| 0 <= p < shard_size_spec(len, n, j) implies j + #[trigger] (p * n)
        < len by {
        lemma_hoist_over_denominator(len - 1 - j, 1, n as nat);
        assert(p <= (len - 1 - j) / n);
        lemma_fundamental_div_mod(len - 1 - j, n);
        assert(p * n <= ((len - 1 - j) / n) * n) by {
            lemma_mul_inequality(p, (len - 1 - j) / n, n);
        }
        assert(((len - 1 - j) / n) * n <= len - 1 - j) by {
            assert(n * ((len - 1 - j) / n) == ((len - 1 - j) / n) * n) by (nonlinear_arith);
        }
    }
}

/// The total size of the first `j` shards of a round-robin split of `len`
/// handlers across `n` shards.
pub open spec fn shard_size_sum(len: int, n: int, j: int) -> int
    decreases j,
{
    if j <= 0 {
        0
    } else {
        shard_size_sum(len, n, j - 1) + shard_size_spec(len, n, j - 1)
    }
}

/// One handler more grows exactly one shard: the shard the new last
/// snapshot index `len - 1` is assigned to, which is `(len - 1) % n`.
proof fn lemma_shard_size_step(len: int, n: int, j: int)
    requires
        1 <= n,
        1 <= len,
        0 <= j < n,
    ensures
        shard_size_spec(len, n, j) == shard_size_spec(len - 1, n, j) + (
        if (len - 1) % n == j {
            1int
        } else {
            0int
        }),
{
    let a = len - 1 - j + n - 1;
    let m = (len - 1) % n;
    let q = (len - 1) / n;
    lemma_fundamental_div_mod(len - 1, n);
    lemma_mod_division_less_than_divisor(len - 1, n);
    if m == j {
        assert(a == q * n + (n - 1) && a + 1 == (q + 1) * n + 0) by (nonlinear_arith)
            requires
                a == len - 1 - j + n - 1,
                len - 1 == n * q + m,
                m == j,
        ;
        lemma_fundamental_div_mod_converse_div(a, n, q, n - 1);
        lemma_fundamental_div_mod_converse_div(a + 1, n, q + 1, 0);
    } else if m > j {
        assert(a == (q + 1) * n + (m - j - 1) && a + 1 == (q + 1) * n + (m - j))
            by (nonlinear_arith)
            requires
                a == len - 1 - j + n - 1,
                len - 1 == n * q + m,
        ;
        lemma_fundamental_div_mod_converse_div(a, n, q + 1, m - j - 1);
        lemma_fundamental_div_mod_converse_div(a + 1, n, q + 1, m - j);
    } else {
        assert(a == q * n + (n + m - j - 1) && a + 1 == q * n + (n + m - j)) by (nonlinear_arith)
            requires
                a == len - 1 - j + n - 1,
                len - 1 == n * q + m,
        ;
        lemma_fundamental_div_mod_converse_div(a, n, q, n + m - j - 1);
        lemma_fundamental_div_mod_converse_div(a + 1, n, q, n + m - j);
    }
}

/// Folds `lemma_shard_size_step` over the first `j` shards.
proof fn lemma_shard_size_sum_step(len: int, n: int, j: int)
    requires
        1 <= n,
        1 <= len,
        0 <= j <= n,
    ensures
        shard_size_sum(len, n, j) == shard_size_sum(len - 1, n, j) + (
        if (len - 1) % n < j {
            1int
        } else {
            0int
        }),
    decreases j,
{
    lemma_mod_division_less_than_divisor(len - 1, n);
    if j > 0 {
        lemma_shard_size_sum_step(len, n, j - 1);
        lemma_shard_size_step(len, n, j - 1);
    }
}

/// Law: the round-robin partition is complete. The sizes of the `n` shards
/// of one pass add up to the number of handlers: every handler stands in
/// some shard, and no shard counts a handler twice.
pub proof fn lemma_shard_sizes_sum(len: int, n: int)
    requires
        1 <= n,
        0 <= len,
    ensures
        shard_size_sum(len, n, n) == len,
    decreases len,
{
    if len == 0 {
        lemma_empty_shard_sizes_sum(n, n);
    } else {
        lemma_shard_sizes_sum(len - 1, n);
        lemma_shard_size_sum_step(len, n, n);
        lemma_mod_division_less_than_divisor(len - 1, n);
    }
}

/// With no handlers every shard is empty.
proof fn lemma_empty_shard_sizes_sum(n: int, j: int)
    requires
        1 <= n,
        0 <= j <= n,
    ensures
        shard_size_sum(0, n, j) == 0,
    decreases j,
{
    if j > 0 {
        lemma_empty_shard_sizes_sum(n, j - 1);
        assert(shard_size_spec(0, n, j - 1) == 0) by {
            lemma_basic_div(n - j, n);
        }
    }
}

/// Law: a pass over a single shard is the sequential pass. With `n == 1`
/// the sharded guarantees collapse to the sequential ones: at most one
/// failure is reported, it names the token at its own position in the
/// snapshot order, every handler up to the failing one has run exactly
/// once, receiving exactly the published envelope and returning `true`, the
/// failing one has run exactly once and returned `false`, and every handler
/// after it is untouched. Without a failure every handler has run exactly
/// once and returned `true`.
pub proof fn lemma_one_shard_is_sequential<P, H: Handler<P>>(
    before: Seq<(u64, H)>,
    after: Seq<(u64, H)>,
    fails: Seq<ShardFailure>,
    ev: Event<P>,
    origin: u64,
)
    requires
        delivery_outcome::<P, H>(before, after, fails, ev, origin, 1),
    ensures
        fails.len() <= 1,
        fails.len() == 0 ==> forall|i: int|
            0 <= i < before.len() ==> (#[trigger] after[i]).1.received() == before[
                i
            ].1.received().push(ev) && after[i].1.outcomes() == before[i].1.outcomes().push(true),
        fails.len() == 1 ==> {
            let f = fails[0];
            &&& (f.completed as int) < before.len()
            &&& f.token@ == (origin, before[f.completed as int].0)
            &&& forall|i: int|
                0 <= i < (f.completed as int) ==> (#[trigger] after[i]).1.received() == before[
                    i
                ].1.received().push(ev) && after[i].1.outcomes() == before[i].1.outcomes().push(
                    true,
                )
            &&& after[f.completed as int].1.received() == before[
                f.completed as int
            ].1.received().push(ev)
            &&& after[f.completed as int].1.outcomes() == before[
                f.completed as int
            ].1.outcomes().push(false)
            &&& forall|i: int|
                (f.completed as int) < i < before.len() ==> (#[trigger] after[i]).1 == before[i].1
        },
{
    assert forall|i: int| 0 <= i implies #[trigger] (i % 1) == 0 && i / 1 == i by {
        lemma_fundamental_div_mod_converse_mod(i, 1, i, 0);
        lemma_fundamental_div_mod_converse_div(i, 1, i, 0);
    }
    if fails.len() > 1 {
        assert(fails[0].shard < fails[1].shard);
        assert((fails[1].shard as int) < 1);
    }
    if fails.len() == 0 {
        assert forall|i: int| 0 <= i < before.len() implies (#[trigger] after[i]).1.received()
            == before[i].1.received().push(ev) && after[i].1.outcomes() == before[
        i].1.outcomes().push(true) by {
            assert(runs(fails, 1, i));
            assert(!failed_at(fails, 1, i));
        }
    }
    if fails.len() == 1 {
        let f = fails[0];
        assert((f.shard as int) == 0);
        assert((f.shard as int) + (f.completed as int) * 1 == f.completed as int);
        assert forall|i: int| 0 <= i < (f.completed as int) implies (
        #[trigger] after[i]).1.received() == before[i].1.received().push(ev) && after[
        i].1.outcomes() == before[i].1.outcomes().push(true) by {
            assert(i % 1 == 0 && i / 1 == i);
            assert(runs(fails, 1, i));
            assert(!failed_at(fails, 1, i));
        }
        let c = f.completed as int;
        assert(c % 1 == 0 && c / 1 == c);
        assert(failed_at(fails, 1, c));
        assert forall|i: int| (f.completed as int) < i < before.len() implies (
        #[trigger] after[i]).1 == before[i].1 by {
            assert(i % 1 == 0 && i / 1 == i);
            assert(!runs(fails, 1, i));
        }
    }
}

} // verus!
