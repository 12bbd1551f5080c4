//! The order of the operations within a round: first ready, first placed.

use vstd::prelude::*;

use crate::mpc::schedule::{
    empty_round, lemma_bounded, lemma_close_consistent, lemma_offline_settled,
    lemma_online_settled, lemma_select, lemma_step_consistent, offline_phase, online_phase,
    schedule, select, sources, Graph, RoundPlan, Sweep,
};

verus! {

/// How many of the operations `done` had to be placed before `c` was ready.
pub open spec fn release(g: Graph, c: int, done: Seq<int>) -> nat
    decreases done.len(),
{
    if done.len() == 0 || !g.ready(c, done.drop_last()) {
        done.len()
    } else {
        release(g, c, done.drop_last())
    }
}

/// Whether `x` was ready before `y`, or at the same time and comes first in the circuit.
pub open spec fn precedes(g: Graph, done: Seq<int>, x: int, y: int) -> bool {
    ||| release(g, x, done) < release(g, y, done)
    ||| release(g, x, done) == release(g, y, done) && x < y
}

/// Whether the operations of the list are ready, and stand in the order in which they became so.
pub open spec fn queued(g: Graph, done: Seq<int>, list: Seq<int>) -> bool {
    &&& forall|i: int| 0 <= i < list.len() ==> g.ready(#[trigger] list[i], done)
    &&& forall|i: int, j: int|
        0 <= i < j < list.len() ==> precedes(g, done, #[trigger] list[i], #[trigger] list[j])
}

/// Whether all operations of one list precede all of the other one.
spec fn all_precede(g: Graph, done: Seq<int>, xs: Seq<int>, ys: Seq<int>) -> bool {
    forall|i: int, j: int|
        0 <= i < xs.len() && 0 <= j < ys.len() ==> precedes(
            g,
            done,
            #[trigger] xs[i],
            #[trigger] ys[j],
        )
}

/// Whether all lists of the rounds are queued.
pub open spec fn rounds_queued(g: Graph, done: Seq<int>, rounds: Seq<RoundPlan>) -> bool {
    forall|k: int|
        0 <= k < rounds.len() ==> queued(g, done, (#[trigger] rounds[k]).local) && queued(
            g,
            done,
            rounds[k].network,
        )
}

/// What holds of the order throughout a phase.
spec fn orderly(g: Graph, s: Sweep) -> bool {
    &&& queued(g, s.done, s.wave)
    &&& queued(g, s.done, s.next)
    &&& queued(g, s.done, s.held)
    &&& queued(g, s.done, s.round.local)
    &&& queued(g, s.done, s.round.network)
    &&& rounds_queued(g, s.done, s.rounds)
    &&& all_precede(g, s.done, s.round.local, s.wave)
    &&& all_precede(g, s.done, s.round.network, s.wave)
    &&& all_precede(g, s.done, s.held, s.wave)
    &&& all_precede(g, s.done, s.held, s.next)
    &&& forall|j: int| 0 <= j < s.next.len() ==> release(g, #[trigger] s.next[j], s.done) > 0
}

proof fn lemma_ready_grows(g: Graph, done: Seq<int>, x: int, c: int)
    requires
        g.ready(c, done),
    ensures
        g.ready(c, done.push(x)),
        release(g, c, done.push(x)) == release(g, c, done),
{
    let more = done.push(x);
    assert(more.drop_last() =~= done);
    assert forall|d: int| #[trigger] g.depends(c, d) implies more.contains(d) by {
        assert(more[done.index_of(d)] == d);
    }
}

proof fn lemma_release_bound(g: Graph, c: int, done: Seq<int>)
    ensures
        release(g, c, done) <= done.len(),
    decreases done.len(),
{
    if done.len() > 0 {
        lemma_release_bound(g, c, done.drop_last());
    }
}

proof fn lemma_release_source(g: Graph, c: int, done: Seq<int>)
    requires
        forall|d: int| !(#[trigger] g.depends(c, d)),
    ensures
        release(g, c, done) == 0,
    decreases done.len(),
{
    if done.len() > 0 {
        lemma_release_source(g, c, done.drop_last());
    }
}

proof fn lemma_queued_grows(g: Graph, done: Seq<int>, x: int, list: Seq<int>)
    requires
        queued(g, done, list),
    ensures
        queued(g, done.push(x), list),
{
    assert forall|i: int| 0 <= i < list.len() implies g.ready(#[trigger] list[i], done.push(x)) by {
        lemma_ready_grows(g, done, x, list[i]);
    }
    assert forall|i: int, j: int| 0 <= i < j < list.len() implies precedes(
        g,
        done.push(x),
        #[trigger] list[i],
        #[trigger] list[j],
    ) by {
        lemma_ready_grows(g, done, x, list[i]);
        lemma_ready_grows(g, done, x, list[j]);
    }
}

proof fn lemma_precede_grows(g: Graph, done: Seq<int>, x: int, xs: Seq<int>, ys: Seq<int>)
    requires
        queued(g, done, xs),
        queued(g, done, ys),
        all_precede(g, done, xs, ys),
    ensures
        all_precede(g, done.push(x), xs, ys),
{
    assert forall|i: int, j: int| 0 <= i < xs.len() && 0 <= j < ys.len() implies precedes(
        g,
        done.push(x),
        #[trigger] xs[i],
        #[trigger] ys[j],
    ) by {
        lemma_ready_grows(g, done, x, xs[i]);
        lemma_ready_grows(g, done, x, ys[j]);
    }
}

proof fn lemma_queued_add(g: Graph, done: Seq<int>, a: Seq<int>, b: Seq<int>)
    requires
        queued(g, done, a),
        queued(g, done, b),
        all_precede(g, done, a, b),
    ensures
        queued(g, done, a + b),
{
    let list = a + b;
    assert forall|i: int| 0 <= i < list.len() implies g.ready(#[trigger] list[i], done) by {
        if i < a.len() {
            assert(list[i] == a[i]);
        } else {
            assert(list[i] == b[i - a.len()]);
        }
    }
    assert forall|i: int, j: int| 0 <= i < j < list.len() implies precedes(
        g,
        done,
        #[trigger] list[i],
        #[trigger] list[j],
    ) by {
        if j < a.len() {
            assert(list[i] == a[i] && list[j] == a[j]);
        } else if i >= a.len() {
            assert(list[i] == b[i - a.len()] && list[j] == b[j - a.len()]);
        } else {
            assert(list[i] == a[i] && list[j] == b[j - a.len()]);
        }
    }
}

proof fn lemma_precede_add(g: Graph, done: Seq<int>, xs: Seq<int>, a: Seq<int>, b: Seq<int>)
    requires
        all_precede(g, done, xs, a),
        all_precede(g, done, xs, b),
    ensures
        all_precede(g, done, xs, a + b),
{
    let list = a + b;
    assert forall|i: int, j: int| 0 <= i < xs.len() && 0 <= j < list.len() implies precedes(
        g,
        done,
        #[trigger] xs[i],
        #[trigger] list[j],
    ) by {
        if j < a.len() {
            assert(list[j] == a[j]);
        } else {
            assert(list[j] == b[j - a.len()]);
        }
    }
}

/// Operations that become ready with the last operation placed are queued, and all that were ready
/// before precede them.
proof fn lemma_fresh(g: Graph, done: Seq<int>, x: int, p: spec_fn(int) -> bool, xs: Seq<int>)
    requires
        !done.contains(x),
        forall|c: int| #[trigger] p(c) ==> g.freed(c, done.push(x)),
        queued(g, done, xs),
    ensures
        queued(g, done.push(x), select(p, g.len())),
        all_precede(g, done.push(x), xs, select(p, g.len())),
        forall|j: int|
            0 <= j < select(p, g.len()).len() ==> release(
                g,
                #[trigger] select(p, g.len())[j],
                done.push(x),
            ) > 0,
{
    let more = done.push(x);
    let list = select(p, g.len());
    lemma_select(p, g.len());
    assert(more.drop_last() =~= done);
    assert forall|j: int| 0 <= j < list.len() implies g.ready(#[trigger] list[j], more) && release(
        g,
        list[j],
        more,
    ) == more.len() by {
        assert(list.contains(list[j]));
        assert(p(list[j]));
        assert(g.depends(list[j], more.last()));
        assert(more.last() == x);
        assert(!g.ready(list[j], done));
    }
    assert forall|i: int, j: int| 0 <= i < xs.len() && 0 <= j < list.len() implies precedes(
        g,
        more,
        #[trigger] xs[i],
        #[trigger] list[j],
    ) by {
        lemma_ready_grows(g, done, x, xs[i]);
        lemma_release_bound(g, xs[i], done);
        assert(release(g, list[j], more) == more.len());
    }
    assert forall|i: int, j: int| 0 <= i < j < list.len() implies precedes(
        g,
        more,
        #[trigger] list[i],
        #[trigger] list[j],
    ) by {
        assert(release(g, list[i], more) == more.len());
        assert(release(g, list[j], more) == more.len());
    }
}

/// The first operation of the wave joins a list whose operations precede the wave.
proof fn lemma_join_list(g: Graph, done: Seq<int>, list: Seq<int>, wave: Seq<int>)
    requires
        wave.len() > 0,
        queued(g, done, list),
        queued(g, done, wave),
        all_precede(g, done, list, wave),
    ensures
        queued(g, done, list.push(wave[0])),
        queued(g, done, wave.drop_first()),
        all_precede(g, done, list.push(wave[0]), wave.drop_first()),
        all_precede(g, done, list, wave.drop_first()),
{
    let more = list.push(wave[0]);
    let rest = wave.drop_first();
    assert forall|j: int| 0 <= j < rest.len() implies rest[j] == wave[j + 1] by {}
    assert forall|i: int| 0 <= i < more.len() implies g.ready(#[trigger] more[i], done) by {
        if i < list.len() {
            assert(more[i] == list[i]);
        } else {
            assert(more[i] == wave[0]);
        }
    }
    assert forall|i: int, j: int| 0 <= i < j < more.len() implies precedes(
        g,
        done,
        #[trigger] more[i],
        #[trigger] more[j],
    ) by {
        assert(more[i] == list[i]);
        if j < list.len() {
            assert(more[j] == list[j]);
        } else {
            assert(more[j] == wave[0]);
        }
    }
    assert forall|i: int| 0 <= i < rest.len() implies g.ready(#[trigger] rest[i], done) by {
        assert(g.ready(wave[i + 1], done));
    }
    assert forall|i: int, j: int| 0 <= i < j < rest.len() implies precedes(
        g,
        done,
        #[trigger] rest[i],
        #[trigger] rest[j],
    ) by {
        assert(precedes(g, done, wave[i + 1], wave[j + 1]));
    }
    assert forall|i: int, j: int| 0 <= i < more.len() && 0 <= j < rest.len() implies precedes(
        g,
        done,
        #[trigger] more[i],
        #[trigger] rest[j],
    ) by {
        if i < list.len() {
            assert(precedes(g, done, list[i], wave[j + 1]));
        } else {
            assert(precedes(g, done, wave[0], wave[j + 1]));
        }
    }
    assert forall|i: int, j: int| 0 <= i < list.len() && 0 <= j < rest.len() implies precedes(
        g,
        done,
        #[trigger] list[i],
        #[trigger] rest[j],
    ) by {
        assert(precedes(g, done, list[i], wave[j + 1]));
    }
}

proof fn lemma_hold_orderly(g: Graph, s: Sweep)
    requires
        orderly(g, s),
        s.wave.len() > 0,
        g.input[s.wave[0]],
        forall|d: int| !(#[trigger] g.depends(s.wave[0], d)),
    ensures
        orderly(g, s.step(g, true)),
{
    let t = s.step(g, true);
    let x = s.wave[0];
    lemma_join_list(g, s.done, s.held, s.wave);
    lemma_join_list(g, s.done, s.round.local, s.wave);
    lemma_join_list(g, s.done, s.round.network, s.wave);
    lemma_release_source(g, x, s.done);
    assert forall|i: int, j: int| 0 <= i < t.held.len() && 0 <= j < t.next.len() implies precedes(
        g,
        s.done,
        #[trigger] t.held[i],
        #[trigger] t.next[j],
    ) by {
        if i < s.held.len() {
            assert(t.held[i] == s.held[i]);
        } else {
            assert(t.held[i] == x);
            assert(release(g, s.next[j], s.done) > 0);
        }
    }
}

proof fn lemma_rounds_grow(g: Graph, done: Seq<int>, x: int, rounds: Seq<RoundPlan>)
    requires
        rounds_queued(g, done, rounds),
    ensures
        rounds_queued(g, done.push(x), rounds),
{
    assert forall|k: int| 0 <= k < rounds.len() implies queued(
        g,
        done.push(x),
        (#[trigger] rounds[k]).local,
    ) && queued(g, done.push(x), rounds[k].network) by {
        lemma_queued_grows(g, done, x, rounds[k].local);
        lemma_queued_grows(g, done, x, rounds[k].network);
    }
}

proof fn lemma_place_orderly(g: Graph, hold: bool, s: Sweep)
    requires
        orderly(g, s),
        s.wave.len() > 0,
        !(hold && g.input[s.wave[0]]),
        !s.done.contains(s.wave[0]),
    ensures
        orderly(g, s.step(g, hold)),
{
    let t = s.step(g, hold);
    let x = s.wave[0];
    let done = s.done.push(x);
    let rest = s.wave.drop_first();
    let round = t.round;
    lemma_join_list(g, s.done, s.held, s.wave);
    lemma_join_list(g, s.done, s.round.local, s.wave);
    lemma_join_list(g, s.done, s.round.network, s.wave);
    assert(queued(g, s.done, round.local) && all_precede(g, s.done, round.local, rest));
    assert(queued(g, s.done, round.network) && all_precede(g, s.done, round.network, rest));
    let now = |c: int| g.freed(c, done) && !g.awaits(c, round.network);
    let later = |c: int| g.freed(c, done) && g.awaits(c, round.network);
    lemma_fresh(g, s.done, x, now, rest);
    lemma_fresh(g, s.done, x, now, round.local);
    lemma_fresh(g, s.done, x, now, round.network);
    lemma_fresh(g, s.done, x, now, s.held);
    lemma_fresh(g, s.done, x, later, s.next);
    lemma_fresh(g, s.done, x, later, s.held);
    lemma_queued_grows(g, s.done, x, rest);
    lemma_queued_grows(g, s.done, x, s.next);
    lemma_queued_grows(g, s.done, x, s.held);
    lemma_queued_grows(g, s.done, x, round.local);
    lemma_queued_grows(g, s.done, x, round.network);
    lemma_precede_grows(g, s.done, x, round.local, rest);
    lemma_precede_grows(g, s.done, x, round.network, rest);
    lemma_precede_grows(g, s.done, x, s.held, rest);
    lemma_precede_grows(g, s.done, x, s.held, s.next);
    lemma_rounds_grow(g, s.done, x, s.rounds);
    lemma_queued_add(g, done, rest, select(now, g.len()));
    lemma_queued_add(g, done, s.next, select(later, g.len()));
    lemma_precede_add(g, done, round.local, rest, select(now, g.len()));
    lemma_precede_add(g, done, round.network, rest, select(now, g.len()));
    lemma_precede_add(g, done, s.held, rest, select(now, g.len()));
    lemma_precede_add(g, done, s.held, s.next, select(later, g.len()));
    assert(t.wave == rest + select(now, g.len()));
    assert(t.next == s.next + select(later, g.len()));
    assert forall|j: int| 0 <= j < t.next.len() implies release(g, #[trigger] t.next[j], done)
        > 0 by {
        if j < s.next.len() {
            assert(t.next[j] == s.next[j]);
            lemma_ready_grows(g, s.done, x, s.next[j]);
        } else {
            assert(t.next[j] == select(later, g.len())[j - s.next.len()]);
        }
    }
}

proof fn lemma_close_orderly(g: Graph, s: Sweep)
    requires
        orderly(g, s),
        s.wave.len() == 0,
    ensures
        orderly(g, s.close()),
{
    let t = s.close();
    assert forall|k: int| 0 <= k < t.rounds.len() implies queued(
        g,
        s.done,
        (#[trigger] t.rounds[k]).local,
    ) && queued(g, s.done, t.rounds[k].network) by {
        if k < s.rounds.len() {
            assert(t.rounds[k] == s.rounds[k]);
        } else {
            assert(t.rounds[k] == s.round);
        }
    }
}

/// Whether no input depends on anything.
pub open spec fn inputs_come_first(g: Graph) -> bool {
    forall|c: int, d: int| #[trigger] g.depends(c, d) ==> !g.input[c]
}

proof fn lemma_finish_orderly(g: Graph, hold: bool, s: Sweep)
    requires
        g.well_formed(),
        inputs_come_first(g),
        s.consistent(g),
        orderly(g, s),
    ensures
        orderly(g, s.finish(g, hold)),
    decreases g.len() - s.done.len() - s.held.len(), s.next.len(),
{
    lemma_bounded(g, s);
    if s.wave.len() > 0 {
        lemma_step_consistent(g, hold, s);
        lemma_bounded(g, s.step(g, hold));
        assert(s.wave.contains(s.wave[0]));
        if hold && g.input[s.wave[0]] {
            lemma_hold_orderly(g, s);
        } else {
            lemma_place_orderly(g, hold, s);
        }
        lemma_finish_orderly(g, hold, s.step(g, hold));
    } else {
        lemma_close_consistent(g, s);
        lemma_close_orderly(g, s);
        if s.next.len() > 0 {
            lemma_finish_orderly(g, hold, s.close());
        }
    }
}

/// Within a round, local operations and network operations each stand in the order in which they
/// became ready, and those that became ready together in the order of the circuit.
pub proof fn law_first_ready_first_placed(g: Graph)
    requires
        g.well_formed(),
        inputs_come_first(g),
    ensures
        rounds_queued(g, offline_phase(g).done, schedule(g).offline),
        rounds_queued(g, schedule(g).done, schedule(g).online),
{
    lemma_offline_settled(g);
    lemma_online_settled(g);
    let none = Seq::<int>::empty();
    let p = |c: int| g.deps[c].len() == 0;
    let s = Sweep::start(sources(g), none);
    lemma_select(p, g.len());
    assert(s.wave == select(p, g.len()));
    assert forall|i: int| 0 <= i < s.wave.len() implies g.ready(#[trigger] s.wave[i], none)
        && release(g, s.wave[i], none) == 0 by {
        assert(s.wave.contains(s.wave[i]));
        assert(p(s.wave[i]));
    }
    assert(s.round == empty_round());
    assert(orderly(g, s));
    let o = offline_phase(g);
    if s.wave.len() > 0 {
        lemma_finish_orderly(g, true, s);
    }
    assert(orderly(g, o));
    let t = Sweep::start(o.held, o.done);
    assert(orderly(g, t));
    if t.wave.len() > 0 {
        lemma_finish_orderly(g, false, t);
    }
    assert(orderly(g, online_phase(g)));
}

} // verus!
