//! Sorts the operations of a circuit into rounds.

use std::collections::VecDeque;

use vstd::prelude::*;

use crate::mpc::circuit::{graph, pick, realizes, Round};
use crate::mpc::schedule::{
    empty_round, lemma_bounded, lemma_close_consistent, lemma_step_consistent, phase, select, Graph,
    Sweep,
};
use crate::mpc::scheme::{MpcScheme, Operation};

verus! {

/// A list of positions as mathematical integers.
pub open spec fn ints(s: Seq<usize>) -> Seq<int> {
    Seq::new(s.len(), |i: int| s[i] as int)
}

/// The operations that `c` depends on and that are not in `done`.
pub open spec fn missing(g: Graph, c: int, done: Seq<int>) -> Set<int> {
    g.deps[c].to_set().difference(done.to_set())
}

proof fn lemma_missing_push(g: Graph, c: int, done: Seq<int>, i: int)
    requires
        g.has(c),
        !done.contains(i),
    ensures
        missing(g, c, done).finite(),
        g.depends(c, i) ==> missing(g, c, done).len() > 0,
        g.depends(c, i) ==> missing(g, c, done.push(i)).len() == missing(g, c, done).len() - 1,
        !g.depends(c, i) ==> missing(g, c, done.push(i)) == missing(g, c, done),
{
    let a = missing(g, c, done);
    let b = missing(g, c, done.push(i));
    vstd::seq_lib::seq_to_set_is_finite(g.deps[c]);
    done.lemma_push_to_set_commute(i);
    if g.depends(c, i) {
        assert(a.contains(i));
        assert(b =~= a.remove(i));
    } else {
        assert(b =~= a);
    }
}

pub(crate) proof fn lemma_missing_none(g: Graph, c: int, done: Seq<int>)
    requires
        g.has(c),
    ensures
        missing(g, c, done).len() == 0 <==> g.ready(c, done),
{
    let a = missing(g, c, done);
    vstd::seq_lib::seq_to_set_is_finite(g.deps[c]);
    if a.len() == 0 {
        assert(a =~= Set::empty());
        assert forall|d: int| #[trigger] g.depends(c, d) implies done.contains(d) by {
            assert(!a.contains(d));
        }
    }
    if g.ready(c, done) {
        assert forall|d: int| !a.contains(d) by {
            if a.contains(d) {
                assert(g.depends(c, d));
            }
        }
        assert(a =~= Set::empty());
    }
}

/// Numbers that do not satisfy `p` do not show in [`select`].
proof fn lemma_select_skip(p: spec_fn(int) -> bool, a: nat, b: nat)
    requires
        a <= b,
        forall|c: int| a <= c < b ==> !#[trigger] p(c),
    ensures
        select(p, b) == select(p, a),
    decreases b,
{
    if a < b {
        lemma_select_skip(p, a, (b - 1) as nat);
    }
}

/// The operations that are still to be placed, with what each of them waits for.
pub struct Sorter<O> {
    /// The operations without a place.
    pub ops: Vec<Option<O>>,
    /// For each operation, those that depend on it, in ascending order.
    pub consumers: Vec<Vec<usize>>,
    /// For each operation, how many of those it depends on have no place.
    pub in_degree: Vec<usize>,
}

impl<O> Sorter<O> {
    /// Whether this is what is left of `ops`, with the dependencies `g`, after the operations
    /// `placed`, where those that depend on one of `counted` have been told.
    pub open spec fn follows(
        &self,
        g: Graph,
        ops: Seq<O>,
        placed: Seq<int>,
        counted: Seq<int>,
    ) -> bool {
        &&& ops.len() == g.len()
        &&& self.ops@.len() == g.len()
        &&& self.consumers@.len() == g.len()
        &&& self.in_degree@.len() == g.len()
        &&& forall|i: int|
            0 <= i < g.len() ==> #[trigger] self.ops@[i] == if placed.contains(i) {
                None
            } else {
                Some(ops[i])
            }
        &&& forall|i: int| 0 <= i < g.len() ==> lists(#[trigger] self.consumers@[i]@, g, i)
        &&& forall|i: int|
            0 <= i < g.len() ==> #[trigger] self.in_degree@[i] == missing(g, i, counted).len()
    }

    /// Whether this is what is left of `ops`, with the dependencies `g`, after the operations `done`.
    pub open spec fn tracks(&self, g: Graph, ops: Seq<O>, done: Seq<int>) -> bool {
        self.follows(g, ops, done, done)
    }
}

/// Whether `list` holds the operations that depend on `i`, in ascending order.
pub open spec fn lists(list: Seq<usize>, g: Graph, i: int) -> bool {
    &&& forall|a: int, b: int| 0 <= a < b < list.len() ==> #[trigger] list[a] < #[trigger] list[b]
    &&& forall|a: int| 0 <= a < list.len() ==> g.depends(#[trigger] list[a] as int, i)
    &&& forall|c: int| #[trigger] g.depends(c, i) ==> c <= usize::MAX && list.contains(c as usize)
}

/// Whether `marks` tells which operations depend on one of `network`, in the round `round`.
pub open spec fn marked(marks: Seq<Option<usize>>, g: Graph, network: Seq<int>, round: int) -> bool {
    &&& marks.len() == g.len()
    &&& forall|c: int| 0 <= c < g.len() ==> (#[trigger] marks[c] matches Some(k) ==> k <= round)
    &&& forall|c: int|
        0 <= c < g.len() ==> (#[trigger] marks[c] matches Some(k) && k == round) == g.awaits(
            c,
            network,
        )
}

} // verus!

verus! {

impl<O> Sorter<O> {
    /// Tells those that depend on `op`, which was just placed in the round `round`. The ones that
    /// become ready join `wave`, or `next` if they depend on a network operation of the round.
    fn release(
        &mut self,
        op: usize,
        op_local: bool,
        round: usize,
        marks: &mut Vec<Option<usize>>,
        wave: &mut VecDeque<usize>,
        next: &mut VecDeque<usize>,
        Ghost(g): Ghost<Graph>,
        Ghost(ops): Ghost<Seq<O>>,
        Ghost(done): Ghost<Seq<int>>,
        Ghost(network): Ghost<Seq<int>>,
    )
        requires
            g.well_formed(),
            g.has(op as int),
            !done.contains(op as int),
            old(self).follows(g, ops, done.push(op as int), done),
            marked(old(marks)@, g, network, round as int),
        ensures
            final(self).tracks(g, ops, done.push(op as int)),
            ({
                let after = if op_local { network } else { network.push(op as int) };
                let now = done.push(op as int);
                &&& marked(final(marks)@, g, after, round as int)
                &&& ints(final(wave)@) == ints(old(wave)@) + select(
                    |c: int| g.freed(c, now) && !g.awaits(c, after),
                    g.len(),
                )
                &&& ints(final(next)@) == ints(old(next)@) + select(
                    |c: int| g.freed(c, now) && g.awaits(c, after),
                    g.len(),
                )
            }),
    {
        let ghost now = done.push(op as int);
        let ghost after = if op_local { network } else { network.push(op as int) };
        let ghost near = |c: int| g.freed(c, now) && !g.awaits(c, after);
        let ghost far = |c: int| g.freed(c, now) && g.awaits(c, after);
        let ghost list = self.consumers@[op as int]@;
        let ghost mut bound: nat = 0;
        let ghost wave0 = ints(wave@);
        let ghost next0 = ints(next@);
        let ghost ops0 = self.ops@;
        let ghost consumers0 = self.consumers@;
        assert(now.last() == op as int);
        assert(lists(list, g, op as int));
        proof {
            assert(wave0 + select(near, 0) =~= wave0);
            assert(next0 + select(far, 0) =~= next0);
        }
        let mut j: usize = 0;
        while j < self.consumers[op].len()
            invariant
                g.well_formed(),
                g.has(op as int),
                !done.contains(op as int),
                now == done.push(op as int),
                now.last() == op as int,
                after == (if op_local { network } else { network.push(op as int) }),
                near == (|c: int| g.freed(c, now) && !g.awaits(c, after)),
                far == (|c: int| g.freed(c, now) && g.awaits(c, after)),
                self.consumers@ == consumers0,
                consumers0.len() == g.len(),
                consumers0[op as int]@ == list,
                lists(list, g, op as int),
                self.ops@ == ops0,
                self.in_degree@.len() == g.len(),
                marks@.len() == g.len(),
                j <= list.len(),
                bound == (if j == 0 { 0 } else { (list[j - 1] + 1) as nat }),
                bound <= g.len(),
                forall|c: int|
                    0 <= c < g.len() ==> #[trigger] self.in_degree@[c] == (if c < bound {
                        missing(g, c, now).len()
                    } else {
                        missing(g, c, done).len()
                    }),
                forall|c: int|
                    0 <= c < g.len() ==> (#[trigger] marks@[c] matches Some(k) ==> k <= round),
                forall|c: int|
                    0 <= c < g.len() ==> (#[trigger] marks@[c] matches Some(k) && k == round)
                        == g.awaits(c, if c < bound { after } else { network }),
                ints(wave@) == wave0 + select(near, bound),
                ints(next@) == next0 + select(far, bound),
            decreases list.len() - j,
        {
            let c = self.consumers[op][j];
            let ghost ci = c as int;
            proof {
                assert(g.depends(list[j as int] as int, op as int));
                assert(bound <= c);
                assert forall|x: int| bound <= x < c implies !g.depends(x, op as int) by {
                    if g.depends(x, op as int) {
                        let a = list.index_of(x as usize);
                        assert(list[a] == x);
                        if a < j {
                            assert(a == j - 1 || list[a] < list[j - 1]);
                        } else {
                            assert(a == j || list[j as int] < list[a]);
                        }
                    }
                }
                lemma_select_skip(near, bound, c as nat);
                lemma_select_skip(far, bound, c as nat);
                lemma_missing_push(g, ci, done, op as int);
                lemma_missing_none(g, ci, now);
                assert forall|x: int| bound <= x < c implies g.awaits(x, after) == g.awaits(x, network) by {
                    lemma_awaits_other(g, x, network, op as int);
                }
                assert forall|x: int| bound <= x < c implies missing(g, x, now) == missing(g, x, done) by {
                    lemma_missing_push(g, x, done, op as int);
                }
            }
            if !op_local {
                marks[c] = Some(round);
            }
            let left = self.in_degree[c] - 1;
            self.in_degree[c] = left;
            proof {
                lemma_awaits_push(g, ci, network, op as int);
            }
            if left == 0 {
                let blocked = match marks[c] {
                    Some(k) => k == round,
                    None => false,
                };
                if blocked {
                    let ghost before = next@;
                    next.push_back(c);
                    assert(far(ci));
                    assert(ints(before.push(c)) =~= ints(before).push(ci));
                    assert((next0 + select(far, c as nat)).push(ci) =~= next0 + select(
                        far,
                        c as nat,
                    ).push(ci));
                } else {
                    let ghost before = wave@;
                    wave.push_back(c);
                    assert(near(ci));
                    assert(ints(before.push(c)) =~= ints(before).push(ci));
                    assert((wave0 + select(near, c as nat)).push(ci) =~= wave0 + select(
                        near,
                        c as nat,
                    ).push(ci));
                }
            }
            proof {
                bound = (c + 1) as nat;
                assert(select(near, bound) == if near(ci) { select(near, c as nat).push(ci) } else { select(near, c as nat) });
                assert(select(far, bound) == if far(ci) { select(far, c as nat).push(ci) } else { select(far, c as nat) });
            }
            j = j + 1;
        }
        proof {
            assert forall|x: int| bound <= x < g.len() implies !g.depends(x, op as int) by {
                if g.depends(x, op as int) {
                    let a = list.index_of(x as usize);
                    assert(list[a] == x);
                    assert(a == j - 1 || list[a] < list[j - 1]);
                }
            }
            lemma_select_skip(near, bound, g.len());
            lemma_select_skip(far, bound, g.len());
            assert forall|x: int| bound <= x < g.len() implies g.awaits(x, after) == g.awaits(x, network) by {
                lemma_awaits_other(g, x, network, op as int);
            }
            assert forall|x: int| bound <= x < g.len() implies missing(g, x, now) == missing(g, x, done) by {
                lemma_missing_push(g, x, done, op as int);
            }
        }
    }
}

proof fn lemma_awaits_other(g: Graph, c: int, network: Seq<int>, i: int)
    requires
        !g.depends(c, i),
    ensures
        g.awaits(c, network.push(i)) == g.awaits(c, network),
{
    if g.awaits(c, network.push(i)) {
        let d = choose|d: int| #[trigger] g.depends(c, d) && network.push(i).contains(d);
        let k = network.push(i).index_of(d);
        assert(network[k] == d);
        assert(g.depends(c, d) && network.contains(d));
    }
    if g.awaits(c, network) {
        let d = choose|d: int| #[trigger] g.depends(c, d) && network.contains(d);
        assert(network.push(i)[network.index_of(d)] == d);
        assert(g.depends(c, d) && network.push(i).contains(d));
    }
}

proof fn lemma_awaits_push(g: Graph, c: int, network: Seq<int>, i: int)
    requires
        g.depends(c, i),
    ensures
        g.awaits(c, network.push(i)),
{
    assert(network.push(i)[network.len() as int] == i);
    assert(g.depends(c, i) && network.push(i).contains(i));
}

} // verus!

verus! {

/// As many absent marks as there are operations.
fn no_marks(n: usize) -> (marks: Vec<Option<usize>>)
    ensures
        marks@ == Seq::new(n as nat, |i: int| None::<usize>),
{
    let mut marks: Vec<Option<usize>> = Vec::new();
    let mut i: usize = 0;
    while i < n
        invariant
            i <= n,
            marks@ == Seq::new(i as nat, |i: int| None::<usize>),
        decreases n - i,
    {
        marks.push(None);
        i = i + 1;
    }
    marks
}

/// Sorts a phase that starts with `wave` into rounds. If `hold_inputs` is set, the input operations
/// are left out of the rounds and handed back.
pub(crate) fn sort_phase<S: MpcScheme>(
    scheme: &S,
    sorter: &mut Sorter<S::Operation>,
    wave: VecDeque<usize>,
    hold_inputs: bool,
    Ghost(ops): Ghost<Seq<S::Operation>>,
    Ghost(done): Ghost<Seq<int>>,
) -> (sorted: (Vec<Round<S>>, VecDeque<usize>))
    requires
        graph(*scheme, ops).well_formed(),
        old(sorter).tracks(graph(*scheme, ops), ops, done),
        Sweep::start(ints(wave@), done).consistent(graph(*scheme, ops)),
    ensures
        ({
            let g = graph(*scheme, ops);
            let end = phase(g, hold_inputs, ints(wave@), done);
            &&& realizes(sorted.0@, ops, end.rounds)
            &&& ints(sorted.1@) == end.held
            &&& final(sorter).tracks(g, ops, end.done)
        }),
{
    let ghost g = graph(*scheme, ops);
    let ghost end = phase(g, hold_inputs, ints(wave@), done);
    let ghost mut s = Sweep::start(ints(wave@), done);
    let mut wave = wave;
    let mut held: VecDeque<usize> = VecDeque::new();
    let mut rounds: Vec<Round<S>> = Vec::new();
    let mut marks = no_marks(sorter.ops.len());
    assert(ints(held@) =~= s.held);
    while wave.len() > 0
        invariant
            g == graph(*scheme, ops),
            g.well_formed(),
            sorter.tracks(g, ops, s.done),
            s.consistent(g),
            s.wave == ints(wave@),
            s.next.len() == 0,
            s.held == ints(held@),
            s.round == empty_round(),
            realizes(rounds@, ops, s.rounds),
            wave@.len() > 0 ==> s.finish(g, hold_inputs) == end,
            wave@.len() == 0 ==> s == end,
            marks@.len() == g.len(),
            forall|c: int|
                0 <= c < g.len() ==> (#[trigger] marks@[c] matches Some(k) ==> k < rounds@.len()),
        decreases g.len() - s.done.len() - s.held.len(),
    {
        let mut next: VecDeque<usize> = VecDeque::new();
        let mut local_operations: Vec<S::Operation> = Vec::new();
        let mut network_operations: Vec<S::Operation> = Vec::new();
        let ghost placed = s.done.len() + s.held.len();
        proof {
            lemma_bounded(g, s);
            assert(ints(next@) =~= s.next);
            assert(pick(ops, s.round.local) =~= local_operations@);
            assert(pick(ops, s.round.network) =~= network_operations@);
            assert forall|c: int| 0 <= c < g.len() implies !g.awaits(c, s.round.network) by {}
        }
        while wave.len() > 0
            invariant
                g == graph(*scheme, ops),
                g.well_formed(),
                sorter.tracks(g, ops, s.done),
                s.consistent(g),
                s.wave == ints(wave@),
                s.next == ints(next@),
                s.held == ints(held@),
                s.rounds.len() == rounds@.len(),
                realizes(rounds@, ops, s.rounds),
                pick(ops, s.round.local) == local_operations@,
                pick(ops, s.round.network) == network_operations@,
                s.finish(g, hold_inputs) == end,
                marked(marks@, g, s.round.network, rounds@.len() as int),
                wave@.len() > 0 || s.done.len() + s.held.len() > placed,
                s.done.len() + s.held.len() >= placed,
                s.done.len() + s.held.len() <= g.len(),
            decreases g.len() - s.done.len() - s.held.len(),
        {
            let ghost before = wave@;
            let op_idx = wave.pop_front().unwrap();
            let ghost i = op_idx as int;
            proof {
                assert(before[0] == op_idx);
                assert(s.wave[0] == i);
                assert(s.wave.contains(i));
                assert(s.knows(i));
                assert(ints(wave@) =~= s.wave.drop_first());
                lemma_step_consistent(g, hold_inputs, s);
                lemma_bounded(g, s.step(g, hold_inputs));
            }
            let is_input = match &sorter.ops[op_idx] {
                Some(op) => op.is_input(),
                None => false,
            };
            if hold_inputs && is_input {
                let ghost held_before = held@;
                held.push_back(op_idx);
                proof {
                    assert(ints(held_before.push(op_idx)) =~= ints(held_before).push(i));
                    s = s.step(g, hold_inputs);
                }
            } else {
                let ghost sorter_before = *sorter;
                let op = sorter.ops[op_idx].take().unwrap();
                let op_local = scheme.is_operation_local(&op);
                proof {
                    assert(op == ops[i]);
                    assert(pick(ops, s.round.local.push(i)) =~= pick(ops, s.round.local).push(op));
                    assert(pick(ops, s.round.network.push(i)) =~= pick(ops, s.round.network).push(op));
                    assert forall|j: int|
                        0 <= j < g.len() implies #[trigger] sorter.ops@[j] == if s.done.push(i).contains(
                        j,
                    ) {
                        None
                    } else {
                        Some(ops[j])
                    } by {
                        if s.done.contains(j) {
                            assert(s.done.push(i)[s.done.index_of(j)] == j);
                        }
                        assert(s.done.push(i)[s.done.len() as int] == i);
                    }
                }
                if op_local {
                    local_operations.push(op);
                } else {
                    network_operations.push(op);
                }
                let round = rounds.len();
                sorter.release(
                    op_idx,
                    op_local,
                    round,
                    &mut marks,
                    &mut wave,
                    &mut next,
                    Ghost(g),
                    Ghost(ops),
                    Ghost(s.done),
                    Ghost(s.round.network),
                );
                proof {
                    s = s.step(g, hold_inputs);
                }
            }
        }
        let ghost rounds_before = rounds@;
        rounds.push(Round::from_operations(local_operations, network_operations));
        std::mem::swap(&mut wave, &mut next);
        proof {
            lemma_close_consistent(g, s);
            let t = s.close();
            assert forall|k: int| 0 <= k < rounds@.len() implies (#[trigger] rounds@[k]).local() == pick(
                ops,
                t.rounds[k].local,
            ) && rounds@[k].network() == pick(ops, t.rounds[k].network) by {
                if k < rounds_before.len() {
                    assert(rounds@[k] == rounds_before[k]);
                }
            }
            s = t;
        }
    }
    (rounds, held)
}

} // verus!
