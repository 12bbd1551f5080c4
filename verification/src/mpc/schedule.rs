//! The order in which the operations of a circuit run.
//!
//! Operations are sorted by Kahn's algorithm, first in, first out. Each phase is a sequence of
//! rounds; a round runs its local operations one after the other and then its network operations
//! together.

use vstd::prelude::*;

verus! {

/// The dependencies between the operations of a circuit, which are numbered from zero.
pub struct Graph {
    /// For each operation, the operations that produce the wires it consumes.
    pub deps: Seq<Seq<int>>,
    /// Whether an operation is an input.
    pub input: Seq<bool>,
    /// Whether an operation is local.
    pub local: Seq<bool>,
}

impl Graph {
    /// The number of operations.
    pub open spec fn len(self) -> nat {
        self.deps.len()
    }

    /// Whether `c` is an operation.
    pub open spec fn has(self, c: int) -> bool {
        0 <= c < self.deps.len()
    }

    /// Whether the operation `c` consumes a wire that `d` produces.
    pub open spec fn depends(self, c: int, d: int) -> bool {
        self.has(c) && self.deps[c].contains(d)
    }

    /// Every operation is described, every dependency is an operation, no input is local.
    pub open spec fn well_formed(self) -> bool {
        &&& self.input.len() == self.len()
        &&& self.local.len() == self.len()
        &&& forall|c: int, d: int| #[trigger] self.depends(c, d) ==> self.has(d)
        &&& forall|c: int| self.has(c) && #[trigger] self.input[c] ==> !self.local[c]
    }

    /// Whether everything that `c` depends on is in `done`.
    pub open spec fn ready(self, c: int, done: Seq<int>) -> bool {
        forall|d: int| #[trigger] self.depends(c, d) ==> done.contains(d)
    }

    /// Whether `c` depends on one of the operations `network`.
    pub open spec fn awaits(self, c: int, network: Seq<int>) -> bool {
        exists|d: int| #[trigger] self.depends(c, d) && network.contains(d)
    }

    /// Whether `c` becomes ready with the last operation of `done`.
    pub open spec fn freed(self, c: int, done: Seq<int>) -> bool {
        self.depends(c, done.last()) && self.ready(c, done)
    }

    /// Whether the operations can be ranked such that each one ranks above those it depends on.
    pub open spec fn acyclic(self) -> bool {
        exists|rank: spec_fn(int) -> nat| self.ranked(rank)
    }

    /// Whether each operation ranks above those it depends on.
    pub open spec fn ranked(self, rank: spec_fn(int) -> nat) -> bool {
        forall|c: int, d: int| #[trigger] self.depends(c, d) ==> rank(d) < rank(c)
    }

    /// Whether `c` is an input, or depends on one over at most `steps` dependencies.
    pub open spec fn input_within(self, c: int, steps: nat) -> bool
        decreases steps,
    {
        ||| self.input[c]
        ||| steps > 0 && exists|d: int| #[trigger]
            self.depends(c, d) && self.input_within(d, (steps - 1) as nat)
    }

    /// Whether the value of `c` depends on an input of a user.
    pub open spec fn input_dependent(self, c: int) -> bool {
        exists|steps: nat| self.input_within(c, steps)
    }
}

/// The numbers below `n` that satisfy `p`, in ascending order.
pub open spec fn select(p: spec_fn(int) -> bool, n: nat) -> Seq<int>
    decreases n,
{
    if n == 0 {
        Seq::empty()
    } else if p(n - 1) {
        select(p, (n - 1) as nat).push(n - 1)
    } else {
        select(p, (n - 1) as nat)
    }
}

/// A round, by the numbers of its operations.
pub struct RoundPlan {
    /// The local operations, in order.
    pub local: Seq<int>,
    /// The network operations, in order.
    pub network: Seq<int>,
}

/// A phase being sorted into rounds.
pub struct Sweep {
    /// The operations that can run in the current round.
    pub wave: Seq<int>,
    /// The operations that can run in the next round.
    pub next: Seq<int>,
    /// The operations that are placed, in the order in which they were.
    pub done: Seq<int>,
    /// The input operations that are left to the online phase.
    pub held: Seq<int>,
    /// The rounds that are complete.
    pub rounds: Seq<RoundPlan>,
    /// The current round.
    pub round: RoundPlan,
}

/// A round without operations.
pub open spec fn empty_round() -> RoundPlan {
    RoundPlan { local: Seq::empty(), network: Seq::empty() }
}

impl Sweep {
    /// The start of a phase that finds `wave` ready after the operations `done`.
    pub open spec fn start(wave: Seq<int>, done: Seq<int>) -> Sweep {
        Sweep {
            wave,
            next: Seq::empty(),
            done,
            held: Seq::empty(),
            rounds: Seq::empty(),
            round: empty_round(),
        }
    }

    /// Takes the first operation of the wave. An input is held back if `hold` is set; any other
    /// operation joins the current round, and those that it frees join the wave, or the next one
    /// if they await a network operation of this round.
    pub open spec fn step(self, g: Graph, hold: bool) -> Sweep {
        let i = self.wave[0];
        if hold && g.input[i] {
            Sweep { wave: self.wave.drop_first(), held: self.held.push(i), ..self }
        } else {
            let done = self.done.push(i);
            let round = if g.local[i] {
                RoundPlan { local: self.round.local.push(i), ..self.round }
            } else {
                RoundPlan { network: self.round.network.push(i), ..self.round }
            };
            Sweep {
                wave: self.wave.drop_first() + select(
                    |c: int| g.freed(c, done) && !g.awaits(c, round.network),
                    g.len(),
                ),
                next: self.next + select(
                    |c: int| g.freed(c, done) && g.awaits(c, round.network),
                    g.len(),
                ),
                done,
                round,
                ..self
            }
        }
    }

    /// Completes the current round and turns to the next wave.
    pub open spec fn close(self) -> Sweep {
        Sweep {
            wave: self.next,
            next: Seq::empty(),
            rounds: self.rounds.push(self.round),
            round: empty_round(),
            ..self
        }
    }

    /// Whether the operation `c` is known to be ready.
    pub open spec fn knows(self, c: int) -> bool {
        ||| self.wave.contains(c)
        ||| self.next.contains(c)
        ||| self.done.contains(c)
        ||| self.held.contains(c)
    }

    /// No operation is listed twice.
    pub open spec fn distinct(self) -> bool {
        &&& self.wave.no_duplicates()
        &&& self.next.no_duplicates()
        &&& self.done.no_duplicates()
        &&& self.held.no_duplicates()
        &&& forall|c: int| self.wave.contains(c) ==> !#[trigger] self.next.contains(c)
        &&& forall|c: int| self.wave.contains(c) ==> !#[trigger] self.done.contains(c)
        &&& forall|c: int| self.wave.contains(c) ==> !#[trigger] self.held.contains(c)
        &&& forall|c: int| self.next.contains(c) ==> !#[trigger] self.done.contains(c)
        &&& forall|c: int| self.next.contains(c) ==> !#[trigger] self.held.contains(c)
        &&& forall|c: int| self.done.contains(c) ==> !#[trigger] self.held.contains(c)
    }

    /// The operations known to be ready are the ready ones, each listed once.
    pub open spec fn consistent(self, g: Graph) -> bool {
        &&& self.distinct()
        &&& forall|c: int| #[trigger] self.knows(c) <==> g.has(c) && g.ready(c, self.done)
    }

    /// Sorts the rest of the phase.
    pub open spec fn finish(self, g: Graph, hold: bool) -> Sweep
        decreases g.len() - self.done.len() - self.held.len(), self.next.len(),
        when g.well_formed() && self.consistent(g)
        via Sweep::finish_decreases
    {
        if self.wave.len() > 0 {
            self.step(g, hold).finish(g, hold)
        } else if self.next.len() > 0 {
            self.close().finish(g, hold)
        } else {
            self.close()
        }
    }

    #[via_fn]
    proof fn finish_decreases(self, g: Graph, hold: bool) {
        lemma_bounded(g, self);
        if self.wave.len() > 0 {
            lemma_step_consistent(g, hold, self);
            lemma_bounded(g, self.step(g, hold));
        } else {
            lemma_close_consistent(g, self);
        }
    }
}

/// The rounds of both phases of a circuit, by the numbers of the operations.
pub struct Schedule {
    /// The rounds of the offline phase.
    pub offline: Seq<RoundPlan>,
    /// The rounds of the online phase.
    pub online: Seq<RoundPlan>,
    /// The operations that have a place, in the order in which they got it.
    pub done: Seq<int>,
}

/// The operations that depend on nothing.
pub open spec fn sources(g: Graph) -> Seq<int> {
    select(|c: int| g.deps[c].len() == 0, g.len())
}

/// Sorts a phase that starts with `wave`; without a wave it has no rounds.
pub open spec fn phase(g: Graph, hold: bool, wave: Seq<int>, done: Seq<int>) -> Sweep {
    if wave.len() > 0 {
        Sweep::start(wave, done).finish(g, hold)
    } else {
        Sweep::start(wave, done)
    }
}

/// The offline phase: everything that can be placed while the inputs are held back.
pub open spec fn offline_phase(g: Graph) -> Sweep {
    phase(g, true, sources(g), Seq::empty())
}

/// The online phase: it starts with the inputs that were held back.
pub open spec fn online_phase(g: Graph) -> Sweep {
    phase(g, false, offline_phase(g).held, offline_phase(g).done)
}

/// The schedule of a circuit.
pub open spec fn schedule(g: Graph) -> Schedule {
    Schedule {
        offline: offline_phase(g).rounds,
        online: online_phase(g).rounds,
        done: online_phase(g).done,
    }
}

} // verus!
verus! {

/// [`select`] lists exactly the numbers below `n` that satisfy `p`, once each and in order.
pub proof fn lemma_select(p: spec_fn(int) -> bool, n: nat)
    ensures
        forall|c: int| #[trigger] select(p, n).contains(c) <==> 0 <= c < n && p(c),
        forall|i: int, j: int|
            0 <= i < j < select(p, n).len() ==> #[trigger] select(p, n)[i] < #[trigger] select(p, n)[j],
        select(p, n).no_duplicates(),
    decreases n,
{
    if n > 0 {
        let m = (n - 1) as nat;
        lemma_select(p, m);
        let s = select(p, m);
        let t = select(p, n);
        assert forall|c: int| #[trigger] t.contains(c) <==> 0 <= c < n && p(c) by {
            if t.contains(c) {
                let i = t.index_of(c);
                if i < s.len() {
                    assert(s[i] == c);
                    assert(s.contains(c));
                }
            }
            if 0 <= c < n && p(c) {
                if c < m {
                    assert(s.contains(c));
                    let i = s.index_of(c);
                    assert(t[i] == c);
                } else {
                    assert(t.last() == c);
                }
            }
        }
        assert forall|i: int, j: int| 0 <= i < j < t.len() implies #[trigger] t[i] < #[trigger] t[j] by {
            if j < s.len() {
                assert(t[i] == s[i] && t[j] == s[j]);
            } else if i < s.len() {
                assert(s.contains(s[i]));
            }
        }
    }
}

/// A sweep names at most every operation.
pub(crate) proof fn lemma_bounded(g: Graph, s: Sweep)
    requires
        s.consistent(g),
    ensures
        s.done.len() + s.held.len() <= g.len(),
{
    s.done.unique_seq_to_set();
    s.held.unique_seq_to_set();
    let both = s.done.to_set() + s.held.to_set();
    let all = vstd::set_lib::set_int_range(0, g.len() as int);
    vstd::set_lib::lemma_int_range(0, g.len() as int);
    assert(both.subset_of(all)) by {
        assert forall|c: int| both.contains(c) implies all.contains(c) by {
            assert(s.knows(c));
        }
    }
    assert(s.done.to_set().disjoint(s.held.to_set()));
    vstd::set_lib::lemma_set_disjoint_lens(s.done.to_set(), s.held.to_set());
    vstd::set_lib::lemma_len_subset(both, all);
}

pub(crate) proof fn lemma_close_consistent(g: Graph, s: Sweep)
    requires
        s.consistent(g),
        s.wave.len() == 0,
    ensures
        s.close().consistent(g),
{
    assert forall|c: int| #[trigger] s.close().knows(c) <==> s.knows(c) by {}
}

/// Appending to a sequence adds one element.
proof fn lemma_push_contains(s: Seq<int>, x: int)
    ensures
        forall|c: int| #[trigger] s.push(x).contains(c) <==> s.contains(c) || c == x,
{
    assert forall|c: int| #[trigger] s.push(x).contains(c) <==> s.contains(c) || c == x by {
        if s.contains(c) {
            assert(s.push(x)[s.index_of(c)] == c);
        }
        assert(s.push(x)[s.len() as int] == x);
    }
}

/// A concatenation holds the elements of both parts.
proof fn lemma_add_contains(a: Seq<int>, b: Seq<int>)
    ensures
        forall|c: int| #[trigger] (a + b).contains(c) <==> a.contains(c) || b.contains(c),
{
    assert forall|c: int| #[trigger] (a + b).contains(c) <==> a.contains(c) || b.contains(c) by {
        if a.contains(c) {
            assert((a + b)[a.index_of(c)] == c);
        }
        if b.contains(c) {
            assert((a + b)[a.len() + b.index_of(c)] == c);
        }
    }
}

/// Two sequences of distinct elements that share none make one.
proof fn lemma_add_distinct(a: Seq<int>, b: Seq<int>)
    requires
        a.no_duplicates(),
        b.no_duplicates(),
        forall|c: int| a.contains(c) ==> !#[trigger] b.contains(c),
    ensures
        (a + b).no_duplicates(),
{
    let s = a + b;
    assert forall|i: int, j: int| 0 <= i < s.len() && 0 <= j < s.len() && i != j implies s[i] != s[j] by {
        if i < a.len() {
            assert(a.contains(s[i]));
        } else {
            assert(b.contains(s[i]));
        }
        if j < a.len() {
            assert(a.contains(s[j]));
        } else {
            assert(b.contains(s[j]));
        }
    }
}

/// A new element keeps the elements of a sequence distinct.
proof fn lemma_push_distinct(s: Seq<int>, x: int)
    requires
        s.no_duplicates(),
        !s.contains(x),
    ensures
        s.push(x).no_duplicates(),
{
    assert forall|i: int, j: int|
        0 <= i < s.len() + 1 && 0 <= j < s.len() + 1 && i != j implies s.push(x)[i] != s.push(x)[j] by {
        if i < s.len() {
            assert(s.contains(s[i]));
        }
        if j < s.len() {
            assert(s.contains(s[j]));
        }
    }
}

/// Without its first element, a sequence of distinct elements holds all the others.
proof fn lemma_drop_first_contains(s: Seq<int>)
    requires
        s.len() > 0,
        s.no_duplicates(),
    ensures
        forall|c: int| #[trigger] s.drop_first().contains(c) <==> s.contains(c) && c != s[0],
        s.drop_first().no_duplicates(),
{
    assert forall|c: int| #[trigger] s.drop_first().contains(c) <==> s.contains(c) && c != s[0] by {
        if s.drop_first().contains(c) {
            let j = s.drop_first().index_of(c);
            assert(s[j + 1] == c);
        }
        if s.contains(c) && c != s[0] {
            let j = s.index_of(c);
            assert(s.drop_first()[j - 1] == c);
        }
    }
}

pub(crate) proof fn lemma_step_consistent(g: Graph, hold: bool, s: Sweep)
    requires
        g.well_formed(),
        s.consistent(g),
        s.wave.len() > 0,
    ensures
        s.step(g, hold).consistent(g),
{
    let i = s.wave[0];
    let t = s.step(g, hold);
    let rest = s.wave.drop_first();
    assert(s.wave.contains(i));
    assert(s.knows(i));
    lemma_drop_first_contains(s.wave);
    if hold && g.input[i] {
        lemma_push_contains(s.held, i);
        lemma_push_distinct(s.held, i);
        assert forall|c: int| #[trigger] t.knows(c) <==> s.knows(c) by {}
    } else {
        let done = s.done.push(i);
        let network = t.round.network;
        let near = |c: int| g.freed(c, done) && !g.awaits(c, network);
        let far = |c: int| g.freed(c, done) && g.awaits(c, network);
        let a = select(near, g.len());
        let b = select(far, g.len());
        lemma_select(near, g.len());
        lemma_select(far, g.len());
        lemma_push_contains(s.done, i);
        lemma_add_contains(rest, a);
        lemma_add_contains(s.next, b);
        assert(t.wave == rest + a);
        assert(t.next == s.next + b);
        assert(done.last() == i);
        assert forall|c: int| s.knows(c) implies !g.freed(c, done) by {
            if g.freed(c, done) {
                assert(g.depends(c, i));
                assert(s.done.contains(i));
            }
        }
        assert forall|c: int| #[trigger] t.knows(c) <==> g.has(c) && g.ready(c, done) by {
            if g.has(c) && g.ready(c, done) && !s.knows(c) {
                assert(!g.ready(c, s.done));
                let d = choose|d: int| #[trigger] g.depends(c, d) && !s.done.contains(d);
                assert(done.contains(d));
                assert(d == i);
                assert(g.freed(c, done));
            }
            if s.knows(c) {
                assert(g.ready(c, done)) by {
                    assert forall|d: int| #[trigger] g.depends(c, d) implies done.contains(d) by {
                        assert(s.done.contains(d));
                    }
                }
            }
        }
        lemma_push_distinct(s.done, i);
        assert forall|c: int| rest.contains(c) implies !#[trigger] a.contains(c) by {
            assert(s.knows(c));
        }
        lemma_add_distinct(rest, a);
        assert forall|c: int| s.next.contains(c) implies !#[trigger] b.contains(c) by {
            assert(s.knows(c));
        }
        lemma_add_distinct(s.next, b);
        assert forall|c: int| #[trigger] s.knows(c) implies !a.contains(c) && !b.contains(c) by {}
        assert forall|c: int| t.wave.contains(c) implies !#[trigger] t.next.contains(c) by {
            assert((rest + a).contains(c));
            if (s.next + b).contains(c) {
                assert(s.next.contains(c) || b.contains(c));
                if a.contains(c) {
                    assert(near(c));
                    assert(!s.knows(c));
                    assert(far(c));
                } else {
                    assert(s.knows(c));
                    assert(far(c));
                }
            }
        }
        assert forall|c: int| t.wave.contains(c) implies !#[trigger] t.done.contains(c) by {
            assert((rest + a).contains(c));
            if done.contains(c) {
                assert(s.knows(c));
                assert(!a.contains(c));
                assert(s.wave.contains(c) && c != i);
                assert(s.done.contains(c));
            }
        }
        assert forall|c: int| t.wave.contains(c) implies !#[trigger] t.held.contains(c) by {
            assert((rest + a).contains(c));
            if s.held.contains(c) {
                assert(s.knows(c));
                assert(!a.contains(c));
            }
        }
        assert forall|c: int| t.next.contains(c) implies !#[trigger] t.done.contains(c) by {
            assert((s.next + b).contains(c));
            if done.contains(c) {
                assert(s.knows(c));
                assert(!b.contains(c));
                assert(s.next.contains(c));
            }
        }
        assert forall|c: int| t.next.contains(c) implies !#[trigger] t.held.contains(c) by {
            assert((s.next + b).contains(c));
            if s.held.contains(c) {
                assert(s.knows(c));
                assert(!b.contains(c));
            }
        }
        assert(t.distinct());
    }
}

} // verus!

verus! {

/// The operations of a sequence of rounds, in the order in which they run.
pub open spec fn flat(rounds: Seq<RoundPlan>) -> Seq<int>
    decreases rounds.len(),
{
    if rounds.len() == 0 {
        Seq::empty()
    } else {
        flat(rounds.drop_last()) + rounds.last().local + rounds.last().network
    }
}

/// In a round that runs after the operations `ran`, each local operation depends on these and on
/// the local operations before it only, and each network operation on these and on the local
/// operations of the round only.
pub open spec fn round_in_order(g: Graph, ran: Seq<int>, round: RoundPlan) -> bool {
    &&& forall|j: int, d: int|
        0 <= j < round.local.len() && #[trigger] g.depends(round.local[j], d) ==> ran.contains(d)
            || round.local.take(j).contains(d)
    &&& forall|j: int, d: int|
        0 <= j < round.network.len() && #[trigger] g.depends(round.network[j], d) ==> ran.contains(d)
            || round.local.contains(d)
}

/// No round consumes a wire before it is produced, where the operations `ran` have run before.
pub open spec fn in_order(g: Graph, ran: Seq<int>, rounds: Seq<RoundPlan>) -> bool {
    forall|k: int|
        0 <= k < rounds.len() ==> round_in_order(g, ran + flat(rounds.take(k)), #[trigger] rounds[k])
}

/// The round holds its local operations apart from its network operations.
pub open spec fn round_partitioned(g: Graph, round: RoundPlan) -> bool {
    &&& forall|c: int| #[trigger] round.local.contains(c) ==> g.local[c]
    &&& forall|c: int| #[trigger] round.network.contains(c) ==> !g.local[c]
}

/// Every round holds its local operations apart from its network operations.
pub open spec fn partitioned(g: Graph, rounds: Seq<RoundPlan>) -> bool {
    forall|k: int| 0 <= k < rounds.len() ==> round_partitioned(g, #[trigger] rounds[k])
}

/// Whether `c` takes its place in a round, and not earlier, because it depends on a local
/// operation of the round, `local`, or on a network operation of the round before, `network`.
pub open spec fn due(g: Graph, c: int, local: Seq<int>, network: Seq<int>) -> bool {
    exists|d: int| #[trigger] g.depends(c, d) && (local.contains(d) || network.contains(d))
}

/// Every operation after the first round runs in the earliest possible round.
pub open spec fn earliest(g: Graph, rounds: Seq<RoundPlan>) -> bool {
    forall|k: int, c: int|
        0 < k < rounds.len() && #[trigger] (rounds[k].local + rounds[k].network).contains(c) ==> due(
            g,
            c,
            rounds[k].local,
            rounds[k - 1].network,
        )
}

/// Each operation comes after those it depends on.
pub open spec fn topological(g: Graph, order: Seq<int>) -> bool {
    forall|j: int, d: int|
        0 <= j < order.len() && #[trigger] g.depends(order[j], d) ==> order.take(j).contains(d)
}

impl Sweep {
    /// The rounds so far, the current one included.
    pub open spec fn so_far(self) -> Seq<RoundPlan> {
        self.rounds.push(self.round)
    }

    /// The operations placed since `base` are those of the rounds, each in one place.
    pub open spec fn accounted(self, base: Seq<int>) -> bool {
        &&& forall|c: int| #[trigger]
            self.done.contains(c) <==> base.contains(c) || flat(self.so_far()).contains(c)
        &&& flat(self.so_far()).no_duplicates()
        &&& forall|c: int| base.contains(c) ==> !#[trigger] flat(self.so_far()).contains(c)
    }

    /// What waits in the wave can run now, and could not have run in an earlier round.
    pub open spec fn timely(self, g: Graph) -> bool {
        &&& earliest(g, self.so_far())
        &&& forall|c: int| #[trigger] self.wave.contains(c) ==> !g.awaits(c, self.round.network)
        &&& forall|c: int| #[trigger]
            self.wave.contains(c) && self.rounds.len() > 0 ==> due(
                g,
                c,
                self.round.local,
                self.rounds.last().network,
            )
        &&& forall|c: int| #[trigger] self.next.contains(c) ==> g.awaits(c, self.round.network)
    }

    /// Where inputs are held back, nothing that was placed is an input; where they are not, what
    /// was placed since `base`, or waits, depends on one.
    pub open spec fn separated(self, g: Graph, hold: bool, base: Seq<int>) -> bool {
        if hold {
            &&& forall|c: int| #[trigger] self.done.contains(c) ==> !g.input[c]
            &&& forall|c: int| #[trigger] self.held.contains(c) ==> g.input[c]
        } else {
            &&& self.held.len() == 0
            &&& forall|c: int| #[trigger] self.wave.contains(c) ==> g.input_dependent(c)
            &&& forall|c: int| #[trigger] self.next.contains(c) ==> g.input_dependent(c)
            &&& forall|c: int| #[trigger]
                self.done.contains(c) ==> base.contains(c) || g.input_dependent(c)
        }
    }

    /// What holds throughout a phase that starts after the operations `base`.
    pub open spec fn valid(self, g: Graph, hold: bool, base: Seq<int>) -> bool {
        &&& self.consistent(g)
        &&& self.accounted(base)
        &&& in_order(g, base, self.so_far())
        &&& partitioned(g, self.so_far())
        &&& self.timely(g)
        &&& self.separated(g, hold, base)
        &&& topological(g, self.done)
    }
}

proof fn lemma_flat_push(rounds: Seq<RoundPlan>, round: RoundPlan)
    ensures
        flat(rounds.push(round)) == flat(rounds) + round.local + round.network,
{
    assert(rounds.push(round).drop_last() =~= rounds);
}

proof fn lemma_step_accounted(g: Graph, hold: bool, base: Seq<int>, s: Sweep)
    requires
        g.well_formed(),
        s.consistent(g),
        s.accounted(base),
        s.wave.len() > 0,
    ensures
        s.step(g, hold).accounted(base),
{
    let i = s.wave[0];
    assert(s.wave.contains(i));
    let t = s.step(g, hold);
    if !(hold && g.input[i]) {
        lemma_flat_push(s.rounds, s.round);
        lemma_flat_push(t.rounds, t.round);
        lemma_push_contains(s.done, i);
        let before = flat(s.rounds);
        let l = s.round.local;
        let n = s.round.network;
        let old_flat = before + l + n;
        let new_flat = flat(t.so_far());
        assert(!old_flat.contains(i)) by {
            if old_flat.contains(i) {
                assert(s.done.contains(i));
            }
        }
        if g.local[i] {
            assert(new_flat =~= (before + l).push(i) + n);
            lemma_push_contains(before + l, i);
            lemma_add_contains((before + l).push(i), n);
            lemma_add_contains(before + l, n);
            assert((before + l).no_duplicates()) by {
                assert forall|x: int, y: int|
                    0 <= x < (before + l).len() && 0 <= y < (before + l).len() && x != y implies (before
                    + l)[x] != (before + l)[y] by {
                    assert(old_flat[x] == (before + l)[x]);
                    assert(old_flat[y] == (before + l)[y]);
                }
            }
            lemma_push_distinct(before + l, i);
            assert(n.no_duplicates()) by {
                let m = (before + l).len();
                assert forall|x: int, y: int|
                    0 <= x < n.len() && 0 <= y < n.len() && x != y implies n[x] != n[y] by {
                    assert(old_flat[m + x] == n[x]);
                    assert(old_flat[m + y] == n[y]);
                }
            }
            assert forall|c: int| (before + l).push(i).contains(c) implies !#[trigger] n.contains(c) by {
                if n.contains(c) {
                    if c == i {
                        assert(old_flat.contains(i));
                    } else {
                        let x = (before + l).index_of(c);
                        let y = (before + l).len() + n.index_of(c);
                        assert(old_flat[x] == c);
                        assert(old_flat[y] == c);
                    }
                }
            }
            lemma_add_distinct((before + l).push(i), n);
        } else {
            assert(new_flat =~= old_flat.push(i));
            lemma_push_contains(old_flat, i);
            lemma_push_distinct(old_flat, i);
        }
        assert forall|c: int| #[trigger] new_flat.contains(c) <==> old_flat.contains(c) || c == i by {}
        assert forall|c: int| base.contains(c) implies !#[trigger] new_flat.contains(c) by {
            if c == i {
                assert(s.done.contains(i));
            }
        }
    }
}

proof fn lemma_step_in_order(g: Graph, hold: bool, base: Seq<int>, s: Sweep)
    requires
        g.well_formed(),
        s.valid(g, hold, base),
        s.wave.len() > 0,
    ensures
        in_order(g, base, s.step(g, hold).so_far()),
        partitioned(g, s.step(g, hold).so_far()),
        topological(g, s.step(g, hold).done),
{
    let i = s.wave[0];
    assert(s.wave.contains(i));
    let t = s.step(g, hold);
    let cur = s.so_far();
    let now = t.so_far();
    let last = s.rounds.len() as int;
    if !(hold && g.input[i]) {
        assert(s.knows(i));
        assert(g.ready(i, s.done));
        let ran = base + flat(s.rounds);
        lemma_flat_push(s.rounds, s.round);
        lemma_add_contains(base, flat(s.rounds));
        lemma_add_contains(flat(s.rounds), s.round.local);
        lemma_add_contains(flat(s.rounds) + s.round.local, s.round.network);
        assert forall|d: int| #[trigger] g.depends(i, d) implies ran.contains(d)
            || s.round.local.contains(d) by {
            assert(s.done.contains(d));
            if s.round.network.contains(d) {
                assert(g.awaits(i, s.round.network));
            }
        }
        assert(cur.take(last) =~= s.rounds);
        assert(now.take(last) =~= s.rounds);
        assert(cur[last] == s.round);
        assert(round_in_order(g, ran, s.round));
        assert(round_partitioned(g, s.round));
        assert(round_in_order(g, ran, t.round)) by {
            assert forall|j: int, d: int|
                0 <= j < t.round.local.len() && #[trigger] g.depends(
                    t.round.local[j],
                    d,
                ) implies ran.contains(d) || t.round.local.take(j).contains(d) by {
                if j < s.round.local.len() {
                    assert(g.depends(s.round.local[j], d));
                    assert(t.round.local.take(j) =~= s.round.local.take(j));
                } else {
                    assert(t.round.local.take(j) =~= s.round.local);
                }
            }
            lemma_push_contains(s.round.local, i);
            assert forall|j: int, d: int|
                0 <= j < t.round.network.len() && #[trigger] g.depends(
                    t.round.network[j],
                    d,
                ) implies ran.contains(d) || t.round.local.contains(d) by {
                if j < s.round.network.len() {
                    assert(g.depends(s.round.network[j], d));
                }
            }
        }
        lemma_push_contains(s.round.local, i);
        lemma_push_contains(s.round.network, i);
        assert forall|k: int| 0 <= k < now.len() implies round_in_order(
            g,
            base + flat(now.take(k)),
            #[trigger] now[k],
        ) && round_partitioned(g, now[k]) by {
            if k < last {
                assert(now[k] == cur[k]);
                assert(now.take(k) =~= cur.take(k));
            }
        }
        assert forall|j: int, d: int|
            0 <= j < t.done.len() && #[trigger] g.depends(t.done[j], d) implies t.done.take(j).contains(
            d,
        ) by {
            if j < s.done.len() {
                assert(g.depends(s.done[j], d));
                assert(t.done.take(j) =~= s.done.take(j));
            } else {
                assert(t.done.take(j) =~= s.done);
            }
        }
    }
}

} // verus!

verus! {

proof fn lemma_step_timely(g: Graph, hold: bool, s: Sweep)
    requires
        g.well_formed(),
        s.consistent(g),
        s.timely(g),
        s.wave.len() > 0,
    ensures
        s.step(g, hold).timely(g),
{
    let i = s.wave[0];
    assert(s.wave.contains(i));
    let t = s.step(g, hold);
    let cur = s.so_far();
    let now = t.so_far();
    lemma_drop_first_contains(s.wave);
    if hold && g.input[i] {
        assert forall|c: int| #[trigger] t.wave.contains(c) implies s.wave.contains(c) by {}
    } else {
        let done = s.done.push(i);
        let network = t.round.network;
        let near = |c: int| g.freed(c, done) && !g.awaits(c, network);
        let far = |c: int| g.freed(c, done) && g.awaits(c, network);
        let rest = s.wave.drop_first();
        let a = select(near, g.len());
        let b = select(far, g.len());
        lemma_select(near, g.len());
        lemma_select(far, g.len());
        lemma_add_contains(rest, a);
        lemma_add_contains(s.next, b);
        assert(t.wave == rest + a);
        assert(t.next == s.next + b);
        lemma_push_contains(s.round.local, i);
        lemma_push_contains(s.round.network, i);
        assert forall|c: int| #[trigger] t.wave.contains(c) implies !g.awaits(c, network) && (
        s.rounds.len() > 0 ==> due(g, c, t.round.local, s.rounds.last().network)) by {
            if rest.contains(c) {
                assert(s.wave.contains(c));
                assert(s.knows(c));
                if g.awaits(c, network) {
                    let d = choose|d: int| #[trigger] g.depends(c, d) && network.contains(d);
                    if d == i {
                        assert(s.done.contains(i));
                    } else {
                        assert(g.awaits(c, s.round.network));
                    }
                }
                if s.rounds.len() > 0 {
                    let d = choose|d: int| #[trigger]
                        g.depends(c, d) && (s.round.local.contains(d)
                            || s.rounds.last().network.contains(d));
                    assert(g.depends(c, d) && (t.round.local.contains(d)
                        || s.rounds.last().network.contains(d)));
                }
            } else {
                assert(near(c));
                assert(g.depends(c, i));
                if !g.local[i] {
                    assert(network.contains(i));
                    assert(g.awaits(c, network));
                }
                assert(t.round.local.contains(i));
            }
        }
        assert forall|c: int| #[trigger] t.next.contains(c) implies g.awaits(c, network) by {
            if s.next.contains(c) {
                let d = choose|d: int| #[trigger] g.depends(c, d) && s.round.network.contains(d);
                assert(g.depends(c, d) && network.contains(d));
            } else {
                assert(far(c));
            }
        }
        assert forall|k: int, c: int|
            0 < k < now.len() && #[trigger] (now[k].local + now[k].network).contains(c) implies due(
            g,
            c,
            now[k].local,
            now[k - 1].network,
        ) by {
            if k < s.rounds.len() {
                assert(now[k] == cur[k] && now[k - 1] == cur[k - 1]);
                assert((cur[k].local + cur[k].network).contains(c));
            } else {
                assert(now[k] == t.round);
                assert(cur[k] == s.round);
                assert(now[k - 1] == s.rounds.last());
                assert(cur[k - 1] == s.rounds.last());
                lemma_add_contains(t.round.local, t.round.network);
                lemma_add_contains(s.round.local, s.round.network);
                if c == i {
                    assert(due(g, i, s.round.local, s.rounds.last().network));
                } else {
                    assert((cur[k].local + cur[k].network).contains(c));
                }
                let d = choose|d: int| #[trigger]
                    g.depends(c, d) && (s.round.local.contains(d) || s.rounds.last().network.contains(
                        d,
                    ));
                assert(g.depends(c, d) && (t.round.local.contains(d)
                    || s.rounds.last().network.contains(d)));
            }
        }
    }
}

proof fn lemma_step_separated(g: Graph, hold: bool, base: Seq<int>, s: Sweep)
    requires
        g.well_formed(),
        s.consistent(g),
        s.separated(g, hold, base),
        s.wave.len() > 0,
    ensures
        s.step(g, hold).separated(g, hold, base),
{
    let i = s.wave[0];
    assert(s.wave.contains(i));
    let t = s.step(g, hold);
    lemma_drop_first_contains(s.wave);
    if hold && g.input[i] {
        lemma_push_contains(s.held, i);
    } else {
        let done = s.done.push(i);
        let network = t.round.network;
        let near = |c: int| g.freed(c, done) && !g.awaits(c, network);
        let far = |c: int| g.freed(c, done) && g.awaits(c, network);
        let rest = s.wave.drop_first();
        let a = select(near, g.len());
        let b = select(far, g.len());
        lemma_select(near, g.len());
        lemma_select(far, g.len());
        lemma_add_contains(rest, a);
        lemma_add_contains(s.next, b);
        assert(t.wave == rest + a);
        assert(t.next == s.next + b);
        lemma_push_contains(s.done, i);
        if !hold {
            assert forall|c: int| g.depends(c, i) implies #[trigger] g.input_dependent(c) by {
                let steps = choose|steps: nat| g.input_within(i, steps);
                assert(g.depends(c, i) && g.input_within(i, steps));
                assert(g.input_within(c, (steps + 1) as nat));
            }
            assert forall|c: int| #[trigger] t.wave.contains(c) implies g.input_dependent(c) by {
                if a.contains(c) {
                    assert(near(c));
                }
            }
            assert forall|c: int| #[trigger] t.next.contains(c) implies g.input_dependent(c) by {
                if b.contains(c) {
                    assert(far(c));
                }
            }
        }
    }
}

pub(crate) proof fn lemma_step_valid(g: Graph, hold: bool, base: Seq<int>, s: Sweep)
    requires
        g.well_formed(),
        s.valid(g, hold, base),
        s.wave.len() > 0,
    ensures
        s.step(g, hold).valid(g, hold, base),
{
    lemma_step_consistent(g, hold, s);
    lemma_step_accounted(g, hold, base, s);
    lemma_step_in_order(g, hold, base, s);
    lemma_step_timely(g, hold, s);
    lemma_step_separated(g, hold, base, s);
}

pub(crate) proof fn lemma_close_valid(g: Graph, hold: bool, base: Seq<int>, s: Sweep)
    requires
        g.well_formed(),
        s.valid(g, hold, base),
        s.wave.len() == 0,
    ensures
        s.close().valid(g, hold, base),
{
    let t = s.close();
    let cur = s.so_far();
    let now = t.so_far();
    lemma_close_consistent(g, s);
    lemma_flat_push(t.rounds, t.round);
    assert(flat(now) =~= flat(cur));
    assert forall|k: int| 0 <= k < now.len() implies round_in_order(
        g,
        base + flat(now.take(k)),
        #[trigger] now[k],
    ) && round_partitioned(g, now[k]) by {
        if k < cur.len() {
            assert(now[k] == cur[k]);
            assert(now.take(k) =~= cur.take(k));
        }
    }
    assert forall|k: int, c: int|
        0 < k < now.len() && #[trigger] (now[k].local + now[k].network).contains(c) implies due(
        g,
        c,
        now[k].local,
        now[k - 1].network,
    ) by {
        if k < cur.len() {
            assert(now[k] == cur[k] && now[k - 1] == cur[k - 1]);
            assert((cur[k].local + cur[k].network).contains(c));
        }
    }
    assert forall|c: int| #[trigger] t.wave.contains(c) implies !g.awaits(c, t.round.network) && due(
        g,
        c,
        t.round.local,
        t.rounds.last().network,
    ) by {
        assert(s.next.contains(c));
        let d = choose|d: int| #[trigger] g.depends(c, d) && s.round.network.contains(d);
        assert(g.depends(c, d) && (t.round.local.contains(d) || t.rounds.last().network.contains(d)));
    }
}

/// A phase that is sorted to its end leaves nothing waiting.
proof fn lemma_finish_valid(g: Graph, hold: bool, base: Seq<int>, s: Sweep)
    requires
        g.well_formed(),
        s.valid(g, hold, base),
    ensures
        s.finish(g, hold).valid(g, hold, base),
        s.finish(g, hold).wave.len() == 0,
        s.finish(g, hold).next.len() == 0,
        s.finish(g, hold).round == empty_round(),
    decreases g.len() - s.done.len() - s.held.len(), s.next.len(),
{
    lemma_bounded(g, s);
    if s.wave.len() > 0 {
        lemma_step_valid(g, hold, base, s);
        lemma_bounded(g, s.step(g, hold));
        lemma_finish_valid(g, hold, base, s.step(g, hold));
    } else {
        lemma_close_valid(g, hold, base, s);
        if s.next.len() > 0 {
            lemma_finish_valid(g, hold, base, s.close());
        }
    }
}

} // verus!

verus! {

/// What holds of a phase that is sorted to its end.
pub open spec fn settled(g: Graph, hold: bool, base: Seq<int>, s: Sweep) -> bool {
    &&& s.valid(g, hold, base)
    &&& s.wave.len() == 0
    &&& s.next.len() == 0
    &&& s.round == empty_round()
}

pub(crate) proof fn lemma_offline_settled(g: Graph)
    requires
        g.well_formed(),
    ensures
        Sweep::start(sources(g), Seq::empty()).valid(g, true, Seq::empty()),
        settled(g, true, Seq::empty(), offline_phase(g)),
{
    let p = |c: int| g.deps[c].len() == 0;
    lemma_select(p, g.len());
    let s = Sweep::start(sources(g), Seq::empty());
    assert(s.wave == select(p, g.len()));
    assert forall|c: int| #[trigger] s.knows(c) <==> g.has(c) && g.ready(c, s.done) by {
        if g.has(c) && g.ready(c, s.done) && g.deps[c].len() > 0 {
            assert(g.deps[c].contains(g.deps[c][0]));
            assert(g.depends(c, g.deps[c][0]));
        }
    }
    lemma_flat_push(s.rounds, s.round);
    assert(flat(s.so_far()) =~= Seq::empty());
    lemma_finish_if_any(g, true, Seq::empty(), s);
}

proof fn lemma_finish_if_any(g: Graph, hold: bool, base: Seq<int>, s: Sweep)
    requires
        g.well_formed(),
        s.valid(g, hold, base),
        s.next.len() == 0,
        s.round == empty_round(),
    ensures
        settled(
            g,
            hold,
            base,
            if s.wave.len() > 0 {
                s.finish(g, hold)
            } else {
                s
            },
        ),
{
    lemma_finish_valid(g, hold, base, s);
}

pub(crate) proof fn lemma_online_settled(g: Graph)
    requires
        g.well_formed(),
    ensures
        Sweep::start(offline_phase(g).held, offline_phase(g).done).valid(
            g,
            false,
            offline_phase(g).done,
        ),
        settled(g, false, offline_phase(g).done, online_phase(g)),
{
    lemma_offline_settled(g);
    let o = offline_phase(g);
    let s = Sweep::start(o.held, o.done);
    assert forall|c: int| #[trigger] s.knows(c) <==> o.knows(c) by {}
    lemma_flat_push(s.rounds, s.round);
    assert(flat(s.so_far()) =~= Seq::empty());
    assert forall|c: int| #[trigger] s.wave.contains(c) implies g.input_dependent(c) by {
        assert(g.input_within(c, 0));
    }
    lemma_finish_if_any(g, false, o.done, s);
}

proof fn lemma_not_input_dependent(g: Graph, done: Seq<int>, c: int, steps: nat)
    requires
        topological(g, done),
        forall|d: int| #[trigger] done.contains(d) ==> !g.input[d],
        done.contains(c),
    ensures
        !g.input_within(c, steps),
    decreases steps,
{
    if g.input_within(c, steps) {
        let d = choose|d: int| #[trigger]
            g.depends(c, d) && g.input_within(d, (steps - 1) as nat);
        let j = done.index_of(c);
        assert(g.depends(done[j], d));
        let i = done.take(j).index_of(d);
        assert(done[i] == d);
        lemma_not_input_dependent(g, done, d, (steps - 1) as nat);
    }
}

/// The rounds place the operations that have a place, each of them once.
pub proof fn law_each_operation_once(g: Graph)
    requires
        g.well_formed(),
    ensures
        (flat(schedule(g).offline) + flat(schedule(g).online)).no_duplicates(),
        forall|c: int| #[trigger]
            schedule(g).done.contains(c) <==> (flat(schedule(g).offline) + flat(
                schedule(g).online,
            )).contains(c),
{
    lemma_offline_settled(g);
    lemma_online_settled(g);
    let o = offline_phase(g);
    let n = online_phase(g);
    lemma_flat_push(o.rounds, o.round);
    lemma_flat_push(n.rounds, n.round);
    assert(flat(o.so_far()) =~= flat(o.rounds));
    assert(flat(n.so_far()) =~= flat(n.rounds));
    assert forall|c: int| flat(o.rounds).contains(c) implies !#[trigger] flat(n.rounds).contains(c) by {
        assert(o.done.contains(c));
    }
    lemma_add_distinct(flat(o.rounds), flat(n.rounds));
    lemma_add_contains(flat(o.rounds), flat(n.rounds));
}

/// Whether every operation is in `order`.
pub open spec fn covers(g: Graph, order: Seq<int>) -> bool {
    forall|c: int| g.has(c) ==> #[trigger] order.contains(c)
}

/// Every operation has a place if, and only if, the circuit is acyclic.
pub proof fn law_complete_iff_acyclic(g: Graph)
    requires
        g.well_formed(),
    ensures
        g.acyclic() <==> covers(g, schedule(g).done),
{
    lemma_online_settled(g);
    let s = online_phase(g);
    assert(schedule(g).done == s.done);
    if g.acyclic() {
        let rank = choose|rank: spec_fn(int) -> nat| g.ranked(rank);
        assert forall|c: int| g.has(c) implies #[trigger] s.done.contains(c) by {
            lemma_ranked_is_done(g, s, rank, c);
        }
    }
    if covers(g, s.done) {
        let rank = |c: int| s.done.index_of(c) as nat;
        assert forall|c: int, d: int| #[trigger] g.depends(c, d) implies rank(d) < rank(c) by {
            assert(s.done.contains(c));
            assert(s.done.contains(d));
            let j = s.done.index_of(c);
            assert(g.depends(s.done[j], d));
            let i = s.done.take(j).index_of(d);
            assert(s.done[i] == d);
            assert(s.done.index_of(d) == i);
        }
        assert(g.ranked(rank));
    }
}

proof fn lemma_ranked_is_done(g: Graph, s: Sweep, rank: spec_fn(int) -> nat, c: int)
    requires
        g.well_formed(),
        g.ranked(rank),
        s.consistent(g),
        s.wave.len() == 0,
        s.next.len() == 0,
        s.held.len() == 0,
        g.has(c),
    ensures
        s.done.contains(c),
    decreases rank(c),
{
    assert forall|d: int| #[trigger] g.depends(c, d) implies s.done.contains(d) by {
        lemma_ranked_is_done(g, s, rank, d);
    }
    assert(s.knows(c));
}

/// No operation runs before one that it depends on: each local operation comes after everything
/// it depends on, and each network operation runs in a round that starts with everything it
/// depends on, save the local operations of that round.
pub proof fn law_in_order(g: Graph)
    requires
        g.well_formed(),
    ensures
        in_order(g, Seq::empty(), schedule(g).offline),
        in_order(g, flat(schedule(g).offline), schedule(g).online),
{
    lemma_offline_settled(g);
    lemma_online_settled(g);
    let o = offline_phase(g);
    let n = online_phase(g);
    lemma_flat_push(o.rounds, o.round);
    assert(flat(o.so_far()) =~= flat(o.rounds));
    assert forall|k: int| 0 <= k < o.rounds.len() implies round_in_order(
        g,
        Seq::<int>::empty() + flat(o.rounds.take(k)),
        #[trigger] o.rounds[k],
    ) by {
        assert(o.so_far()[k] == o.rounds[k]);
        assert(o.so_far().take(k) =~= o.rounds.take(k));
    }
    assert forall|k: int| 0 <= k < n.rounds.len() implies round_in_order(
        g,
        flat(o.rounds) + flat(n.rounds.take(k)),
        #[trigger] n.rounds[k],
    ) by {
        assert(n.so_far()[k] == n.rounds[k]);
        assert(n.so_far().take(k) =~= n.rounds.take(k));
        let before = flat(n.rounds.take(k));
        lemma_add_contains(o.done, before);
        lemma_add_contains(flat(o.rounds), before);
        assert(round_in_order(g, o.done + before, n.rounds[k]));
        assert forall|d: int| (o.done + before).contains(d) implies #[trigger] (flat(o.rounds)
            + before).contains(d) by {
            assert(o.done.contains(d) ==> flat(o.rounds).contains(d));
        }
    }
}

/// The offline phase holds what depends on no input, the online phase what depends on one.
pub proof fn law_phases(g: Graph)
    requires
        g.well_formed(),
    ensures
        forall|c: int| #[trigger]
            flat(schedule(g).offline).contains(c) ==> !g.input_dependent(c),
        forall|c: int| #[trigger] flat(schedule(g).online).contains(c) ==> g.input_dependent(c),
{
    lemma_offline_settled(g);
    lemma_online_settled(g);
    let o = offline_phase(g);
    let n = online_phase(g);
    lemma_flat_push(o.rounds, o.round);
    lemma_flat_push(n.rounds, n.round);
    assert(flat(o.so_far()) =~= flat(o.rounds));
    assert(flat(n.so_far()) =~= flat(n.rounds));
    assert forall|c: int| #[trigger] flat(o.rounds).contains(c) implies !g.input_dependent(c) by {
        assert(o.done.contains(c));
        assert forall|steps: nat| !#[trigger] g.input_within(c, steps) by {
            lemma_not_input_dependent(g, o.done, c, steps);
        }
    }
    assert forall|c: int| #[trigger] flat(n.rounds).contains(c) implies g.input_dependent(c) by {
        assert(n.done.contains(c));
        assert(!o.done.contains(c));
    }
}

/// Every round holds its local operations apart from its network operations.
pub proof fn law_partitioned(g: Graph)
    requires
        g.well_formed(),
    ensures
        partitioned(g, schedule(g).offline),
        partitioned(g, schedule(g).online),
{
    lemma_offline_settled(g);
    lemma_online_settled(g);
    let o = offline_phase(g);
    let n = online_phase(g);
    assert forall|k: int| 0 <= k < o.rounds.len() implies round_partitioned(
        g,
        #[trigger] o.rounds[k],
    ) by {
        assert(o.so_far()[k] == o.rounds[k]);
    }
    assert forall|k: int| 0 <= k < n.rounds.len() implies round_partitioned(
        g,
        #[trigger] n.rounds[k],
    ) by {
        assert(n.so_far()[k] == n.rounds[k]);
    }
}

/// Within its phase, every operation runs in the earliest round in which it can: after the first
/// round there is always a local operation of the same round, or a network operation of the round
/// before, that it depends on.
pub proof fn law_earliest(g: Graph)
    requires
        g.well_formed(),
    ensures
        earliest(g, schedule(g).offline),
        earliest(g, schedule(g).online),
{
    lemma_offline_settled(g);
    lemma_online_settled(g);
    lemma_earliest_prefix(g, offline_phase(g));
    lemma_earliest_prefix(g, online_phase(g));
}

proof fn lemma_earliest_prefix(g: Graph, s: Sweep)
    requires
        earliest(g, s.so_far()),
    ensures
        earliest(g, s.rounds),
{
    let now = s.so_far();
    assert forall|k: int, c: int|
        0 < k < s.rounds.len() && #[trigger] (s.rounds[k].local + s.rounds[k].network).contains(
            c,
        ) implies due(g, c, s.rounds[k].local, s.rounds[k - 1].network) by {
        assert(now[k] == s.rounds[k] && now[k - 1] == s.rounds[k - 1]);
        assert((now[k].local + now[k].network).contains(c));
    }
}

} // verus!

verus! {

/// The operations of a round are among those of all rounds.
pub proof fn lemma_flat_contains(rounds: Seq<RoundPlan>, k: int, c: int)
    requires
        0 <= k < rounds.len(),
        rounds[k].local.contains(c) || rounds[k].network.contains(c),
    ensures
        flat(rounds).contains(c),
    decreases rounds.len(),
{
    let rest = rounds.drop_last();
    let last = rounds.last();
    lemma_add_contains(flat(rest), last.local);
    lemma_add_contains(flat(rest) + last.local, last.network);
    if k < rest.len() {
        assert(rest[k] == rounds[k]);
        lemma_flat_contains(rest, k, c);
    }
}

/// The operations of two sequences of rounds follow each other.
pub proof fn lemma_flat_add(a: Seq<RoundPlan>, b: Seq<RoundPlan>)
    ensures
        flat(a + b) == flat(a) + flat(b),
    decreases b.len(),
{
    if b.len() == 0 {
        assert(a + b =~= a);
        assert(flat(a) + flat(b) =~= flat(a));
    } else {
        assert((a + b).drop_last() =~= a + b.drop_last());
        lemma_flat_add(a, b.drop_last());
        assert(flat(a + b) =~= flat(a) + flat(b));
    }
}

} // verus!

verus! {

/// Whether every round holds a network operation.
pub open spec fn all_interact(rounds: Seq<RoundPlan>) -> bool {
    forall|k: int| 0 <= k < rounds.len() ==> (#[trigger] rounds[k]).network.len() > 0
}

proof fn lemma_finish_interacts(g: Graph, hold: bool, base: Seq<int>, s: Sweep)
    requires
        g.well_formed(),
        s.valid(g, hold, base),
        all_interact(s.rounds),
    ensures
        s.finish(g, hold).rounds.len() > 0,
        all_interact(s.finish(g, hold).rounds.drop_last()),
        !hold && (s.wave.len() > 0 || s.round.local.len() + s.round.network.len() > 0)
            ==> s.finish(g, hold).rounds.last().local.len() + s.finish(
            g,
            hold,
        ).rounds.last().network.len() > 0,
    decreases g.len() - s.done.len() - s.held.len(), s.next.len(),
{
    lemma_bounded(g, s);
    if s.wave.len() > 0 {
        lemma_step_valid(g, hold, base, s);
        lemma_bounded(g, s.step(g, hold));
        lemma_finish_interacts(g, hold, base, s.step(g, hold));
    } else {
        lemma_close_valid(g, hold, base, s);
        let t = s.close();
        if s.next.len() > 0 {
            assert(s.next.contains(s.next[0]));
            let d = choose|d: int| #[trigger]
                g.depends(s.next[0], d) && s.round.network.contains(d);
            assert(s.round.network.len() > 0);
            assert(all_interact(t.rounds));
            lemma_finish_interacts(g, hold, base, t);
        } else {
            assert(t.rounds.drop_last() =~= s.rounds);
        }
    }
}

proof fn lemma_flat_len(rounds: Seq<RoundPlan>)
    requires
        all_interact(rounds),
    ensures
        rounds.len() <= flat(rounds).len(),
    decreases rounds.len(),
{
    if rounds.len() > 0 {
        let rest = rounds.drop_last();
        assert forall|k: int| 0 <= k < rest.len() implies (#[trigger] rest[k]).network.len() > 0 by {
            assert(rest[k] == rounds[k]);
        }
        assert(rounds[rounds.len() - 1].network.len() > 0);
        lemma_flat_len(rest);
    }
}

/// There is at most one round more than there are operations.
pub proof fn law_rounds_bounded(g: Graph)
    requires
        g.well_formed(),
    ensures
        schedule(g).offline.len() + schedule(g).online.len() <= g.len() + 1,
{
    lemma_offline_settled(g);
    lemma_online_settled(g);
    law_each_operation_once(g);
    let o = offline_phase(g);
    let n = online_phase(g);
    let a = flat(o.rounds);
    let b = flat(n.rounds);
    if sources(g).len() > 0 {
        let s = Sweep::start(sources(g), Seq::empty());
        lemma_finish_interacts(g, true, Seq::empty(), s);
        lemma_flat_len(o.rounds.drop_last());
    }
    if o.held.len() > 0 {
        let s = Sweep::start(o.held, o.done);
        lemma_finish_interacts(g, false, o.done, s);
        lemma_flat_len(n.rounds.drop_last());
    }
    assert(o.rounds.len() <= a.len() + 1);
    assert(n.rounds.len() <= b.len());
    (a + b).unique_seq_to_set();
    let all = vstd::set_lib::set_int_range(0, g.len() as int);
    vstd::set_lib::lemma_int_range(0, g.len() as int);
    assert((a + b).to_set().subset_of(all)) by {
        assert forall|c: int| (a + b).to_set().contains(c) implies all.contains(c) by {
            assert((a + b).contains(c));
            assert(schedule(g).done.contains(c));
            assert(n.knows(c));
        }
    }
    vstd::set_lib::lemma_len_subset((a + b).to_set(), all);
}

/// Every round but the last one of its phase has a network operation, for which the next round
/// waits.
pub proof fn law_rounds_wait_for_something(g: Graph, k: int)
    requires
        g.well_formed(),
    ensures
        0 <= k < schedule(g).offline.len() - 1 ==> schedule(g).offline[k].network.len() > 0,
        0 <= k < schedule(g).online.len() - 1 ==> schedule(g).online[k].network.len() > 0,
{
    lemma_offline_settled(g);
    lemma_online_settled(g);
    let o = offline_phase(g);
    let n = online_phase(g);
    if sources(g).len() > 0 {
        lemma_finish_interacts(g, true, Seq::empty(), Sweep::start(sources(g), Seq::empty()));
        if 0 <= k < o.rounds.len() - 1 {
            assert(o.rounds.drop_last()[k].network.len() > 0);
        }
    }
    if o.held.len() > 0 {
        lemma_finish_interacts(g, false, o.done, Sweep::start(o.held, o.done));
        if 0 <= k < n.rounds.len() - 1 {
            assert(n.rounds.drop_last()[k].network.len() > 0);
        }
    }
}

} // verus!
