//! Checks that rounds are arranged so that they can run.

use std::collections::HashMap;

use vstd::prelude::*;

use crate::mpc::circuit::{
    all_outputs, arranged, lemma_all_outputs_add, round_ready, run_order, runnable, starts_locally,
    Round, WireId,
};
use crate::mpc::execution::lemma_run_order_prefix;
use crate::mpc::phases::{ids, lemma_ids_add, lemma_outputs_take};
use crate::mpc::scheme::{MpcScheme, Operation};

verus! {

broadcast use vstd::std_specs::hash::group_hash_axioms;

/// The first elements occur once where all do.
proof fn lemma_prefix_once(a: Seq<WireId>, b: Seq<WireId>)
    requires
        (a + b).no_duplicates(),
    ensures
        a.no_duplicates(),
{
    assert forall|i: int, j: int| 0 <= i < a.len() && 0 <= j < a.len() && i != j implies a[i]
        != a[j] by {
        assert((a + b)[i] == a[i]);
        assert((a + b)[j] == a[j]);
    }
}

/// One more element occurs once where it is new.
proof fn lemma_once_push(a: Seq<WireId>, w: WireId)
    requires
        a.no_duplicates(),
    ensures
        a.push(w).no_duplicates() == !a.contains(w),
        ids(a.push(w)) == ids(a).insert(w.0),
{
    let more = a.push(w);
    if a.contains(w) {
        let i = a.index_of(w);
        assert(more[i] == more[a.len() as int]);
    }
    assert(w == WireId(w.0));
    assert forall|v: usize| ids(more).contains(v) == ids(a).insert(w.0).contains(v) by {
        let x = WireId(v);
        if a.contains(x) {
            assert(more[a.index_of(x)] == x);
        }
        if more.contains(x) && more.index_of(x) < a.len() {
            assert(a[more.index_of(x)] == x);
        }
        if v == w.0 {
            assert(more[a.len() as int] == x);
        }
    }
    assert(ids(more) =~= ids(a).insert(w.0));
}

/// Notes that the wires are produced, if each of them is for the first time.
fn note_outputs(
    wires: &Vec<WireId>,
    seen: &mut HashMap<usize, bool>,
    Ghost(have): Ghost<Seq<WireId>>,
) -> (b: bool)
    requires
        have.no_duplicates(),
        old(seen)@.dom() == ids(have),
    ensures
        b == (have + wires@).no_duplicates(),
        b ==> final(seen)@.dom() == ids(have + wires@),
{
    let mut i: usize = 0;
    assert(have + wires@.take(0) =~= have);
    while i < wires.len()
        invariant
            i <= wires@.len(),
            (have + wires@.take(i as int)).no_duplicates(),
            seen@.dom() == ids(have + wires@.take(i as int)),
        decreases wires@.len() - i,
    {
        let wire = wires[i];
        proof {
            let so_far = have + wires@.take(i as int);
            assert(wire == WireId(wire.0));
            assert(have + wires@.take(i + 1) =~= so_far.push(wire));
            lemma_once_push(so_far, wire);
            if so_far.contains(wire) && (have + wires@).no_duplicates() {
                assert(have + wires@ =~= so_far.push(wire) + wires@.skip(i + 1));
                lemma_prefix_once(so_far.push(wire), wires@.skip(i + 1));
            }
        }
        if seen.contains_key(&wire.0) {
            return false;
        }
        seen.insert(wire.0, true);
        assert(seen@.dom() =~= ids(have + wires@.take(i + 1)));
        i = i + 1;
    }
    assert(wires@.take(i as int) =~= wires@);
    true
}

/// Whether all wires are produced.
fn all_seen(wires: &Vec<WireId>, seen: &HashMap<usize, bool>) -> (b: bool)
    ensures
        b == forall|w: WireId| #[trigger] wires@.contains(w) ==> seen@.dom().contains(w.0),
{
    let mut i: usize = 0;
    while i < wires.len()
        invariant
            i <= wires@.len(),
            forall|j: int| 0 <= j < i ==> seen@.dom().contains((#[trigger] wires@[j]).0),
        decreases wires@.len() - i,
    {
        if !seen.contains_key(&wires[i].0) {
            assert(wires@.contains(wires@[i as int]));
            return false;
        }
        i = i + 1;
    }
    true
}

/// Whether the wires that the operation `j` of `ops` consumes are among `have` or produced by the
/// operations before it.
spec fn finds<O: Operation>(have: Seq<WireId>, ops: Seq<O>, j: int) -> bool {
    forall|w: WireId| #[trigger]
        ops[j].input_wires().contains(w) ==> have.contains(w) || all_outputs(ops.take(j)).contains(
            w,
        )
}

/// The outputs up to an operation come before those of the others.
proof fn lemma_outputs_split<O: Operation>(ops: Seq<O>, j: int)
    requires
        0 <= j <= ops.len(),
    ensures
        all_outputs(ops) == all_outputs(ops.take(j)) + all_outputs(ops.skip(j)),
{
    assert(ops =~= ops.take(j) + ops.skip(j));
    lemma_all_outputs_add(ops.take(j), ops.skip(j));
}

/// Checks that operations which run one after the other find what they consume, and notes what
/// they produce.
fn check_local<O: Operation>(
    ops: &[O],
    seen: &mut HashMap<usize, bool>,
    Ghost(have): Ghost<Seq<WireId>>,
) -> (b: bool)
    requires
        have.no_duplicates(),
        old(seen)@.dom() == ids(have),
    ensures
        b == ((forall|j: int| 0 <= j < ops@.len() ==> #[trigger] finds(have, ops@, j)) && (have
            + all_outputs(ops@)).no_duplicates()),
        b ==> final(seen)@.dom() == ids(have + all_outputs(ops@)),
{
    let mut i: usize = 0;
    proof {
        lemma_outputs_none(ops@);
        assert(have + all_outputs(ops@.take(0)) =~= have);
    }
    while i < ops.len()
        invariant
            i <= ops@.len(),
            forall|j: int| 0 <= j < i ==> #[trigger] finds(have, ops@, j),
            (have + all_outputs(ops@.take(i as int))).no_duplicates(),
            seen@.dom() == ids(have + all_outputs(ops@.take(i as int))),
        decreases ops@.len() - i,
    {
        let ghost made = all_outputs(ops@.take(i as int));
        proof {
            lemma_ids_add(have, made);
            assert forall|w: WireId| seen@.dom().contains(w.0) == (have.contains(w)
                || made.contains(w)) by {
                assert(w == WireId(w.0));
            }
        }
        if !all_seen(&ops[i].inputs(), seen) {
            assert(!finds(have, ops@, i as int));
            return false;
        }
        assert(finds(have, ops@, i as int));
        proof {
            lemma_outputs_take(ops@, i as int);
            assert(have + all_outputs(ops@.take(i + 1)) =~= have + made
                + ops@[i as int].output_wires());
        }
        if !note_outputs(&ops[i].outputs(), seen, Ghost(have + made)) {
            proof {
                lemma_outputs_split(ops@, i + 1);
                assert(have + all_outputs(ops@) =~= have + all_outputs(ops@.take(i + 1))
                    + all_outputs(ops@.skip(i + 1)));
                if (have + all_outputs(ops@)).no_duplicates() {
                    lemma_prefix_once(
                        have + all_outputs(ops@.take(i + 1)),
                        all_outputs(ops@.skip(i + 1)),
                    );
                }
            }
            return false;
        }
        i = i + 1;
    }
    assert(ops@.take(i as int) =~= ops@);
    true
}

/// No operations produce nothing.
proof fn lemma_outputs_none<O: Operation>(ops: Seq<O>)
    ensures
        all_outputs(ops.take(0)) == Seq::<WireId>::empty(),
{
    lemma_all_outputs_add(ops.take(0), ops.take(0));
    assert(ops.take(0) + ops.take(0) =~= ops.take(0));
    let none = all_outputs(ops.take(0));
    assert(none.len() == none.len() + none.len());
    assert(none =~= Seq::empty());
}

/// Checks that operations which run together find what they consume.
fn check_inputs<O: Operation>(
    ops: &[O],
    seen: &HashMap<usize, bool>,
    Ghost(have): Ghost<Seq<WireId>>,
) -> (b: bool)
    requires
        seen@.dom() == ids(have),
    ensures
        b == forall|j: int, w: WireId|
            0 <= j < ops@.len() && #[trigger] ops@[j].input_wires().contains(w) ==> have.contains(
                w,
            ),
{
    let mut i: usize = 0;
    while i < ops.len()
        invariant
            i <= ops@.len(),
            seen@.dom() == ids(have),
            forall|j: int, w: WireId|
                0 <= j < i && #[trigger] ops@[j].input_wires().contains(w) ==> have.contains(w),
        decreases ops@.len() - i,
    {
        proof {
            assert forall|w: WireId| seen@.dom().contains(w.0) == #[trigger] have.contains(w) by {
                assert(w == WireId(w.0));
            }
        }
        if !all_seen(&ops[i].inputs(), seen) {
            proof {
                let w = choose|w: WireId| #[trigger]
                    ops@[i as int].input_wires().contains(w) && !seen@.dom().contains(w.0);
                assert(!have.contains(w));
            }
            return false;
        }
        i = i + 1;
    }
    true
}

/// Notes what operations which run together produce, if it is new.
fn check_outputs<O: Operation>(
    ops: &[O],
    seen: &mut HashMap<usize, bool>,
    Ghost(have): Ghost<Seq<WireId>>,
) -> (b: bool)
    requires
        have.no_duplicates(),
        old(seen)@.dom() == ids(have),
    ensures
        b == (have + all_outputs(ops@)).no_duplicates(),
        b ==> final(seen)@.dom() == ids(have + all_outputs(ops@)),
{
    let mut i: usize = 0;
    proof {
        lemma_outputs_none(ops@);
        assert(have + all_outputs(ops@.take(0)) =~= have);
    }
    while i < ops.len()
        invariant
            i <= ops@.len(),
            (have + all_outputs(ops@.take(i as int))).no_duplicates(),
            seen@.dom() == ids(have + all_outputs(ops@.take(i as int))),
        decreases ops@.len() - i,
    {
        let ghost made = all_outputs(ops@.take(i as int));
        proof {
            lemma_outputs_take(ops@, i as int);
            assert(have + all_outputs(ops@.take(i + 1)) =~= have + made
                + ops@[i as int].output_wires());
        }
        if !note_outputs(&ops[i].outputs(), seen, Ghost(have + made)) {
            proof {
                lemma_outputs_split(ops@, i + 1);
                assert(have + all_outputs(ops@) =~= have + all_outputs(ops@.take(i + 1))
                    + all_outputs(ops@.skip(i + 1)));
                if (have + all_outputs(ops@)).no_duplicates() {
                    lemma_prefix_once(
                        have + all_outputs(ops@.take(i + 1)),
                        all_outputs(ops@.skip(i + 1)),
                    );
                }
            }
            return false;
        }
        i = i + 1;
    }
    assert(ops@.take(i as int) =~= ops@);
    true
}

/// The outputs of a round behind `have`.
spec fn with_outputs<S: MpcScheme>(have: Seq<WireId>, round: Round<S>) -> Seq<WireId> {
    have + all_outputs(round.local()) + all_outputs(round.network())
}

/// Checks that a round can run where the wires `have` have values, and notes what it produces.
fn check_round<S: MpcScheme>(
    round: &Round<S>,
    seen: &mut HashMap<usize, bool>,
    Ghost(have): Ghost<Seq<WireId>>,
) -> (b: bool)
    requires
        have.no_duplicates(),
        old(seen)@.dom() == ids(have),
    ensures
        b == (round_ready(have, *round) && with_outputs(have, *round).no_duplicates()),
        b ==> final(seen)@.dom() == ids(with_outputs(have, *round)),
{
    let ghost local = round.local();
    let ghost network = round.network();
    let ghost between = have + all_outputs(local);
    if !check_local(round.local_operations(), seen, Ghost(have)) {
        proof {
            if with_outputs(have, *round).no_duplicates() {
                lemma_prefix_once(between, all_outputs(network));
            }
            if round_ready(have, *round) {
                assert forall|j: int| 0 <= j < local.len() implies #[trigger] finds(
                    have,
                    local,
                    j,
                ) by {}
            }
        }
        return false;
    }
    assert forall|w: WireId| between.contains(w) == (have.contains(w) || all_outputs(
        local,
    ).contains(w)) by {
        lemma_ids_add(have, all_outputs(local));
        assert(w == WireId(w.0));
        assert(ids(between).contains(w.0) == between.contains(w));
    }
    proof {
        assert forall|j: int, w: WireId|
            0 <= j < local.len() && #[trigger] local[j].input_wires().contains(w) implies have.contains(
            w,
        ) || all_outputs(local.take(j)).contains(w) by {
            assert(finds(have, local, j));
        }
    }
    if !check_inputs(round.network_operations(), seen, Ghost(between)) {
        return false;
    }
    assert(round_ready(have, *round));
    check_outputs(round.network_operations(), seen, Ghost(between))
}

} // verus!

verus! {

/// Whether the first `k` rounds can run one after the other.
#[verifier::opaque]
spec fn runs_until<S: MpcScheme>(rounds: Seq<Round<S>>, k: int) -> bool {
    &&& all_outputs(run_order(rounds.take(k))).no_duplicates()
    &&& forall|j: int|
        0 <= j < k ==> round_ready(all_outputs(run_order(rounds.take(j))), #[trigger] rounds[j])
}

/// No rounds can run.
proof fn lemma_runs_at_first<S: MpcScheme>(rounds: Seq<Round<S>>)
    ensures
        runs_until(rounds, 0),
        ids(all_outputs(run_order(rounds.take(0)))) == Set::<usize>::empty(),
{
    reveal(runs_until);
    let ops = run_order(rounds.take(0));
    assert(rounds.take(0) =~= Seq::empty());
    assert(ops.take(0) =~= ops);
    lemma_outputs_none(ops);
    assert(ids(all_outputs(ops)) =~= Set::empty());
}

/// One more round can run exactly where it is ready and produces new wires.
proof fn lemma_runs_next<S: MpcScheme>(rounds: Seq<Round<S>>, k: int)
    requires
        0 <= k < rounds.len(),
        runs_until(rounds, k),
    ensures
        runs_until(rounds, k + 1) == (round_ready(
            all_outputs(run_order(rounds.take(k))),
            rounds[k],
        ) && with_outputs(all_outputs(run_order(rounds.take(k))), rounds[k]).no_duplicates()),
        all_outputs(run_order(rounds.take(k))).no_duplicates(),
{
    reveal(runs_until);
    lemma_next_outputs(rounds, k);
}

/// Where no wire is produced twice, the first rounds produce none twice.
proof fn lemma_first_once<S: MpcScheme>(rounds: Seq<Round<S>>, k: int)
    requires
        0 <= k <= rounds.len(),
        all_outputs(run_order(rounds)).no_duplicates(),
    ensures
        all_outputs(run_order(rounds.take(k))).no_duplicates(),
{
    lemma_run_order_prefix(rounds, k);
    let all = all_outputs(run_order(rounds));
    let some = all_outputs(run_order(rounds.take(k)));
    assert(all =~= some + all.skip(some.len() as int));
    lemma_prefix_once(some, all.skip(some.len() as int));
}

/// Where all rounds can run, the first ones can.
proof fn lemma_first_runs<S: MpcScheme>(rounds: Seq<Round<S>>, k: int)
    requires
        0 <= k <= rounds.len(),
        runnable(rounds),
    ensures
        runs_until(rounds, k),
{
    lemma_first_once(rounds, k);
    reveal(runs_until);
}

/// All rounds can run where as many as there are can.
proof fn lemma_runs_all<S: MpcScheme>(rounds: Seq<Round<S>>)
    requires
        runs_until(rounds, rounds.len() as int),
    ensures
        runnable(rounds),
{
    reveal(runs_until);
    assert(rounds.take(rounds.len() as int) =~= rounds);
}

/// Checks that the rounds `some`, which stand among `rounds` from `at` on, can run next, and notes
/// what they produce.
fn check_rounds<S: MpcScheme>(
    some: &[Round<S>],
    seen: &mut HashMap<usize, bool>,
    Ghost(rounds): Ghost<Seq<Round<S>>>,
    Ghost(at): Ghost<int>,
) -> (b: bool)
    requires
        0 <= at,
        at + some@.len() <= rounds.len(),
        some@ == rounds.subrange(at, at + some@.len()),
        runs_until(rounds, at),
        old(seen)@.dom() == ids(all_outputs(run_order(rounds.take(at)))),
    ensures
        b ==> runs_until(rounds, at + some@.len()) && final(seen)@.dom() == ids(
            all_outputs(run_order(rounds.take(at + some@.len()))),
        ),
        !b ==> !runnable(rounds),
{
    let mut k: usize = 0;
    while k < some.len()
        invariant
            0 <= at,
            at + some@.len() <= rounds.len(),
            some@ == rounds.subrange(at, at + some@.len()),
            k <= some@.len(),
            runs_until(rounds, at + k),
            seen@.dom() == ids(all_outputs(run_order(rounds.take(at + k)))),
        decreases some@.len() - k,
    {
        let ghost have = all_outputs(run_order(rounds.take(at + k)));
        proof {
            assert(some@[k as int] == rounds[at + k]);
            lemma_runs_next(rounds, at + k);
            if runnable(rounds) {
                lemma_first_runs(rounds, at + k + 1);
            }
            lemma_next_outputs(rounds, at + k);
        }
        if !check_round(&some[k], seen, Ghost(have)) {
            return false;
        }
        k = k + 1;
    }
    true
}

/// Checks that the rounds of both phases can run one after the other.
fn is_runnable<S: MpcScheme>(offline: &[Round<S>], online: &[Round<S>]) -> (b: bool)
    ensures
        b == runnable(offline@ + online@),
{
    let ghost rounds = offline@ + online@;
    let ghost n = offline@.len() as int;
    let mut seen: HashMap<usize, bool> = HashMap::new();
    proof {
        lemma_runs_at_first(rounds);
        assert(seen@.dom() =~= Set::empty());
        assert(offline@ =~= rounds.subrange(0, n));
        assert(online@ =~= rounds.subrange(n, n + online@.len()));
        if runs_until(rounds, rounds.len() as int) {
            lemma_runs_all(rounds);
        }
    }
    check_rounds(offline, &mut seen, Ghost(rounds), Ghost(0)) && check_rounds(
        online,
        &mut seen,
        Ghost(rounds),
        Ghost(n),
    )
}

/// A round adds its outputs behind those of the rounds before it.
proof fn lemma_next_outputs<S: MpcScheme>(rounds: Seq<Round<S>>, k: int)
    requires
        0 <= k < rounds.len(),
    ensures
        all_outputs(run_order(rounds.take(k + 1))) == with_outputs(
            all_outputs(run_order(rounds.take(k))),
            rounds[k],
        ),
{
    let before = run_order(rounds.take(k));
    assert(rounds.take(k + 1).drop_last() =~= rounds.take(k));
    lemma_all_outputs_add(before, rounds[k].local());
    lemma_all_outputs_add(before + rounds[k].local(), rounds[k].network());
}

/// Checks that the operations of a round that run without an exchange are local.
fn is_local_first<S: MpcScheme>(scheme: &S, round: &Round<S>) -> (b: bool)
    ensures
        b == starts_locally(*scheme, *round),
{
    let local = round.local_operations();
    let mut i: usize = 0;
    while i < local.len()
        invariant
            local@ == round.local(),
            i <= local@.len(),
            forall|j: int| 0 <= j < i ==> scheme.local(#[trigger] round.local()[j]),
        decreases local@.len() - i,
    {
        if !scheme.is_operation_local(&local[i]) {
            assert(!scheme.local(round.local()[i as int]));
            return false;
        }
        i = i + 1;
    }
    true
}

/// Checks that in every round the operations that run without an exchange are local.
fn all_local_first<S: MpcScheme>(scheme: &S, rounds: &[Round<S>]) -> (b: bool)
    ensures
        b == forall|k: int|
            0 <= k < rounds@.len() ==> starts_locally(*scheme, #[trigger] rounds@[k]),
{
    let mut k: usize = 0;
    while k < rounds.len()
        invariant
            k <= rounds@.len(),
            forall|j: int| 0 <= j < k ==> starts_locally(*scheme, #[trigger] rounds@[j]),
        decreases rounds@.len() - k,
    {
        if !is_local_first(scheme, &rounds[k]) {
            assert(!starts_locally(*scheme, rounds@[k as int]));
            return false;
        }
        k = k + 1;
    }
    true
}

/// Checks that the rounds of both phases are arranged so that they can run.
pub(crate) fn is_arranged<S: MpcScheme>(
    scheme: &S,
    offline: &[Round<S>],
    online: &[Round<S>],
) -> (b: bool)
    ensures
        b == arranged(*scheme, offline@, online@),
{
    all_local_first(scheme, offline) && all_local_first(scheme, online) && is_runnable(
        offline,
        online,
    )
}

} // verus!
