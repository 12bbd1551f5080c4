//! Finds out which operation consumes the wires of which other.

use std::collections::HashMap;

use vstd::prelude::*;

use crate::mpc::circuit::{
    all_inputs, all_outputs, all_produced, deps_of, inputs_of, is_first_missing, is_first_repeated,
    outputs_of, producer, WireId,
};
use crate::mpc::schedule::Graph;
use crate::mpc::scheme::Operation;
use crate::mpc::sorting::{lists, missing};
use crate::seqs::{
    join, lemma_join_index, lemma_join_prefix, lemma_join_take, lemma_join_unique, offset,
};

verus! {

broadcast use vstd::std_specs::hash::group_hash_axioms;

/// Whether `producers` names the operation behind each of `wires`, among `ops`.
pub open spec fn locates<O: Operation>(
    producers: Map<usize, usize>,
    ops: Seq<O>,
    wires: Seq<WireId>,
) -> bool {
    &&& forall|w: usize| #[trigger] producers.contains_key(w) <==> wires.contains(WireId(w))
    &&& forall|w: usize| #[trigger]
        producers.contains_key(w) ==> producers[w] < ops.len()
            && ops[producers[w] as int].output_wires().contains(WireId(w))
}

/// The operation behind each wire, or the first wire that is produced again.
pub(crate) fn find_producers<O: Operation>(ops: &[O]) -> (r: Result<HashMap<usize, usize>, WireId>)
    ensures
        match r {
            Ok(producers) => all_outputs(ops@).no_duplicates() && locates(
                producers@,
                ops@,
                all_outputs(ops@),
            ),
            Err(wire) => is_first_repeated(all_outputs(ops@), wire),
        },
{
    let mut producers: HashMap<usize, usize> = HashMap::new();
    let ghost outputs = outputs_of(ops@);
    let mut idx: usize = 0;
    assert(outputs.take(0) =~= Seq::empty());
    while idx < ops.len()
        invariant
            outputs == outputs_of(ops@),
            idx <= ops@.len(),
            join(outputs.take(idx as int)).no_duplicates(),
            locates(producers@, ops@, join(outputs.take(idx as int))),
        decreases ops@.len() - idx,
    {
        let wires = ops[idx].outputs();
        let ghost before = join(outputs.take(idx as int));
        assert(wires@ == outputs[idx as int]);
        let mut j: usize = 0;
        assert(before + wires@.take(0) =~= before);
        while j < wires.len()
            invariant
                outputs == outputs_of(ops@),
                idx < ops@.len(),
                before == join(outputs.take(idx as int)),
                wires@ == outputs[idx as int],
                j <= wires@.len(),
                (before + wires@.take(j as int)).no_duplicates(),
                locates(producers@, ops@, before + wires@.take(j as int)),
            decreases wires@.len() - j,
        {
            let wire = wires[j];
            let ghost known = before + wires@.take(j as int);
            let ghost producers_before = producers@;
            let prev = producers.insert(wire.0, idx);
            proof {
                assert(before + wires@.take(j + 1) =~= known.push(wire));
                assert(wire == WireId(wire.0));
            }
            if prev.is_some() {
                proof {
                    let all = all_outputs(ops@);
                    lemma_join_index(outputs, idx as int, j as int);
                    lemma_join_take(outputs, idx as int);
                    lemma_join_prefix(outputs, idx + 1);
                    let k = offset(outputs, idx as int) + j;
                    assert(all.take(k) =~= all.take(offset(outputs, idx + 1)).take(k));
                    assert(all.take(k) =~= known);
                    assert(all[k] == wire);
                }
                return Err(wire);
            }
            proof {
                assert(!known.contains(wire));
                assert(known.push(wire).no_duplicates());
                assert forall|w: usize| #[trigger] producers@.contains_key(w) <==> known.push(wire).contains(
                    WireId(w),
                ) by {
                    if known.contains(WireId(w)) {
                        assert(known.push(wire)[known.index_of(WireId(w))] == WireId(w));
                    }
                    assert(known.push(wire)[known.len() as int] == wire);
                }
                assert forall|w: usize| #[trigger] producers@.contains_key(w) implies producers@[w]
                    < ops@.len() && ops@[producers@[w] as int].output_wires().contains(WireId(w)) by {
                    if w == wire.0 {
                        assert(ops@[idx as int].output_wires()[j as int] == wire);
                    } else {
                        assert(producers_before.contains_key(w));
                    }
                }
            }
            j = j + 1;
        }
        proof {
            lemma_join_take(outputs, idx as int);
            assert(wires@.take(j as int) =~= wires@);
        }
        idx = idx + 1;
    }
    proof {
        assert(outputs.take(idx as int) =~= outputs);
    }
    Ok(producers)
}

} // verus!

verus! {

/// Whether `list` holds the operations before `c` that depend on `p`, in ascending order, and `c`
/// itself if `found` is set.
pub open spec fn lists_before(list: Seq<usize>, g: Graph, p: int, c: int, found: bool) -> bool {
    &&& forall|a: int, b: int| 0 <= a < b < list.len() ==> #[trigger] list[a] < #[trigger] list[b]
    &&& forall|a: int|
        0 <= a < list.len() ==> (#[trigger] list[a] < c && g.depends(list[a] as int, p)) || (found
            && list[a] == c)
    &&& forall|x: int| 0 <= x < c && #[trigger] g.depends(x, p) ==> list.contains(x as usize)
    &&& found ==> list.contains(c as usize)
}

/// Which operations depend on each operation, and on how many operations each one depends; or the
/// first wire that is consumed though nothing produces it.
pub(crate) fn link<O: Operation>(
    ops: &[O],
    producers: &HashMap<usize, usize>,
    Ghost(g): Ghost<Graph>,
) -> (r: Result<(Vec<Vec<usize>>, Vec<usize>), WireId>)
    requires
        g.deps == deps_of(ops@),
        all_outputs(ops@).no_duplicates(),
        locates(producers@, ops@, all_outputs(ops@)),
    ensures
        match r {
            Ok(linked) => {
                &&& all_produced(all_inputs(ops@), all_outputs(ops@))
                &&& forall|c: int, d: int| #[trigger] g.depends(c, d) ==> g.has(d)
                &&& linked.0@.len() == ops@.len()
                &&& linked.1@.len() == ops@.len()
                &&& forall|i: int| 0 <= i < ops@.len() ==> lists(#[trigger] linked.0@[i]@, g, i)
                &&& forall|i: int|
                    0 <= i < ops@.len() ==> #[trigger] linked.1@[i] == missing(
                        g,
                        i,
                        Seq::empty(),
                    ).len()
            },
            Err(wire) => is_first_missing(all_inputs(ops@), all_outputs(ops@), wire),
        },
{
    let n = ops.len();
    let mut consumers: Vec<Vec<usize>> = Vec::new();
    let mut in_degree: Vec<usize> = Vec::new();
    let mut i: usize = 0;
    while i < n
        invariant
            i <= n,
            consumers@.len() == i,
            in_degree@.len() == i,
            forall|p: int| 0 <= p < i ==> (#[trigger] consumers@[p])@.len() == 0,
            forall|c: int| 0 <= c < i ==> #[trigger] in_degree@[c] == 0,
        decreases n - i,
    {
        consumers.push(Vec::new());
        in_degree.push(0);
        i = i + 1;
    }
    let ghost inputs = inputs_of(ops@);
    let ghost outputs = all_outputs(ops@);
    let mut c: usize = 0;
    while c < n
        invariant
            n == ops@.len(),
            g.deps == deps_of(ops@),
            inputs == inputs_of(ops@),
            outputs == all_outputs(ops@),
            outputs.no_duplicates(),
            locates(producers@, ops@, outputs),
            c <= n,
            consumers@.len() == n,
            in_degree@.len() == n,
            forall|p: int|
                0 <= p < n ==> lists_before(#[trigger] consumers@[p]@, g, p, c as int, false),
            forall|x: int|
                0 <= x < n ==> #[trigger] in_degree@[x] == (if x < c {
                    g.deps[x].to_set().len()
                } else {
                    0
                }),
            forall|x: int, j: int|
                0 <= x < c && 0 <= j < inputs[x].len() ==> outputs.contains(#[trigger] inputs[x][j]),
            forall|x: int, j: int|
                0 <= x < c && 0 <= j < g.deps[x].len() ==> 0 <= #[trigger] g.deps[x][j] < n,
        decreases n - c,
    {
        let wires = ops[c].inputs();
        let ghost deps = g.deps[c as int];
        assert(wires@ == inputs[c as int]);
        let mut j: usize = 0;
        proof {
            assert(deps.take(0).to_set() =~= Set::empty());
        }
        while j < wires.len()
            invariant
                n == ops@.len(),
                g.deps == deps_of(ops@),
                inputs == inputs_of(ops@),
                outputs == all_outputs(ops@),
                outputs.no_duplicates(),
                locates(producers@, ops@, outputs),
                c < n,
                wires@ == inputs[c as int],
                deps == g.deps[c as int],
                deps.len() == wires@.len(),
                j <= wires@.len(),
                consumers@.len() == n,
                in_degree@.len() == n,
                forall|p: int|
                    0 <= p < n ==> lists_before(
                        #[trigger] consumers@[p]@,
                        g,
                        p,
                        c as int,
                        deps.take(j as int).contains(p),
                    ),
                forall|x: int|
                    0 <= x < n ==> #[trigger] in_degree@[x] == (if x < c {
                        g.deps[x].to_set().len()
                    } else if x == c {
                        deps.take(j as int).to_set().len()
                    } else {
                        0
                    }),
                forall|x: int, k: int|
                    0 <= x < c && 0 <= k < inputs[x].len() ==> outputs.contains(
                        #[trigger] inputs[x][k],
                    ),
                forall|k: int| 0 <= k < j ==> outputs.contains(#[trigger] wires@[k]),
                forall|x: int, k: int|
                    0 <= x < c && 0 <= k < g.deps[x].len() ==> 0 <= #[trigger] g.deps[x][k] < n,
                forall|k: int| 0 <= k < j ==> 0 <= #[trigger] deps[k] < n,
            decreases wires@.len() - j,
        {
            let wire = wires[j];
            assert(wire == WireId(wire.0));
            match producers.get(&wire.0) {
                Some(producer_idx) => {
                    let p = *producer_idx;
                    proof {
                        let outs = outputs_of(ops@);
                        let q = producer(ops@, wire);
                        assert(ops@[p as int].output_wires().contains(wire));
                        lemma_join_unique(outs, p as int, q, wire);
                        assert(deps[j as int] == p);
                        assert(deps.take(j + 1) =~= deps.take(j as int).push(p as int));
                        deps.take(j as int).lemma_push_to_set_commute(p as int);
                        vstd::seq_lib::seq_to_set_is_finite(deps.take(j as int));
                        vstd::seq_lib::seq_to_set_is_finite(deps.take(j + 1));
                        deps.take(j + 1).lemma_cardinality_of_set();
                        assert forall|x: int| #[trigger] deps.take(j + 1).contains(x) <==> deps.take(
                            j as int,
                        ).contains(x) || x == p by {
                            assert(deps.take(j + 1).to_set().contains(x) <==> deps.take(
                                j as int,
                            ).to_set().contains(x) || x == p);
                        }
                    }
                    let m = consumers[p].len();
                    let known = m > 0 && consumers[p][m - 1] == c;
                    proof {
                        let list = consumers@[p as int]@;
                        assert(lists_before(list, g, p as int, c as int, deps.take(j as int).contains(p as int)));
                        if deps.take(j as int).contains(p as int) {
                            let a = list.index_of(c);
                            assert(list[a] == c);
                            if a < m - 1 {
                                assert(list[a] < list[m - 1]);
                            }
                        }
                        assert(known == deps.take(j as int).contains(p as int));
                    }
                    if !known {
                        let ghost list = consumers@[p as int]@;
                        consumers[p].push(c);
                        let degree = in_degree[c] + 1;
                        in_degree[c] = degree;
                        proof {
                            assert(consumers@[p as int]@ == list.push(c));
                            let new = list.push(c);
                            assert(new[list.len() as int] == c);
                            assert forall|x: int| 0 <= x < c && #[trigger] g.depends(x, p as int) implies new.contains(
                                x as usize,
                            ) by {
                                assert(new[list.index_of(x as usize)] == x as usize);
                            }
                            assert(lists_before(new, g, p as int, c as int, true));
                        }
                    } else {
                        assert(deps.take(j as int).to_set().insert(p as int) =~= deps.take(j as int).to_set());
                    }
                },
                None => {
                    proof {
                        let all = all_inputs(ops@);
                        lemma_join_index(inputs, c as int, j as int);
                        let k = offset(inputs, c as int) + j;
                        assert(all[k] == wire);
                        assert(!outputs.contains(wire));
                        assert forall|q: int| 0 <= q < k implies outputs.contains(#[trigger] all[q]) by {
                            let place = crate::seqs::lemma_join_find(inputs, q);
                            if place.0 > c {
                                lemma_join_take(inputs, c as int);
                                crate::seqs::lemma_offset_monotonic(inputs, c + 1, place.0);
                            } else if place.0 < c {
                                assert(outputs.contains(inputs[place.0][place.1]));
                            } else {
                                assert(outputs.contains(wires@[place.1]));
                            }
                        }
                    }
                    return Err(wire);
                },
            }
            j = j + 1;
        }
        proof {
            assert(deps.take(j as int) =~= deps);
            assert forall|p: int| 0 <= p < n implies lists_before(
                #[trigger] consumers@[p]@,
                g,
                p,
                c + 1,
                false,
            ) by {
                let list = consumers@[p]@;
                assert forall|x: int| 0 <= x < c + 1 && #[trigger] g.depends(x, p) implies list.contains(
                    x as usize,
                ) by {}
            }
        }
        c = c + 1;
    }
    proof {
        assert forall|k: int| 0 <= k < all_inputs(ops@).len() implies outputs.contains(
            #[trigger] all_inputs(ops@)[k],
        ) by {
            let place = crate::seqs::lemma_join_find(inputs, k);
            assert(outputs.contains(inputs[place.0][place.1]));
        }
        assert forall|x: int, d: int| #[trigger] g.depends(x, d) implies g.has(d) by {
            let k = g.deps[x].index_of(d);
            assert(0 <= g.deps[x][k] < n);
        }
        assert forall|p: int| 0 <= p < n implies lists(#[trigger] consumers@[p]@, g, p) by {
            assert(lists_before(consumers@[p]@, g, p, n as int, false));
        }
        assert forall|x: int| 0 <= x < n implies #[trigger] in_degree@[x] == missing(
            g,
            x,
            Seq::empty(),
        ).len() by {
            assert(missing(g, x, Seq::empty()) =~= g.deps[x].to_set());
        }
    }
    Ok((consumers, in_degree))
}

} // verus!
