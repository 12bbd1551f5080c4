//! Which wires of an additive circuit hold shares, and which hold values that all parties know.

use std::collections::HashMap;

use vstd::prelude::*;

use crate::example::additive::AdditiveOperation;
use crate::mpc::circuit::WireId;

verus! {

broadcast use vstd::std_specs::hash::group_hash_axioms;

/// What a wire holds.
#[derive(Debug, Clone, Copy, PartialEq, Eq, Structural)]
pub enum WireType {
    /// A share; the shares of all parties add up to the value.
    Shared,
    /// The value itself, at every party.
    Public,
}

/// The wire that an operation produces.
pub open spec fn output_of(op: AdditiveOperation) -> WireId {
    match op {
        AdditiveOperation::Input { output, .. } => output,
        AdditiveOperation::GenRandom { output } => output,
        AdditiveOperation::Add { output, .. } => output,
        AdditiveOperation::Reveal { output, .. } => output,
    }
}

/// What the output of an operation holds where the types of its operands are known: a sum is
/// public if both operands are.
pub open spec fn type_of(op: AdditiveOperation, types: Map<usize, WireType>) -> Option<WireType> {
    match op {
        AdditiveOperation::Input { .. } => Some(WireType::Shared),
        AdditiveOperation::GenRandom { .. } => Some(WireType::Shared),
        AdditiveOperation::Reveal { .. } => Some(WireType::Public),
        AdditiveOperation::Add { left, right, .. } => {
            if !types.contains_key(left.0) || !types.contains_key(right.0) {
                None
            } else if types[left.0] == WireType::Public && types[right.0] == WireType::Public {
                Some(WireType::Public)
            } else {
                Some(WireType::Shared)
            }
        },
    }
}

/// Whether the output of each operation whose operands have types has one.
pub open spec fn closed_under(ops: Seq<AdditiveOperation>, types: Map<usize, WireType>) -> bool {
    forall|i: int|
        0 <= i < ops.len() && type_of(#[trigger] ops[i], types) is Some ==> types.contains_key(
            output_of(ops[i]).0,
        )
}

/// Whether some operation gives the wire `w` its type.
#[verifier::opaque]
pub open spec fn typed_by(
    ops: Seq<AdditiveOperation>,
    types: Map<usize, WireType>,
    w: usize,
) -> bool {
    exists|i: int|
        0 <= i < ops.len() && output_of(#[trigger] ops[i]).0 == w && type_of(ops[i], types) == Some(
            types[w],
        )
}

/// Whether each type comes from an operation.
pub open spec fn justified(ops: Seq<AdditiveOperation>, types: Map<usize, WireType>) -> bool {
    forall|w: usize| #[trigger] types.contains_key(w) ==> typed_by(ops, types, w)
}

/// One while a pass is pending, else zero.
spec fn pending(changed: bool) -> int {
    if changed {
        1
    } else {
        0
    }
}

/// The outputs of the operations.
spec fn outputs(ops: Seq<AdditiveOperation>) -> Seq<usize> {
    Seq::new(ops.len(), |i: int| output_of(ops[i]).0)
}

/// A further type leaves the others justified.
proof fn lemma_type_more(
    ops: Seq<AdditiveOperation>,
    types: Map<usize, WireType>,
    k: int,
    t: WireType,
)
    requires
        justified(ops, types),
        0 <= k < ops.len(),
        !types.contains_key(output_of(ops[k]).0),
        type_of(ops[k], types) == Some(t),
    ensures
        justified(ops, types.insert(output_of(ops[k]).0, t)),
{
    reveal(typed_by);
    let w = output_of(ops[k]).0;
    let more = types.insert(w, t);
    assert forall|v: usize| #[trigger] more.contains_key(v) implies typed_by(ops, more, v) by {
        if v == w {
            assert(type_of(ops[k], more) == Some(t));
        } else {
            assert(typed_by(ops, types, v));
            let i = choose|i: int|
                0 <= i < ops.len() && output_of(#[trigger] ops[i]).0 == v && type_of(ops[i], types)
                    == Some(types[v]);
            assert(type_of(ops[i], more) == type_of(ops[i], types));
        }
    }
}

/// There are no more types than operations.
proof fn lemma_types_bounded(ops: Seq<AdditiveOperation>, types: Map<usize, WireType>)
    requires
        justified(ops, types),
        types.dom().finite(),
    ensures
        types.dom().len() <= ops.len(),
{
    reveal(typed_by);
    let wires = outputs(ops);
    assert forall|w: usize| types.dom().contains(w) implies wires.to_set().contains(w) by {
        assert(typed_by(ops, types, w));
        let i = choose|i: int|
            0 <= i < ops.len() && output_of(#[trigger] ops[i]).0 == w && type_of(ops[i], types)
                == Some(types[w]);
        assert(wires[i] == w);
    }
    wires.lemma_cardinality_of_set();
    vstd::set_lib::lemma_len_subset(types.dom(), wires.to_set());
}

/// The type of the output of an operation, where it is known.
fn next_type(op: &AdditiveOperation, types: &HashMap<usize, WireType>) -> (t: Option<WireType>)
    ensures
        t == type_of(*op, types@),
{
    match op {
        AdditiveOperation::Input { .. } | AdditiveOperation::GenRandom { .. } => Some(
            WireType::Shared,
        ),
        AdditiveOperation::Reveal { .. } => Some(WireType::Public),
        AdditiveOperation::Add { left, right, .. } => {
            let left = types.get(&left.0);
            let right = types.get(&right.0);
            match (left, right) {
                (Some(WireType::Public), Some(WireType::Public)) => Some(WireType::Public),
                (Some(_), Some(_)) => Some(WireType::Shared),
                _ => None,
            }
        },
    }
}

/// The wire that an operation produces.
fn output(op: &AdditiveOperation) -> (wire: WireId)
    ensures
        wire == output_of(*op),
{
    match op {
        AdditiveOperation::Input { output, .. } => *output,
        AdditiveOperation::GenRandom { output } => *output,
        AdditiveOperation::Add { output, .. } => *output,
        AdditiveOperation::Reveal { output, .. } => *output,
    }
}

/// Gives the output of the operation `i` its type, where it has none and its type is known, and
/// tells whether it did.
fn type_output(
    ops: &[AdditiveOperation],
    i: usize,
    types: &mut HashMap<usize, WireType>,
) -> (changed: bool)
    requires
        i < ops@.len(),
        justified(ops@, old(types)@),
    ensures
        justified(ops@, final(types)@),
        changed ==> final(types)@.dom().len() == old(types)@.dom().len() + 1,
        !changed ==> final(types)@ == old(types)@,
        !changed && type_of(ops@[i as int], old(types)@) is Some ==> old(types)@.contains_key(
            output_of(ops@[i as int]).0,
        ),
{
    match next_type(&ops[i], types) {
        Some(t) => {
            let wire = output(&ops[i]);
            if types.contains_key(&wire.0) {
                return false;
            }
            proof {
                lemma_type_more(ops@, types@, i as int, t);
            }
            types.insert(wire.0, t);
            true
        },
        None => false,
    }
}

/// Finds out what each wire holds; a wire keeps the first type that it gets. Wires whose types
/// depend on wires that nothing produces, or on themselves alone, get none.
pub fn infer_wire_types(ops: &[AdditiveOperation]) -> (types: HashMap<usize, WireType>)
    ensures
        closed_under(ops@, types@),
        justified(ops@, types@),
{
    let mut types: HashMap<usize, WireType> = HashMap::new();
    let mut changed = true;
    while changed
        invariant
            justified(ops@, types@),
            types@.dom().len() <= ops@.len(),
            !changed ==> closed_under(ops@, types@),
        decreases ops@.len() - types@.dom().len(), pending(changed),
    {
        changed = false;
        let ghost before = types@.dom().len();
        let mut i: usize = 0;
        while i < ops.len()
            invariant
                i <= ops@.len(),
                justified(ops@, types@),
                changed ==> types@.dom().len() > before,
                !changed ==> types@.dom().len() == before,
                !changed ==> forall|j: int|
                    0 <= j < i && type_of(#[trigger] ops@[j], types@) is Some
                        ==> types@.contains_key(output_of(ops@[j]).0),
            decreases ops@.len() - i,
        {
            if type_output(ops, i, &mut types) {
                changed = true;
            }
            i = i + 1;
        }
        proof {
            lemma_types_bounded(ops@, types@);
        }
    }
    types
}

/// Where no wire is produced twice, the type of each wire follows from its producer.
pub proof fn law_types_follow_producers(
    ops: Seq<AdditiveOperation>,
    types: Map<usize, WireType>,
    k: int,
)
    requires
        closed_under(ops, types),
        justified(ops, types),
        forall|i: int, j: int|
            0 <= i < ops.len() && 0 <= j < ops.len() && i != j ==> output_of(#[trigger] ops[i])
                != output_of(#[trigger] ops[j]),
        0 <= k < ops.len(),
    ensures
        match type_of(ops[k], types) {
            Some(t) => types.contains_key(output_of(ops[k]).0) && types[output_of(ops[k]).0] == t,
            None => !types.contains_key(output_of(ops[k]).0),
        },
{
    reveal(typed_by);
    let w = output_of(ops[k]).0;
    if types.contains_key(w) {
        assert(typed_by(ops, types, w));
        let i = choose|i: int|
            0 <= i < ops.len() && output_of(#[trigger] ops[i]).0 == w && type_of(ops[i], types)
                == Some(types[w]);
        assert(output_of(ops[i]) == output_of(ops[k]));
    }
}

} // verus!
