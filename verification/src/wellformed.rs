//! What holds of every elaborated design: the slices of its mappings lie
//! within their signals and are equally wide on both sides, every port is at
//! least one bit wide, parts come before the chip that holds them, and no
//! bit has two drivers.

use crate::chip::{conflict, ChipKind, InstanceView, PortShape, SignalRef, Wiring};
use crate::parser::PortDirection;
use vstd::prelude::*;

verus! {

/// Every port is at least one bit wide.
pub open spec fn ports_ok(ports: Seq<PortShape>) -> bool {
    forall|p: int| 0 <= p < ports.len() ==> (#[trigger] ports[p]).width >= 1
}

/// The wiring `w` of the instance `inst` is sound, where the parts of `inst`
/// are among the first `k` instances of `arena`: it names a part of `inst`
/// and a port of that part, its port slice lies within the port, its wire
/// slice lies within a signal of `inst`, both slices are equally wide and
/// hold at least one bit, and `output` tells the direction of the port.
pub open spec fn wiring_ok(w: Wiring, inst: InstanceView, arena: Seq<InstanceView>, k: int) -> bool {
    &&& w.child < inst.children.len()
    &&& inst.children[w.child as int] < k
    &&& match w.port.signal {
        SignalRef::Port(pi) => {
            let child = arena[inst.children[w.child as int] as int];
            &&& pi < child.ports.len()
            &&& w.port.start + w.port.width <= child.ports[pi as int].width
            &&& w.output <==> child.ports[pi as int].direction == PortDirection::Out
        },
        SignalRef::Wire(_) => false,
    }
    &&& match w.wire.signal {
        SignalRef::Port(si) => si < inst.ports.len() && w.wire.start + w.wire.width
            <= inst.ports[si as int].width,
        SignalRef::Wire(wi) => wi < inst.wires.len() && w.wire.start + w.wire.width
            <= inst.wires[wi as int].width,
    }
    &&& w.port.width == w.wire.width
    &&& w.port.width >= 1
}

/// The instance `inst` is sound, where its parts are among the first `k`
/// instances of `arena`: its ports are at least one bit wide, its wirings
/// are sound, and its parts come in rising order, each with its own parts
/// behind the first instance of `inst`.
pub open spec fn placed_ok(inst: InstanceView, arena: Seq<InstanceView>, k: int) -> bool {
    &&& 0 <= k <= arena.len()
    &&& inst.first <= k
    &&& ports_ok(inst.ports)
    &&& forall|c: int|
        0 <= c < inst.children.len() ==> {
            &&& (#[trigger] inst.children[c]) < k
            &&& inst.first <= arena[inst.children[c] as int].first <= inst.children[c]
        }
    &&& forall|c: int, d: int|
        0 <= c < d < inst.children.len() ==> (#[trigger] inst.children[c]) < (
        #[trigger] inst.children[d])
    &&& forall|i: int|
        0 <= i < inst.wirings.len() ==> wiring_ok(#[trigger] inst.wirings[i], inst, arena, k)
}

/// The parts of `inst`, with all that is inside them, fill the positions
/// from the first instance of `inst` up to `k`, one behind the other: the
/// first part begins where `inst` begins, each further part begins behind
/// the part before it, and the last part stands just before `k`. An
/// instance without parts begins at `k`.
pub open spec fn tiled(inst: InstanceView, arena: Seq<InstanceView>, k: int) -> bool {
    if inst.children.len() == 0 {
        inst.first == k
    } else {
        &&& arena[inst.children[0] as int].first == inst.first
        &&& inst.children.last() + 1 == k
        &&& forall|c: int|
            0 <= c < inst.children.len() - 1 ==> arena[(#[trigger] inst.children[c + 1]) as int].first
                == inst.children[c] + 1
    }
}

/// A port of one bit.
pub open spec fn bit_port(name: Seq<char>, direction: PortDirection) -> PortShape {
    PortShape { name, width: 1, direction }
}

/// The ports of a NAND: the inputs `a` and `b`, the output `out`.
pub open spec fn nand_ports() -> Seq<PortShape> {
    seq![
        bit_port("a"@, PortDirection::In),
        bit_port("b"@, PortDirection::In),
        bit_port("out"@, PortDirection::Out),
    ]
}

/// The ports of a DFF: the input `in`, the output `out`.
pub open spec fn dff_ports() -> Seq<PortShape> {
    seq![bit_port("in"@, PortDirection::In), bit_port("out"@, PortDirection::Out)]
}

/// A NAND or a DFF has the ports of its kind and nothing inside.
pub open spec fn primitive_ok(inst: InstanceView) -> bool {
    inst.kind != ChipKind::Composite ==> {
        &&& inst.ports == if inst.kind == ChipKind::Nand {
            nand_ports()
        } else {
            dff_ports()
        }
        &&& inst.wires.len() == 0
        &&& inst.children.len() == 0
        &&& inst.wirings.len() == 0
    }
}

/// Every instance of the design is sound and has its parts before it, none
/// has a bit with two drivers, and the primitives are NANDs and DFFs as
/// they are built in.
pub open spec fn design_ok(arena: Seq<InstanceView>) -> bool {
    forall|k: int|
        0 <= k < arena.len() ==> {
            &&& placed_ok(#[trigger] arena[k], arena, k)
            &&& tiled(arena[k], arena, k)
            &&& !conflict(arena[k])
            &&& primitive_ok(arena[k])
        }
}

/// `a2` starts with the instances of `a1`.
pub open spec fn extends(a2: Seq<InstanceView>, a1: Seq<InstanceView>) -> bool {
    a1.len() <= a2.len() && forall|i: int| 0 <= i < a1.len() ==> #[trigger] a2[i] == a1[i]
}

/// Soundness carries over to a design that agrees on the first `k1`
/// instances, and to a larger bound.
pub proof fn lemma_placed_transfer(
    inst: InstanceView,
    a1: Seq<InstanceView>,
    k1: int,
    a2: Seq<InstanceView>,
    k2: int,
)
    requires
        placed_ok(inst, a1, k1),
        k1 <= k2 <= a2.len(),
        forall|i: int| 0 <= i < k1 ==> #[trigger] a2[i] == a1[i],
    ensures
        placed_ok(inst, a2, k2),
{
    assert forall|i: int| 0 <= i < inst.wirings.len() implies wiring_ok(
        #[trigger] inst.wirings[i],
        inst,
        a2,
        k2,
    ) by {
        let w = inst.wirings[i];
        assert(wiring_ok(w, inst, a1, k1));
        assert(a2[inst.children[w.child as int] as int] == a1[inst.children[w.child as int] as int]);
    }
    assert forall|c: int| 0 <= c < inst.children.len() implies (#[trigger] inst.children[c]) < k2
        && inst.first <= a2[inst.children[c] as int].first <= inst.children[c] by {
        assert(a2[inst.children[c] as int] == a1[inst.children[c] as int]);
    }
}

/// Tiling carries over to a design that agrees on the first `k` instances.
pub proof fn lemma_tiled_transfer(
    inst: InstanceView,
    a1: Seq<InstanceView>,
    a2: Seq<InstanceView>,
    k: int,
)
    requires
        placed_ok(inst, a1, k),
        tiled(inst, a1, k),
        k <= a2.len(),
        forall|i: int| 0 <= i < k ==> #[trigger] a2[i] == a1[i],
    ensures
        tiled(inst, a2, k),
{
    if inst.children.len() > 0 {
        assert(inst.children[0] < k);
        assert(a2[inst.children[0] as int] == a1[inst.children[0] as int]);
        assert forall|c: int| 0 <= c < inst.children.len() - 1 implies a2[(
        #[trigger] inst.children[c + 1]) as int].first == inst.children[c] + 1 by {
            assert(inst.children[c + 1] < k);
            assert(a2[inst.children[c + 1] as int] == a1[inst.children[c + 1] as int]);
        }
    }
}

/// Adding a sound wiring keeps an instance sound.
pub proof fn lemma_wired_ok(inst: InstanceView, arena: Seq<InstanceView>, k: int, w: Wiring)
    requires
        placed_ok(inst, arena, k),
        wiring_ok(w, inst, arena, k),
    ensures
        placed_ok(inst.wired(w), arena, k),
{
    let after = inst.wired(w);
    assert forall|i: int| 0 <= i < after.wirings.len() implies wiring_ok(
        #[trigger] after.wirings[i],
        after,
        arena,
        k,
    ) by {
        if i < inst.wirings.len() {
            assert(wiring_ok(inst.wirings[i], inst, arena, k));
        }
    }
}

/// Widening an inner wire keeps an instance sound.
pub proof fn lemma_grown_ok(
    inst: InstanceView,
    arena: Seq<InstanceView>,
    k: int,
    i: int,
    width: usize,
    fixed: bool,
)
    requires
        placed_ok(inst, arena, k),
        0 <= i < inst.wires.len(),
        width >= inst.wires[i].width,
    ensures
        placed_ok(inst.grown(i, width, fixed), arena, k),
{
    let after = inst.grown(i, width, fixed);
    assert forall|j: int| 0 <= j < after.wirings.len() implies wiring_ok(
        #[trigger] after.wirings[j],
        after,
        arena,
        k,
    ) by {
        assert(wiring_ok(inst.wirings[j], inst, arena, k));
    }
}

/// One more inner wire keeps an instance sound.
pub proof fn lemma_with_wire_ok(
    inst: InstanceView,
    arena: Seq<InstanceView>,
    k: int,
    name: Seq<char>,
    width: usize,
    fixed: bool,
)
    requires
        placed_ok(inst, arena, k),
    ensures
        placed_ok(inst.with_wire(name, width, fixed), arena, k),
{
    let after = inst.with_wire(name, width, fixed);
    assert forall|j: int| 0 <= j < after.wirings.len() implies wiring_ok(
        #[trigger] after.wirings[j],
        after,
        arena,
        k,
    ) by {
        assert(wiring_ok(inst.wirings[j], inst, arena, k));
    }
}

/// One more part, the instance that was added last to a design that was
/// tiled before it was added, keeps an instance sound and tiled.
pub proof fn lemma_with_child_ok(
    inst: InstanceView,
    before: Seq<InstanceView>,
    arena: Seq<InstanceView>,
    index: usize,
)
    requires
        placed_ok(inst, before, before.len() as int),
        tiled(inst, before, before.len() as int),
        extends(arena, before),
        before.len() < arena.len(),
        index == arena.len() - 1,
        arena[index as int].first == before.len(),
    ensures
        placed_ok(inst.with_child(index), arena, arena.len() as int),
        tiled(inst.with_child(index), arena, arena.len() as int),
{
    let k = arena.len() as int;
    lemma_placed_transfer(inst, before, before.len() as int, arena, k);
    lemma_tiled_transfer(inst, before, arena, before.len() as int);
    let after = inst.with_child(index);
    assert forall|c: int| 0 <= c < inst.children.len() implies (#[trigger] inst.children[c])
        < before.len() by {}
    if inst.children.len() > 0 {
        assert(inst.children[inst.children.len() - 1] < before.len());
        assert(arena[inst.children[inst.children.len() - 1] as int].first
            <= inst.children[inst.children.len() - 1]);
    }
    assert forall|c: int| 0 <= c < after.children.len() implies {
        &&& (#[trigger] after.children[c]) < k
        &&& after.first <= arena[after.children[c] as int].first <= after.children[c]
    } by {
        if c < inst.children.len() {
            assert(inst.children[c] < k);
        }
    }
    assert forall|c: int, d: int| 0 <= c < d < after.children.len() implies (
    #[trigger] after.children[c]) < (#[trigger] after.children[d]) by {
        if d < inst.children.len() {
            assert(inst.children[c] < inst.children[d]);
        } else {
            assert(inst.children[c] < before.len());
        }
    }
    assert(tiled(after, arena, k)) by {
        if inst.children.len() > 0 {
            assert(after.children[0] == inst.children[0]);
            assert forall|c: int| 0 <= c < after.children.len() - 1 implies arena[(
            #[trigger] after.children[c + 1]) as int].first == after.children[c] + 1 by {
                if c < inst.children.len() - 1 {
                    assert(after.children[c + 1] == inst.children[c + 1]);
                    assert(after.children[c] == inst.children[c]);
                } else {
                    assert(after.children[c] == inst.children.last());
                }
            }
        }
    }
    assert forall|j: int| 0 <= j < after.wirings.len() implies wiring_ok(
        #[trigger] after.wirings[j],
        after,
        arena,
        k,
    ) by {
        assert(wiring_ok(inst.wirings[j], inst, arena, k));
    }
}

/// A sound instance without conflicts may close a sound design.
pub proof fn lemma_design_push(arena: Seq<InstanceView>, inst: InstanceView)
    requires
        design_ok(arena),
        placed_ok(inst, arena, arena.len() as int),
        tiled(inst, arena, arena.len() as int),
        !conflict(inst),
        primitive_ok(inst),
    ensures
        design_ok(arena.push(inst)),
        extends(arena.push(inst), arena),
{
    let after = arena.push(inst);
    assert forall|k: int| 0 <= k < after.len() implies placed_ok(#[trigger] after[k], after, k)
        && tiled(after[k], after, k) && !conflict(after[k]) && primitive_ok(after[k]) by {
        if k < arena.len() {
            assert(placed_ok(arena[k], arena, k));
            lemma_placed_transfer(arena[k], arena, k, after, k);
            lemma_tiled_transfer(arena[k], arena, after, k);
        } else {
            lemma_placed_transfer(inst, arena, k, after, k);
            lemma_tiled_transfer(inst, arena, after, k);
        }
    }
}

/// Extension is transitive.
pub proof fn lemma_extends_trans(a3: Seq<InstanceView>, a2: Seq<InstanceView>, a1: Seq<InstanceView>)
    requires
        extends(a3, a2),
        extends(a2, a1),
    ensures
        extends(a3, a1),
{
    assert forall|i: int| 0 <= i < a1.len() implies #[trigger] a3[i] == a1[i] by {
        assert(a2[i] == a1[i]);
    }
}


/// The position `x` belongs to the instance `k`: it lies from the first
/// instance of `k` up to `k`.
pub open spec fn belongs(arena: Seq<InstanceView>, k: int, x: int) -> bool {
    arena[k].first <= x <= k
}

/// A position that lies from the beginning of the first part up to the part
/// number `j` belongs to one of the parts up to that one.
proof fn lemma_find_part(arena: Seq<InstanceView>, k: int, x: int, j: int) -> (found: int)
    requires
        design_ok(arena),
        0 <= k < arena.len(),
        0 <= j < arena[k].children.len(),
        arena[k].first <= x <= arena[k].children[j],
    ensures
        0 <= found <= j,
        belongs(arena, arena[k].children[found] as int, x),
    decreases j,
{
    let inst = arena[k];
    assert(placed_ok(inst, arena, k) && tiled(inst, arena, k));
    if arena[inst.children[j] as int].first <= x {
        j
    } else {
        if j == 0 {
            assert(arena[inst.children[0] as int].first == inst.first);
            assert(false);
        }
        assert(arena[inst.children[(j - 1) + 1] as int].first == inst.children[j - 1] + 1);
        lemma_find_part(arena, k, x, j - 1)
    }
}

/// A position that belongs to an instance and is not the instance itself
/// belongs to one of its parts.
pub proof fn lemma_part_of(arena: Seq<InstanceView>, k: int, x: int) -> (found: int)
    requires
        design_ok(arena),
        0 <= k < arena.len(),
        arena[k].first <= x < k,
    ensures
        0 <= found < arena[k].children.len(),
        belongs(arena, arena[k].children[found] as int, x),
{
    let inst = arena[k];
    assert(placed_ok(inst, arena, k) && tiled(inst, arena, k));
    lemma_find_part(arena, k, x, inst.children.len() - 1)
}

/// What belongs to an instance begins no earlier than the instance.
pub proof fn lemma_nested(arena: Seq<InstanceView>, k: int, x: int)
    requires
        design_ok(arena),
        0 <= k < arena.len(),
        belongs(arena, k, x),
    ensures
        arena[k].first <= arena[x].first,
    decreases k,
{
    if x < k {
        let inst = arena[k];
        assert(placed_ok(inst, arena, k));
        let j = lemma_part_of(arena, k, x);
        assert(inst.children[j] < k);
        lemma_nested(arena, inst.children[j] as int, x);
    }
}

/// No instance is a part of two instances.
pub proof fn lemma_one_parent(arena: Seq<InstanceView>, k1: int, j1: int, k2: int, j2: int)
    requires
        design_ok(arena),
        0 <= k1 < k2 < arena.len(),
        0 <= j1 < arena[k1].children.len(),
        0 <= j2 < arena[k2].children.len(),
    ensures
        arena[k1].children[j1] != arena[k2].children[j2],
{
    let p1 = arena[k1];
    let p2 = arena[k2];
    assert(placed_ok(p1, arena, k1) && placed_ok(p2, arena, k2) && tiled(p2, arena, k2));
    let c = p2.children[j2];
    if p1.children[j1] == c {
        assert(c < k1);
        assert(p2.first <= arena[c as int].first <= c);
        let j = lemma_part_of(arena, k2, k1);
        let d = p2.children[j];
        if j <= j2 {
            if j < j2 {
                assert(p2.children[j] < p2.children[j2]);
            }
            assert(false);
        }
        assert(arena[p2.children[(j - 1) + 1] as int].first == p2.children[j - 1] + 1);
        if j - 1 > j2 {
            assert(p2.children[j2] < p2.children[j - 1]);
        }
        assert(d < k2);
        lemma_nested(arena, d as int, k1);
        assert(p1.first <= arena[c as int].first);
        assert(false);
    }
}

} // verus!
