//! The netlist of a sound design has no flaw but, possibly, a loop of gates:
//! every net that a gate or a port names is a net of the netlist, the cells
//! of the DFFs are in order, no net has two drivers, and no gate drives an
//! input of the root chip.

use crate::chip::{clash, conflict, drives_input, ChipKind, InstanceView, SignalRef, Wiring};
use crate::netlist::{
    cells_before, copy_gate, leaf_gate, net_at, netlist_of, signal_base, signal_count,
    signal_index, spec_copies, spec_gates, spec_wirings, width_at, Gate,
};
use crate::parser::PortDirection;
use crate::settle::{
    distinct_outputs, driver, gate_fits, gates_fit, lemma_driver_drives, out_of,
};
use crate::simulator::{cells_ascend, flaw, input_driven, ports_fit};
use crate::wellformed::{
    design_ok, dff_ports, lemma_one_parent, nand_ports, placed_ok, ports_ok, primitive_ok,
    wiring_ok,
};
use vstd::prelude::*;

verus! {

/// The number of nets of a design.
pub open spec fn net_count(arena: Seq<InstanceView>) -> nat {
    signal_base(arena, arena.len() as int, 0)
}

/// The number of DFFs of a design.
pub open spec fn cell_count(arena: Seq<InstanceView>) -> nat {
    cells_before(arena, arena.len() as int)
}

/// Within an instance, later signals have later nets.
proof fn lemma_base_within(arena: Seq<InstanceView>, k: int, n: int, m: int)
    requires
        0 <= n <= m,
    ensures
        signal_base(arena, k, n) <= signal_base(arena, k, m),
    decreases m - n,
{
    if n < m {
        lemma_base_within(arena, k, n, m - 1);
    }
}

/// Later instances have later nets.
proof fn lemma_base_across(arena: Seq<InstanceView>, k: int, k2: int)
    requires
        0 <= k <= k2,
    ensures
        signal_base(arena, k, 0) <= signal_base(arena, k2, 0),
    decreases k2 - k,
{
    if k < k2 {
        lemma_base_across(arena, k, k2 - 1);
        lemma_base_within(arena, k2 - 1, 0, signal_count(arena[k2 - 1]));
    }
}

/// The nets of a signal are nets of the design.
pub proof fn lemma_signal_range(arena: Seq<InstanceView>, k: int, n: int)
    requires
        0 <= k < arena.len(),
        0 <= n < signal_count(arena[k]),
    ensures
        signal_base(arena, k, n) + width_at(arena[k], n) <= net_count(arena),
{
    lemma_base_within(arena, k, n + 1, signal_count(arena[k]));
    lemma_base_across(arena, k + 1, arena.len() as int);
}

/// The nets of the first `n` ports of an instance are at least `n`, for
/// every port has a bit.
proof fn lemma_base_counts(arena: Seq<InstanceView>, k: int, n: int)
    requires
        ports_ok(arena[k].ports),
        0 <= n <= arena[k].ports.len(),
    ensures
        n <= signal_base(arena, k, n),
    decreases n,
{
    if n > 0 {
        lemma_base_counts(arena, k, n - 1);
        assert(arena[k].ports[n - 1].width >= 1);
    }
}

/// A bit of a signal is a net of the design.
proof fn lemma_net_fits(arena: Seq<InstanceView>, k: int, s: SignalRef, bit: int)
    requires
        0 <= k < arena.len(),
        net_count(arena) < usize::MAX,
        0 <= bit,
        match s {
            SignalRef::Port(i) => i < arena[k].ports.len() && bit < arena[k].ports[i as int].width,
            SignalRef::Wire(i) => i < arena[k].wires.len() && bit < arena[k].wires[i as int].width,
        },
    ensures
        net_at(arena, k, s, bit) < net_count(arena),
{
    lemma_signal_range(arena, k, signal_index(arena[k], s));
}

/// There are no more DFFs among fewer instances.
proof fn lemma_cells_grow(arena: Seq<InstanceView>, k: int, k2: int)
    requires
        0 <= k <= k2,
    ensures
        cells_before(arena, k) <= cells_before(arena, k2),
    decreases k2 - k,
{
    if k < k2 {
        lemma_cells_grow(arena, k, k2 - 1);
    }
}

/// The gates of a wiring of a sound design fit.
proof fn lemma_copy_fits(arena: Seq<InstanceView>, k: int, w: Wiring, j: int)
    requires
        0 <= k < arena.len(),
        wiring_ok(w, arena[k], arena, k),
        0 <= j < w.port.width,
        net_count(arena) < usize::MAX,
    ensures
        gate_fits(copy_gate(arena, k, w, j), net_count(arena) as int, cell_count(arena) as int),
{
    let child = arena[k].children[w.child as int] as int;
    lemma_net_fits(arena, child, w.port.signal, w.port.start + j);
    lemma_net_fits(arena, k, w.wire.signal, w.wire.start + j);
}

/// `longer` is `acc` and then gates that copy and fit.
pub open spec fn copies_added(acc: Seq<Gate>, longer: Seq<Gate>, nets: int, cells: int) -> bool {
    &&& acc.len() <= longer.len()
    &&& forall|i: int| 0 <= i < acc.len() ==> #[trigger] longer[i] == acc[i]
    &&& forall|i: int|
        acc.len() <= i < longer.len() ==> (#[trigger] longer[i]) is Copy && gate_fits(
            longer[i],
            nets,
            cells,
        )
}

proof fn lemma_copies_added(arena: Seq<InstanceView>, k: int, w: Wiring, j: int, acc: Seq<Gate>)
    requires
        0 <= k < arena.len(),
        wiring_ok(w, arena[k], arena, k),
        0 <= j,
        net_count(arena) < usize::MAX,
    ensures
        copies_added(
            acc,
            spec_copies(arena, k, w, j, acc),
            net_count(arena) as int,
            cell_count(arena) as int,
        ),
    decreases w.port.width - j,
{
    if j < w.port.width {
        let next = acc.push(copy_gate(arena, k, w, j));
        lemma_copy_fits(arena, k, w, j);
        lemma_copies_added(arena, k, w, j + 1, next);
        let longer = spec_copies(arena, k, w, j, acc);
        assert forall|i: int| 0 <= i < acc.len() implies #[trigger] longer[i] == acc[i] by {
            assert(longer[i] == next[i]);
        }
        assert forall|i: int| acc.len() <= i < longer.len() implies (#[trigger] longer[i]) is Copy
            && gate_fits(longer[i], net_count(arena) as int, cell_count(arena) as int) by {
            if i == acc.len() {
                assert(longer[i] == next[i]);
            }
        }
    }
}

proof fn lemma_wirings_added(arena: Seq<InstanceView>, k: int, i: int, acc: Seq<Gate>)
    requires
        0 <= k < arena.len(),
        placed_ok(arena[k], arena, k),
        0 <= i,
        net_count(arena) < usize::MAX,
    ensures
        copies_added(
            acc,
            spec_wirings(arena, k, i, acc),
            net_count(arena) as int,
            cell_count(arena) as int,
        ),
    decreases arena[k].wirings.len() - i,
{
    if i < arena[k].wirings.len() {
        let w = arena[k].wirings[i];
        assert(wiring_ok(w, arena[k], arena, k));
        let next = spec_copies(arena, k, w, 0, acc);
        lemma_copies_added(arena, k, w, 0, acc);
        lemma_wirings_added(arena, k, i + 1, next);
        let longer = spec_wirings(arena, k, i, acc);
        assert forall|x: int| 0 <= x < acc.len() implies #[trigger] longer[x] == acc[x] by {
            assert(longer[x] == next[x]);
        }
        assert forall|x: int| acc.len() <= x < longer.len() implies (#[trigger] longer[x]) is Copy
            && gate_fits(longer[x], net_count(arena) as int, cell_count(arena) as int) by {
            if x < next.len() {
                assert(longer[x] == next[x]);
            }
        }
    }
}

/// The gates so far fit, and the cells of their DFFs rise and stay below
/// `bound`.
pub open spec fn in_order(gates: Seq<Gate>, nets: int, cells: int, bound: int) -> bool {
    &&& gates_fit(gates, nets, cells)
    &&& cells_ascend(gates)
    &&& forall|i: int|
        0 <= i < gates.len() ==> match #[trigger] gates[i] {
            Gate::Dff { cell, .. } => cell < bound,
            _ => true,
        }
}

/// Gates that copy, added to gates in order, leave them in order.
proof fn lemma_copies_keep_order(acc: Seq<Gate>, longer: Seq<Gate>, nets: int, cells: int, bound: int)
    requires
        in_order(acc, nets, cells, bound),
        copies_added(acc, longer, nets, cells),
    ensures
        in_order(longer, nets, cells, bound),
{
    assert forall|i: int| 0 <= i < longer.len() implies gate_fits(
        #[trigger] longer[i],
        nets,
        cells,
    ) by {
        if i < acc.len() {
            assert(gate_fits(acc[i], nets, cells));
        }
    }
    assert forall|i: int, j: int| 0 <= i < j < longer.len() implies match (
        #[trigger] longer[i],
        #[trigger] longer[j],
    ) {
        (Gate::Dff { cell: c1, .. }, Gate::Dff { cell: c2, .. }) => c1 < c2,
        _ => true,
    } by {
        if j < acc.len() {
            assert(match (acc[i], acc[j]) {
                (Gate::Dff { cell: c1, .. }, Gate::Dff { cell: c2, .. }) => c1 < c2,
                _ => true,
            });
        }
    }
    assert forall|i: int| 0 <= i < longer.len() implies match #[trigger] longer[i] {
        Gate::Dff { cell, .. } => cell < bound,
        _ => true,
    } by {
        if i < acc.len() {
            assert(match acc[i] {
                Gate::Dff { cell, .. } => cell < bound,
                _ => true,
            });
        }
    }
}

/// The gates of the instances from the `k`-th on, added to gates in order,
/// are in order.
proof fn lemma_gates_in_order(arena: Seq<InstanceView>, k: int, acc: Seq<Gate>)
    requires
        design_ok(arena),
        0 <= k <= arena.len(),
        net_count(arena) < usize::MAX,
        cell_count(arena) < usize::MAX,
        in_order(acc, net_count(arena) as int, cell_count(arena) as int, cells_before(arena, k) as int),
    ensures
        in_order(
            spec_gates(arena, k, acc),
            net_count(arena) as int,
            cell_count(arena) as int,
            cell_count(arena) as int,
        ),
    decreases arena.len() - k,
{
    let nets = net_count(arena) as int;
    let cells = cell_count(arena) as int;
    if k < arena.len() {
        let inst = arena[k];
        assert(placed_ok(inst, arena, k) && primitive_ok(inst));
        lemma_cells_grow(arena, k + 1, arena.len() as int);
        let bound = cells_before(arena, k + 1) as int;
        let own = match leaf_gate(arena, k) {
            Some(g) => acc.push(g),
            None => acc,
        };
        assert(in_order(own, nets, cells, bound)) by {
            match leaf_gate(arena, k) {
                Some(g) => {
                    if inst.kind == ChipKind::Nand {
                        assert(inst.ports == nand_ports());
                        lemma_net_fits(arena, k, SignalRef::Port(0), 0);
                        lemma_net_fits(arena, k, SignalRef::Port(1), 0);
                        lemma_net_fits(arena, k, SignalRef::Port(2), 0);
                    } else {
                        assert(inst.ports == dff_ports());
                        lemma_net_fits(arena, k, SignalRef::Port(0), 0);
                        lemma_net_fits(arena, k, SignalRef::Port(1), 0);
                    }
                    assert(gate_fits(g, nets, cells));
                    assert forall|i: int| 0 <= i < own.len() implies gate_fits(
                        #[trigger] own[i],
                        nets,
                        cells,
                    ) by {
                        if i < acc.len() {
                            assert(gate_fits(acc[i], nets, cells));
                        }
                    }
                    assert forall|i: int, j: int| 0 <= i < j < own.len() implies match (
                        #[trigger] own[i],
                        #[trigger] own[j],
                    ) {
                        (Gate::Dff { cell: c1, .. }, Gate::Dff { cell: c2, .. }) => c1 < c2,
                        _ => true,
                    } by {
                        if j < acc.len() {
                            assert(match (acc[i], acc[j]) {
                                (Gate::Dff { cell: c1, .. }, Gate::Dff { cell: c2, .. }) => c1
                                    < c2,
                                _ => true,
                            });
                        } else {
                            assert(match acc[i] {
                                Gate::Dff { cell, .. } => cell < cells_before(arena, k),
                                _ => true,
                            });
                        }
                    }
                    assert forall|i: int| 0 <= i < own.len() implies match #[trigger] own[i] {
                        Gate::Dff { cell, .. } => cell < bound,
                        _ => true,
                    } by {
                        if i < acc.len() {
                            assert(match acc[i] {
                                Gate::Dff { cell, .. } => cell < cells_before(arena, k),
                                _ => true,
                            });
                        }
                    }
                },
                None => {
                    assert forall|i: int| 0 <= i < own.len() implies match #[trigger] own[i] {
                        Gate::Dff { cell, .. } => cell < bound,
                        _ => true,
                    } by {
                        assert(match acc[i] {
                            Gate::Dff { cell, .. } => cell < cells_before(arena, k),
                            _ => true,
                        });
                    }
                },
            }
        }
        let wired = spec_wirings(arena, k, 0, own);
        lemma_wirings_added(arena, k, 0, own);
        lemma_copies_keep_order(own, wired, nets, cells, bound);
        lemma_gates_in_order(arena, k + 1, wired);
    } else {
        assert forall|i: int| 0 <= i < acc.len() implies match #[trigger] acc[i] {
            Gate::Dff { cell, .. } => cell < cells,
            _ => true,
        } by {}
    }
}

/// Where a gate of a netlist comes from: from the primitive instance `k`, or
/// from bit `j` of the wiring `i` of the instance `k`.
pub enum Origin {
    Leaf(int),
    Copy(int, int, int),
}

/// The origin is one of the design.
pub open spec fn valid_origin(arena: Seq<InstanceView>, o: Origin) -> bool {
    match o {
        Origin::Leaf(k) => 0 <= k < arena.len() && leaf_gate(arena, k) is Some,
        Origin::Copy(k, i, j) => 0 <= k < arena.len() && 0 <= i < arena[k].wirings.len() && 0 <= j
            < arena[k].wirings[i].port.width,
    }
}

/// Which gate comes from an origin.
pub open spec fn gate_from(arena: Seq<InstanceView>, o: Origin) -> Gate {
    match o {
        Origin::Leaf(k) => leaf_gate(arena, k)->Some_0,
        Origin::Copy(k, i, j) => copy_gate(arena, k, arena[k].wirings[i], j),
    }
}

/// The origin comes before the bit `j` of the wiring `i` of the instance
/// `k`, in the order in which gates are made; what the instance itself
/// turns into counts as its wiring -1.
pub open spec fn comes_before(o: Origin, k: int, i: int, j: int) -> bool {
    match o {
        Origin::Leaf(k0) => k0 < k || (k0 == k && -1 < i) || (k0 == k && -1 == i && 0 < j),
        Origin::Copy(k0, i0, j0) => k0 < k || (k0 == k && i0 < i) || (k0 == k && i0 == i && j0 < j),
    }
}

/// The gates `gates` come from the origins `from`, in the order in which
/// gates are made, and all from before the bit `j` of the wiring `i` of the
/// instance `k`.
pub open spec fn traced(
    arena: Seq<InstanceView>,
    gates: Seq<Gate>,
    from: Seq<Origin>,
    k: int,
    i: int,
    j: int,
) -> bool {
    &&& from.len() == gates.len()
    &&& forall|x: int|
        0 <= x < gates.len() ==> {
            &&& valid_origin(arena, #[trigger] from[x])
            &&& gates[x] == gate_from(arena, from[x])
            &&& comes_before(from[x], k, i, j)
        }
    &&& forall|x: int, y: int|
        0 <= x < y < gates.len() ==> (#[trigger] from[x]) != (#[trigger] from[y])
}

/// One more gate, from the place up to which the gates were traced, leaves
/// them traced up to any later place.
proof fn lemma_traced_push(
    arena: Seq<InstanceView>,
    gates: Seq<Gate>,
    from: Seq<Origin>,
    o: Origin,
    k: int,
    i: int,
    j: int,
    k2: int,
    i2: int,
    j2: int,
)
    requires
        traced(arena, gates, from, k, i, j),
        valid_origin(arena, o),
        o == if i == -1 {
            Origin::Leaf(k)
        } else {
            Origin::Copy(k, i, j)
        },
        i == -1 ==> j == 0,
        k < k2 || (k == k2 && i < i2) || (k == k2 && i == i2 && j < j2),
    ensures
        traced(arena, gates.push(gate_from(arena, o)), from.push(o), k2, i2, j2),
{
    let g2 = gates.push(gate_from(arena, o));
    let f2 = from.push(o);
    assert forall|x: int| 0 <= x < g2.len() implies {
        &&& valid_origin(arena, #[trigger] f2[x])
        &&& g2[x] == gate_from(arena, f2[x])
        &&& comes_before(f2[x], k2, i2, j2)
    } by {
        if x < gates.len() {
            assert(comes_before(from[x], k, i, j));
        }
    }
    assert forall|x: int, y: int| 0 <= x < y < g2.len() implies (#[trigger] f2[x]) != (
    #[trigger] f2[y]) by {
        if y < gates.len() {
            assert(from[x] != from[y]);
        } else {
            assert(comes_before(from[x], k, i, j));
        }
    }
}

/// Gates that were traced up to a place are traced up to any later place.
proof fn lemma_traced_later(
    arena: Seq<InstanceView>,
    gates: Seq<Gate>,
    from: Seq<Origin>,
    k: int,
    i: int,
    j: int,
    k2: int,
    i2: int,
    j2: int,
)
    requires
        traced(arena, gates, from, k, i, j),
        k < k2 || (k == k2 && i < i2) || (k == k2 && i == i2 && j <= j2),
    ensures
        traced(arena, gates, from, k2, i2, j2),
{
    assert forall|x: int| 0 <= x < gates.len() implies comes_before(#[trigger] from[x], k2, i2, j2) by {
        assert(comes_before(from[x], k, i, j));
    }
}

proof fn lemma_copies_traced(
    arena: Seq<InstanceView>,
    k: int,
    i: int,
    j: int,
    acc: Seq<Gate>,
    from: Seq<Origin>,
) -> (from2: Seq<Origin>)
    requires
        0 <= k < arena.len(),
        0 <= i < arena[k].wirings.len(),
        0 <= j,
        traced(arena, acc, from, k, i, j),
    ensures
        traced(arena, spec_copies(arena, k, arena[k].wirings[i], j, acc), from2, k, i + 1, 0),
    decreases arena[k].wirings[i].port.width - j,
{
    let w = arena[k].wirings[i];
    if j < w.port.width {
        let o = Origin::Copy(k, i, j);
        lemma_traced_push(arena, acc, from, o, k, i, j, k, i, j + 1);
        lemma_copies_traced(arena, k, i, j + 1, acc.push(copy_gate(arena, k, w, j)), from.push(o))
    } else {
        lemma_traced_later(arena, acc, from, k, i, j, k, i + 1, 0);
        from
    }
}

proof fn lemma_wirings_traced(
    arena: Seq<InstanceView>,
    k: int,
    i: int,
    acc: Seq<Gate>,
    from: Seq<Origin>,
) -> (from2: Seq<Origin>)
    requires
        0 <= k < arena.len(),
        0 <= i,
        traced(arena, acc, from, k, i, 0),
    ensures
        traced(arena, spec_wirings(arena, k, i, acc), from2, k + 1, -1, 0),
    decreases arena[k].wirings.len() - i,
{
    if i < arena[k].wirings.len() {
        let w = arena[k].wirings[i];
        let f1 = lemma_copies_traced(arena, k, i, 0, acc, from);
        lemma_wirings_traced(arena, k, i + 1, spec_copies(arena, k, w, 0, acc), f1)
    } else {
        lemma_traced_later(arena, acc, from, k, i, 0, k + 1, -1, 0);
        from
    }
}

proof fn lemma_gates_traced(arena: Seq<InstanceView>, k: int, acc: Seq<Gate>, from: Seq<Origin>) -> (from2:
    Seq<Origin>)
    requires
        0 <= k <= arena.len(),
        traced(arena, acc, from, k, -1, 0),
    ensures
        traced(arena, spec_gates(arena, k, acc), from2, arena.len() as int, -1, 0),
    decreases arena.len() - k,
{
    if k < arena.len() {
        match leaf_gate(arena, k) {
            Some(g) => {
                let o = Origin::Leaf(k);
                lemma_traced_push(arena, acc, from, o, k, -1, 0, k, 0, 0);
                let f1 = lemma_wirings_traced(arena, k, 0, acc.push(g), from.push(o));
                lemma_gates_traced(arena, k + 1, spec_wirings(arena, k, 0, acc.push(g)), f1)
            },
            None => {
                lemma_traced_later(arena, acc, from, k, -1, 0, k, 0, 0);
                let f1 = lemma_wirings_traced(arena, k, 0, acc, from);
                lemma_gates_traced(arena, k + 1, spec_wirings(arena, k, 0, acc), f1)
            },
        }
    } else {
        from
    }
}

/// The signals of an instance that comes first, or that come first in one
/// instance, have the lower nets.
proof fn lemma_base_order(arena: Seq<InstanceView>, k1: int, n1: int, k2: int, n2: int)
    requires
        0 <= k1 <= k2,
        0 <= n1 < signal_count(arena[k1]),
        0 <= n2,
        k1 < k2 || n1 < n2,
    ensures
        signal_base(arena, k1, n1) + width_at(arena[k1], n1) <= signal_base(arena, k2, n2),
{
    if k1 == k2 {
        lemma_base_within(arena, k1, n1 + 1, n2);
    } else {
        lemma_base_within(arena, k1, n1 + 1, signal_count(arena[k1]));
        lemma_base_across(arena, k1 + 1, k2);
        lemma_base_within(arena, k2, 0, n2);
    }
}

/// The bit `bit` of the signal `s` is a bit of the instance `k`.
pub open spec fn bit_of_signal(arena: Seq<InstanceView>, k: int, s: SignalRef, bit: int) -> bool {
    &&& 0 <= k < arena.len()
    &&& 0 <= bit
    &&& match s {
        SignalRef::Port(i) => i < arena[k].ports.len() && bit < arena[k].ports[i as int].width,
        SignalRef::Wire(i) => i < arena[k].wires.len() && bit < arena[k].wires[i as int].width,
    }
}

/// Different bits of the signals of a design are different nets.
proof fn lemma_nets_differ(
    arena: Seq<InstanceView>,
    k1: int,
    s1: SignalRef,
    b1: int,
    k2: int,
    s2: SignalRef,
    b2: int,
)
    requires
        net_count(arena) < usize::MAX,
        bit_of_signal(arena, k1, s1, b1),
        bit_of_signal(arena, k2, s2, b2),
        k1 != k2 || s1 != s2 || b1 != b2,
    ensures
        net_at(arena, k1, s1, b1) != net_at(arena, k2, s2, b2),
{
    let n1 = signal_index(arena[k1], s1);
    let n2 = signal_index(arena[k2], s2);
    lemma_signal_range(arena, k1, n1);
    lemma_signal_range(arena, k2, n2);
    if k1 < k2 || (k1 == k2 && n1 < n2) {
        lemma_base_order(arena, k1, n1, k2, n2);
    } else if k2 < k1 || (k1 == k2 && n2 < n1) {
        lemma_base_order(arena, k2, n2, k1, n1);
    }
}

/// The instance, the signal and the bit that is driven from an origin.
pub open spec fn target(arena: Seq<InstanceView>, o: Origin) -> (int, SignalRef, int) {
    match o {
        Origin::Leaf(k) => (
            k,
            if arena[k].kind == ChipKind::Nand {
                SignalRef::Port(2)
            } else {
                SignalRef::Port(1)
            },
            0int,
        ),
        Origin::Copy(k, i, j) => {
            let w = arena[k].wirings[i];
            if w.output {
                (k, w.wire.signal, w.wire.start + j)
            } else {
                (arena[k].children[w.child as int] as int, w.port.signal, w.port.start + j)
            }
        },
    }
}

/// What comes from an origin drives the net of its target, which is a bit
/// of a signal of the design.
proof fn lemma_target(arena: Seq<InstanceView>, o: Origin)
    requires
        design_ok(arena),
        valid_origin(arena, o),
    ensures
        bit_of_signal(arena, target(arena, o).0, target(arena, o).1, target(arena, o).2),
        out_of(gate_from(arena, o)) == net_at(
            arena,
            target(arena, o).0,
            target(arena, o).1,
            target(arena, o).2,
        ),
{
    match o {
        Origin::Leaf(k) => {
            assert(primitive_ok(arena[k]));
        },
        Origin::Copy(k, i, j) => {
            assert(placed_ok(arena[k], arena, k));
            assert(wiring_ok(arena[k].wirings[i], arena[k], arena, k));
        },
    }
}

/// Two wirings of an instance that has no conflict do not clash.
proof fn lemma_no_clash(inst: InstanceView, i1: int, i2: int)
    requires
        !conflict(inst),
        0 <= i1 < inst.wirings.len(),
        0 <= i2 < inst.wirings.len(),
        i1 != i2,
    ensures
        !clash(inst.wirings[i1], inst.wirings[i2]),
        !clash(inst.wirings[i2], inst.wirings[i1]),
{
    if i1 < i2 {
        assert(!clash(inst.wirings[i1], inst.wirings[i2]));
    } else {
        assert(!clash(inst.wirings[i2], inst.wirings[i1]));
    }
}

/// The gates of two origins of a sound design drive different bits.
proof fn lemma_targets_differ(arena: Seq<InstanceView>, o1: Origin, o2: Origin)
    requires
        design_ok(arena),
        valid_origin(arena, o1),
        valid_origin(arena, o2),
        o1 != o2,
    ensures
        target(arena, o1) != target(arena, o2),
{
    let t1 = target(arena, o1);
    let t2 = target(arena, o2);
    if t1 == t2 {
        match (o1, o2) {
            (Origin::Leaf(k1), Origin::Leaf(k2)) => {},
            (Origin::Leaf(k1), Origin::Copy(k2, i2, j2)) => {
                lemma_leaf_alone(arena, k1, k2, i2, j2);
            },
            (Origin::Copy(k1, i1, j1), Origin::Leaf(k2)) => {
                lemma_leaf_alone(arena, k2, k1, i1, j1);
            },
            (Origin::Copy(k1, i1, j1), Origin::Copy(k2, i2, j2)) => {
                let w1 = arena[k1].wirings[i1];
                let w2 = arena[k2].wirings[i2];
                assert(placed_ok(arena[k1], arena, k1) && placed_ok(arena[k2], arena, k2));
                assert(wiring_ok(w1, arena[k1], arena, k1));
                assert(wiring_ok(w2, arena[k2], arena, k2));
                if w1.output && w2.output {
                    if i1 != i2 {
                        lemma_no_clash(arena[k1], i1, i2);
                    }
                } else if !w1.output && !w2.output {
                    if k1 < k2 {
                        lemma_one_parent(arena, k1, w1.child as int, k2, w2.child as int);
                    } else if k2 < k1 {
                        lemma_one_parent(arena, k2, w2.child as int, k1, w1.child as int);
                    } else {
                        if w1.child < w2.child {
                            assert(arena[k1].children[w1.child as int] < arena[k1].children[w2.child as int]);
                        } else if w2.child < w1.child {
                            assert(arena[k1].children[w2.child as int] < arena[k1].children[w1.child as int]);
                        }
                        if i1 != i2 {
                            lemma_no_clash(arena[k1], i1, i2);
                        }
                    }
                } else if w1.output {
                    lemma_out_and_in(arena, k1, i1, k2, i2);
                } else {
                    lemma_out_and_in(arena, k2, i2, k1, i1);
                }
            },
        }
    }
}

/// A primitive instance drives another bit than any wiring does.
proof fn lemma_leaf_alone(arena: Seq<InstanceView>, k1: int, k2: int, i2: int, j2: int)
    requires
        design_ok(arena),
        valid_origin(arena, Origin::Leaf(k1)),
        valid_origin(arena, Origin::Copy(k2, i2, j2)),
    ensures
        target(arena, Origin::Leaf(k1)) != target(arena, Origin::Copy(k2, i2, j2)),
{
    let w = arena[k2].wirings[i2];
    assert(primitive_ok(arena[k1]));
    assert(placed_ok(arena[k2], arena, k2));
    assert(wiring_ok(w, arena[k2], arena, k2));
    if w.output {
        // a primitive has no wirings, so the two instances differ
    } else {
        // the wiring drives an input of the part, the primitive its output
        if arena[k2].children[w.child as int] == k1 {
            if arena[k1].kind == ChipKind::Nand {
                assert(nand_ports()[2].direction == PortDirection::Out);
            } else {
                assert(dff_ports()[1].direction == PortDirection::Out);
            }
        }
    }
}

/// A wiring that drives a signal of its instance and a wiring that drives an
/// input of a part drive different bits.
proof fn lemma_out_and_in(arena: Seq<InstanceView>, k1: int, i1: int, k2: int, i2: int)
    requires
        design_ok(arena),
        0 <= k1 < arena.len(),
        0 <= k2 < arena.len(),
        0 <= i1 < arena[k1].wirings.len(),
        0 <= i2 < arena[k2].wirings.len(),
        arena[k1].wirings[i1].output,
        !arena[k2].wirings[i2].output,
    ensures
        arena[k2].children[arena[k2].wirings[i2].child as int] != k1 || arena[k1].wirings[i1].wire.signal
            != arena[k2].wirings[i2].port.signal,
{
    let w1 = arena[k1].wirings[i1];
    let w2 = arena[k2].wirings[i2];
    assert(placed_ok(arena[k1], arena, k1) && placed_ok(arena[k2], arena, k2));
    assert(wiring_ok(w1, arena[k1], arena, k1));
    assert(wiring_ok(w2, arena[k2], arena, k2));
    assert(!conflict(arena[k1]));
    assert(!drives_input(w1, arena[k1].ports));
}

/// The netlist of a sound design has no flaw but, possibly, a loop of
/// gates: where the design has fewer nets and fewer DFFs than the largest
/// machine word counts, every gate of its netlist names nets and cells of
/// the netlist, the cells of its DFFs are in order, no two gates drive the
/// same net, the bits of the ports of its root chip are nets of the netlist,
/// and no gate drives an input of the root chip.
pub proof fn law_sound_design_simulates(arena: Seq<InstanceView>)
    requires
        design_ok(arena),
        arena.len() >= 1,
        net_count(arena) < usize::MAX,
        cell_count(arena) < usize::MAX,
    ensures
        flaw(netlist_of(arena), arena.last().ports) is None || flaw(
            netlist_of(arena),
            arena.last().ports,
        ) == Some(crate::error::ErrorKindView::CombinationalLoop),
{
    let nl = netlist_of(arena);
    let root = arena.len() - 1;
    let ports = arena.last().ports;
    lemma_gates_in_order(arena, 0, Seq::empty());
    assert(ports_fit(nl, ports)) by {
        assert forall|p: int| 0 <= p < ports.len() implies (#[trigger] nl.ports[p])
            + ports[p].width <= nl.nets by {
            lemma_signal_range(arena, root, p);
            lemma_base_within(arena, root, 0, p);
        }
    }
    let from = lemma_gates_traced(arena, 0, Seq::empty(), Seq::empty());
    assert(distinct_outputs(nl.gates)) by {
        assert forall|x: int, y: int| 0 <= x < y < nl.gates.len() implies out_of(
            #[trigger] nl.gates[x],
        ) != out_of(#[trigger] nl.gates[y]) by {
            assert(from[x] != from[y]);
            lemma_target(arena, from[x]);
            lemma_target(arena, from[y]);
            lemma_targets_differ(arena, from[x], from[y]);
            let t1 = target(arena, from[x]);
            let t2 = target(arena, from[y]);
            lemma_nets_differ(arena, t1.0, t1.1, t1.2, t2.0, t2.1, t2.2);
        }
    }
    assert(!input_driven(nl, ports)) by {
        assert forall|p: int, b: int|
            0 <= p < ports.len() && ports[p].direction == PortDirection::In && 0 <= b
                < ports[p].width implies (#[trigger] driver(nl.gates, nl.ports[p] + b)) is None by {
            let net = nl.ports[p] + b;
            assert(placed_ok(arena[root], arena, root));
            lemma_signal_range(arena, root, p);
            lemma_base_within(arena, root, 0, p);
            lemma_base_counts(arena, root, p);
            assert(net == net_at(arena, root, SignalRef::Port(p as usize), b));
            if driver(nl.gates, net) is Some {
                lemma_driver_drives(nl.gates, net, nl.gates.len() as int);
                let g = driver(nl.gates, net)->Some_0;
                let o = from[g];
                lemma_target(arena, o);
                let t = target(arena, o);
                if t != (root, SignalRef::Port(p as usize), b) {
                    lemma_nets_differ(arena, t.0, t.1, t.2, root, SignalRef::Port(p as usize), b);
                }
                lemma_input_free(arena, o, p, b);
                assert(false);
            }
        }
    }
}

/// No gate drives a bit of an input port of the root chip.
proof fn lemma_input_free(arena: Seq<InstanceView>, o: Origin, p: int, b: int)
    requires
        design_ok(arena),
        arena.len() >= 1,
        valid_origin(arena, o),
        0 <= p < arena.last().ports.len(),
        p <= usize::MAX,
        arena.last().ports[p].direction == PortDirection::In,
    ensures
        target(arena, o) != (arena.len() - 1, SignalRef::Port(p as usize), b),
{
    let root = arena.len() - 1;
    match o {
        Origin::Leaf(k) => {
            assert(primitive_ok(arena[k]));
            if k == root {
                if arena[k].kind == ChipKind::Nand {
                    assert(nand_ports()[2].direction == PortDirection::Out);
                } else {
                    assert(dff_ports()[1].direction == PortDirection::Out);
                }
            }
        },
        Origin::Copy(k, i, j) => {
            let w = arena[k].wirings[i];
            assert(placed_ok(arena[k], arena, k));
            assert(wiring_ok(w, arena[k], arena, k));
            if w.output {
                if k == root {
                    assert(!conflict(arena[k]));
                    assert(!drives_input(w, arena[k].ports));
                }
            }
        },
    }
}

} // verus!
