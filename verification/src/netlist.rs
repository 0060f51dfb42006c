//! The netlist of an elaborated design: every bit of every signal of every
//! instance is a net, a small number, and the design is a list of gates
//! over nets. NAND and DFF instances give one gate each; every bit of every
//! mapping gives a gate that copies a net into another.

use crate::chip::{Chip, ChipKind, Instance, InstanceView, SignalRef, Wiring};
use crate::wellformed::{design_ok, placed_ok, wiring_ok};
use vstd::prelude::*;

verus! {

/// A gate. `Nand` drives `out` with the negated conjunction of `a` and `b`;
/// `Dff` drives `out` with the bit stored in its cell, and stores the bit of
/// `input` on a clock tick; `Copy` drives `to` with the bit of `from`.
#[derive(Clone, Copy, PartialEq, Eq, Hash, Debug, Structural)]
pub enum Gate {
    Nand { a: usize, b: usize, out: usize },
    Dff { input: usize, out: usize, cell: usize },
    Copy { from: usize, to: usize },
}

/// A count as a machine word: held at `usize::MAX` where it would not fit.
pub open spec fn clip(x: int) -> usize {
    if x >= usize::MAX {
        usize::MAX
    } else if x < 0 {
        0
    } else {
        x as usize
    }
}

/// The number of signals of an instance: its ports, then its inner wires.
pub open spec fn signal_count(inst: InstanceView) -> int {
    (inst.ports.len() + inst.wires.len()) as int
}

/// The width of the `n`-th signal of an instance.
pub open spec fn width_at(inst: InstanceView, n: int) -> nat {
    if 0 <= n < inst.ports.len() {
        inst.ports[n].width as nat
    } else if inst.ports.len() <= n < signal_count(inst) {
        inst.wires[n - inst.ports.len()].width as nat
    } else {
        0
    }
}

/// The net of bit 0 of the `n`-th signal of the instance `k`: the number of
/// bits of all signals before it, the signals of earlier instances first.
pub open spec fn signal_base(arena: Seq<InstanceView>, k: int, n: int) -> nat
    decreases k, n,
{
    if n > 0 {
        signal_base(arena, k, n - 1) + width_at(arena[k], n - 1)
    } else if k > 0 {
        signal_base(arena, k - 1, signal_count(arena[k - 1]))
    } else {
        0
    }
}

/// The place of a signal among the signals of its instance.
pub open spec fn signal_index(inst: InstanceView, s: SignalRef) -> int {
    match s {
        SignalRef::Port(i) => i as int,
        SignalRef::Wire(i) => inst.ports.len() + i,
    }
}

/// The net of bit `bit` of the signal `s` of the instance `k`.
pub open spec fn net_at(arena: Seq<InstanceView>, k: int, s: SignalRef, bit: int) -> usize {
    clip(signal_base(arena, k, signal_index(arena[k], s)) + bit)
}

/// The number of DFF instances among the first `k` instances.
pub open spec fn cells_before(arena: Seq<InstanceView>, k: int) -> nat
    decreases k,
{
    if k <= 0 {
        0
    } else if arena[k - 1].kind == ChipKind::Dff {
        cells_before(arena, k - 1) + 1
    } else {
        cells_before(arena, k - 1)
    }
}

/// What a primitive instance turns into: a gate over bit 0 of its first three ports for
/// a NAND, of its first two ports for a DFF.
pub open spec fn leaf_gate(arena: Seq<InstanceView>, k: int) -> Option<Gate> {
    match arena[k].kind {
        ChipKind::Nand => if arena[k].ports.len() >= 3 {
            Some(
                Gate::Nand {
                    a: net_at(arena, k, SignalRef::Port(0), 0),
                    b: net_at(arena, k, SignalRef::Port(1), 0),
                    out: net_at(arena, k, SignalRef::Port(2), 0),
                },
            )
        } else {
            None
        },
        ChipKind::Dff => if arena[k].ports.len() >= 2 {
            Some(
                Gate::Dff {
                    input: net_at(arena, k, SignalRef::Port(0), 0),
                    out: net_at(arena, k, SignalRef::Port(1), 0),
                    cell: clip(cells_before(arena, k) as int),
                },
            )
        } else {
            None
        },
        ChipKind::Composite => None,
    }
}

/// What bit `j` of the wiring `w` of the instance `k` turns into: a copy from the port
/// of the part to the signal where the port is an output, the other way
/// round where it is an input.
pub open spec fn copy_gate(arena: Seq<InstanceView>, k: int, w: Wiring, j: int) -> Gate {
    let child = arena[k].children[w.child as int] as int;
    let port_net = net_at(arena, child, w.port.signal, w.port.start + j);
    let wire_net = net_at(arena, k, w.wire.signal, w.wire.start + j);
    if w.output {
        Gate::Copy { from: port_net, to: wire_net }
    } else {
        Gate::Copy { from: wire_net, to: port_net }
    }
}

/// `acc`, then the gates for the bits of `w` from the `j`-th on.
pub open spec fn spec_copies(
    arena: Seq<InstanceView>,
    k: int,
    w: Wiring,
    j: int,
    acc: Seq<Gate>,
) -> Seq<Gate>
    decreases w.port.width - j,
{
    if j < 0 || j >= w.port.width {
        acc
    } else {
        spec_copies(arena, k, w, j + 1, acc.push(copy_gate(arena, k, w, j)))
    }
}

/// `acc`, then the gates for the wirings of the instance `k` from the `i`-th on.
pub open spec fn spec_wirings(arena: Seq<InstanceView>, k: int, i: int, acc: Seq<Gate>) -> Seq<
    Gate,
>
    decreases arena[k].wirings.len() - i,
{
    if i < 0 || i >= arena[k].wirings.len() {
        acc
    } else {
        spec_wirings(arena, k, i + 1, spec_copies(arena, k, arena[k].wirings[i], 0, acc))
    }
}

/// `acc`, then the gates of the instances from the `k`-th on: for each, its
/// own gate where it is a primitive, then the gates of its wirings.
pub open spec fn spec_gates(arena: Seq<InstanceView>, k: int, acc: Seq<Gate>) -> Seq<Gate>
    decreases arena.len() - k,
{
    if k < 0 || k >= arena.len() {
        acc
    } else {
        let own = match leaf_gate(arena, k) {
            Some(g) => acc.push(g),
            None => acc,
        };
        spec_gates(arena, k + 1, spec_wirings(arena, k, 0, own))
    }
}

/// The nets of bit 0 of the first `count` signals of the instance `k`.
pub open spec fn spec_bases(arena: Seq<InstanceView>, k: int, count: int) -> Seq<usize> {
    Seq::new(count as nat, |n: int| clip(signal_base(arena, k, n) as int))
}

/// A netlist: the number of nets, the number of DFF cells, the gates, and
/// for each port of the root chip the net of its bit 0.
#[derive(Debug)]
pub struct Netlist {
    pub nets: usize,
    pub cells: usize,
    pub gates: Vec<Gate>,
    pub ports: Vec<usize>,
}

/// The mathematical value of a [`Netlist`].
pub struct NetlistView {
    pub nets: usize,
    pub cells: usize,
    pub gates: Seq<Gate>,
    pub ports: Seq<usize>,
}

impl View for Netlist {
    type V = NetlistView;

    open spec fn view(&self) -> NetlistView {
        NetlistView { nets: self.nets, cells: self.cells, gates: self.gates@, ports: self.ports@ }
    }
}

/// The netlist of a design, whose root chip is its last instance.
pub open spec fn netlist_of(arena: Seq<InstanceView>) -> NetlistView {
    NetlistView {
        nets: clip(signal_base(arena, arena.len() as int, 0) as int),
        cells: clip(cells_before(arena, arena.len() as int) as int),
        gates: spec_gates(arena, 0, Seq::empty()),
        ports: spec_bases(arena, arena.len() - 1, arena.last().ports.len() as int),
    }
}

fn sat_add(a: usize, b: usize) -> (r: usize)
    ensures
        r == clip(a + b),
{
    if a <= usize::MAX - b {
        a + b
    } else {
        usize::MAX
    }
}

/// The nets of bit 0 of every port and of every inner wire of every instance.
struct Bases {
    ports: Vec<Vec<usize>>,
    wires: Vec<Vec<usize>>,
    total: usize,
}

impl Bases {
    spec fn matches(&self, arena: Seq<InstanceView>, upto: int) -> bool {
        &&& self.ports@.len() == upto
        &&& self.wires@.len() == upto
        &&& forall|k: int|
            0 <= k < upto ==> (#[trigger] self.ports@[k])@ == spec_bases(
                arena,
                k,
                arena[k].ports.len() as int,
            )
        &&& forall|k: int|
            0 <= k < upto ==> (#[trigger] self.wires@[k])@.len() == arena[k].wires.len()
        &&& forall|k: int, i: int|
            0 <= k < upto && 0 <= i < arena[k].wires.len() ==> (#[trigger] self.wires@[k]@[i])
                == clip(signal_base(arena, k, arena[k].ports.len() + i) as int)
    }
}

fn compute_bases(instances: &Vec<Instance>) -> (b: Bases)
    ensures
        b.matches(instances.deep_view(), instances@.len() as int),
        b.total == clip(signal_base(instances.deep_view(), instances@.len() as int, 0) as int),
{
    let ghost arena = instances.deep_view();
    let mut b = Bases { ports: Vec::new(), wires: Vec::new(), total: 0 };
    let mut k: usize = 0;
    while k < instances.len()
        invariant
            k <= instances@.len(),
            arena == instances.deep_view(),
            b.matches(arena, k as int),
            b.total == clip(signal_base(arena, k as int, 0) as int),
        decreases instances@.len() - k,
    {
        let inst = &instances[k];
        assert(arena[k as int] == inst.deep_view());
        let mut next = b.total;
        let mut prow: Vec<usize> = Vec::new();
        let mut p: usize = 0;
        while p < inst.ports.len()
            invariant
                p <= inst.ports@.len(),
                k < instances@.len(),
                arena == instances.deep_view(),
                arena[k as int] == inst.deep_view(),
                next == clip(signal_base(arena, k as int, p as int) as int),
                prow@ == spec_bases(arena, k as int, p as int),
            decreases inst.ports@.len() - p,
        {
            prow.push(next);
            assert(inst.ports.deep_view()[p as int] == inst.ports@[p as int].deep_view());
            next = sat_add(next, inst.ports[p].width);
            p = p + 1;
            assert(prow@ =~= spec_bases(arena, k as int, p as int));
        }
        let mut wrow: Vec<usize> = Vec::new();
        let mut w: usize = 0;
        while w < inst.wires.len()
            invariant
                w <= inst.wires@.len(),
                k < instances@.len(),
                arena == instances.deep_view(),
                arena[k as int] == inst.deep_view(),
                next == clip(signal_base(arena, k as int, inst.ports@.len() + w) as int),
                wrow@.len() == w,
                forall|i: int|
                    0 <= i < w ==> (#[trigger] wrow@[i]) == clip(
                        signal_base(arena, k as int, inst.ports@.len() + i) as int,
                    ),
            decreases inst.wires@.len() - w,
        {
            wrow.push(next);
            assert(inst.wires.deep_view()[w as int] == inst.wires@[w as int].deep_view());
            next = sat_add(next, inst.wires[w].width);
            w = w + 1;
        }
        let ghost before = b;
        b.ports.push(prow);
        b.wires.push(wrow);
        b.total = next;
        k = k + 1;
        assert(b.matches(arena, k as int)) by {
            assert forall|x: int| 0 <= x < k implies (#[trigger] b.ports@[x])@ == spec_bases(
                arena,
                x,
                arena[x].ports.len() as int,
            ) by {
                if x < k - 1 {
                    assert(b.ports@[x] == before.ports@[x]);
                }
            }
            assert forall|x: int| 0 <= x < k implies (#[trigger] b.wires@[x])@.len()
                == arena[x].wires.len() by {
                if x < k - 1 {
                    assert(b.wires@[x] == before.wires@[x]);
                }
            }
            assert forall|x: int, i: int|
                0 <= x < k && 0 <= i < arena[x].wires.len() implies (#[trigger] b.wires@[x]@[i])
                == clip(signal_base(arena, x, arena[x].ports.len() + i) as int) by {
                if x < k - 1 {
                    assert(b.wires@[x] == before.wires@[x]);
                }
            }
        }
    }
    b
}


fn net_of(
    b: &Bases,
    instances: &Vec<Instance>,
    k: usize,
    s: SignalRef,
    start: usize,
    j: usize,
) -> (r: usize)
    requires
        b.matches(instances.deep_view(), instances@.len() as int),
        k < instances@.len(),
        match s {
            SignalRef::Port(i) => i < instances@[k as int].ports@.len(),
            SignalRef::Wire(i) => i < instances@[k as int].wires@.len(),
        },
    ensures
        r == net_at(instances.deep_view(), k as int, s, start + j),
{
    let ghost arena = instances.deep_view();
    assert(arena[k as int] == instances@[k as int].deep_view());
    let base = match s {
        SignalRef::Port(i) => {
            assert(b.ports@[k as int]@[i as int] == spec_bases(
                arena,
                k as int,
                arena[k as int].ports.len() as int,
            )[i as int]);
            b.ports[k][i]
        },
        SignalRef::Wire(i) => {
            assert(b.wires@[k as int]@[i as int] == clip(
                signal_base(arena, k as int, arena[k as int].ports.len() + i) as int,
            ));
            b.wires[k][i]
        },
    };
    sat_add(base, sat_add(start, j))
}

fn push_copies(b: &Bases, instances: &Vec<Instance>, k: usize, w: Wiring, gates: &mut Vec<Gate>)
    requires
        b.matches(instances.deep_view(), instances@.len() as int),
        k < instances@.len(),
        wiring_ok(w, instances.deep_view()[k as int], instances.deep_view(), k as int),
    ensures
        final(gates)@ == spec_copies(instances.deep_view(), k as int, w, 0, old(gates)@),
{
    let ghost arena = instances.deep_view();
    assert(arena[k as int] == instances@[k as int].deep_view());
    let child = instances[k].children[w.child];
    assert(arena[child as int] == instances@[child as int].deep_view());
    let mut j: usize = 0;
    while j < w.port.width
        invariant
            j <= w.port.width,
            arena == instances.deep_view(),
            b.matches(arena, instances@.len() as int),
            k < instances@.len(),
            child < k,
            child == arena[k as int].children[w.child as int],
            arena[k as int] == instances@[k as int].deep_view(),
            arena[child as int] == instances@[child as int].deep_view(),
            wiring_ok(w, arena[k as int], arena, k as int),
            spec_copies(arena, k as int, w, j as int, gates@) == spec_copies(
                arena,
                k as int,
                w,
                0,
                old(gates)@,
            ),
        decreases w.port.width - j,
    {
        let port_net = net_of(b, instances, child, w.port.signal, w.port.start, j);
        let wire_net = net_of(b, instances, k, w.wire.signal, w.wire.start, j);
        let gate = if w.output {
            Gate::Copy { from: port_net, to: wire_net }
        } else {
            Gate::Copy { from: wire_net, to: port_net }
        };
        gates.push(gate);
        j = j + 1;
    }
}

fn push_wirings(b: &Bases, instances: &Vec<Instance>, k: usize, gates: &mut Vec<Gate>)
    requires
        b.matches(instances.deep_view(), instances@.len() as int),
        k < instances@.len(),
        design_ok(instances.deep_view()),
    ensures
        final(gates)@ == spec_wirings(instances.deep_view(), k as int, 0, old(gates)@),
{
    let ghost arena = instances.deep_view();
    assert(arena[k as int] == instances@[k as int].deep_view());
    let inst = &instances[k];
    let mut i: usize = 0;
    while i < inst.wirings.len()
        invariant
            i <= inst.wirings@.len(),
            arena == instances.deep_view(),
            b.matches(arena, instances@.len() as int),
            k < instances@.len(),
            design_ok(arena),
            arena[k as int] == inst.deep_view(),
            spec_wirings(arena, k as int, i as int, gates@) == spec_wirings(
                arena,
                k as int,
                0,
                old(gates)@,
            ),
        decreases inst.wirings@.len() - i,
    {
        assert(placed_ok(arena[k as int], arena, k as int));
        assert(wiring_ok(arena[k as int].wirings[i as int], arena[k as int], arena, k as int));
        push_copies(b, instances, k, inst.wirings[i], gates);
        i = i + 1;
    }
}

impl Netlist {
    /// The netlist of an elaborated chip.
    pub fn new(chip: &Chip) -> (nl: Netlist)
        ensures
            nl@ == netlist_of(chip@),
    {
        let instances = chip.instances();
        let ghost arena = instances.deep_view();
        let b = compute_bases(instances);
        let mut gates: Vec<Gate> = Vec::new();
        let mut cells: usize = 0;
        let mut k: usize = 0;
        while k < instances.len()
            invariant
                k <= instances@.len(),
                arena == instances.deep_view(),
                design_ok(arena),
                b.matches(arena, instances@.len() as int),
                cells == clip(cells_before(arena, k as int) as int),
                spec_gates(arena, k as int, gates@) == spec_gates(arena, 0, Seq::empty()),
            decreases instances@.len() - k,
        {
            let inst = &instances[k];
            assert(arena[k as int] == inst.deep_view());
            match inst.kind {
                ChipKind::Nand => {
                    if inst.ports.len() >= 3 {
                        let a = net_of(&b, instances, k, SignalRef::Port(0), 0, 0);
                        let bb = net_of(&b, instances, k, SignalRef::Port(1), 0, 0);
                        let out = net_of(&b, instances, k, SignalRef::Port(2), 0, 0);
                        gates.push(Gate::Nand { a, b: bb, out });
                    }
                },
                ChipKind::Dff => {
                    if inst.ports.len() >= 2 {
                        let input = net_of(&b, instances, k, SignalRef::Port(0), 0, 0);
                        let out = net_of(&b, instances, k, SignalRef::Port(1), 0, 0);
                        gates.push(Gate::Dff { input, out, cell: cells });
                    }
                    cells = sat_add(cells, 1);
                },
                ChipKind::Composite => {},
            }
            push_wirings(&b, instances, k, &mut gates);
            k = k + 1;
        }
        let last = instances.len() - 1;
        assert(arena[last as int] == instances@[last as int].deep_view());
        let row = &b.ports[last];
        let mut ports: Vec<usize> = Vec::new();
        let mut p: usize = 0;
        while p < row.len()
            invariant
                p <= row@.len(),
                ports@ == row@.subrange(0, p as int),
            decreases row@.len() - p,
        {
            ports.push(row[p]);
            p = p + 1;
            assert(ports@ =~= row@.subrange(0, p as int));
        }
        assert(ports@ =~= row@);
        assert(arena.last() == arena[last as int]);
        Netlist { nets: b.total, cells, gates, ports }
    }
}

} // verus!
