//! The simulator: settles the netlist of a chip for given inputs, and keeps
//! the bits that its DFFs store from one clock tick to the next.

use crate::busmap::{spliced, undriven, undriven_bits, Bit, BusMap};
use crate::chip::{fail, Chip, Port, PortShape};
use crate::error::{ErrorKind, ErrorKindView, ErrorView, N2VError};
use crate::fitting::law_sound_design_simulates;
use crate::netlist::{netlist_of, Gate, Netlist, NetlistView};
use crate::parser::PortDirection;
use crate::settle::{
    distinct_outputs, driver, driver_in, gate_fits, gates_fit, lemma_own_driver,
    lemma_value_settled, out_net, out_of, settle, settled, settled_nets, value,
};
use vstd::prelude::*;
use vstd::string::*;

verus! {

/// The cells of the DFFs come in rising order.
pub open spec fn cells_ascend(gates: Seq<Gate>) -> bool {
    forall|i: int, j: int|
        0 <= i < j < gates.len() ==> match (#[trigger] gates[i], #[trigger] gates[j]) {
            (Gate::Dff { cell: c1, .. }, Gate::Dff { cell: c2, .. }) => c1 < c2,
            _ => true,
        }
}

/// The bits of every port are nets of the netlist.
pub open spec fn ports_fit(nl: NetlistView, ports: Seq<PortShape>) -> bool {
    &&& nl.ports.len() == ports.len()
    &&& forall|p: int| 0 <= p < ports.len() ==> (#[trigger] nl.ports[p]) + ports[p].width <= nl.nets
}

/// A gate drives a bit of an input port.
pub open spec fn input_driven(nl: NetlistView, ports: Seq<PortShape>) -> bool {
    exists|p: int, i: int|
        0 <= p < ports.len() && ports[p].direction == PortDirection::In && 0 <= i
            < ports[p].width && (#[trigger] driver(nl.gates, nl.ports[p] + i)) is Some
}

/// The start in which every net that no gate drives is driven, to 0.
pub open spec fn driven_start(gates: Seq<Gate>, nets: nat) -> Seq<Bit> {
    Seq::new(
        nets,
        |n: int|
            if driver(gates, n) is None {
                Some(false)
            } else {
                None
            },
    )
}

/// The stored bits of a simulator that has not run: all 0.
pub open spec fn zero_cells(cells: nat) -> Seq<bool> {
    Seq::new(cells, |i: int| false)
}

/// The netlist has a loop of gates without a DFF in it: some net stays
/// undriven even when every net that no gate drives is driven.
pub open spec fn has_loop(nl: NetlistView) -> bool {
    exists|n: int|
        0 <= n < nl.nets && (#[trigger] settled(
            nl.gates,
            driven_start(nl.gates, nl.nets as nat),
            zero_cells(nl.cells as nat),
            n,
        )) is None
}

/// What keeps a netlist from being simulated, if anything does: counts that
/// reach the largest machine word, a gate or a port that reaches past the
/// nets, or DFF cells out of order (all of kind `Other`); two gates that
/// drive one net, or a gate that drives an input port (`MultipleDrivers`);
/// a loop of gates without a DFF in it (`CombinationalLoop`).
pub open spec fn flaw(nl: NetlistView, ports: Seq<PortShape>) -> Option<ErrorKindView> {
    if nl.nets == usize::MAX || nl.cells == usize::MAX {
        Some(ErrorKindView::Other)
    } else if !gates_fit(nl.gates, nl.nets as int, nl.cells as int) || !cells_ascend(nl.gates) {
        Some(ErrorKindView::Other)
    } else if !distinct_outputs(nl.gates) {
        Some(ErrorKindView::MultipleDrivers)
    } else if !ports_fit(nl, ports) {
        Some(ErrorKindView::Other)
    } else if input_driven(nl, ports) {
        Some(ErrorKindView::MultipleDrivers)
    } else if has_loop(nl) {
        Some(ErrorKindView::CombinationalLoop)
    } else {
        None
    }
}

/// Says of every net whether a gate drives it.
fn mark_driven(nl: &Netlist) -> (d: Vec<bool>)
    requires
        gates_fit(nl@.gates, nl.nets as int, nl.cells as int),
    ensures
        d@.len() == nl.nets,
        forall|n: int| 0 <= n < nl.nets ==> #[trigger] d@[n] == driver(nl@.gates, n) is Some,
{
    let mut driven: Vec<bool> = Vec::new();
    let mut n: usize = 0;
    while n < nl.nets
        invariant
            n <= nl.nets,
            driven@.len() == n,
            forall|i: int| 0 <= i < n ==> !driven@[i],
        decreases nl.nets - n,
    {
        driven.push(false);
        n = n + 1;
    }
    let mut g: usize = 0;
    while g < nl.gates.len()
        invariant
            g <= nl.gates@.len(),
            gates_fit(nl@.gates, nl.nets as int, nl.cells as int),
            driven@.len() == nl.nets,
            forall|n: int|
                0 <= n < nl.nets ==> #[trigger] driven@[n] == driver_in(nl@.gates, n, g as int) is Some,
        decreases nl.gates@.len() - g,
    {
        let gate = nl.gates[g];
        assert(gate_fits(gate, nl.nets as int, nl.cells as int));
        driven.set(out_net(gate), true);
        g = g + 1;
    }
    driven
}

fn zeros(n: usize) -> (cells: Vec<bool>)
    ensures
        cells@ == zero_cells(n as nat),
{
    let mut cells: Vec<bool> = Vec::new();
    let mut c: usize = 0;
    while c < n
        invariant
            c <= n,
            cells@.len() == c,
            forall|i: int| 0 <= i < c ==> !cells@[i],
        decreases n - c,
    {
        cells.push(false);
        c = c + 1;
    }
    assert(cells@ =~= zero_cells(n as nat));
    cells
}

fn check_loop(nl: &Netlist, driven: &Vec<bool>) -> (r: bool)
    requires
        gates_fit(nl@.gates, nl.nets as int, nl.cells as int),
        distinct_outputs(nl@.gates),
        driven@.len() == nl.nets,
        forall|n: int| 0 <= n < nl.nets ==> #[trigger] driven@[n] == driver(nl@.gates, n) is Some,
    ensures
        r == has_loop(nl@),
{
    let mut start: Vec<Bit> = Vec::new();
    let mut n: usize = 0;
    while n < nl.nets
        invariant
            n <= nl.nets,
            driven@.len() == nl.nets,
            forall|i: int| 0 <= i < nl.nets ==> #[trigger] driven@[i] == driver(nl@.gates, i) is Some,
            start@.len() == n,
            forall|i: int|
                0 <= i < n ==> start@[i] == if driver(nl@.gates, i) is None {
                    Some(false)
                } else {
                    None::<bool>
                },
        decreases nl.nets - n,
    {
        if driven[n] {
            start.push(None);
        } else {
            start.push(Some(false));
        }
        n = n + 1;
    }
    assert(start@ =~= driven_start(nl@.gates, nl.nets as nat));
    let cells = zeros(nl.cells);
    let nets = settle(&nl.gates, &cells, &start);
    let mut i: usize = 0;
    while i < nl.nets
        invariant
            i <= nl.nets,
            nets@.len() == nl.nets,
            start@ == driven_start(nl@.gates, nl.nets as nat),
            cells@ == zero_cells(nl.cells as nat),
            nets@ == settled_nets(nl@.gates, start@, cells@),
            forall|j: int| 0 <= j < i ==> (#[trigger] nets@[j]) is Some,
        decreases nl.nets - i,
    {
        if nets[i].is_none() {
            assert(settled(nl@.gates, start@, cells@, i as int) is None);
            return true;
        }
        i = i + 1;
    }
    assert forall|j: int| 0 <= j < nl.nets implies (#[trigger] settled(
        nl@.gates,
        start@,
        cells@,
        j,
    )) is Some by {
        assert(nets@[j] is Some);
    }
    false
}

/// The bits that a settling starts from, as the ports from the `p`-th on
/// add to `acc`: each input port for which `inputs` has a bus takes its
/// bits, which must be as many as the port is wide; every other net is left
/// as it is.
pub open spec fn spec_start(
    nl: NetlistView,
    ports: Seq<PortShape>,
    inputs: Map<Seq<char>, Seq<Bit>>,
    p: int,
    acc: Seq<Bit>,
) -> Result<Seq<Bit>, ErrorView>
    decreases ports.len() - p,
{
    if p < 0 || p >= ports.len() {
        Ok(acc)
    } else if ports[p].direction == PortDirection::In && inputs.dom().contains(ports[p].name) {
        if inputs[ports[p].name].len() != ports[p].width {
            Err(fail(ErrorKindView::WidthMismatch, ports[p].name))
        } else {
            spec_start(
                nl,
                ports,
                inputs,
                p + 1,
                spliced(
                    acc,
                    nl.ports[p] as int,
                    nl.ports[p] + ports[p].width,
                    inputs[ports[p].name],
                ),
            )
        }
    } else {
        spec_start(nl, ports, inputs, p + 1, acc)
    }
}

/// The buses that a simulation hands out, as the ports from the `p`-th on
/// add to `acc`: for each port, inputs and outputs alike, the bus of its
/// name with the bits of its nets.
pub open spec fn spec_outputs(
    nl: NetlistView,
    ports: Seq<PortShape>,
    nets: Seq<Bit>,
    p: int,
    acc: Map<Seq<char>, Seq<Bit>>,
) -> Map<Seq<char>, Seq<Bit>>
    decreases ports.len() - p,
{
    if p < 0 || p >= ports.len() {
        acc
    } else {
        spec_outputs(
            nl,
            ports,
            nets,
            p + 1,
            acc.insert(
                ports[p].name,
                nets.subrange(nl.ports[p] as int, nl.ports[p] + ports[p].width),
            ),
        )
    }
}

/// What simulating a netlist with the stored bits `cells` on `inputs` gives:
/// the buses of the ports and the settled values of all nets.
pub open spec fn simulation(
    nl: NetlistView,
    ports: Seq<PortShape>,
    cells: Seq<bool>,
    inputs: Map<Seq<char>, Seq<Bit>>,
) -> Result<(Map<Seq<char>, Seq<Bit>>, Seq<Bit>), ErrorView> {
    match spec_start(nl, ports, inputs, 0, undriven(nl.nets as nat)) {
        Err(e) => Err(e),
        Ok(start) => {
            let nets = settled_nets(nl.gates, start, cells);
            Ok((spec_outputs(nl, ports, nets, 0, Map::empty()), nets))
        },
    }
}

/// The stored bits after a clock tick, as the gates from the `k`-th on
/// change `cells`: each DFF whose input is driven stores that bit, and one
/// whose input is undriven keeps what it stored.
pub open spec fn latched(gates: Seq<Gate>, nets: Seq<Bit>, cells: Seq<bool>, k: int) -> Seq<bool>
    decreases gates.len() - k,
{
    if k < 0 || k >= gates.len() {
        cells
    } else {
        match gates[k] {
            Gate::Dff { input, out, cell } => match nets[input as int] {
                Some(v) => latched(gates, nets, cells.update(cell as int, v), k + 1),
                None => latched(gates, nets, cells, k + 1),
            },
            _ => latched(gates, nets, cells, k + 1),
        }
    }
}

fn splice(bits: &mut Vec<Bit>, base: usize, values: &Vec<Bit>)
    requires
        base + values@.len() <= old(bits)@.len(),
    ensures
        final(bits)@ == spliced(old(bits)@, base as int, base + values@.len(), values@),
{
    let _n = bits.len();
    let mut i: usize = 0;
    while i < values.len()
        invariant
            i <= values@.len(),
            bits@.len() <= usize::MAX,
            bits@.len() == old(bits)@.len(),
            base + values@.len() <= bits@.len(),
            forall|n: int| 0 <= n < base ==> bits@[n] == old(bits)@[n],
            forall|n: int| base <= n < base + i ==> bits@[n] == values@[n - base],
            forall|n: int| base + i <= n < bits@.len() ==> bits@[n] == old(bits)@[n],
        decreases values@.len() - i,
    {
        bits.set(base + i, values[i]);
        i = i + 1;
    }
    assert(bits@ =~= spliced(old(bits)@, base as int, base + values@.len(), values@));
}

fn copy_range(bits: &Vec<Bit>, base: usize, width: usize) -> (r: Vec<Bit>)
    requires
        base + width <= bits@.len(),
    ensures
        r@ == bits@.subrange(base as int, base + width),
{
    let mut r: Vec<Bit> = Vec::new();
    let _n = bits.len();
    let mut i: usize = 0;
    while i < width
        invariant
            i <= width,
            bits@.len() <= usize::MAX,
            base + width <= bits@.len(),
            r@ == bits@.subrange(base as int, base + i),
        decreases width - i,
    {
        r.push(bits[base + i]);
        i = i + 1;
        assert(r@ =~= bits@.subrange(base as int, base + i));
    }
    r
}

/// A simulator of one chip.
pub struct Simulator {
    netlist: Netlist,
    ports: Vec<Port>,
    cells: Vec<bool>,
    nets: Vec<Bit>,
}

impl Simulator {
    #[verifier::type_invariant]
    spec fn inv(&self) -> bool {
        &&& flaw(self.netlist@, self.ports.deep_view()) is None
        &&& self.cells@.len() == self.netlist.cells
        &&& self.nets@.len() == self.netlist.nets
    }

    /// The netlist that is simulated.
    pub closed spec fn netlist(&self) -> NetlistView {
        self.netlist@
    }

    /// The ports of the chip.
    pub closed spec fn ports(&self) -> Seq<PortShape> {
        self.ports.deep_view()
    }

    /// The bits that the DFFs store.
    pub closed spec fn cells(&self) -> Seq<bool> {
        self.cells@
    }

    /// The values of all nets after the last simulation.
    pub closed spec fn nets(&self) -> Seq<Bit> {
        self.nets@
    }

    /// A simulator of `chip`, with every DFF storing 0 and every net
    /// undriven. Fails where the netlist of the chip has a flaw: the netlist
    /// of an elaborated chip has none but, possibly, a loop of gates
    /// (`CombinationalLoop`), or as many nets or DFFs as the largest machine
    /// word counts (`Other`).
    pub fn new(chip: Chip) -> (r: Result<Simulator, N2VError>)
        ensures
            chip@.len() >= 1,
            match flaw(netlist_of(chip@), chip@.last().ports) {
                Some(kind) => r is Err && r->Err_0@ == fail(kind, chip@.last().name),
                None => {
                    &&& r is Ok
                    &&& r->Ok_0.netlist() == netlist_of(chip@)
                    &&& r->Ok_0.ports() == chip@.last().ports
                    &&& r->Ok_0.cells() == zero_cells(netlist_of(chip@).cells as nat)
                    &&& r->Ok_0.nets() == undriven(netlist_of(chip@).nets as nat)
                },
            },
            r is Err ==> r->Err_0@.kind is CombinationalLoop || (r->Err_0@.kind is Other && (
            netlist_of(chip@).nets == usize::MAX || netlist_of(chip@).cells == usize::MAX)),
    {
        let netlist = Netlist::new(&chip);
        let _instances = chip.instances();
        let root = chip.root();
        let mut ports: Vec<Port> = Vec::new();
        let mut p: usize = 0;
        while p < root.ports.len()
            invariant
                p <= root.ports@.len(),
                ports.deep_view() == root.ports.deep_view().subrange(0, p as int),
            decreases root.ports@.len() - p,
        {
            let ghost before = ports.deep_view();
            assert(root.ports.deep_view()[p as int] == root.ports@[p as int].deep_view());
            let port = root.ports[p].clone();
            let ghost shape = port.deep_view();
            ports.push(port);
            assert(ports.deep_view() =~= before.push(shape));
            p = p + 1;
            assert(ports.deep_view() =~= root.ports.deep_view().subrange(0, p as int));
        }
        assert(ports.deep_view() =~= root.ports.deep_view());
        if netlist.nets == usize::MAX || netlist.cells == usize::MAX {
            return Err(N2VError { msg: root.name.clone(), kind: ErrorKind::Other });
        }
        proof {
            law_sound_design_simulates(chip@);
        }
        let driven = mark_driven(&netlist);
        if check_loop(&netlist, &driven) {
            return Err(N2VError { msg: root.name.clone(), kind: ErrorKind::CombinationalLoop });
        }
        let cells = zeros(netlist.cells);
        let nets = undriven_bits(netlist.nets);
        Ok(Simulator { netlist, ports, cells, nets })
    }

    /// The ports of the chip.
    pub fn port_list(&self) -> (ports: &Vec<Port>)
        ensures
            ports.deep_view() == self.ports(),
    {
        &self.ports
    }

    /// Settles the chip for `inputs` and hands out the buses of all its
    /// ports. The bits that the DFFs store stay as they are.
    ///
    /// An input port without a bus in `inputs` is undriven. A bus that is
    /// not as wide as its port fails with `WidthMismatch`, and then nothing
    /// changes.
    pub fn simulate(&mut self, inputs: &BusMap) -> (r: Result<BusMap, N2VError>)
        ensures
            final(self).netlist() == old(self).netlist(),
            final(self).ports() == old(self).ports(),
            final(self).cells() == old(self).cells(),
            match simulation(old(self).netlist(), old(self).ports(), old(self).cells(), inputs@) {
                Err(e) => r is Err && r->Err_0@ == e && final(self).nets() == old(self).nets(),
                Ok((buses, nets)) => r is Ok && r->Ok_0@ == buses && final(self).nets() == nets,
            },
    {
        proof {
            use_type_invariant(&*self);
        }
        let ghost nl = self.netlist@;
        let ghost shapes = self.ports.deep_view();
        let mut start = undriven_bits(self.netlist.nets);
        let mut p: usize = 0;
        while p < self.ports.len()
            invariant
                p <= self.ports@.len(),
                nl == self.netlist@,
                shapes == self.ports.deep_view(),
                flaw(nl, shapes) is None,
                start@.len() == nl.nets,
                spec_start(nl, shapes, inputs@, p as int, start@) == spec_start(
                    nl,
                    shapes,
                    inputs@,
                    0,
                    undriven(nl.nets as nat),
                ),
                forall|n: int|
                    0 <= n < start@.len() && (#[trigger] start@[n]) is Some ==> driver(nl.gates, n)
                        is None,
            decreases self.ports@.len() - p,
        {
            let port = &self.ports[p];
            assert(shapes[p as int] == port.deep_view());
            assert(nl.ports[p as int] + shapes[p as int].width <= nl.nets);
            if port.direction == PortDirection::In {
                match inputs.get(port.name.as_str()) {
                    Some(bits) => {
                        if bits.len() != port.width {
                            return Err(
                                N2VError { msg: port.name.clone(), kind: ErrorKind::WidthMismatch },
                            );
                        }
                        let base = self.netlist.ports[p];
                        let ghost before = start@;
                        splice(&mut start, base, bits);
                        assert forall|n: int|
                            0 <= n < start@.len() && (#[trigger] start@[n]) is Some implies driver(
                            nl.gates,
                            n,
                        ) is None by {
                            if base <= n < base + port.width {
                                assert(driver(nl.gates, nl.ports[p as int] + (n - base)) is None);
                            } else {
                                assert(start@[n] == before[n]);
                            }
                        }
                    },
                    None => {},
                }
            }
            p = p + 1;
        }
        let nets = settle(&self.netlist.gates, &self.cells, &start);
        let mut out = BusMap::new();
        let mut q: usize = 0;
        while q < self.ports.len()
            invariant
                q <= self.ports@.len(),
                nl == self.netlist@,
                shapes == self.ports.deep_view(),
                flaw(nl, shapes) is None,
                nets@.len() == nl.nets,
                spec_outputs(nl, shapes, nets@, q as int, out@) == spec_outputs(
                    nl,
                    shapes,
                    nets@,
                    0,
                    Map::empty(),
                ),
            decreases self.ports@.len() - q,
        {
            let port = &self.ports[q];
            assert(shapes[q as int] == port.deep_view());
            assert(nl.ports[q as int] + shapes[q as int].width <= nl.nets);
            let bits = copy_range(&nets, self.netlist.ports[q], port.width);
            out.put(port.name.as_str(), bits);
            q = q + 1;
        }
        self.nets = nets;
        Ok(out)
    }

    /// The step that a test script takes on `tock`: a clock tick, then a
    /// simulation for `inputs`.
    pub fn step(&mut self, inputs: &BusMap) -> (r: Result<BusMap, N2VError>)
        ensures
            final(self).netlist() == old(self).netlist(),
            final(self).ports() == old(self).ports(),
            final(self).cells() == latched(
                old(self).netlist().gates,
                old(self).nets(),
                old(self).cells(),
                0,
            ),
            match simulation(
                old(self).netlist(),
                old(self).ports(),
                latched(old(self).netlist().gates, old(self).nets(), old(self).cells(), 0),
                inputs@,
            ) {
                Err(e) => r is Err && r->Err_0@ == e && final(self).nets() == old(self).nets(),
                Ok((buses, nets)) => r is Ok && r->Ok_0@ == buses && final(self).nets() == nets,
            },
    {
        self.tick();
        self.simulate(inputs)
    }

    /// A clock tick: every DFF whose input is driven stores the bit that
    /// its input had after the last simulation. No net changes; the next
    /// simulation shows the stored bits at the outputs of the DFFs.
    pub fn tick(&mut self)
        ensures
            final(self).netlist() == old(self).netlist(),
            final(self).ports() == old(self).ports(),
            final(self).nets() == old(self).nets(),
            final(self).cells() == latched(
                old(self).netlist().gates,
                old(self).nets(),
                old(self).cells(),
                0,
            ),
    {
        proof {
            use_type_invariant(&*self);
        }
        let mut cells: Vec<bool> = Vec::new();
        let mut c: usize = 0;
        while c < self.cells.len()
            invariant
                c <= self.cells@.len(),
                cells@ == self.cells@.subrange(0, c as int),
            decreases self.cells@.len() - c,
        {
            cells.push(self.cells[c]);
            c = c + 1;
            assert(cells@ =~= self.cells@.subrange(0, c as int));
        }
        assert(cells@ =~= self.cells@);
        let mut g: usize = 0;
        while g < self.netlist.gates.len()
            invariant
                g <= self.netlist.gates@.len(),
                flaw(self.netlist@, self.ports.deep_view()) is None,
                cells@.len() == self.netlist.cells,
                self.nets@.len() == self.netlist.nets,
                latched(self.netlist.gates@, self.nets@, cells@, g as int) == latched(
                    self.netlist.gates@,
                    self.nets@,
                    self.cells@,
                    0,
                ),
            decreases self.netlist.gates@.len() - g,
        {
            let gate = self.netlist.gates[g];
            assert(gate_fits(gate, self.netlist.nets as int, self.netlist.cells as int));
            match gate {
                Gate::Dff { input, out, cell } => match self.nets[input] {
                    Some(v) => {
                        cells.set(cell, v);
                    },
                    None => {},
                },
                _ => {},
            }
            g = g + 1;
        }
        self.cells = cells;
    }
}


/// The netlist has a DFF.
pub open spec fn has_dff(gates: Seq<Gate>) -> bool {
    exists|i: int| 0 <= i < gates.len() && (#[trigger] gates[i]) is Dff
}

/// A clock tick changes nothing in a netlist without DFFs.
pub proof fn law_tick_without_dff(gates: Seq<Gate>, nets: Seq<Bit>, cells: Seq<bool>, k: int)
    requires
        !has_dff(gates),
    ensures
        latched(gates, nets, cells, k) == cells,
    decreases gates.len() - k,
{
    if 0 <= k < gates.len() {
        assert(!(gates[k] is Dff));
        law_tick_without_dff(gates, nets, cells, k + 1);
    }
}

/// For a chip of combinational logic alone, `tock` is `eval`: simulating
/// after a clock tick gives what simulating without the tick gives.
pub proof fn law_tock_is_eval(
    nl: NetlistView,
    ports: Seq<PortShape>,
    cells: Seq<bool>,
    nets: Seq<Bit>,
    inputs: Map<Seq<char>, Seq<Bit>>,
)
    requires
        !has_dff(nl.gates),
    ensures
        simulation(nl, ports, latched(nl.gates, nets, cells, 0), inputs) == simulation(
            nl,
            ports,
            cells,
            inputs,
        ),
{
    law_tick_without_dff(nl.gates, nets, cells, 0);
}

/// The gates from the `k`-th on leave alone a cell that none of them
/// stores into.
proof fn lemma_latched_keeps(gates: Seq<Gate>, nets: Seq<Bit>, cells: Seq<bool>, k: int, c: int)
    requires
        0 <= k,
        0 <= c < cells.len(),
        gates_fit(gates, nets.len() as int, cells.len() as int),
        forall|j: int|
            k <= j < gates.len() ==> match #[trigger] gates[j] {
                Gate::Dff { cell, .. } => cell != c,
                _ => true,
            },
    ensures
        latched(gates, nets, cells, k).len() == cells.len(),
        latched(gates, nets, cells, k)[c] == cells[c],
    decreases gates.len() - k,
{
    if k < gates.len() {
        assert(gate_fits(gates[k], nets.len() as int, cells.len() as int));
        match gates[k] {
            Gate::Dff { input, out, cell } => match nets[input as int] {
                Some(v) => {
                    lemma_latched_keeps(gates, nets, cells.update(cell as int, v), k + 1, c);
                },
                None => {
                    lemma_latched_keeps(gates, nets, cells, k + 1, c);
                },
            },
            _ => {
                lemma_latched_keeps(gates, nets, cells, k + 1, c);
            },
        }
    }
}

/// The DFF at the position `i`, whose input is driven to `v`, holds `v`
/// after the gates from the `k`-th on, `k` at most `i`, have stored.
proof fn lemma_latched_stores(
    gates: Seq<Gate>,
    nets: Seq<Bit>,
    cells: Seq<bool>,
    k: int,
    i: int,
    v: bool,
)
    requires
        cells_ascend(gates),
        gates_fit(gates, nets.len() as int, cells.len() as int),
        0 <= k <= i < gates.len(),
        match gates[i] {
            Gate::Dff { input, cell, .. } => cell < cells.len() && nets[input as int] == Some(v),
            _ => false,
        },
    ensures
        match gates[i] {
            Gate::Dff { cell, .. } => latched(gates, nets, cells, k)[cell as int] == v,
            _ => false,
        },
    decreases i - k,
{
    let c = gates[i]->Dff_cell;
    assert(gate_fits(gates[k], nets.len() as int, cells.len() as int));
    if k < i {
        match gates[k] {
            Gate::Dff { input, out, cell } => match nets[input as int] {
                Some(w) => {
                    lemma_latched_stores(gates, nets, cells.update(cell as int, w), k + 1, i, v);
                },
                None => {
                    lemma_latched_stores(gates, nets, cells, k + 1, i, v);
                },
            },
            _ => {
                lemma_latched_stores(gates, nets, cells, k + 1, i, v);
            },
        }
    } else {
        let stored = cells.update(c as int, v);
        assert forall|j: int| i + 1 <= j < gates.len() implies match #[trigger] gates[j] {
            Gate::Dff { cell, .. } => cell != c,
            _ => true,
        } by {
            assert(match (gates[i], gates[j]) {
                (Gate::Dff { cell: c1, .. }, Gate::Dff { cell: c2, .. }) => c1 < c2,
                _ => true,
            });
        }
        lemma_latched_keeps(gates, nets, stored, i + 1, c as int);
    }
}

/// A clock tick stores the input of every DFF: where the input of a DFF was
/// driven to `v` by the last simulation, its cell holds `v` after the tick.
pub proof fn law_tick_stores_input(
    gates: Seq<Gate>,
    nets: Seq<Bit>,
    cells: Seq<bool>,
    i: int,
    v: bool,
)
    requires
        cells_ascend(gates),
        gates_fit(gates, nets.len() as int, cells.len() as int),
        0 <= i < gates.len(),
        match gates[i] {
            Gate::Dff { input, cell, .. } => nets[input as int] == Some(v),
            _ => false,
        },
    ensures
        match gates[i] {
            Gate::Dff { cell, .. } => latched(gates, nets, cells, 0)[cell as int] == v,
            _ => false,
        },
{
    assert(gate_fits(gates[i], nets.len() as int, cells.len() as int));
    lemma_latched_stores(gates, nets, cells, 0, i, v);
}

/// The output of a DFF settles to the bit that its cell holds, whatever the
/// inputs are. With `law_tick_stores_input`: after `tock`, the output of a
/// DFF is its input as the simulation before the tick left it.
pub proof fn law_dff_shows_cell(gates: Seq<Gate>, start: Seq<Bit>, cells: Seq<bool>, i: int)
    requires
        distinct_outputs(gates),
        0 <= i < gates.len(),
        match gates[i] {
            Gate::Dff { cell, .. } => cell < cells.len(),
            _ => false,
        },
    ensures
        match gates[i] {
            Gate::Dff { out, cell, .. } => settled(gates, start, cells, out as int) == Some(
                cells[cell as int],
            ),
            _ => false,
        },
{
    lemma_own_driver(gates, i, gates.len() as int);
    let out = out_of(gates[i]) as int;
    assert(value(gates, start, cells, out, 1) == Some(cells[gates[i]->Dff_cell as int]));
    lemma_value_settled(gates, start, cells, out, 1);
}

} // verus!
