//! What a netlist computes, and the pass that computes it.
//!
//! The value of a net is defined by its cone of logic alone: the bit it was
//! given at the start where no gate drives it, else what its one driving
//! gate makes of the values of that gate's inputs. No order of evaluation
//! enters the definition. `settle` finds these values by running over the
//! gates until a whole pass changes nothing.

use crate::busmap::Bit;
use crate::netlist::Gate;
use vstd::prelude::*;

verus! {

/// The net that a gate drives.
pub open spec fn out_of(g: Gate) -> usize {
    match g {
        Gate::Nand { a, b, out } => out,
        Gate::Dff { input, out, cell } => out,
        Gate::Copy { from, to } => to,
    }
}

/// The negated conjunction of two bits, undriven unless both are driven.
pub open spec fn nand(a: Bit, b: Bit) -> Bit {
    match (a, b) {
        (Some(x), Some(y)) => Some(!(x && y)),
        _ => None,
    }
}

/// The last of the first `k` gates that drives `net`.
pub open spec fn driver_in(gates: Seq<Gate>, net: int, k: int) -> Option<int>
    decreases k,
{
    if k <= 0 || k > gates.len() {
        None
    } else if out_of(gates[k - 1]) == net {
        Some(k - 1)
    } else {
        driver_in(gates, net, k - 1)
    }
}

/// Which of the gates drives `net`.
pub open spec fn driver(gates: Seq<Gate>, net: int) -> Option<int> {
    driver_in(gates, net, gates.len() as int)
}

/// No two gates drive the same net.
pub open spec fn distinct_outputs(gates: Seq<Gate>) -> bool {
    forall|i: int, j: int|
        0 <= i < j < gates.len() ==> out_of(#[trigger] gates[i]) != out_of(#[trigger] gates[j])
}

/// Every net that a gate reads or drives is one of `nets` nets, and every
/// cell that a DFF stores into is one of `cells` cells.
pub open spec fn gate_fits(g: Gate, nets: int, cells: int) -> bool {
    match g {
        Gate::Nand { a, b, out } => a < nets && b < nets && out < nets,
        Gate::Dff { input, out, cell } => input < nets && out < nets && cell < cells,
        Gate::Copy { from, to } => from < nets && to < nets,
    }
}

/// Every gate fits.
pub open spec fn gates_fit(gates: Seq<Gate>, nets: int, cells: int) -> bool {
    forall|g: int| 0 <= g < gates.len() ==> gate_fits(#[trigger] gates[g], nets, cells)
}

/// The value of `net` as far as `fuel` levels of gates show it: the bit of
/// `start` where no gate drives the net, else what the driving gate makes of
/// its inputs, a DFF handing out the bit of its cell.
pub open spec fn value(gates: Seq<Gate>, start: Seq<Bit>, cells: Seq<bool>, net: int, fuel: nat) -> Bit
    decreases fuel,
{
    if fuel == 0 {
        None
    } else {
        match driver(gates, net) {
            None => if 0 <= net < start.len() {
                start[net]
            } else {
                None
            },
            Some(g) => match gates[g] {
                Gate::Nand { a, b, out } => nand(
                    value(gates, start, cells, a as int, (fuel - 1) as nat),
                    value(gates, start, cells, b as int, (fuel - 1) as nat),
                ),
                Gate::Dff { input, out, cell } => if cell < cells.len() {
                    Some(cells[cell as int])
                } else {
                    None
                },
                Gate::Copy { from, to } => value(gates, start, cells, from as int, (fuel - 1) as nat),
            },
        }
    }
}

/// Some number of levels shows a value of `net`.
pub open spec fn defined(gates: Seq<Gate>, start: Seq<Bit>, cells: Seq<bool>, net: int) -> bool {
    exists|fuel: nat| (#[trigger] value(gates, start, cells, net, fuel)) is Some
}

/// The settled value of `net`: the value that enough levels show, and
/// undriven where no number of levels shows one, as on a loop of gates
/// without a DFF in it.
pub open spec fn settled(gates: Seq<Gate>, start: Seq<Bit>, cells: Seq<bool>, net: int) -> Bit {
    if defined(gates, start, cells, net) {
        value(
            gates,
            start,
            cells,
            net,
            choose|fuel: nat| (#[trigger] value(gates, start, cells, net, fuel)) is Some,
        )
    } else {
        None
    }
}

/// The settled values of all nets.
pub open spec fn settled_nets(gates: Seq<Gate>, start: Seq<Bit>, cells: Seq<bool>) -> Seq<Bit> {
    Seq::new(start.len(), |net: int| settled(gates, start, cells, net))
}

/// A value that some number of levels shows is shown by every larger number.
pub proof fn lemma_value_stays(
    gates: Seq<Gate>,
    start: Seq<Bit>,
    cells: Seq<bool>,
    net: int,
    f1: nat,
    f2: nat,
)
    requires
        f1 <= f2,
        value(gates, start, cells, net, f1) is Some,
    ensures
        value(gates, start, cells, net, f2) == value(gates, start, cells, net, f1),
    decreases f1,
{
    if f1 > 0 {
        match driver(gates, net) {
            None => {},
            Some(g) => match gates[g] {
                Gate::Nand { a, b, out } => {
                    lemma_value_stays(gates, start, cells, a as int, (f1 - 1) as nat, (f2 - 1) as nat);
                    lemma_value_stays(gates, start, cells, b as int, (f1 - 1) as nat, (f2 - 1) as nat);
                },
                Gate::Dff { input, out, cell } => {},
                Gate::Copy { from, to } => {
                    lemma_value_stays(
                        gates,
                        start,
                        cells,
                        from as int,
                        (f1 - 1) as nat,
                        (f2 - 1) as nat,
                    );
                },
            },
        }
    }
}

/// Any two numbers of levels that show a value of a net show the same value:
/// the settled value.
pub proof fn lemma_value_settled(
    gates: Seq<Gate>,
    start: Seq<Bit>,
    cells: Seq<bool>,
    net: int,
    fuel: nat,
)
    requires
        value(gates, start, cells, net, fuel) is Some,
    ensures
        settled(gates, start, cells, net) == value(gates, start, cells, net, fuel),
{
    let chosen = choose|f: nat| (#[trigger] value(gates, start, cells, net, f)) is Some;
    if chosen <= fuel {
        lemma_value_stays(gates, start, cells, net, chosen, fuel);
    } else {
        lemma_value_stays(gates, start, cells, net, fuel, chosen);
    }
}

/// The driver of a net is a gate that drives it.
pub proof fn lemma_driver_drives(gates: Seq<Gate>, net: int, k: int)
    requires
        driver_in(gates, net, k) is Some,
    ensures
        0 <= driver_in(gates, net, k)->Some_0 < k <= gates.len(),
        out_of(gates[driver_in(gates, net, k)->Some_0]) == net,
    decreases k,
{
    if k > 0 && k <= gates.len() && out_of(gates[k - 1]) != net {
        lemma_driver_drives(gates, net, k - 1);
    }
}

/// A net without a driver among the first `k` gates is driven by none of them.
pub proof fn lemma_no_driver(gates: Seq<Gate>, net: int, k: int)
    requires
        0 <= k <= gates.len(),
        driver_in(gates, net, k) is None,
    ensures
        forall|i: int| 0 <= i < k ==> out_of(#[trigger] gates[i]) != net,
    decreases k,
{
    if k > 0 {
        lemma_no_driver(gates, net, k - 1);
    }
}

/// Where no two gates drive the same net, a gate is the driver of its net.
pub proof fn lemma_own_driver(gates: Seq<Gate>, g: int, k: int)
    requires
        distinct_outputs(gates),
        0 <= g < k <= gates.len(),
    ensures
        driver_in(gates, out_of(gates[g]) as int, k) == Some(g),
    decreases k,
{
    if g < k - 1 {
        assert(out_of(gates[g]) != out_of(gates[k - 1]));
        lemma_own_driver(gates, g, k - 1);
    }
}

/// What a gate makes of the values `nets`.
pub open spec fn fire(g: Gate, nets: Seq<Bit>, cells: Seq<bool>) -> Bit {
    match g {
        Gate::Nand { a, b, out } => nand(nets[a as int], nets[b as int]),
        Gate::Dff { input, out, cell } => Some(cells[cell as int]),
        Gate::Copy { from, to } => nets[from as int],
    }
}

/// A gate at rest has nothing to add to `nets`: its net is driven, or its inputs
/// are not.
pub open spec fn at_rest(g: Gate, nets: Seq<Bit>, cells: Seq<bool>) -> bool {
    nets[out_of(g) as int] is Some || fire(g, nets, cells) is None
}

/// The bit `b` of `net` is justified: it is undriven, or some number of
/// levels shows it.
pub open spec fn justified(gates: Seq<Gate>, start: Seq<Bit>, cells: Seq<bool>, net: int, b: Bit) -> bool {
    b is Some ==> exists|fuel: nat| #[trigger] value(gates, start, cells, net, fuel) == b
}

/// Every bit of `nets` is justified, and a net without a driver holds the bit
/// that it was given.
pub open spec fn sound(gates: Seq<Gate>, start: Seq<Bit>, cells: Seq<bool>, nets: Seq<Bit>) -> bool {
    &&& nets.len() == start.len()
    &&& forall|n: int|
        0 <= n < nets.len() ==> justified(gates, start, cells, n, #[trigger] nets[n])
    &&& forall|n: int|
        0 <= n < nets.len() && driver(gates, n) is None ==> (#[trigger] nets[n]) == start[n]
}

/// The netlist and the start of a pass go together: the gates fit, no two
/// drive the same net, and no net that was given a bit has a driver.
pub open spec fn ready(gates: Seq<Gate>, start: Seq<Bit>, cells: Seq<bool>) -> bool {
    &&& gates_fit(gates, start.len() as int, cells.len() as int)
    &&& distinct_outputs(gates)
    &&& forall|n: int|
        0 <= n < start.len() && (#[trigger] start[n]) is Some ==> driver(gates, n) is None
}

/// The start is sound.
pub proof fn lemma_start_sound(gates: Seq<Gate>, start: Seq<Bit>, cells: Seq<bool>)
    requires
        ready(gates, start, cells),
    ensures
        sound(gates, start, cells, start),
{
    assert forall|n: int| 0 <= n < start.len() implies justified(
        gates,
        start,
        cells,
        n,
        #[trigger] start[n],
    ) by {
        if start[n] is Some {
            assert(value(gates, start, cells, n, 1) == start[n]);
        }
    }
}

/// Letting a gate whose net is undriven add its bit keeps the values sound.
pub proof fn lemma_fire_sound(
    gates: Seq<Gate>,
    start: Seq<Bit>,
    cells: Seq<bool>,
    nets: Seq<Bit>,
    g: int,
)
    requires
        ready(gates, start, cells),
        sound(gates, start, cells, nets),
        0 <= g < gates.len(),
        fire(gates[g], nets, cells) is Some,
    ensures
        sound(
            gates,
            start,
            cells,
            nets.update(out_of(gates[g]) as int, fire(gates[g], nets, cells)),
        ),
{
    let out = out_of(gates[g]) as int;
    let bit = fire(gates[g], nets, cells);
    let after = nets.update(out, bit);
    assert(gate_fits(gates[g], start.len() as int, cells.len() as int));
    lemma_own_driver(gates, g, gates.len() as int);
    assert(driver(gates, out) == Some(g));
    match gates[g] {
        Gate::Nand { a, b, out: _ } => {
            assert(justified(gates, start, cells, a as int, nets[a as int]));
            assert(justified(gates, start, cells, b as int, nets[b as int]));
            let fa = choose|f: nat| #[trigger] value(gates, start, cells, a as int, f) == nets[a as int];
            let fb = choose|f: nat| #[trigger] value(gates, start, cells, b as int, f) == nets[b as int];
            let f = if fa >= fb {
                fa
            } else {
                fb
            };
            lemma_value_stays(gates, start, cells, a as int, fa, f);
            lemma_value_stays(gates, start, cells, b as int, fb, f);
            assert(value(gates, start, cells, out, f + 1) == bit);
        },
        Gate::Dff { input, out: _, cell } => {
            assert(value(gates, start, cells, out, 1) == bit);
        },
        Gate::Copy { from, to } => {
            assert(justified(gates, start, cells, from as int, nets[from as int]));
            let f = choose|f: nat| #[trigger] value(gates, start, cells, from as int, f) == nets[from as int];
            assert(value(gates, start, cells, out, f + 1) == bit);
        },
    }
    assert forall|n: int| 0 <= n < after.len() implies justified(
        gates,
        start,
        cells,
        n,
        #[trigger] after[n],
    ) by {
        if n != out {
            assert(justified(gates, start, cells, n, nets[n]));
        }
    }
    assert forall|n: int| 0 <= n < after.len() && driver(gates, n) is None implies (
    #[trigger] after[n]) == start[n] by {
        assert(nets[n] == start[n]);
    }
}

/// Where every gate is at rest, the values hold all that any number of
/// levels shows.
pub proof fn lemma_rest_complete(
    gates: Seq<Gate>,
    start: Seq<Bit>,
    cells: Seq<bool>,
    nets: Seq<Bit>,
    net: int,
    fuel: nat,
)
    requires
        ready(gates, start, cells),
        sound(gates, start, cells, nets),
        forall|g: int| 0 <= g < gates.len() ==> at_rest(#[trigger] gates[g], nets, cells),
        value(gates, start, cells, net, fuel) is Some,
    ensures
        0 <= net < nets.len(),
        nets[net] == value(gates, start, cells, net, fuel),
    decreases fuel,
{
    if fuel > 0 {
        match driver(gates, net) {
            None => {
                assert(nets[net] == start[net]);
            },
            Some(g) => {
                lemma_driver_drives(gates, net, gates.len() as int);
                assert(gate_fits(gates[g], start.len() as int, cells.len() as int));
                assert(at_rest(gates[g], nets, cells));
                match gates[g] {
                    Gate::Nand { a, b, out } => {
                        lemma_rest_complete(gates, start, cells, nets, a as int, (fuel - 1) as nat);
                        lemma_rest_complete(gates, start, cells, nets, b as int, (fuel - 1) as nat);
                    },
                    Gate::Dff { input, out, cell } => {},
                    Gate::Copy { from, to } => {
                        lemma_rest_complete(
                            gates,
                            start,
                            cells,
                            nets,
                            from as int,
                            (fuel - 1) as nat,
                        );
                    },
                }
                assert(nets[net] is Some);
                assert(justified(gates, start, cells, net, nets[net]));
                let f = choose|f: nat| #[trigger] value(gates, start, cells, net, f) == nets[net];
                lemma_value_settled(gates, start, cells, net, f);
                lemma_value_settled(gates, start, cells, net, fuel);
            },
        }
    }
}

/// Sound values with every gate at rest are the settled values.
pub proof fn lemma_rest_settled(gates: Seq<Gate>, start: Seq<Bit>, cells: Seq<bool>, nets: Seq<Bit>)
    requires
        ready(gates, start, cells),
        sound(gates, start, cells, nets),
        forall|g: int| 0 <= g < gates.len() ==> at_rest(#[trigger] gates[g], nets, cells),
    ensures
        nets == settled_nets(gates, start, cells),
{
    assert forall|n: int| 0 <= n < nets.len() implies nets[n] == settled(gates, start, cells, n) by {
        if defined(gates, start, cells, n) {
            let f = choose|f: nat| (#[trigger] value(gates, start, cells, n, f)) is Some;
            lemma_rest_complete(gates, start, cells, nets, n, f);
        } else {
            assert(justified(gates, start, cells, n, nets[n]));
        }
    }
    assert(nets =~= settled_nets(gates, start, cells));
}

/// The number of driven bits.
pub open spec fn driven_count(nets: Seq<Bit>) -> nat
    decreases nets.len(),
{
    if nets.len() == 0 {
        0
    } else {
        driven_count(nets.drop_last()) + if nets.last() is Some {
            1nat
        } else {
            0nat
        }
    }
}

/// No more bits are driven than there are.
pub proof fn lemma_count_bound(nets: Seq<Bit>)
    ensures
        driven_count(nets) <= nets.len(),
    decreases nets.len(),
{
    if nets.len() > 0 {
        lemma_count_bound(nets.drop_last());
    }
}

/// Driving an undriven bit makes one more driven bit.
pub proof fn lemma_count_grows(nets: Seq<Bit>, i: int, b: bool)
    requires
        0 <= i < nets.len(),
        nets[i] is None,
    ensures
        driven_count(nets.update(i, Some(b))) == driven_count(nets) + 1,
    decreases nets.len(),
{
    let after = nets.update(i, Some(b));
    if i == nets.len() - 1 {
        assert(after.drop_last() =~= nets.drop_last());
    } else {
        lemma_count_grows(nets.drop_last(), i, b);
        assert(after.drop_last() =~= nets.drop_last().update(i, Some(b)));
    }
}

fn fire_gate(g: Gate, nets: &Vec<Bit>, cells: &Vec<bool>) -> (bit: Bit)
    requires
        gate_fits(g, nets@.len() as int, cells@.len() as int),
    ensures
        bit == fire(g, nets@, cells@),
{
    match g {
        Gate::Nand { a, b, out } => match (nets[a], nets[b]) {
            (Some(x), Some(y)) => Some(!(x && y)),
            _ => None,
        },
        Gate::Dff { input, out, cell } => Some(cells[cell]),
        Gate::Copy { from, to } => nets[from],
    }
}

/// The net that a gate drives.
pub fn out_net(g: Gate) -> (out: usize)
    ensures
        out == out_of(g),
{
    match g {
        Gate::Nand { a, b, out } => out,
        Gate::Dff { input, out, cell } => out,
        Gate::Copy { from, to } => to,
    }
}

/// A driven bit of `before` is the same bit in `after`.
pub open spec fn keeps(before: Seq<Bit>, after: Seq<Bit>) -> bool {
    &&& after.len() == before.len()
    &&& forall|n: int| 0 <= n < before.len() && (#[trigger] before[n]) is Some ==> after[n] == before[n]
}

/// The values after the gates from the `k`-th on, in their order, have had
/// their turn in a pass: a gate whose net is undriven and whose inputs are
/// driven drives its net, and the gates behind it see that bit.
pub open spec fn after_pass(gates: Seq<Gate>, cells: Seq<bool>, nets: Seq<Bit>, k: int) -> Seq<Bit>
    decreases gates.len() - k,
{
    if k < 0 || k >= gates.len() {
        nets
    } else if nets[out_of(gates[k]) as int] is None && fire(gates[k], nets, cells) is Some {
        after_pass(
            gates,
            cells,
            nets.update(out_of(gates[k]) as int, fire(gates[k], nets, cells)),
            k + 1,
        )
    } else {
        after_pass(gates, cells, nets, k + 1)
    }
}

/// One pass over the gates, in their order: every gate whose net is undriven
/// and whose inputs are driven drives its net. Says whether any did.
///
/// A pass never changes a driven bit: within a settling, a net goes from
/// undriven to a definite bit at most once.
pub fn pass(gates: &Vec<Gate>, cells: &Vec<bool>, start: &Vec<Bit>, nets: &mut Vec<Bit>) -> (changed:
    bool)
    requires
        ready(gates@, start@, cells@),
        sound(gates@, start@, cells@, old(nets)@),
    ensures
        final(nets)@ == after_pass(gates@, cells@, old(nets)@, 0),
        changed == (final(nets)@ != old(nets)@),
        sound(gates@, start@, cells@, final(nets)@),
        keeps(old(nets)@, final(nets)@),
        !changed ==> final(nets)@ == old(nets)@ && forall|g: int|
            0 <= g < gates@.len() ==> at_rest(#[trigger] gates@[g], final(nets)@, cells@),
        changed ==> driven_count(final(nets)@) > driven_count(old(nets)@),
{
    let mut changed = false;
    let mut g: usize = 0;
    while g < gates.len()
        invariant
            g <= gates@.len(),
            ready(gates@, start@, cells@),
            sound(gates@, start@, cells@, nets@),
            keeps(old(nets)@, nets@),
            after_pass(gates@, cells@, nets@, g as int) == after_pass(gates@, cells@, old(nets)@, 0),
            driven_count(nets@) >= driven_count(old(nets)@),
            !changed ==> nets@ == old(nets)@,
            !changed ==> forall|i: int| 0 <= i < g ==> at_rest(#[trigger] gates@[i], nets@, cells@),
            changed ==> driven_count(nets@) > driven_count(old(nets)@),
        decreases gates@.len() - g,
    {
        let gate = gates[g];
        assert(gate_fits(gate, start@.len() as int, cells@.len() as int));
        let out = out_net(gate);
        if nets[out].is_none() {
            match fire_gate(gate, nets, cells) {
                Some(b) => {
                    proof {
                        lemma_fire_sound(gates@, start@, cells@, nets@, g as int);
                        lemma_count_grows(nets@, out as int, b);
                    }
                    nets.set(out, Some(b));
                    changed = true;
                },
                None => {},
            }
        }
        g = g + 1;
    }
    changed
}

/// Settles a netlist: starting from the bits `start`, runs passes until one
/// changes nothing. Each pass but the last drives at least one more net, so
/// there are no more passes than nets plus one.
///
/// The result is the settled value of every net, which no order of
/// evaluation enters: any order of the gates gives these same values.
pub fn settle(gates: &Vec<Gate>, cells: &Vec<bool>, start: &Vec<Bit>) -> (nets: Vec<Bit>)
    requires
        ready(gates@, start@, cells@),
    ensures
        nets@ == settled_nets(gates@, start@, cells@),
        keeps(start@, nets@),
{
    let mut nets = crate::busmap::copy_bits(start);
    proof {
        lemma_start_sound(gates@, start@, cells@);
    }
    loop
        invariant
            ready(gates@, start@, cells@),
            sound(gates@, start@, cells@, nets@),
            keeps(start@, nets@),
        ensures
            forall|g: int| 0 <= g < gates@.len() ==> at_rest(#[trigger] gates@[g], nets@, cells@),
        decreases nets@.len() - driven_count(nets@),
    {
        proof {
            lemma_count_bound(nets@);
        }
        let changed = pass(gates, cells, start, &mut nets);
        proof {
            lemma_count_bound(nets@);
        }
        if !changed {
            break ;
        }
    }
    proof {
        lemma_rest_settled(gates@, start@, cells@, nets@);
    }
    nets
}


/// Two lists hold the same gates, in whatever order.
pub open spec fn same_gates(g1: Seq<Gate>, g2: Seq<Gate>) -> bool {
    &&& forall|i: int| 0 <= i < g1.len() ==> g2.contains(#[trigger] g1[i])
    &&& forall|j: int| 0 <= j < g2.len() ==> g1.contains(#[trigger] g2[j])
}

/// In two lists of the same gates, a net has the same driving gate.
proof fn lemma_same_driver(g1: Seq<Gate>, g2: Seq<Gate>, net: int)
    requires
        distinct_outputs(g1),
        distinct_outputs(g2),
        same_gates(g1, g2),
    ensures
        driver(g1, net) is Some <==> driver(g2, net) is Some,
        driver(g1, net) is Some ==> g1[driver(g1, net)->Some_0] == g2[driver(g2, net)->Some_0],
{
    if driver(g1, net) is Some {
        lemma_driver_drives(g1, net, g1.len() as int);
        let i = driver(g1, net)->Some_0;
        assert(g2.contains(g1[i]));
        let j = choose|j: int| 0 <= j < g2.len() && g2[j] == g1[i];
        lemma_own_driver(g2, j, g2.len() as int);
    }
    if driver(g2, net) is Some {
        lemma_driver_drives(g2, net, g2.len() as int);
        let j = driver(g2, net)->Some_0;
        assert(g1.contains(g2[j]));
        let i = choose|i: int| 0 <= i < g1.len() && g1[i] == g2[j];
        lemma_own_driver(g1, i, g1.len() as int);
    }
}

/// In two lists of the same gates, every number of levels shows the same
/// value of a net.
proof fn lemma_same_value(
    g1: Seq<Gate>,
    g2: Seq<Gate>,
    start: Seq<Bit>,
    cells: Seq<bool>,
    net: int,
    fuel: nat,
)
    requires
        distinct_outputs(g1),
        distinct_outputs(g2),
        same_gates(g1, g2),
    ensures
        value(g1, start, cells, net, fuel) == value(g2, start, cells, net, fuel),
    decreases fuel,
{
    if fuel > 0 {
        lemma_same_driver(g1, g2, net);
        match driver(g1, net) {
            None => {},
            Some(g) => match g1[g] {
                Gate::Nand { a, b, out } => {
                    lemma_same_value(g1, g2, start, cells, a as int, (fuel - 1) as nat);
                    lemma_same_value(g1, g2, start, cells, b as int, (fuel - 1) as nat);
                },
                Gate::Dff { input, out, cell } => {},
                Gate::Copy { from, to } => {
                    lemma_same_value(g1, g2, start, cells, from as int, (fuel - 1) as nat);
                },
            },
        }
    }
}

/// Settling does not depend on the order of evaluation: two lists of the
/// same gates, in whatever order, in which no net has two drivers, settle to
/// the same value of every net from the same start and the same stored
/// bits. A pass takes the gates in the order of their list, so this holds
/// of every order in which a pass may take them.
pub proof fn law_settled_whatever_the_order(
    g1: Seq<Gate>,
    g2: Seq<Gate>,
    start: Seq<Bit>,
    cells: Seq<bool>,
)
    requires
        distinct_outputs(g1),
        distinct_outputs(g2),
        same_gates(g1, g2),
    ensures
        settled_nets(g1, start, cells) == settled_nets(g2, start, cells),
{
    assert forall|net: int| 0 <= net < start.len() implies settled(g1, start, cells, net)
        == settled(g2, start, cells, net) by {
        if defined(g1, start, cells, net) {
            let f = choose|f: nat| (#[trigger] value(g1, start, cells, net, f)) is Some;
            lemma_same_value(g1, g2, start, cells, net, f);
            lemma_value_settled(g1, start, cells, net, f);
            lemma_value_settled(g2, start, cells, net, f);
        } else if defined(g2, start, cells, net) {
            let f = choose|f: nat| (#[trigger] value(g2, start, cells, net, f)) is Some;
            lemma_same_value(g1, g2, start, cells, net, f);
            assert(false);
        }
    }
    assert(settled_nets(g1, start, cells) =~= settled_nets(g2, start, cells));
}

/// A net that was given a bit at the start settles to that bit.
pub proof fn law_given_bits_stay(gates: Seq<Gate>, start: Seq<Bit>, cells: Seq<bool>, net: int)
    requires
        ready(gates, start, cells),
        0 <= net < start.len(),
        start[net] is Some,
    ensures
        settled(gates, start, cells, net) == start[net],
{
    assert(value(gates, start, cells, net, 1) == start[net]);
    lemma_value_settled(gates, start, cells, net, 1);
}

} // verus!
