//! Elaboration: from parse trees and generic bindings to a concrete chip,
//! with every width a number, every loop unrolled and every part resolved
//! down to the primitive chips NAND and DFF.

use crate::error::{ErrorKind, ErrorKindView, ErrorView, N2VError};
use crate::expr::{eval, evaluate, Env, EvalError, EvalErrorView, GenericWidth, WidthView};
use crate::parser::{
    dff_chip, dff_hdl, is_dff, is_dff_name, is_nand, is_nand_name, nand_chip, nand_hdl, BusHDL,
    BusView, ChipHDL, ChipView, Component, ComponentView, GenericPort, Identifier,
    IdentifierView, Loop, LoopView, MappingView, Part, PartView, PortDirection, PortMapping,
    PortView,
};
use crate::wellformed::{
    bit_port, design_ok, dff_ports, extends, lemma_design_push, lemma_extends_trans,
    lemma_grown_ok, lemma_wired_ok, lemma_with_child_ok, lemma_with_wire_ok, nand_ports,
    placed_ok, ports_ok, primitive_ok, tiled, wiring_ok,
};
use vstd::prelude::*;
use vstd::string::*;

verus! {

/// The two primitive chips, and every chip that is made of parts.
#[derive(Clone, Copy, PartialEq, Eq, Hash, Debug, Structural)]
pub enum ChipKind {
    Nand,
    Dff,
    Composite,
}

/// A port of an elaborated chip: its width is a number.
#[derive(Debug, PartialEq, Eq)]
pub struct Port {
    pub name: String,
    pub width: usize,
    pub direction: PortDirection,
}

/// The mathematical value of a [`Port`].
pub struct PortShape {
    pub name: Seq<char>,
    pub width: usize,
    pub direction: PortDirection,
}

impl DeepView for Port {
    type V = PortShape;

    open spec fn deep_view(&self) -> PortShape {
        PortShape { name: self.name@, width: self.width, direction: self.direction }
    }
}

impl Clone for Port {
    fn clone(&self) -> (p: Port)
        ensures
            p.deep_view() == self.deep_view(),
    {
        Port { name: self.name.clone(), width: self.width, direction: self.direction }
    }
}

/// A wire inside a chip that is no port of it. A mapping that gives it no
/// bounds fixes its width to the width of the port slice; until then it is
/// as wide as the mappings that mention its bits reach.
#[derive(Debug, PartialEq, Eq)]
pub struct Wire {
    pub name: String,
    pub width: usize,
    pub fixed: bool,
}

/// The mathematical value of a [`Wire`].
pub struct WireShape {
    pub name: Seq<char>,
    pub width: usize,
    pub fixed: bool,
}

impl DeepView for Wire {
    type V = WireShape;

    open spec fn deep_view(&self) -> WireShape {
        WireShape { name: self.name@, width: self.width, fixed: self.fixed }
    }
}

/// A signal of a chip: one of its ports or one of its inner wires, by position.
#[derive(Clone, Copy, PartialEq, Eq, Hash, Debug, Structural)]
pub enum SignalRef {
    Port(usize),
    Wire(usize),
}

/// `width` bits of a signal, from bit `start` on.
#[derive(Clone, Copy, PartialEq, Eq, Hash, Debug, Structural)]
pub struct Slice {
    pub signal: SignalRef,
    pub start: usize,
    pub width: usize,
}

/// A mapping with numbers for its bounds: a slice of a port of the part
/// `child` (counted among the parts of the enclosing chip) is bound to a
/// slice of a signal of the enclosing chip. `output` says that the port is
/// an output of the part, so that the part drives the signal.
#[derive(Clone, Copy, PartialEq, Eq, Hash, Debug, Structural)]
pub struct Wiring {
    pub child: usize,
    pub port: Slice,
    pub wire: Slice,
    pub output: bool,
}

/// One chip instance of an elaborated design. `children` holds, for each
/// part in order, the position of its instance in the design. `first` is
/// the position of the first instance that belongs to this one: its parts,
/// with all that is inside them, stand from `first` on, and it stands behind
/// them.
#[derive(Debug)]
pub struct Instance {
    pub name: String,
    pub kind: ChipKind,
    pub first: usize,
    pub ports: Vec<Port>,
    pub wires: Vec<Wire>,
    pub children: Vec<usize>,
    pub wirings: Vec<Wiring>,
}

/// The mathematical value of an [`Instance`].
pub struct InstanceView {
    pub name: Seq<char>,
    pub kind: ChipKind,
    pub first: usize,
    pub ports: Seq<PortShape>,
    pub wires: Seq<WireShape>,
    pub children: Seq<usize>,
    pub wirings: Seq<Wiring>,
}

impl DeepView for Instance {
    type V = InstanceView;

    open spec fn deep_view(&self) -> InstanceView {
        InstanceView {
            name: self.name@,
            kind: self.kind,
            first: self.first,
            ports: self.ports.deep_view(),
            wires: self.wires.deep_view(),
            children: self.children@,
            wirings: self.wirings@,
        }
    }
}

impl InstanceView {
    /// This instance with the wiring `w` added.
    pub open spec fn wired(self, w: Wiring) -> InstanceView {
        InstanceView { wirings: self.wirings.push(w), ..self }
    }

    /// This instance with its inner wire `i` made `width` bits wide.
    pub open spec fn grown(self, i: int, width: usize, fixed: bool) -> InstanceView {
        InstanceView {
            wires: self.wires.update(i, WireShape { name: self.wires[i].name, width, fixed }),
            ..self
        }
    }

    /// This instance with one more inner wire.
    pub open spec fn with_wire(self, name: Seq<char>, width: usize, fixed: bool) -> InstanceView {
        InstanceView { wires: self.wires.push(WireShape { name, width, fixed }), ..self }
    }

    /// This instance with one more part, which is the instance at `index`.
    pub open spec fn with_child(self, index: usize) -> InstanceView {
        InstanceView { children: self.children.push(index), ..self }
    }
}

/// The error of kind `kind` about the thing called `msg`.
pub open spec fn fail(kind: ErrorKindView, msg: Seq<char>) -> ErrorView {
    ErrorView { msg, kind }
}

/// The result `r` is the outcome `want`.
pub open spec fn same<T>(r: Result<T, N2VError>, want: Result<T, ErrorView>) -> bool {
    match want {
        Ok(v) => r is Ok && r->Ok_0 == v,
        Err(e) => r is Err && r->Err_0@ == e,
    }
}

/// The kinds of error that widths and mappings give.
pub open spec fn wiring_kind(k: ErrorKindView) -> bool {
    k is UnboundGeneric || k is InvalidWidth || k is WidthMismatch || k is UnknownPort
}

/// The kinds of error that elaboration gives.
pub open spec fn elaboration_kind(k: ErrorKindView) -> bool {
    wiring_kind(k) || k is UnknownChip || k is Recursion || k is GenericArityError
        || k is MultipleDrivers
}

/// The error is one that elaboration gives, and where it says that a chip is
/// unknown, it names a chip that the library does not have.
pub open spec fn explained(lib: Seq<ChipView>, e: ErrorView) -> bool {
    elaboration_kind(e.kind) && (e.kind is UnknownChip ==> find_chip(lib, e.msg) is None)
}

/// The value of the expression `w` inside the thing called `what`: an
/// unbound variable is reported by its name, a failed subtraction or
/// addition as an invalid width of `what`.
pub open spec fn eval_in(w: WidthView, env: Seq<(Seq<char>, usize)>, what: Seq<char>) -> Result<
    usize,
    ErrorView,
> {
    match eval(w, env) {
        Ok(v) => Ok(v),
        Err(EvalErrorView::UnboundGeneric(n)) => Err(fail(ErrorKindView::UnboundGeneric, n)),
        Err(EvalErrorView::ArithmeticError) => Err(fail(ErrorKindView::InvalidWidth, what)),
    }
}

fn evaluate_in(w: &GenericWidth, env: &Env, what: &String) -> (r: Result<usize, N2VError>)
    ensures
        same(r, eval_in(w.deep_view(), env@, what@)),
        r is Err ==> wiring_kind(r->Err_0@.kind),
{
    match evaluate(w, env) {
        Ok(v) => Ok(v),
        Err(EvalError::UnboundGeneric(n)) => Err(
            N2VError { msg: n, kind: ErrorKind::UnboundGeneric },
        ),
        Err(EvalError::ArithmeticError) => Err(
            N2VError { msg: what.clone(), kind: ErrorKind::InvalidWidth },
        ),
    }
}

/// The ports from the `k`-th on with their widths evaluated under `env`,
/// appended to `acc`. A width of zero is invalid.
pub open spec fn concrete_ports(
    ports: Seq<PortView>,
    k: int,
    env: Seq<(Seq<char>, usize)>,
    acc: Seq<PortShape>,
) -> Result<Seq<PortShape>, ErrorView>
    decreases ports.len() - k,
{
    if k < 0 || k >= ports.len() {
        Ok(acc)
    } else {
        match eval_in(ports[k].width, env, ports[k].name.value) {
            Err(e) => Err(e),
            Ok(w) => if w == 0 {
                Err(fail(ErrorKindView::InvalidWidth, ports[k].name.value))
            } else {
                concrete_ports(
                    ports,
                    k + 1,
                    env,
                    acc.push(
                        PortShape {
                            name: ports[k].name.value,
                            width: w,
                            direction: ports[k].direction,
                        },
                    ),
                )
            },
        }
    }
}

fn resolve_ports(ports: &Vec<GenericPort>, env: &Env) -> (r: Result<Vec<Port>, N2VError>)
    ensures
        match concrete_ports(ports.deep_view(), 0, env@, Seq::empty()) {
            Ok(v) => r is Ok && r->Ok_0.deep_view() == v,
            Err(e) => r is Err && r->Err_0@ == e,
        },
        r is Ok ==> ports_ok(r->Ok_0.deep_view()),
        r is Err ==> wiring_kind(r->Err_0@.kind),
{
    let mut res: Vec<Port> = Vec::new();
    assert(res.deep_view() =~= Seq::empty());
    let mut k: usize = 0;
    while k < ports.len()
        invariant
            k <= ports@.len(),
            ports_ok(res.deep_view()),
            concrete_ports(ports.deep_view(), k as int, env@, res.deep_view()) == concrete_ports(
                ports.deep_view(),
                0,
                env@,
                Seq::empty(),
            ),
        decreases ports@.len() - k,
    {
        let ghost before = res.deep_view();
        let port = &ports[k];
        assert(ports.deep_view()[k as int] == port.deep_view());
        let w = match evaluate_in(&port.width, env, &port.name.value) {
            Ok(w) => w,
            Err(e) => {
                return Err(e);
            },
        };
        if w == 0 {
            return Err(N2VError { msg: port.name.value.clone(), kind: ErrorKind::InvalidWidth });
        }
        let concrete = Port { name: port.name.value.clone(), width: w, direction: port.direction };
        let ghost shape = concrete.deep_view();
        res.push(concrete);
        assert(res.deep_view() =~= before.push(shape));
        k = k + 1;
    }
    Ok(res)
}

/// The position of the first port from the `k`-th on that is named `name`.
pub open spec fn port_position(ports: Seq<PortShape>, name: Seq<char>, k: int) -> Option<int>
    decreases ports.len() - k,
{
    if k < 0 || k >= ports.len() {
        None
    } else if ports[k].name == name {
        Some(k)
    } else {
        port_position(ports, name, k + 1)
    }
}

/// The position of the first wire from the `k`-th on that is named `name`.
pub open spec fn wire_position(wires: Seq<WireShape>, name: Seq<char>, k: int) -> Option<int>
    decreases wires.len() - k,
{
    if k < 0 || k >= wires.len() {
        None
    } else if wires[k].name == name {
        Some(k)
    } else {
        wire_position(wires, name, k + 1)
    }
}

/// The position of the first port named `name`.
pub fn find_port(ports: &Vec<Port>, name: &String) -> (r: Option<usize>)
    ensures
        match r {
            Some(i) => i < ports@.len() && port_position(ports.deep_view(), name@, 0) == Some(
                i as int,
            ),
            None => port_position(ports.deep_view(), name@, 0) is None,
        },
{
    let mut k: usize = 0;
    while k < ports.len()
        invariant
            k <= ports@.len(),
            port_position(ports.deep_view(), name@, k as int) == port_position(
                ports.deep_view(),
                name@,
                0,
            ),
        decreases ports@.len() - k,
    {
        assert(ports.deep_view()[k as int] == ports@[k as int].deep_view());
        if ports[k].name == *name {
            return Some(k);
        }
        k = k + 1;
    }
    None
}

fn find_wire(wires: &Vec<Wire>, name: &String) -> (r: Option<usize>)
    ensures
        match r {
            Some(i) => i < wires@.len() && wire_position(wires.deep_view(), name@, 0) == Some(
                i as int,
            ),
            None => wire_position(wires.deep_view(), name@, 0) is None,
        },
{
    let mut k: usize = 0;
    while k < wires.len()
        invariant
            k <= wires@.len(),
            wire_position(wires.deep_view(), name@, k as int) == wire_position(
                wires.deep_view(),
                name@,
                0,
            ),
        decreases wires@.len() - k,
    {
        assert(wires.deep_view()[k as int] == wires@[k as int].deep_view());
        if wires[k].name == *name {
            return Some(k);
        }
        k = k + 1;
    }
    None
}

/// How a mapping is named in a message: `port=wire`.
pub open spec fn mapping_label(m: MappingView) -> Seq<char> {
    m.port.name + "="@ + m.wire.name
}

/// The bits that the bounds of `bus` select, as a first bit and a number of
/// bits; `None` where it has no bounds. A single index selects one bit. A
/// range whose end lies before its start is invalid.
pub open spec fn spec_range(bus: BusView, env: Seq<(Seq<char>, usize)>, what: Seq<char>) -> Result<
    Option<(usize, usize)>,
    ErrorView,
> {
    match bus.start {
        None => Ok(None),
        Some(s) => match eval_in(s, env, what) {
            Err(e) => Err(e),
            Ok(first) => match bus.end {
                None => Ok(Some((first, 1usize))),
                Some(e) => match eval_in(e, env, what) {
                    Err(e) => Err(e),
                    Ok(last) => if last < first || last - first == usize::MAX {
                        Err(fail(ErrorKindView::InvalidWidth, what))
                    } else {
                        Ok(Some((first, (last - first + 1) as usize)))
                    },
                },
            },
        },
    }
}

fn resolve_range(bus: &BusHDL, env: &Env, what: &String) -> (r: Result<
    Option<(usize, usize)>,
    N2VError,
>)
    ensures
        same(r, spec_range(bus.deep_view(), env@, what@)),
        r is Err ==> wiring_kind(r->Err_0@.kind),
{
    let first = match &bus.start {
        None => {
            return Ok(None);
        },
        Some(s) => match evaluate_in(s, env, what) {
            Ok(v) => v,
            Err(e) => {
                return Err(e);
            },
        },
    };
    let last = match &bus.end {
        None => {
            return Ok(Some((first, 1)));
        },
        Some(e) => match evaluate_in(e, env, what) {
            Ok(v) => v,
            Err(e) => {
                return Err(e);
            },
        },
    };
    if last < first || last - first == usize::MAX {
        Err(N2VError { msg: what.clone(), kind: ErrorKind::InvalidWidth })
    } else {
        Ok(Some((first, last - first + 1)))
    }
}

/// The slice that `range` selects of a signal declared `declared` bits wide:
/// all of it where there is no range, and `None` where the range reaches
/// past the signal.
pub open spec fn within(range: Option<(usize, usize)>, declared: usize) -> Option<(usize, usize)> {
    match range {
        None => Some((0usize, declared)),
        Some((start, width)) => if start + width <= declared {
            Some((start, width))
        } else {
            None
        },
    }
}

fn slice_within(range: Option<(usize, usize)>, declared: usize) -> (r: Option<(usize, usize)>)
    ensures
        r == within(range, declared),
{
    match range {
        None => Some((0, declared)),
        Some((start, width)) => if start <= declared && width <= declared - start {
            Some((start, width))
        } else {
            None
        },
    }
}

/// The larger of two numbers.
pub open spec fn larger(a: usize, b: usize) -> usize {
    if a >= b {
        a
    } else {
        b
    }
}

/// The width of an inner wire, and whether it is fixed, after a mapping
/// mentions its bits `start .. start + width`; `whole` says that the mapping
/// gave no bounds. `None` where the mention does not fit the wire.
///
/// A mention without bounds fixes the width: it must be the width that an
/// earlier such mention fixed, and no less than the bits that were mentioned
/// so far. A mention with bounds must lie within a fixed width, and widens a
/// wire whose width is not fixed.
pub open spec fn mention(wire: WireShape, whole: bool, start: usize, width: usize) -> Option<
    (usize, bool),
> {
    if whole {
        if (wire.fixed && wire.width != width) || (!wire.fixed && wire.width > width) {
            None
        } else {
            Some((width, true))
        }
    } else if wire.fixed {
        if start + width <= wire.width {
            Some((wire.width, true))
        } else {
            None
        }
    } else {
        Some((larger(wire.width, (start + width) as usize), false))
    }
}

fn mention_of(wire: &Wire, whole: bool, start: usize, width: usize) -> (r: Option<(usize, bool)>)
    requires
        start + width <= usize::MAX,
    ensures
        r == mention(wire.deep_view(), whole, start, width),
{
    if whole {
        if (wire.fixed && wire.width != width) || (!wire.fixed && wire.width > width) {
            None
        } else {
            Some((width, true))
        }
    } else if wire.fixed {
        if start + width <= wire.width {
            Some((wire.width, true))
        } else {
            None
        }
    } else if wire.width >= start + width {
        Some((wire.width, false))
    } else {
        Some((start + width, false))
    }
}

/// The instance `inst` after the mapping `m` of its part number `ordinal`,
/// whose ports are `child_ports`, is resolved under `env`.
///
/// The port must be a port of the part, and its slice must lie within it. On
/// the other side, a port of `inst` is sliced in the same way; any other name
/// is an inner wire, which the mapping mentions from bit 0 on over the width
/// of the port slice where it gives no bounds. Both slices must be equally
/// wide.
pub open spec fn spec_wire_one(
    m: MappingView,
    env: Seq<(Seq<char>, usize)>,
    child_ports: Seq<PortShape>,
    ordinal: usize,
    inst: InstanceView,
) -> Result<InstanceView, ErrorView> {
    let what = mapping_label(m);
    match port_position(child_ports, m.port.name, 0) {
        None => Err(fail(ErrorKindView::UnknownPort, what)),
        Some(pi) => match spec_range(m.port, env, what) {
            Err(e) => Err(e),
            Ok(pr) => match within(pr, child_ports[pi].width) {
                None => Err(fail(ErrorKindView::WidthMismatch, what)),
                Some((ps, pw)) => match spec_range(m.wire, env, what) {
                    Err(e) => Err(e),
                    Ok(wr) => {
                        let port = Slice { signal: SignalRef::Port(pi as usize), start: ps, width: pw };
                        let output = child_ports[pi].direction == PortDirection::Out;
                        match port_position(inst.ports, m.wire.name, 0) {
                            Some(si) => match within(wr, inst.ports[si].width) {
                                None => Err(fail(ErrorKindView::WidthMismatch, what)),
                                Some((ws, ww)) => if ww != pw {
                                    Err(fail(ErrorKindView::WidthMismatch, what))
                                } else {
                                    Ok(
                                        inst.wired(
                                            Wiring {
                                                child: ordinal,
                                                port,
                                                wire: Slice {
                                                    signal: SignalRef::Port(si as usize),
                                                    start: ws,
                                                    width: ww,
                                                },
                                                output,
                                            },
                                        ),
                                    )
                                },
                            },
                            None => {
                                let whole = wr is None;
                                let (ws, ww) = match wr {
                                    Some(r) => r,
                                    None => (0usize, pw),
                                };
                                if ww != pw {
                                    Err(fail(ErrorKindView::WidthMismatch, what))
                                } else if ws + ww > usize::MAX {
                                    Err(fail(ErrorKindView::InvalidWidth, what))
                                } else {
                                    match wire_position(inst.wires, m.wire.name, 0) {
                                        Some(wi) => match mention(inst.wires[wi], whole, ws, ww) {
                                            None => Err(fail(ErrorKindView::WidthMismatch, what)),
                                            Some((width, fixed)) => Ok(
                                                inst.grown(wi, width, fixed).wired(
                                                    Wiring {
                                                        child: ordinal,
                                                        port,
                                                        wire: Slice {
                                                            signal: SignalRef::Wire(wi as usize),
                                                            start: ws,
                                                            width: ww,
                                                        },
                                                        output,
                                                    },
                                                ),
                                            ),
                                        },
                                        None => Ok(
                                            inst.with_wire(
                                                m.wire.name,
                                                (ws + ww) as usize,
                                                whole,
                                            ).wired(
                                                Wiring {
                                                    child: ordinal,
                                                    port,
                                                    wire: Slice {
                                                        signal: SignalRef::Wire(
                                                            inst.wires.len() as usize,
                                                        ),
                                                        start: ws,
                                                        width: ww,
                                                    },
                                                    output,
                                                },
                                            ),
                                        ),
                                    }
                                }
                            },
                        }
                    },
                },
            },
        },
    }
}

impl Instance {
    fn add_wiring(&mut self, w: Wiring)
        ensures
            final(self).deep_view() == old(self).deep_view().wired(w),
            final(self).kind == old(self).kind,
            final(self).first == old(self).first,
    {
        self.wirings.push(w);
    }

    fn grow(&mut self, i: usize, width: usize, fixed: bool)
        requires
            i < old(self).wires@.len(),
        ensures
            final(self).deep_view() == old(self).deep_view().grown(i as int, width, fixed),
            final(self).kind == old(self).kind,
            final(self).first == old(self).first,
    {
        let name = self.wires[i].name.clone();
        self.wires.set(i, Wire { name, width, fixed });
        assert(self.wires.deep_view() =~= old(self).deep_view().grown(
            i as int,
            width,
            fixed,
        ).wires);
    }

    fn add_wire(&mut self, name: String, width: usize, fixed: bool)
        ensures
            final(self).deep_view() == old(self).deep_view().with_wire(name@, width, fixed),
            final(self).kind == old(self).kind,
            final(self).first == old(self).first,
    {
        self.wires.push(Wire { name, width, fixed });
        assert(self.wires.deep_view() =~= old(self).deep_view().with_wire(
            name@,
            width,
            fixed,
        ).wires);
    }

    fn add_child(&mut self, index: usize)
        ensures
            final(self).deep_view() == old(self).deep_view().with_child(index),
            final(self).kind == old(self).kind,
            final(self).first == old(self).first,
    {
        self.children.push(index);
    }
}

fn label_of(m: &PortMapping) -> (s: String)
    ensures
        s@ == mapping_label(m.deep_view()),
{
    m.port.name.clone().concat("=").concat(m.wire.name.as_str())
}

/// The part number `ordinal` of `inst` is one of the first `k` instances of
/// `arena`, and `child_ports` are its ports.
pub open spec fn part_at(
    inst: InstanceView,
    arena: Seq<InstanceView>,
    k: int,
    ordinal: usize,
    child_ports: Seq<PortShape>,
) -> bool {
    &&& placed_ok(inst, arena, k)
    &&& tiled(inst, arena, k)
    &&& ordinal < inst.children.len()
    &&& arena[inst.children[ordinal as int] as int].ports == child_ports
    &&& ports_ok(child_ports)
}

fn wire_one(
    m: &PortMapping,
    env: &Env,
    child_ports: &Vec<Port>,
    ordinal: usize,
    inst: &mut Instance,
    Ghost(arena): Ghost<Seq<InstanceView>>,
) -> (r: Result<(), N2VError>)
    requires
        part_at(
            old(inst).deep_view(),
            arena,
            arena.len() as int,
            ordinal,
            child_ports.deep_view(),
        ),
    ensures
        match spec_wire_one(
            m.deep_view(),
            env@,
            child_ports.deep_view(),
            ordinal,
            old(inst).deep_view(),
        ) {
            Ok(i2) => r is Ok && final(inst).deep_view() == i2,
            Err(e) => r is Err && r->Err_0@ == e,
        },
        r is Ok ==> part_at(
            final(inst).deep_view(),
            arena,
            arena.len() as int,
            ordinal,
            child_ports.deep_view(),
        ),
        r is Ok ==> final(inst).kind == old(inst).kind && final(inst).first == old(inst).first,
        r is Err ==> wiring_kind(r->Err_0@.kind),
{
    let ghost k = arena.len() as int;
    let ghost iv0 = inst.deep_view();
    let what = label_of(m);
    let pi = match find_port(child_ports, &m.port.name) {
        Some(pi) => pi,
        None => {
            return Err(N2VError { msg: what, kind: ErrorKind::UnknownPort });
        },
    };
    assert(child_ports.deep_view()[pi as int] == child_ports@[pi as int].deep_view());
    let pr = match resolve_range(&m.port, env, &what) {
        Ok(r) => r,
        Err(e) => {
            return Err(e);
        },
    };
    let (ps, pw) = match slice_within(pr, child_ports[pi].width) {
        Some(s) => s,
        None => {
            return Err(N2VError { msg: what, kind: ErrorKind::WidthMismatch });
        },
    };
    let wr = match resolve_range(&m.wire, env, &what) {
        Ok(r) => r,
        Err(e) => {
            return Err(e);
        },
    };
    let port = Slice { signal: SignalRef::Port(pi), start: ps, width: pw };
    let output = child_ports[pi].direction == PortDirection::Out;
    match find_port(&inst.ports, &m.wire.name) {
        Some(si) => {
            assert(inst.ports.deep_view()[si as int] == inst.ports@[si as int].deep_view());
            let (ws, ww) = match slice_within(wr, inst.ports[si].width) {
                Some(s) => s,
                None => {
                    return Err(N2VError { msg: what, kind: ErrorKind::WidthMismatch });
                },
            };
            if ww != pw {
                return Err(N2VError { msg: what, kind: ErrorKind::WidthMismatch });
            }
            let w = Wiring {
                child: ordinal,
                port,
                wire: Slice { signal: SignalRef::Port(si), start: ws, width: ww },
                output,
            };
            proof {
                assert(iv0.children[ordinal as int] < k);
                assert(wiring_ok(w, iv0, arena, k));
                lemma_wired_ok(iv0, arena, k, w);
            }
            inst.add_wiring(w);
            Ok(())
        },
        None => {
            let whole = wr.is_none();
            let (ws, ww) = match wr {
                Some(r) => r,
                None => (0, pw),
            };
            if ww != pw {
                return Err(N2VError { msg: what, kind: ErrorKind::WidthMismatch });
            }
            if ws > usize::MAX - ww {
                return Err(N2VError { msg: what, kind: ErrorKind::InvalidWidth });
            }
            match find_wire(&inst.wires, &m.wire.name) {
                Some(wi) => {
                    assert(inst.wires.deep_view()[wi as int] == inst.wires@[wi as int].deep_view());
                    let (width, fixed) = match mention_of(&inst.wires[wi], whole, ws, ww) {
                        Some(m) => m,
                        None => {
                            return Err(N2VError { msg: what, kind: ErrorKind::WidthMismatch });
                        },
                    };
                    let w = Wiring {
                        child: ordinal,
                        port,
                        wire: Slice { signal: SignalRef::Wire(wi), start: ws, width: ww },
                        output,
                    };
                    proof {
                        let iv1 = iv0.grown(wi as int, width, fixed);
                        lemma_grown_ok(iv0, arena, k, wi as int, width, fixed);
                        assert(iv1.children[ordinal as int] < k);
                        assert(wiring_ok(w, iv1, arena, k));
                        lemma_wired_ok(iv1, arena, k, w);
                    }
                    inst.grow(wi, width, fixed);
                    inst.add_wiring(w);
                    Ok(())
                },
                None => {
                    let wi = inst.wires.len();
                    let w = Wiring {
                        child: ordinal,
                        port,
                        wire: Slice { signal: SignalRef::Wire(wi), start: ws, width: ww },
                        output,
                    };
                    proof {
                        let iv1 = iv0.with_wire(m.wire.name@, (ws + ww) as usize, whole);
                        lemma_with_wire_ok(iv0, arena, k, m.wire.name@, (ws + ww) as usize, whole);
                        assert(iv1.children[ordinal as int] < k);
                        assert(wiring_ok(w, iv1, arena, k));
                        lemma_wired_ok(iv1, arena, k, w);
                    }
                    inst.add_wire(m.wire.name.clone(), ws + ww, whole);
                    inst.add_wiring(w);
                    Ok(())
                },
            }
        },
    }
}

/// The instance after the mappings from the `k`-th on are resolved in order.
pub open spec fn spec_wire_all(
    mappings: Seq<MappingView>,
    k: int,
    env: Seq<(Seq<char>, usize)>,
    child_ports: Seq<PortShape>,
    ordinal: usize,
    inst: InstanceView,
) -> Result<InstanceView, ErrorView>
    decreases mappings.len() - k,
{
    if k < 0 || k >= mappings.len() {
        Ok(inst)
    } else {
        match spec_wire_one(mappings[k], env, child_ports, ordinal, inst) {
            Err(e) => Err(e),
            Ok(i2) => spec_wire_all(mappings, k + 1, env, child_ports, ordinal, i2),
        }
    }
}

fn wire_all(
    mappings: &Vec<PortMapping>,
    env: &Env,
    child_ports: &Vec<Port>,
    ordinal: usize,
    inst: &mut Instance,
    Ghost(arena): Ghost<Seq<InstanceView>>,
) -> (r: Result<(), N2VError>)
    requires
        part_at(
            old(inst).deep_view(),
            arena,
            arena.len() as int,
            ordinal,
            child_ports.deep_view(),
        ),
    ensures
        match spec_wire_all(
            mappings.deep_view(),
            0,
            env@,
            child_ports.deep_view(),
            ordinal,
            old(inst).deep_view(),
        ) {
            Ok(i2) => r is Ok && final(inst).deep_view() == i2,
            Err(e) => r is Err && r->Err_0@ == e,
        },
        r is Ok ==> placed_ok(final(inst).deep_view(), arena, arena.len() as int) && tiled(
            final(inst).deep_view(),
            arena,
            arena.len() as int,
        ),
        r is Ok ==> final(inst).kind == old(inst).kind && final(inst).first == old(inst).first,
        r is Err ==> wiring_kind(r->Err_0@.kind),
{
    let mut k: usize = 0;
    while k < mappings.len()
        invariant
            k <= mappings@.len(),
            inst.kind == old(inst).kind,
            inst.first == old(inst).first,
            part_at(inst.deep_view(), arena, arena.len() as int, ordinal, child_ports.deep_view()),
            spec_wire_all(
                mappings.deep_view(),
                k as int,
                env@,
                child_ports.deep_view(),
                ordinal,
                inst.deep_view(),
            ) == spec_wire_all(
                mappings.deep_view(),
                0,
                env@,
                child_ports.deep_view(),
                ordinal,
                old(inst).deep_view(),
            ),
        decreases mappings@.len() - k,
    {
        assert(mappings.deep_view()[k as int] == mappings@[k as int].deep_view());
        match wire_one(&mappings[k], env, child_ports, ordinal, inst, Ghost(arena)) {
            Ok(()) => {},
            Err(e) => {
                return Err(e);
            },
        }
        k = k + 1;
    }
    Ok(())
}


/// The chips that parts are resolved against: the two primitive chips, then
/// the parse trees that were added, in order.
pub struct Library {
    primitives: Primitives,
    added: Vec<ChipHDL>,
}

/// The parse trees of the two primitive chips.
struct Primitives {
    nand: ChipHDL,
    dff: ChipHDL,
}

impl Primitives {
    #[verifier::type_invariant]
    spec fn inv(&self) -> bool {
        self.nand.deep_view() == nand_chip() && self.dff.deep_view() == dff_chip()
    }
}

impl View for Library {
    type V = Seq<ChipView>;

    closed spec fn view(&self) -> Seq<ChipView> {
        seq![self.primitives.nand.deep_view(), self.primitives.dff.deep_view()]
            + self.added.deep_view()
    }
}

/// The position of the first chip from the `k`-th on whose name is `name`.
/// Positions are machine words.
pub open spec fn first_named(lib: Seq<ChipView>, name: Seq<char>, k: int) -> Option<int>
    decreases lib.len() - k,
{
    if k < 0 || k >= lib.len() || k > usize::MAX {
        None
    } else if lib[k].name == name {
        Some(k)
    } else {
        first_named(lib, name, k + 1)
    }
}

/// The position of the chip that `name` refers to. `nand` and `dff`, in any
/// mix of cases, are the primitive chips at the positions 0 and 1; any other
/// name is the first chip of exactly that name among those that were added.
pub open spec fn find_chip(lib: Seq<ChipView>, name: Seq<char>) -> Option<int> {
    if is_nand_name(name) {
        Some(0)
    } else if is_dff_name(name) {
        Some(1)
    } else {
        first_named(lib, name, 2)
    }
}

/// The kind of the chip at the position `h` of a library.
pub open spec fn kind_of(h: int) -> ChipKind {
    if h == 0 {
        ChipKind::Nand
    } else if h == 1 {
        ChipKind::Dff
    } else {
        ChipKind::Composite
    }
}

impl Library {
    /// The library of the two primitive chips.
    pub fn new() -> (lib: Library)
        ensures
            lib@ == seq![nand_chip(), dff_chip()],
    {
        let lib = Library {
            primitives: Primitives { nand: nand_hdl(), dff: dff_hdl() },
            added: Vec::new(),
        };
        assert(lib@ =~= seq![nand_chip(), dff_chip()]);
        lib
    }

    /// Adds the parse tree of a chip.
    pub fn add(&mut self, chip: ChipHDL)
        ensures
            final(self)@ == old(self)@.push(chip.deep_view()),
    {
        self.added.push(chip);
        assert(self@ =~= old(self)@.push(chip.deep_view()));
    }

    /// Adds the parse tree of a chip under the name `name`, the name of the
    /// file that it was read from: parts refer to a chip by the name of its
    /// file.
    pub fn add_as(&mut self, name: &str, chip: ChipHDL)
        ensures
            final(self)@ == old(self)@.push(ChipView { name: name@, ..chip.deep_view() }),
    {
        let mut chip = chip;
        chip.name = String::from_str(name);
        self.add(chip);
    }

    /// The number of chips, the two primitive chips included, where it is a
    /// machine word.
    pub fn len(&self) -> (n: Option<usize>)
        ensures
            match n {
                Some(n) => n == self@.len(),
                None => self@.len() > usize::MAX,
            },
    {
        let n = self.added.len();
        if n <= usize::MAX - 2 {
            Some(n + 2)
        } else {
            None
        }
    }

    /// The chip at the position `j`. The chips at the positions 0 and 1 are
    /// NAND and DFF.
    pub fn chip_at(&self, j: usize) -> (chip: &ChipHDL)
        requires
            j < self@.len(),
        ensures
            chip.deep_view() == self@[j as int],
            j == 0 ==> chip.deep_view() == nand_chip(),
            j == 1 ==> chip.deep_view() == dff_chip(),
    {
        proof {
            use_type_invariant(&self.primitives);
        }
        if j == 0 {
            &self.primitives.nand
        } else if j == 1 {
            &self.primitives.dff
        } else {
            assert(self.added.deep_view()[j - 2] == self.added@[j - 2].deep_view());
            &self.added[j - 2]
        }
    }

    /// The position of the chip that `name` refers to.
    pub fn find(&self, name: &String) -> (r: Option<usize>)
        ensures
            match r {
                Some(j) => j < self@.len() && find_chip(self@, name@) == Some(j as int),
                None => find_chip(self@, name@) is None,
            },
    {
        if is_nand(name.as_str()) {
            return Some(0);
        }
        if is_dff(name.as_str()) {
            return Some(1);
        }
        let mut k: usize = 0;
        while k < self.added.len()
            invariant
                k <= self.added@.len(),
                !is_nand_name(name@),
                !is_dff_name(name@),
                first_named(self@, name@, k + 2) == first_named(self@, name@, 2),
            decreases self.added@.len() - k,
        {
            assert(self@[k + 2] == self.added@[k as int].deep_view());
            if self.added[k].name == *name {
                if k > usize::MAX - 2 {
                    return None;
                }
                return Some(k + 2);
            }
            k = k + 1;
        }
        None
    }

    /// Whether `name` refers to a chip of this library.
    pub fn contains(&self, name: &str) -> (b: bool)
        ensures
            b == find_chip(self@, name@) is Some,
    {
        let owned = String::from_str(name);
        self.find(&owned).is_some()
    }
}

/// The first position from the `k`-th on at which `avail` holds `j`.
pub open spec fn index_of(avail: Seq<usize>, j: int, k: int) -> Option<int>
    decreases avail.len() - k,
{
    if k < 0 || k >= avail.len() {
        None
    } else if avail[k] == j {
        Some(k)
    } else {
        index_of(avail, j, k + 1)
    }
}

fn position_of(avail: &Vec<usize>, j: usize) -> (r: Option<usize>)
    ensures
        match r {
            Some(p) => p < avail@.len() && index_of(avail@, j as int, 0) == Some(p as int),
            None => index_of(avail@, j as int, 0) is None,
        },
{
    let mut k: usize = 0;
    while k < avail.len()
        invariant
            k <= avail@.len(),
            index_of(avail@, j as int, k as int) == index_of(avail@, j as int, 0),
        decreases avail@.len() - k,
    {
        if avail[k] == j {
            return Some(k);
        }
        k = k + 1;
    }
    None
}

fn copy_indices(v: &Vec<usize>) -> (copy: Vec<usize>)
    ensures
        copy@ == v@,
{
    let mut copy: Vec<usize> = Vec::new();
    let mut i: usize = 0;
    while i < v.len()
        invariant
            i <= v@.len(),
            copy@ == v@.subrange(0, i as int),
        decreases v@.len() - i,
    {
        copy.push(v[i]);
        i = i + 1;
        assert(copy@ =~= v@.subrange(0, i as int));
    }
    assert(v@.subrange(0, v@.len() as int) =~= v@);
    copy
}

/// The environment of a part: each generic declaration of its chip, from
/// the `k`-th on, bound to the value of the argument at the same position.
pub open spec fn spec_bind(
    decls: Seq<IdentifierView>,
    params: Seq<WidthView>,
    k: int,
    env: Seq<(Seq<char>, usize)>,
    what: Seq<char>,
    acc: Seq<(Seq<char>, usize)>,
) -> Result<Seq<(Seq<char>, usize)>, ErrorView>
    decreases decls.len() - k,
{
    if k < 0 || k >= decls.len() || k >= params.len() {
        Ok(acc)
    } else {
        match eval_in(params[k], env, what) {
            Err(e) => Err(e),
            Ok(v) => spec_bind(decls, params, k + 1, env, what, acc.push((decls[k].value, v))),
        }
    }
}

fn bind_generics(
    decls: &Vec<Identifier>,
    params: &Vec<GenericWidth>,
    env: &Env,
    what: &String,
) -> (r: Result<Env, N2VError>)
    ensures
        match spec_bind(decls.deep_view(), params.deep_view(), 0, env@, what@, Seq::empty()) {
            Ok(v) => r is Ok && r->Ok_0@ == v,
            Err(e) => r is Err && r->Err_0@ == e,
        },
        r is Err ==> wiring_kind(r->Err_0@.kind),
{
    let mut res = Env::new();
    let mut k: usize = 0;
    while k < decls.len() && k < params.len()
        invariant
            k <= decls@.len(),
            k <= params@.len(),
            spec_bind(decls.deep_view(), params.deep_view(), k as int, env@, what@, res@)
                == spec_bind(decls.deep_view(), params.deep_view(), 0, env@, what@, Seq::empty()),
        decreases decls@.len() - k,
    {
        assert(decls.deep_view()[k as int] == decls@[k as int].deep_view());
        assert(params.deep_view()[k as int] == params@[k as int].deep_view());
        let v = match evaluate_in(&params[k], env, what) {
            Ok(v) => v,
            Err(e) => {
                return Err(e);
            },
        };
        res.bind(decls[k].value.clone(), v);
        k = k + 1;
    }
    Ok(res)
}

/// Two ranges of bits share a bit.
pub open spec fn overlaps(a: Slice, b: Slice) -> bool {
    a.signal == b.signal && a.start < b.start + b.width && b.start < a.start + a.width
}

/// Two wirings drive the same bit: of a signal of the chip, where both are
/// outputs of parts, or of a port of one part, where both are inputs of it.
pub open spec fn clash(a: Wiring, b: Wiring) -> bool {
    ||| a.output && b.output && overlaps(a.wire, b.wire)
    ||| !a.output && !b.output && a.child == b.child && overlaps(a.port, b.port)
}

/// The wiring lets a part drive an input port of the chip, which is driven
/// from outside already.
pub open spec fn drives_input(w: Wiring, ports: Seq<PortShape>) -> bool {
    w.output && match w.wire.signal {
        SignalRef::Port(i) => i < ports.len() && ports[i as int].direction == PortDirection::In,
        SignalRef::Wire(_) => false,
    }
}

/// Some bit of the instance has more than one driver.
pub open spec fn conflict(inst: InstanceView) -> bool {
    ||| exists|a: int|
        0 <= a < inst.wirings.len() && drives_input(#[trigger] inst.wirings[a], inst.ports)
    ||| exists|a: int, b: int|
        0 <= a < b < inst.wirings.len() && clash(#[trigger] inst.wirings[a], #[trigger] inst.wirings[b])
}

fn slices_overlap(a: Slice, b: Slice) -> (r: bool)
    ensures
        r == overlaps(a, b),
{
    a.signal == b.signal && (a.start < b.start || a.start - b.start < b.width) && (b.start
        < a.start || b.start - a.start < a.width)
}

fn has_conflict(inst: &Instance) -> (r: bool)
    ensures
        r == conflict(inst.deep_view()),
{
    let n = inst.wirings.len();
    let ghost iv = inst.deep_view();
    let mut a: usize = 0;
    while a < n
        invariant
            a <= n,
            n == inst.wirings@.len(),
            iv == inst.deep_view(),
            forall|x: int| 0 <= x < a ==> !drives_input(#[trigger] inst.wirings@[x], inst.ports.deep_view()),
            forall|x: int, y: int|
                0 <= x < a && x < y < n ==> !clash(#[trigger] inst.wirings@[x], #[trigger] inst.wirings@[y]),
        decreases n - a,
    {
        let wa = inst.wirings[a];
        if wa.output {
            match wa.wire.signal {
                SignalRef::Port(i) => {
                    if i < inst.ports.len() {
                        assert(inst.ports.deep_view()[i as int] == inst.ports@[i as int].deep_view());
                        if inst.ports[i].direction == PortDirection::In {
                            assert(drives_input(iv.wirings[a as int], iv.ports));
                            return true;
                        }
                    }
                },
                SignalRef::Wire(_) => {},
            }
        }
        let mut b: usize = a + 1;
        while b < n
            invariant
                a < b <= n,
                n == inst.wirings@.len(),
                iv == inst.deep_view(),
                wa == inst.wirings@[a as int],
                forall|y: int| a < y < b ==> !clash(wa, #[trigger] inst.wirings@[y]),
            decreases n - b,
        {
            let wb = inst.wirings[b];
            let hit = (wa.output && wb.output && slices_overlap(wa.wire, wb.wire)) || (!wa.output
                && !wb.output && wa.child == wb.child && slices_overlap(wa.port, wb.port));
            if hit {
                assert(clash(iv.wirings[a as int], iv.wirings[b as int]));
                return true;
            }
            b = b + 1;
        }
        a = a + 1;
    }
    false
}

/// The instance and the design after the part `c` is elaborated under `env`.
///
/// The chip of the part is looked up by name. It must not be one that is
/// being elaborated already: `avail` holds the chips that are not. Its
/// generic declarations are bound, by position, to the values of the
/// arguments. The chip is elaborated and becomes the last instance of the
/// design, and the mappings of the part are resolved against its ports.
pub open spec fn spec_component(
    lib: Seq<ChipView>,
    c: ComponentView,
    env: Seq<(Seq<char>, usize)>,
    avail: Seq<usize>,
    inst: InstanceView,
    arena: Seq<InstanceView>,
) -> Result<(InstanceView, Seq<InstanceView>), ErrorView>
    decreases avail.len(), 1nat, 0nat,
{
    let name = c.name.value;
    match find_chip(lib, name) {
        None => Err(fail(ErrorKindView::UnknownChip, name)),
        Some(j) => match index_of(avail, j, 0) {
            None => Err(fail(ErrorKindView::Recursion, name)),
            Some(p) => if c.generic_params.len() != lib[j].generic_decls.len() {
                Err(fail(ErrorKindView::GenericArityError, name))
            } else {
                match spec_bind(lib[j].generic_decls, c.generic_params, 0, env, name, Seq::empty()) {
                    Err(e) => Err(e),
                    Ok(child_env) => if 0 <= p < avail.len() {
                        match spec_chip(lib, j, child_env, avail.remove(p), arena) {
                            Err(e) => Err(e),
                            Ok(arena2) => {
                                let child = (arena2.len() - 1) as usize;
                                match spec_wire_all(
                                    c.mappings,
                                    0,
                                    env,
                                    arena2[child as int].ports,
                                    inst.children.len() as usize,
                                    inst.with_child(child),
                                ) {
                                    Err(e) => Err(e),
                                    Ok(inst2) => Ok((inst2, arena2)),
                                }
                            },
                        }
                    } else {
                        Err(fail(ErrorKindView::Recursion, name))
                    },
                }
            },
        },
    }
}

/// The instance and the design after the components of a loop body, from the
/// `b`-th on, are elaborated in order.
pub open spec fn spec_body(
    lib: Seq<ChipView>,
    body: Seq<ComponentView>,
    b: int,
    env: Seq<(Seq<char>, usize)>,
    avail: Seq<usize>,
    inst: InstanceView,
    arena: Seq<InstanceView>,
) -> Result<(InstanceView, Seq<InstanceView>), ErrorView>
    decreases avail.len(), 2nat, body.len() - b,
{
    if b < 0 || b >= body.len() {
        Ok((inst, arena))
    } else {
        match spec_component(lib, body[b], env, avail, inst, arena) {
            Err(e) => Err(e),
            Ok((i2, a2)) => spec_body(lib, body, b + 1, env, avail, i2, a2),
        }
    }
}

/// The instance and the design after the iterations `i` to `end` of a loop,
/// `end` included: each elaborates the body with the iterator bound to its
/// number, which shadows any outer binding of that name. Nothing is done
/// where `end` is less than `i`.
pub open spec fn spec_iterations(
    lib: Seq<ChipView>,
    l: LoopView,
    i: int,
    end: usize,
    env: Seq<(Seq<char>, usize)>,
    avail: Seq<usize>,
    inst: InstanceView,
    arena: Seq<InstanceView>,
) -> Result<(InstanceView, Seq<InstanceView>), ErrorView>
    decreases avail.len(), 3nat, end - i + 1,
{
    if i < 0 || i > end {
        Ok((inst, arena))
    } else {
        match spec_body(lib, l.body, 0, env.push((l.iterator.value, i as usize)), avail, inst, arena) {
            Err(e) => Err(e),
            Ok((i2, a2)) => spec_iterations(lib, l, i + 1, end, env, avail, i2, a2),
        }
    }
}

/// The instance and the design after the parts from the `k`-th on are
/// elaborated in order. The bounds of a loop are evaluated under `env`.
pub open spec fn spec_parts(
    lib: Seq<ChipView>,
    parts: Seq<PartView>,
    k: int,
    env: Seq<(Seq<char>, usize)>,
    avail: Seq<usize>,
    inst: InstanceView,
    arena: Seq<InstanceView>,
) -> Result<(InstanceView, Seq<InstanceView>), ErrorView>
    decreases avail.len(), 4nat, parts.len() - k,
{
    if k < 0 || k >= parts.len() {
        Ok((inst, arena))
    } else {
        let done = match parts[k] {
            PartView::Component(c) => spec_component(lib, c, env, avail, inst, arena),
            PartView::Loop(l) => match eval_in(l.start, env, l.iterator.value) {
                Err(e) => Err(e),
                Ok(start) => match eval_in(l.end, env, l.iterator.value) {
                    Err(e) => Err(e),
                    Ok(end) => spec_iterations(lib, l, start as int, end, env, avail, inst, arena),
                },
            },
        };
        match done {
            Err(e) => Err(e),
            Ok((i2, a2)) => spec_parts(lib, parts, k + 1, env, avail, i2, a2),
        }
    }
}

/// The design after the chip at the position `h` of the library is
/// elaborated under `env` and added as its last instance, behind the
/// instances of its parts.
///
/// The widths of its ports are evaluated, its parts are elaborated in order,
/// and then no bit may have more than one driver.
pub open spec fn spec_chip(
    lib: Seq<ChipView>,
    h: int,
    env: Seq<(Seq<char>, usize)>,
    avail: Seq<usize>,
    arena: Seq<InstanceView>,
) -> Result<Seq<InstanceView>, ErrorView>
    decreases avail.len(), 5nat, 0nat,
{
    match concrete_ports(lib[h].ports, 0, env, Seq::empty()) {
        Err(e) => Err(e),
        Ok(ports) => {
            let inst = InstanceView {
                name: lib[h].name,
                kind: kind_of(h),
                first: arena.len() as usize,
                ports,
                wires: Seq::empty(),
                children: Seq::empty(),
                wirings: Seq::empty(),
            };
            match spec_parts(lib, lib[h].parts, 0, env, avail, inst, arena) {
                Err(e) => Err(e),
                Ok((inst2, arena2)) => if conflict(inst2) {
                    Err(fail(ErrorKindView::MultipleDrivers, lib[h].name))
                } else {
                    Ok(arena2.push(inst2))
                },
            }
        },
    }
}

/// An instance under construction and the design so far are sound.
pub open spec fn scope_ok(inst: InstanceView, arena: Seq<InstanceView>) -> bool {
    &&& design_ok(arena)
    &&& placed_ok(inst, arena, arena.len() as int)
    &&& tiled(inst, arena, arena.len() as int)
}

/// The executable result `r`, with the instance and the design that were
/// left, is the outcome `want`.
pub open spec fn built(
    r: Result<(), N2VError>,
    inst: InstanceView,
    arena: Seq<InstanceView>,
    want: Result<(InstanceView, Seq<InstanceView>), ErrorView>,
) -> bool {
    match want {
        Ok((i2, a2)) => r is Ok && inst == i2 && arena == a2,
        Err(e) => r is Err && r->Err_0@ == e,
    }
}

fn elaborate_component(
    lib: &Library,
    c: &Component,
    env: &Env,
    avail: &Vec<usize>,
    inst: &mut Instance,
    arena: &mut Vec<Instance>,
) -> (r: Result<(), N2VError>)
    requires
        scope_ok(old(inst).deep_view(), old(arena).deep_view()),
    ensures
        built(
            r,
            final(inst).deep_view(),
            final(arena).deep_view(),
            spec_component(
                lib@,
                c.deep_view(),
                env@,
                avail@,
                old(inst).deep_view(),
                old(arena).deep_view(),
            ),
        ),
        r is Ok ==> scope_ok(final(inst).deep_view(), final(arena).deep_view()) && extends(
            final(arena).deep_view(),
            old(arena).deep_view(),
        ) && final(inst).kind == old(inst).kind && final(inst).first == old(inst).first,
        r is Err ==> explained(lib@, r->Err_0@),
    decreases avail@.len(), 1nat, 0nat,
{
    let j = match lib.find(&c.name.value) {
        Some(j) => j,
        None => {
            return Err(N2VError { msg: c.name.value.clone(), kind: ErrorKind::UnknownChip });
        },
    };
    let p = match position_of(avail, j) {
        Some(p) => p,
        None => {
            return Err(N2VError { msg: c.name.value.clone(), kind: ErrorKind::Recursion });
        },
    };
    let sub = lib.chip_at(j);
    if c.generic_params.len() != sub.generic_decls.len() {
        return Err(N2VError { msg: c.name.value.clone(), kind: ErrorKind::GenericArityError });
    }
    let child_env = match bind_generics(&sub.generic_decls, &c.generic_params, env, &c.name.value) {
        Ok(e) => e,
        Err(e) => {
            return Err(e);
        },
    };
    let mut rest = copy_indices(avail);
    let _j = rest.remove(p);
    match elaborate_chip(lib, j, &child_env, &rest, arena) {
        Ok(()) => {},
        Err(e) => {
            return Err(e);
        },
    }
    let child = arena.len() - 1;
    let ordinal = inst.children.len();
    proof {
        let a2 = arena.deep_view();
        lemma_with_child_ok(inst.deep_view(), old(arena).deep_view(), a2, child);
        assert(placed_ok(a2[child as int], a2, child as int));
    }
    inst.add_child(child);
    assert(arena.deep_view()[child as int] == arena@[child as int].deep_view());
    wire_all(&c.mappings, env, &arena[child].ports, ordinal, inst, Ghost(arena.deep_view()))
}

fn elaborate_body(
    lib: &Library,
    body: &Vec<Component>,
    env: &Env,
    avail: &Vec<usize>,
    inst: &mut Instance,
    arena: &mut Vec<Instance>,
) -> (r: Result<(), N2VError>)
    requires
        scope_ok(old(inst).deep_view(), old(arena).deep_view()),
    ensures
        built(
            r,
            final(inst).deep_view(),
            final(arena).deep_view(),
            spec_body(
                lib@,
                body.deep_view(),
                0,
                env@,
                avail@,
                old(inst).deep_view(),
                old(arena).deep_view(),
            ),
        ),
        r is Ok ==> scope_ok(final(inst).deep_view(), final(arena).deep_view()) && extends(
            final(arena).deep_view(),
            old(arena).deep_view(),
        ) && final(inst).kind == old(inst).kind && final(inst).first == old(inst).first,
        r is Err ==> explained(lib@, r->Err_0@),
    decreases avail@.len(), 2nat, 0nat,
{
    let mut b: usize = 0;
    while b < body.len()
        invariant
            b <= body@.len(),
            scope_ok(inst.deep_view(), arena.deep_view()),
            extends(arena.deep_view(), old(arena).deep_view()),
            inst.kind == old(inst).kind,
            inst.first == old(inst).first,
            spec_body(lib@, body.deep_view(), b as int, env@, avail@, inst.deep_view(), arena.deep_view())
                == spec_body(
                lib@,
                body.deep_view(),
                0,
                env@,
                avail@,
                old(inst).deep_view(),
                old(arena).deep_view(),
            ),
        decreases body@.len() - b,
    {
        assert(body.deep_view()[b as int] == body@[b as int].deep_view());
        let ghost mid = arena.deep_view();
        match elaborate_component(lib, &body[b], env, avail, inst, arena) {
            Ok(()) => {
                proof {
                    lemma_extends_trans(arena.deep_view(), mid, old(arena).deep_view());
                }
            },
            Err(e) => {
                return Err(e);
            },
        }
        b = b + 1;
    }
    Ok(())
}

fn elaborate_iterations(
    lib: &Library,
    l: &Loop,
    start: usize,
    end: usize,
    env: &Env,
    avail: &Vec<usize>,
    inst: &mut Instance,
    arena: &mut Vec<Instance>,
) -> (r: Result<(), N2VError>)
    requires
        scope_ok(old(inst).deep_view(), old(arena).deep_view()),
    ensures
        built(
            r,
            final(inst).deep_view(),
            final(arena).deep_view(),
            spec_iterations(
                lib@,
                l.deep_view(),
                start as int,
                end,
                env@,
                avail@,
                old(inst).deep_view(),
                old(arena).deep_view(),
            ),
        ),
        r is Ok ==> scope_ok(final(inst).deep_view(), final(arena).deep_view()) && extends(
            final(arena).deep_view(),
            old(arena).deep_view(),
        ) && final(inst).kind == old(inst).kind && final(inst).first == old(inst).first,
        r is Err ==> explained(lib@, r->Err_0@),
    decreases avail@.len(), 3nat, 0nat,
{
    let mut i: usize = start;
    while i <= end
        invariant
            start <= i,
            scope_ok(inst.deep_view(), arena.deep_view()),
            extends(arena.deep_view(), old(arena).deep_view()),
            inst.kind == old(inst).kind,
            inst.first == old(inst).first,
            spec_iterations(
                lib@,
                l.deep_view(),
                i as int,
                end,
                env@,
                avail@,
                inst.deep_view(),
                arena.deep_view(),
            ) == spec_iterations(
                lib@,
                l.deep_view(),
                start as int,
                end,
                env@,
                avail@,
                old(inst).deep_view(),
                old(arena).deep_view(),
            ),
        decreases end - i,
    {
        let mut inner = env.duplicate();
        inner.bind(l.iterator.value.clone(), i);
        let ghost mid = arena.deep_view();
        match elaborate_body(lib, &l.body, &inner, avail, inst, arena) {
            Ok(()) => {
                proof {
                    lemma_extends_trans(arena.deep_view(), mid, old(arena).deep_view());
                }
            },
            Err(e) => {
                return Err(e);
            },
        }
        if i == end {
            assert(spec_iterations(
                lib@,
                l.deep_view(),
                i + 1,
                end,
                env@,
                avail@,
                inst.deep_view(),
                arena.deep_view(),
            ) == Ok::<(InstanceView, Seq<InstanceView>), ErrorView>(
                (inst.deep_view(), arena.deep_view()),
            ));
            return Ok(());
        }
        i = i + 1;
    }
    Ok(())
}

fn elaborate_parts(
    lib: &Library,
    parts: &Vec<Part>,
    env: &Env,
    avail: &Vec<usize>,
    inst: &mut Instance,
    arena: &mut Vec<Instance>,
) -> (r: Result<(), N2VError>)
    requires
        scope_ok(old(inst).deep_view(), old(arena).deep_view()),
    ensures
        built(
            r,
            final(inst).deep_view(),
            final(arena).deep_view(),
            spec_parts(
                lib@,
                parts.deep_view(),
                0,
                env@,
                avail@,
                old(inst).deep_view(),
                old(arena).deep_view(),
            ),
        ),
        r is Ok ==> scope_ok(final(inst).deep_view(), final(arena).deep_view()) && extends(
            final(arena).deep_view(),
            old(arena).deep_view(),
        ) && final(inst).kind == old(inst).kind && final(inst).first == old(inst).first,
        r is Err ==> explained(lib@, r->Err_0@),
    decreases avail@.len(), 4nat, 0nat,
{
    let mut k: usize = 0;
    while k < parts.len()
        invariant
            k <= parts@.len(),
            scope_ok(inst.deep_view(), arena.deep_view()),
            extends(arena.deep_view(), old(arena).deep_view()),
            inst.kind == old(inst).kind,
            inst.first == old(inst).first,
            spec_parts(lib@, parts.deep_view(), k as int, env@, avail@, inst.deep_view(), arena.deep_view())
                == spec_parts(
                lib@,
                parts.deep_view(),
                0,
                env@,
                avail@,
                old(inst).deep_view(),
                old(arena).deep_view(),
            ),
        decreases parts@.len() - k,
    {
        assert(parts.deep_view()[k as int] == parts@[k as int].deep_view());
        let ghost mid = arena.deep_view();
        let done = match &parts[k] {
            Part::Component(c) => elaborate_component(lib, c, env, avail, inst, arena),
            Part::Loop(l) => {
                let start = match evaluate_in(&l.start, env, &l.iterator.value) {
                    Ok(v) => v,
                    Err(e) => {
                        return Err(e);
                    },
                };
                let end = match evaluate_in(&l.end, env, &l.iterator.value) {
                    Ok(v) => v,
                    Err(e) => {
                        return Err(e);
                    },
                };
                elaborate_iterations(lib, l, start, end, env, avail, inst, arena)
            },
        };
        match done {
            Ok(()) => {
                proof {
                    lemma_extends_trans(arena.deep_view(), mid, old(arena).deep_view());
                }
            },
            Err(e) => {
                return Err(e);
            },
        }
        k = k + 1;
    }
    Ok(())
}

/// The ports of the primitive chips are what they are under any environment.
proof fn lemma_primitive_ports(env: Seq<(Seq<char>, usize)>)
    ensures
        concrete_ports(nand_chip().ports, 0, env, Seq::empty()) == Ok::<
            Seq<PortShape>,
            ErrorView,
        >(nand_ports()),
        concrete_ports(dff_chip().ports, 0, env, Seq::empty()) == Ok::<Seq<PortShape>, ErrorView>(
            dff_ports(),
        ),
{
    reveal_with_fuel(concrete_ports, 5);
    let n = nand_chip().ports;
    let e: Seq<PortShape> = Seq::empty();
    let n1 = e.push(bit_port("a"@, PortDirection::In));
    let n2 = n1.push(bit_port("b"@, PortDirection::In));
    let n3 = n2.push(bit_port("out"@, PortDirection::Out));
    assert(n3 =~= nand_ports());
    assert(concrete_ports(n, 3, env, n3) == Ok::<Seq<PortShape>, ErrorView>(n3));
    assert(concrete_ports(n, 2, env, n2) == concrete_ports(n, 3, env, n3));
    assert(concrete_ports(n, 1, env, n1) == concrete_ports(n, 2, env, n2));
    assert(concrete_ports(n, 0, env, e) == concrete_ports(n, 1, env, n1));
    let d = dff_chip().ports;
    let d1 = e.push(bit_port("in"@, PortDirection::In));
    let d2 = d1.push(bit_port("out"@, PortDirection::Out));
    assert(d2 =~= dff_ports());
    assert(concrete_ports(d, 2, env, d2) == Ok::<Seq<PortShape>, ErrorView>(d2));
    assert(concrete_ports(d, 1, env, d1) == concrete_ports(d, 2, env, d2));
    assert(concrete_ports(d, 0, env, e) == concrete_ports(d, 1, env, d1));
}

fn kind_at(h: usize) -> (k: ChipKind)
    ensures
        k == kind_of(h as int),
{
    if h == 0 {
        ChipKind::Nand
    } else if h == 1 {
        ChipKind::Dff
    } else {
        ChipKind::Composite
    }
}

fn elaborate_chip(
    lib: &Library,
    h: usize,
    env: &Env,
    avail: &Vec<usize>,
    arena: &mut Vec<Instance>,
) -> (r: Result<(), N2VError>)
    requires
        h < lib@.len(),
        design_ok(old(arena).deep_view()),
    ensures
        match spec_chip(lib@, h as int, env@, avail@, old(arena).deep_view()) {
            Ok(a2) => r is Ok && final(arena).deep_view() == a2,
            Err(e) => r is Err && r->Err_0@ == e,
        },
        r is Ok ==> design_ok(final(arena).deep_view()) && extends(
            final(arena).deep_view(),
            old(arena).deep_view(),
        ) && final(arena)@.len() > old(arena)@.len() && final(arena).deep_view().last().first
            == old(arena)@.len(),
        r is Err ==> explained(lib@, r->Err_0@),
    decreases avail@.len(), 5nat, 0nat,
{
    let hdl = lib.chip_at(h);
    let ports = match resolve_ports(&hdl.ports, env) {
        Ok(p) => p,
        Err(e) => {
            return Err(e);
        },
    };
    let mut inst = Instance {
        name: hdl.name.clone(),
        kind: kind_at(h),
        first: arena.len(),
        ports,
        wires: Vec::new(),
        children: Vec::new(),
        wirings: Vec::new(),
    };
    assert(inst.wires.deep_view() =~= Seq::empty());
    let ghost iv0 = inst.deep_view();
    proof {
        lemma_primitive_ports(env@);
        if h < 2 {
            assert(hdl.deep_view().parts.len() == 0);
            assert(primitive_ok(inst.deep_view()));
        }
    }
    match elaborate_parts(lib, &hdl.parts, env, avail, &mut inst, arena) {
        Ok(()) => {},
        Err(e) => {
            return Err(e);
        },
    }
    if has_conflict(&inst) {
        return Err(N2VError { msg: hdl.name.clone(), kind: ErrorKind::MultipleDrivers });
    }
    proof {
        if h < 2 {
            assert(inst.deep_view() == iv0);
        }
    }
    let ghost before = arena.deep_view();
    let ghost iv = inst.deep_view();
    proof {
        lemma_design_push(before, iv);
        lemma_extends_trans(before.push(iv), before, old(arena).deep_view());
    }
    arena.push(inst);
    assert(arena.deep_view() =~= before.push(iv));
    Ok(())
}


/// The environment of the root chip: each generic declaration, from the
/// `k`-th on, bound to the value at the same position. A declaration without
/// a value is an unbound generic; values beyond the declarations are not
/// looked at.
pub open spec fn root_env(
    decls: Seq<IdentifierView>,
    generics: Seq<usize>,
    k: int,
    acc: Seq<(Seq<char>, usize)>,
) -> Result<Seq<(Seq<char>, usize)>, ErrorView>
    decreases decls.len() - k,
{
    if k < 0 || k >= decls.len() {
        Ok(acc)
    } else if k >= generics.len() {
        Err(fail(ErrorKindView::UnboundGeneric, decls[k].value))
    } else {
        root_env(decls, generics, k + 1, acc.push((decls[k].value, generics[k])))
    }
}

/// The positions `0..n` without the position `j`.
pub open spec fn all_but(n: nat, j: int) -> Seq<usize> {
    Seq::new(n, |i: int| i as usize).remove(j)
}

/// The design that elaborating the chip `name` of the library with the
/// generic values `generics` gives: the instances of its parts, each behind
/// the instances of its own parts, and the chip itself last.
///
/// A library with more chips than a machine word counts is refused.
pub open spec fn spec_elaborate(lib: Seq<ChipView>, name: Seq<char>, generics: Seq<usize>) -> Result<
    Seq<InstanceView>,
    ErrorView,
> {
    match find_chip(lib, name) {
        None => Err(fail(ErrorKindView::UnknownChip, name)),
        Some(j) => if lib.len() > usize::MAX {
            Err(fail(ErrorKindView::Other, name))
        } else {
            match root_env(lib[j].generic_decls, generics, 0, Seq::empty()) {
                Err(e) => Err(e),
                Ok(env) => spec_chip(lib, j, env, all_but(lib.len(), j), Seq::empty()),
            }
        },
    }
}

fn bind_root(decls: &Vec<Identifier>, generics: &Vec<usize>) -> (r: Result<Env, N2VError>)
    ensures
        match root_env(decls.deep_view(), generics@, 0, Seq::empty()) {
            Ok(v) => r is Ok && r->Ok_0@ == v,
            Err(e) => r is Err && r->Err_0@ == e,
        },
        r is Err ==> wiring_kind(r->Err_0@.kind),
{
    let mut res = Env::new();
    let mut k: usize = 0;
    while k < decls.len()
        invariant
            k <= decls@.len(),
            root_env(decls.deep_view(), generics@, k as int, res@) == root_env(
                decls.deep_view(),
                generics@,
                0,
                Seq::empty(),
            ),
        decreases decls@.len() - k,
    {
        assert(decls.deep_view()[k as int] == decls@[k as int].deep_view());
        if k >= generics.len() {
            return Err(N2VError { msg: decls[k].value.clone(), kind: ErrorKind::UnboundGeneric });
        }
        res.bind(decls[k].value.clone(), generics[k]);
        k = k + 1;
    }
    Ok(res)
}

fn indices_but(n: usize, j: usize) -> (v: Vec<usize>)
    requires
        j < n,
    ensures
        v@ == all_but(n as nat, j as int),
{
    let mut v: Vec<usize> = Vec::new();
    let mut i: usize = 0;
    while i < n
        invariant
            i <= n,
            v@.len() == i,
            forall|x: int| 0 <= x < i ==> v@[x] == x,
        decreases n - i,
    {
        v.push(i);
        i = i + 1;
    }
    assert(v@ =~= Seq::new(n as nat, |i: int| i as usize));
    let _j = v.remove(j);
    v
}

/// An elaborated chip: its instances, each part before the chip that holds
/// it, and the chip itself last.
pub struct Chip {
    instances: Vec<Instance>,
}

impl View for Chip {
    type V = Seq<InstanceView>;

    closed spec fn view(&self) -> Seq<InstanceView> {
        self.instances.deep_view()
    }
}

impl Chip {
    #[verifier::type_invariant]
    spec fn inv(&self) -> bool {
        design_ok(self.instances.deep_view()) && self.instances@.len() >= 1
    }

    /// Elaborates the chip `name` of `library`, with `generics` as the
    /// values of its generic declarations, by position.
    ///
    /// The design that comes out is sound: every mapping binds slices that
    /// are equally wide and lie within their signals, every port is at least
    /// one bit wide, no bit has two drivers, and the instances without parts
    /// of their own that the chips NAND and DFF gave are the primitives as
    /// they are built in. Elaboration fails with the kinds of error that
    /// `explained` lists, and a chip that it reports as unknown is one that
    /// the library does not have.
    pub fn new(library: &Library, name: &str, generics: &Vec<usize>) -> (r: Result<Chip, N2VError>)
        ensures
            match spec_elaborate(library@, name@, generics@) {
                Ok(design) => r is Ok && r->Ok_0@ == design,
                Err(e) => r is Err && r->Err_0@ == e,
            },
            r is Ok ==> design_ok(r->Ok_0@) && r->Ok_0@.len() >= 1,
            r is Err ==> explained(library@, r->Err_0@) || r->Err_0@.kind is Other,
    {
        let owned = String::from_str(name);
        let j = match library.find(&owned) {
            Some(j) => j,
            None => {
                return Err(N2VError { msg: owned, kind: ErrorKind::UnknownChip });
            },
        };
        let n = match library.len() {
            Some(n) => n,
            None => {
                return Err(N2VError { msg: owned, kind: ErrorKind::Other });
            },
        };
        let env = match bind_root(&library.chip_at(j).generic_decls, generics) {
            Ok(env) => env,
            Err(e) => {
                return Err(e);
            },
        };
        let avail = indices_but(n, j);
        let mut arena: Vec<Instance> = Vec::new();
        assert(arena.deep_view() =~= Seq::empty());
        match elaborate_chip(library, j, &env, &avail, &mut arena) {
            Ok(()) => Ok(Chip { instances: arena }),
            Err(e) => Err(e),
        }
    }

    /// The instances of the design.
    pub fn instances(&self) -> (v: &Vec<Instance>)
        ensures
            v.deep_view() == self@,
            design_ok(self@),
            self@.len() >= 1,
    {
        proof {
            use_type_invariant(self);
        }
        &self.instances
    }

    /// The chip that was elaborated: the last instance.
    pub fn root(&self) -> (inst: &Instance)
        ensures
            self@.len() >= 1,
            inst.deep_view() == self@.last(),
    {
        proof {
            use_type_invariant(self);
        }
        let n = self.instances.len();
        assert(self.instances.deep_view()[n - 1] == self.instances@[n - 1].deep_view());
        &self.instances[n - 1]
    }

    /// The ports of the chip that was elaborated.
    pub fn ports(&self) -> (ports: &Vec<Port>)
        ensures
            self@.len() >= 1,
            ports.deep_view() == self@.last().ports,
    {
        &self.root().ports
    }

    /// The port `name` of the chip that was elaborated.
    pub fn port(&self, name: &str) -> (r: Option<&Port>)
        ensures
            self@.len() >= 1,
            match r {
                Some(p) => exists|i: int|
                    port_position(self@.last().ports, name@, 0) == Some(i) && p.deep_view()
                        == self@.last().ports[i],
                None => port_position(self@.last().ports, name@, 0) is None,
            },
    {
        let owned = String::from_str(name);
        let ports = self.ports();
        match find_port(ports, &owned) {
            Some(i) => {
                assert(ports.deep_view()[i as int] == ports@[i as int].deep_view());
                Some(&ports[i])
            },
            None => None,
        }
    }
}

} // verus!
