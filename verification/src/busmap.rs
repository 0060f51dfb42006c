//! The bus map: a namespace of named bit vectors whose bits may be undriven.
//!
//! Bit `i` of a bus has the weight 2^i: the least significant bit comes first.

use crate::error::{ErrorKind, ErrorKindView, N2VError};
use std::ops::Range;
use vstd::prelude::*;
use vstd::string::*;

verus! {

/// A bit: driven to a value, or `None` while undriven.
pub type Bit = Option<bool>;

/// A reference to a bus or to a slice of one: the bits `range.start` up to,
/// not including, `range.end`. Without a range it is the whole bus.
#[derive(Clone, Debug, PartialEq, Eq)]
pub struct Bus {
    pub name: String,
    pub range: Option<Range<usize>>,
}

impl Bus {
    /// The whole bus `name`.
    pub fn whole(name: &str) -> (bus: Bus)
        ensures
            bus.name@ == name@,
            bus.range is None,
    {
        Bus { name: String::from_str(name), range: None }
    }

    /// The bits `start..end` of the bus `name`.
    pub fn slice(name: &str, start: usize, end: usize) -> (bus: Bus)
        ensures
            bus.name@ == name@,
            bus.range == Some(start..end),
    {
        Bus { name: String::from_str(name), range: Some(start..end) }
    }
}

/// One bus of a bus map.
#[derive(Debug)]
pub struct Signal {
    pub name: String,
    pub bits: Vec<Bit>,
}

/// Named buses. Where a name occurs twice, the later entry is the bus.
#[derive(Debug)]
pub struct BusMap {
    pub buses: Vec<Signal>,
}

/// The map that a list of named buses stands for.
pub open spec fn to_map(entries: Seq<(Seq<char>, Seq<Bit>)>) -> Map<Seq<char>, Seq<Bit>>
    decreases entries.len(),
{
    if entries.len() == 0 {
        Map::empty()
    } else {
        to_map(entries.drop_last()).insert(entries.last().0, entries.last().1)
    }
}

/// `width` undriven bits.
pub open spec fn undriven(width: nat) -> Seq<Bit> {
    Seq::new(width, |i: int| None::<bool>)
}

/// The bits `start..end` of `bits` replaced by `values`.
pub open spec fn spliced(bits: Seq<Bit>, start: int, end: int, values: Seq<Bit>) -> Seq<Bit> {
    bits.subrange(0, start) + values + bits.subrange(end, bits.len() as int)
}

/// Every driven bit of `a` is driven to the same value in `b`.
pub open spec fn bits_le(a: Seq<Bit>, b: Seq<Bit>) -> bool {
    forall|j: int| 0 <= j < a.len() && (#[trigger] a[j]) is Some ==> j < b.len() && b[j] == a[j]
}

/// Every driven bit of every bus of `a` is driven to the same value in the
/// bus of that name in `b`. A bus without driven bits asks nothing of `b`.
pub open spec fn maps_le(a: Map<Seq<char>, Seq<Bit>>, b: Map<Seq<char>, Seq<Bit>>) -> bool {
    forall|n: Seq<char>| #[trigger]
        a.dom().contains(n) ==> bits_le(
            a[n],
            if b.dom().contains(n) {
                b[n]
            } else {
                Seq::empty()
            },
        )
}

/// The first and the last-plus-one bit that `range` selects of a bus of
/// `len` bits.
pub open spec fn bounds(range: Option<Range<usize>>, len: nat) -> (int, int) {
    match range {
        Some(r) => (r.start as int, r.end as int),
        None => (0, len as int),
    }
}

/// The error of kind `kind` that names the bus `name`.
pub open spec fn bus_error(kind: ErrorKindView, name: Seq<char>) -> crate::error::ErrorView {
    crate::error::ErrorView { msg: name, kind }
}

/// Where `name` is the last entry of that name at `i`, the map holds its bits.
proof fn lemma_to_map_last(entries: Seq<(Seq<char>, Seq<Bit>)>, name: Seq<char>, i: int)
    requires
        0 <= i < entries.len(),
        entries[i].0 == name,
        forall|j: int| i < j < entries.len() ==> (#[trigger] entries[j]).0 != name,
    ensures
        to_map(entries).dom().contains(name),
        to_map(entries)[name] == entries[i].1,
    decreases entries.len(),
{
    if i < entries.len() - 1 {
        lemma_to_map_last(entries.drop_last(), name, i);
    }
}

/// The map holds a name only where an entry has it.
proof fn lemma_to_map_dom(entries: Seq<(Seq<char>, Seq<Bit>)>, name: Seq<char>)
    ensures
        to_map(entries).dom().contains(name) <==> exists|j: int|
            0 <= j < entries.len() && (#[trigger] entries[j]).0 == name,
    decreases entries.len(),
{
    if entries.len() > 0 {
        lemma_to_map_dom(entries.drop_last(), name);
        if to_map(entries).dom().contains(name) {
            if entries.last().0 == name {
                assert(entries[entries.len() - 1].0 == name);
            } else {
                let j = choose|j: int|
                    0 <= j < entries.drop_last().len() && (#[trigger] entries.drop_last()[j]).0
                        == name;
                assert(entries[j].0 == name);
            }
        }
        if exists|j: int| 0 <= j < entries.len() && (#[trigger] entries[j]).0 == name {
            let j = choose|j: int| 0 <= j < entries.len() && (#[trigger] entries[j]).0 == name;
            if j < entries.len() - 1 {
                assert(entries.drop_last()[j].0 == name);
            }
        }
    }
}

/// Replacing the bits of the last entry of a name replaces the bus of that name.
proof fn lemma_to_map_update(
    entries: Seq<(Seq<char>, Seq<Bit>)>,
    name: Seq<char>,
    i: int,
    bits: Seq<Bit>,
)
    requires
        0 <= i < entries.len(),
        entries[i].0 == name,
        forall|j: int| i < j < entries.len() ==> (#[trigger] entries[j]).0 != name,
    ensures
        to_map(entries.update(i, (name, bits))) == to_map(entries).insert(name, bits),
    decreases entries.len(),
{
    let updated = entries.update(i, (name, bits));
    if i < entries.len() - 1 {
        lemma_to_map_update(entries.drop_last(), name, i, bits);
        assert(updated.drop_last() =~= entries.drop_last().update(i, (name, bits)));
        assert(updated.last() == entries.last());
        assert(entries[entries.len() - 1].0 != name);
        assert(to_map(updated) =~= to_map(entries).insert(name, bits));
    } else {
        assert(updated.drop_last() =~= entries.drop_last());
        assert(to_map(updated) =~= to_map(entries).insert(name, bits));
    }
}

impl BusMap {
    /// The buses as a list of names and bits.
    pub open spec fn entries(&self) -> Seq<(Seq<char>, Seq<Bit>)> {
        Seq::new(self.buses@.len(), |i: int| (self.buses@[i].name@, self.buses@[i].bits@))
    }
}

impl View for BusMap {
    type V = Map<Seq<char>, Seq<Bit>>;

    open spec fn view(&self) -> Map<Seq<char>, Seq<Bit>> {
        to_map(self.entries())
    }
}

/// `width` undriven bits.
pub fn undriven_bits(width: usize) -> (bits: Vec<Bit>)
    ensures
        bits@ == undriven(width as nat),
{
    let mut bits: Vec<Bit> = Vec::new();
    let mut i: usize = 0;
    while i < width
        invariant
            i <= width,
            bits@.len() == i,
            forall|j: int| 0 <= j < i ==> bits@[j] is None,
        decreases width - i,
    {
        bits.push(None);
        i = i + 1;
    }
    assert(bits@ =~= undriven(width as nat));
    bits
}

/// A copy of `bits`.
pub fn copy_bits(bits: &Vec<Bit>) -> (copy: Vec<Bit>)
    ensures
        copy@ == bits@,
{
    let mut copy: Vec<Bit> = Vec::new();
    let mut i: usize = 0;
    while i < bits.len()
        invariant
            i <= bits@.len(),
            copy@ == bits@.subrange(0, i as int),
        decreases bits@.len() - i,
    {
        copy.push(bits[i]);
        i = i + 1;
        assert(copy@ =~= bits@.subrange(0, i as int));
    }
    assert(bits@.subrange(0, bits@.len() as int) =~= bits@);
    copy
}

impl BusMap {
    /// The map without buses.
    pub fn new() -> (m: BusMap)
        ensures
            m@ == Map::<Seq<char>, Seq<Bit>>::empty(),
    {
        let m = BusMap { buses: Vec::new() };
        assert(m.entries() =~= Seq::empty());
        m
    }

    /// The index of the bus `name`.
    fn find(&self, name: &String) -> (r: Option<usize>)
        ensures
            match r {
                Some(i) => {
                    &&& i < self.buses@.len()
                    &&& self.buses@[i as int].name@ == name@
                    &&& forall|j: int|
                        i < j < self.buses@.len() ==> (#[trigger] self.entries()[j]).0 != name@
                    &&& self@.dom().contains(name@)
                    &&& self@[name@] == self.buses@[i as int].bits@
                },
                None => !self@.dom().contains(name@),
            },
    {
        let mut i: usize = self.buses.len();
        while i > 0
            invariant
                i <= self.buses@.len(),
                forall|j: int| i <= j < self.buses@.len() ==> (#[trigger] self.entries()[j]).0 != name@,
            decreases i,
        {
            i = i - 1;
            if self.buses[i].name == *name {
                proof {
                    lemma_to_map_last(self.entries(), name@, i as int);
                }
                return Some(i);
            }
        }
        proof {
            lemma_to_map_dom(self.entries(), name@);
        }
        None
    }

    /// Declares the bus `name` with `width` undriven bits. A bus of that name
    /// that was there before is replaced. A bus has at least one bit.
    pub fn create_bus(&mut self, name: &str, width: usize) -> (r: Result<(), N2VError>)
        ensures
            width == 0 ==> r is Err && r->Err_0@ == bus_error(ErrorKindView::InvalidWidth, name@)
                && final(self)@ == old(self)@,
            width > 0 ==> r is Ok && final(self)@ == old(self)@.insert(
                name@,
                undriven(width as nat),
            ),
    {
        if width == 0 {
            return Err(N2VError { msg: String::from_str(name), kind: ErrorKind::InvalidWidth });
        }
        let owned = String::from_str(name);
        let bits = undriven_bits(width);
        let signal = Signal { name: owned.clone(), bits };
        match self.find(&owned) {
            Some(i) => {
                proof {
                    lemma_to_map_update(old(self).entries(), name@, i as int, signal.bits@);
                }
                self.buses.set(i, signal);
                assert(self.entries() =~= old(self).entries().update(
                    i as int,
                    (name@, signal.bits@),
                ));
            },
            None => {
                self.buses.push(signal);
                assert(self.entries().drop_last() =~= old(self).entries());
            },
        }
        Ok(())
    }

    /// Sets the bus `name` to `bits`, whether or not the map had it.
    pub fn put(&mut self, name: &str, bits: Vec<Bit>)
        ensures
            final(self)@ == old(self)@.insert(name@, bits@),
    {
        let owned = String::from_str(name);
        let signal = Signal { name: owned.clone(), bits };
        match self.find(&owned) {
            Some(i) => {
                proof {
                    lemma_to_map_update(old(self).entries(), name@, i as int, signal.bits@);
                }
                self.buses.set(i, signal);
                assert(self.entries() =~= old(self).entries().update(
                    i as int,
                    (name@, signal.bits@),
                ));
            },
            None => {
                self.buses.push(signal);
                assert(self.entries().drop_last() =~= old(self).entries());
            },
        }
    }

    /// The bits of the bus `name`, where the map has it.
    pub fn get(&self, name: &str) -> (r: Option<&Vec<Bit>>)
        ensures
            r is Some <==> self@.dom().contains(name@),
            r is Some ==> r->Some_0@ == self@[name@],
    {
        let owned = String::from_str(name);
        match self.find(&owned) {
            Some(i) => Some(&self.buses[i].bits),
            None => None,
        }
    }

    /// Writes `values` to the bits that `bus` selects. Fails with
    /// `UnknownPort` where the map has no bus of that name, and with
    /// `WidthMismatch` where the range does not lie within the bus or does
    /// not hold as many bits as `values`. A failed write changes nothing.
    pub fn insert_option(&mut self, bus: &Bus, values: Vec<Bit>) -> (r: Result<(), N2VError>)
        ensures
            !old(self)@.dom().contains(bus.name@) ==> r is Err && r->Err_0@ == bus_error(
                ErrorKindView::UnknownPort,
                bus.name@,
            ) && final(self)@ == old(self)@,
            old(self)@.dom().contains(bus.name@) ==> ({
                let bits = old(self)@[bus.name@];
                let (start, end) = bounds(bus.range, bits.len());
                if start <= end <= bits.len() && values@.len() == end - start {
                    r is Ok && final(self)@ == old(self)@.insert(
                        bus.name@,
                        spliced(bits, start, end, values@),
                    )
                } else {
                    r is Err && r->Err_0@ == bus_error(ErrorKindView::WidthMismatch, bus.name@)
                        && final(self)@ == old(self)@
                }
            }),
    {
        let i = match self.find(&bus.name) {
            Some(i) => i,
            None => {
                return Err(N2VError { msg: bus.name.clone(), kind: ErrorKind::UnknownPort });
            },
        };
        let len = self.buses[i].bits.len();
        let (start, end) = match &bus.range {
            Some(r) => (r.start, r.end),
            None => (0, len),
        };
        if !(start <= end && end <= len && values.len() == end - start) {
            return Err(N2VError { msg: bus.name.clone(), kind: ErrorKind::WidthMismatch });
        }
        let mut bits: Vec<Bit> = Vec::new();
        let mut j: usize = 0;
        while j < len
            invariant
                j <= len,
                i < self.buses@.len(),
                len == self.buses@[i as int].bits@.len(),
                start <= end <= len,
                values@.len() == end - start,
                bits@.len() == j,
                forall|k: int|
                    0 <= k < j ==> bits@[k] == spliced(
                        self.buses@[i as int].bits@,
                        start as int,
                        end as int,
                        values@,
                    )[k],
            decreases len - j,
        {
            if start <= j && j < end {
                bits.push(values[j - start]);
            } else {
                bits.push(self.buses[i].bits[j]);
            }
            j = j + 1;
        }
        assert(bits@ =~= spliced(old(self).buses@[i as int].bits@, start as int, end as int, values@));
        let signal = Signal { name: bus.name.clone(), bits };
        proof {
            lemma_to_map_update(old(self).entries(), bus.name@, i as int, signal.bits@);
        }
        self.buses.set(i, signal);
        assert(self.entries() =~= old(self).entries().update(
            i as int,
            (bus.name@, signal.bits@),
        ));
        Ok(())
    }

    /// The bits that `bus` selects. Fails as `insert_option` does.
    pub fn read(&self, bus: &Bus) -> (r: Result<Vec<Bit>, N2VError>)
        ensures
            !self@.dom().contains(bus.name@) ==> r is Err && r->Err_0@ == bus_error(
                ErrorKindView::UnknownPort,
                bus.name@,
            ),
            self@.dom().contains(bus.name@) ==> ({
                let bits = self@[bus.name@];
                let (start, end) = bounds(bus.range, bits.len());
                if start <= end <= bits.len() {
                    r is Ok && r->Ok_0@ == bits.subrange(start, end)
                } else {
                    r is Err && r->Err_0@ == bus_error(ErrorKindView::WidthMismatch, bus.name@)
                }
            }),
    {
        let i = match self.find(&bus.name) {
            Some(i) => i,
            None => {
                return Err(N2VError { msg: bus.name.clone(), kind: ErrorKind::UnknownPort });
            },
        };
        let len = self.buses[i].bits.len();
        let (start, end) = match &bus.range {
            Some(r) => (r.start, r.end),
            None => (0, len),
        };
        if !(start <= end && end <= len) {
            return Err(N2VError { msg: bus.name.clone(), kind: ErrorKind::WidthMismatch });
        }
        let mut bits: Vec<Bit> = Vec::new();
        let mut j: usize = start;
        while j < end
            invariant
                start <= j <= end <= len,
                i < self.buses@.len(),
                len == self.buses@[i as int].bits@.len(),
                bits@ == self.buses@[i as int].bits@.subrange(start as int, j as int),
            decreases end - j,
        {
            bits.push(self.buses[i].bits[j]);
            j = j + 1;
            assert(bits@ =~= self.buses@[i as int].bits@.subrange(start as int, j as int));
        }
        Ok(bits)
    }

    /// Whether every driven bit of this map is driven to the same value in
    /// `other`. An undriven bit of this map matches any bit, and a driven bit
    /// is not matched by an undriven or missing one.
    pub fn partial_le(&self, other: &BusMap) -> (r: bool)
        ensures
            r == maps_le(self@, other@),
    {
        let mut i: usize = 0;
        while i < self.buses.len()
            invariant
                i <= self.buses@.len(),
                forall|k: int|
                    0 <= k < i && (forall|j: int|
                        k < j < self.buses@.len() ==> (#[trigger] self.entries()[j]).0
                            != self.entries()[k].0) ==> bits_le(
                        (#[trigger] self.entries()[k]).1,
                        if other@.dom().contains(self.entries()[k].0) {
                            other@[self.entries()[k].0]
                        } else {
                            Seq::empty()
                        },
                    ),
            decreases self.buses@.len() - i,
        {
            let name = &self.buses[i].name;
            assert(self.entries()[i as int] == (name@, self.buses@[i as int].bits@));
            let live = match self.find(name) {
                Some(k) => {
                    assert(self.entries()[k as int].0 == name@);
                    k == i
                },
                None => {
                    proof {
                        lemma_to_map_dom(self.entries(), name@);
                    }
                    false
                },
            };
            if live {
                let found = other.find(name);
                let ghost theirs = if other@.dom().contains(name@) {
                    other@[name@]
                } else {
                    Seq::empty()
                };
                let ours = &self.buses[i].bits;
                let mut j: usize = 0;
                while j < ours.len()
                    invariant
                        j <= ours@.len(),
                        i < self.buses@.len(),
                        ours@ == self.buses@[i as int].bits@,
                        name@ == self.buses@[i as int].name@,
                        self@.dom().contains(name@),
                        self@[name@] == ours@,
                        theirs == if other@.dom().contains(name@) {
                            other@[name@]
                        } else {
                            Seq::empty()
                        },
                        match found {
                            Some(k) => k < other.buses@.len() && other.buses@[k as int].bits@
                                == theirs,
                            None => theirs.len() == 0,
                        },
                        forall|k: int|
                            0 <= k < j && (#[trigger] ours@[k]) is Some ==> k < theirs.len()
                                && theirs[k] == ours@[k],
                    decreases ours@.len() - j,
                {
                    match ours[j] {
                        None => {},
                        Some(v) => {
                            let same = match found {
                                Some(k) => j < other.buses[k].bits.len() && match other.buses[k].bits[j] {
                                    Some(w) => v == w,
                                    None => false,
                                },
                                None => false,
                            };
                            if !same {
                                assert(!bits_le(self@[name@], theirs)) by {
                                    assert(ours@[j as int] is Some);
                                }
                                return false;
                            }
                        },
                    }
                    j = j + 1;
                }
                assert(bits_le(ours@, theirs));
            }
            i = i + 1;
        }
        proof {
            assert forall|n: Seq<char>| #[trigger] self@.dom().contains(n) implies bits_le(
                self@[n],
                if other@.dom().contains(n) {
                    other@[n]
                } else {
                    Seq::empty()
                },
            ) by {
                lemma_last_entry(self.entries(), n);
                let k = last_index(self.entries(), n);
                lemma_to_map_last(self.entries(), n, k);
                assert(self.entries()[k].0 == n);
            }
        }
        true
    }
}

/// The last index at which `entries` holds the name `name`.
pub open spec fn last_index(entries: Seq<(Seq<char>, Seq<Bit>)>, name: Seq<char>) -> int
    decreases entries.len(),
{
    if entries.len() == 0 {
        -1
    } else if entries.last().0 == name {
        entries.len() - 1
    } else {
        last_index(entries.drop_last(), name)
    }
}

proof fn lemma_last_entry(entries: Seq<(Seq<char>, Seq<Bit>)>, name: Seq<char>)
    requires
        to_map(entries).dom().contains(name),
    ensures
        0 <= last_index(entries, name) < entries.len(),
        entries[last_index(entries, name)].0 == name,
        forall|j: int|
            last_index(entries, name) < j < entries.len() ==> (#[trigger] entries[j]).0 != name,
    decreases entries.len(),
{
    if entries.len() > 0 && entries.last().0 != name {
        lemma_last_entry(entries.drop_last(), name);
        let k = last_index(entries.drop_last(), name);
        assert forall|j: int| k < j < entries.len() implies (#[trigger] entries[j]).0 != name by {
            if j < entries.len() - 1 {
                assert(entries.drop_last()[j].0 != name);
            }
        }
    }
}


/// Every map agrees with itself.
pub proof fn law_le_reflexive(a: Map<Seq<char>, Seq<Bit>>)
    ensures
        maps_le(a, a),
{
}

/// Where every driven bit of `a` is found in `b`, and every driven bit of
/// `b` in `c`, every driven bit of `a` is found in `c`.
pub proof fn law_le_transitive(
    a: Map<Seq<char>, Seq<Bit>>,
    b: Map<Seq<char>, Seq<Bit>>,
    c: Map<Seq<char>, Seq<Bit>>,
)
    requires
        maps_le(a, b),
        maps_le(b, c),
    ensures
        maps_le(a, c),
{
    assert forall|n: Seq<char>| #[trigger] a.dom().contains(n) implies bits_le(
        a[n],
        if c.dom().contains(n) {
            c[n]
        } else {
            Seq::empty()
        },
    ) by {
        let in_b = if b.dom().contains(n) {
            b[n]
        } else {
            Seq::empty()
        };
        let in_c = if c.dom().contains(n) {
            c[n]
        } else {
            Seq::empty()
        };
        assert(bits_le(a[n], in_b));
        assert forall|j: int| 0 <= j < a[n].len() && (#[trigger] a[n][j]) is Some implies j
            < in_c.len() && in_c[j] == a[n][j] by {
            assert(b.dom().contains(n));
            assert(bits_le(b[n], in_c));
            assert(b[n][j] is Some);
        }
    }
}

/// The bits that were written to a slice are the bits that are read from
/// it, and the bits outside the slice stay as they were.
pub proof fn law_read_back(bits: Seq<Bit>, start: int, end: int, values: Seq<Bit>)
    requires
        0 <= start <= end <= bits.len(),
        values.len() == end - start,
    ensures
        spliced(bits, start, end, values).len() == bits.len(),
        spliced(bits, start, end, values).subrange(start, end) == values,
        spliced(bits, start, end, values).subrange(0, start) == bits.subrange(0, start),
        spliced(bits, start, end, values).subrange(end, bits.len() as int) == bits.subrange(
            end,
            bits.len() as int,
        ),
{
    let after = spliced(bits, start, end, values);
    assert(after.subrange(start, end) =~= values);
    assert(after.subrange(0, start) =~= bits.subrange(0, start));
    assert(after.subrange(end, bits.len() as int) =~= bits.subrange(end, bits.len() as int));
}

} // verus!
