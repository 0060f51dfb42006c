use n2v::busmap::{Bus, BusMap};
use n2v::error::ErrorKind;

fn bits(s: &str) -> Vec<Option<bool>> {
    s.chars()
        .map(|c| match c {
            '0' => Some(false),
            '1' => Some(true),
            _ => None,
        })
        .collect()
}

#[test]
fn a_new_bus_is_undriven() {
    let mut m = BusMap::new();
    assert!(m.get("a").is_none());
    m.create_bus("a", 3).unwrap();
    assert_eq!(m.get("a").unwrap(), &bits("---"));
    assert_eq!(m.read(&Bus::whole("a")).unwrap(), bits("---"));
    let e = m.create_bus("z", 0).unwrap_err();
    assert!(matches!(e.kind, ErrorKind::InvalidWidth));
    assert!(m.get("z").is_none());
}

#[test]
fn creating_a_bus_again_replaces_it() {
    let mut m = BusMap::new();
    m.create_bus("a", 2).unwrap();
    m.insert_option(&Bus::whole("a"), bits("10")).unwrap();
    m.create_bus("a", 4).unwrap();
    assert_eq!(m.get("a").unwrap(), &bits("----"));
    assert_eq!(m.buses.len(), 1);
}

#[test]
fn insert_writes_a_slice() {
    let mut m = BusMap::new();
    m.create_bus("a", 4).unwrap();
    m.insert_option(&Bus::slice("a", 1, 3), bits("10")).unwrap();
    assert_eq!(m.get("a").unwrap(), &bits("-10-"));
    m.insert_option(&Bus::slice("a", 0, 1), bits("1")).unwrap();
    assert_eq!(m.get("a").unwrap(), &bits("110-"));
    m.insert_option(&Bus::whole("a"), bits("0-01")).unwrap();
    assert_eq!(m.get("a").unwrap(), &bits("0-01"));
    // bit i has the weight 2^i
    assert_eq!(m.read(&Bus::slice("a", 3, 4)).unwrap(), bits("1"));
    assert_eq!(m.read(&Bus::slice("a", 2, 2)).unwrap(), bits(""));
}

#[test]
fn writes_outside_the_bus_fail_and_change_nothing() {
    let mut m = BusMap::new();
    m.create_bus("a", 4).unwrap();
    m.insert_option(&Bus::whole("a"), bits("0101")).unwrap();
    let cases = [
        (Bus::slice("a", 3, 5), bits("11")),
        (Bus::slice("a", 0, 2), bits("111")),
        (Bus::slice("a", 2, 1), bits("")),
        (Bus::whole("a"), bits("111")),
    ];
    for (bus, values) in cases {
        let e = m.insert_option(&bus, values).unwrap_err();
        assert!(matches!(e.kind, ErrorKind::WidthMismatch));
        assert_eq!(e.msg, "a");
        assert_eq!(m.get("a").unwrap(), &bits("0101"));
    }
    let e = m.insert_option(&Bus::whole("b"), bits("1")).unwrap_err();
    assert!(matches!(e.kind, ErrorKind::UnknownPort));
    assert!(matches!(m.read(&Bus::whole("b")).unwrap_err().kind, ErrorKind::UnknownPort));
    assert!(matches!(m.read(&Bus::slice("a", 2, 9)).unwrap_err().kind, ErrorKind::WidthMismatch));
}

fn map(buses: &[(&str, &str)]) -> BusMap {
    let mut m = BusMap::new();
    for (name, value) in buses {
        m.put(name, bits(value));
    }
    m
}

#[test]
fn partial_le_compares_driven_bits_only() {
    let outputs = map(&[("a", "01"), ("out", "110")]);
    assert!(map(&[]).partial_le(&outputs));
    assert!(map(&[("out", "110")]).partial_le(&outputs));
    assert!(map(&[("out", "1-0"), ("a", "--")]).partial_le(&outputs));
    assert!(outputs.partial_le(&outputs));
    // a driven bit with another value
    assert!(!map(&[("out", "100")]).partial_le(&outputs));
    // an expected bit that the other map leaves undriven
    assert!(!outputs.partial_le(&map(&[("a", "01"), ("out", "1-0")])));
    // an expected bus that the other map does not have
    assert!(!map(&[("b", "1")]).partial_le(&outputs));
    // nothing is expected of a bus without driven bits, even where it is missing
    assert!(map(&[("b", "--")]).partial_le(&outputs));
    // an expected bit beyond the end of the other bus
    assert!(!map(&[("a", "011")]).partial_le(&outputs));
    assert!(map(&[("a", "01-")]).partial_le(&outputs));
}

#[test]
fn put_sets_a_bus() {
    let mut m = map(&[("a", "01")]);
    m.put("a", bits("1"));
    m.put("b", bits(""));
    assert_eq!(m.get("a").unwrap(), &bits("1"));
    assert_eq!(m.get("b").unwrap(), &bits(""));
}
