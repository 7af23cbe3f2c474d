use symbolique::table::{Symbol, Table};

fn names(list: &[&str]) -> Vec<String> {
    list.iter().map(|s| s.to_string()).collect()
}

#[test]
fn handle_order_matches_declaration() {
    let mut t = Table::new(&names(&["red", "green", "blue"]));
    let red = t.intern("red");
    let green = t.intern("green");
    let blue = t.intern("blue");
    assert_eq!(red.raw(), 1);
    assert_eq!(green.raw(), 2);
    assert_eq!(blue.raw(), 3);
    assert!(red < green);
    assert!(green < blue);
}

#[test]
fn round_trip_declared_name() {
    let mut t = Table::new(&names(&["north", "south"]));
    let sym = t.intern("south");
    assert_eq!(t.resolve(sym), "south");
}

#[test]
fn round_trip_new_string() {
    let mut t = Table::new(&names(&["north"]));
    let sym = t.intern("zenith");
    assert_eq!(sym.raw(), 2);
    assert_eq!(t.resolve(sym), "zenith");
}

#[test]
fn intern_is_idempotent() {
    let mut t = Table::new(&names(&["a", "b"]));
    let first = t.intern("c");
    let len_after_first = t.len();
    let second = t.intern("c");
    assert_eq!(first, second);
    assert_eq!(t.len(), len_after_first);
}

#[test]
fn intern_known_string_keeps_table() {
    let mut t = Table::new(&names(&["a", "b", "c"]));
    assert_eq!(t.len(), 3);
    let b = t.intern("b");
    assert_eq!(b.raw(), 2);
    assert_eq!(t.len(), 3);
}

#[test]
fn from_raw_matches_interned_handle() {
    let mut t = Table::new(&names(&["one", "two"]));
    let sym = Symbol::from_raw(2);
    assert_eq!(t.resolve(sym), "two");
    assert_eq!(t.intern("two"), sym);
}

#[test]
fn symbols_are_copied_by_handle() {
    let mut t = Table::new(&names(&["x"]));
    let a = t.intern("x");
    let b = a;
    assert_eq!(a, b);
    assert_eq!(b.raw(), 1);
}

#[test]
fn empty_declaration_list() {
    let mut t = Table::new(&Vec::new());
    assert_eq!(t.len(), 0);
    let s = t.intern("first");
    assert_eq!(s.raw(), 1);
    assert_eq!(t.resolve(s), "first");
}
