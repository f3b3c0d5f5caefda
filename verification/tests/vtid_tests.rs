use vtid::counter::advance_counter;
use vtid::{vtid, HasVtid, TypeToken, Vtid};

struct Red;

struct Blue;

impl HasVtid for Red {
    fn vtid() -> Vtid {
        vtid(TypeToken::new(1), 7)
    }
}

impl HasVtid for Blue {
    fn vtid() -> Vtid {
        vtid(TypeToken::new(2), 7)
    }
}

#[test]
fn same_type_same_process_equal_identifiers() {
    let a = Vtid::of::<Red>();
    let b = Vtid::of::<Red>();
    assert_eq!(a, b);
}

#[test]
fn distinct_types_distinct_identifiers() {
    // Both types share the base value 7: only the token tells them apart.
    let a = Vtid::of::<Red>();
    let b = Vtid::of::<Blue>();
    assert_ne!(a, b);
}

#[test]
fn recompilation_changes_the_identifier() {
    // Two simulated compilations: each advances the counter once, and each
    // build stamps the same type's token with its own base value.
    let (base1, text) = advance_counter(b"41", 0);
    let (base2, _) = advance_counter(&text, 0);
    let token = TypeToken::new(1);
    assert_ne!(base1, base2);
    assert_ne!(vtid(token, base1), vtid(token, base2));
}

#[test]
fn restart_without_counter_advance_keeps_the_identifier() {
    // Two simulated process runs: the counter file was not advanced in
    // between, so both runs read the same base value and rebuild the same
    // identifier from the same token.
    let first_run = vtid(TypeToken::new(1), 42);
    let second_run = vtid(TypeToken::new(1), 42);
    assert_eq!(first_run, second_run);
}

#[test]
fn identifiers_are_copyable_and_hashable() {
    let id = vtid(TypeToken::new(5), 9);
    let copy = id;
    assert_eq!(id, copy);
    let mut set = std::collections::HashSet::new();
    assert!(set.insert(id));
    assert!(!set.insert(copy));
    assert!(set.insert(vtid(TypeToken::new(5), 10)));
}

#[test]
fn identifiers_order_totally() {
    let a = vtid(TypeToken::new(1), 7);
    let b = vtid(TypeToken::new(2), 7);
    assert!(a < b || b < a);
    assert!(!(a < a));
}

#[test]
fn debug_form_renders_both_fields() {
    let id = vtid(TypeToken::new(9), 3);
    let rendered = format!("{:?}", id);
    assert!(rendered.contains("9"));
    assert!(rendered.contains("3"));
}
