use windowing::focus_order::{focus_order, FocusEntry};

fn entry(name: &str, owned: bool, id: u64) -> FocusEntry {
    FocusEntry { name: String::from(name), viewport_owned: owned, viewport_id: id }
}

#[test]
fn empty_stack_emits_nothing() {
    let mut order = focus_order(Vec::new());
    assert_eq!(order.size_hint(), (0, Some(0)));
    assert!(order.next().is_none());
    assert!(order.next().is_none());
}

#[test]
fn emits_only_viewport_owning_entries_in_stack_order() {
    let stack = vec![
        entry("main", true, 1),
        entry("child panel", false, 0),
        entry("tools", true, 4),
        entry("overlay", false, 0),
        entry("log", true, 9),
    ];
    let mut order = focus_order(stack);
    assert_eq!(order.next(), Some((String::from("main"), 1)));
    assert_eq!(order.next(), Some((String::from("tools"), 4)));
    assert_eq!(order.next(), Some((String::from("log"), 9)));
    assert_eq!(order.next(), None);
    assert_eq!(order.next(), None);
}

#[test]
fn all_unowned_stack_emits_nothing() {
    let stack = vec![entry("a", false, 0), entry("b", false, 0)];
    let mut order = focus_order(stack);
    assert!(order.next().is_none());
}

#[test]
fn size_hint_shrinks_as_the_walk_advances() {
    let stack = vec![entry("a", false, 0), entry("b", true, 2)];
    let mut order = focus_order(stack);
    assert_eq!(order.size_hint(), (0, Some(2)));
    assert_eq!(order.next(), Some((String::from("b"), 2)));
    assert_eq!(order.size_hint(), (0, Some(0)));
}
