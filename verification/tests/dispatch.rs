use c3_lang_linearization::{Id, PathStack, C3};

fn ids(names: Vec<&str>) -> Vec<Id> {
    let mut out: Vec<Id> = Vec::new();
    for n in names {
        out.push(Id::from(n));
    }
    out
}

#[test]
fn test_dispatch_chain_skips_silent_classes() {
    let mut c3 = C3::new();
    c3.add_class_str("D", "D, B, C, A");
    c3.register_fn_str("B", "f");
    c3.register_fn_str("A", "f");
    c3.register_fn_str("C", "g");

    let chain = c3.dispatch_chain(&Id::from("D"), &Id::from("f")).unwrap();
    assert_eq!(chain, ids(vec!["B", "A"]));

    let chain_g = c3.dispatch_chain(&Id::from("D"), &Id::from("g")).unwrap();
    assert_eq!(chain_g, ids(vec!["C"]));

    let chain_none = c3.dispatch_chain(&Id::from("D"), &Id::from("h")).unwrap();
    assert_eq!(chain_none, ids(vec![]));
}

#[test]
fn test_dispatch_chain_unknown_class() {
    let c3 = C3::new();
    assert!(c3.dispatch_chain(&Id::from("X"), &Id::from("f")).is_err());
}

#[test]
fn test_path_stack_walks_most_derived_first() {
    // the stack holds each context most general first, so the next
    // implementation to run is popped from the end
    let mut stack = PathStack::new();
    let path = ids(vec!["A", "C", "B", "D"]);
    stack.push_path_on_stack(&path);
    assert_eq!(stack.pop_from_top_path().to_string(), "D");
    assert_eq!(stack.pop_from_top_path().to_string(), "B");
    assert_eq!(stack.pop_from_top_path().to_string(), "C");
    assert_eq!(stack.pop_from_top_path().to_string(), "A");
    stack.drop_one_from_stack();
    assert_eq!(stack.depth(), 0);
}

#[test]
fn test_path_stack_reentrancy() {
    // an inner traversal of the same path must not disturb the outer one
    let mut stack = PathStack::new();
    let path = ids(vec!["A", "B", "D"]);
    stack.push_path_on_stack(&path);
    assert_eq!(stack.pop_from_top_path().to_string(), "D");

    // re-entrant call: fresh context on top, advanced twice, then dropped
    stack.push_path_on_stack(&path);
    assert_eq!(stack.depth(), 2);
    assert_eq!(stack.pop_from_top_path().to_string(), "D");
    assert_eq!(stack.pop_from_top_path().to_string(), "B");
    stack.drop_one_from_stack();

    // the outer traversal continues exactly where it stopped
    assert_eq!(stack.depth(), 1);
    assert_eq!(stack.pop_from_top_path().to_string(), "B");
    assert_eq!(stack.pop_from_top_path().to_string(), "A");
    stack.drop_one_from_stack();
    assert_eq!(stack.depth(), 0);
}
