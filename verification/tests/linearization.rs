use c3_lang_linearization::{c3_linearization, merge, C3Error, Id, Sets, C3};

fn ids(names: Vec<&str>) -> Vec<Id> {
    let mut out: Vec<Id> = Vec::new();
    for n in names {
        out.push(Id::from(n));
    }
    out
}

#[test]
fn c3_linearization_test_c3() {
    let mut input = C3::new();
    input.add_class_str("A", "");
    input.add_class_str("B", "A");
    input.add_class_str("C", "A");
    input.add_class_str("D", "B, C");

    let mut target = C3::new();
    target.add_class_str("A", "A");
    target.add_class_str("B", "B, A");
    target.add_class_str("C", "C, A");
    target.add_class_str("D", "D, B, C, A");

    assert_eq!(c3_linearization(input).unwrap(), target);
}

#[test]
fn test_c3_second_example() {
    let mut input = C3::new();
    input.add_class_str("Context", "");
    input.add_class_str("IERC20", "");
    input.add_class_str("IERC20Metadata", "IERC20");
    input.add_class_str("IERC20Errors", "");
    input.add_class_str("ERC20", "Context, IERC20Metadata, IERC20, IERC20Errors");
    input.add_class_str("ERC20Burnable", "ERC20, Context");
    input.add_class_str("ERC20Capped", "ERC20");
    input.add_class_str("Ownable", "Context");
    input.add_class_str("Plascoin", "ERC20Capped, ERC20Burnable, Ownable");

    let mut target = C3::new();
    target.add_class_str("Context", "Context");
    target.add_class_str("IERC20", "IERC20");
    target.add_class_str("IERC20Metadata", "IERC20Metadata, IERC20");
    target.add_class_str("IERC20Errors", "IERC20Errors");
    target.add_class_str(
        "ERC20",
        "ERC20, Context, IERC20Metadata, IERC20, IERC20Errors",
    );
    target.add_class_str(
        "ERC20Burnable",
        "ERC20Burnable, ERC20, Context, IERC20Metadata, IERC20, IERC20Errors",
    );
    target.add_class_str(
        "ERC20Capped",
        "ERC20Capped, ERC20, Context, IERC20Metadata, IERC20, IERC20Errors",
    );
    target.add_class_str("Ownable", "Ownable, Context");
    target.add_class_str("Plascoin", "Plascoin, ERC20Capped, ERC20Burnable, ERC20, Ownable, Context, IERC20Metadata, IERC20, IERC20Errors");

    assert_eq!(c3_linearization(input).unwrap(), target);
}

#[test]
fn test_merge() {
    let head = Id::from("K");
    let mut sets = Sets::new();
    sets.push(ids(vec!["B", "O"])).unwrap();
    sets.push(ids(vec!["A", "O"])).unwrap();
    sets.push(ids(vec!["C", "O"])).unwrap();
    sets.push(ids(vec!["B", "A", "C"])).unwrap();

    let result = merge(&head, sets).unwrap();
    assert_eq!(result, ids(vec!["K", "B", "A", "C", "O"]));
}

#[test]
fn test_merge_2() {
    let head = Id::from("Z");
    let mut sets = Sets::new();
    sets.push(ids(vec!["K1", "C", "B", "A", "O"])).unwrap();
    sets.push(ids(vec!["K3", "A", "D", "O"])).unwrap();
    sets.push(ids(vec!["K2", "B", "D", "E", "O"])).unwrap();
    sets.push(ids(vec!["K1", "K3", "K2"])).unwrap();

    let result = merge(&head, sets).unwrap();
    let expected = ids(vec!["Z", "K1", "C", "K3", "K2", "B", "A", "D", "E", "O"]);
    assert_eq!(result, expected);
}

#[test]
fn test_merge_push_empty_set() {
    let mut sets = Sets::new();
    let err = sets.push(Vec::new()).unwrap_err();
    assert!(matches!(err, C3Error::PushingEmptySet));
}

#[test]
fn test_inconsistent_hierarchy() {
    let mut input = C3::new();
    input.add_class_str("O", "");
    input.add_class_str("A", "O");
    input.add_class_str("B", "O");
    input.add_class_str("K1", "A, B");
    input.add_class_str("K2", "B, A");
    input.add_class_str("Z", "K1, K2");

    let err = c3_linearization(input).unwrap_err();
    assert!(matches!(err, C3Error::NoMoreCandidates));
}

#[test]
fn test_inconsistency_against_computed_path() {
    // K's path fixes A before B before C; M's declared order demands C
    // before B, which no merge can honor
    let mut input = C3::new();
    input.add_class_str("O", "");
    input.add_class_str("A", "O");
    input.add_class_str("B", "O");
    input.add_class_str("C", "O");
    input.add_class_str("K", "A, B, C");
    input.add_class_str("M", "K, C, B");

    let err = c3_linearization(input).unwrap_err();
    assert!(matches!(err, C3Error::NoMoreCandidates));
}

#[test]
fn test_dangling_parent_stalls() {
    let mut input = C3::new();
    input.add_class_str("A", "Missing");
    input.add_class_str("B", "A");

    let err = c3_linearization(input).unwrap_err();
    match err {
        C3Error::NoProgress(names) => assert_eq!(names, vec!["A", "B"]),
        other => panic!("unexpected error {:?}", other),
    }
}

#[test]
fn test_parent_cycle_stalls() {
    let mut input = C3::new();
    input.add_class_str("A", "B");
    input.add_class_str("B", "A");
    input.add_class_str("C", "");

    let err = c3_linearization(input).unwrap_err();
    match err {
        C3Error::NoProgress(names) => assert_eq!(names, vec!["A", "B"]),
        other => panic!("unexpected error {:?}", other),
    }
}

#[test]
fn test_linearization_idempotent() {
    let build = || {
        let mut input = C3::new();
        input.add_class_str("A", "");
        input.add_class_str("B", "A");
        input.add_class_str("C", "A");
        input.add_class_str("D", "B, C");
        input
    };
    let first = c3_linearization(build()).unwrap();
    let second = c3_linearization(build()).unwrap();
    assert_eq!(first, second);
}

#[test]
fn test_empty_graph() {
    let out = c3_linearization(C3::new()).unwrap();
    assert!(out.is_empty());
}

#[test]
fn test_path_begins_with_class_and_has_no_duplicates() {
    let mut input = C3::new();
    input.add_class_str("A", "");
    input.add_class_str("B", "A");
    input.add_class_str("C", "A");
    input.add_class_str("D", "B, C");
    let out = c3_linearization(input).unwrap();
    for class in out.all_classes() {
        let path = out.path(&class).unwrap();
        assert_eq!(path[0], class);
        for i in 0..path.len() {
            for j in (i + 1)..path.len() {
                assert!(path[i] != path[j]);
            }
        }
    }
}
