use c3_lang_linearization::{C3Error, Id, C3};

fn ids(names: Vec<&str>) -> Vec<Id> {
    let mut out: Vec<Id> = Vec::new();
    for n in names {
        out.push(Id::from(n));
    }
    out
}

#[test]
fn c3_test_c3() {
    let mut c3 = C3::new();
    c3.add_class_str("A", "A");
    c3.add_class_str("B", "B, A");
    c3.add_class_str("K1", "K1, K2, A");

    assert_eq!(c3.all_classes_str(), vec!["A", "B", "K1"]);

    c3.register_fn_str("A", "foo");
    c3.register_fn_str("A", "bar");
    c3.register_fn_str("B", "bar");
    assert_eq!(c3.functions_str("A"), vec!["bar", "foo"]);
    assert_eq!(c3.functions_str("B"), vec!["bar", "foo"]);

    c3.register_var_str("A", "x");
    c3.register_var_str("B", "y");
    assert_eq!(c3.varialbes_str("A"), vec!["x"]);
    assert_eq!(c3.varialbes_str("B"), vec!["x", "y"]);
}

#[test]
fn test_add_overwrites() {
    let mut c3 = C3::new();
    c3.add_class_str("A", "A, X");
    c3.add_class_str("A", "A, Y");
    let path = c3.path(&Id::from("A")).unwrap();
    assert_eq!(path, ids(vec!["A", "Y"]));
}

#[test]
fn test_remove_unknown_class() {
    let mut c3 = C3::new();
    let err = c3.remove(&Id::from("X")).unwrap_err();
    match err {
        C3Error::BaseClassDoesNotExists(name) => assert_eq!(name, "X"),
        other => panic!("unexpected error {:?}", other),
    }
}

#[test]
fn test_remove_known_class() {
    let mut c3 = C3::new();
    c3.add_class_str("A", "A");
    assert!(c3.remove(&Id::from("A")).is_ok());
    assert!(c3.is_empty());
}

#[test]
fn test_path_unknown_class() {
    let c3 = C3::new();
    let err = c3.path(&Id::from("Nope")).unwrap_err();
    match err {
        C3Error::BaseClassDoesNotExists(name) => assert_eq!(name, "Nope"),
        other => panic!("unexpected error {:?}", other),
    }
}

#[test]
fn test_register_fns_and_vars() {
    let mut c3 = C3::new();
    c3.add_class_str("A", "A");
    c3.register_fns(Id::from("A"), ids(vec!["g", "f", "g"]));
    c3.register_vars(Id::from("A"), ids(vec!["y", "x"]));
    assert_eq!(c3.functions_str("A"), vec!["f", "g"]);
    assert_eq!(c3.varialbes_str("A"), vec!["x", "y"]);
}

#[test]
fn test_split_coma() {
    assert_eq!(c3_lang_linearization::split_coma(""), Vec::<String>::new());
    assert_eq!(c3_lang_linearization::split_coma("A"), vec!["A"]);
    assert_eq!(c3_lang_linearization::split_coma("A, B, C"), vec!["A", "B", "C"]);
    assert_eq!(c3_lang_linearization::split_coma("A, , B"), vec!["A", "B"]);
}

#[test]
fn test_is_subset() {
    let larger = ids(vec!["A", "B", "C"]);
    let smaller = ids(vec!["C", "A"]);
    let missing = ids(vec!["C", "D"]);
    assert!(c3_lang_linearization::is_subset(&larger, &smaller));
    assert!(!c3_lang_linearization::is_subset(&larger, &missing));
    assert!(c3_lang_linearization::is_subset(&larger, &ids(vec![])));
}
