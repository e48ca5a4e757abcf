use graphlib::edge::{
    edge_args_to_id, edge_args_to_obj, edge_obj_to_id, is_legal_id, is_legal_name, Edge,
    DEFAULT_EDGE_NAME, EDGE_KEY_DELIM, GRAPH_NODE,
};

fn s(x: &str) -> String {
    x.to_string()
}

#[test]
fn directed_key_keeps_the_order() {
    assert_eq!(edge_args_to_id(&true, &s("b"), &s("a"), &None), "b\x01a\x01\x00");
    assert_eq!(edge_args_to_id(&true, &s("a"), &s("b"), &Some(s("n"))), "a\x01b\x01n");
}

#[test]
fn undirected_key_puts_the_lesser_first() {
    assert_eq!(edge_args_to_id(&false, &s("b"), &s("a"), &None), "a\x01b\x01\x00");
    assert_eq!(edge_args_to_id(&false, &s("a"), &s("b"), &None), "a\x01b\x01\x00");
    assert_eq!(edge_args_to_id(&false, &s("ab"), &s("a"), &Some(s("x"))), "a\x01ab\x01x");
    assert_eq!(edge_args_to_id(&false, &s("a"), &s("a"), &None), "a\x01a\x01\x00");
}

#[test]
fn key_is_built_from_the_constants() {
    let expected = format!("v{}w{}{}", EDGE_KEY_DELIM, EDGE_KEY_DELIM, DEFAULT_EDGE_NAME);
    assert_eq!(edge_args_to_id(&true, &s("v"), &s("w"), &None), expected);
    assert_eq!(GRAPH_NODE, "\x00");
}

#[test]
fn record_is_normalised_like_the_key() {
    let e = edge_args_to_obj(&false, &s("z"), &s("m"), &Some(s("n")));
    assert_eq!(e.v, "m");
    assert_eq!(e.w, "z");
    assert_eq!(e.name, Some(s("n")));
    let d = edge_args_to_obj(&true, &s("z"), &s("m"), &None);
    assert_eq!(d.v, "z");
    assert_eq!(d.w, "m");
    assert_eq!(d.name, None);
}

#[test]
fn key_of_a_record_is_the_key_of_its_parts() {
    let e = Edge { v: s("q"), w: s("p"), name: Some(s("k")) };
    assert_eq!(edge_obj_to_id(&true, &e), "q\x01p\x01k");
    assert_eq!(edge_obj_to_id(&false, &e), "p\x01q\x01k");
    let copy = e.clone();
    assert_eq!(copy.v, "q");
    assert_eq!(copy.w, "p");
    assert_eq!(copy.name, Some(s("k")));
}

#[test]
fn order_is_by_code_point() {
    assert_eq!(edge_args_to_id(&false, &s("é"), &s("z"), &None), "z\x01é\x01\x00");
    assert_eq!(edge_args_to_id(&false, &s("B"), &s("a"), &None), "B\x01a\x01\x00");
}

#[test]
fn reserved_characters_make_an_identifier_illegal() {
    assert!(is_legal_id(&s("node")));
    assert!(is_legal_id(&s("")));
    assert!(!is_legal_id(&s("\x00")));
    assert!(!is_legal_id(&s("a\x01b")));
    assert!(is_legal_name(&None));
    assert!(is_legal_name(&Some(s("e1"))));
    assert!(!is_legal_name(&Some(s("\x00"))));
}
