use libspacecadet::parser::{ParsedKeyTree, RawToken, SimplifiedToken};

fn raw(v: &str) -> Vec<String> {
    RawToken::create(v)
        .unwrap()
        .iter()
        .map(|t| match t {
            RawToken::Identifier(s) => format!("id:{}", s),
            RawToken::StartArgumentCollection => "(".to_string(),
            RawToken::EndArgumentCollection => ")".to_string(),
            RawToken::Comma => ",".to_string(),
        })
        .collect()
}

fn raw_error(v: &str) -> String {
    RawToken::create(v).unwrap_err()
}

fn simple(v: &str) -> Vec<String> {
    SimplifiedToken::simplify(RawToken::create(v).unwrap())
        .iter()
        .map(|t| match t {
            SimplifiedToken::Function(s) => format!("fn:{}", s),
            SimplifiedToken::Argument(s) => format!("arg:{}", s),
            SimplifiedToken::EndFunction => "end".to_string(),
        })
        .collect()
}

fn show(tree: &ParsedKeyTree) -> String {
    let args: Vec<String> = tree.args.iter().map(show).collect();
    format!("{}[{}]", tree.identifier, args.join(";"))
}

fn tree(v: &str) -> String {
    show(&ParsedKeyTree::create(v).unwrap())
}

#[test]
fn text_without_delimiter_gets_parentheses() {
    assert_eq!(raw("KC_A"), vec!["id:KC_A", "(", ")"]);
    assert_eq!(raw("___"), vec!["id:___", "(", ")"]);
}

#[test]
fn tokens_of_a_key_with_arguments() {
    assert_eq!(raw("TG(nav)"), vec!["id:TG", "(", "id:nav", ")"]);
    assert_eq!(
        raw("LT(nav,KC_A,200)"),
        vec!["id:LT", "(", "id:nav", ",", "id:KC_A", ",", "id:200", ")"]
    );
    assert_eq!(raw("A()"), vec!["id:A", "(", ")"]);
}

#[test]
fn blanks_belong_to_identifiers() {
    assert_eq!(raw("WRAP(KC_A, KC_B)"), vec!["id:WRAP", "(", "id:KC_A", ",", "id: KC_B", ")"]);
}

#[test]
fn parse_alone_checks_nothing() {
    let tokens = RawToken::parse("),x");
    assert_eq!(tokens.len(), 3);
    assert!(matches!(tokens[0], RawToken::EndArgumentCollection));
    assert!(matches!(tokens[1], RawToken::Comma));
    assert!(matches!(tokens[2], RawToken::Identifier("x")));
}

#[test]
fn first_two_tokens_are_checked() {
    assert_eq!(raw_error("(A)"), "Expected an identifier at the beginning.");
    assert_eq!(raw_error(",A"), "Expected an identifier at the beginning.");
    assert_eq!(raw_error("A,B"), "The second token can only be \"(\" or \"\".");
    assert_eq!(raw_error("A)"), "The second token can only be \"(\" or \"\".");
    assert_eq!(
        RawToken::verify_first_is_identifier(&vec![]).unwrap_err(),
        "Collection of tokens is empty."
    );
    assert_eq!(
        RawToken::verify_first_is_identifier(&vec![RawToken::Identifier("A")]).unwrap_err(),
        "Missing a token after the first identifier."
    );
    assert!(RawToken::verify_first_is_identifier(&vec![
        RawToken::Identifier("A"),
        RawToken::StartArgumentCollection
    ])
    .is_ok());
}

#[test]
fn order_of_tokens_is_checked() {
    assert_eq!(raw_error("A("), "The \"(\" character must be followed by another token.");
    assert_eq!(raw_error("A(("), "The \"(\" token can't be followed by another \"(\".");
    assert_eq!(raw_error("A(,B)"), "The \"(\" token can't be followed by a \",\".");
    assert_eq!(
        raw_error("A(B)C"),
        "The \")\" token can't be followed immediately by an identifier."
    );
    assert_eq!(raw_error("A(B,,C)"), "The \",\" token can only be followed by an identifier.");
    assert_eq!(raw_error("A(B,)"), "The \",\" token can only be followed by an identifier.");
    // The first fault counts.
    assert_eq!(raw_error("A(,B)C(("), "The \"(\" token can't be followed by a \",\".");
    assert!(RawToken::verify_ordering(&vec![RawToken::Comma]).is_ok());
}

#[test]
fn parentheses_are_checked() {
    assert_eq!(raw_error("A(B))"), "Missing a \"(\" token.");
    assert_eq!(raw_error("A(B(C)"), "Missing a \")\" token.");
    assert_eq!(raw_error("A(B),C(D"), "Missing a \")\" token.");
    assert!(RawToken::verify_collection_starts_and_ends(&vec![
        RawToken::StartArgumentCollection,
        RawToken::EndArgumentCollection
    ])
    .is_ok());
    assert_eq!(
        RawToken::verify_collection_starts_and_ends(&vec![
            RawToken::EndArgumentCollection,
            RawToken::StartArgumentCollection
        ])
        .unwrap_err(),
        "Missing a \"(\" token."
    );
}

#[test]
fn simplified_tokens() {
    assert_eq!(simple("KC_A"), vec!["fn:KC_A", "end"]);
    assert_eq!(simple("TG(nav)"), vec!["fn:TG", "arg:nav", "end"]);
    assert_eq!(
        simple("WRAP(KC_LEFTSHIFT,MACRO(KC_H,KC_I))"),
        vec!["fn:WRAP", "arg:KC_LEFTSHIFT", "fn:MACRO", "arg:KC_H", "arg:KC_I", "end", "end"]
    );
}

#[test]
fn trees() {
    assert_eq!(tree("KC_A"), "KC_A[]");
    assert_eq!(tree("KC_A()"), "KC_A[]");
    assert_eq!(tree("TG(nav)"), "TG[nav[]]");
    assert_eq!(tree("LT(nav,KC_A,200)"), "LT[nav[];KC_A[];200[]]");
    assert_eq!(
        tree("WRAP(KC_LEFTSHIFT,MACRO(KC_H,KC_I))"),
        "WRAP[KC_LEFTSHIFT[];MACRO[KC_H[];KC_I[]]]"
    );
    assert_eq!(tree("A(B(),C)"), "A[B[];C[]]");
    assert_eq!(tree("A(B(C(D)),E(F),G)"), "A[B[C[D[]]];E[F[]];G[]]");
}

#[test]
fn tree_of_faulty_text_is_refused() {
    assert_eq!(ParsedKeyTree::create("A(B").unwrap_err(), "Missing a \")\" token.");
    assert_eq!(
        ParsedKeyTree::create("(").unwrap_err(),
        "Expected an identifier at the beginning."
    );
}

#[test]
fn subtree_ends_at_its_closing_parenthesis() {
    let tokens = SimplifiedToken::simplify(RawToken::create("A(B(C),D)").unwrap());
    let mut idx = 1;
    let sub = ParsedKeyTree::convert_to_tree_recursive(&tokens, &mut idx);
    assert_eq!(show(&sub), "B[C[]]");
    assert_eq!(idx, 3);
}
