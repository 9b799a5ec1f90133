use little_schemer::{
    sexpression_to_string, to_sexpression, to_tokens, Environment, SExpression,
};

fn parse(s: &str) -> SExpression {
    to_sexpression(&to_tokens(s)).expect("input should parse")
}

fn atom_text(e: &SExpression) -> &str {
    match e {
        SExpression::Atom(s) => s,
        SExpression::List(_) => panic!("expected an atom"),
    }
}

#[test]
fn test_cdr_method() {
    let e = parse("(a b c)");
    match e.cdr() {
        Some(SExpression::List(rest)) => {
            assert_eq!(rest.len(), 2);
            assert_eq!(atom_text(&rest[0]), "b");
            assert_eq!(atom_text(&rest[1]), "c");
        },
        _ => assert!(false),
    }
    assert!(parse("a").cdr().is_none());
    assert!(parse("()").cdr().is_none());
}

#[test]
fn test_cons_method() {
    let head = parse("peanut");
    let tail = parse("(butter and jelly)");
    match head.cons(&tail) {
        Some(SExpression::List(all)) => {
            assert_eq!(all.len(), 4);
            assert_eq!(atom_text(&all[0]), "peanut");
            assert_eq!(atom_text(&all[1]), "butter");
        },
        _ => assert!(false),
    }
    assert!(head.cons(&parse("atom")).is_none());
}

#[test]
fn test_is_null_method() {
    assert_eq!(atom_text(&parse("()").is_null()), "true");
    assert_eq!(atom_text(&parse("(a)").is_null()), "false");
    assert_eq!(atom_text(&parse("a").is_null()), "false");
}

#[test]
fn test_quote_method() {
    let e = parse("(car (a b))");
    match e.quote() {
        Some(SExpression::List(items)) => {
            assert_eq!(items.len(), 2);
            assert_eq!(atom_text(&items[0]), "car");
        },
        _ => assert!(false),
    }
}

#[test]
fn test_atom_classifiers() {
    assert!(parse("harry").is_atom_());
    assert!(!parse("(harry)").is_atom_());
    assert_eq!(atom_text(&parse("harry").is_atom()), "true");
    assert_eq!(atom_text(&parse("()").is_atom()), "false");
}

#[test]
fn test_is_eq_method() {
    assert_eq!(atom_text(&parse("Harry").is_eq(&parse("Harry"))), "true");
    assert_eq!(atom_text(&parse("Harry").is_eq(&parse("butter"))), "false");
    assert_eq!(atom_text(&parse("(a b)").is_eq(&parse("(a b)"))), "true");
    assert_eq!(atom_text(&parse("(a b)").is_eq(&parse("(a b c)"))), "false");
    assert_eq!(atom_text(&parse("a").is_eq(&parse("(a)"))), "false");
    // The list rule is an "any zipped pair equal" comparison: one matching
    // pair of children is enough when the lengths agree.
    assert_eq!(atom_text(&parse("(a x)").is_eq(&parse("(a y)"))), "true");
}

#[test]
fn test_is_lat_method() {
    assert_eq!(atom_text(&parse("(Jack Sprat)").is_lat()), "true");
    assert_eq!(atom_text(&parse("((Jack) Sprat)").is_lat()), "false");
    assert_eq!(atom_text(&parse("()").is_lat()), "true");
    assert_eq!(atom_text(&parse("Jack").is_lat()), "false");
}

#[test]
fn test_is_true_method() {
    assert!(parse("true").is_true());
    assert!(!parse("false").is_true());
    assert!(!parse("(true)").is_true());
}

#[test]
fn test_cond_method() {
    let mut env = Environment::new();
    let clauses = match parse("((false a) (true b))") {
        SExpression::List(v) => v,
        _ => panic!("expected a list"),
    };
    let head = SExpression::Atom("cond".to_string());
    match head.cond(&clauses, 0, &mut env) {
        Some(e) => assert_eq!(atom_text(&e), "b"),
        None => assert!(false),
    }
    let no_match = match parse("((false a))") {
        SExpression::List(v) => v,
        _ => panic!("expected a list"),
    };
    assert!(head.cond(&no_match, 0, &mut env).is_none());
}

#[test]
fn test_define_method_and_environment() {
    let mut env = Environment::new();
    let key = parse("a");
    let value = parse("(b c)");
    key.define(&value, &mut env);
    match env.get(&"a".to_string()) {
        Some(SExpression::List(items)) => assert_eq!(items.len(), 2),
        _ => assert!(false),
    }
    assert!(env.get(&"missing".to_string()).is_none());
    // The evaluator rejects a `define` whose evaluated key is not an atom;
    // the method itself, handed such a key, leaves the environment alone.
    parse("(x)").define(&parse("y"), &mut env);
    assert!(env.get(&"x".to_string()).is_none());
}

#[test]
fn test_sexpression_to_string_resolves_bindings() {
    let mut env = Environment::new();
    parse("a").define(&parse("(b c)"), &mut env);
    let rendered = sexpression_to_string(&parse("(a d)"), &mut env);
    assert_eq!(rendered, "((b c) d)");
    let plain = sexpression_to_string(&parse(" ( e  (f  g) ) "), &mut env);
    assert_eq!(plain, "(e (f g))");
}
