use little_schemer::{eval_scheme_to_string, to_sexpression, to_tokens, Environment, SExpression};

#[test]
fn test_eval_car() {
    let mut env = Environment::new();
    {
        let tokens = to_tokens("(car (a b c))");
        let sexp = to_sexpression(&tokens);
        match sexp {
            Some(sexp) => match sexp.eval(&mut env) {
                Some(SExpression::Atom(s)) => assert_eq!(s, "a"),
                _ => assert!(false),
            },
            _ => assert!(false),
        }
    }
    {
        let tokens = to_tokens("(car a)");
        let sexp = to_sexpression(&tokens);
        match sexp {
            Some(sexp) => assert!(match sexp.eval(&mut env) {
                None => true,
                _ => false,
            }),
            _ => assert!(false),
        }
    }
}

#[test]
fn test_eval_scheme_to_string() {
    let cases: Vec<(&str, &str)> = vec![
        ("", ""),
        ("a", "a"),
        ("(", "Bad scheme!"),
        ("()", "()"),
        (" ( ( a  b )   c ) ", "((a b) c)"),
        ("(car (hotdogs))", "hotdogs"),
        ("(car ((hotdogs)))", "(hotdogs)"),
        ("(car (((hotdogs))))", "((hotdogs))"),
        ("(car ( ((hotdogs)) (and) (pickle) relish ) )", "((hotdogs))"),
        ("(car (car ( ((hotdogs)) (and) (pickle) relish ) ) )", "(hotdogs)"),
        ("(car a)", "Bad eval!"),
        ("(cdr (a b c) )", "(b c)"),
        ("(cdr ((a b c) x y z) )", "(x y z)"),
        ("(cdr (hamburger) )", "()"),
        ("(cdr a)", "Bad eval!"),
        ("(cdr ())", "Bad eval!"),
        ("(car (cdr ((b) (x y) ((c))) ))", "(x y)"),
        ("(cdr (cdr ((b) (x y) ((c))) ))", "(((c)))"),
        ("(cdr (car ((b) (x y) ((c))) ))", "()"),
        ("(cons peanut ())", "(peanut)"),
        ("(cons () ())", "(())"),
        ("(cons peanut (butter and jelly))", "(peanut butter and jelly)"),
        ("(null? spaghetti)", "false"),
        ("(null? ())", "true"),
        ("(null? (()))", "false"),
        ("(null? (car (())))", "true"),
        ("(quote ())", "()"),
        ("('())", "()"),
        ("(null? (a b c))", "false"),
        ("(atom? Harry)", "true"),
        ("(atom? (Harry had a heap of apples))", "false"),
        ("(atom? ())", "false"),
        ("(atom? (car (Harry had a heap of apples)))", "true"),
        ("(atom? (cdr (Harry had a heap of apples)))", "false"),
        ("(atom? (cdr (Harry)))", "false"),
        ("(atom? (car (cdr (swing low sweet cherry oat))))", "true"),
        ("(atom? (car (cdr (swing (low sweet) cherry oat))))", "false"),
        ("(eq? Harry Harry)", "true"),
        ("(eq? margarine butter)", "false"),
        ("(eq? () (strawberry))", "false"),
        ("(eq? (strawberry tea) (strawberry tea))", "true"),
        ("(eq? 6 7)", "false"),
        ("(eq? 7 7)", "true"),
        ("(eq? (car (Mary had a little lamb)) Mary)", "true"),
        ("(eq? (cdr (soured milk)) milk)", "false"),
        ("(eq? (cdr (soured milk)) (milk))", "true"),
        (
            "(eq? (car (beans beans we need jelly beans)) (car (cdr (beans beans we need jelly beans))) )",
            "true",
        ),
        ("(lat? (Jack Sprat could eat no chicken fat) )", "true"),
        ("(lat? ((Jack) Sprat could eat no chicken fat) )", "false"),
        ("(lat? (Jack (Sprat could) eat no chicken fat) )", "false"),
        ("(lat? () )", "true"),
        ("(cond (true a) )", "a"),
        ("(cond (false a) (true b) )", "b"),
        ("(cond (true a) (true b) )", "a"),
        ("(cond (false a) )", "Bad eval!"),
        ("(cond ((eq? a a) equal) (true not-equal) )", "equal"),
        ("(cond ((eq? a b) equal) (true not-equal) )", "not-equal"),
        (
            "((define else true) (cond ((eq? a b) equal) (else not-equal)) )",
            "(() not-equal)",
        ),
        ("(define a b)", "()"),
        ("( (eq? a b) (eq? c c))", "(false true)"),
        ("( (define a b) a)", "(() b)"),
    ];
    for (s, expected) in cases {
        assert_eq!(eval_scheme_to_string(s), expected);
    }
}

#[test]
fn test_render_round_trip_is_idempotent() {
    // Rendering normalises whitespace; re-evaluating the rendered text
    // reproduces it exactly.
    let inputs = [" ( ( a  b )   c ) ", "(a (b (c)) ())", "plain", "()"];
    for input in inputs {
        let once = eval_scheme_to_string(input);
        let twice = eval_scheme_to_string(&once);
        assert_eq!(twice, once);
    }
}

#[test]
fn test_define_updates_environment() {
    let mut env = Environment::new();
    let sexp = to_sexpression(&to_tokens("(define a b)")).unwrap();
    assert!(sexp.eval(&mut env).is_some());
    let lookup = to_sexpression(&to_tokens("a")).unwrap();
    match lookup.eval(&mut env) {
        Some(SExpression::Atom(s)) => assert_eq!(s, "b"),
        _ => assert!(false),
    }
}

#[test]
fn test_define_overwrites_binding() {
    assert_eq!(
        eval_scheme_to_string("( (define a b) (define a c) a )"),
        "(() () c)"
    );
}

#[test]
fn test_quote_leaves_operand_unevaluated() {
    assert_eq!(eval_scheme_to_string("(quote (car (a b)))"), "(car (a b))");
}

#[test]
fn test_special_form_mid_list_takes_over() {
    // A special-form name at any scan position consumes the following
    // children: the result of the form replaces the whole list, and
    // children already accumulated or still remaining are discarded.
    assert_eq!(eval_scheme_to_string("(x car (a b))"), "a");
    assert_eq!(eval_scheme_to_string("( (x) cdr (a b) ignored )"), "(b)");
}

#[test]
fn test_define_with_non_atom_key_fails() {
    // The evaluated key of `define` must be an atom to serve as a binding
    // key; any other key is an evaluation failure of the form.
    assert_eq!(eval_scheme_to_string("(define (a) b)"), "Bad eval!");
    // As with any failing ordinary child, a list whose `define` fails is
    // dropped from the enclosing output list, and no binding is made.
    assert_eq!(eval_scheme_to_string("( (define (a) b) a )"), "(a)");
}

#[test]
fn test_cond_with_malformed_clause_fails() {
    // Every `cond` clause must be a list of at least two elements; an atom
    // clause or a too-short clause fails the whole form, even when a later
    // clause would match.
    assert_eq!(eval_scheme_to_string("(cond x (true b))"), "Bad eval!");
    assert_eq!(eval_scheme_to_string("(cond (true) (true b))"), "Bad eval!");
}

#[test]
fn test_printer_resolves_bound_symbols() {
    // Printing evaluates atoms against the environment, so a symbol kept
    // verbatim by `quote` still resolves when rendered.
    assert_eq!(eval_scheme_to_string("( (define a b) (quote a) )"), "(() b)");
}

#[test]
fn test_printer_skips_children_that_fail_to_evaluate() {
    // `quote` hands the printer an unevaluated list; a child that fails to
    // evaluate at print time is skipped, leaving no placeholder, and the
    // remaining children still print.
    assert_eq!(eval_scheme_to_string("(quote ((car x) y))"), "(y)");
    assert_eq!(eval_scheme_to_string("(quote (y (car x)))"), "(y)");
}

#[test]
fn test_failing_plain_child_is_dropped() {
    // A failing ordinary child is silently dropped from the output list.
    assert_eq!(eval_scheme_to_string("( (car a) b )"), "(b)");
}
