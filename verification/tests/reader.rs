use little_schemer::{to_sexpression, to_tokens, SExpression};

#[test]
fn test_to_sexpression() {
    {
        let tokens = to_tokens("");
        let sexp = to_sexpression(&tokens);
        assert!(match sexp {
            None => true,
            _ => false,
        });
    }
    {
        let tokens = to_tokens("()");
        let sexp = to_sexpression(&tokens);
        assert!(match sexp {
            Some(SExpression::List(list)) => (list.len() == 0),
            _ => false,
        });
    }
    {
        let tokens = to_tokens("a");
        let sexp = to_sexpression(&tokens);
        assert!(match sexp {
            Some(SExpression::Atom(s)) => s == "a",
            _ => false,
        });
    }
    {
        let tokens = to_tokens("(atom turkey) or");
        let sexp = to_sexpression(&tokens);
        assert!(match sexp {
            None => true,
            _ => false,
        });
    }
    {
        let tokens = to_tokens("((atom turkey third) or)");
        let sexp = to_sexpression(&tokens);

        match sexp {
            Some(SExpression::List(list)) => {
                assert_eq!(list.len(), 2);
                match &list[0] {
                    SExpression::List(list2) => {
                        assert_eq!(list2.len(), 3);
                        assert!(match &list2[0] {
                            SExpression::Atom(s) => (s == "atom"),
                            _ => false,
                        });
                        assert!(match &list2[1] {
                            SExpression::Atom(s) => (s == "turkey"),
                            _ => false,
                        });
                        assert!(match &list2[2] {
                            SExpression::Atom(s) => (s == "third"),
                            _ => false,
                        });
                    },
                    _ => assert!(false),
                }
                assert!(match &list[1] {
                    SExpression::Atom(s) => (s == "or"),
                    _ => false,
                });
            },
            _ => assert!(false),
        }
    }
    {
        let tokens = to_tokens("(how are you doing so far)");
        let sexp = to_sexpression(&tokens);

        assert!(match sexp {
            Some(SExpression::List(list)) => (list.len() == 6),
            _ => false,
        });
    }
    {
        let tokens = to_tokens("(((how) are)((you)(doing so))far)");
        let sexp = to_sexpression(&tokens);

        assert!(match sexp {
            Some(SExpression::List(_)) => true,
            _ => false,
        });

        assert!(if let Some(SExpression::List(_)) = sexp {
            true
        } else {
            false
        });

        assert!(match sexp {
            Some(SExpression::List(list)) => (list.len() == 3),
            _ => false,
        });
    }
}

#[test]
fn test_reader_rejects_imbalance() {
    assert!(to_sexpression(&to_tokens("(")).is_none());
    assert!(to_sexpression(&to_tokens(")")).is_none());
    assert!(to_sexpression(&to_tokens("(a))")).is_none());
    assert!(to_sexpression(&to_tokens("((a)")).is_none());
    assert!(to_sexpression(&to_tokens("a b")).is_none());
    assert!(to_sexpression(&to_tokens("a)")).is_none());
}

#[test]
fn test_car() {
    {
        let tokens = to_tokens("hotdog");
        let sexp = to_sexpression(&tokens);
        match sexp {
            Some(sexp) => assert!(match sexp.car() {
                None => true,
                _ => false,
            }),
            _ => assert!(false),
        }
    }
    {
        let tokens = to_tokens("()");
        let sexp = to_sexpression(&tokens);
        match sexp {
            Some(sexp) => assert!(match sexp.car() {
                None => true,
                _ => false,
            }),
            _ => assert!(false),
        }
    }
    {
        let tokens = to_tokens("(a b c)");
        let sexp = to_sexpression(&tokens);
        match sexp {
            Some(sexp) => match sexp.car() {
                Some(SExpression::Atom(s)) => assert_eq!(s, "a"),
                _ => assert!(false),
            },
            _ => assert!(false),
        }
    }
    {
        let tokens = to_tokens("((a b c) x y z)");
        let sexp = to_sexpression(&tokens);
        match sexp {
            Some(sexp) => match sexp.car() {
                Some(SExpression::List(list)) => {
                    assert_eq!(list.len(), 3);
                    match &list[2] {
                        SExpression::Atom(s) => assert_eq!(s, "c"),
                        _ => assert!(false),
                    }
                },
                _ => assert!(false),
            },
            _ => assert!(false),
        }
    }
}
