use little_schemer::{is_atom, is_list, is_s_exp, to_tokens, Token};

#[test]
fn test_to_tokens() {
    {
        let tokens = to_tokens("");
        assert_eq!(tokens.len(), 0);
    }

    {
        let tokens = to_tokens("a");
        assert_eq!(tokens.len(), 1);

        assert!(match &tokens[0] {
            Token::Atom(text) => text == "a",
            _ => false,
        });

        assert_eq!(tokens, vec![Token::Atom("a".to_string())]);
    }
}

#[test]
fn test_is_atom() {
    let cases: Vec<(&str, bool)> = vec![
        ("atom", true),
        ("turkey", true),
        ("1492", true),
        ("u", true),
        ("*abc$", true),
        ("", false),
        (" ", false),
        (" a", true),
        ("a ", true),
        (" a ", true),
        ("(", false),
        ("(abc$", false),
        ("(abc$)", false),
    ];
    for (s, expected) in cases {
        let tokens = to_tokens(s);
        assert_eq!(is_atom(&tokens), expected);
    }
}

#[test]
fn test_is_list() {
    let cases: Vec<(&str, bool)> = vec![
        ("atom", false),
        ("(atom)", true),
        ("()", true),
        ("(atom", false),
        ("(atom turkey or)", true),
        ("(atom (turkey (pitch black))or ())", true),
        ("  (  atom    turkey  or )  ", true),
        ("(atom turkey) or", false),
        ("((atom turkey) or)", true),
    ];
    for (s, expected) in cases {
        assert_eq!(is_list(&to_tokens(s)), expected);
    }
}

#[test]
fn test_is_s_exp() {
    assert_eq!(is_s_exp(&to_tokens("")), false);
    assert_eq!(is_s_exp(&to_tokens(" ")), false);
    assert_eq!(is_s_exp(&to_tokens("xyz")), true);
    assert_eq!(is_s_exp(&to_tokens("(x y z)")), true);
    assert_eq!(is_s_exp(&to_tokens("(x y) z")), false);
    assert_eq!(is_s_exp(&to_tokens("atom atom")), false);
}

#[test]
fn test_tokens_keep_printable_characters() {
    // The characters carried by the tokens, in order, are exactly the
    // printable non-whitespace characters of the input, in order.
    let inputs = ["  ( a  bc )  d ", "(atom (turkey (pitch black))or ())", "", "\t\na\r b("];
    for input in inputs {
        let mut carried = String::new();
        for token in to_tokens(input) {
            match token {
                Token::OpenBracket => carried.push('('),
                Token::CloseBracket => carried.push(')'),
                Token::Atom(text) => carried.push_str(&text),
            }
        }
        let graphic: String = input.chars().filter(|c| c.is_ascii_graphic()).collect();
        assert_eq!(carried, graphic);
    }
}

#[test]
fn test_bracket_tokens_emitted_amid_atom() {
    let tokens = to_tokens("a(b)c");
    assert_eq!(
        tokens,
        vec![
            Token::Atom("a".to_string()),
            Token::OpenBracket,
            Token::Atom("b".to_string()),
            Token::CloseBracket,
            Token::Atom("c".to_string()),
        ]
    );
}
