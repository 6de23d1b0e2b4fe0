use rsedit_core::lisp::{Parser, ParserError, Sexp, Token};
use std::collections::HashMap;

/// A token with its number read as a float, for comparing with the values
/// the text spells.
#[derive(Debug, PartialEq)]
enum Tok {
    LParen,
    RParen,
    LSquared,
    RSquared,
    LBracket,
    RBracket,
    Number(f64),
    String(String),
    Symbol(String),
    Other,
}

fn tok(t: Token) -> Tok {
    match t {
        Token::LParen => Tok::LParen,
        Token::RParen => Tok::RParen,
        Token::LSquared => Tok::LSquared,
        Token::RSquared => Tok::RSquared,
        Token::LBracket => Tok::LBracket,
        Token::RBracket => Tok::RBracket,
        Token::Number(s) => Tok::Number(s.parse().expect("a number token spells a number")),
        Token::String(s) => Tok::String(s),
        Token::Symbol(s) => Tok::Symbol(s),
        _ => Tok::Other,
    }
}

/// An expression with its numbers read as floats and its dictionaries as
/// maps, for comparing with the values the text spells.
#[derive(Debug, PartialEq)]
enum Exp {
    List(Vec<Exp>),
    Vector(Vec<Exp>),
    Dict(HashMap<String, Exp>),
    Number(f64),
    Symbol(String),
    String(String),
}

fn exp(e: Sexp) -> Exp {
    match e {
        Sexp::List(v) => Exp::List(v.into_iter().map(exp).collect()),
        Sexp::Vector(v) => Exp::Vector(v.into_iter().map(exp).collect()),
        Sexp::Dict(v) => Exp::Dict(v.into_iter().map(|(k, e)| (k, exp(e))).collect()),
        Sexp::Number(s) => Exp::Number(s.parse().expect("a number token spells a number")),
        Sexp::Symbol(s) => Exp::Symbol(s),
        Sexp::String(s) => Exp::String(s),
    }
}

fn read(parser: &mut Parser) -> Result<Exp, ParserError> {
    parser.next().map(exp)
}

fn lex_all(input: &str) -> Result<Vec<Tok>, ParserError> {
    let mut parser = Parser::new(input);
    let mut tokens = Vec::new();
    while let Some(token) = parser.next_token()? {
        tokens.push(tok(token));
    }
    Ok(tokens)
}

fn tokenize(input: &str) -> Result<Vec<Tok>, ParserError> {
    lex_all(input)
}

#[test]
fn test_basic_parens() {
    let input = "( [ { } ] )";
    let tokens = lex_all(input).unwrap();
    assert_eq!(
        tokens,
        vec![Tok::LParen, Tok::LSquared, Tok::LBracket, Tok::RBracket, Tok::RSquared, Tok::RParen]
    );
}

#[test]
fn test_symbols_and_spaces() {
    let input = "def  my-var   + ";
    let tokens = lex_all(input).unwrap();
    assert_eq!(
        tokens,
        vec![
            Tok::Symbol("def".into()),
            Tok::Symbol("my-var".into()),
            Tok::Symbol("+".into()),
        ]
    );
}

#[test]
fn test_strings() {
    let input = r#""hello world" "escaped \" quote""#;
    let tokens = lex_all(input).unwrap();
    assert_eq!(
        tokens,
        vec![Tok::String("hello world".into()), Tok::String("escaped \" quote".into())]
    );
}

#[test]
fn test_numbers() {
    let input = "123 45.67 0.1 ";
    let tokens = lex_all(input).unwrap();
    assert_eq!(tokens, vec![Tok::Number(123.0), Tok::Number(45.67), Tok::Number(0.1)]);
}

#[test]
fn test_lisp_expression() {
    let input = "(define (add x y) (+ x y)) ";
    let tokens = lex_all(input).unwrap();
    let expected = vec![
        Tok::LParen,
        Tok::Symbol("define".into()),
        Tok::LParen,
        Tok::Symbol("add".into()),
        Tok::Symbol("x".into()),
        Tok::Symbol("y".into()),
        Tok::RParen,
        Tok::LParen,
        Tok::Symbol("+".into()),
        Tok::Symbol("x".into()),
        Tok::Symbol("y".into()),
        Tok::RParen,
        Tok::RParen,
    ];
    assert_eq!(tokens, expected);
}

#[test]
fn test_unbalanced_error() {
    let input = "( ] )";
    let result = lex_all(input);
    match result {
        Err(ParserError::UnbalancedRSquared) => (),
        _ => panic!("Expected UnbalancedRSquared error"),
    }
}

#[test]
fn test_eof_handling_for_numbers() {
    let input = "42";
    let _ = lex_all(input);
}

#[test]
fn test_delimiters_no_spaces() {
    let input = "(factorial 5)(add x y)";
    let tokens = lex_all(input).unwrap();
    assert_eq!(
        tokens,
        vec![
            Tok::LParen,
            Tok::Symbol("factorial".into()),
            Tok::Number(5.0),
            Tok::RParen,
            Tok::LParen,
            Tok::Symbol("add".into()),
            Tok::Symbol("x".into()),
            Tok::Symbol("y".into()),
            Tok::RParen,
        ]
    );
}

#[test]
fn test_complex_strings() {
    let input = r#" "line1\nline2" "quote: \" " "" "#;
    let tokens = lex_all(input).unwrap();
    assert_eq!(
        tokens,
        vec![
            // An escape other than a quote or a backslash keeps its backslash.
            Tok::String("line1\\nline2".into()),
            Tok::String("quote: \" ".into()),
            Tok::String("".into()),
        ]
    );
}

#[test]
fn test_deep_nesting() {
    let input = "(let [x {y 10}] (fn (z) [z x]))";
    let tokens = lex_all(input).unwrap();
    let expected = vec![
        Tok::LParen,
        Tok::Symbol("let".into()),
        Tok::LSquared,
        Tok::Symbol("x".into()),
        Tok::LBracket,
        Tok::Symbol("y".into()),
        Tok::Number(10.0),
        Tok::RBracket,
        Tok::RSquared,
        Tok::LParen,
        Tok::Symbol("fn".into()),
        Tok::LParen,
        Tok::Symbol("z".into()),
        Tok::RParen,
        Tok::LSquared,
        Tok::Symbol("z".into()),
        Tok::Symbol("x".into()),
        Tok::RSquared,
        Tok::RParen,
        Tok::RParen,
    ];
    assert_eq!(tokens, expected);
}

#[test]
fn test_numeric_edge_cases() {
    let input = "123.456 0.001 100 ";
    let tokens = lex_all(input).unwrap();
    assert_eq!(tokens[0], Tok::Number(123.456));
    assert_eq!(tokens[1], Tok::Number(0.001));
    assert_eq!(tokens[2], Tok::Number(100.0));

    let input_err = "1.2.3 ";
    let result = lex_all(input_err);
    assert!(matches!(result, Err(ParserError::NumberParseError(_))));
}

#[test]
fn test_tokenize_basic() {
    let input = "(+ 1 2.5 \"hello\")";
    let tokens = tokenize(input).expect("Failed to tokenize");
    assert_eq!(
        tokens,
        vec![
            Tok::LParen,
            Tok::Symbol("+".to_string()),
            Tok::Number(1.0),
            Tok::Number(2.5),
            Tok::String("hello".to_string()),
            Tok::RParen,
        ]
    );
}

#[test]
fn test_tokenize_complex_symbols() {
    let input = "(insert-text! my-var)";
    let tokens = tokenize(input).unwrap();
    assert_eq!(
        tokens,
        vec![
            Tok::LParen,
            Tok::Symbol("insert-text!".to_string()),
            Tok::Symbol("my-var".to_string()),
            Tok::RParen,
        ]
    );
}

#[test]
fn test_parse_primitives() {
    let mut parser = Parser::new("42");
    let ast_num = read(&mut parser).unwrap();
    assert_eq!(ast_num, Exp::Number(42.0));

    let mut parser = Parser::new("my-symbol");
    let ast_sym = read(&mut parser).unwrap();
    assert_eq!(ast_sym, Exp::Symbol("my-symbol".to_string()));
}

#[test]
fn test_parse_simple_list() {
    let mut parser = Parser::new("(print \"world\")");
    let ast = read(&mut parser).unwrap();
    assert_eq!(
        ast,
        Exp::List(vec![Exp::Symbol("print".to_string()), Exp::String("world".to_string())])
    );
}

#[test]
fn test_parse_nested_lists() {
    let mut parser = Parser::new("(define x (+ 10 20))");
    let ast = read(&mut parser).unwrap();
    assert_eq!(
        ast,
        Exp::List(vec![
            Exp::Symbol("define".to_string()),
            Exp::Symbol("x".to_string()),
            Exp::List(vec![Exp::Symbol("+".to_string()), Exp::Number(10.0), Exp::Number(20.0)])
        ])
    );
}

#[test]
fn test_parse_deeply_nested() {
    let mut parser = Parser::new("(((1)))");
    let ast = read(&mut parser).unwrap();
    assert_eq!(ast, Exp::List(vec![Exp::List(vec![Exp::List(vec![Exp::Number(1.0)])])]));
}

#[test]
fn test_parse_errors() {
    let mut parser = Parser::new("(+1 2");
    let err1 = read(&mut parser).unwrap_err();
    assert_eq!(err1, ParserError::UnclosedList);

    let mut other = Parser::new("(+ 1 2))");
    assert_eq!(read(&mut other).unwrap_err(), ParserError::UnbalancedRParen);
    let mut parser = Parser::new("(+1 2))");
    let err2 = read(&mut parser).unwrap_err();
    assert_eq!(err2, ParserError::UnbalancedRParen);
}

#[test]
fn test_vector_parsing() {
    let input = "[1 2 3]";
    let mut parser = Parser::new(input);
    let ast = read(&mut parser).expect("Should parse vector");
    match ast {
        Exp::Vector(v) => {
            assert_eq!(v.len(), 3);
            assert_eq!(v[0], Exp::Number(1.0));
        }
        _ => panic!("Expected Vector, found {:?}", ast),
    }
}

#[test]
fn test_map_parsing_valid() {
    let input = r#"{ "name" "Gemini" "version" 3.0 }"#;
    let mut parser = Parser::new(input);
    let ast = read(&mut parser).expect("Should parse map");
    if let Exp::Dict(m) = ast {
        assert_eq!(m.get("name").unwrap(), &Exp::String("Gemini".into()));
        assert_eq!(m.get("version").unwrap(), &Exp::Number(3.0));
    } else {
        panic!("Expected Map, found {:?}", ast);
    }
}

#[test]
fn test_nested_mixed_structures() {
    let input = "(calculate [1 2] { \"factor\" 10.5 })";
    let mut parser = Parser::new(input);
    let ast = read(&mut parser).expect("Should parse complex structure");
    if let Exp::List(list) = ast {
        assert_eq!(list[0], Exp::Symbol("calculate".into()));
        assert!(matches!(list[1], Exp::Vector(_)));
        assert!(matches!(list[2], Exp::Dict(_)));
    } else {
        panic!("Root should be a List");
    }
}

#[test]
fn test_map_error_handling() {
    let input_odd = r#"{ "key1" "val1" "key2" }"#;
    let mut p1 = Parser::new(input_odd);
    let result = read(&mut p1);
    assert!(matches!(result, Err(ParserError::MapKeyMissingValue)));

    let input_bad_key = "{ 42 \"answer\" }";
    let mut p2 = Parser::new(input_bad_key);
    let result = read(&mut p2);
    assert!(matches!(result, Err(ParserError::InvalidMapKey)));
}

#[test]
fn test_delimiter_clash_no_spaces() {
    let input = "my-func[1 2]{:key val}";
    let mut parser = Parser::new(input);
    assert!(matches!(read(&mut parser).unwrap(), Exp::Symbol(_)));
    assert!(matches!(read(&mut parser).unwrap(), Exp::Vector(_)));
    assert!(matches!(read(&mut parser).unwrap(), Exp::Dict(_)));
}

#[test]
fn test_edge_negative_numbers() {
    let input = "-42 -3.14";
    let mut parser = Parser::new(input);
    assert_eq!(read(&mut parser).unwrap(), Exp::Number(-42.0));
    assert_eq!(read(&mut parser).unwrap(), Exp::Number(-3.14));
}

#[test]
fn test_edge_naked_decimals() {
    let input = ".5 5. 0.0";
    let mut parser = Parser::new(input);
    assert_eq!(read(&mut parser).unwrap(), Exp::Number(0.5));
    assert_eq!(read(&mut parser).unwrap(), Exp::Number(5.0));
    assert_eq!(read(&mut parser).unwrap(), Exp::Number(0.0));
}

#[test]
fn test_edge_brutal_string_escaping() {
    let input = r#" "\\\"" "#;
    let mut parser = Parser::new(input);
    let ast = read(&mut parser).unwrap();
    if let Exp::String(s) = ast {
        assert_eq!(s, "\\\"");
    } else {
        panic!("Expected String, got {:?}", ast);
    }
}

#[test]
fn test_edge_delimiter_smashes() {
    let input = "{key[1]}";
    let mut parser = Parser::new(input);
    let ast = read(&mut parser).unwrap();
    if let Exp::Dict(m) = ast {
        let val = m.get("key").expect("Key 'key' not found");
        assert_eq!(val, &Exp::Vector(vec![Exp::Number(1.0)]));
    } else {
        panic!("Expected Map");
    }
}

#[test]
fn test_edge_nested_empties() {
    let input = "([{}])";
    let mut parser = Parser::new(input);
    let ast = read(&mut parser).unwrap();
    assert_eq!(ast, Exp::List(vec![Exp::Vector(vec![Exp::Dict(HashMap::new())])]));
}

#[test]
fn test_complex_whitespace_and_mixed_delimiters() {
    let input = "{\n\t\"data\"\n\t[ (1\n2\t3) ]\n}";
    let mut parser = Parser::new(input);
    let ast = read(&mut parser).expect("Should parse successfully");
    if let Exp::Dict(mut map) = ast {
        let value = map.remove("data").expect("Expected key 'data' in Map");
        if let Exp::Vector(vec) = value {
            assert_eq!(vec.len(), 1);
            if let Exp::List(inner) = &vec[0] {
                assert_eq!(inner.len(), 3);
                assert_eq!(inner[0], Exp::Number(1.0));
            } else {
                panic!("Inner not a list");
            }
        } else {
            panic!("Map value is not a Vector");
        }
    } else {
        panic!("Outer structure is not a Map");
    }
}

#[test]
fn test_numeric_boundary_cases() {
    let input = "[1.5] {\"k\" .5} 5.";
    let mut parser = Parser::new(input);

    let exp1 = read(&mut parser).unwrap();
    assert_eq!(exp1, Exp::Vector(vec![Exp::Number(1.5)]));

    let exp2 = read(&mut parser).unwrap();
    if let Exp::Dict(mut m) = exp2 {
        assert_eq!(m.remove("k"), Some(Exp::Number(0.5)));
    } else {
        panic!("Expected Map for second expression");
    }

    let exp3 = read(&mut parser);
    println!("Result for 5.: {:?}", exp3);
}

#[test]
fn test_empty_and_escaped_literals() {
    let input = r#" "" () [] {} "back\\slash" "#;
    let mut parser = Parser::new(input);
    assert_eq!(read(&mut parser).unwrap(), Exp::String("".into()));
    assert_eq!(read(&mut parser).unwrap(), Exp::List(vec![]));
    assert_eq!(read(&mut parser).unwrap(), Exp::Vector(vec![]));
    assert_eq!(read(&mut parser).unwrap(), Exp::Dict(HashMap::new()));
    assert_eq!(read(&mut parser).unwrap(), Exp::String("back\\slash".into()));
}

#[test]
fn test_malformed_input_recovery() {
    let mut p1 = Parser::new("(1 2 3");
    assert_eq!(read(&mut p1).unwrap_err(), ParserError::UnclosedList);

    let mut p2 = Parser::new("(1 2 3]");
    assert_eq!(read(&mut p2).unwrap_err(), ParserError::UnbalancedRSquared);

    let mut p3 = Parser::new("1.2.3");
    assert!(matches!(read(&mut p3).unwrap_err(), ParserError::NumberParseError(_)));

    let mut p4 = Parser::new("{ \"key\" }");
    assert_eq!(read(&mut p4).unwrap_err(), ParserError::MapKeyMissingValue);

    let mut p5 = Parser::new("{ 42 \"value\" }");
    assert_eq!(read(&mut p5).unwrap_err(), ParserError::InvalidMapKey);
}

#[test]
fn test_parser_robustness_mismatched_interleaved_delimiters() {
    assert_eq!(read(&mut Parser::new("([)]")).unwrap_err(), ParserError::UnbalancedRParen);
    assert_eq!(read(&mut Parser::new("{ [ } ]")).unwrap_err(), ParserError::InvalidMapKey);
    assert_eq!(read(&mut Parser::new("( { ) }")).unwrap_err(), ParserError::UnbalancedRParen);
}

#[test]
fn test_parser_robustness_abrupt_eof() {
    let mut p1 = Parser::new("\"Unclosed string...");
    assert!(read(&mut p1).is_err() || read(&mut p1).is_ok());

    assert_eq!(read(&mut Parser::new("(((1 2)")).unwrap_err(), ParserError::UnclosedList);
    assert_eq!(read(&mut Parser::new("[1 2")).unwrap_err(), ParserError::UnclosedVector);
    assert_eq!(read(&mut Parser::new("{ \"key\" \"val\"")).unwrap_err(), ParserError::UnclosedMap);
}

#[test]
fn test_parser_robustness_invalid_numbers() {
    assert_eq!(read(&mut Parser::new("123a")).unwrap_err(), ParserError::NumberInvadidChar('a'));
    assert!(matches!(
        read(&mut Parser::new("1..2")).unwrap_err(),
        ParserError::NumberParseError(_)
    ));
}

#[test]
fn test_parser_robustness_malformed_maps() {
    assert_eq!(
        read(&mut Parser::new("{ \"key1\" \"val1\" \"key2\" }")).unwrap_err(),
        ParserError::MapKeyMissingValue
    );
    assert_eq!(read(&mut Parser::new("{ [1 2] \"value\" }")).unwrap_err(), ParserError::InvalidMapKey);
    assert_eq!(read(&mut Parser::new("{ (func) \"value\" }")).unwrap_err(), ParserError::InvalidMapKey);
}

#[test]
fn test_parser_robustness_empty_input() {
    assert_eq!(read(&mut Parser::new("")).unwrap_err(), ParserError::VoidExp);
    assert_eq!(read(&mut Parser::new("   \n \t  ")).unwrap_err(), ParserError::VoidExp);
}

// Further cases.

#[test]
fn number_errors_carry_the_characters_read() {
    assert_eq!(
        read(&mut Parser::new("1.2.3")).unwrap_err(),
        ParserError::NumberParseError("1.2.".to_string())
    );
    assert_eq!(read(&mut Parser::new("- ")).unwrap_err(), ParserError::NumberParseError("-".to_string()));
    assert_eq!(read(&mut Parser::new(".5.3 ")).unwrap_err(), ParserError::NumberParseError(".5.3".to_string()));
}

#[test]
fn a_symbol_at_the_end_of_an_unclosed_list_is_an_unclosed_list() {
    assert_eq!(read(&mut Parser::new("(abc")).unwrap_err(), ParserError::UnclosedList);
}

#[test]
fn a_key_written_twice_keeps_its_place_and_takes_the_last_value() {
    let ast = Parser::new("{a 1 b 2 a 3}").next().unwrap();
    match ast {
        Sexp::Dict(entries) => {
            assert_eq!(entries.len(), 2);
            assert_eq!(entries[0].0, "a");
            assert_eq!(entries[0].1, Sexp::Number("3".to_string()));
            assert_eq!(entries[1].0, "b");
        }
        other => panic!("Expected a dictionary, found {:?}", other),
    }
}

#[test]
fn an_unclosed_string_is_an_error() {
    assert_eq!(read(&mut Parser::new("\"abc")).unwrap_err(), ParserError::UnclosedString);
}

#[test]
fn reading_continues_after_each_expression() {
    let mut parser = Parser::new("a \"b\" 3");
    assert_eq!(read(&mut parser).unwrap(), Exp::Symbol("a".into()));
    assert_eq!(read(&mut parser).unwrap(), Exp::String("b".into()));
    assert_eq!(read(&mut parser).unwrap(), Exp::Number(3.0));
    assert_eq!(read(&mut parser).unwrap_err(), ParserError::VoidExp);
}
