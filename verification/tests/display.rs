use jirsp::parse_error::ParseError;
use jirsp::tokenize::parse;
use jirsp::tokenize::tokenize;
use jirsp::tokenize::AstNode;
use jirsp::tokenize::AstToken;

#[test]
fn parse_rejects_leftover_input() {
    let result = parse(b"a b");
    assert!(matches!(result, Err(ParseError::NotAnSExpression)));
}

#[test]
fn missing_right_parenthesis_is_reported() {
    let result = tokenize(b"(a");
    assert!(matches!(result, Err(ParseError::MissingRightParenthesis)));
    let result = tokenize(b")a");
    assert!(matches!(result, Err(ParseError::MissingLeftParenthesis)));
}

#[test]
fn unterminated_string_is_reported() {
    let result = tokenize(b"\"abc");
    assert!(matches!(result, Err(ParseError::MissingDoubleQuote)));
    let result = tokenize(b"\"abc\"def");
    assert!(matches!(result, Err(ParseError::StringDidntEnd)));
}

#[test]
fn numeric_looking_atom_must_be_a_number() {
    let result = tokenize(b"1bad");
    assert!(matches!(
        result,
        Err(ParseError::CannotParseNumber(text)) if text == "1bad"
    ));
}

#[test]
fn forbidden_char_in_atom_is_reported() {
    let result = tokenize(b"a(b)");
    assert!(matches!(
        result,
        Err(ParseError::ForbiddenCharInSymbol('('))
    ));
}

#[test]
fn nested_form_parses_to_three_levels() {
    let result = tokenize(b"(+ a (* b c d) e)").unwrap();
    let expected = AstNode::List(vec![
        AstNode::Sym(b"+".to_vec()),
        AstNode::Sym(b"a".to_vec()),
        AstNode::List(vec![
            AstNode::Sym(b"*".to_vec()),
            AstNode::Sym(b"b".to_vec()),
            AstNode::Sym(b"c".to_vec()),
            AstNode::Sym(b"d".to_vec()),
        ]),
        AstNode::Sym(b"e".to_vec()),
    ]);
    assert!(matches!(result, AstToken::Parsed(node) if node == expected));
}

#[test]
fn display_is_the_canonical_form() {
    let node = parse(b"( +   1 (a \t b)  \"s t\" -7 )").unwrap();
    let rendered = node.display_bytes();
    assert_eq!(rendered, b"(+ 1 (a b) \"s t\" -7)".to_vec());

    let reparsed = parse(&rendered).unwrap();
    assert_eq!(reparsed, node);
    assert_eq!(reparsed.display_bytes(), rendered);
}

#[test]
fn display_of_atoms() {
    assert_eq!(AstNode::Num(0).display_bytes(), b"0".to_vec());
    assert_eq!(AstNode::Num(-310).display_bytes(), b"-310".to_vec());
    assert_eq!(
        AstNode::Sym(b"swag".to_vec()).display_bytes(),
        b"swag".to_vec()
    );
    assert_eq!(
        AstNode::Str(b"a b".to_vec()).display_bytes(),
        b"\"a b\"".to_vec()
    );
    assert_eq!(AstNode::List(vec![]).display_bytes(), b"()".to_vec());
}

#[test]
fn canonical_form_has_one_exception() {
    // The atom cut rule treats `)` as the cut only when whitespace follows
    // it immediately. A tree whose rendering puts an atom right before two
    // closing parentheses and then a space therefore does not re-parse:
    // the cut lands past both parentheses and the atom text is rejected.
    let node = parse(b"((a (c) ) x)").unwrap();
    let rendered = node.display_bytes();
    assert_eq!(rendered, b"((a (c)) x)".to_vec());
    let reparsed = parse(&rendered);
    assert!(matches!(
        reparsed,
        Err(ParseError::ForbiddenCharInSymbol(')'))
    ));
}

#[test]
fn machine_word_bounds_parse_exactly() {
    let min = tokenize(b"-9223372036854775808").unwrap();
    assert!(matches!(min, AstToken::Parsed(AstNode::Num(-9223372036854775808))));
    let max = tokenize(b"9223372036854775807").unwrap();
    assert!(matches!(max, AstToken::Parsed(AstNode::Num(9223372036854775807))));
    let too_big = tokenize(b"9223372036854775808");
    assert!(matches!(
        too_big,
        Err(ParseError::CannotParseNumber(text)) if text == "9223372036854775808"
    ));
    let leading_zeros = tokenize(b"007").unwrap();
    assert!(matches!(leading_zeros, AstToken::Parsed(AstNode::Num(7))));
}
