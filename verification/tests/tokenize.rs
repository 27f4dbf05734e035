use jirsp::parse_error::ParseError;
use jirsp::tokenize::tokenize;
use jirsp::tokenize::AstNode;
use jirsp::tokenize::AstToken;

fn sym(text: &[u8]) -> AstNode {
    AstNode::from_symbol(text)
}

fn list(nodes: Vec<AstNode>) -> AstNode {
    AstNode::List(nodes)
}

#[test]
fn number_tokenized() {
    let result = tokenize(b"  -5124  ").unwrap();
    assert!(matches!(result, AstToken::Parsed(AstNode::Num(-5124))));
}

#[test]
fn returns_error_when_empty() {
    let result = tokenize(b"");
    assert!(matches!(result, Err(ParseError::CannotParseEmpty)));
}

#[test]
fn returns_error_when_starts_in_endparen() {
    let result = tokenize(b" )ads ");
    assert!(matches!(result, Err(ParseError::MissingLeftParenthesis)));
}

#[test]
fn returns_error_when_starts_in_startparen() {
    let result = tokenize(b" (");
    assert!(matches!(result, Err(ParseError::MissingRightParenthesis)));
}

#[test]
fn returns_empty_list_when_empty_list() {
    let result = tokenize(b"()").unwrap();
    assert!(matches!(result, AstToken::Parsed(AstNode::List(the_vec)) if the_vec.is_empty()));
}

#[test]
fn returns_string_when_string() {
    let result = tokenize(b"\"asda asdas dasd\"").unwrap();
    assert!(
        matches!(result, AstToken::Parsed(AstNode::Str(the_str)) if the_str == b"asda asdas dasd")
    );
}

#[test]
fn char_after_quote_in_string_is_bad() {
    let result = tokenize(b"\"asda asdas dasd\"asd");
    assert!(matches!(result, Err(ParseError::StringDidntEnd)));
}

#[test]
fn char_after_quote_in_string_is_bad_in_sexpr() {
    let result = tokenize(b"( asd \"asda asdas dasd\"asd )");
    assert!(matches!(result, Err(ParseError::StringDidntEnd)));
}

#[test]
fn returns_symbol_trimmed_when_list_has_single_element() {
    let result = tokenize(b"  x    ").unwrap();
    assert!(matches!(result, AstToken::Parsed(AstNode::Sym(symbol_str)) if symbol_str == b"x"));
}

#[test]
fn returns_symbol_trimmed_and_rest_when_starts_with_symbol() {
    let result = tokenize(b"  x   y ").unwrap();
    assert!(matches!(
        result,
        AstToken::ParsedRest((AstNode::Sym(symbol_str), rest_str))
            if symbol_str == b"x" && rest_str.trim_ascii() == b"y"
    ));
}

#[test]
fn returns_symbol_trimmed_and_rest_when_starts_with_symbol_complex() {
    let result = tokenize(b"  xasd   y z (x t ) d ( (d) ) ").unwrap();
    assert!(matches!(
        result,
        AstToken::ParsedRest((AstNode::Sym(symbol_str), rest_str))
            if symbol_str == b"xasd" && rest_str.trim_ascii() == b"y z (x t ) d ( (d) )"
    ));
}

#[test]
fn returns_symbol_trimmed_and_rest_when_starts_with_symbol_complex_symb() {
    let result = tokenize(b"  +   y z (x t ) d ( (d) ) ").unwrap();
    assert!(matches!(
        result,
        AstToken::ParsedRest((AstNode::Sym(symbol_str), rest_str))
            if symbol_str == b"+" && rest_str.trim_ascii() == b"y z (x t ) d ( (d) )"
    ));
}

#[test]
fn returns_symbol_trimmed_up_til_before_parenthesis_and_rest() {
    let result = tokenize(b"  +)   y z (x t ) d ( (d) ) ").unwrap();
    assert!(matches!(
        result,
        AstToken::ParsedRest((AstNode::Sym(symbol_str), rest_str))
            if symbol_str == b"+" && rest_str.trim_ascii() == b")   y z (x t ) d ( (d) )"
    ));
}

#[test]
fn returns_parse_error_when_forbidden_char() {
    for &forbidden_char in b"()\"'" {
        let input = format!("  x{}z   y z (x t ) d ( (d) ) ", forbidden_char as char);
        println!("{input}");
        let result = tokenize(input.as_bytes());

        assert!(matches!(
            result,
            Err(ParseError::ForbiddenCharInSymbol(found)) if found == forbidden_char as char
        ));
    }
}

#[test]
fn list_gets_parsed_correctly() {
    let result = tokenize(b"(  a  b (x y) z)").unwrap();
    let expected: AstNode = list(vec![
        sym(b"a"),
        sym(b"b"),
        list(vec![sym(b"x"), sym(b"y")]),
        sym(b"z"),
    ]);
    assert!(matches!(result, AstToken::Parsed(ast_node) if ast_node == expected));
}

#[test]
fn list_gets_parsed_correctly_complex() {
    let result = tokenize(b"(  +  a (* b c d) e )").unwrap();
    let expected: AstNode = list(vec![
        sym(b"+"),
        sym(b"a"),
        list(vec![sym(b"*"), sym(b"b"), sym(b"c"), sym(b"d")]),
        sym(b"e"),
    ]);
    assert!(matches!(result, AstToken::Parsed(ast_node) if ast_node == expected));
}

#[test]
fn list_gets_parsed_correctly_complex_2() {
    let result =
        tokenize(b"(  +  a (\t* \tb (  +ASDNASC  c    d e) f)   (    *   ( *   \ng h i) j  k) )")
            .unwrap();
    let expected: AstNode = list(vec![
        sym(b"+"),
        sym(b"a"),
        list(vec![
            sym(b"*"),
            sym(b"b"),
            list(vec![sym(b"+ASDNASC"), sym(b"c"), sym(b"d"), sym(b"e")]),
            sym(b"f"),
        ]),
        list(vec![
            sym(b"*"),
            list(vec![sym(b"*"), sym(b"g"), sym(b"h"), sym(b"i")]),
            sym(b"j"),
            sym(b"k"),
        ]),
    ]);
    assert!(matches!(result, AstToken::Parsed(ast_node) if ast_node == expected));
}

#[test]
fn list_gets_parsed_correctly_complex_3() {
    let result = tokenize(
        b"(  +  abbas (\t* \tadd=addas (  ASDNASC  lakakas    zo*poplapapas donkozupipas&3f) domperign4o3n2)   (    *   ( *   \nswag_swag_swag_1999 blogger i) j  k) )",
    )
    .unwrap();
    let expected: AstNode = list(vec![
        sym(b"+"),
        sym(b"abbas"),
        list(vec![
            sym(b"*"),
            sym(b"add=addas"),
            list(vec![
                sym(b"ASDNASC"),
                sym(b"lakakas"),
                sym(b"zo*poplapapas"),
                sym(b"donkozupipas&3f"),
            ]),
            sym(b"domperign4o3n2"),
        ]),
        list(vec![
            sym(b"*"),
            list(vec![
                sym(b"*"),
                sym(b"swag_swag_swag_1999"),
                sym(b"blogger"),
                sym(b"i"),
            ]),
            sym(b"j"),
            sym(b"k"),
        ]),
    ]);
    assert!(matches!(result, AstToken::Parsed(ast_node) if ast_node == expected));
}

#[test]
fn list_errors_when_an_element_starts_with_digit_but_is_nan() {
    let result = tokenize(
        b"(  +  abbas (\t* \tadd=addas (  ASDNASC  lakakas    zo*poplapapas donkozupipas&3f) 1domperign4o3n2)   (    *   ( *   \nswag_swag_swag_1999 blogger i) j  k) )",
    );
    assert!(matches!(
        result,
        Err(ParseError::CannotParseNumber(string)) if string == "1domperign4o3n2"
    ));
}
