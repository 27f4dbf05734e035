use jirsp::eval::eval;
use jirsp::eval::EvalError;
use jirsp::eval::GlobalNamespace;
use jirsp::eval::LispFn;
use jirsp::eval::Value;
use jirsp::tokenize::parse;
use jirsp::tokenize::tokenize;
use jirsp::tokenize::AstNode;
use jirsp::tokenize::AstToken;

#[test]
fn plus_form_tokenizes_and_evaluates() {
    let token = tokenize(b"(+ 1 2)").unwrap();
    let node = match token {
        AstToken::Parsed(node) => node,
        AstToken::ParsedRest(_) => panic!("expected a fully consumed expression"),
    };
    let expected = AstNode::List(vec![
        AstNode::Sym(b"+".to_vec()),
        AstNode::Num(1),
        AstNode::Num(2),
    ]);
    assert_eq!(node, expected);

    let mut namespace = GlobalNamespace::new();
    let result = eval(&node, &mut namespace).unwrap();
    assert_eq!(result, Value::Num(3));
}

#[test]
fn plus_rejects_non_numeric_argument() {
    let node = parse(b"(+ 1 a)").unwrap();
    let mut namespace = GlobalNamespace::new();
    let result = eval(&node, &mut namespace);
    assert!(matches!(result, Err(EvalError::InvalidArguments(_))));
}

#[test]
fn plus_rejects_string_argument() {
    let node = parse(b"(+ 1 \"x\")").unwrap();
    let mut namespace = GlobalNamespace::new();
    let result = eval(&node, &mut namespace);
    assert!(matches!(
        result,
        Err(EvalError::InvalidArguments(reason)) if reason == "Non-number in sum operation"
    ));
}

#[test]
fn unknown_function_is_named_in_the_error() {
    let node = parse(b"(foo 1)").unwrap();
    let mut namespace = GlobalNamespace::new();
    let result = eval(&node, &mut namespace);
    assert!(matches!(
        result,
        Err(EvalError::UnableToEvalFunction(name)) if name == "foo"
    ));
}

#[test]
fn empty_sum_is_zero() {
    let node = parse(b"(+)").unwrap();
    let mut namespace = GlobalNamespace::new();
    let result = eval(&node, &mut namespace).unwrap();
    assert_eq!(result, Value::Num(0));
}

#[test]
fn literals_evaluate_to_themselves() {
    let mut namespace = GlobalNamespace::new();
    let number = eval(&AstNode::Num(-7), &mut namespace).unwrap();
    assert_eq!(number, Value::Num(-7));
    let text = eval(&AstNode::Str(b"hi there".to_vec()), &mut namespace).unwrap();
    assert_eq!(text, Value::Str(b"hi there".to_vec()));
}

#[test]
fn bare_symbol_has_no_binding() {
    let mut namespace = GlobalNamespace::new();
    let result = eval(&AstNode::Sym(b"a".to_vec()), &mut namespace);
    assert!(matches!(result, Err(EvalError::InvalidArguments(_))));
}

#[test]
fn list_head_must_be_a_symbol() {
    let mut namespace = GlobalNamespace::new();
    let empty = eval(&AstNode::List(vec![]), &mut namespace);
    assert!(matches!(empty, Err(EvalError::InvalidArguments(_))));
    let numeric_head = eval(&parse(b"(1 2)").unwrap(), &mut namespace);
    assert!(matches!(numeric_head, Err(EvalError::InvalidArguments(_))));
}

#[test]
fn argument_errors_win_over_lookup_errors() {
    // Arguments are evaluated before the operator is looked up, so the
    // inner unknown function is reported, not the outer one.
    let node = parse(b"(foo (bar 1))").unwrap();
    let mut namespace = GlobalNamespace::new();
    let result = eval(&node, &mut namespace);
    assert!(matches!(
        result,
        Err(EvalError::UnableToEvalFunction(name)) if name == "bar"
    ));
}

#[test]
fn sum_outside_the_machine_word_is_an_error() {
    let node = parse(b"(+ 9223372036854775807 1)").unwrap();
    let mut namespace = GlobalNamespace::new();
    let result = eval(&node, &mut namespace);
    assert!(matches!(
        result,
        Err(EvalError::InvalidArguments(reason)) if reason == "Sum does not fit in a number"
    ));
}

#[test]
fn empty_namespace_knows_nothing_until_defn() {
    let node = parse(b"(+ 1)").unwrap();
    let mut namespace = GlobalNamespace::empty();
    let missing = eval(&node, &mut namespace);
    assert!(matches!(
        missing,
        Err(EvalError::UnableToEvalFunction(name)) if name == "+"
    ));
    namespace.defn(b"+", LispFn::Plus);
    let result = eval(&node, &mut namespace).unwrap();
    assert_eq!(result, Value::Num(1));
}

#[test]
fn defn_overwrites_an_existing_registration() {
    let mut namespace = GlobalNamespace::new();
    namespace.defn(b"+", LispFn::Plus);
    let node = parse(b"(+ 2 3)").unwrap();
    let result = eval(&node, &mut namespace).unwrap();
    assert_eq!(result, Value::Num(5));
}

#[test]
fn default_namespace_matches_new() {
    let mut by_default = GlobalNamespace::default();
    let node = parse(b"(+ 4 5)").unwrap();
    let result = eval(&node, &mut by_default).unwrap();
    assert_eq!(result, Value::Num(9));
}

#[test]
fn primitives_can_be_called_directly() {
    let result = LispFn::Plus
        .call(&[Value::Num(2), Value::Num(40)])
        .unwrap();
    assert_eq!(result, Value::Num(42));
    assert_eq!(Value::Num(5).num(), Some(5));
    assert_eq!(Value::Str(b"x".to_vec()).num(), None);
}
