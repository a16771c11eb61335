use sexpr::grammar::ErrorKind;
use sexpr::parsers::{
    parse_func_args, parse_func_call, parse_func_name, parse_func_node, parse_sexpr,
    parse_term_node, skip_spaces, ParseResult,
};

fn shown<T: std::fmt::Debug>(r: &ParseResult<T>) -> String {
    format!("{:?}", r)
}

fn fails_at<T>(r: ParseResult<T>, input: &str, kind: ErrorKind) -> bool {
    match r {
        Err(e) => e.input == input && e.kind == kind,
        Ok(_) => false,
    }
}

#[test]
fn test_parse_sexpr() {
    assert_eq!(
        shown(&parse_sexpr("(ADD X Y)")),
        r#"Ok(("", Func("ADD", [Term("X"), Term("Y")])))"#
    );
    assert_eq!(
        shown(&parse_sexpr("( ADD  X    Y )")),
        r#"Ok(("", Func("ADD", [Term("X"), Term("Y")])))"#
    );
    assert_eq!(
        shown(&parse_sexpr("( ADD    X (DIV (IF 3 1 3)  2) ( MULT 1 4 1  )  )")),
        r#"Ok(("", Func("ADD", [Term("X"), Func("DIV", [Func("IF", [Term("3"), Term("1"), Term("3")]), Term("2")]), Func("MULT", [Term("1"), Term("4"), Term("1")])])))"#
    );
    assert!(fails_at(
        parse_sexpr("( ADD ()   X Y  )"),
        ")   X Y  )",
        ErrorKind::ExpectedIdentifier
    ));
}

#[test]
fn test_parse_term_node() {
    assert_eq!(shown(&parse_term_node("X")), r#"Ok(("", Term("X")))"#);
    assert_eq!(shown(&parse_term_node("X Y Z")), r#"Ok((" Y Z", Term("X")))"#);
    assert_eq!(
        shown(&parse_term_node("  X123YZ Y92 Z29 ")),
        r#"Ok((" Y92 Z29 ", Term("X123YZ")))"#
    );
    assert!(fails_at(
        parse_term_node(")  X123YZ Y92 Z29 "),
        ")  X123YZ Y92 Z29 ",
        ErrorKind::ExpectedIdentifier
    ));
}

#[test]
fn test_parse_func_node() {
    assert_eq!(
        shown(&parse_func_node(" ( XYZ 1  2   (AD 3) ) ")),
        r#"Ok((" ", Func("XYZ", [Term("1"), Term("2"), Func("AD", [Term("3")])])))"#
    );
    assert!(fails_at(
        parse_func_node(" ( XYZ 1  2   (AD 3 ) "),
        "",
        ErrorKind::ExpectedClosingDelimiter
    ));
}

#[test]
fn test_parse_func_call() {
    assert_eq!(
        shown(&parse_func_call("  ABCD123 X1 (Y 1) Z  ")),
        r#"Ok(("  ", Func("ABCD123", [Term("X1"), Func("Y", [Term("1")]), Term("Z")])))"#
    );
    assert!(fails_at(
        parse_func_call("  (ABCD123 X1 (Y 1) Z)  "),
        "(ABCD123 X1 (Y 1) Z)  ",
        ErrorKind::ExpectedIdentifier
    ));
}

#[test]
fn test_parse_func_name() {
    assert_eq!(shown(&parse_func_name("    ABCD123 ")), r#"Ok((" ", "ABCD123"))"#);
    assert!(fails_at(
        parse_func_name(" (   ABCD123 )"),
        "(   ABCD123 )",
        ErrorKind::ExpectedIdentifier
    ));
}

#[test]
fn test_parse_func_args() {
    assert_eq!(
        shown(&parse_func_args("  X1 (Y 1) Z  ")),
        r#"Ok(("  ", [Term("X1"), Func("Y", [Term("1")]), Term("Z")]))"#
    );
    assert!(fails_at(
        parse_func_args("  (X1 (Y 1) Z   "),
        "",
        ErrorKind::ExpectedClosingDelimiter
    ));
    assert!(fails_at(
        parse_func_args("  ((X1 Y) X) (Y 1) Z   "),
        "(X1 Y) X) (Y 1) Z   ",
        ErrorKind::ExpectedIdentifier
    ));
}

#[test]
fn test_skip_spaces() {
    assert_eq!(
        shown(&skip_spaces("  \t \r  \n\n AABC DEF ")),
        r#"Ok(("AABC DEF ", "  \t \r  \n\n "))"#
    );
}

#[test]
fn single_term_parses_whole_input() {
    assert_eq!(shown(&parse_sexpr("X")), r#"Ok(("", Term("X")))"#);
    assert_eq!(shown(&parse_sexpr("abc09XYZ")), r#"Ok(("", Term("abc09XYZ")))"#);
}

#[test]
fn two_argument_call() {
    assert_eq!(
        shown(&parse_sexpr("(f a1 b2)")),
        r#"Ok(("", Func("f", [Term("a1"), Term("b2")])))"#
    );
}

#[test]
fn whitespace_of_every_kind_is_skipped() {
    let plain = shown(&parse_sexpr("(ADD X (MUL Y Z))"));
    let spaced = shown(&parse_sexpr(" \t(\r\nADD\tX \n( MUL\r\rY  Z\t)\n)"));
    assert_eq!(plain, r#"Ok(("", Func("ADD", [Term("X"), Func("MUL", [Term("Y"), Term("Z")])])))"#);
    assert_eq!(spaced, plain);
}

#[test]
fn nested_expression_keeps_its_tree() {
    let alone = shown(&parse_sexpr("(IF 3 1 3)"));
    assert_eq!(alone, r#"Ok(("", Func("IF", [Term("3"), Term("1"), Term("3")])))"#);
    assert_eq!(
        shown(&parse_sexpr("(DIV (IF 3 1 3))")),
        r#"Ok(("", Func("DIV", [Func("IF", [Term("3"), Term("1"), Term("3")])])))"#
    );
}

#[test]
fn call_without_arguments_is_rejected() {
    assert!(fails_at(parse_sexpr("(ADD)"), ")", ErrorKind::ExpectedIdentifier));
}

#[test]
fn unterminated_call_is_rejected_at_end() {
    assert!(fails_at(parse_sexpr("(ADD X Y"), "", ErrorKind::ExpectedClosingDelimiter));
}

#[test]
fn nested_expression_as_name_is_rejected() {
    assert!(fails_at(parse_sexpr("(ADD () X Y)"), ") X Y)", ErrorKind::ExpectedIdentifier));
}

#[test]
fn closing_delimiter_first_is_rejected_at_start() {
    assert!(fails_at(parse_sexpr(")  X"), ")  X", ErrorKind::ExpectedIdentifier));
}

#[test]
fn empty_and_blank_input_are_rejected() {
    assert!(fails_at(parse_sexpr(""), "", ErrorKind::ExpectedIdentifier));
    assert!(fails_at(parse_sexpr(" \t\n"), "", ErrorKind::ExpectedIdentifier));
    assert!(fails_at(parse_func_args(""), "", ErrorKind::ExpectedIdentifier));
}

#[test]
fn trailing_text_is_left_unconsumed() {
    assert_eq!(shown(&parse_sexpr("(A B) (C D)")), r#"Ok((" (C D)", Func("A", [Term("B")])))"#);
    assert_eq!(shown(&parse_sexpr("X)")), r#"Ok((")", Term("X")))"#);
}

#[test]
fn non_ascii_letters_end_a_term() {
    assert_eq!(shown(&parse_sexpr("abé")), r#"Ok(("é", Term("ab")))"#);
    assert!(fails_at(parse_sexpr("é"), "é", ErrorKind::ExpectedIdentifier));
    assert_eq!(shown(&parse_sexpr("(é")), r#"Err(ParseError { input: "é", kind: ExpectedIdentifier })"#);
}

#[test]
fn punctuation_is_no_identifier() {
    assert!(fails_at(parse_term_node("_x"), "_x", ErrorKind::ExpectedIdentifier));
    assert!(fails_at(parse_sexpr("(ADD X-1)"), "-1)", ErrorKind::ExpectedClosingDelimiter));
}

#[test]
fn missing_close_reported_at_offending_character() {
    assert!(fails_at(parse_func_node("(A B ]"), "]", ErrorKind::ExpectedClosingDelimiter));
}

#[test]
fn skip_spaces_on_text_without_spaces() {
    assert_eq!(shown(&skip_spaces("ABC")), r#"Ok(("ABC", ""))"#);
    assert_eq!(shown(&skip_spaces("")), r#"Ok(("", ""))"#);
    assert_eq!(shown(&skip_spaces(" \t")), r#"Ok(("", " \t"))"#);
}

#[test]
fn nested_calls_from_the_description() {
    assert_eq!(
        shown(&parse_sexpr("( ADD X (DIV (IF 3 1 3) 2) (MULT 1 4 1))")),
        r#"Ok(("", Func("ADD", [Term("X"), Func("DIV", [Func("IF", [Term("3"), Term("1"), Term("3")]), Term("2")]), Func("MULT", [Term("1"), Term("4"), Term("1")])])))"#
    );
}

#[test]
fn whitespace_around_a_closing_delimiter() {
    let plain = shown(&parse_sexpr("(F (G X)Y)"));
    assert_eq!(plain, r#"Ok(("", Func("F", [Func("G", [Term("X")]), Term("Y")])))"#);
    assert_eq!(shown(&parse_sexpr("(F (G X) Y)")), plain);
    assert_eq!(shown(&parse_sexpr("(F(G X)Y)")), plain);
}

#[test]
fn space_inside_an_identifier_splits_it() {
    assert_eq!(
        shown(&parse_sexpr("(F AB)")),
        r#"Ok(("", Func("F", [Term("AB")])))"#
    );
    assert_eq!(
        shown(&parse_sexpr("(F A B)")),
        r#"Ok(("", Func("F", [Term("A"), Term("B")])))"#
    );
}
