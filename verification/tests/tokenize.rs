use raytracer::tokenize::{NumberLit, Op, Sep, Token, TokenizeError, Tokenizer};

fn toks(input: &str) -> Vec<Token> {
    Tokenizer::new(input.chars().collect())
        .tokenize()
        .expect("tokenize failed")
}

fn toks_err(input: &str) -> TokenizeError {
    Tokenizer::new(input.chars().collect())
        .tokenize()
        .expect_err("tokenize unexpectedly succeeded")
}

fn num(negative: bool, whole: &str, frac: &str) -> Token {
    Token::Number(NumberLit {
        negative,
        whole: String::from(whole),
        frac: String::from(frac),
    })
}

#[test]
fn empty_input_has_no_tokens() {
    assert_eq!(toks(""), vec![]);
    assert_eq!(toks("   \t\n  "), vec![]);
}

#[test]
fn identifiers_and_keywords() {
    assert_eq!(
        toks("foo true yes false no bar_1"),
        vec![
            Token::Identifier(String::from("foo")),
            Token::Boolean(true),
            Token::Boolean(true),
            Token::Boolean(false),
            Token::Boolean(false),
            Token::Identifier(String::from("bar_1")),
        ]
    );
}

#[test]
fn keywords_embedded_in_longer_identifiers_stay_identifiers() {
    assert_eq!(
        toks("truex no_pe"),
        vec![
            Token::Identifier(String::from("truex")),
            Token::Identifier(String::from("no_pe")),
        ]
    );
}

#[test]
fn simple_string() {
    assert_eq!(toks("\"hello\""), vec![Token::Text(String::from("hello"))]);
}

#[test]
fn string_with_escaped_quote() {
    assert_eq!(
        toks("\"a\\\"b\""),
        vec![Token::Text(String::from("a\"b"))]
    );
}

#[test]
fn string_with_newline_escape() {
    // After an escaped `n` the escape stays armed, so a following quote is
    // taken literally and the text runs to the end of the input.
    let t = toks("\"\\nn\"");
    assert_eq!(t, vec![Token::Text(String::from("\n\n\""))]);
}

#[test]
fn unterminated_string_yields_what_was_gathered() {
    assert_eq!(toks("\"abc"), vec![Token::Text(String::from("abc"))]);
}

#[test]
fn integers_and_decimals() {
    assert_eq!(toks("12"), vec![num(false, "12", "0")]);
    assert_eq!(toks("3.5"), vec![num(false, "3", "5")]);
    assert_eq!(toks("1."), vec![num(false, "1", "0")]);
    assert_eq!(toks("-7"), vec![num(true, "7", "0")]);
    assert_eq!(toks("-12.5"), vec![num(true, "12", "5")]);
}

#[test]
fn two_decimal_points_are_refused() {
    assert_eq!(toks_err("1.2.3"), TokenizeError::UnexpectedCharacter('.'));
}

#[test]
fn minus_before_non_digit_is_subtraction() {
    assert_eq!(
        toks("a - b"),
        vec![
            Token::Identifier(String::from("a")),
            Token::Op(Op::Sub),
            Token::Identifier(String::from("b")),
        ]
    );
}

#[test]
fn minus_at_end_is_an_error() {
    assert_eq!(toks_err("-"), TokenizeError::UnexpectedEnd);
}

#[test]
fn operators_and_separators() {
    assert_eq!(
        toks("+ * / < > = , : { } ( ) [ ] .."),
        vec![
            Token::Op(Op::Add),
            Token::Op(Op::Mul),
            Token::Op(Op::Div),
            Token::Op(Op::Lt),
            Token::Op(Op::Gt),
            Token::Op(Op::Assign),
            Token::Sep(Sep::Comma),
            Token::Sep(Sep::Colon),
            Token::Sep(Sep::BraceOpen),
            Token::Sep(Sep::BraceClose),
            Token::Sep(Sep::ParensOpen),
            Token::Sep(Sep::ParensClose),
            Token::Sep(Sep::BracketOpen),
            Token::Sep(Sep::BracketClose),
            Token::Op(Op::RangeExclusive),
        ]
    );
}

#[test]
fn lone_dot_at_end_is_an_error() {
    assert_eq!(toks_err("."), TokenizeError::UnexpectedEnd);
}

#[test]
fn dot_before_non_dot_is_an_error() {
    assert_eq!(toks_err(".5"), TokenizeError::UnexpectedCharacter('5'));
}

#[test]
fn stray_character_is_an_error() {
    assert_eq!(toks_err("a & b"), TokenizeError::UnexpectedCharacter('&'));
}

#[test]
fn comments_run_to_end_of_line() {
    assert_eq!(
        toks("a # all of this is skipped\nb"),
        vec![
            Token::Identifier(String::from("a")),
            Token::Identifier(String::from("b")),
        ]
    );
    assert_eq!(toks("# only a comment"), vec![]);
}

#[test]
fn a_small_scene_snippet() {
    assert_eq!(
        toks("sphere { origin: (0, 1, -3), radius: 0.5, visible: yes }"),
        vec![
            Token::Identifier(String::from("sphere")),
            Token::Sep(Sep::BraceOpen),
            Token::Identifier(String::from("origin")),
            Token::Sep(Sep::Colon),
            Token::Sep(Sep::ParensOpen),
            num(false, "0", "0"),
            Token::Sep(Sep::Comma),
            num(false, "1", "0"),
            Token::Sep(Sep::Comma),
            num(true, "3", "0"),
            Token::Sep(Sep::ParensClose),
            Token::Sep(Sep::Comma),
            Token::Identifier(String::from("radius")),
            Token::Sep(Sep::Colon),
            num(false, "0", "5"),
            Token::Sep(Sep::Comma),
            Token::Identifier(String::from("visible")),
            Token::Sep(Sep::Colon),
            Token::Boolean(true),
            Token::Sep(Sep::BraceClose),
        ]
    );
}

#[test]
fn ranges_between_numbers() {
    // A number swallows the first dot of `0..10` as its decimal point, so a
    // range between numbers needs the spacing `0 .. 10`.
    assert_eq!(
        toks("0 .. 10"),
        vec![
            num(false, "0", "0"),
            Token::Op(Op::RangeExclusive),
            num(false, "10", "0"),
        ]
    );
    assert_eq!(toks_err("0..10"), TokenizeError::UnexpectedCharacter('.'));
}

#[test]
fn read_identifier_stops_at_non_ident_char() {
    let mut t = Tokenizer::new("abc+rest".chars().collect());
    let ident = t.read_identifier();
    assert_eq!(ident, String::from("abc"));
    assert_eq!(t.pos, 3);
}

#[test]
fn read_string_consumes_through_closing_quote() {
    let mut t = Tokenizer::new("\"ab\"c".chars().collect());
    let text = t.read_string();
    assert_eq!(text, String::from("ab"));
    assert_eq!(t.pos, 4);
}

#[test]
fn read_number_with_no_digits_is_refused() {
    let mut t = Tokenizer::new(".".chars().collect());
    assert_eq!(t.read_number(false), Err(TokenizeError::NumberParseError));
}

#[test]
fn read_number_parses_sign_and_digits() {
    let mut t = Tokenizer::new("-4.25".chars().collect());
    let lit = t.read_number(false).expect("number expected");
    assert!(lit.negative);
    assert_eq!(lit.whole, String::from("4"));
    assert_eq!(lit.frac, String::from("25"));
    assert_eq!(t.pos, 5);
}

#[test]
fn next_walks_the_input() {
    let mut t = Tokenizer::new("ab".chars().collect());
    assert_eq!(t.next(), Some('a'));
    assert_eq!(t.next(), Some('b'));
    assert_eq!(t.next(), None);
}

#[test]
fn latin1_letters_continue_identifiers() {
    // Bytes decode one-to-one to the first 256 characters, and the Latin-1
    // letters among them may continue an identifier.
    assert_eq!(
        toks("caf\u{e9} = 1"),
        vec![
            Token::Identifier(String::from("caf\u{e9}")),
            Token::Op(Op::Assign),
            num(false, "1", "0"),
        ]
    );
}

#[test]
fn tokenizing_from_bytes() {
    let mut r = raytracer::reader::CharReader::new(b"radius: 2.5".to_vec());
    let tokens = Tokenizer::new(r.read_all()).tokenize().unwrap();
    assert_eq!(
        tokens,
        vec![
            Token::Identifier(String::from("radius")),
            Token::Sep(Sep::Colon),
            num(false, "2", "5"),
        ]
    );
}
