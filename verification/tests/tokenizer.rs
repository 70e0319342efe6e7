use template_tokens::parse::{parse_template_inner, tokenize, try_parse_variable_segment};
use template_tokens::parse::{Error, ErrorType, Token};
use template_tokens::Variable;

#[test]
fn parse_with_equals_works() {
    let s = "SOME_VAR={{ t1 }}\nexport THING=$SOME_VAR";
    let tkns = tokenize(s).unwrap();
    assert_eq!(
        tkns.as_slice(),
        &[
            Token::Str("SOME_VAR=".to_string()),
            Token::Variable(Variable::single("t1".to_string())),
            Token::Str("\nexport THING=$SOME_VAR".to_string()),
        ]
    )
}

#[test]
fn parse_template_inner_parses_the_start_of_a_template() {
    let s = "some.txt }}h1";
    let (var, offset) = parse_template_inner(s).unwrap().unwrap();
    assert_eq!(offset, s.len() - 2);
    assert_eq!(
        &var,
        &Variable::from_parts(vec!["some".to_string(), "txt".to_string()])
    );
}

#[test]
fn parsing_template_extracts_engine_samples() {
    let parsed = tokenize("{{ var }}etc").unwrap();
    assert_eq!(
        parsed.as_slice(),
        &[
            Token::Variable(Variable::from_parts(vec!["var".to_owned()])),
            Token::Str("etc".to_string())
        ]
    );
}

#[test]
fn empty_input_gives_no_tokens() {
    assert_eq!(tokenize("").unwrap(), vec![]);
}

#[test]
fn input_without_delimiters_is_one_literal() {
    let s = "export THING=plain text, no references";
    let tkns = tokenize(s).unwrap();
    assert_eq!(tkns.as_slice(), &[Token::Str(s.to_string())]);
}

#[test]
fn embedded_dotted_variable_splits_in_three() {
    let tkns = tokenize("pre {{ a.b.c }} post").unwrap();
    assert_eq!(
        tkns.as_slice(),
        &[
            Token::Str("pre ".to_string()),
            Token::Variable(Variable::from_parts(vec![
                "a".to_string(),
                "b".to_string(),
                "c".to_string()
            ])),
            Token::Str(" post".to_string()),
        ]
    );
}

#[test]
fn round_trip_reconstructs_the_input() {
    let s = "x{{a.b}}y{{c}}z";
    let tkns = tokenize(s).unwrap();
    let ab = Variable::from_parts(vec!["a".to_string(), "b".to_string()]);
    let just_c = Variable::from_parts(vec!["c".to_string()]);
    let mut rebuilt = String::new();
    for t in &tkns {
        match t {
            Token::Str(text) => rebuilt.push_str(text),
            Token::Variable(v) => {
                // render the reference back as its dotted source span
                let dotted = if *v == ab {
                    "a.b"
                } else {
                    assert_eq!(*v, just_c);
                    "c"
                };
                rebuilt.push_str("{{");
                rebuilt.push_str(dotted);
                rebuilt.push_str("}}");
            }
        }
    }
    assert_eq!(rebuilt, s);
}

#[test]
fn unterminated_open_delimiter_is_literal() {
    let s = "abc {{ def";
    let tkns = tokenize(s).unwrap();
    assert_eq!(tkns.as_slice(), &[Token::Str(s.to_string())]);
}

#[test]
fn newline_in_variable_body_fails_at_the_newline() {
    let e = tokenize("{{ a\nb }}").unwrap_err();
    assert_eq!(e.ty, ErrorType::NewlineInVariableSegment);
    assert_eq!(e.offset, (4, 0));
}

#[test]
fn newline_fault_reports_the_open_line() {
    let e = tokenize("ab\n{{ x\ny }}").unwrap_err();
    assert_eq!(e.ty, ErrorType::NewlineInVariableSegment);
    assert_eq!(e.offset, (4, 1));
}

#[test]
fn empty_body_fails() {
    let e = tokenize("{{}}").unwrap_err();
    assert_eq!(e.ty, ErrorType::EmptyVariableSegment);
    assert_eq!(e.offset, (2, 0));
}

#[test]
fn blank_body_fails() {
    let e = tokenize("{{   }}").unwrap_err();
    assert_eq!(e.ty, ErrorType::EmptyVariableSegment);
    assert_eq!(e.offset, (5, 0));
}

#[test]
fn double_dot_in_body_fails() {
    let e = tokenize("{{ a..b }}").unwrap_err();
    assert_eq!(e.ty, ErrorType::EmptyVariableSegment);
    assert_eq!(e.offset, (5, 0));
}

#[test]
fn leading_dot_in_body_fails() {
    let e = tokenize("{{ .a }}").unwrap_err();
    assert_eq!(e.ty, ErrorType::EmptyVariableSegment);
    assert_eq!(e.offset, (3, 0));
}

#[test]
fn trailing_dot_piece_is_dropped() {
    // a trailing piece that trims to nothing is not a segment; the body
    // still closes with the segments collected before it
    let tkns = tokenize("{{a. }}").unwrap();
    assert_eq!(
        tkns.as_slice(),
        &[Token::Variable(Variable::from_parts(vec!["a".to_string()]))]
    );
}

#[test]
fn adjacent_variables_both_parse() {
    let tkns = tokenize("{{ a }}{{ b }}").unwrap();
    assert_eq!(
        tkns.as_slice(),
        &[
            Token::Variable(Variable::from_parts(vec!["a".to_string()])),
            Token::Variable(Variable::from_parts(vec!["b".to_string()])),
        ]
    );
}

#[test]
fn non_ascii_literals_survive() {
    let tkns = tokenize("héllo {{ a }} wörld").unwrap();
    assert_eq!(
        tkns.as_slice(),
        &[
            Token::Str("héllo ".to_string()),
            Token::Variable(Variable::from_parts(vec!["a".to_string()])),
            Token::Str(" wörld".to_string()),
        ]
    );
}

#[test]
fn segment_scan_returns_text_before_dot() {
    let r = try_parse_variable_segment("abc.def").unwrap().unwrap();
    assert_eq!(r, "abc");
}

#[test]
fn segment_scan_rejects_leading_dot() {
    let e = try_parse_variable_segment(".x").unwrap().unwrap_err();
    assert_eq!(e.ty, ErrorType::EmptyVariableSegment);
    assert_eq!(e.offset, (0, 0));
}

#[test]
fn segment_scan_rejects_newline() {
    let e = try_parse_variable_segment("ab\nc").unwrap().unwrap_err();
    assert_eq!(e.ty, ErrorType::NewlineInVariableSegment);
    assert_eq!(e.offset, (2, 0));
}

#[test]
fn segment_scan_without_boundary_is_none() {
    assert!(try_parse_variable_segment("abc def").is_none());
}

#[test]
fn error_new_and_add_offset_shift_position() {
    let e = Error::new((3, 1), ErrorType::EmptyVariableSegment);
    let e = e.add_offset((2, 4));
    assert_eq!(e.offset, (5, 5));
    assert_eq!(e.ty, ErrorType::EmptyVariableSegment);
}

#[test]
fn error_message_is_one_based() {
    let e = Error::new((4, 0), ErrorType::NewlineInVariableSegment);
    assert_eq!(e.message(), "newline in variable segment at line 1 column 5");
}

#[test]
fn error_message_renders_multi_digit_positions() {
    let e = Error::new((99, 9), ErrorType::EmptyVariableSegment);
    assert_eq!(
        e.message(),
        "empty variable segment name at line 10 column 100"
    );
}

#[test]
fn unterminated_open_with_dots_is_literal() {
    let s = "x{{ a.b";
    let tkns = tokenize(s).unwrap();
    assert_eq!(tkns.as_slice(), &[Token::Str(s.to_string())]);
}

#[test]
fn unterminated_open_after_a_variable_is_literal() {
    let tkns = tokenize("{{ a }}x{{y").unwrap();
    assert_eq!(
        tkns.as_slice(),
        &[
            Token::Variable(Variable::from_parts(vec!["a".to_string()])),
            Token::Str("x{{y".to_string()),
        ]
    );
}

#[test]
fn dotted_segments_are_trimmed() {
    let tkns = tokenize("{{ first . second }}").unwrap();
    assert_eq!(
        tkns.as_slice(),
        &[Token::Variable(Variable::from_parts(vec![
            "first".to_string(),
            "second".to_string()
        ]))]
    );
}
