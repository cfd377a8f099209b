use msdparser::lexer::{lex_msd, MSDLexer, MSDToken, MSDTokenMatch, Tokenizer, BUFFER_SIZE};
use msdparser::parser::{Assembler, MSDParser};
use msdparser::text::char_is_whitespace;
use msdparser::{parse_msd, MSDParameter, MSDParserError};

fn token(kind: MSDToken, text: &str) -> MSDTokenMatch {
    MSDTokenMatch::new(kind, text.to_string())
}

fn parameter(components: &[&str]) -> MSDParameter {
    MSDParameter::new(components.iter().map(|c| c.to_string()).collect())
}

fn stray(message: &str) -> MSDParserError {
    MSDParserError(message.to_string())
}

#[test]
fn a_backslash_that_ends_the_input_is_text() {
    let tokens = lex_msd(b"#A:B\\", true).collect();
    assert_eq!(
        vec![
            token(MSDToken::StartParameter, "#"),
            token(MSDToken::Text, "A"),
            token(MSDToken::NextComponent, ":"),
            token(MSDToken::Text, "B"),
            token(MSDToken::Text, "\\"),
        ],
        tokens
    );

    let mut parser = parse_msd(b"#A:B\\", true, false);
    assert_eq!(Some(Ok(parameter(&["A", "B\\"]))), parser.next());
    assert_eq!(None, parser.next());
}

#[test]
fn an_escape_outside_a_parameter_is_text() {
    let tokens = lex_msd(b"\\:#\\:", true).collect();
    assert_eq!(
        vec![
            token(MSDToken::Text, "\\:"),
            token(MSDToken::StartParameter, "#"),
            token(MSDToken::Escape, "\\:"),
        ],
        tokens
    );

    let mut parser = parse_msd(b"\\:#A;", true, false);
    assert_eq!(Some(Err(stray("stray '\\' encountered at start of document"))), parser.next());
    assert_eq!(Some(Ok(parameter(&["A"]))), parser.next());
    assert_eq!(None, parser.next());
}

#[test]
fn an_escape_takes_one_whole_character() {
    let tokens = lex_msd("#\\実例".as_bytes(), true).collect();
    assert_eq!(
        vec![
            token(MSDToken::StartParameter, "#"),
            token(MSDToken::Escape, "\\実"),
            token(MSDToken::Text, "例"),
        ],
        tokens
    );

    let mut parser = parse_msd("#\\実例".as_bytes(), true, false);
    assert_eq!(Some(Ok(parameter(&["実例"]))), parser.next());
}

#[test]
fn a_lone_slash_is_text_and_two_begin_a_comment() {
    let tokens = lex_msd(b"#a/b//c/d\r/", true).collect();
    assert_eq!(
        vec![
            token(MSDToken::StartParameter, "#"),
            token(MSDToken::Text, "a"),
            token(MSDToken::Text, "/"),
            token(MSDToken::Text, "b"),
            token(MSDToken::Comment, "//c/d"),
            token(MSDToken::Text, "\r"),
            token(MSDToken::Text, "/"),
        ],
        tokens
    );
}

#[test]
fn a_pound_sign_inside_a_parameter_is_text_unless_a_line_ended() {
    let mut parser = parse_msd(b"#A:B#C;#D:E\n#F;", true, false);
    assert_eq!(Some(Ok(parameter(&["A", "B#C"]))), parser.next());
    assert_eq!(Some(Ok(parameter(&["D", "E\n"]))), parser.next());
    assert_eq!(Some(Ok(parameter(&["F"]))), parser.next());
    assert_eq!(None, parser.next());
}

#[test]
fn only_the_last_text_token_counts_for_recovery() {
    let tokens = lex_msd(b"#A\n:B#C", true).collect();
    assert_eq!(
        vec![
            token(MSDToken::StartParameter, "#"),
            token(MSDToken::Text, "A\n"),
            token(MSDToken::NextComponent, ":"),
            token(MSDToken::Text, "B"),
            token(MSDToken::Text, "#"),
            token(MSDToken::Text, "C"),
        ],
        tokens
    );

    let tokens = lex_msd(b"#A\r// note\n#B", true).collect();
    assert_eq!(
        vec![
            token(MSDToken::StartParameter, "#"),
            token(MSDToken::Text, "A\r"),
            token(MSDToken::Comment, "// note"),
            token(MSDToken::Text, "\n"),
            token(MSDToken::StartParameter, "#"),
            token(MSDToken::Text, "B"),
        ],
        tokens
    );
}

#[test]
fn blank_text_and_a_byte_order_mark_are_not_stray() {
    let mut parser = parse_msd("\u{feff}#A:B;\r\n \t\u{3000}\n#C:D;\n".as_bytes(), true, false);
    assert_eq!(Some(Ok(parameter(&["A", "B"]))), parser.next());
    assert_eq!(Some(Ok(parameter(&["C", "D"]))), parser.next());
    assert_eq!(None, parser.next());
}

#[test]
fn a_byte_order_mark_with_more_text_is_stray() {
    let mut parser = parse_msd("\u{feff}\n#A:B;".as_bytes(), true, false);
    assert_eq!(
        Some(Err(stray("stray '\u{feff}' encountered at start of document"))),
        parser.next()
    );
    assert_eq!(Some(Ok(parameter(&["A", "B"]))), parser.next());
}

#[test]
fn stray_text_is_named_by_its_first_visible_character() {
    let mut parser = parse_msd(b"#KEY:v;\n  \t x y\n#B;", true, false);
    assert_eq!(Some(Ok(parameter(&["KEY", "v"]))), parser.next());
    assert_eq!(Some(Err(stray("stray 'x' encountered after 'KEY' parameter"))), parser.next());
    assert_eq!(Some(Ok(parameter(&["B"]))), parser.next());
    assert_eq!(None, parser.next());
    assert_eq!(None, parser.next());
}

#[test]
fn an_empty_document_has_no_tokens() {
    let mut lexer: MSDLexer = lex_msd(b"", true);
    assert_eq!(None, lexer.next_token());
    assert_eq!(None, lexer.next());
    let mut parser: MSDParser = parse_msd(b"", false, false);
    assert_eq!(None, parser.next_parameter());
}

#[test]
fn a_text_run_is_cut_where_a_chunk_ends() {
    let mut input = String::from("A\n");
    while input.len() < BUFFER_SIZE + 906 {
        input.push('B');
    }
    let tokens = lex_msd(input.as_bytes(), true).collect();
    assert_eq!(2, tokens.len());
    assert_eq!(input[..BUFFER_SIZE], tokens[0].text);
    assert_eq!(input[BUFFER_SIZE..], tokens[1].text);
    assert_eq!(MSDToken::Text, tokens[1].token);
}

#[test]
fn a_text_run_with_no_line_end_waits_for_the_end() {
    let mut input = String::from("#");
    while input.len() < 3 * BUFFER_SIZE {
        input.push('B');
    }
    let tokens = lex_msd(input.as_bytes(), true).collect();
    assert_eq!(2, tokens.len());
    assert_eq!(input[1..], tokens[1].text);
}

#[test]
fn a_character_cut_by_a_chunk_end_is_read_whole() {
    for character in ["é", "実", "😀"] {
        for before in 1..=character.len() {
            let mut input = String::from("\n");
            while input.len() < BUFFER_SIZE - before {
                input.push('a');
            }
            input.push_str(character);
            input.push_str(";\n#A:B;");
            assert!(!input.is_char_boundary(BUFFER_SIZE) || before == character.len());
            let tokens = lex_msd(input.as_bytes(), true).collect();
            let mut text = String::new();
            for token in &tokens {
                text.push_str(&token.text);
            }
            assert_eq!(input, text);
        }
    }
}

#[test]
fn a_character_is_read_whole_when_its_bytes_come_one_by_one() {
    let mut tokenizer = Tokenizer::new(true);
    for byte in "#実😀é\n".as_bytes() {
        tokenizer.feed(&[*byte]);
    }
    assert_eq!(Some(token(MSDToken::StartParameter, "#")), tokenizer.take_token());
    assert_eq!(Some(token(MSDToken::Text, "実😀é\n")), tokenizer.take_token());
    assert_eq!(None, tokenizer.take_token());
}

#[test]
fn a_character_that_the_input_leaves_unfinished_is_replaced() {
    let mut tokenizer = Tokenizer::new(true);
    tokenizer.feed(&[b'#', b'A', 0xe5, 0xae]);
    tokenizer.feed(b"");
    assert_eq!(Some(token(MSDToken::StartParameter, "#")), tokenizer.take_token());
    assert_eq!(Some(token(MSDToken::Text, "A\u{fffd}")), tokenizer.take_token());
    assert_eq!(None, tokenizer.take_token());
    assert!(tokenizer.is_exhausted());

    let tokens = lex_msd(&[b'#', 0xe5, b';', 0xf0, 0x9f], true).collect();
    assert_eq!(
        vec![
            token(MSDToken::StartParameter, "#"),
            token(MSDToken::Text, "\u{fffd}"),
            token(MSDToken::EndParameter, ";"),
            token(MSDToken::Text, "\u{fffd}"),
        ],
        tokens
    );
}

#[test]
fn tokens_are_cut_off_without_more_input_while_a_line_end_is_held() {
    let mut tokenizer = Tokenizer::new(true);
    tokenizer.feed(b"#A:B;\n#C:D;\n#E");
    let expected = [
        token(MSDToken::StartParameter, "#"),
        token(MSDToken::Text, "A"),
        token(MSDToken::NextComponent, ":"),
        token(MSDToken::Text, "B"),
        token(MSDToken::EndParameter, ";"),
        token(MSDToken::Text, "\n"),
        token(MSDToken::StartParameter, "#"),
        token(MSDToken::Text, "C"),
        token(MSDToken::NextComponent, ":"),
        token(MSDToken::Text, "D"),
        token(MSDToken::EndParameter, ";"),
        token(MSDToken::Text, "\n"),
    ];
    for token in expected {
        assert_eq!(Some(token), tokenizer.take_token());
        assert!(!tokenizer.is_exhausted());
    }
    assert_eq!(None, tokenizer.take_token());
}

#[test]
fn a_text_run_ends_where_the_chunk_ends_that_brought_a_line_end() {
    let mut input = String::from("#A\n");
    while input.len() < BUFFER_SIZE + 907 {
        input.push('B');
    }
    input.push(';');
    let tokens = lex_msd(input.as_bytes(), true).collect();
    assert_eq!(
        vec![
            token(MSDToken::StartParameter, "#"),
            token(MSDToken::Text, &input[1..BUFFER_SIZE]),
            token(MSDToken::Text, &input[BUFFER_SIZE..BUFFER_SIZE + 907]),
            token(MSDToken::EndParameter, ";"),
        ],
        tokens
    );
    let mut parser = parse_msd(input.as_bytes(), true, false);
    assert_eq!(
        Some(Ok(MSDParameter::new(vec![input[1..BUFFER_SIZE + 907].to_string()]))),
        parser.next()
    );
    assert_eq!(None, parser.next());
}

#[test]
fn bytes_that_are_not_text_are_replaced() {
    let tokens = lex_msd(&[b'#', 0xff, b';'], true).collect();
    assert_eq!(
        vec![
            token(MSDToken::StartParameter, "#"),
            token(MSDToken::Text, "\u{fffd}"),
            token(MSDToken::EndParameter, ";"),
        ],
        tokens
    );
}

#[test]
fn a_tokenizer_waits_for_a_line_end_or_the_end() {
    let mut tokenizer = Tokenizer::new(true);
    assert!(!tokenizer.is_exhausted());
    assert_eq!(None, tokenizer.take_token());
    tokenizer.feed(b"#A:B\\");
    assert_eq!(None, tokenizer.take_token());
    tokenizer.feed(b";C");
    assert_eq!(None, tokenizer.take_token());
    tokenizer.feed(b"\nD");
    assert_eq!(Some(token(MSDToken::StartParameter, "#")), tokenizer.take_token());
    assert_eq!(Some(token(MSDToken::Text, "A")), tokenizer.take_token());
    assert_eq!(Some(token(MSDToken::NextComponent, ":")), tokenizer.take_token());
    assert_eq!(Some(token(MSDToken::Text, "B")), tokenizer.take_token());
    assert_eq!(Some(token(MSDToken::Escape, "\\;")), tokenizer.take_token());
    assert_eq!(Some(token(MSDToken::Text, "C\nD")), tokenizer.take_token());
    assert_eq!(None, tokenizer.take_token());
    tokenizer.feed(b";");
    assert_eq!(None, tokenizer.take_token());
    assert!(!tokenizer.is_exhausted());
    tokenizer.feed(b"");
    assert!(!tokenizer.is_exhausted());
    assert_eq!(Some(token(MSDToken::EndParameter, ";")), tokenizer.take_token());
    assert!(tokenizer.is_exhausted());
    assert_eq!(None, tokenizer.take_token());
}

#[test]
fn an_assembler_takes_tokens_one_by_one() {
    let mut assembler = Assembler::new(false);
    assert!(!assembler.ignores_stray_text());
    assert_eq!(None, assembler.accept(token(MSDToken::NextComponent, ":")));
    assert_eq!(None, assembler.accept(token(MSDToken::EndParameter, ";")));
    assert_eq!(None, assembler.accept(token(MSDToken::Comment, "// x")));
    assert_eq!(None, assembler.accept(token(MSDToken::Text, " \n")));
    assert_eq!(None, assembler.accept(token(MSDToken::StartParameter, "#")));
    assert!(assembler.is_inside_parameter());
    assert_eq!(None, assembler.accept(token(MSDToken::Text, "K")));
    assert_eq!(None, assembler.accept(token(MSDToken::Escape, "\\#")));
    assert_eq!(None, assembler.accept(token(MSDToken::Comment, "// x")));
    assert_eq!(None, assembler.accept(token(MSDToken::NextComponent, ":")));
    assert_eq!(None, assembler.accept(token(MSDToken::Escape, "")));
    assert_eq!(&vec!["K#".to_string(), "".to_string()], assembler.components());
    assert_eq!(
        Some(Ok(parameter(&["K#", ""]))),
        assembler.accept(token(MSDToken::StartParameter, "#"))
    );
    assert_eq!(&Some("K#".to_string()), assembler.last_key());
    assert!(assembler.is_inside_parameter());
    assert_eq!(Some(Ok(parameter(&[""]))), assembler.finish());
    assert!(!assembler.is_inside_parameter());
    assert_eq!(&Some("".to_string()), assembler.last_key());
    assert_eq!(None, assembler.finish());
    assert_eq!(
        Some(Err(stray("stray '\\' encountered after '' parameter"))),
        assembler.accept(token(MSDToken::Escape, "\\x"))
    );
}

#[test]
fn whitespace_is_what_the_standard_library_calls_whitespace() {
    let mut code: u32 = 0;
    while code <= 0x10ffff {
        if let Some(c) = char::from_u32(code) {
            assert_eq!(c.is_whitespace(), char_is_whitespace(c), "U+{:04X}", code);
        }
        code += 1;
    }
}

#[test]
fn kinds_and_errors_have_names() {
    assert_eq!("Text", MSDToken::Text.to_string());
    assert_eq!("StartParameter", MSDToken::StartParameter.to_string());
    assert_eq!("NextComponent", MSDToken::NextComponent.to_string());
    assert_eq!("EndParameter", MSDToken::EndParameter.to_string());
    assert_eq!("Escape", MSDToken::Escape.to_string());
    assert_eq!("Comment", MSDToken::Comment.to_string());
    assert_eq!(
        "MSDParserError: stray 'n' encountered after 'A' parameter",
        stray("stray 'n' encountered after 'A' parameter").to_string()
    );
}
