use xml_overview::lex_token;
use xml_overview::lex_tokens;
use xml_overview::Config;
use xml_overview::LexError;
use xml_overview::Token;

#[test]
fn lexer_test_lex_next_token_open() {
    assert_eq!(
        lex_token(String::from("<element />")),
        Ok((
            Token::TagOpenStart(String::from("element")),
            String::from(" />")
        ))
    );

    assert_eq!(
        lex_token(String::from("<element/>")),
        Ok((
            Token::TagOpenStart(String::from("element")),
            String::from("/>")
        ))
    );

    assert_eq!(
        lex_token(String::from("</element />")),
        Ok((
            Token::TagCloseStart(String::from("element")),
            String::from(" />")
        ))
    );

    assert_eq!(
        lex_token(String::from("</element<!-- comment --> />")),
        Ok((
            Token::TagCloseStart(String::from("element")),
            String::from("<!-- comment --> />")
        ))
    );
}

#[test]
fn lexer_test_lex_next_token_selfclosing() {
    assert_eq!(
        lex_token(String::from("/> ")),
        Ok((Token::TagSelfClosing, String::from(" ")))
    );
}

#[test]
fn lexer_test_lex_next_token_close() {
    assert_eq!(
        lex_token(String::from("><")),
        Ok((Token::TagClosing, String::from("<")))
    );
}

#[test]
fn lexer_test_lex_comment() {
    assert_eq!(
        lex_token(String::from("<!-- This is a comment -->")),
        Ok((
            Token::Comment(String::from(" This is a comment ")),
            String::from("")
        ))
    )
}

#[test]
fn lexer_test_lex_next_token_string() {
    assert_eq!(
        lex_token(String::from("\"string content\" />")),
        Ok((
            Token::StringLiteral(String::from("string content")),
            String::from(" />")
        ))
    );
}

#[test]
fn lexer_test_lex_next_token_key() {
    assert_eq!(
        lex_token(String::from("<element />")),
        Ok((
            Token::TagOpenStart(String::from("element")),
            String::from(" />")
        ))
    );
}

#[test]
fn lexer_test_lex_all_tokens() {
    assert_eq!(
        lex_tokens(String::from("</ <!-- comment --> >"), Config::new(false)),
        Ok(vec![
            Token::TagCloseStart(String::new()),
            Token::Whitespace,
            Token::Comment(String::from(" comment ")),
            Token::Whitespace,
            Token::TagClosing
        ])
    );
}

#[test]
fn lexer_test_lex_all_tokens_from_file() {
    let file = String::from(
        "
        <tag>
            <child key=\"1\">Content</child>
            <child>More Content</child>
            <selfclosingchild/>
        </tag>
        ",
    );
    let result = lex_tokens(file, Config::new(false));

    assert!(result.is_ok());
}

#[test]
fn lexer_key_token_consumes_equals_sign() {
    assert_eq!(
        lex_token(String::from("key=\"v\"")),
        Ok((Token::Key(String::from("key")), String::from("\"v\"")))
    );
}

#[test]
fn lexer_newline_is_its_own_token() {
    assert_eq!(
        lex_token(String::from("\nrest=")),
        Ok((Token::Newline, String::from("rest=")))
    );
}

#[test]
fn lexer_text_runs_to_next_tag() {
    assert_eq!(
        lex_token(String::from("some text<a/>")),
        Ok((Token::Text(String::from("some text")), String::from("<a/>")))
    );
}

#[test]
fn lexer_empty_close_tag_has_empty_name() {
    assert_eq!(
        lex_token(String::from("</>")),
        Ok((Token::TagCloseStart(String::new()), String::from(">")))
    );
}

#[test]
fn lexer_lone_quote_is_a_lexical_error() {
    assert_eq!(
        lex_tokens(String::from("\""), Config::new(false)),
        Err(LexError::UnexpectedString(String::from("\"")))
    );
}

#[test]
fn lexer_trailing_bare_text_is_a_lexical_error() {
    assert_eq!(
        lex_tokens(String::from("<a>text"), Config::new(false)),
        Err(LexError::UnexpectedString(String::from("text")))
    );
}

#[test]
fn lexer_empty_input_scans_to_no_tokens() {
    assert_eq!(
        lex_tokens(String::new(), Config::new(false)),
        Ok(Vec::new())
    );
}

#[test]
fn lexer_unterminated_comment_falls_through() {
    // with no closing marker anywhere, the comment recognizer declines and
    // the opening-tag recognizer reads a (strange) tag name instead
    assert_eq!(
        lex_token(String::from("<!-- x >")),
        Ok((Token::TagOpenStart(String::from("!--")), String::from(" x >")))
    );
}
