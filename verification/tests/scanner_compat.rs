use xml_overview::lex_token;
use xml_overview::lex_tokens;
use xml_overview::Config;
use xml_overview::Token;

#[test]
fn parser_test_lex_next_token_open() {
    assert_eq!(
        lex_token(String::from("<element />")),
        Ok((
            Token::TagOpenStart(String::from("element")),
            String::from(" />")
        ))
    );

    assert_eq!(
        lex_token(String::from("<element/>")),
        Ok((
            Token::TagOpenStart(String::from("element")),
            String::from("/>")
        ))
    );

    assert_eq!(
        lex_token(String::from("</element />")),
        Ok((
            Token::TagCloseStart(String::from("element")),
            String::from(" />")
        ))
    );

    assert_eq!(
        lex_token(String::from("</element<!-- comment --> />")),
        Ok((
            Token::TagCloseStart(String::from("element")),
            String::from("<!-- comment --> />")
        ))
    );
}

#[test]
fn parser_test_lex_next_token_selfclosing() {
    assert_eq!(
        lex_token(String::from("/> ")),
        Ok((Token::TagSelfClosing, String::from(" ")))
    );
}

#[test]
fn parser_test_lex_next_token_close() {
    assert_eq!(
        lex_token(String::from("><")),
        Ok((Token::TagClosing, String::from("<")))
    );
}

#[test]
fn parser_test_lex_comment() {
    assert_eq!(
        lex_token(String::from("<!-- This is a comment -->")),
        Ok((
            Token::Comment(String::from(" This is a comment ")),
            String::from("")
        ))
    )
}

#[test]
fn parser_test_lex_next_token_string() {
    assert_eq!(
        lex_token(String::from("\"string content\" />")),
        Ok((
            Token::StringLiteral(String::from("string content")),
            String::from(" />")
        ))
    );
}

#[test]
fn parser_test_lex_next_token_key() {
    assert_eq!(
        lex_token(String::from("<element />")),
        Ok((
            Token::TagOpenStart(String::from("element")),
            String::from(" />")
        ))
    );
}

#[test]
fn parser_test_lex_all_tokens() {
    assert_eq!(
        lex_tokens(String::from("</ <!-- comment --> >"), Config::new(false)),
        Ok(vec![
            Token::TagCloseStart(String::new()),
            Token::Whitespace,
            Token::Comment(String::from(" comment ")),
            Token::Whitespace,
            Token::TagClosing
        ])
    );
}

#[test]
fn parser_test_lex_all_tokens_from_file() {
    let file = String::from(
        "
        <tag>
            <child key=\"1\">Content</child>
            <child>More Content</child>
            <selfclosingchild/>
        </tag>
        ",
    );
    let result = lex_tokens(file, Config::new(false));

    assert!(result.is_ok());
}
