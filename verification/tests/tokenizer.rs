use html_splitter::token::Token;
use html_splitter::tokenizer::Tokenizer;

fn collect(text: &str) -> Vec<Token<'_>> {
    let mut tokenizer = Tokenizer::new(text);
    let mut tokens = vec![];
    while let Some(token) = tokenizer.next() {
        tokens.push(token);
    }
    tokens
}

#[test]
fn test_open_and_close_tags() {
    let tokens = collect("<tag>content</tag>");
    assert_eq!(
        tokens,
        vec![
            Token::OpenTag("<tag>", 0),
            Token::Text("content", 5),
            Token::CloseTag("</tag>", 12)
        ]
    );
}

#[test]
fn test_text_and_tags() {
    let tokens = collect("Text before\n<tag>Text inside</tag> Text after");
    assert_eq!(
        tokens,
        vec![
            Token::Text("Text before\n", 0),
            Token::OpenTag("<tag>", 12),
            Token::Text("Text inside", 17),
            Token::CloseTag("</tag>", 28),
            Token::Text(" Text after", 34),
        ]
    );
}

#[test]
fn test_nested_tags() {
    let tokens = collect("<outer><inner>Content</inner></outer> ");
    assert_eq!(
        tokens,
        vec![
            Token::OpenTag("<outer>", 0),
            Token::OpenTag("<inner>", 7),
            Token::Text("Content", 14),
            Token::CloseTag("</inner>", 21),
            Token::CloseTag("</outer>", 29),
            Token::Text(" ", 37),
        ]
    );
}

#[test]
fn test_values_with_slash() {
    let tokens = collect(r#"<a href="http://www.example.com/">inline URL</a>"#);
    assert_eq!(
        tokens,
        vec![
            Token::OpenTag(r#"<a href="http://www.example.com/">"#, 0),
            Token::Text("inline URL", 34),
            Token::CloseTag(r#"</a>"#, 44),
        ]
    )
}

#[test]
fn test_self_closing_tag() {
    let tokens = collect("<img src='image.png'/>");
    assert_eq!(tokens, vec![Token::OpenTag("<img src='image.png'/>", 0)]);
}

#[test]
fn test_text_only() {
    let tokens = collect("Hello, world!");
    assert_eq!(tokens, vec![Token::Text("Hello, world!", 0)]);
}

#[test]
fn test_single_open_tag() {
    let tokens = collect("<tag>");
    assert_eq!(tokens, vec![Token::OpenTag("<tag>", 0)]);
}

#[test]
fn test_empty_source_has_no_tokens() {
    assert_eq!(collect(""), vec![]);
    let mut tokenizer = Tokenizer::new("");
    assert_eq!(tokenizer.next(), None);
    assert_eq!(tokenizer.next(), None);
}

#[test]
fn test_close_tag_after_whitespace() {
    assert_eq!(collect("< /b>"), vec![Token::CloseTag("< /b>", 0)]);
    assert_eq!(collect("<\n\t/b>"), vec![Token::CloseTag("<\n\t/b>", 0)]);
    assert_eq!(collect("<\u{a0}/b>"), vec![Token::CloseTag("<\u{a0}/b>", 0)]);
    assert_eq!(collect("<b/>"), vec![Token::OpenTag("<b/>", 0)]);
    assert_eq!(collect("<>"), vec![Token::OpenTag("<>", 0)]);
    assert_eq!(collect("</>"), vec![Token::CloseTag("</>", 0)]);
}

#[test]
fn test_text_may_hold_a_closing_bracket() {
    assert_eq!(
        collect("a > b<i>c</i>"),
        vec![
            Token::Text("a > b", 0),
            Token::OpenTag("<i>", 5),
            Token::Text("c", 8),
            Token::CloseTag("</i>", 9),
        ]
    );
}

#[test]
fn test_tag_ends_at_first_closing_bracket() {
    assert_eq!(
        collect("<a<b>>"),
        vec![Token::OpenTag("<a<b>", 0), Token::Text(">", 5)]
    );
}

#[test]
fn test_unterminated_tag_is_an_open_tag() {
    assert_eq!(
        collect("text <b"),
        vec![Token::Text("text ", 0), Token::OpenTag("<b", 5)]
    );
    assert_eq!(collect("</b"), vec![Token::OpenTag("</b", 0)]);
    assert_eq!(collect("<"), vec![Token::OpenTag("<", 0)]);
}

#[test]
fn test_offsets_are_contiguous() {
    let source = "Héllo <b>wörld</b> 👍<i>!</i><tg-emoji emoji-id=\"1\">👍</tg-emoji> end";
    let tokens = collect(source);
    let mut offset = 0;
    let mut joined = String::new();
    for token in &tokens {
        assert_eq!(token.index(), offset);
        assert!(token.len() > 0);
        assert_eq!(&source[offset..offset + token.len()], token.as_text());
        offset += token.len();
        joined.push_str(token.as_text());
    }
    assert_eq!(offset, source.len());
    assert_eq!(joined, source);
    assert_eq!(tokens[0].index(), 0);
}
