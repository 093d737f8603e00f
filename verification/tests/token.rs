use html_splitter::token::Token;

#[test]
fn test_is_close_true() {
    let token = Token::CloseTag("</div>", 0);
    assert!(token.is_close());
}

#[test]
fn test_is_close_false() {
    let token = Token::OpenTag("<div>", 0);
    assert!(!token.is_close());
}

#[test]
fn test_is_close_self_closing() {
    let token = Token::OpenTag("<br/>", 0);
    assert!(!token.is_close()); // May need to adjust implementation
}

#[test]
fn test_tag_name_simple_open() {
    let token = Token::OpenTag("<div>", 0);
    assert_eq!(token.tag_name(), "div");
}

#[test]
fn test_tag_name_simple_close() {
    let token = Token::CloseTag("</div>", 0);
    assert_eq!(token.tag_name(), "div");
}

#[test]
fn test_tag_name_with_attributes() {
    let token = Token::OpenTag("<div class='main'>", 0);
    assert_eq!(token.tag_name(), "div");
}

#[test]
fn test_tag_name_self_closing() {
    let token = Token::OpenTag("<br/>", 0);
    assert_eq!(token.tag_name(), "br/");
}

#[test]
fn test_tag_name_malformed_tag() {
    let token = Token::OpenTag("<div", 0);
    assert_eq!(token.tag_name(), "div");
}

#[test]
fn test_matches_tag_name_true() {
    let token = Token::OpenTag("<div>", 0);
    assert!(token.matches_tag_name("div"));
}

#[test]
fn test_matches_tag_name_false() {
    let token = Token::OpenTag("<span>", 0);
    assert!(!token.matches_tag_name("div"));
}

#[test]
fn test_matches_tag_name_self_closing() {
    let token = Token::OpenTag("<br/>", 0);
    assert!(token.matches_tag_name("br/"));
}

#[test]
fn test_matches_tag_name_with_attributes() {
    let token = Token::OpenTag("<div class='main'>", 0);
    assert!(token.matches_tag_name("div"));
}

#[test]
fn test_get_len_from_same_token() {
    let token = Token::Text("Hello", 0);
    assert_eq!(token.len_since(&token), token.len());
}

#[test]
fn test_get_len_from_different_tokens() {
    let start_token = Token::Text("Hello", 10);
    let end_token = Token::Text("World", 100);
    assert_eq!(end_token.len_since(&start_token), 95);
}

#[test]
fn test_tag_name_of_text_is_empty() {
    assert_eq!(Token::Text("div", 0).tag_name(), "");
    assert!(Token::Text("div", 0).matches_tag_name(""));
    assert!(!Token::Text("div", 0).matches_tag_name("div"));
}

#[test]
fn test_tag_name_without_a_name_is_empty() {
    assert_eq!(Token::OpenTag("<>", 0).tag_name(), "");
    assert_eq!(Token::OpenTag("< >", 0).tag_name(), "");
    assert_eq!(Token::CloseTag("</>", 0).tag_name(), "");
    assert_eq!(Token::OpenTag("  ", 0).tag_name(), "");
}

#[test]
fn test_tag_name_trims_in_order() {
    assert_eq!(Token::OpenTag(" <div> ", 0).tag_name(), "div");
    assert_eq!(Token::OpenTag("<<div>>", 0).tag_name(), "div");
    assert_eq!(Token::CloseTag("< / div >", 0).tag_name(), "div");
    assert_eq!(Token::CloseTag("<//div>", 0).tag_name(), "div");
    assert_eq!(Token::OpenTag("<a\thref='x'>", 0).tag_name(), "a");
    assert_eq!(Token::OpenTag("<a\u{a0}b>", 0).tag_name(), "a");
    // a slash behind the name belongs to it, one before the `>` too
    assert_eq!(Token::OpenTag("<img src='x'/>", 0).tag_name(), "img");
    assert_eq!(Token::OpenTag("<br />", 0).tag_name(), "br");
    assert_eq!(Token::OpenTag("<tg-emoji emoji-id=\"1\">", 0).tag_name(), "tg-emoji");
    assert_eq!(Token::OpenTag("<é>", 0).tag_name(), "é");
}

#[test]
fn test_kinds_index_and_len() {
    let open = Token::OpenTag("<b>", 7);
    let close = Token::CloseTag("</b>", 12);
    let text = Token::Text("héllo", 3);
    assert!(open.is_open() && !open.is_close());
    assert!(!close.is_open() && close.is_close());
    assert!(!text.is_open() && !text.is_close());
    assert_eq!(open.index(), 7);
    assert_eq!(close.index(), 12);
    assert_eq!(text.index(), 3);
    assert_eq!(open.len(), 3);
    assert_eq!(text.len(), 6);
    assert_eq!(text.as_text(), "héllo");
    assert_eq!(close.len_since(&open), 9);
}
