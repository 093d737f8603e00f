use html_splitter::error::SplitError;
use html_splitter::token::Token;
use html_splitter::{prepare_token_groups, split};
use std::collections::HashSet;

const LONG_HTML: &str = "<b>Release notes for the spring edition</b>\n\
This message is a <i>long</i> one. It holds <b>bold words, <i>bold italic words</i> and more \
bold words</b>, a <a href=\"https://example.com/docs\">link to the docs</a> and a piece of \
<code>inline code</code> in the middle of a sentence that goes on for a while.\n\n\
<u>Underlined heading</u>\n\
<s>Struck through words that go on and on and need to be cut somewhere in the middle, since \
no chunk of a hundred bytes can hold all of them at once.</s>\n\
<b><i>Deep <u>and deeper <s>and deepest</s> and back</u> again</i></b> with a tail of plain \
words, then <span class=\"tg-spoiler\">a spoiler that nobody should read before the end of the \
message has been reached</span>.\n\
<i>Second paragraph, first line, with <a href=\"https://example.com/a\">one</a>, \
<a href=\"https://example.com/b\">two</a> and <a href=\"https://example.com/c\">three</a> \
links in a row.</i>\n\
Plain words without any markup follow here: the quick brown fox jumps over the lazy dog, and \
then it does so again, because one jump is never enough for a fox that is as quick as this \
one.\n\
<code>let answer = 6 * 7;</code>\n\
<b>The end</b>";

fn clean(html: &str) -> String {
    ammonia::Builder::new()
        .tags(HashSet::default())
        .strip_comments(false)
        .clean(html)
        .to_string()
}

#[test]
fn lib_test_prepare_token_groups() {
    let mut reassembled = String::new();
    for group in prepare_token_groups(LONG_HTML).unwrap() {
        reassembled.push_str(&group.to_string());
    }

    assert_eq!(reassembled, LONG_HTML);
}

#[test]
fn test_split_plain_text() {
    let text = "This is a simple plain text without any HTML tags.";
    let max_chunk_size = 10;

    let result = split(text, max_chunk_size, &[]).unwrap();
    for chunk in &result {
        assert!(
            chunk.len() <= max_chunk_size,
            "Chunk exceeds max_chunk_size: {}",
            chunk
        );
    }
    let joined_text = result.join("");
    assert_eq!(joined_text, text);
}

#[test]
fn test_split_html_text() {
    let result = split(LONG_HTML, 100, &[]).unwrap();
    for chunk in &result {
        assert!(
            chunk.len() <= 100,
            "Chunk exceeds max_chunk_size: {}",
            chunk
        );
    }

    let joined_text = clean(&result.join(""));
    let clean_html = clean(LONG_HTML);
    assert_eq!(joined_text, clean_html);
}

#[test]
fn test_split_html_text_multiple() {
    let clean_html = clean(LONG_HTML);

    for chunk_size in 60..4096 {
        let result = split(LONG_HTML, chunk_size, &[]);

        // we can occasionally run into a situation when we can't split
        let chunks = match result {
            Ok(chunks) => chunks,
            Err(SplitError::SplitExceededTheLimit(chunks)) => chunks,
            Err(err) => panic!("{:?}", err),
        };

        let joined_text = clean(&chunks.join(""));
        assert_eq!(joined_text, clean_html);
    }
}

#[test]
fn test_split_exact_chunks() {
    let text = "This is a simple plain text without any HTML tags.";
    assert_eq!(
        split(text, 10, &[]).unwrap(),
        vec!["This is a ", "simple ", "plain ", "text ", "without ", "any HTML ", "tags."]
    );
}

#[test]
fn test_split_puts_groups_together() {
    // each group fits, two of them fit together
    assert_eq!(
        split("<b>a</b><i>b</i><u>c</u>", 16, &[]).unwrap(),
        vec!["<b>a</b><i>b</i>", "<u>c</u>"]
    );
    assert_eq!(
        split("<b>a</b><i>b</i><u>c</u>", 8, &[]).unwrap(),
        vec!["<b>a</b>", "<i>b</i>", "<u>c</u>"]
    );
    assert_eq!(
        split("ab<i>cd</i>ef", 11, &[]).unwrap(),
        vec!["ab<i>cd</i>", "ef"]
    );
}

#[test]
fn test_split_starts_a_new_chunk_rather_than_subdividing() {
    // "<b>bold text</b>" does not fit behind "intro ", but fits a chunk of its own
    assert_eq!(
        split("intro <b>bold text</b> tail", 16, &[]).unwrap(),
        vec!["intro ", "<b>bold text</b>", " tail"]
    );
}

#[test]
fn test_split_subdivides_what_is_too_large() {
    assert_eq!(
        split("x <b>one two three</b> y", 12, &[]).unwrap(),
        vec!["x ", "<b>one </b>", "<b>two </b>", "<b>three</b>", " y"]
    );
}

#[test]
fn test_split_large_budget_returns_the_source() {
    for text in ["plain", "<b>bold</b> and <i>italic</i>", LONG_HTML, "👍 <b>👍</b>"] {
        assert_eq!(split(text, text.len(), &[]).unwrap(), vec![text]);
        assert_eq!(split(text, text.len() + 1, &[]).unwrap(), vec![text]);
        assert_eq!(split(text, usize::MAX, &[]).unwrap(), vec![text]);
    }
}

#[test]
fn test_split_large_budget_leaves_out_empty_tags() {
    assert_eq!(
        split("a<b></b>c<i><u></u></i>", 100, &[]).unwrap(),
        vec!["ac"]
    );
    assert_eq!(split("<b></b>", 100, &[]).unwrap(), Vec::<String>::new());
    assert_eq!(split("", 100, &[]).unwrap(), Vec::<String>::new());
    assert_eq!(split("", 0, &[]).unwrap(), Vec::<String>::new());
}

#[test]
fn test_split_errors() {
    assert!(matches!(
        split("text", 0, &[]),
        Err(SplitError::InvalidLen(0))
    ));
    assert!(matches!(
        split("a</b>", 100, &[]),
        Err(SplitError::UnbalancedToken(Token::CloseTag("</b>", 1)))
    ));
    assert!(matches!(
        split("<a><b>c</b>", 100, &[]),
        Err(SplitError::UnbalancedToken(Token::OpenTag("<a>", 0)))
    ));
    assert!(matches!(
        split("<a>x</a><b><c>d</c>", 100, &[]),
        Err(SplitError::UnbalancedToken(Token::OpenTag("<b>", 8)))
    ));
    assert!(matches!(
        split("a <b", 100, &[]),
        Err(SplitError::UnbalancedToken(Token::OpenTag("<b", 2)))
    ));
    assert!(matches!(
        split("<b><i>some text</i></b>", 14, &[]),
        Err(SplitError::SubdivisionImpossible(_))
    ));
    assert!(matches!(
        split("<b>👍👍👍</b>", 10, &[]),
        Err(SplitError::SubdivisionImpossibleUnicode(Token::Text("👍👍👍", 3)))
    ));
}

#[test]
fn test_split_exceeded_the_limit() {
    let html = "before <x>this part stays whole</x> after";
    let Err(SplitError::SplitExceededTheLimit(chunks)) = split(html, 12, &["x"]) else {
        panic!("expected SplitExceededTheLimit");
    };
    assert_eq!(
        chunks,
        vec!["before ", "", "<x>this part stays whole</x>", " after"]
    );
    // without the name the part is cut
    let chunks = split(html, 12, &[]).unwrap();
    assert!(chunks.iter().all(|chunk| chunk.len() <= 12));
    assert_eq!(clean(&chunks.join("")), "before this part stays whole after");
}

#[test]
fn test_split_no_split_part_that_fits_stays_whole() {
    let html = "<i>Some words before <a href=\"u\">a link</a> and some behind it</i>";
    for chunk_size in 30..html.len() {
        let chunks = split(html, chunk_size, &["a"]).unwrap();
        assert_eq!(
            chunks
                .iter()
                .filter(|chunk| chunk.contains("<a href=\"u\">a link</a>"))
                .count(),
            1
        );
        assert!(chunks.iter().all(|chunk| chunk.len() <= chunk_size));
    }
}

#[test]
fn test_split_size_bound_and_round_trip() {
    let clean_html = clean(LONG_HTML);
    for chunk_size in [60, 61, 64, 77, 100, 128, 255, 256, 1000] {
        let chunks = split(LONG_HTML, chunk_size, &[]).unwrap();
        assert!(chunks.iter().all(|chunk| chunk.len() <= chunk_size));
        assert!(chunks.iter().all(|chunk| prepare_token_groups(chunk).is_ok()));
        assert_eq!(clean(&chunks.join("")), clean_html);
    }
}

#[test]
fn test_split_unicode_text() {
    let text = "日本語 の テキスト <b>太字 の テキスト</b> 終わり";
    for chunk_size in 20..text.len() + 1 {
        let chunks = split(text, chunk_size, &[]).unwrap();
        assert!(chunks.iter().all(|chunk| chunk.len() <= chunk_size));
        assert_eq!(clean(&chunks.join("")), clean(text));
    }
}

fn strip_tags(source: &str) -> String {
    let mut text = String::new();
    let mut in_tag = false;
    for c in source.chars() {
        if in_tag {
            in_tag = c != '>';
        } else if c == '<' {
            in_tag = true;
        } else {
            text.push(c);
        }
    }
    text
}

#[test]
fn test_split_keeps_the_text_outside_tags() {
    let sources = [
        LONG_HTML,
        "a > b and <b>c > d</b>",
        "日本語 <i>の</i> テキスト",
        "<a href=\"x\">one</a><a href=\"y\">two</a>",
    ];
    for source in sources {
        for chunk_size in [40, 41, 50, 64, 100, 1000] {
            let chunks = match split(source, chunk_size, &["a"]) {
                Ok(chunks) => chunks,
                Err(SplitError::SplitExceededTheLimit(chunks)) => chunks,
                Err(err) => panic!("{:?}", err),
            };
            assert_eq!(strip_tags(&chunks.join("")), strip_tags(source));
        }
    }
}
