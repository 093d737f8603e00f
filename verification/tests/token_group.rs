use html_splitter::error::SplitError;
use html_splitter::token::Token;
use html_splitter::token_group::TokenGroup;
use html_splitter::{prepare_token_groups, serialize_token_groups};
use std::collections::HashSet;

const SHORT_HTML: &str = r#"<b><i><s><span class="tg-spoiler">Hello</span></s></i></b>"#;

const LONG_HTML: &str = "<b>Release notes for the spring edition</b>\n\
This message is a <i>long</i> one. It holds <b>bold words, <i>bold italic words</i> and more \
bold words</b>, a <a href=\"https://example.com/docs\">link to the docs</a> and a piece of \
<code>inline code</code> in the middle of a sentence that goes on for a while.\n\n\
<u>Underlined heading</u>\n\
<s>Struck through words that go on and on and need to be cut somewhere in the middle, since \
no chunk of a hundred bytes can hold all of them at once.</s>\n\
<b><i>Deep <u>and deeper <s>and deepest</s> and back</u> again</i></b> with a tail of plain \
words, then <span class=\"tg-spoiler\">a spoiler that nobody should read before the end of the \
message has been reached</span>.\n\
<i>Second paragraph, first line, with <a href=\"https://example.com/a\">one</a>, \
<a href=\"https://example.com/b\">two</a> and <a href=\"https://example.com/c\">three</a> \
links in a row.</i>\n\
Plain words without any markup follow here: the quick brown fox jumps over the lazy dog, and \
then it does so again, because one jump is never enough for a fox that is as quick as this \
one.\n\
<code>let answer = 6 * 7;</code>\n\
<b>The end</b>";

fn clean(html: &str) -> String {
    ammonia::Builder::new()
        .tags(HashSet::default())
        .strip_comments(false)
        .clean(html)
        .to_string()
}

fn depth_ok(group: &TokenGroup) -> bool {
    let mut depth = 0i64;
    for token in &group.tokens {
        if token.is_open() {
            depth += 1;
        } else if token.is_close() {
            depth -= 1;
        }
        if depth < 0 {
            return false;
        }
    }
    depth == 0
}

fn text_of(groups: &[TokenGroup]) -> String {
    let mut text = String::new();
    for group in groups {
        for token in &group.tokens {
            if !token.is_open() && !token.is_close() {
                text.push_str(token.as_text());
            }
        }
    }
    text
}

#[test]
fn test_unicode_subdivide() {
    let html = r#"<tg-emoji emoji-id="5368324170671202286">👍</tg-emoji>"#;
    let tg = TokenGroup::from_string(html);

    for chunk_size in 0..56 {
        assert!(tg.subdivide(chunk_size, &[]).is_err())
    }

    let tgs = tg.subdivide(56, &[]).unwrap();
    assert_eq!(tgs.len(), 1);
    assert_eq!(tgs[0].len, html.len());
}

#[test]
fn test_subdivide_long() {
    assert!(prepare_token_groups(LONG_HTML).is_ok());

    let text = clean(LONG_HTML);
    let tg = TokenGroup::from_string(LONG_HTML);

    let subdivided = tg.subdivide(100, &["a"]).unwrap();
    assert_eq!(clean(&serialize_token_groups(&subdivided)), text);
}

#[test]
fn token_group_test_prepare_token_groups() {
    let text = clean(SHORT_HTML);

    let mut token_groups = prepare_token_groups(SHORT_HTML).unwrap();
    assert_eq!(token_groups.len(), 1);
    let token_group = token_groups.pop().unwrap();

    // <b><i><s><span class="tg-spoiler"></span></s></i></b> takes 53
    for chunk_size in 0..54 {
        let subdivided = token_group.subdivide(chunk_size, &["a"]);
        assert!(subdivided.is_err());
    }

    // must be ok for any range starting with 54
    for chunk_size in 54..4096 {
        let subdivided = token_group.subdivide(chunk_size, &["a"]);
        assert!(
            subdivided.is_ok(),
            "Failed subdivision for chunk size {chunk_size}"
        );
        let subdivided = subdivided.unwrap();
        assert_eq!(
            clean(&serialize_token_groups(&subdivided)),
            text,
            "Failed subdivision for chunk size {chunk_size}"
        );
    }
}

#[test]
fn test_prepare_open_close_map_unbalanced_open() {
    let html = "<b><i>Unbalanced tags";
    let tg = TokenGroup::from_string(html);
    let result = tg.prepare_open_close_map();
    assert!(result.is_ok(), "Expected Ok, got {:?}", result);
}

#[test]
fn test_prepare_open_close_map_unbalanced_close() {
    let html = "Unbalanced tags</i></b>";
    let tg = TokenGroup::from_string(html);
    let result = tg.prepare_open_close_map();
    assert!(
        matches!(result, Err(SplitError::UnbalancedToken(_))),
        "Expected UnbalancedToken error, got {:?}",
        result
    );
}

#[test]
fn test_no_split_inside_normal_tags() {
    let html = "<div>Some text before.<no_split_tag>Do not split this part.</no_split_tag>Some text after.</div>";
    let tg = TokenGroup::from_string(html);
    let no_split = vec!["no_split_tag"];
    let max_chunk_size = 20;

    let result = tg.subdivide(max_chunk_size, &no_split);

    assert!(matches!(
        result,
        Err(SplitError::SubdividedExceedingTheLimit(_))
    ));
    let Err(SplitError::SubdividedExceedingTheLimit(tgs)) = result else {
        unreachable!()
    };

    assert!(tgs.iter().any(|tg| tg
        .to_string()
        .contains("<no_split_tag>Do not split this part.</no_split_tag>")));
}

#[test]
fn test_nested_no_split_tags_exceed_chunk_size() {
    let html = "<no_split_outer><no_split_inner>Nested content that is too long for the chunk size limit.</no_split_inner></no_split_outer>";
    let tg = TokenGroup::from_string(html);
    let no_split = vec!["no_split_outer", "no_split_inner"];
    let max_chunk_size = 10;

    let result = tg.subdivide(max_chunk_size, &no_split);

    assert!(
        matches!(result, Err(SplitError::SubdividedExceedingTheLimit(_))),
        "Expected SubdividedExceedingTheLimit error, got {:?}",
        result
    );
}

#[test]
fn test_sample1() {
    let mut html = String::from("<b>Listing</b>\nA long piece of code follows.\n");
    html.push_str(r#"<pre><code class="language-rust">"#);
    for line in 0..400 {
        html.push_str(&format!("let value_{line} = compute({line});\n"));
    }
    html.push_str("</code></pre>\n<i>That was all.</i> ");
    html.push_str(r#"<a href="https://example.com/source">Source</a>"#);
    let tgs = TokenGroup::from_string(&html).subdivide(4000, &["a"]).unwrap();
    assert!(tgs.len() > 2);
    for tg in tgs {
        assert!(
            !(format!("{}", tg.to_string())
                .contains(r#"<pre><code class="language-rust"></code></pre>"#))
        )
    }
}

#[test]
fn test_push_collapses_empty_tag() {
    let mut tg = TokenGroup::default();
    tg.push(Token::OpenTag("<b>", 0));
    assert_eq!(tg.len, 3);
    tg.push(Token::CloseTag("</b>", 3));
    assert!(tg.tokens.is_empty());
    assert_eq!(tg.len, 0);
    assert_eq!(tg.to_string(), "");
}

#[test]
fn test_push_keeps_what_is_not_empty() {
    let mut tg = TokenGroup::default();
    tg.push(Token::OpenTag("<b>", 0));
    tg.push(Token::Text("x", 3));
    tg.push(Token::CloseTag("</b>", 4));
    tg.push(Token::CloseTag("</i>", 8));
    assert_eq!(
        tg.tokens,
        vec![
            Token::OpenTag("<b>", 0),
            Token::Text("x", 3),
            Token::CloseTag("</b>", 4),
            Token::CloseTag("</i>", 8),
        ]
    );
    assert_eq!(tg.len, 12);
    assert_eq!(tg.to_string(), "<b>x</b></i>");
    assert_eq!(tg.pop(), Some(Token::CloseTag("</i>", 8)));
    assert_eq!(tg.len, 8);
    assert_eq!(tg.pop(), Some(Token::CloseTag("</b>", 4)));
    assert_eq!(tg.pop(), Some(Token::Text("x", 3)));
    assert_eq!(tg.pop(), Some(Token::OpenTag("<b>", 0)));
    assert_eq!(tg.pop(), None);
    assert_eq!(tg.len, 0);
}

#[test]
fn test_from_string_collapses_nested_empty_tags() {
    let tg = TokenGroup::from_string("<b><i></i></b>Hello<u></u>");
    assert_eq!(tg.tokens, vec![Token::Text("Hello", 14)]);
    assert_eq!(tg.len, 5);
}

#[test]
fn test_stack_helpers() {
    let stack = [Token::OpenTag("<b>", 0), Token::OpenTag("<i>", 3)];
    let closes = [Token::CloseTag("</b>", 20), Token::CloseTag("</i>", 16)];

    let mut tg = TokenGroup::new_from_stack(&stack);
    assert_eq!(tg.to_string(), "<b><i>");
    assert!(tg.is_all_open());
    tg.push(Token::Text("x", 6));
    assert!(!tg.is_all_open());
    tg.close_from_stack(&closes);
    assert_eq!(tg.to_string(), "<b><i>x</i></b>");
    assert_eq!(tg.len, 15);

    // closing right behind the open tags leaves nothing
    let mut tg = TokenGroup::new_from_stack(&stack);
    tg.close_from_stack(&closes);
    assert!(tg.tokens.is_empty());
    assert_eq!(tg.len, 0);

    let mut tg = TokenGroup::default();
    assert!(tg.is_all_open());
    tg.open_from_stack(&stack);
    assert_eq!(tg.len, 6);

    let source = TokenGroup::from_string("a<u>b</u>c");
    let wrapped = source.wrap(1..4, &stack, &closes);
    assert_eq!(wrapped.to_string(), "<b><i><u>b</u></i></b>");
    assert_eq!(wrapped.len, 22);
    let wrapped = source.wrap(2..2, &stack, &closes);
    assert_eq!(wrapped.to_string(), "");
}

#[test]
fn test_open_close_map() {
    let tg = TokenGroup::from_string("<a>x<b>y</b><c>z</c></a><d>");
    let map = tg.prepare_open_close_map().unwrap();
    //           0   1 2   3 4    5   6 7    8    9
    assert_eq!(map.closes, vec![8, 10, 4, 10, 10, 7, 10, 10, 10, 10]);
    assert_eq!(tg.get_close_token_index(0, &map).unwrap(), 8);
    assert_eq!(tg.get_close_token_index(2, &map).unwrap(), 4);
    assert_eq!(tg.get_close_token_index(5, &map).unwrap(), 7);
    assert!(matches!(
        tg.get_close_token_index(9, &map),
        Err(SplitError::UnbalancedToken(Token::OpenTag("<d>", 24)))
    ));
}

#[test]
fn test_open_close_map_reports_first_stray_close() {
    let tg = TokenGroup::from_string("<a>x</a>y</b>z</c>");
    assert!(matches!(
        tg.prepare_open_close_map(),
        Err(SplitError::UnbalancedToken(Token::CloseTag("</b>", 9)))
    ));
}

#[test]
fn test_subdivide_invalid_len() {
    let tg = TokenGroup::from_string("text");
    assert!(matches!(
        tg.subdivide(0, &[]),
        Err(SplitError::InvalidLen(0))
    ));
    let tg = TokenGroup::from_string("");
    assert!(matches!(tg.subdivide(0, &[]), Err(SplitError::InvalidLen(0))));
}

#[test]
fn test_subdivide_unbalanced() {
    let tg = TokenGroup::from_string("a</b>");
    assert!(matches!(
        tg.subdivide(100, &[]),
        Err(SplitError::UnbalancedToken(Token::CloseTag("</b>", 1)))
    ));
    let tg = TokenGroup::from_string("a<b>c");
    assert!(matches!(
        tg.subdivide(100, &[]),
        Err(SplitError::UnbalancedToken(Token::OpenTag("<b>", 1)))
    ));
    let tg = TokenGroup::from_string("a<b");
    assert!(matches!(
        tg.subdivide(100, &[]),
        Err(SplitError::UnbalancedToken(Token::OpenTag("<b", 1)))
    ));
}

#[test]
fn test_subdivide_impossible_carries_the_group() {
    let tg = TokenGroup::from_string("<b><i>x</i></b>");
    // <b><i></i></b> takes 14: a budget of 14 leaves no room for text
    let Err(SplitError::SubdivisionImpossible(group)) = tg.subdivide(14, &[]) else {
        panic!("expected SubdivisionImpossible");
    };
    assert_eq!(group.to_string(), "<b>");
    let groups = tg.subdivide(15, &[]).unwrap();
    assert_eq!(groups.len(), 1);
    assert_eq!(groups[0].to_string(), "<b><i>x</i></b>");
}

#[test]
fn test_subdivide_impossible_unicode_carries_the_text() {
    let tg = TokenGroup::from_string("<b>👍</b>");
    assert!(matches!(
        tg.subdivide(10, &[]),
        Err(SplitError::SubdivisionImpossibleUnicode(Token::Text("👍", 3)))
    ));
    assert_eq!(tg.subdivide(11, &[]).unwrap().len(), 1);
}

#[test]
fn test_subdivide_small_group_is_kept() {
    let html = "<b>bold</b> and <i>italic</i>";
    let tg = TokenGroup::from_string(html);
    let groups = tg.subdivide(html.len(), &[]).unwrap();
    assert_eq!(groups.len(), 1);
    assert_eq!(groups[0].to_string(), html);
    assert_eq!(groups[0].len, html.len());
}

#[test]
fn test_subdivide_exact_groups() {
    let tg = TokenGroup::from_string("<b>one two three</b>");
    let groups = tg.subdivide(12, &[]).unwrap();
    let strings: Vec<String> = groups.iter().map(|g| g.to_string()).collect();
    assert_eq!(strings, vec!["<b>one </b>", "<b>two </b>", "<b>three</b>"]);
    assert_eq!(groups[1].tokens[1], Token::Text("two ", 7));
    assert_eq!(groups[2].tokens[1], Token::Text("three", 11));
}

#[test]
fn test_subdivide_cuts_before_an_open_tag_that_does_not_fit() {
    let tg = TokenGroup::from_string("<b>aaaa<i>bb</i>cc</b>");
    //  <b>aaaa + <i> + </i> + </b> = 7 + 3 + 4 + 4 = 18
    let groups = tg.subdivide(18, &[]).unwrap();
    let strings: Vec<String> = groups.iter().map(|g| g.to_string()).collect();
    assert_eq!(strings, vec!["<b>aaaa</b>", "<b><i>bb</i>cc</b>"]);
    let groups = tg.subdivide(19, &[]).unwrap();
    let strings: Vec<String> = groups.iter().map(|g| g.to_string()).collect();
    assert_eq!(strings, vec!["<b>aaaa<i>b</i></b>", "<b><i>b</i></b>", "<b>cc</b>"]);
}

#[test]
fn test_subdivide_no_split_gets_its_own_group() {
    let html = "<i>aaaaaaaaaa<x>bb</x>cc</i>";
    let tg = TokenGroup::from_string(html);
    // without the name the part is cut like any other
    let groups = tg.subdivide(22, &[]).unwrap();
    let strings: Vec<String> = groups.iter().map(|g| g.to_string()).collect();
    assert_eq!(strings, vec!["<i>aaaaaaaaaa</i>", "<i><x>bb</x>cc</i>"]);
    // with it, and no room behind the text, it is moved as a whole
    let groups = tg.subdivide(20, &["x"]).unwrap();
    let strings: Vec<String> = groups.iter().map(|g| g.to_string()).collect();
    assert_eq!(strings, vec!["<i>aaaaaaaaaa</i>", "<i><x>bb</x></i>", "<i>cc</i>"]);
    // a part that fits behind the text stays there
    let groups = tg.subdivide(28, &["x"]).unwrap();
    assert_eq!(groups.len(), 1);
    assert_eq!(groups[0].to_string(), html);
}

#[test]
fn test_subdivide_groups_fit_balance_and_keep_the_text() {
    let tg = TokenGroup::from_string(LONG_HTML);
    let text = text_of(std::slice::from_ref(&tg));
    for chunk_size in 60..400 {
        let groups = tg.subdivide(chunk_size, &[]).unwrap();
        for group in &groups {
            assert!(group.len <= chunk_size);
            assert_eq!(group.len, group.to_string().len());
            assert!(depth_ok(group), "{}", group.to_string());
        }
        assert_eq!(text_of(&groups), text);
    }
}

#[test]
fn test_minimal_wrap_length_is_the_threshold() {
    // <div><p> and </p></div> take 18 bytes: with 19 there is room for text
    let tg = TokenGroup::from_string("<div><p>some text here</p></div>");
    for chunk_size in 0..19 {
        assert!(tg.subdivide(chunk_size, &[]).is_err());
    }
    assert!(matches!(
        tg.subdivide(18, &[]),
        Err(SplitError::SubdivisionImpossible(_))
    ));
    for chunk_size in 19..64 {
        let groups = tg.subdivide(chunk_size, &[]).unwrap();
        assert_eq!(text_of(&groups), "some text here");
    }
}

#[test]
fn test_serialize_token_groups() {
    let groups = prepare_token_groups("a<b>c</b>d").unwrap();
    assert_eq!(groups.len(), 3);
    assert_eq!(serialize_token_groups(&groups), "a<b>c</b>d");
    assert_eq!(serialize_token_groups(&[]), "");
}

#[test]
fn test_is_valid() {
    assert!(TokenGroup::default().is_valid());
    assert!(TokenGroup::from_string("a<b>c</b>").is_valid());
    assert!(TokenGroup::from_string(LONG_HTML).is_valid());

    let valid = TokenGroup {
        tokens: vec![Token::Text("ab", 3), Token::Text("c", 9)],
        len: 3,
    };
    assert!(valid.is_valid());
    let wrong_len = TokenGroup {
        tokens: vec![Token::Text("ab", 3), Token::Text("c", 9)],
        len: 4,
    };
    assert!(!wrong_len.is_valid());
    let empty_token = TokenGroup {
        tokens: vec![Token::Text("ab", 3), Token::Text("", 9)],
        len: 2,
    };
    assert!(!empty_token.is_valid());
    let out_of_order = TokenGroup {
        tokens: vec![Token::Text("ab", 3), Token::Text("c", 4)],
        len: 3,
    };
    assert!(!out_of_order.is_valid());
    let touching = TokenGroup {
        tokens: vec![Token::Text("ab", 3), Token::Text("c", 5)],
        len: 3,
    };
    assert!(touching.is_valid());
    let too_far = TokenGroup {
        tokens: vec![Token::Text("ab", usize::MAX / 2)],
        len: 2,
    };
    assert!(!too_far.is_valid());
    let far = TokenGroup {
        tokens: vec![Token::Text("ab", usize::MAX / 2 - 2)],
        len: 2,
    };
    assert!(far.is_valid());
}

#[test]
fn test_subdivide_goes_on_in_a_moved_part_that_leaves_room() {
    // The part in <x> does not fit behind the text and is moved into a group of
    // its own, inside <i>. That group leaves room, so what follows enters it
    // behind its </i>, and is closed once more.
    let tg = TokenGroup::from_string("<i>aaaaaaaaaa<x>bb</x>cc</i>");
    let groups = tg.subdivide(25, &["x"]).unwrap();
    let strings: Vec<String> = groups.iter().map(|g| g.to_string()).collect();
    assert_eq!(strings, vec!["<i>aaaaaaaaaa</i>", "<i><x>bb</x></i>cc</i>"]);
    assert!(depth_ok(&groups[0]));
    assert!(!depth_ok(&groups[1]));
    assert_eq!(text_of(&groups), "aaaaaaaaaabbcc");
}

#[test]
fn test_subdivide_part_that_fits_is_taken_whole() {
    let html = "<b>some words <i>and <u>a part</u> that</i> fits</b>";
    let tg = TokenGroup::from_string(html);
    // the part in <i> takes 29 bytes: behind "<b>some words " and before
    // "</b>" there is room for it in 47 bytes, whether or not it may be split
    for no_split in [vec![], vec!["i"], vec!["i", "u"]] {
        let groups = tg.subdivide(47, &no_split).unwrap();
        let strings: Vec<String> = groups.iter().map(|g| g.to_string()).collect();
        assert_eq!(
            strings,
            vec!["<b>some words <i>and <u>a part</u> that</i></b>", "<b> fits</b>"]
        );
    }
    // with one byte less it is cut, unless its name is on the list
    let groups = tg.subdivide(46, &[]).unwrap();
    let strings: Vec<String> = groups.iter().map(|g| g.to_string()).collect();
    assert_eq!(
        strings,
        vec![
            "<b>some words <i>and <u>a part</u> </i></b>",
            "<b><i>that</i></b>",
            "<b> fits</b>"
        ]
    );
    let groups = tg.subdivide(40, &["i"]).unwrap();
    let strings: Vec<String> = groups.iter().map(|g| g.to_string()).collect();
    assert_eq!(
        strings,
        vec![
            "<b>some words </b>",
            "<b><i>and <u>a part</u> that</i></b>",
            "<b> fits</b>"
        ]
    );
}
