use flatten_marker_output::text::{extract_text_from_html, is_whitespace, normalize_whitespace};

#[test]
fn heading_markup_gives_its_words() {
    assert_eq!(extract_text_from_html("<h1>Intro</h1>"), "Intro");
}

#[test]
fn paragraph_markup_gives_its_sentence() {
    assert_eq!(extract_text_from_html("<p>Hello world.</p>"), "Hello world.");
}

#[test]
fn tags_become_word_breaks() {
    assert_eq!(extract_text_from_html("a<br>b"), "a b");
    assert_eq!(extract_text_from_html("<p>one</p><p>two</p>"), "one two");
}

#[test]
fn tag_runs_to_the_first_closing_bracket() {
    assert_eq!(extract_text_from_html("<a <b> c>"), "c>");
    assert_eq!(extract_text_from_html("x<>y"), "x y");
    assert_eq!(extract_text_from_html("<<a>>"), ">");
}

#[test]
fn tag_may_span_lines() {
    assert_eq!(extract_text_from_html("a<span\nclass=\"x\">b</span>"), "a b");
}

#[test]
fn unclosed_bracket_stays() {
    assert_eq!(extract_text_from_html("a < b"), "a < b");
    assert_eq!(extract_text_from_html("a > b"), "a > b");
    assert_eq!(extract_text_from_html("1 > 0 <em>and</em> 0 < 1"), "1 > 0 and 0 < 1");
}

#[test]
fn entities_pass_through() {
    assert_eq!(extract_text_from_html("<p>Tom &amp; Jerry &lt;3</p>"), "Tom &amp; Jerry &lt;3");
}

#[test]
fn dollar_signs_in_the_input_stay() {
    assert_eq!(extract_text_from_html("<b>$1</b> costs $0"), "$1 costs $0");
}

#[test]
fn plain_text_is_only_normalized() {
    assert_eq!(extract_text_from_html("plain text"), "plain text");
    assert_eq!(extract_text_from_html("  plain \t\n text  "), "plain text");
    assert_eq!(extract_text_from_html("  plain \t\n text  "), normalize_whitespace("  plain \t\n text  "));
}

#[test]
fn extraction_is_idempotent_on_its_output() {
    let once = extract_text_from_html("<div> a  <i>b</i>\n c </div>");
    assert_eq!(once, "a b c");
    assert_eq!(extract_text_from_html(&once), once);
}

#[test]
fn blank_markup_gives_empty_text() {
    assert_eq!(extract_text_from_html(""), "");
    assert_eq!(extract_text_from_html("   "), "");
    assert_eq!(extract_text_from_html(" \t\r\n\u{a0}\u{3000} "), "");
    assert_eq!(extract_text_from_html("<p> </p>"), "");
    assert_eq!(extract_text_from_html("<br><br/>"), "");
}

#[test]
fn output_holds_no_tag() {
    for html in ["<a>x</a>", "<<>>", "a<b", "a>b<c>d", "><", "<a<b>c>d<e"] {
        let text = extract_text_from_html(html);
        let open = text.find('<');
        let close = text.rfind('>');
        if let (Some(i), Some(j)) = (open, close) {
            assert!(j < i, "{:?} gave {:?}", html, text);
        }
    }
}

#[test]
fn whitespace_is_collapsed_between_words() {
    assert_eq!(normalize_whitespace("a"), "a");
    assert_eq!(normalize_whitespace(" a"), "a");
    assert_eq!(normalize_whitespace("a "), "a");
    assert_eq!(normalize_whitespace("a  b\u{2003}c\u{85}d"), "a b c d");
    assert_eq!(normalize_whitespace("\u{200b}"), "\u{200b}");
    assert_eq!(normalize_whitespace("é \u{1F600}"), "é \u{1F600}");
}

#[test]
fn whitespace_agrees_with_the_standard_library() {
    let mut u: u32 = 0;
    while u <= 0x10FFFF {
        if let Some(c) = char::from_u32(u) {
            assert_eq!(is_whitespace(c), c.is_whitespace(), "U+{:04X}", u);
        }
        u += 1;
    }
}

#[test]
fn collapsing_matches_split_and_join() {
    for s in ["", " ", "a  b", "\ta\nb\r\nc ", "  x", "x\u{a0}\u{a0}y", "one two  three   "] {
        let expected = s.split_whitespace().collect::<Vec<_>>().join(" ");
        assert_eq!(normalize_whitespace(s), expected);
    }
}

fn replace_tags(s: &[char]) -> Vec<char> {
    let mut out = Vec::new();
    let mut i = 0;
    while i < s.len() {
        let close = if s[i] == '<' { s[i..].iter().position(|&c| c == '>') } else { None };
        match close {
            Some(k) => {
                out.push(' ');
                i += k + 1;
            }
            None => {
                out.push(s[i]);
                i += 1;
            }
        }
    }
    out
}

#[test]
fn tags_are_found_left_to_right_on_every_short_input() {
    let alphabet = ['<', '>', 'a', ' '];
    let mut current: Vec<Vec<char>> = vec![Vec::new()];
    for _ in 0..5 {
        let mut next = Vec::new();
        for s in &current {
            for &c in &alphabet {
                let mut t = s.clone();
                t.push(c);
                next.push(t);
            }
        }
        for s in &next {
            let html: String = s.iter().collect();
            let replaced: String = replace_tags(s).into_iter().collect();
            assert_eq!(extract_text_from_html(&html), normalize_whitespace(&replaced), "{:?}", html);
        }
        current = next;
    }
}

#[test]
fn extraction_twice_is_extraction_once() {
    for html in ["<p>a</p> <b", "a > b < c", "<<x>>", " x <i> y </i> ", "\u{a0}<br>"] {
        let once = extract_text_from_html(html);
        assert_eq!(extract_text_from_html(&once), once);
    }
}
