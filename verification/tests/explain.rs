use flw::explainshell::{
    decode_html, escape_json, explanation_to_json, is_valid_response, parse_html, strip_html_tags,
    url_encode, Explanation, Match,
};
use flw::pane::{parse_json, unescape_json};

const PAGE: &str = r#"<html><div id="command"><span class="command0" helpref="help-0">ls</span> <span class="unknown">foo</span> <span helpref="help-1">-l</span>
<ul class="dropdown-menu"><li>skip</li></ul> &amp;&amp; <b>x</b></div>
<div class="help-box" id="help-0">list directory</div>
<div class="help-box" id="help-1">long <b>format</b></div></html>"#;

#[test]
fn url_encode_keeps_unreserved_and_escapes_bytes() {
    assert_eq!(url_encode("ls -la"), "ls+-la");
    assert_eq!(url_encode("a&b=c~d_e.f"), "a%26b%3Dc~d_e.f");
    assert_eq!(url_encode("é"), "%C3%A9");
    assert_eq!(url_encode(""), "");
}

#[test]
fn valid_responses() {
    assert!(is_valid_response("<div class=\"help-box\">"));
    assert!(is_valid_response("missing man page"));
    assert!(is_valid_response("a parsing error here"));
    assert!(!is_valid_response("<html>nothing</html>"));
}

#[test]
fn strip_html_tags_keeps_lines() {
    assert_eq!(
        strip_html_tags("<p>Hello   <b>world</b></p><p>Second</p>"),
        "Hello world\nSecond"
    );
    assert_eq!(strip_html_tags("a<br>b<br/>c<br />d"), "a\nb\nc\nd");
    assert_eq!(strip_html_tags("<table><tr><td>x</td><td>y</td></tr></table>"), "x y");
    assert_eq!(strip_html_tags("one\n\n\n\ntwo"), "one\ntwo");
    let s = strip_html_tags("  <i>a < b > c</i>  ");
    assert!(!s.contains('<') && !s.contains('>'));
    assert_eq!(s, "a c");
}

#[test]
fn escape_json_escapes_five_characters() {
    let s = "a\"b\\c\nd\te\rf";
    let e = escape_json(s);
    assert_eq!(e, "a\\\"b\\\\c\\nd\\te\\rf");
    assert!(!e.contains('\n'));
    assert_eq!(unescape_json(&e), s);
}

#[test]
fn decode_html_in_order() {
    assert_eq!(decode_html("&lt;a&gt; &quot;b&quot; &#39;c&#39; &amp;"), "<a> \"b\" 'c' &");
    assert_eq!(decode_html("&amp;lt;"), "<");
}

#[test]
fn parse_html_spans_and_boxes() {
    let e = parse_html("ls foo -l", PAGE);
    assert_eq!(e.command, "ls foo -l");
    assert_eq!(e.error, None);
    assert_eq!(e.formatted_command.as_deref(), Some("ls foo -l && x"));
    assert_eq!(e.matches.len(), 3);
    let m = &e.matches[0];
    assert_eq!((m.index, m.source.as_str(), m.explanation.as_str(), m.start, m.end), (0, "ls", "list directory", 0, 2));
    let m = &e.matches[1];
    assert_eq!(
        (m.index, m.source.as_str(), m.explanation.as_str(), m.start, m.end),
        (1, "foo", "Unknown option / argument (no explanation available in explainshell)", 3, 6)
    );
    let m = &e.matches[2];
    assert_eq!((m.index, m.source.as_str(), m.explanation.as_str(), m.start, m.end), (2, "-l", "long <b>format</b>", 7, 9));
}

#[test]
fn parse_html_error_pages() {
    let e = parse_html("uv", "<p>missing man page</p><div class=\"help-box\" id=\"h\">x</div>");
    assert_eq!(e.error.as_deref(), Some("missing man page"));
    assert!(e.matches.is_empty());
    assert_eq!(e.formatted_command, None);
    let e = parse_html("x", "parsing error");
    assert_eq!(e.error.as_deref(), Some("parsing error"));
}

#[test]
fn parse_html_falls_back_to_help_boxes() {
    let page = "<div class=\"help-box\" id=\"a\">first</div><div class=\"help-box\" id=\"b\">second</div>";
    let e = parse_html("cmd", page);
    assert_eq!(e.formatted_command, None);
    assert_eq!(e.matches.len(), 2);
    assert_eq!((e.matches[1].index, e.matches[1].source.as_str(), e.matches[1].explanation.as_str()), (1, "b", "second"));
    assert_eq!((e.matches[1].start, e.matches[1].end), (0, 0));
}

#[test]
fn json_error_text() {
    let e = Explanation {
        command: "ls".to_string(),
        formatted_command: None,
        error: Some("oops".to_string()),
        matches: Vec::new(),
    };
    assert_eq!(
        explanation_to_json(&e, None, None, 0, Some(-1), Some(7)),
        "{\n  \"command\": \"ls\",\n  \"pid\": 7,\n  \"status\": -1,\n  \"active_match_idx\": null,\n  \"expanded_match_idx\": null,\n  \"expanded_scroll\": 0,\n  \"error\": \"oops\"\n}"
    );
    assert!(!explanation_to_json(&e, None, None, 0, None, Some(0)).contains("pid"));
}

#[test]
fn json_matches_text_and_round_trip() {
    let e = Explanation {
        command: "echo \"a\"".to_string(),
        formatted_command: Some("echo \"a\"".to_string()),
        error: None,
        matches: vec![
            Match { index: 0, source: "echo".to_string(), explanation: "prints {x}\nline".to_string(), start: 0, end: 4 },
            Match { index: 1, source: "\"a\"".to_string(), explanation: "a \\ b".to_string(), start: 5, end: 8 },
        ],
    };
    let j = explanation_to_json(&e, Some(1), Some(1), 3, Some(0), Some(42));
    assert!(j.contains("\x1b[31;1m    {\n      \"index\": 1,"));
    let p = parse_json(&j);
    assert_eq!(p.command, "echo \"a\"");
    assert_eq!(p.error, None);
    assert_eq!(p.active_match_idx, Some(1));
    assert_eq!(p.expanded_match_idx, Some(1));
    assert_eq!(p.expanded_scroll, 3);
    assert_eq!(p.matches.len(), 2);
    assert_eq!(p.matches[0].explanation, "prints {x}\nline");
    assert_eq!(p.matches[1].source, "\"a\"");
    assert_eq!(p.matches[1].explanation, "a \\ b");
}

#[test]
fn json_round_trip_with_error() {
    let e = Explanation {
        command: "ls -l".to_string(),
        formatted_command: None,
        error: Some("no \"manpage\"\n".to_string()),
        matches: Vec::new(),
    };
    let p = parse_json(&explanation_to_json(&e, None, Some(2), 5, Some(1), Some(9)));
    assert_eq!(p.command, "ls -l");
    assert_eq!(p.error, Some("no \"manpage\"\n".to_string()));
    assert_eq!(p.active_match_idx, None);
    assert_eq!(p.expanded_match_idx, Some(2));
    assert_eq!(p.expanded_scroll, 5);
    assert_eq!(p.matches.len(), 0);
}

#[test]
fn json_command_named_like_a_key_is_misread() {
    let e = Explanation { command: "error".to_string(), formatted_command: None, error: None, matches: Vec::new() };
    let p = parse_json(&explanation_to_json(&e, None, None, 0, None, None));
    assert_eq!(p.command, "error");
    assert_eq!(p.error, Some("active_match_idx".to_string()));
    let e2 = Explanation {
        command: "expanded_scroll".to_string(),
        formatted_command: None,
        error: Some("x".to_string()),
        matches: Vec::new(),
    };
    let p0 = parse_json(&explanation_to_json(&e2, None, None, 0, None, None));
    assert_eq!((p0.command.as_str(), p0.expanded_scroll), ("expanded_scroll", 0));
    let p4 = parse_json(&explanation_to_json(&e2, None, None, 4, None, None));
    assert_eq!(p4.expanded_scroll, 0);
}

#[test]
fn json_highlight_code_in_a_text_is_lost() {
    let e = Explanation {
        command: "a\x1b[0mb".to_string(),
        formatted_command: None,
        error: None,
        matches: Vec::new(),
    };
    let p = parse_json(&explanation_to_json(&e, None, None, 0, None, None));
    assert_eq!(p.command, "ab");
    let e2 = Explanation { command: "a\x1bb".to_string(), formatted_command: None, error: None, matches: Vec::new() };
    assert_eq!(parse_json(&explanation_to_json(&e2, None, None, 0, None, None)).command, "a\x1bb");
}

#[test]
fn stripping_twice_changes_nothing() {
    for html in [
        "<p>one</p><p>two  three</p>",
        " \n<div>a\r\n\r\n b</div>\t<br/>c&amp;d",
        "<ul><li>x</li><li> y </li></ul>\n\n\n",
        "",
        "plain  text\n\n\nmore",
    ] {
        let once = strip_html_tags(html);
        assert_eq!(strip_html_tags(&once), once);
    }
}
