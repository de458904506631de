use flw::display::{
    clean_explanation, format_lines, get_first_description_line, highlight_cmd_source,
    highlight_cmd_source_by_index, render_request, strip_shopt_wrapper, truncate_to_line,
};
use flw::pane::{parse_json, parse_matches, parse_string_field, parse_usize_field, unescape_json};

#[test]
fn test_clean_explanation() {
    assert_eq!(clean_explanation("[source]\nHello World"), "Hello World");
    assert_eq!(clean_explanation("[soruce]\r\nHello World"), "Hello World");
    assert_eq!(clean_explanation("[SOURCE]\nHello World"), "Hello World");
    assert_eq!(clean_explanation("Hello World"), "Hello World");
    assert_eq!(clean_explanation("  [soruce]\n  foo \n  "), "foo");
}

#[test]
fn test_parse_json() {
    let json = r#"{
  "command": "ls -la",
  "active_match_idx": 0,
  "expanded_match_idx": null,
  "matches": [
    {
      "index": 0,
      "source": "ls",
      "explanation": "[source]\nlist directory contents"
    }
  ]
}"#;
    let parsed = parse_json(json);
    assert_eq!(parsed.active_match_idx, Some(0));
    assert_eq!(parsed.expanded_match_idx, None);
    assert_eq!(parsed.matches.len(), 1);
    assert_eq!(parsed.matches[0].index, 0);
    assert_eq!(parsed.matches[0].source, "ls");
    assert_eq!(parsed.matches[0].explanation, "[source]\nlist directory contents");
}

#[test]
fn test_format_lines() {
    let json = r#"{
  "command": "ls -la --color=always",
  "active_match_idx": 1,
  "expanded_match_idx": null,
  "matches": [
    {
      "index": 0,
      "source": "ls",
      "explanation": "[source]\nlist directory contents."
    },
    {
      "index": 1,
      "source": "-la",
      "explanation": "[soruce]\ndo not ignore entries starting with . and use a long listing format"
    }
  ]
}"#;
    let (lines, _max_scroll) = format_lines(json, false, 80, 24, "");
    assert_eq!(lines.len(), 2);
    assert!(lines[0].contains("  ls"));
    assert!(lines[0].contains("list directory contents."));
    assert!(!lines[0].contains("[source]"));

    assert!(lines[1].contains("▸ -la"));
    assert!(lines[1].contains("do not ignore entries starting with . and use a long listing format"));
    assert!(!lines[1].contains("[soruce]"));
}

#[test]
fn test_get_first_description_line() {
    let exp = "  -l\n  List in long format, giving mode...";
    assert_eq!(get_first_description_line(exp), "List in long format, giving mode...");

    let exp2 = "Just a plain description sentence.";
    assert_eq!(get_first_description_line(exp2), "Just a plain description sentence.");
}

#[test]
fn test_strip_shopt_wrapper() {
    assert_eq!(strip_shopt_wrapper("ls -la"), "ls -la");
    assert_eq!(
        strip_shopt_wrapper("shopt -u promptvars nullglob extglob nocaseglob dotglob; ( echo hello )"),
        "echo hello"
    );
    let complex = r#"shopt -u promptvars nullglob extglob nocaseglob dotglob; ( ls -R && touch complex_demo_file.txt && echo "success." ) __code=$?; pgrep -g 0 >/tmp/gemini-shell-Neupw6/pgrep.tmp 2>&1; exit $__code;"#;
    assert_eq!(
        strip_shopt_wrapper(complex),
        r#"ls -R && touch complex_demo_file.txt && echo "success.""#
    );
    let nested = r#"shopt -u promptvars nullglob extglob nocaseglob dotglob; ( (echo "nested") ) __code=$?;"#;
    assert_eq!(strip_shopt_wrapper(nested), r#"(echo "nested")"#);
    let newlines = "shopt -u promptvars nullglob extglob nocaseglob dotglob; ( echo multiline )\n__code=$?; pgrep";
    assert_eq!(strip_shopt_wrapper(newlines), "echo multiline");
}

#[test]
fn shopt_wrapper_kept_when_other_text_follows() {
    let cmd = "shopt -u promptvars nullglob extglob nocaseglob dotglob; ( echo a ) | cat";
    assert_eq!(strip_shopt_wrapper(cmd), "echo a ) | cat");
    assert_eq!(strip_shopt_wrapper("  echo b  "), "echo b");
}

#[test]
fn wrapped_command_is_given_back_trimmed() {
    let prefix = "shopt -u promptvars nullglob extglob nocaseglob dotglob; (";
    for c in ["  git status\n", "(a) && (b)", "", "x ) y"] {
        for tail in ["", "  ", "\n__code=$?; pgrep -g 0 >/tmp/p 2>&1; exit $__code; ", "; __code=$?"] {
            let wrapped = format!("{}{}){}", prefix, c, tail);
            assert_eq!(strip_shopt_wrapper(&wrapped), c.trim());
        }
    }
}

#[test]
fn clean_explanation_removes_repeated_tags_and_is_idempotent() {
    let once = clean_explanation(" [source]\n[Soruce]\r\n  body ");
    assert_eq!(once, "body");
    assert_eq!(clean_explanation(&once), once);
    assert_eq!(clean_explanation("[source] no line end"), "[source] no line end");
}

#[test]
fn description_line_falls_back_to_first_non_blank() {
    assert_eq!(get_first_description_line("\n  -a\n -b \n"), "-a");
    assert_eq!(get_first_description_line("  \n \n"), "");
    // "é" is two bytes: "-éé" is five bytes, still an option name.
    assert_eq!(get_first_description_line("-éé\nreal text"), "real text");
    // "ééé" is six bytes, more than three: a description.
    assert_eq!(get_first_description_line("ééé\nother"), "ééé");
}

#[test]
fn truncate_to_line_fits_and_flattens() {
    assert_eq!(truncate_to_line("hello\nworld", 8), "hello...");
    assert_eq!(truncate_to_line("a\r\nb", 10), "a  b");
    let t = truncate_to_line("a long line of text\nwith a break", 12);
    assert!(t.chars().count() <= 12);
    assert!(!t.contains('\n'));
    assert_eq!(truncate_to_line("abcdef", 2), "...");
}

#[test]
fn highlight_by_index_marks_range() {
    assert_eq!(
        highlight_cmd_source_by_index("ls -la", 3, 6, "48;5;236"),
        "ls \x1b[1;48;5;160;38;5;231m-la\x1b[0;48;5;236m"
    );
    assert_eq!(highlight_cmd_source_by_index("ls -la", 3, 7, "48;5;236"), "ls -la");
    assert_eq!(highlight_cmd_source_by_index("ls -la", 3, 3, "48;5;236"), "ls -la");
}

#[test]
fn highlight_source_uses_part_before_parenthesis() {
    assert_eq!(
        highlight_cmd_source("ls -la", "ls(1)", "48;5;236"),
        "\x1b[1;48;5;160;38;5;231mls\x1b[0;48;5;236m -la"
    );
    assert_eq!(highlight_cmd_source("ls -la", "grep", "48;5;236"), "ls -la");
}

#[test]
fn unescape_handles_unknown_and_trailing_backslash() {
    assert_eq!(unescape_json(r#"a\"b\\c\nd\te\rf"#), "a\"b\\c\nd\te\rf");
    assert_eq!(unescape_json(r"\q"), r"\q");
    assert_eq!(unescape_json("end\\"), "end\\");
}

#[test]
fn fields_read_first_occurrence() {
    assert_eq!(parse_usize_field(r#"{"a": 12, "a": 3}"#, "\"a\""), Some(12));
    assert_eq!(parse_usize_field(r#"{"a": null}"#, "\"a\""), None);
    assert_eq!(parse_usize_field(r#"{"a": 99999999999999999999999}"#, "\"a\""), None);
    assert_eq!(parse_usize_field(r#"{"b": 1}"#, "\"a\""), None);
    assert_eq!(
        parse_string_field(r#"{"s": "x\"y", "t": 1}"#, "\"s\""),
        Some("x\"y".to_string())
    );
    assert_eq!(parse_string_field(r#"{"s": "open"#, "\"s\""), None);
}

#[test]
fn matches_skip_braces_in_strings_and_stop_at_open_object() {
    let json = r#"{"matches": [ {"index": 2, "source": "{x}", "explanation": "a } b"}, {"index": 5, "source": "y""#;
    let ms = parse_matches(json);
    assert_eq!(ms.len(), 1);
    assert_eq!(ms[0].index, 2);
    assert_eq!(ms[0].source, "{x}");
    assert_eq!(ms[0].explanation, "a } b");
    assert_eq!(parse_matches("{}").len(), 0);
}

#[test]
fn format_lines_notices() {
    let (l, m) = format_lines("   ", false, 80, 24, "");
    assert_eq!(l, vec!["\x1b[37mNo command selected or explanation loaded yet.\x1b[0m".to_string()]);
    assert_eq!(m, 0);
    let (l, _) = format_lines("{\n  \"command\": \"x\",\n  \"error\": \"missing man page\"\n}", false, 80, 24, "");
    assert_eq!(l, vec!["\x1b[37mmissing man page\x1b[0m".to_string()]);
    let (l, _) = format_lines("{\n  \"command\": \"x\",\n  \"matches\": [\n  ]\n}", false, 80, 24, "");
    assert_eq!(l, vec!["\x1b[37mNo explanation matches found.\x1b[0m".to_string()]);
    let (l, _) = format_lines("a\nb\r\n", true, 80, 24, "");
    assert_eq!(l, vec!["a".to_string(), "b".to_string()]);
}

#[test]
fn format_lines_expanded_match_scrolls() {
    let json = "{\n  \"command\": \"ls\",\n  \"active_match_idx\": 0,\n  \"expanded_match_idx\": 0,\n  \"expanded_scroll\": 9,\n  \"matches\": [\n    {\n      \"index\": 0,\n      \"source\": \"ls\",\n      \"explanation\": \"[source]\\nlist\"\n    }\n  ]\n}";
    let req = render_request(json, false, 40);
    assert_eq!(req, Some(("list".to_string(), 36)));
    let rendered = "l1\nl2\nl3\nl4\nl5";
    // 6 rows: 5 usable, 3 for the text; 5 lines scroll by at most 2.
    let (lines, max_scroll) = format_lines(json, false, 40, 6, rendered);
    assert_eq!(max_scroll, 2);
    assert_eq!(lines.len(), 5);
    assert_eq!(lines[0], "\x1b[31;1mls\x1b[0m");
    assert_eq!(lines[1], "");
    assert_eq!(lines[2], "  \x1b[38;5;250ml3\x1b[0m");
    assert_eq!(render_request(json, true, 40), None);
}
