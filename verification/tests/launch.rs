use flw::launch::{
    agent_command, cleanup_command, explainshell_candidates, explainshell_dir, explainshell_port,
    local_explain_url, pane_and_window, parse_max_scroll, real_shell, remote_explain_url, shell_candidates, sq, toggle_script,
    watch_json_command, watch_list_command, wrapper_script,
};

#[test]
fn sq_quotes_single_quotes() {
    assert_eq!(sq("abc"), "'abc'");
    assert_eq!(sq("it's"), "'it'\\''s'");
    assert_eq!(sq(""), "''");
}

#[test]
fn wrapper_script_text() {
    let real = "/bin/ba sh";
    let trace = "/tmp/t'x";
    let expected = format!(
        "#!/bin/sh\nif [ \"$1\" = \"-c\" ] && [ -n \"$2\" ]; then\n  PID=$$\n  CMD=$(printf '%s' \"$2\" | tr '\\n' ' ')\n  printf 'START\\t%d\\t%s\\n' \"$PID\" \"$CMD\" >> {} 2>/dev/null\n  {} \"$@\"\n  STATUS=$?\n  printf 'END\\t%d\\t%d\\n' \"$PID\" \"$STATUS\" >> {} 2>/dev/null\n  exit $STATUS\nelse\n  exec {} \"$@\"\nfi\n",
        sq(trace),
        sq(real),
        sq(trace),
        sq(real),
    );
    assert_eq!(wrapper_script(real, trace), expected);
}

#[test]
fn pane_commands() {
    assert_eq!(watch_list_command("/f", "/t", "/j"), "'/f' --watch-list '/t' '/j'");
    assert_eq!(watch_json_command("/f", "/j", false), "'/f' --watch-json '/j'");
    assert_eq!(watch_json_command("/f", "/j", true), "'/f' --watch-json --raw-json '/j'");
    let cleanup = cleanup_command("C-f", "/w", "/t", "/j", "/s");
    assert_eq!(
        cleanup,
        "; tmux unbind-key -n 'C-f' 2>/dev/null; rm -rf '/w' '/t' '/j' '/s'; tmux kill-window -t \"$TMUX_PANE\" 2>/dev/null || tmux kill-window 2>/dev/null"
    );
    let args = vec!["--x".to_string(), "a b".to_string()];
    assert_eq!(agent_command("/w", "/bin/agi", &args, ";c"), "PATH='/w':$PATH '/bin/agi' '--x' 'a b';c");
}

#[test]
fn toggle_script_text() {
    let expected = format!(
        "#!/bin/sh\n\
        active_window=$(tmux display-message -p '#{{window_id}}')\n\
        if [ \"$active_window\" != {} ]; then\n\
          exit 0\n\
        fi\n\
        num_panes=$(tmux list-panes -t {} | wc -l)\n\
        if [ \"$num_panes\" -eq 1 ]; then\n\
          right_pane=$(tmux split-window -h -P -F \"#{{pane_id}}\" -t {} {})\n\
          if [ -n \"$right_pane\" ]; then\n\
            tmux split-window -v -l 62% -d -t \"$right_pane\" {}\n\
          fi\n\
        else\n\
          tmux kill-pane -a -t {}\n\
        fi\n",
        sq("@1"),
        sq("%2"),
        sq("%2"),
        sq("top"),
        sq("bottom"),
        sq("%2")
    );
    assert_eq!(toggle_script("@1", "%2", "top", "bottom"), expected);
}

#[test]
fn ports_and_urls() {
    assert_eq!(explainshell_port(None), 5000);
    assert_eq!(explainshell_port(Some("8080")), 8080);
    assert_eq!(explainshell_port(Some("+80")), 80);
    assert_eq!(explainshell_port(Some("70000")), 5000);
    assert_eq!(explainshell_port(Some("")), 5000);
    assert_eq!(explainshell_port(Some("-1")), 5000);
    assert_eq!(explainshell_port(Some(" 80")), 5000);
    assert_eq!(local_explain_url(5000, "ls -la"), "http://localhost:5000/explain?cmd=ls+-la");
    assert_eq!(remote_explain_url("a&b"), "https://explainshell.com/explain?cmd=a%26b");
}

#[test]
fn max_scroll_text() {
    assert_eq!(parse_max_scroll(" 12\n"), Some(12));
    assert_eq!(parse_max_scroll("x"), None);
    assert_eq!(parse_max_scroll(""), None);
}

#[test]
fn real_shell_takes_first_present_candidate() {
    assert_eq!(shell_candidates("bash"), vec!["/bin/bash", "/usr/bin/bash"]);
    assert_eq!(shell_candidates("/opt/sh"), vec!["/opt/sh", "/opt/sh"]);
    assert_eq!(real_shell("bash", &vec![false, true]), "/usr/bin/bash");
    assert_eq!(real_shell("sh", &vec![true, false]), "/bin/sh");
    assert_eq!(real_shell("sh", &vec![true, true]), "/bin/sh");
    assert_eq!(real_shell("zsh", &vec![false, false, true]), "/bin/zsh");
    assert_eq!(real_shell("fish", &vec![false, false]), "/bin/fish");
    assert_eq!(real_shell("fish", &vec![]), "/bin/fish");
}

#[test]
fn explainshell_checkout_is_looked_for_under_home() {
    assert_eq!(
        explainshell_candidates("/home/u"),
        vec!["/home/u/scratch/explainshell", "/home/u/explainshell", "/home/u/projects/explainshell"]
    );
    assert_eq!(explainshell_candidates("/home/u/")[1], "/home/u/explainshell");
    assert_eq!(explainshell_dir("/h", &vec![false, true, true]), Some("/h/explainshell".to_string()));
    assert_eq!(explainshell_dir("/h", &vec![false, false, false]), None);
    assert_eq!(shell_candidates("")[0], "/bin/");
}

#[test]
fn tmux_output_gives_pane_and_window() {
    assert_eq!(pane_and_window("%12 @3\n"), ("%12".to_string(), "@3".to_string()));
    assert_eq!(pane_and_window("  %5\t\t@7  extra"), ("%5".to_string(), "@7".to_string()));
    assert_eq!(pane_and_window("%5"), ("%5".to_string(), "@0".to_string()));
    assert_eq!(pane_and_window(" \n "), ("%0".to_string(), "@0".to_string()));
}
