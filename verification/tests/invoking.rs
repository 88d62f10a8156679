use tmux_mcp_rs::errors::Error;
use tmux_mcp_rs::tmux::args;
use tmux_mcp_rs::tmux::buffers::{
    append_plan, appended, buffer_slice, set_buffer_fallback, AppendPlan,
};
use tmux_mcp_rs::tmux::invoke::{
    buffer_text, command_line, get_socket_args, get_ssh_args, outcome_of, reply_of, reply_text,
    running_from_reply, ssh_enabled,
};
use tmux_mcp_rs::tmux::keys::{
    chunk_literal_payload, send_keys_args, send_keys_hex_args, staging_buffer,
    MAX_LITERAL_CHUNK_BYTES,
};
use tmux_mcp_rs::tmux::recover::{
    buffers_from_reply, clients_from_reply, current_session, find_session_by_name, pane_ids,
    pane_in_reply, recover_broken_out, recover_pane, recover_session, recover_window,
    session_in_reply, window_ids, window_in_reply,
};
use tmux_mcp_rs::tmux::{
    parse_buffers, parse_hex_tokens, parse_panes, parse_sessions, parse_windows, resolve_socket,
};

fn strings(items: &[&str]) -> Vec<String> {
    items.iter().map(|s| s.to_string()).collect()
}

/// Runs tmux as far as its reply: success, standard output and standard error.
fn execute(success: bool, stdout: &str, stderr: &str) -> Result<String, Error> {
    let reply = reply_of(success, stdout.as_bytes().to_vec(), stderr.as_bytes().to_vec())?;
    Ok(reply_text(&reply))
}

fn tmux_message<T: std::fmt::Debug>(result: Result<T, Error>) -> String {
    match result {
        Err(Error::Tmux { message }) => message,
        other => panic!("expected tmux error, got {other:?}"),
    }
}

fn invalid_message<T: std::fmt::Debug>(result: Result<T, Error>) -> String {
    match result {
        Err(Error::InvalidArgument { message }) => message,
        other => panic!("expected invalid argument error, got {other:?}"),
    }
}

#[test]
fn resolve_socket_prefers_override_and_env() {
    let env = Some("/tmp/env.sock");
    assert_eq!(resolve_socket(None, env), Some("/tmp/env.sock".to_string()));
    assert_eq!(
        resolve_socket(Some("/tmp/override.sock"), env),
        Some("/tmp/override.sock".to_string())
    );
    assert_eq!(resolve_socket(Some(""), env), None);
    assert_eq!(resolve_socket(None, Some("")), None);
    assert_eq!(resolve_socket(None, None), None);
}

#[test]
fn execute_tmux_success() {
    let output = execute(true, "  alpha\nbeta\n", "").expect("execute tmux");
    assert!(output.contains("alpha"));
    assert_eq!(output, "alpha\nbeta");
}

#[test]
fn execute_tmux_error_message() {
    assert!(tmux_message(execute(false, "ignored", " boom\n")).contains("boom"));
    assert_eq!(tmux_message(execute(false, "ignored", " boom\n")), "boom");
}

#[test]
fn replies_on_standard_error_count_where_there_are_no_others() {
    assert_eq!(execute(true, "", "$1\tname\n").expect("reply"), "$1\tname");
    assert_eq!(execute(true, "out", "err").expect("reply"), "out");
    assert_eq!(execute(true, "", "").expect("reply"), "");
    assert!(outcome_of(true, b"noise").is_ok());
    assert_eq!(tmux_message(outcome_of(false, b" \xffbad ")), "\u{fffd}bad");
}

#[test]
fn bytes_that_are_no_text_are_replaced() {
    for bytes in [&b"plain"[..], b"caf\xc3\xa9", b"\xff", b"a\xc3", b"\xe2\x82x"] {
        assert_eq!(buffer_text(bytes), String::from_utf8_lossy(bytes));
    }
    assert_eq!(buffer_text(b" kept \n"), " kept \n");
    assert_eq!(reply_text(b" \xe2\x80\x83kept\xc2\x85 \n"), "kept");
}

#[test]
fn is_tmux_running_reports_states() {
    assert!(running_from_reply(execute(true, "alpha", "")).unwrap());
    assert!(!running_from_reply(execute(false, "", "no server running")).unwrap());
    assert!(running_from_reply(execute(false, "", "error: no sessions")).unwrap());
    assert!(running_from_reply(execute(false, "", "unexpected failure")).is_err());
    let other = Error::Parse { message: "no sessions".to_string() };
    assert!(running_from_reply(Err(other)).is_err());
}

#[test]
fn execute_tmux_uses_socket_args() {
    let line = command_line(&strings(&["socket-test"]), None, Some("/tmp/tmux-test.sock"), None)
        .expect("socket test");
    assert_eq!(line.program, "tmux");
    assert_eq!(line.args, strings(&["-S", "/tmp/tmux-test.sock", "socket-test"]));
    assert_eq!(get_socket_args(Some(""), Some("/tmp/x")), Vec::<String>::new());
}

#[test]
fn execute_tmux_uses_ssh_when_configured() {
    let line = command_line(&strings(&["ssh-test"]), None, None, Some("user@host")).expect("ssh test");
    assert_eq!(line.program, "ssh");
    assert_eq!(line.args, strings(&["user@host", "tmux", "ssh-test"]));
    let line = command_line(
        &strings(&["list-sessions"]),
        Some("/s"),
        Some("/ignored"),
        Some("-i 'my key' user@host"),
    )
    .expect("ssh test");
    assert_eq!(
        line.args,
        strings(&["-i", "my key", "user@host", "tmux", "-S", "/s", "list-sessions"])
    );
}

#[test]
fn execute_tmux_invalid_ssh_returns_error() {
    let message = invalid_message(command_line(
        &strings(&["list-sessions"]),
        None,
        None,
        Some("user@host \"unterminated"),
    ));
    assert!(message.contains("invalid TMUX_MCP_SSH"));
    assert_eq!(message, "invalid TMUX_MCP_SSH: missing closing quote");
}

#[test]
fn blank_connection_strings_count_as_none() {
    assert_eq!(get_ssh_args(None).expect("none"), None);
    assert_eq!(get_ssh_args(Some(" \t ")).expect("blank"), None);
    // A comment has no words.
    assert_eq!(get_ssh_args(Some("# nothing")).expect("comment"), None);
    assert!(ssh_enabled(Some("host")).expect("host"));
    assert!(!ssh_enabled(Some("")).expect("empty"));
    assert!(ssh_enabled(Some("'open")).is_err());
}

#[test]
fn create_session_parses_output() {
    let session = session_in_reply("%3\tnew-session\t0\t1").expect("create session");
    assert_eq!(session.name, "new-session");
}

#[test]
fn create_session_recovers_from_missing_output() {
    assert!(session_in_reply("bad-output").is_none());
    let listed = parse_sessions("%1\talpha\t1\t2\n%2\tfallback-session\t0\t1");
    let session =
        recover_session("bad-output", "fallback-session", listed).expect("create session");
    assert_eq!(session.id, "%2");
    assert_eq!(session.name, "fallback-session");
}

#[test]
fn create_session_handles_bad_output() {
    let listed = parse_sessions("%1\talpha\t1\t2");
    let message = tmux_message(recover_session("bad-output", "bad", listed));
    assert!(message.contains("failed to parse new session"));
    assert_eq!(message, "failed to parse new session output: bad-output");
}

#[test]
fn sessions_are_found_by_name() {
    let listed = || parse_sessions("%1\ta\t1\t2\n%2\tb\t0\t1\n%3\tb\t0\t1");
    assert_eq!(find_session_by_name(listed(), "b").expect("b").id, "%2");
    assert!(find_session_by_name(listed(), "c").is_none());
}

#[test]
fn create_window_parses_output() {
    let window = window_in_reply("@3\tnew-window\t1", "%1").expect("create window");
    assert_eq!(window.name, "new-window");
    assert_eq!(window.session_id, "%1");
}

#[test]
fn create_window_recovers_from_missing_output() {
    assert!(window_in_reply("bad-output", "%1").is_none());
    let listed = parse_windows("@1\tfirst\t1\n@2\tfallback-window\t0", "%1");
    let window = recover_window("bad-output", "fallback-window", listed).expect("create window");
    assert_eq!(window.id, "@2");
    assert_eq!(window.name, "fallback-window");
}

#[test]
fn create_window_handles_bad_output() {
    let listed = parse_windows("@1\tfirst\t1", "%1");
    let message = tmux_message(recover_window("bad-output", "bad", listed));
    assert!(message.contains("failed to parse new window"));
    assert_eq!(message, "failed to parse new window output: bad-output");
}

#[test]
fn split_pane_parses_output() {
    let pane = pane_in_reply("%3\tnew\t1\t@1", "@1").expect("split pane");
    assert_eq!(pane.id, "%3");
    assert_eq!(
        args::split_pane_args("%1", Some("horizontal"), Some(50)),
        strings(&[
            "split-window",
            "-P",
            "-F",
            "#{pane_id}\t#{pane_title}\t#{?pane_active,1,0}\t#{window_id}",
            "-h",
            "-t",
            "%1",
            "-l",
            "50%"
        ])
    );
}

#[test]
fn splits_take_sizes_between_one_and_ninety_nine() {
    for (direction, flag) in [
        (Some("h"), "-h"),
        (Some("vertical"), "-v"),
        (Some("odd"), "-v"),
        (None, "-v"),
    ] {
        for (size, tail) in [
            (None, vec![]),
            (Some(0), vec![]),
            (Some(1), vec!["-l", "1%"]),
            (Some(99), vec!["-l", "99%"]),
            (Some(100), vec![]),
        ] {
            let args = args::split_pane_args("%1", direction, size);
            assert_eq!(args[4], flag);
            assert_eq!(args[7..], strings(&tail));
        }
    }
}

#[test]
fn split_pane_recovers_from_missing_output() {
    let before = parse_panes("%1\tpane-one\t0\n%2\tpane-two\t1", "@1");
    let after = parse_panes("%1\tpane-one\t0\n%2\tpane-two\t1", "@1");
    assert!(pane_in_reply("bad-output", "@1").is_none());
    let pane = recover_pane("bad-output", "%1", &pane_ids(&before), after).expect("split pane");
    assert_eq!(pane.id, "%2");
    assert!(pane.active);
}

#[test]
fn a_pane_that_was_not_there_is_the_new_one() {
    let after = parse_panes("%1\ta\t1\n%9\tb\t0\n%2\tc\t0", "@1");
    let pane = recover_pane("", "%2", &strings(&["%1", "%2"]), after).expect("split pane");
    assert_eq!(pane.id, "%9");
}

#[test]
fn split_pane_handles_bad_output() {
    let panes = parse_panes("%1\tpane-one\t1\n%2\tpane-two\t0", "@1");
    let known = pane_ids(&panes);
    let message = tmux_message(recover_pane("bad-output", "%1", &known, panes));
    assert!(message.contains("failed to parse new pane"));
    assert_eq!(message, "failed to parse new pane output: bad-output");
}

#[test]
fn break_pane_parses_output() {
    let window = window_in_reply("@9\tbroken\t1\t%1", "%1").expect("break pane");
    assert_eq!(window.id, "@9");
    assert_eq!(window.name, "broken");
    assert_eq!(window.session_id, "%1");
    assert_eq!(
        args::break_pane_args("%1", Some("breakout")),
        strings(&[
            "break-pane",
            "-P",
            "-F",
            "#{window_id}\t#{window_name}\t#{?window_active,1,0}\t#{session_id}",
            "-s",
            "%1",
            "-n",
            "breakout"
        ])
    );
    assert_eq!(args::break_pane_args("%1", None).len(), 6);
}

#[test]
fn break_pane_recovers_from_missing_output() {
    let windows = parse_windows("@1\tfirst\t1\n@2\tbreakout\t0", "%1");
    let known = window_ids(&windows);
    let window =
        recover_broken_out("bad-output", Some("breakout"), &known, windows).expect("break pane");
    assert_eq!(window.id, "@2");
    assert_eq!(window.name, "breakout");
    let windows = parse_windows("@1\tfirst\t1\n@2\tbreakout\t0", "%1");
    let window = recover_broken_out("", None, &strings(&["@2"]), windows).expect("break pane");
    assert_eq!(window.id, "@1");
}

#[test]
fn break_pane_handles_bad_output() {
    let windows = parse_windows("@1\tfirst\t1\n@2\tsecond\t0", "%1");
    let known = window_ids(&windows);
    let message = tmux_message(recover_broken_out("bad-output", None, &known, windows));
    assert!(message.contains("failed to parse break-pane"));
    assert_eq!(message, "failed to parse break-pane output: bad-output");
}

#[test]
fn capture_pane_returns_content() {
    assert_eq!(
        args::capture_pane_args("%1", Some(10), true, None, None, false),
        strings(&["capture-pane", "-p", "-t", "%1", "-e", "-S", "-10", "-E", "-"])
    );
    assert_eq!(execute(true, "stub-output\n", "").expect("capture pane"), "stub-output");
}

#[test]
fn captures_take_lines_or_a_range() {
    let range = |lines, start, end| {
        let args = args::capture_pane_args("%1", lines, false, start, end, true);
        assert_eq!(args[4], "-J");
        (args[6].clone(), args[8].clone())
    };
    let pair = |a: &str, b: &str| (a.to_string(), b.to_string());
    assert_eq!(range(None, None, None), pair("-200", "-"));
    assert_eq!(range(Some(u32::MAX), None, None), pair("-4294967295", "-"));
    assert_eq!(range(Some(5), Some(-7), None), pair("-7", "-"));
    assert_eq!(range(Some(5), None, Some(3)), pair("0", "3"));
    assert_eq!(range(None, Some(i32::MIN), Some(i32::MAX)), pair("-2147483648", "2147483647"));
}

#[test]
fn get_current_session_handles_missing() {
    let output = execute(true, " ", "").expect("reply");
    let message = tmux_message(current_session(&output));
    assert!(message.contains("current session not found"));
    assert_eq!(current_session("$1\tmain\t1\t2").expect("session").name, "main");
}

#[test]
fn select_layout_happy_path() {
    assert_eq!(
        args::select_layout_args("@1", "tiled"),
        strings(&["select-layout", "-t", "@1", "--", "tiled"])
    );
}

#[test]
fn select_layout_tmux_error() {
    assert!(tmux_message(execute(false, "", "layout-fail")).contains("layout-fail"));
}

#[test]
fn join_and_swap_panes_happy_path() {
    assert_eq!(
        args::join_pane_args("%1", "%2"),
        strings(&["join-pane", "-s", "%1", "-t", "%2"])
    );
    assert_eq!(
        args::swap_pane_args("%1", "%2"),
        strings(&["swap-pane", "-s", "%1", "-t", "%2"])
    );
}

#[test]
fn zoom_pane_happy_path() {
    assert_eq!(args::zoom_pane_args("%1"), strings(&["resize-pane", "-Z", "-t", "%1"]));
}

#[test]
fn resize_pane_invalid_direction_returns_error() {
    let message =
        invalid_message(args::resize_pane_args("%1", Some("diagonal"), Some(5), None, None));
    assert!(message.contains("unknown resize direction"));
    assert_eq!(message, "unknown resize direction: diagonal");
}

#[test]
fn resize_pane_requires_dimensions_or_direction() {
    let message = invalid_message(args::resize_pane_args("%1", None, None, None, None));
    assert!(message.contains("resize-pane requires direction/amount or width/height"));
}

#[test]
fn panes_are_resized_by_direction_or_to_a_size() {
    let resize = |direction, amount, width, height| {
        args::resize_pane_args("%1", direction, amount, width, height).expect("arguments")[3..].to_vec()
    };
    for (names, flag) in [
        (["left", "l"], "-L"),
        (["right", "r"], "-R"),
        (["up", "u"], "-U"),
        (["down", "d"], "-D"),
    ] {
        for name in names {
            assert_eq!(resize(Some(name), Some(5), None, None), strings(&[flag, "5"]));
            assert_eq!(resize(Some(name), None, None, None), strings(&[flag]));
        }
    }
    assert_eq!(
        resize(Some("odd"), Some(5), Some(80), Some(24)),
        strings(&["-x", "80", "-y", "24"])
    );
    assert_eq!(resize(None, None, None, Some(24)), strings(&["-y", "24"]));
}

#[test]
fn test_leading_dash_names_are_not_parsed_as_flags() {
    for args in [
        args::rename_window_args("@1", "-leading-dash"),
        args::rename_session_args("$1", "-leading-dash"),
        args::select_layout_args("@1", "-leading-dash"),
        args::save_buffer_args("b", "-leading-dash"),
        args::load_buffer_args("b", "-leading-dash"),
        args::set_buffer_args("b", "-leading-dash"),
        send_keys_args("%1", "-leading-dash", false).remove(0),
    ] {
        assert_eq!(args[args.len() - 2..], strings(&["--", "-leading-dash"]));
    }
}

#[test]
fn commands_take_their_arguments() {
    let session = "#{session_id}\t#{session_name}\t#{?session_attached,1,0}\t#{session_windows}";
    let window = "#{window_id}\t#{window_name}\t#{?window_active,1,0}";
    let pane = "#{pane_id}\t#{pane_title}\t#{?pane_active,1,0}";
    let client =
        "#{client_tty}\t#{client_name}\t#{client_session}\t#{client_pid}\t#{?client_attached,1,0}";
    let buffer = "#{buffer_name}\t#{buffer_size}\t#{buffer_created}";
    let pane_info = "#{pane_id}\t#{window_id}\t#{session_id}\t#{?pane_active,1,0}\t#{pane_title}\t#{pane_current_path}\t#{pane_current_command}\t#{pane_width}\t#{pane_height}\t#{pane_pid}\t#{?pane_in_mode,1,0}";
    let window_info = "#{window_id}\t#{window_name}\t#{session_id}\t#{?window_active,1,0}\t#{window_layout}\t#{window_panes}\t#{window_width}\t#{window_height}\t#{window_zoomed_flag}\t#{pane_id}";
    for (actual, expected) in [
        (args::list_sessions_args(), vec!["list-sessions", "-F", session]),
        (args::running_args(), vec!["list-sessions", "-F", "#{session_name}"]),
        (args::list_windows_args("$1"), vec!["list-windows", "-t", "$1", "-F", window]),
        (args::list_panes_args("@1"), vec!["list-panes", "-t", "@1", "-F", pane]),
        (args::list_clients_args(), vec!["list-clients", "-F", client]),
        (args::detach_client_args("/dev/1"), vec!["detach-client", "-t", "/dev/1"]),
        (args::list_buffers_args(), vec!["list-buffers", "-F", buffer]),
        (args::show_buffer_args(None), vec!["show-buffer"]),
        (args::show_buffer_args(Some("b")), vec!["show-buffer", "-b", "b"]),
        (args::load_buffer_input_args("b"), vec!["load-buffer", "-b", "b", "-"]),
        (args::delete_buffer_args("b"), vec!["delete-buffer", "-b", "b"]),
        (args::pane_info_args("%1"), vec!["display-message", "-p", "-t", "%1", pane_info]),
        (args::window_info_args("@1"), vec!["display-message", "-p", "-t", "@1", window_info]),
        (
            args::create_session_args("n"),
            vec!["new-session", "-d", "-P", "-F", session, "-s", "n"],
        ),
        (
            args::create_window_args("$1", "n"),
            vec!["new-window", "-P", "-F", window, "-t", "$1", "-n", "n"],
        ),
        (args::kill_session_args("$1"), vec!["kill-session", "-t", "$1"]),
        (args::kill_window_args("@1"), vec!["kill-window", "-t", "@1"]),
        (args::kill_pane_args("%1"), vec!["kill-pane", "-t", "%1"]),
        (
            args::paste_buffer_args("b", "%1"),
            vec!["paste-buffer", "-p", "-d", "-b", "b", "-t", "%1"],
        ),
        (args::current_session_args(), vec!["display-message", "-p", session]),
        (args::select_window_args("@1"), vec!["select-window", "-t", "@1"]),
        (args::select_pane_args("%1"), vec!["select-pane", "-t", "%1"]),
        (args::rename_pane_args("%1", "t"), vec!["select-pane", "-t", "%1", "-T", "t"]),
        (
            args::synchronize_panes_args("@1", true),
            vec!["set-option", "-t", "@1", "synchronize-panes", "on"],
        ),
        (
            args::synchronize_panes_args("@1", false),
            vec!["set-option", "-t", "@1", "synchronize-panes", "off"],
        ),
        (
            args::move_window_args("@1", "$2", Some(3)),
            vec!["move-window", "-s", "@1", "-t", "$2:3"],
        ),
        (args::move_window_args("@1", "$2", None), vec!["move-window", "-s", "@1", "-t", "$2"]),
    ] {
        assert_eq!(actual, strings(&expected));
    }
}

#[test]
fn send_keys_literal_fast_path_single_call() {
    let calls = send_keys_args("%1", "hello", true);
    assert_eq!(calls, vec![strings(&["send-keys", "-t", "%1", "-l", "hello"])]);
    assert!(send_keys_args("%1", "", true).is_empty());
    assert_eq!(
        send_keys_args("%1", "", false),
        vec![strings(&["send-keys", "-t", "%1", "--", ""])]
    );
}

#[test]
fn send_keys_literal_chunks_large_payload() {
    let payload = "a".repeat(MAX_LITERAL_CHUNK_BYTES + 25);
    let calls = send_keys_args("%1", &payload, true);
    assert!(calls.len() >= 2);
    for call in &calls {
        assert!(call.last().expect("chunk").len() <= MAX_LITERAL_CHUNK_BYTES);
    }
    assert_eq!(calls.len(), 2);
    assert_eq!(calls[1][4], "a".repeat(25));
}

#[test]
fn chunks_end_between_characters() {
    let payload = format!("{}{}", "a".repeat(3_999), "\u{e9}\u{20ac}\u{1f600}".repeat(900));
    let chunks = chunk_literal_payload(&payload);
    assert_eq!(chunks.concat(), payload);
    assert_eq!(chunks[0].len(), 3_999);
    for pair in chunks.windows(2) {
        let next = pair[1].chars().next().expect("character");
        assert!(pair[0].len() + next.len_utf8() > MAX_LITERAL_CHUNK_BYTES);
    }
    for chunk in &chunks {
        assert!(!chunk.is_empty() && chunk.len() <= MAX_LITERAL_CHUNK_BYTES);
    }
    assert_eq!(chunk_literal_payload(&"b".repeat(4_000)), vec!["b".repeat(4_000)]);
    assert!(chunk_literal_payload("").is_empty());
}

#[test]
fn send_keys_hex_passes_byte_tokens() {
    let args = send_keys_hex_args("%1", "1b 5b 31 33 3b 32 75").expect("send hex");
    assert_eq!(
        args,
        strings(&["send-keys", "-t", "%1", "-H", "1b", "5b", "31", "33", "3b", "32", "75"])
    );
    assert!(send_keys_hex_args("%1", "xx").is_err());
}

#[test]
fn parse_hex_tokens_normalizes_and_validates() {
    assert_eq!(
        parse_hex_tokens("1B 5b   7").expect("valid"),
        vec!["1b", "5b", "07"]
    );
    assert!(parse_hex_tokens("zz").is_err());
    assert!(parse_hex_tokens("1ff").is_err());
    assert!(parse_hex_tokens("   ").is_err());
}

#[test]
fn hex_tokens_are_one_or_two_hex_digits() {
    for (token, byte) in [("0", "00"), ("f", "0f"), ("F", "0f"), ("fF", "ff"), ("00", "00"), ("9A", "9a")] {
        assert_eq!(parse_hex_tokens(token).expect("valid"), vec![byte]);
    }
    for token in ["+7", "+a", "+", "-1", "-", "g", "0x", "\u{663}", "\u{e9}", "00f", "+0f"] {
        assert!(parse_hex_tokens(token).is_err());
        assert_eq!(
            tmux_message(parse_hex_tokens(&format!("00 {token} zz"))),
            format!("invalid hex byte token: {token:?} (expected 00-ff)")
        );
    }
    assert_eq!(tmux_message(parse_hex_tokens("")), "no hex byte tokens provided");
    assert_eq!(
        tmux_message(parse_hex_tokens("\"\\\u{7f}")),
        format!("invalid hex byte token: {:?} (expected 00-ff)", "\"\\\u{7f}")
    );
    let tokens = parse_hex_tokens("A 1b\t7f\u{2003}FF").expect("valid");
    assert_eq!(tokens, vec!["0a", "1b", "7f", "ff"]);
    assert_eq!(parse_hex_tokens(&tokens.join(" ")).expect("valid"), tokens);
}

#[test]
fn staging_buffers_have_names_of_their_own() {
    let name = staging_buffer();
    assert!(name.starts_with("__tmux_mcp_paste_"));
    assert_eq!(name.len(), "__tmux_mcp_paste_".len() + 36);
    assert_ne!(name, staging_buffer());
}

#[test]
fn lists_may_be_empty() {
    assert_eq!(clients_from_reply(execute(false, "", "no clients")).expect("clients"), vec![]);
    assert!(clients_from_reply(execute(false, "", "no buffers")).is_err());
    let clients = clients_from_reply(execute(true, "t\tn\ts\t1\t1", "")).expect("clients");
    assert_eq!(clients[0].pid, Some(1));
    assert_eq!(buffers_from_reply(execute(false, "", "no buffers")).expect("buffers"), vec![]);
    assert!(buffers_from_reply(execute(false, "", "no clients")).is_err());
    let buffers = buffers_from_reply(execute(true, "b\t1\t2", "")).expect("buffers");
    assert_eq!(buffers[0].name, "b");
}

#[test]
fn slices_of_buffers_are_bounded() {
    let content = "h\u{e9}llo".as_bytes();
    assert_eq!(buffer_slice(content, None, None), "h\u{e9}llo");
    assert_eq!(buffer_slice(content, Some(3), Some(2)), "ll");
    assert_eq!(buffer_slice(content, Some(2), Some(2)), "\u{fffd}l");
    assert_eq!(buffer_slice(content, Some(0), Some(0)), "");
    assert_eq!(buffer_slice(content, Some(6), None), "");
    assert_eq!(buffer_slice(content, Some(u64::MAX), Some(u64::MAX)), "");
    assert_eq!(buffer_slice(content, Some(5), Some(u64::MAX)), "o");
    let long = vec![b'x'; 70_000];
    assert_eq!(buffer_slice(&long, None, None).len(), 65_536);
}

#[test]
fn large_buffers_are_appended_to_through_a_file() {
    let infos = parse_buffers("small\t262144\t0\nlarge\t262145\t0");
    let plan = |name, ssh| append_plan(&infos, name, ssh);
    assert_eq!(plan("none", Some("'")).expect("plan"), AppendPlan::Create);
    assert_eq!(plan("small", Some("'")).expect("plan"), AppendPlan::Inline);
    assert_eq!(plan("large", None).expect("plan"), AppendPlan::ThroughFile);
    assert_eq!(plan("large", Some("host")).expect("plan"), AppendPlan::Inline);
    assert!(plan("large", Some("'")).is_err());
    assert_eq!(appended(b"\xffold ".to_vec(), "n\u{e9}w"), b"\xffold n\xc3\xa9w");
}

#[test]
fn slices_follow_one_another() {
    let content = b"0123456789";
    for offset in 0..11 {
        for first in 0..11 {
            let one = buffer_slice(content, Some(offset), Some(first));
            let two = buffer_slice(content, Some(offset + first), Some(4));
            assert_eq!(format!("{one}{two}"), buffer_slice(content, Some(offset), Some(first + 4)));
        }
    }
}

#[test]
fn resolved_sockets_stay_resolved() {
    let first = resolve_socket(Some("/a"), Some("/b"));
    assert_eq!(resolve_socket(first.as_deref(), Some("/c")), first);
    assert_eq!(resolve_socket(Some("/a"), None), resolve_socket(None, Some("/a")));
}

#[test]
fn a_buffer_is_set_as_text_where_it_cannot_be_loaded() {
    assert_eq!(set_buffer_fallback("b", b"text", true), None);
    assert_eq!(
        set_buffer_fallback("b", b"-a\xffb", false),
        Some(strings(&["set-buffer", "-b", "b", "--", "-a\u{fffd}b"]))
    );
}
