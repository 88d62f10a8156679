use tmux_mcp_rs::commands::retention::times_fit;
use tmux_mcp_rs::commands::status::{CheckStart, CheckStep};
use tmux_mcp_rs::commands::tracker::plan_strokes;
use tmux_mcp_rs::commands::{
    extract_exit_code, get_end_marker, get_start_marker, parse_command_output, CommandTracker,
    TrackingConfig, END_MARKER_PREFIX, START_MARKER_PREFIX,
};
use tmux_mcp_rs::types::{CommandExecution, CommandStatus, ShellType};

const SECOND: u128 = 1_000_000_000;
const NOW: u128 = 10_000 * SECOND;

fn execution(id: &str, command: &str, status: CommandStatus) -> CommandExecution {
    CommandExecution {
        id: id.into(),
        pane_id: "%1".into(),
        socket: None,
        command: command.into(),
        status,
        exit_code: None,
        output: None,
        started_at: NOW,
        completed_at: None,
        raw_mode: false,
        tracking_disabled: false,
    }
}

fn completed(id: &str, at: u128) -> CommandExecution {
    CommandExecution {
        exit_code: Some(0),
        output: Some(id.into()),
        completed_at: Some(at),
        ..execution(id, id, CommandStatus::Completed)
    }
}

/// Asks how far a command has got; `show` gives what the pane shows for a number of lines.
fn check_status(
    tracker: &mut CommandTracker,
    id: &str,
    now: u128,
    mut show: impl FnMut(u32) -> String,
) -> Option<CommandExecution> {
    let mut watch = match tracker.begin_check(id, now) {
        CheckStart::Unknown => return None,
        CheckStart::Settled(execution) => return Some(execution),
        CheckStart::Watching(watch) => watch,
    };
    loop {
        let captured = show(watch.capture_lines);
        match tracker.continue_check(watch, &captured, now) {
            CheckStep::Again(next) => watch = next,
            CheckStep::Finished(execution) => return Some(execution),
        }
    }
}

#[test]
fn test_get_end_marker() {
    for (shell, expected) in [
        (ShellType::Bash, "TMUX_MCP_DONE_cmd-1_$?"),
        (ShellType::Zsh, "TMUX_MCP_DONE_cmd-1_$?"),
        (ShellType::Fish, "TMUX_MCP_DONE_cmd-1_$status"),
        (ShellType::Unknown, "TMUX_MCP_DONE_cmd-1_$?"),
    ] {
        assert_eq!(get_end_marker(&shell, "cmd-1"), expected);
    }
}

#[test]
fn test_extract_exit_code() {
    for (input, expected) in [
        ("TMUX_MCP_DONE_cmd-1_0", Some(0)),
        ("TMUX_MCP_DONE_cmd-1_1", Some(1)),
        ("TMUX_MCP_DONE_cmd-1_127", Some(127)),
        ("TMUX_MCP_DONE_cmd-1_255", Some(255)),
        ("some output TMUX_MCP_DONE_cmd-1_42 more text", Some(42)),
        ("no marker here", None),
        ("TMUX_MCP_DONE_cmd-1_", None),
        ("TMUX_MCP_DONE_cmd-1_abc", None),
    ] {
        assert_eq!(extract_exit_code(input, "cmd-1"), expected, "{input:?}");
    }
}

#[test]
fn exit_codes_are_those_of_the_first_marker_that_has_one() {
    assert_eq!(
        extract_exit_code("TMUX_MCP_DONE_a_$? TMUX_MCP_DONE_a_7 TMUX_MCP_DONE_a_8", "a"),
        Some(7)
    );
    assert_eq!(extract_exit_code("TMUX_MCP_DONE_a_2147483647", "a"), Some(i32::MAX));
    assert_eq!(extract_exit_code("TMUX_MCP_DONE_a_2147483648", "a"), None);
    // Digits outside ASCII belong to the marker, but write no exit code.
    assert_eq!(extract_exit_code("TMUX_MCP_DONE_a_\u{663}", "a"), None);
    assert_eq!(extract_exit_code("TMUX_MCP_DONE_a_7\u{663}", "a"), None);
}

#[test]
fn test_parse_command_output() {
    for (input, expected) in [
        (
            "prompt$ TMUX_MCP_START_cmd-1\nhello world\nTMUX_MCP_DONE_cmd-1_0\nprompt$",
            Some(("hello world".to_string(), 0)),
        ),
        (
            "TMUX_MCP_START_cmd-1\nerror occurred\nTMUX_MCP_DONE_cmd-1_1",
            Some(("error occurred".to_string(), 1)),
        ),
        (
            "old TMUX_MCP_START_cmd-1\nold output\nTMUX_MCP_DONE_cmd-1_0\nnew TMUX_MCP_START_cmd-1\nnew output\nTMUX_MCP_DONE_cmd-1_2",
            Some(("new output".to_string(), 2)),
        ),
        (
            "TMUX_MCP_START_cmd-1\nline1\nline2\nline3\nTMUX_MCP_DONE_cmd-1_0",
            Some(("line1\nline2\nline3".to_string(), 0)),
        ),
        ("no markers at all", None),
        ("TMUX_MCP_START_cmd-1\nno end marker", None),
        ("TMUX_MCP_DONE_cmd-1_0\nno start marker", Some((String::new(), 0))),
        (
            "earlier output lost\nfinal line\nTMUX_MCP_DONE_cmd-1_3",
            Some(("earlier output lost\nfinal line".to_string(), 3)),
        ),
    ] {
        assert_eq!(parse_command_output(input, "cmd-1"), expected, "{input:?}");
    }
}

#[test]
fn test_parse_realistic_output() {
    for (input, expected_exit) in [
        (
            "$ echo TMUX_MCP_START_cmd-1\nTMUX_MCP_START_cmd-1\n$ ls -la\ntotal 0\ndrwxr-xr-x  2 user user  40 Jan  1 00:00 .\ndrwxr-xr-x 10 user user 200 Jan  1 00:00 ..\n$ echo TMUX_MCP_DONE_cmd-1_$?\nTMUX_MCP_DONE_cmd-1_0\n$",
            Some(0),
        ),
        (
            "TMUX_MCP_START_cmd-1\ncommand not found: foobar\nTMUX_MCP_DONE_cmd-1_127",
            Some(127),
        ),
    ] {
        let result = parse_command_output(input, "cmd-1");
        match (result, expected_exit) {
            (Some((_, code)), Some(expected)) => assert_eq!(code, expected),
            (None, None) => {}
            (result, expected) => panic!("Expected {expected:?}, got {result:?}"),
        }
    }
}

#[test]
fn marks_with_special_characters_are_taken_literally() {
    let id = "a.b*(c)[d]+$^|\\";
    let captured = format!("TMUX_MCP_START_{id}\nout\nTMUX_MCP_DONE_{id}_5 TMUX_MCP_DONE_{id}_x");
    assert_eq!(parse_command_output(&captured, id), Some(("out".to_string(), 5)));
    assert_eq!(
        parse_command_output("TMUX_MCP_START_aXb\nout\nTMUX_MCP_DONE_aXb_5", "a.b"),
        None
    );
}

#[test]
fn the_last_end_marker_counts() {
    assert_eq!(
        parse_command_output("one TMUX_MCP_DONE_i_1 two TMUX_MCP_DONE_i_2 three", "i"),
        Some(("one TMUX_MCP_DONE_i_1 two".to_string(), 2))
    );
    assert_eq!(
        parse_command_output("one TMUX_MCP_DONE_i_1 two TMUX_MCP_DONE_i_99999999999", "i"),
        None
    );
    assert_eq!(
        parse_command_output("h\u{e9} \u{20ac}\u{1f600} TMUX_MCP_DONE_i_12\u{e9}", "i"),
        Some(("h\u{e9} \u{20ac}\u{1f600}".to_string(), 12))
    );
    assert_eq!(parse_command_output("TMUX_MCP_DONE_i_1TMUX_MCP_DONE_i_0", "i"), Some(("TMUX_MCP_DONE_i_1".to_string(), 0)));
}

#[test]
fn markers_that_run_into_one_another_are_taken_from_the_left() {
    let id = "1TMUX_MCP_DONE";
    assert_eq!(
        parse_command_output("TMUX_MCP_DONE_1TMUX_MCP_DONE_1TMUX_MCP_DONE_5", id),
        Some((String::new(), 1))
    );
    assert_eq!(
        parse_command_output("TMUX_MCP_DONE_1TMUX_MCP_DONE_3 TMUX_MCP_DONE_1TMUX_MCP_DONE_5", id),
        Some(("TMUX_MCP_DONE_1TMUX_MCP_DONE_3".to_string(), 5))
    );
}

#[test]
fn test_markers_are_correct() {
    assert_eq!(START_MARKER_PREFIX, "TMUX_MCP_START_");
    assert_eq!(END_MARKER_PREFIX, "TMUX_MCP_DONE_");
    assert_eq!(get_start_marker("cmd-1"), "TMUX_MCP_START_cmd-1");
}

#[test]
fn test_command_tracker_new() {
    let tracker = CommandTracker::new(ShellType::Bash);
    assert!(matches!(tracker.shell_type(), ShellType::Bash));
    let tracking = tracker.tracking();
    assert_eq!(tracking.capture_initial_lines, 1000);
    assert_eq!(tracking.capture_max_lines, 16_000);
    assert_eq!(tracking.capture_backoff_factor, 2);
    assert_eq!(tracking.completed_retention_minutes, 240);
    assert_eq!(tracking.completed_max_entries, 1000);
    assert_eq!(tracking.tracking_deadline_seconds, 600);
}

#[test]
fn execute_command_with_delay_sends_enter() {
    let mut tracker = CommandTracker::new(ShellType::Bash);
    let launch = tracker.execute_command("%1", "echo hi", false, false, Some(0), None, None, NOW);
    assert!(!launch.id.is_empty());
    let typed: String = launch.strokes.iter().filter(|s| s.literal).map(|s| s.keys.as_str()).collect();
    let id = &launch.id;
    assert_eq!(
        typed,
        format!("echo \"TMUX_MCP_START_{id}\"; echo hi; echo \"TMUX_MCP_DONE_{id}_$?\"")
    );
    assert!(launch.strokes.iter().filter(|s| s.literal).all(|s| s.pause_ms == Some(0)));
    let last = launch.strokes.last().expect("strokes");
    assert_eq!((last.keys.as_str(), last.literal, last.pause_ms), ("Enter", false, None));
}

#[test]
fn execute_command_without_delay_sends_enter() {
    let mut tracker = CommandTracker::new(ShellType::Fish);
    let launch =
        tracker.execute_command("%1", "echo hi", false, false, None, Some("/s"), Some("/e"), NOW);
    assert!(!launch.id.is_empty());
    let id = &launch.id;
    assert_eq!(launch.strokes.len(), 2);
    assert_eq!(
        launch.strokes[0].keys,
        format!("echo \"TMUX_MCP_START_{id}\"; echo hi; echo \"TMUX_MCP_DONE_{id}_$status\"")
    );
    assert!(!launch.strokes[0].literal);
    assert_eq!(launch.strokes[1].keys, "Enter");
    assert_eq!(launch.pane_id, "%1");
    assert_eq!(launch.socket.as_deref(), Some("/s"));
    let stored = tracker.get_command(id).expect("stored");
    assert_eq!(stored.command, "echo hi");
    assert_eq!(stored.socket.as_deref(), Some("/s"));
    assert_eq!(stored.status, CommandStatus::Pending);
    assert_eq!(stored.started_at, NOW);
    assert!(!stored.tracking_disabled);
    assert_eq!(stored.output, None);
}

#[test]
fn ids_are_random_uuids() {
    let mut tracker = CommandTracker::new(ShellType::Bash);
    let id = tracker.execute_command("%1", "ls", false, false, None, None, None, NOW).id;
    assert_eq!(id.len(), 36);
    for (i, c) in id.chars().enumerate() {
        match i {
            8 | 13 | 18 | 23 => assert_eq!(c, '-'),
            14 => assert_eq!(c, '4'),
            19 => assert!(matches!(c, '8' | '9' | 'a' | 'b')),
            _ => assert!(c.is_ascii_hexdigit() && !c.is_ascii_uppercase()),
        }
    }
}

#[test]
fn raw_commands_and_those_without_enter_are_not_tracked() {
    for (raw, no_enter) in [(true, false), (false, true), (true, true)] {
        let mut tracker = CommandTracker::new(ShellType::Bash);
        let launch = tracker.execute_command("%1", "ls", raw, no_enter, None, None, Some(""), NOW);
        assert_eq!(launch.strokes[0].keys, "ls");
        assert_eq!(launch.strokes.len(), if no_enter { 1 } else { 2 });
        let stored = tracker.get_command(&launch.id).expect("stored");
        assert!(stored.tracking_disabled);
        assert_eq!(stored.raw_mode, raw);
        assert_eq!(
            stored.output.as_deref(),
            Some("Tracking disabled for raw_mode or no_enter commands")
        );
        let looked = check_status(&mut tracker, &launch.id, NOW, |_| panic!("no look is needed"));
        assert_eq!(looked.expect("command").status, CommandStatus::Pending);
    }
}

#[test]
fn strokes_of_nothing() {
    assert_eq!(plan_strokes("", true, Some(5)), vec![]);
    assert_eq!(plan_strokes("", true, None).len(), 1);
    assert_eq!(plan_strokes("\u{e9}x", true, Some(5))[0].keys, "\u{e9}");
}

#[test]
fn check_status_returns_early_for_completed() {
    let mut tracker = CommandTracker::new(ShellType::Bash);
    tracker.record(CommandExecution {
        exit_code: Some(0),
        output: Some("done".into()),
        completed_at: Some(NOW),
        ..execution("completed-cmd", "echo done", CommandStatus::Completed)
    });
    let result = check_status(&mut tracker, "completed-cmd", NOW, |_| panic!("no look is needed"));
    assert!(matches!(
        result.map(|cmd| cmd.status),
        Some(CommandStatus::Completed)
    ));
}

#[test]
fn check_status_returns_none_for_unknown_id() {
    let mut tracker = CommandTracker::new(ShellType::Bash);
    let result = check_status(&mut tracker, "missing-command", NOW, |_| String::new());
    assert!(result.is_none());
}

#[test]
fn check_status_sets_error_on_nonzero_exit() {
    let id = "error-cmd";
    let mut tracker = CommandTracker::new(ShellType::Bash);
    tracker.record(execution(id, "false", CommandStatus::Pending));
    let result = check_status(&mut tracker, id, NOW, |_| {
        format!("TMUX_MCP_START_{id}\nbad\nTMUX_MCP_DONE_{id}_1\n")
    });
    let status = result.map(|cmd| cmd.status).unwrap();
    assert_eq!(status, CommandStatus::Error);
    let stored = tracker.get_command(id).expect("stored");
    assert_eq!(stored.exit_code, Some(1));
    assert_eq!(stored.output.as_deref(), Some("bad"));
    assert_eq!(stored.completed_at, Some(NOW));
}

#[test]
fn check_status_retries_capture_until_markers_found() {
    let id = "retry-cmd";
    let tracking = TrackingConfig {
        capture_initial_lines: 2,
        capture_max_lines: 4,
        capture_backoff_factor: 2,
        ..TrackingConfig::default()
    };
    let mut tracker = CommandTracker::with_tracking(ShellType::Bash, tracking);
    tracker.record(execution(id, "echo retry", CommandStatus::Pending));
    let mut seen = Vec::new();
    let command = check_status(&mut tracker, id, NOW, |lines| {
        seen.push(lines);
        if seen.len() < 2 {
            "prompt\nno markers yet\n".to_string()
        } else {
            format!("TMUX_MCP_START_{id}\nretry ok\nTMUX_MCP_DONE_{id}_0\n")
        }
    })
    .expect("command");
    assert_eq!(command.status, CommandStatus::Completed);
    assert_eq!(command.exit_code, Some(0));
    assert_eq!(command.output.as_deref(), Some("retry ok"));
    assert!(seen.len() >= 2);
    assert_eq!(seen, vec![2, 4]);
}

#[test]
fn check_status_sets_error_when_markers_never_found() {
    let id = "expired-cmd";
    let tracking = TrackingConfig {
        capture_initial_lines: 1,
        capture_max_lines: 2,
        capture_backoff_factor: 2,
        tracking_deadline_seconds: 0,
        ..TrackingConfig::default()
    };
    let mut tracker = CommandTracker::with_tracking(ShellType::Bash, tracking);
    tracker.record(execution(id, "echo missing", CommandStatus::Pending));
    let command = check_status(&mut tracker, id, NOW + 1, |_| "no markers here".to_string())
        .expect("command");
    assert_eq!(command.status, CommandStatus::Error);
    assert_eq!(
        command.output.as_deref(),
        Some("tracking expired; markers not found in pane history")
    );
}

#[test]
fn check_status_stays_pending_when_start_lost_within_deadline() {
    let id = "lost-start-cmd";
    let tracking = TrackingConfig {
        capture_initial_lines: 1,
        capture_max_lines: 2,
        capture_backoff_factor: 2,
        tracking_deadline_seconds: 600,
        ..TrackingConfig::default()
    };
    let mut tracker = CommandTracker::with_tracking(ShellType::Bash, tracking);
    tracker.record(execution(id, "seq 1 100000", CommandStatus::Pending));
    let show = |_: u32| "buried output, no markers".to_string();
    let command = check_status(&mut tracker, id, NOW, show).expect("command");
    assert_eq!(command.status, CommandStatus::Pending);
    let stored = tracker.get_command(id).expect("stored command");
    assert_eq!(stored.status, CommandStatus::Pending);
    // The deadline itself still counts as within.
    let command = check_status(&mut tracker, id, NOW + 600 * SECOND, show).expect("command");
    assert_eq!(command.status, CommandStatus::Pending);
    let command = check_status(&mut tracker, id, NOW + 600 * SECOND + 1, show).expect("command");
    assert_eq!(command.status, CommandStatus::Error);
}

#[test]
fn check_status_completes_when_start_marker_scrolled_off() {
    let id = "done-only-cmd";
    let mut tracker = CommandTracker::new(ShellType::Bash);
    tracker.record(execution(id, "seq 1 100000", CommandStatus::Pending));
    let command = check_status(&mut tracker, id, NOW, |_| {
        format!("...truncated output...\nlast line\nTMUX_MCP_DONE_{id}_0\n")
    })
    .expect("command");
    assert_eq!(command.status, CommandStatus::Completed);
    assert_eq!(command.exit_code, Some(0));
}

#[test]
fn check_status_terminates_with_degenerate_backoff_factor() {
    let id = "degenerate-backoff-cmd";
    let tracking = TrackingConfig {
        capture_initial_lines: 1,
        capture_max_lines: 16,
        capture_backoff_factor: 1,
        tracking_deadline_seconds: 0,
        ..TrackingConfig::default()
    };
    let mut tracker = CommandTracker::with_tracking(ShellType::Bash, tracking);
    tracker.record(execution(id, "echo missing", CommandStatus::Pending));
    let command = check_status(&mut tracker, id, NOW + 1, |_| "no markers here".to_string())
        .expect("command");
    assert_eq!(command.status, CommandStatus::Error);
}

#[test]
fn captures_widen_up_to_the_limit() {
    for (initial, max, factor, expected) in [
        (0, 0, 0, vec![1]),
        (3, 20, 3, vec![3, 9, 20]),
        (5, 2, 4, vec![5]),
        (2, u32::MAX, u32::MAX, vec![2, u32::MAX]),
    ] {
        let tracking = TrackingConfig {
            capture_initial_lines: initial,
            capture_max_lines: max,
            capture_backoff_factor: factor,
            ..TrackingConfig::default()
        };
        let mut tracker = CommandTracker::with_tracking(ShellType::Bash, tracking);
        tracker.record(execution("w", "w", CommandStatus::Pending));
        let mut seen = Vec::new();
        check_status(&mut tracker, "w", NOW, |lines| {
            seen.push(lines);
            String::new()
        });
        assert_eq!(seen, expected);
    }
}

#[test]
fn check_status_stays_pending_while_command_still_running() {
    let id = "running-cmd";
    let tracking = TrackingConfig {
        capture_initial_lines: 1,
        capture_max_lines: 2,
        capture_backoff_factor: 2,
        ..TrackingConfig::default()
    };
    let mut tracker = CommandTracker::with_tracking(ShellType::Bash, tracking);
    tracker.record(execution(id, "sleep 1", CommandStatus::Pending));
    let show = |_: u32| format!("prompt\nTMUX_MCP_START_{id}\nstill working...\n");
    let first = check_status(&mut tracker, id, NOW, show).expect("command");
    assert_eq!(first.status, CommandStatus::Pending);
    assert!(first.output.is_none());
    let stored = tracker.get_command(id).expect("stored command");
    assert_eq!(stored.status, CommandStatus::Pending);
    // A later poll can still complete it, and what it says then is final.
    let done = check_status(&mut tracker, id, NOW + 2_000 * SECOND, |_| {
        format!("TMUX_MCP_START_{id}\nok\nTMUX_MCP_DONE_{id}_0")
    })
    .expect("command");
    assert_eq!(done.status, CommandStatus::Completed);
    let again = check_status(&mut tracker, id, NOW + 2_001 * SECOND, |_| panic!("no look is needed"))
        .expect("command");
    assert_eq!(again, done);
}

#[test]
fn the_recorded_socket_goes_before_an_override() {
    let mut tracker = CommandTracker::new(ShellType::Bash);
    tracker.record(CommandExecution {
        socket: Some("/recorded".into()),
        ..execution("with", "ls", CommandStatus::Pending)
    });
    tracker.record(execution("without", "ls", CommandStatus::Pending));
    for (id, expected) in [("with", Some("/recorded")), ("without", Some("/asked"))] {
        match tracker.begin_check(id, NOW) {
            CheckStart::Watching(watch) => assert_eq!(watch.socket(Some("/asked")), expected),
            other => panic!("expected a watch, got {other:?}"),
        }
    }
}

#[test]
fn cleanup_completed_removes_old_and_preserves_pending() {
    let tracking = TrackingConfig {
        completed_retention_minutes: 1,
        completed_max_entries: 1000,
        ..TrackingConfig::default()
    };
    let mut tracker = CommandTracker::with_tracking(ShellType::Bash, tracking);
    tracker.record(completed("old", NOW - 120 * SECOND));
    tracker.record(completed("new", NOW));
    tracker.record(execution("pending", "pending", CommandStatus::Pending));
    tracker.cleanup_completed(NOW);
    assert!(tracker.get_command("old").is_none());
    assert!(tracker.get_command("new").is_some());
    assert!(tracker.get_command("pending").is_some());
}

#[test]
fn cleanup_completed_trims_to_max_entries() {
    let tracking = TrackingConfig {
        completed_retention_minutes: 10,
        completed_max_entries: 2,
        ..TrackingConfig::default()
    };
    let mut tracker = CommandTracker::with_tracking(ShellType::Bash, tracking);
    tracker.record(completed("oldest", NOW - 180 * SECOND));
    tracker.record(completed("middle", NOW - 120 * SECOND));
    tracker.record(completed("newest", NOW - 60 * SECOND));
    tracker.record(execution("pending", "pending", CommandStatus::Pending));
    tracker.cleanup_completed(NOW);
    assert!(tracker.get_command("oldest").is_none());
    assert!(tracker.get_command("middle").is_some());
    assert!(tracker.get_command("newest").is_some());
    assert!(tracker.get_command("pending").is_some());
    let before = tracker.get_active_ids();
    tracker.cleanup_completed(NOW);
    assert_eq!(tracker.get_active_ids(), before);
}

#[test]
fn cleanup_drops_abandoned_pending_but_keeps_recent() {
    let tracking = TrackingConfig {
        tracking_deadline_seconds: 1,
        completed_retention_minutes: 0,
        ..TrackingConfig::default()
    };
    let mut tracker = CommandTracker::with_tracking(ShellType::Bash, tracking);
    tracker.record(CommandExecution {
        started_at: NOW - 60 * SECOND,
        ..execution("stale", "sleep 100", CommandStatus::Pending)
    });
    tracker.record(execution("fresh", "sleep 100", CommandStatus::Pending));
    tracker.cleanup_completed(NOW);
    let ids = tracker.get_active_ids();
    assert!(
        !ids.contains(&"stale".to_string()),
        "abandoned pending should be reclaimed"
    );
    assert!(
        ids.contains(&"fresh".to_string()),
        "recently-started pending should be kept"
    );
    // The window itself no longer counts, and a start in the future counts as now.
    tracker.cleanup_completed(NOW + SECOND - 1);
    assert!(tracker.get_command("fresh").is_some());
    tracker.cleanup_completed(NOW - SECOND);
    assert!(tracker.get_command("fresh").is_some());
    tracker.cleanup_completed(NOW + SECOND);
    assert!(tracker.get_command("fresh").is_none());
}

#[test]
fn an_end_without_a_time_is_kept() {
    let tracking = TrackingConfig {
        completed_retention_minutes: 0,
        completed_max_entries: 0,
        ..TrackingConfig::default()
    };
    let mut tracker = CommandTracker::with_tracking(ShellType::Bash, tracking);
    tracker.record(execution("odd", "odd", CommandStatus::Error));
    tracker.cleanup_completed(NOW + 1_000_000 * SECOND);
    assert!(tracker.get_command("odd").is_some());
}

#[test]
fn concurrent_execute_command_tracks_unique_ids() {
    let mut tracker = CommandTracker::new(ShellType::Bash);
    let mut ids = Vec::new();
    for i in 0..16 {
        let launch =
            tracker.execute_command(&format!("%{i}"), "echo hi", false, false, None, None, None, NOW);
        ids.push(launch.id);
    }
    let unique: std::collections::HashSet<_> = ids.iter().collect();
    assert_eq!(unique.len(), ids.len(), "command ids must be unique");
    let active = tracker.get_active_ids();
    for id in &ids {
        assert!(active.contains(id), "command {id} must be known");
    }
}

#[test]
fn commands_under_ids_of_their_own_do_not_displace_one_another() {
    let tracking = TrackingConfig {
        completed_retention_minutes: 1,
        completed_max_entries: 1,
        tracking_deadline_seconds: 40,
        ..TrackingConfig::default()
    };
    let mut tracker = CommandTracker::with_tracking(ShellType::Bash, tracking);
    for i in 0..10u128 {
        let (id, pane) = (format!("id{i}"), format!("%{i}"));
        tracker.launch(id, &pane, &format!("run {i}"), false, false, None, None, NOW + i * 10 * SECOND);
    }
    let ids: Vec<String> = (0..10).map(|i| format!("id{i}")).collect();
    assert_eq!(tracker.get_active_ids(), ids);
    for (i, id) in ids.iter().enumerate() {
        let stored = tracker.get_command(id).expect("stored");
        assert_eq!(stored.command, format!("run {i}"));
        assert_eq!(stored.started_at, NOW + i as u128 * 10 * SECOND);
    }
    tracker.launch("late".into(), "%1", "ls", false, false, None, None, NOW + 100 * SECOND);
    assert!(tracker.get_command("id0").is_none());
    assert!(tracker.get_command("id1").is_some());
}

#[test]
fn recording_replaces_the_command_with_the_same_id() {
    let mut tracker = CommandTracker::new(ShellType::Bash);
    tracker.record(execution("a", "first", CommandStatus::Pending));
    tracker.record(execution("b", "other", CommandStatus::Pending));
    tracker.record(execution("a", "second", CommandStatus::Pending));
    assert_eq!(tracker.get_active_ids(), vec!["a", "b"]);
    assert_eq!(tracker.get_command("a").expect("a").command, "second");
    assert_eq!(tracker.get_command("b").expect("b").command, "other");
}

#[test]
fn times_out_of_reach_are_noticed() {
    assert!(times_fit(&TrackingConfig::default()));
    let tracking = TrackingConfig {
        completed_retention_minutes: u64::MAX,
        tracking_deadline_seconds: 0,
        ..TrackingConfig::default()
    };
    assert!(times_fit(&tracking));
    let tracking = TrackingConfig {
        tracking_deadline_seconds: 1,
        ..tracking
    };
    assert!(!times_fit(&tracking));
    assert!(!CommandTracker::with_tracking(ShellType::Bash, tracking).times_fit());
}

#[test]
fn what_ended_last_is_kept() {
    let tracking = TrackingConfig {
        completed_max_entries: 1,
        ..TrackingConfig::default()
    };
    let mut tracker = CommandTracker::with_tracking(ShellType::Bash, tracking);
    tracker.record(completed("before", NOW));
    tracker.record(execution("now", "ls", CommandStatus::Pending));
    let done = check_status(&mut tracker, "now", NOW + 1, |_| "TMUX_MCP_DONE_now_0".to_string());
    assert_eq!(done.expect("command").status, CommandStatus::Completed);
    assert_eq!(tracker.get_active_ids(), vec!["now"]);
}
