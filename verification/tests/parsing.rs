use tmux_mcp_rs::errors::Error;
use tmux_mcp_rs::shell::{choose_shell_type, parse_shell_type, parse_version, version_refusal};
use tmux_mcp_rs::tmux::parse::{parse_pane_info, parse_window_info};
use tmux_mcp_rs::tmux::{
    parse_buffers, parse_clients, parse_panes, parse_sessions, parse_windows,
};
use tmux_mcp_rs::types::{
    BufferInfo, ClientInfo, Pane, PaneInfo, Session, ShellType, Window, WindowInfo,
};

fn session(id: &str, name: &str, attached: bool, windows: u32) -> Session {
    Session {
        id: id.into(),
        name: name.into(),
        attached,
        windows,
    }
}

fn window(id: &str, name: &str, active: bool, session_id: &str) -> Window {
    Window {
        id: id.into(),
        name: name.into(),
        active,
        session_id: session_id.into(),
    }
}

fn pane(id: &str, title: &str, active: bool, window_id: &str) -> Pane {
    Pane {
        id: id.into(),
        title: title.into(),
        active,
        window_id: window_id.into(),
    }
}

#[test]
fn test_parse_sessions() {
    assert_eq!(
        parse_sessions("$0\tmain\t1\t3\n$1\tdev\t0\t2"),
        vec![session("$0", "main", true, 3), session("$1", "dev", false, 2)]
    );
    assert_eq!(
        parse_sessions("$5\twork\t1\t1"),
        vec![session("$5", "work", true, 1)]
    );
    assert_eq!(parse_sessions(""), vec![]);
}

#[test]
fn test_parse_sessions_skips_malformed_lines() {
    let input = "$0\tmain\t1\t2\ninvalid-line\n$1\tdev\t0\t1";
    let result = parse_sessions(input);
    assert_eq!(result.len(), 2);
    assert_eq!(result[0].name, "main");
    assert_eq!(result[1].name, "dev");
}

#[test]
fn test_parse_sessions_with_colons_in_name() {
    assert_eq!(
        parse_sessions("$0\tmy:session:with:colons\t1\t2"),
        vec![session("$0", "my:session:with:colons", true, 2)]
    );
}

#[test]
fn test_parse_windows() {
    assert_eq!(
        parse_windows("@0\tzsh\t1\n@1\tvim\t0", "$0"),
        vec![
            window("@0", "zsh", true, "$0"),
            window("@1", "vim", false, "$0")
        ]
    );
    assert_eq!(
        parse_windows("@5\teditor\t0", "$2"),
        vec![window("@5", "editor", false, "$2")]
    );
    assert_eq!(parse_windows("", "$0"), vec![]);
}

#[test]
fn test_parse_windows_skips_malformed_lines() {
    let input = "@0\tzsh\t1\nbad-line\n@1\tvim\t0";
    let result = parse_windows(input, "$0");
    assert_eq!(result.len(), 2);
    assert_eq!(result[0].name, "zsh");
    assert_eq!(result[1].name, "vim");
}

#[test]
fn test_parse_windows_with_colons() {
    assert_eq!(
        parse_windows("@0\twindow:with:colons\t1", "$0"),
        vec![window("@0", "window:with:colons", true, "$0")]
    );
}

#[test]
fn test_parse_panes() {
    assert_eq!(
        parse_panes("%0\tbash\t1\n%1\thtop\t0", "@0"),
        vec![
            pane("%0", "bash", true, "@0"),
            pane("%1", "htop", false, "@0")
        ]
    );
    assert_eq!(
        parse_panes("%10\tvim\t1", "@5"),
        vec![pane("%10", "vim", true, "@5")]
    );
    assert_eq!(parse_panes("", "@0"), vec![]);
}

#[test]
fn test_parse_panes_skips_malformed_lines() {
    let input = "%0\tbash\t1\nbad-line\n%1\thtop\t0";
    let result = parse_panes(input, "@0");
    assert_eq!(result.len(), 2);
    assert_eq!(result[0].title, "bash");
    assert_eq!(result[1].title, "htop");
}

#[test]
fn list_windows_and_panes() {
    let windows = parse_windows("@1\tfirst\t1\n@2\tsecond\t0", "%1");
    assert_eq!(windows.len(), 2);
    let panes = parse_panes("%1\tpane-one\t1\n%2\tpane-two\t0", "@1");
    assert_eq!(panes.len(), 2);
}

#[test]
fn test_parse_buffers() {
    assert_eq!(
        parse_buffers("buffer0\t10\t1700000000\nbuffer1\t5\t1700000100"),
        vec![
            BufferInfo {
                name: "buffer0".into(),
                size: 10,
                size_bytes: 10,
                order_index: 0,
                created: Some(1700000000)
            },
            BufferInfo {
                name: "buffer1".into(),
                size: 5,
                size_bytes: 5,
                order_index: 1,
                created: Some(1700000100)
            },
        ]
    );
    assert_eq!(parse_buffers(""), vec![]);
}

#[test]
fn buffers_saturate_and_keep_their_place() {
    let result = parse_buffers("bad\nbig\t5000000000\tnever\nodd\t-1\t7");
    assert_eq!(
        result,
        vec![
            BufferInfo {
                name: "big".into(),
                size: u32::MAX,
                size_bytes: 5_000_000_000,
                order_index: 1,
                created: None
            },
            BufferInfo {
                name: "odd".into(),
                size: 0,
                size_bytes: 0,
                order_index: 2,
                created: Some(7)
            },
        ]
    );
}

#[test]
fn clients_with_and_without_process_ids() {
    assert_eq!(
        parse_clients("/dev/pts/1\tone\tmain\t42\t1\n/dev/pts/2\ttwo\tdev\t\t0\nshort\tline"),
        vec![
            ClientInfo {
                tty: "/dev/pts/1".into(),
                name: "one".into(),
                session_name: "main".into(),
                pid: Some(42),
                attached: true
            },
            ClientInfo {
                tty: "/dev/pts/2".into(),
                name: "two".into(),
                session_name: "dev".into(),
                pid: None,
                attached: false
            },
        ]
    );
}

#[test]
fn numbers_are_read_as_the_standard_library_reads_them() {
    for field in [
        "0", "007", "+7", "-7", "+", "", " 7", "7 ", "4294967295", "4294967296", "\u{663}", "1e3",
        "++1", "99999999999999999999999",
    ] {
        let line = format!("$0\tname\t1\t{field}");
        let expected: u32 = field.parse().unwrap_or(0);
        assert_eq!(parse_sessions(&line)[0].windows, expected, "field {field:?}");
        let line = format!("b\t{field}\t{field}");
        let info = &parse_buffers(&line)[0];
        let expected: u64 = field.parse().unwrap_or(0);
        assert_eq!(info.size_bytes, expected, "field {field:?}");
        assert_eq!(info.created, field.parse::<u64>().ok(), "field {field:?}");
    }
}

#[test]
fn lines_are_split_as_the_standard_library_splits_them() {
    for input in [
        "a\tb\t1\n", "a\tb\t1\r\nc\td\t0\r\n", "a\tb\t1\r", "\n\na\tb\t1\n\n", "a\tb\t1\r\r\n", "\r\n",
    ] {
        let expected: Vec<Window> = input
            .lines()
            .filter_map(|line| {
                let parts: Vec<&str> = line.split('\t').collect();
                if parts.len() >= 3 {
                    Some(window(parts[0], parts[1], parts[2] == "1", "$0"))
                } else {
                    None
                }
            })
            .collect();
        assert_eq!(parse_windows(input, "$0"), expected, "input {input:?}");
    }
}

#[test]
fn listings_are_read_back() {
    let sessions = vec![
        session("$0", "one", true, 3),
        session("$1", "", false, 0),
        session("$2", "tr\u{e8}s long", false, u32::MAX),
    ];
    let mut listing = String::new();
    for (i, s) in sessions.iter().enumerate() {
        if i > 0 {
            listing.push('\n');
        }
        let attached = if s.attached { "1" } else { "0" };
        listing.push_str(&format!("{}\t{}\t{attached}\t{}", s.id, s.name, s.windows));
    }
    assert_eq!(parse_sessions(&listing), sessions);
}

#[test]
fn listings_of_other_kinds_are_read_back() {
    let yes = |on: bool| if on { "1" } else { "0" };
    let windows = vec![window("@0", "a:b", true, "$0"), window("@1", " ", false, "$0")];
    let listing: Vec<String> = windows
        .iter()
        .map(|w| format!("{}\t{}\t{}", w.id, w.name, yes(w.active)))
        .collect();
    assert_eq!(parse_windows(&listing.join("\n"), "$0"), windows);
    let panes = vec![pane("%0", "one\r", true, "@0"), pane("%1", "", false, "@0")];
    let listing: Vec<String> = panes
        .iter()
        .map(|p| format!("{}\t{}\t{}", p.id, p.title, yes(p.active)))
        .collect();
    assert_eq!(parse_panes(&listing.join("\n"), "@0"), panes);
    let clients = vec![
        ClientInfo {
            tty: "/dev/1".into(),
            name: "n".into(),
            session_name: "s".into(),
            pid: Some(u32::MAX),
            attached: true,
        },
        ClientInfo {
            tty: "/dev/2".into(),
            name: "".into(),
            session_name: "".into(),
            pid: None,
            attached: false,
        },
    ];
    let listing: Vec<String> = clients
        .iter()
        .map(|c| {
            let pid = c.pid.map(|n| n.to_string()).unwrap_or_default();
            format!("{}\t{}\t{}\t{pid}\t{}", c.tty, c.name, c.session_name, yes(c.attached))
        })
        .collect();
    assert_eq!(parse_clients(&listing.join("\n")), clients);
    let buffers = vec![
        BufferInfo {
            name: "a".into(),
            size: u32::MAX,
            size_bytes: u64::MAX,
            order_index: 0,
            created: Some(0),
        },
        BufferInfo {
            name: "b".into(),
            size: 0,
            size_bytes: 0,
            order_index: 1,
            created: None,
        },
    ];
    let listing: Vec<String> = buffers
        .iter()
        .map(|b| {
            let created = b.created.map(|n| n.to_string()).unwrap_or_default();
            format!("{}\t{}\t{created}", b.name, b.size_bytes)
        })
        .collect();
    assert_eq!(parse_buffers(&listing.join("\n")), buffers);
}

#[test]
fn pane_details_are_parsed() {
    let info = parse_pane_info("%1\t@2\t$3\t1\ttitle\t/home\tvim\t80\t24\t99\t0").expect("details");
    assert_eq!(
        info,
        PaneInfo {
            id: "%1".into(),
            window_id: "@2".into(),
            session_id: "$3".into(),
            active: true,
            title: "title".into(),
            current_path: "/home".into(),
            current_command: "vim".into(),
            width: 80,
            height: 24,
            pid: Some(99),
            in_mode: false
        }
    );
    match parse_pane_info("too\tshort") {
        Err(Error::Parse { message }) => {
            assert_eq!(message, "failed to parse pane info: too\tshort")
        }
        other => panic!("expected parse error, got {other:?}"),
    }
}

#[test]
fn window_details_are_parsed() {
    let info = parse_window_info("@2\tedit\t$3\t0\ttiled\t2\t80\t24\t1\t%1").expect("details");
    assert_eq!(
        info,
        WindowInfo {
            id: "@2".into(),
            name: "edit".into(),
            session_id: "$3".into(),
            active: false,
            layout: "tiled".into(),
            panes: 2,
            width: 80,
            height: 24,
            zoomed: true,
            active_pane_id: "%1".into()
        }
    );
    match parse_window_info("") {
        Err(Error::Parse { message }) => assert_eq!(message, "failed to parse window info: "),
        other => panic!("expected parse error, got {other:?}"),
    }
}

#[test]
fn parse_shell_type_recognizes_known_shells() {
    assert_eq!(parse_shell_type("bash"), ShellType::Bash);
    assert_eq!(parse_shell_type("zsh"), ShellType::Zsh);
    assert_eq!(parse_shell_type("fish"), ShellType::Fish);
}

#[test]
fn parse_shell_type_is_case_insensitive_and_defaults() {
    assert_eq!(parse_shell_type("ZSH"), ShellType::Zsh);
    assert_eq!(parse_shell_type("unknown"), ShellType::Bash);
}

#[test]
fn shell_names_fold_like_the_standard_library() {
    for name in ["FiSh", "zSH", "f\u{130}sh", "\u{212a}sh", "ba\u{17f}h", "", "fish "] {
        let expected = match name.to_lowercase().as_str() {
            "zsh" => ShellType::Zsh,
            "fish" => ShellType::Fish,
            _ => ShellType::Bash,
        };
        assert_eq!(parse_shell_type(name), expected, "name {name:?}");
    }
}

#[test]
fn the_configured_shell_goes_first() {
    assert_eq!(choose_shell_type(Some("fish"), "zsh"), ShellType::Fish);
    assert_eq!(choose_shell_type(Some("odd"), "zsh"), ShellType::Bash);
    assert_eq!(choose_shell_type(None, "zsh"), ShellType::Zsh);
}

#[test]
fn old_releases_are_refused() {
    assert_eq!(
        version_refusal(2, 9).as_deref(),
        Some("Error: tmux-mcp-rs requires tmux 3.0 or newer; found tmux 2.9")
    );
    assert_eq!(version_refusal(3, 0), None);
}

#[test]
fn releases_are_read_from_what_tmux_says() {
    assert_eq!(parse_version("tmux 3.4"), Some((3, 4)));
    assert_eq!(parse_version("tmux 3.3a"), Some((3, 3)));
    assert_eq!(parse_version("tmux next-3.10"), Some((3, 10)));
    assert_eq!(parse_version("tmux 2.9.1"), Some((2, 9)));
    assert_eq!(parse_version("4294967295.0"), Some((u32::MAX, 0)));
    for reply in ["", "tmux master", "tmux 3", "tmux 3.", "tmux 3.x", "tmux 3-rc.1", "tmux .3", "4294967296.0"] {
        assert_eq!(parse_version(reply), None, "{reply:?}");
    }
}

#[test]
fn listings_one_under_the_other_are_read_one_after_the_other() {
    let lists = ["", "a\tb\t1\t2", "a\tb\t1\t2\nc\td\t0\t0", "a\tb\t0\t1\n", "short\tline", "x\ty\t1\t3\t4"];
    for first in lists {
        for second in lists {
            for end in ["\n", "\r\n"] {
                let both = format!("{first}{end}{second}");
                let mut sessions = parse_sessions(first);
                sessions.extend(parse_sessions(second));
                assert_eq!(parse_sessions(&both), sessions);
            }
        }
    }
    let both = parse_buffers("one\t1\t2\n\ntwo\t3\t4");
    assert_eq!(both.iter().map(|b| b.order_index).collect::<Vec<_>>(), vec![0, 2]);
}
