use dbake::tui::dashboard::{
    draw_step, footer, heading, idle_nodes, is_selected, log_footer, log_height, log_status,
    needs_redraw, no_log, overview_row, press, queue_line, rows, tail_lines, tail_start, truncate,
    DrawStep, Key, LogStamp, LogTailCache, Screen, Tone, TAIL_BYTES,
};
use dbake::tui::fallback::{clock, padded, report, Reporter};
use dbake::tui::state::{BuildProgress, DashboardState, TargetStatus};

fn names(v: &[&str]) -> Vec<String> {
    v.iter().map(|s| s.to_string()).collect()
}

fn board() -> DashboardState {
    let mut s = DashboardState::new(
        names(&["a", "b", "c", "d", "e"]),
        names(&["buildx_buildkit_n1", "n2", "n3"]),
    );
    s.set_target_status("a", "buildx_buildkit_n1", TargetStatus::Building);
    s.set_target_status("b", "n2", TargetStatus::Done(7));
    s.set_target_status("c", "n2", TargetStatus::Failed("boom".to_string()));
    s.set_target_status("d", "", TargetStatus::Blocked(names(&["c"])));
    s
}

#[test]
fn the_cursor_goes_round() {
    let active = vec!["a", "b"];
    let mut screen = Screen::Overview { cursor: 0 };
    assert!(!press(&mut screen, Key::Down, &active));
    assert!(matches!(screen, Screen::Overview { cursor: 1 }));
    press(&mut screen, Key::Char('j'), &active);
    assert!(matches!(screen, Screen::Overview { cursor: 0 }));
    press(&mut screen, Key::Up, &active);
    assert!(matches!(screen, Screen::Overview { cursor: 1 }));
    press(&mut screen, Key::Char('k'), &vec![]);
    assert!(matches!(screen, Screen::Overview { cursor: 1 }));
}

#[test]
fn a_log_is_opened_scrolled_and_left() {
    let active = vec!["a", "b"];
    let mut screen = Screen::Overview { cursor: 1 };
    press(&mut screen, Key::Enter, &active);
    assert!(matches!(&screen, Screen::Log { target, scroll: 0 } if target == "b"));
    press(&mut screen, Key::Char('k'), &active);
    assert!(matches!(&screen, Screen::Log { scroll: 1, .. }));
    press(&mut screen, Key::Down, &active);
    press(&mut screen, Key::Down, &active);
    assert!(matches!(&screen, Screen::Log { scroll: 0, .. }));
    press(&mut screen, Key::Home, &active);
    assert!(matches!(&screen, Screen::Log { scroll: usize::MAX, .. }));
    press(&mut screen, Key::Up, &active);
    assert!(matches!(&screen, Screen::Log { scroll: usize::MAX, .. }));
    press(&mut screen, Key::Char('G'), &active);
    assert!(matches!(&screen, Screen::Log { scroll: 0, .. }));
    assert!(!press(&mut screen, Key::Char('q'), &active));
    assert!(matches!(screen, Screen::Overview { cursor: 0 }));
    press(&mut screen, Key::Enter, &active);
    assert!(!press(&mut screen, Key::Esc, &active));
    assert!(matches!(screen, Screen::Overview { cursor: 0 }));

    let mut beyond = Screen::Overview { cursor: 5 };
    press(&mut beyond, Key::Enter, &active);
    assert!(matches!(beyond, Screen::Overview { cursor: 5 }));
}

#[test]
fn quitting_cancels_the_run() {
    let mut screen = Screen::Overview { cursor: 0 };
    assert!(press(&mut screen, Key::Char('q'), &vec![]));
    assert!(press(&mut screen, Key::Esc, &vec![]));
    assert!(press(&mut screen, Key::Interrupt, &vec![]));
    let mut log = Screen::Log {
        target: "a".to_string(),
        scroll: 3,
    };
    assert!(press(&mut log, Key::Interrupt, &vec![]));
    assert!(!press(&mut log, Key::Other, &vec![]));
    assert!(matches!(log, Screen::Log { scroll: 3, .. }));
}

#[test]
fn the_loop_that_draws_ends_with_the_run() {
    assert_eq!(draw_step(true, true), DrawStep::Stop);
    assert_eq!(draw_step(false, true), DrawStep::Finish);
    assert_eq!(draw_step(false, false), DrawStep::GoOn);
    assert!(needs_redraw(2, 1, 0));
    assert!(needs_redraw(1, 1, 1000));
    assert!(!needs_redraw(1, 1, 999));
}

#[test]
fn rows_stand_in_the_order_of_the_cursor() {
    let s = board();
    let keys = rows(&s);
    let targets: Vec<&str> = keys.iter().map(|k| k.target.as_str()).collect();
    assert_eq!(targets, s.active_targets());
    let labels: Vec<&str> = keys.iter().map(|k| k.label.as_str()).collect();
    assert_eq!(labels, vec!["n1", "n2", "n2", "skipped"]);
    let active = s.active_targets();
    assert!(is_selected(&active, 1, "b"));
    assert!(!is_selected(&active, 1, "a"));
    assert!(!is_selected(&active, 9, "a"));
}

#[test]
fn rows_show_how_far_a_target_is() {
    let mut s = board();
    let fresh = overview_row(s.info("a").unwrap(), "n1", true, 0, 12).unwrap();
    assert_eq!(fresh.tone, Tone::Building);
    assert_eq!(fresh.prefix, "▶ ");
    assert_eq!(fresh.node, "[n1]");
    assert_eq!(fresh.name, " a                    ");
    assert_eq!(fresh.bar, "░░░░░░░░░░");
    assert_eq!(fresh.mark, "   ?% ");
    assert_eq!(fresh.detail, "starting... 12s");

    s.update_progress(
        "a",
        BuildProgress {
            current_step: 3,
            total_steps: 8,
            step_description: "RUN make".to_string(),
            stage: Some("build".to_string()),
        },
    );
    let going = overview_row(s.info("a").unwrap(), "n1", false, 37, 12).unwrap();
    assert_eq!(going.prefix, "  ");
    assert_eq!(going.bar, "███░░░░░░░");
    assert_eq!(going.mark, "  37% ");
    assert_eq!(going.detail, "[build] RUN make");
    let full = overview_row(s.info("a").unwrap(), "n1", false, 250, 0).unwrap();
    assert_eq!(full.bar, "██████████");
    assert_eq!(full.mark, " 100% ");

    let done = overview_row(s.info("b").unwrap(), "n2", false, 0, 0).unwrap();
    assert_eq!((done.tone, done.detail.as_str()), (Tone::Done, "done (7s)"));
    let failed = overview_row(s.info("c").unwrap(), "n2", false, 0, 0).unwrap();
    assert_eq!(
        (failed.tone, failed.mark.as_str(), failed.detail.as_str()),
        (Tone::Failed, " FAIL ", "boom")
    );
    let skipped = overview_row(s.info("d").unwrap(), "skipped", false, 0, 0).unwrap();
    assert_eq!(
        (skipped.tone, skipped.mark.as_str(), skipped.detail.as_str()),
        (Tone::Skipped, " SKIP ", "blocked by [c]")
    );
    assert!(overview_row(s.info("e").unwrap(), "n2", false, 0, 0).is_none());
}

#[test]
fn the_frame_counts_what_there_is() {
    let s = board();
    assert_eq!(heading(&s, 61), "docker dbake — 3 nodes, 5 targets | 1m 01s");
    assert_eq!(idle_nodes(&s), names(&["n2", "n3"]));
    assert_eq!(
        footer(&s),
        " ✓ 1 done | ⚙ 1 building | ○ 1 pending | ✗ 1 failed | - 1 skipped | j/k:select Enter:logs q:quit"
    );
    assert_eq!(
        queue_line(&s),
        Some((" ○ 1 pending".to_string(), " [e]".to_string()))
    );
    let many = DashboardState::new(names(&["a", "b", "c", "d", "e", "f", "g"]), vec![]);
    assert_eq!(
        queue_line(&many),
        Some((
            " ○ 7 pending".to_string(),
            " [a, b, c, d, e, +2 more]".to_string()
        ))
    );
    assert_eq!(queue_line(&DashboardState::new(vec![], vec![])), None);
}

#[test]
fn a_log_is_headed_by_the_state_of_its_target() {
    let s = board();
    assert_eq!(log_status(s.info("a"), 4), "building (4s)");
    assert_eq!(log_status(s.info("b"), 4), "done (7s)");
    assert_eq!(log_status(s.info("c"), 4), "FAILED: boom");
    assert_eq!(log_status(s.info("d"), 4), "blocked by [c]");
    assert_eq!(log_status(s.info("e"), 4), "pending");
    assert_eq!(log_status(s.info("x"), 4), "unknown");
    assert_eq!(
        log_footer(0),
        " Esc:back | j/k:scroll | g:top G:bottom | tail |"
    );
    assert_eq!(
        log_footer(12),
        " Esc:back | j/k:scroll | g:top G:bottom | +12 from bottom |"
    );
    assert_eq!(log_height(24), 18);
    assert_eq!(log_height(3), 0);
    assert_eq!(no_log(), vec!["(no log file)"]);
}

#[test]
fn only_the_end_of_a_long_log_is_read() {
    assert_eq!(tail_start(0), None);
    assert_eq!(tail_start(TAIL_BYTES + 1), None);
    assert_eq!(tail_start(TAIL_BYTES + 2), Some(1));
    assert_eq!(tail_lines("cut\nkept\n", false), vec!["kept"]);
    assert_eq!(tail_lines("cut\nkept\n", true), vec!["cut", "kept"]);
    assert_eq!(tail_lines("only", false), vec!["only"]);
}

#[test]
fn a_log_is_read_again_when_it_changes() {
    let stamp = LogStamp {
        len: 4,
        modified: Some(1),
    };
    let mut cache = LogTailCache::new();
    assert!(!cache.is_current("/l/a", stamp));
    assert_eq!(cache.view(3, 0), vec!["(log empty — build starting...)"]);
    cache.store("/l/a", stamp, names(&["1", "2", "3"]));
    assert!(cache.is_current("/l/a", stamp));
    assert!(!cache.is_current("/l/b", stamp));
    assert!(!cache.is_current(
        "/l/a",
        LogStamp {
            len: 4,
            modified: Some(2),
        }
    ));
    for scroll in 0..5 {
        let shown = cache.view(2, scroll);
        assert!(!shown.is_empty() && shown.len() <= 2);
    }
    assert_eq!(cache.view(2, 1), names(&["1", "2"]));
}

#[test]
fn a_cut_text_fits() {
    for n in 0..10 {
        assert!(truncate("abcdefgh", n).chars().count() <= n);
    }
    assert_eq!(truncate("abcdefgh", 6), "abc...");
}

#[test]
fn changes_are_reported_once_and_the_end_with_counts() {
    let mut s = board();
    let mut reporter = Reporter::default();
    let first = report(&mut reporter, &s, 5);
    assert_eq!(
        first.lines,
        vec![
            "[buildx_buildkit_n1] building a",
            "✓ [n2] b (7s)",
            "✗ [n2] c FAILED (boom)",
            "- d blocked by [c]",
        ]
    );
    assert!(first.summary.is_none());
    assert!(report(&mut reporter, &s, 6).lines.is_empty());
    s.set_target_status("a", "n1", TargetStatus::Done(9));
    s.set_target_status("e", "", TargetStatus::Cancelled);
    let last = report(&mut reporter, &s, 600);
    assert_eq!(last.lines, vec!["✓ [n1] a (9s)", "- e cancelled"]);
    assert_eq!(
        last.summary.unwrap(),
        "---\n2 done, 1 failed, 2 skipped. Elapsed: 10m 00s"
    );
}

#[test]
fn times_have_two_digits() {
    assert_eq!(padded(0), "00");
    assert_eq!(padded(9), "09");
    assert_eq!(padded(10), "10");
    assert_eq!(padded(123), "123");
    assert_eq!(clock(0), "0m 00s");
    assert_eq!(clock(3599), "59m 59s");
}

#[test]
fn counts_make_up_all_targets() {
    let s = board();
    assert_eq!(
        s.count_done() + s.count_building() + s.count_pending() + s.count_failed()
            + s.count_skipped(),
        s.total
    );
    assert_eq!(s.count_terminal(), 3);
    assert!(!s.is_complete());
    assert!(s.elapsed().as_secs() < 3600);
    assert_eq!(s.failed_targets().len(), 1);
    assert_eq!(s.pending_targets(), vec!["e"]);
    assert_eq!(s.version(), 4);
}
