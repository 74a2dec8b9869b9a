use dbake::tui::fallback::Reporter;
use dbake::tui::state::{DashboardState, TargetStatus};

fn state(targets: &[&str]) -> DashboardState {
    DashboardState::new(
        targets.iter().map(|s| s.to_string()).collect(),
        vec!["n1".to_string()],
    )
}

#[test]
fn building_is_announced_exactly_once() {
    let mut s = state(&["web"]);
    let mut r = Reporter::new();

    s.set_target_status("web", "n1", TargetStatus::Building);
    assert_eq!(r.drain(&s), vec!["[n1] building web".to_string()]);
    assert!(r.drain(&s).is_empty());
    assert!(r.drain(&s).is_empty());
}

#[test]
fn completion_is_reported_after_the_building_line() {
    let mut s = state(&["web"]);
    let mut r = Reporter::new();

    s.set_target_status("web", "n1", TargetStatus::Building);
    assert_eq!(r.drain(&s).len(), 1);

    s.set_target_status("web", "n1", TargetStatus::Done(3));
    assert_eq!(r.drain(&s), vec!["✓ [n1] web (3s)".to_string()]);
    assert!(r.drain(&s).is_empty());
}

#[test]
fn failures_and_skips_are_reported_once_each() {
    let mut s = state(&["a", "b", "c"]);
    let mut r = Reporter::new();

    s.set_target_status("a", "n1", TargetStatus::Failed("boom".into()));
    s.set_target_status("b", "", TargetStatus::Blocked(vec!["a".into()]));
    s.set_target_status("c", "", TargetStatus::Cancelled);

    let lines = r.drain(&s);
    assert_eq!(lines.len(), 3);
    assert!(lines.iter().any(|l| l.contains("FAILED (boom)")));
    assert!(lines.iter().any(|l| l.contains("blocked by [a]")));
    assert!(lines.iter().any(|l| l.contains("c cancelled")));
    assert!(r.drain(&s).is_empty());
}

#[test]
fn output_follows_declaration_order() {
    let names = ["zeta", "alpha", "mike", "bravo", "yankee", "delta", "kilo"];
    let mut s = state(&names);
    let mut r = Reporter::new();
    for n in &names {
        s.set_target_status(n, "n1", TargetStatus::Building);
    }

    let lines = r.drain(&s);
    let reported: Vec<&str> = lines
        .iter()
        .map(|l| l.rsplit(' ').next().unwrap())
        .collect();
    assert_eq!(reported, names, "output must follow declaration order");
}

