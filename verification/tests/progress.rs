use dbake::executor::progress::ProgressParser;

#[test]
fn test_basic_progress() {
    let mut p = ProgressParser::new();

    assert!(p
        .parse_line("#1 [internal] load build definition from Dockerfile")
        .is_none());

    let r = p.parse_line("#1 DONE 0.0s").unwrap();
    assert_eq!(r.current_step, 0);
    assert_eq!(r.total_steps, 0);

    let r = p
        .parse_line("#3 [1/5] FROM docker.io/library/node:18")
        .unwrap();
    assert_eq!(r.current_step, 1);
    assert_eq!(r.total_steps, 5);
    assert_eq!(r.step_description, "FROM docker.io/library/node:18");

    let r = p.parse_line("#5 [3/5] COPY package*.json ./").unwrap();
    assert_eq!(r.current_step, 3);
    assert_eq!(r.total_steps, 5);
    assert_eq!(r.step_description, "COPY package*.json ./");
}

#[test]
fn test_cached_step() {
    let mut p = ProgressParser::new();
    let r = p.parse_line("#5 CACHED").unwrap();
    assert_eq!(r.current_step, 0);
}

#[test]
fn test_done_with_time() {
    let mut p = ProgressParser::new();
    let r = p.parse_line("#2 DONE 1.5s").unwrap();
    assert_eq!(r.current_step, 0);
}

#[test]
fn test_ellipsis_ignored() {
    let mut p = ProgressParser::new();
    assert!(p.parse_line("#6 ...").is_none());
}

#[test]
fn test_non_step_lines_ignored() {
    let mut p = ProgressParser::new();
    assert!(p.parse_line("").is_none());
    assert!(p.parse_line("some random output").is_none());
    assert!(p.parse_line("  WARNING: something").is_none());
}

#[test]
fn test_multi_stage_build() {
    let mut p = ProgressParser::new();

    let r = p.parse_line("#3 [1/3] FROM alpine:3.21").unwrap();
    assert_eq!(r.current_step, 1);
    assert_eq!(r.total_steps, 3);

    let r = p.parse_line("#8 [1/5] FROM node:18").unwrap();
    assert_eq!(r.current_step, 1);
    assert_eq!(r.total_steps, 5);

    let r = p.parse_line("#10 [4/5] RUN npm install").unwrap();
    assert_eq!(r.current_step, 4);
    assert_eq!(r.total_steps, 5);
}

#[test]
fn test_step_with_stage_name() {
    let mut p = ProgressParser::new();
    let r = p.parse_line("#4 [builder 2/5] RUN go build .").unwrap();
    assert_eq!(r.current_step, 2);
    assert_eq!(r.total_steps, 5);
    assert_eq!(r.step_description, "RUN go build .");
    assert_eq!(r.stage.as_deref(), Some("builder"));
}

#[test]
fn test_stage_name_containing_digits() {
    let mut p = ProgressParser::new();
    let r = p.parse_line("#7 [go1-22 3/9] RUN make").unwrap();
    assert_eq!(r.current_step, 3);
    assert_eq!(r.total_steps, 9);
    assert_eq!(r.stage.as_deref(), Some("go1-22"));
}

#[test]
fn test_multi_platform_stage_prefix() {
    let mut p = ProgressParser::new();
    let r = p
        .parse_line("#12 [linux/arm64 builder 3/8] RUN make")
        .unwrap();
    assert_eq!(r.current_step, 3);
    assert_eq!(r.total_steps, 8);
    assert_eq!(r.stage.as_deref(), Some("linux/arm64 builder"));
    assert_eq!(r.step_description, "RUN make");
}

#[test]
fn test_default_stage_name() {
    let mut p = ProgressParser::new();
    let r = p.parse_line("#5 [stage-1 2/5] RUN apt-get update").unwrap();
    assert_eq!(r.current_step, 2);
    assert_eq!(r.total_steps, 5);
    assert_eq!(r.stage.as_deref(), Some("stage-1"));
}

#[test]
fn test_unnamed_stage_has_no_stage_label() {
    let mut p = ProgressParser::new();
    let r = p.parse_line("#4 [2/5] RUN go build .").unwrap();
    assert_eq!(r.current_step, 2);
    assert_eq!(r.stage, None);
}

#[test]
fn test_internal_bracket_is_not_a_step_counter() {
    let mut p = ProgressParser::new();
    assert!(p
        .parse_line("#1 [internal] load build definition from Dockerfile")
        .is_none());
}

#[test]
fn test_step_with_stage_name_space() {
    let mut p = ProgressParser::new();
    let r = p.parse_line("#4 [2/5] RUN go build .").unwrap();
    assert_eq!(r.current_step, 2);
    assert_eq!(r.total_steps, 5);
    assert_eq!(r.step_description, "RUN go build .");
}
