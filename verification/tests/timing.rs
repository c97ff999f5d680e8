use host::timing::Timing;

#[test]
fn a_stage_marks_once_on_a_live_path_and_never_off_one() {
    let mut timing: Timing<u64> = Timing::new(true);
    // No path yet: a conditional stage on nothing is late traffic, dropped.
    assert_eq!(timing.mark_once("p_1", "first-ipc", 1), None);
    // The open path starts with an unconditional mark.
    assert_eq!(timing.mark("p_1", "mount-command", 2), Some((2, 2)));
    assert_eq!(timing.mark_once("p_1", "first-ipc", 3), Some((2, 2)));
    assert_eq!(timing.mark_once("p_1", "first-ipc", 4), None, "a repeat is silent, not a second stage");
    timing.to_field();
    let finished = timing.done("p_1").expect("the path was live");
    assert_eq!(finished.stages.len(), 2);
    // done() ends the path; the surface's later traffic stays silent.
    assert_eq!(timing.mark_once("p_1", "first-reply", 5), None);
    assert!(timing.done("p_1").is_none());
}

#[test]
fn a_finished_path_reaches_the_field_sink_whole_and_labeled() {
    let mut timing: Timing<u64> = Timing::new(false);
    // Both lanes off: nothing is even recorded.
    assert!(!timing.enabled());
    assert_eq!(timing.mark("p_0", "mount-command", 0), None);
    timing.to_field();
    assert!(timing.enabled(), "the telemetry lane alone turns collection on");
    assert!(timing.done("p_0").is_none(), "nothing was recorded while both lanes were off");

    assert_eq!(timing.mark("p_1", "mount-command", 10), None, "the printing lane is off");
    timing.label("p_1", "context-menu");
    timing.mark("p_1", "first-paint", 25);
    let execution = timing.done("p_1").expect("a finished path is handed over");
    assert_eq!(execution.process, "p_1");
    assert_eq!(execution.program.as_deref(), Some("context-menu"));
    let names: Vec<&str> = execution.stages.iter().map(|(name, _)| name.as_str()).collect();
    assert_eq!(names, ["mount-command", "first-paint"]);
    assert!(execution.stages[0].1 <= execution.stages[1].1, "stamps in order");
    // done() consumed the path: a second done hands nothing over.
    assert!(timing.done("p_1").is_none());
}

#[test]
fn a_label_on_a_path_that_never_started_is_silent() {
    let mut timing: Timing<u64> = Timing::new(true);
    timing.to_field();
    timing.label("p_9", "sidebar");
    timing.mark("p_9", "run-returned", 7);
    let execution = timing.done("p_9").unwrap();
    assert_eq!(execution.program, None);
    assert_eq!(execution.stages, vec![("run-returned".to_string(), 7)]);
}

#[test]
fn a_mark_reports_the_first_and_the_previous_stamp() {
    let mut timing: Timing<u64> = Timing::new(true);
    assert_eq!(timing.mark("k", "a", 3), Some((3, 3)));
    assert_eq!(timing.mark("k", "b", 8), Some((3, 3)));
    assert_eq!(timing.mark("k", "c", 20), Some((3, 8)));
    assert_eq!(timing.done("k").map(|e| e.stages.len()), None, "the collecting lane is off");
    assert_eq!(timing.mark("k", "a", 30), Some((30, 30)), "a re-run starts afresh");
}
