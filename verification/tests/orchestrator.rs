use qgate::aspects::orchestrator::{next_wait_action, WaitAction};
use qgate::aspects::orchestrator::{
    adb_output_has_connected_device, close_output, format_output, keep_chunk, mark_timeout, CommandOutput, Orchestrator,
    MAX_OUTPUT_BYTES,
};
use qgate::config::{AspectConfig, AspectMap, QualityAspect, Severity};

fn failing(stderr: &str, exit_code: i32) -> CommandOutput {
    CommandOutput { stdout: String::new(), stderr: stderr.to_string(), exit_code, timed_out: false }
}

#[test]
fn test_run_aspects_failing_command_returns_violation() {
    let orchestrator = Orchestrator::new();
    let mut aspects = AspectMap::new();
    aspects.insert(
        QualityAspect::Lint,
        AspectConfig {
            command: Some("sh -c 'echo lint_error >&2; exit 1'".to_string()),
            enabled: Some(true),
            ..Default::default()
        },
    );
    let plan = orchestrator.plan(&aspects);
    assert_eq!(plan.len(), 1);
    assert_eq!(plan[0].command, "sh -c 'echo lint_error >&2; exit 1'");
    let outputs = [failing("lint_error\n", 1)];

    let (violations, advisories) = orchestrator.run_aspects(&aspects, &outputs, None);

    assert_eq!(violations.len(), 1);
    assert_eq!(violations[0].rule, "aspect:lint");
    assert!(violations[0].message.contains("lint_error"));
    assert!(advisories.is_empty());
}

#[test]
fn adb_parser_accepts_only_device_state() {
    assert!(adb_output_has_connected_device("List of devices attached\nserial-1\tdevice\n"));
    assert!(!adb_output_has_connected_device(
        "List of devices attached\nserial-1\toffline\nserial-2\tunauthorized\n"
    ));
    assert!(!adb_output_has_connected_device("serial-1 device\n"));
}

#[test]
fn test_run_aspects_missing_command_returns_advisory() {
    let orchestrator = Orchestrator::new();
    let mut aspects = AspectMap::new();
    aspects.insert(QualityAspect::Style, AspectConfig { command: None, enabled: Some(true), ..Default::default() });

    assert!(orchestrator.plan(&aspects).is_empty());
    let (violations, advisories) = orchestrator.run_aspects(&aspects, &[], None);

    assert!(violations.is_empty());
    assert_eq!(advisories.len(), 1);
    assert_eq!(advisories[0].aspect, QualityAspect::Style);
}

#[test]
fn aspect_fingerprint_does_not_contain_command_text() {
    let command = "sh -c 'echo secret-command-text >&2; exit 1'";
    let mut aspects = AspectMap::new();
    aspects.insert(
        QualityAspect::Lint,
        AspectConfig { command: Some(command.to_string()), enabled: Some(true), ..Default::default() },
    );

    let outputs = [failing("secret-command-text\n", 1)];
    let (violations, _) = Orchestrator::new().run_aspects(&aspects, &outputs, None);

    assert_eq!(violations.len(), 1);
    assert_eq!(violations[0].fingerprint, "aspect:lint");
    assert!(!violations[0].fingerprint.contains(command));
}

#[test]
fn aspects_run_in_name_order_and_skips_are_honoured() {
    let orchestrator = Orchestrator::new();
    let mut aspects = AspectMap::new();
    aspects.insert(QualityAspect::UnitTest, AspectConfig { command: Some("test".to_string()), ..Default::default() });
    aspects.insert(QualityAspect::Build, AspectConfig { command: Some("build".to_string()), timeout_secs: Some(5), ..Default::default() });
    aspects.insert(QualityAspect::Lint, AspectConfig { command: Some("lint".to_string()), enabled: Some(false), ..Default::default() });
    aspects.insert(QualityAspect::Style, AspectConfig { command: Some("style".to_string()), severity: Some(Severity::Ignore), ..Default::default() });
    aspects.insert(QualityAspect::TypeCheck, AspectConfig { command: Some("   ".to_string()), ..Default::default() });
    let plan = orchestrator.plan(&aspects);
    let commands: Vec<&str> = plan.iter().map(|p| p.command.as_str()).collect();
    assert_eq!(commands, vec!["build", "test"]);
    assert_eq!(plan[0].timeout_secs, 5);
    assert_eq!(plan[1].timeout_secs, 60);
    let outputs = [
        CommandOutput { stdout: "ok".to_string(), stderr: String::new(), exit_code: 0, timed_out: false },
        failing("", 3),
    ];
    let (violations, advisories) = orchestrator.run_aspects(&aspects, &outputs, None);
    assert_eq!(violations.len(), 1);
    assert_eq!(violations[0].message, "Quality aspect unit_test failed: command exited with code 3");
    assert_eq!(violations[0].severity, "error");
    assert_eq!(violations[0].file, ".");
    assert_eq!(violations[0].line, 0);
    assert_eq!(advisories.len(), 1);
    assert_eq!(advisories[0].aspect, QualityAspect::TypeCheck);
    assert_eq!(advisories[0].fingerprint, "aspect:type_check:missing-command");
    assert_eq!(advisories[0].message, "No command is configured for the type_check quality aspect.");
}

#[test]
fn advisory_severity_and_missing_devices_give_advisories() {
    let orchestrator = Orchestrator::new();
    let mut aspects = AspectMap::new();
    aspects.insert(QualityAspect::IntegrationTest, AspectConfig { command: Some("it".to_string()), ..Default::default() });
    aspects.insert(QualityAspect::Lint, AspectConfig { command: Some("lint".to_string()), severity: Some(Severity::Advisory), ..Default::default() });
    let outputs = [failing("Error: No connected devices!", 1), failing("bad", 1)];
    assert!(orchestrator.needs_device_probe(QualityAspect::IntegrationTest, &outputs[0]));
    assert!(!orchestrator.needs_device_probe(QualityAspect::Lint, &outputs[1]));
    let (violations, advisories) = orchestrator.run_aspects(&aspects, &outputs, Some(false));
    assert!(violations.is_empty());
    assert_eq!(advisories.len(), 2);
    assert_eq!(advisories[0].fingerprint, "aspect:integration_test");
    assert_eq!(advisories[1].message, "Quality aspect lint failed: bad");
    let (violations, _) = orchestrator.run_aspects(&aspects, &outputs, Some(true));
    assert_eq!(violations.len(), 1);
}

#[test]
fn output_details_cover_timeouts_and_empty_output() {
    let timed = CommandOutput { stdout: " out ".to_string(), stderr: "err".to_string(), exit_code: -1, timed_out: true };
    assert_eq!(format_output(&timed), "out \nerr\ncommand timed out");
    let silent = CommandOutput { stdout: String::new(), stderr: String::new(), exit_code: -1, timed_out: false };
    assert_eq!(format_output(&silent), "command exited with code -1");
}

#[test]
fn bounded_output_keeps_the_limit_and_marks_truncation() {
    let mut out = Vec::new();
    let chunk = vec![b'x'; 70_000];
    let truncated = keep_chunk(&mut out, &chunk);
    assert!(truncated);
    close_output(&mut out, truncated);
    assert_eq!(out.len(), MAX_OUTPUT_BYTES);
    assert!(String::from_utf8_lossy(&out).ends_with("output truncated]"));
    let mut err = b"boom".to_vec();
    mark_timeout(&mut err);
    assert_eq!(err, b"boom\ncommand timed out".to_vec());
    mark_timeout(&mut err);
    assert_eq!(err, b"boom\ncommand timed out".to_vec());
}

fn passing() -> CommandOutput {
    CommandOutput { stdout: "ok".to_string(), stderr: String::new(), exit_code: 0, timed_out: false }
}

#[test]
fn passing_commands_report_nothing_but_missing_commands() {
    let orchestrator = Orchestrator::new();
    let mut aspects = AspectMap::new();
    aspects.insert(QualityAspect::Lint, AspectConfig { command: Some("lint".to_string()), ..Default::default() });
    aspects.insert(QualityAspect::Build, AspectConfig { command: Some("build".to_string()), ..Default::default() });
    aspects.insert(QualityAspect::Style, AspectConfig::default());
    let plan = orchestrator.plan(&aspects);
    assert_eq!(plan.len(), 2);
    assert_eq!(plan[0].timeout_secs, 60);
    let outputs = [passing(), passing()];
    let (violations, advisories) = orchestrator.run_aspects(&aspects, &outputs, None);
    assert!(violations.is_empty());
    assert_eq!(advisories.len(), 1);
    assert_eq!(advisories[0].fingerprint, "aspect:style:missing-command");
}

#[test]
fn waiting_kills_a_command_once_the_timeout_is_reached() {
    assert_eq!(next_wait_action(true, 90_000_000_000, 60), WaitAction::Finish);
    assert_eq!(next_wait_action(false, 59_999_999_999, 60), WaitAction::Wait);
    assert_eq!(next_wait_action(false, 60_000_000_000, 60), WaitAction::Kill);
    assert_eq!(next_wait_action(false, 0, 0), WaitAction::Kill);
}
