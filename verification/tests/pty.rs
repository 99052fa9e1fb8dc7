use ip_config_tool::pty::{build_command_line, console_failed, quote_arg, Spawn, SpawnStep};

#[test]
fn arguments_are_quoted_where_they_must_be() {
    assert_eq!(quote_arg("ping"), "ping");
    assert_eq!(quote_arg(""), "\"\"");
    assert_eq!(quote_arg("a b"), "\"a b\"");
}

#[test]
fn command_lines_end_with_zero() {
    let expected: Vec<u16> = "ping \"a b\" \u{1f600}".encode_utf16().chain([0]).collect();
    assert_eq!(build_command_line("ping", &["a b", "\u{1f600}"]), expected);
    assert_eq!(build_command_line("", &[]), vec![0x22, 0x22, 0]);
}

fn steps(results: &[bool]) -> (Vec<SpawnStep>, Option<String>) {
    let mut spawn = Spawn::new();
    let mut seen = vec![spawn.step()];
    for (i, ok) in results.iter().enumerate() {
        spawn.report(if *ok { Ok(()) } else { Err(format!("step {i}")) });
        seen.push(spawn.step());
    }
    (seen, spawn.error())
}

#[test]
fn a_program_is_started_step_by_step() {
    let (seen, error) = steps(&[true; 9]);
    assert_eq!(
        seen,
        vec![
            SpawnStep::InputPipe,
            SpawnStep::OutputPipe,
            SpawnStep::Console,
            SpawnStep::Attributes,
            SpawnStep::AttachConsole,
            SpawnStep::Process,
            SpawnStep::DeleteAttributes,
            SpawnStep::CloseThread,
            SpawnStep::Reader,
            SpawnStep::Running,
        ]
    );
    assert_eq!(error, None);
}

#[test]
fn a_failed_start_undoes_what_was_done() {
    assert_eq!(steps(&[false]).0[1], SpawnStep::Failed);
    assert_eq!(steps(&[true, true, false]).0[3], SpawnStep::Failed);
    let (seen, error) = steps(&[true, true, true, false, true]);
    assert_eq!(seen[4..], [SpawnStep::CloseConsole, SpawnStep::Failed]);
    assert_eq!(error.as_deref(), Some("step 3"));
    let (seen, error) = steps(&[true, true, true, true, true, false, true, true]);
    assert_eq!(seen[6..], [SpawnStep::DeleteAttributes, SpawnStep::CloseConsole, SpawnStep::Failed]);
    assert_eq!(error.as_deref(), Some("step 5"));
}

#[test]
fn result_codes_are_written_in_hexadecimal() {
    assert_eq!(console_failed(0x8007_0057), "CreatePseudoConsole failed (hresult 0x80070057)");
    assert_eq!(console_failed(0xA), "CreatePseudoConsole failed (hresult 0x0000000A)");
}
