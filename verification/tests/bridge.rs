use bivrost::bridge::{connect_address, Action, Bridge, Event, Failure, Request, Stage};
use bivrost::descriptor::Platform;
use bivrost::dropfile::DropfileError;
use bivrost::launch::{ExitOutcome, EXIT_FAILURE};

fn request(dropfile: &str, out: &str, target: &str) -> Request {
    let name = dropfile.rsplit('/').next().filter(|n| !n.is_empty());
    let parent = dropfile.rfind('/').map(|at| &dropfile[..at]).or(Some(""));
    Request {
        port: 4000,
        dropfile: dropfile.to_string(),
        dropfile_name: name.map(|n| n.to_string()),
        dropfile_parent: parent.map(|p| p.to_string()),
        out: out.to_string(),
        target: target.to_string(),
        platform: Platform::DescriptorBased,
    }
}

fn failing(failure: Failure) -> Action {
    Action::Exit { code: EXIT_FAILURE, failure: Some(failure) }
}

fn launch(program: &str, arguments: &[&str]) -> Action {
    Action::Launch {
        program: program.to_string(),
        arguments: arguments.iter().map(|a| a.to_string()).collect(),
    }
}

#[test]
fn address_is_the_local_host_and_the_port() {
    assert_eq!(connect_address(4000), "localhost:4000");
    assert_eq!(connect_address(0), "localhost:0");
    assert_eq!(connect_address(-1), "localhost:-1");
}

#[test]
fn run_begins_with_the_connection() {
    let mut bridge = Bridge::new(request("", "", "DOOR.EXE"));
    assert_eq!(bridge.current_stage(), Stage::Idle);
    assert_eq!(
        bridge.step(Event::Start),
        Action::Connect { address: String::from("localhost:4000") }
    );
    assert_eq!(bridge.current_stage(), Stage::Connecting);
    assert_eq!(bridge.step(Event::Connected), Action::Acquire);
    assert_eq!(bridge.current_stage(), Stage::Acquiring);
}

#[test]
fn unreachable_port_ends_the_run_before_any_file_or_child() {
    let mut bridge = Bridge::new(request("bbs/DOOR32.SYS", "", "DOOR.EXE {fd}"));
    bridge.step(Event::Start);
    let diagnostic = String::from("Connection refused (os error 111)");
    assert_eq!(
        bridge.step(Event::ConnectFailed { diagnostic: diagnostic.clone() }),
        failing(Failure::Connection { diagnostic })
    );
    assert_eq!(bridge.current_stage(), Stage::Finished);
    for event in [
        Event::Connected,
        Event::Acquired { descriptor: 5 },
        Event::DropfileRead { contents: b"2\r\n1\r\n".to_vec() },
        Event::DropfileWritten,
        Event::ChildEnded { outcome: ExitOutcome::ExitedWithCode(0) },
    ] {
        assert_eq!(bridge.step(event), failing(Failure::OutOfTurn));
        assert_eq!(bridge.current_stage(), Stage::Finished);
    }
}

#[test]
fn without_a_dropfile_the_descriptor_goes_straight_to_the_child() {
    let mut bridge = Bridge::new(request("", "", "DOOR.EXE /D -N {fd}"));
    bridge.step(Event::Start);
    bridge.step(Event::Connected);
    assert_eq!(
        bridge.step(Event::Acquired { descriptor: 1288 }),
        launch("DOOR.EXE", &["/D", "-N", "1288"])
    );
    assert_eq!(bridge.current_stage(), Stage::Running { descriptor: 1288 });
}

#[test]
fn output_directory_alone_asks_for_no_dropfile() {
    let mut bridge = Bridge::new(request("", "out", "DOOR.EXE {fd}"));
    bridge.step(Event::Start);
    bridge.step(Event::Connected);
    assert_eq!(bridge.step(Event::Acquired { descriptor: 3 }), launch("DOOR.EXE", &["3"]));
}

#[test]
fn child_exit_code_is_relayed() {
    let mut bridge = Bridge::new(request("", "", "DOOR.EXE"));
    bridge.step(Event::Start);
    bridge.step(Event::Connected);
    bridge.step(Event::Acquired { descriptor: 4 });
    assert_eq!(
        bridge.step(Event::ChildEnded { outcome: ExitOutcome::ExitedWithCode(7) }),
        Action::Exit { code: 7, failure: None }
    );
    assert_eq!(bridge.current_stage(), Stage::Finished);
}

#[test]
fn child_success_is_relayed() {
    let mut bridge = Bridge::new(request("", "", "DOOR.EXE"));
    bridge.step(Event::Start);
    bridge.step(Event::Connected);
    bridge.step(Event::Acquired { descriptor: 4 });
    assert_eq!(
        bridge.step(Event::ChildEnded { outcome: ExitOutcome::ExitedWithCode(0) }),
        Action::Exit { code: 0, failure: None }
    );
}

#[test]
fn signal_ends_the_run_with_the_failure_code() {
    let mut bridge = Bridge::new(request("", "", "DOOR.EXE"));
    bridge.step(Event::Start);
    bridge.step(Event::Connected);
    bridge.step(Event::Acquired { descriptor: 4 });
    assert_eq!(
        bridge.step(Event::ChildEnded { outcome: ExitOutcome::TerminatedBySignal }),
        failing(Failure::SignalTermination)
    );
}

#[test]
fn spawn_failure_ends_the_run() {
    let mut bridge = Bridge::new(request("", "", "NOSUCH.EXE"));
    bridge.step(Event::Start);
    bridge.step(Event::Connected);
    bridge.step(Event::Acquired { descriptor: 4 });
    let diagnostic = String::from("No such file or directory (os error 2)");
    assert_eq!(
        bridge.step(Event::SpawnFailed { diagnostic: diagnostic.clone() }),
        failing(Failure::Spawn { diagnostic })
    );
}

#[test]
fn duplication_failure_ends_the_run() {
    let mut bridge = Bridge::new(request("DOOR32.SYS", "", "DOOR.EXE {fd}"));
    bridge.step(Event::Start);
    bridge.step(Event::Connected);
    let diagnostic = String::from("The handle is invalid. (os error 6)");
    assert_eq!(
        bridge.step(Event::AcquireFailed { diagnostic: diagnostic.clone() }),
        failing(Failure::Duplication { diagnostic })
    );
    assert_eq!(bridge.step(Event::DropfileWritten), failing(Failure::OutOfTurn));
}

#[test]
fn dropfile_is_read_rewritten_and_then_the_child_starts() {
    let mut bridge = Bridge::new(request("bbs/node1/door32.sys", "", "DOOR.EXE -N {fd}"));
    bridge.step(Event::Start);
    bridge.step(Event::Connected);
    assert_eq!(
        bridge.step(Event::Acquired { descriptor: 1288 }),
        Action::ReadDropfile { path: String::from("bbs/node1/door32.sys") }
    );
    assert_eq!(bridge.current_stage(), Stage::Reading { descriptor: 1288 });
    assert_eq!(
        bridge.step(Event::DropfileRead { contents: b"0\r\n0\r\n38400\r\nSysop \x91\r\n".to_vec() }),
        Action::WriteDropfile {
            directory: String::from("bbs/node1"),
            file_name: String::from("DOOR32.SYS"),
            contents: b"2\r\n1288\r\n38400\r\nSysop \x91\r\n".to_vec(),
        }
    );
    assert_eq!(bridge.current_stage(), Stage::Writing { descriptor: 1288 });
    assert_eq!(bridge.step(Event::DropfileWritten), launch("DOOR.EXE", &["-N", "1288"]));
    assert_eq!(bridge.current_stage(), Stage::Running { descriptor: 1288 });
    assert_eq!(
        bridge.step(Event::ChildEnded { outcome: ExitOutcome::ExitedWithCode(0) }),
        Action::Exit { code: 0, failure: None }
    );
}

#[test]
fn output_directory_takes_the_place_of_the_old_one() {
    let mut bridge = Bridge::new(request("bbs/DOOR32.SYS", "tmp/out", "DOOR.EXE"));
    bridge.step(Event::Start);
    bridge.step(Event::Connected);
    bridge.step(Event::Acquired { descriptor: 9 });
    assert_eq!(
        bridge.step(Event::DropfileRead { contents: Vec::new() }),
        Action::WriteDropfile {
            directory: String::from("tmp/out"),
            file_name: String::from("DOOR32.SYS"),
            contents: b"2\r\n9\r\n".to_vec(),
        }
    );
}

#[test]
fn handle_platform_writes_a_lower_case_name() {
    let mut asked = request("DOOR32.SYS", "out", "DOOR.EXE");
    asked.platform = Platform::HandleBased;
    let mut bridge = Bridge::new(asked);
    bridge.step(Event::Start);
    bridge.step(Event::Connected);
    bridge.step(Event::Acquired { descriptor: 9 });
    assert_eq!(
        bridge.step(Event::DropfileRead { contents: Vec::new() }),
        Action::WriteDropfile {
            directory: String::from("out"),
            file_name: String::from("door32.sys"),
            contents: b"2\r\n9\r\n".to_vec(),
        }
    );
}

#[test]
fn wrong_file_name_ends_the_run_before_reading() {
    let mut bridge = Bridge::new(request("bbs/DOOR.SYS", "", "DOOR.EXE"));
    bridge.step(Event::Start);
    bridge.step(Event::Connected);
    assert_eq!(
        bridge.step(Event::Acquired { descriptor: 9 }),
        failing(Failure::Dropfile { error: DropfileError::NameMismatch })
    );
    assert_eq!(bridge.current_stage(), Stage::Finished);
}

#[test]
fn path_without_file_name_ends_the_run_before_reading() {
    let mut bridge = Bridge::new(request("bbs/", "", "DOOR.EXE"));
    bridge.step(Event::Start);
    bridge.step(Event::Connected);
    assert_eq!(
        bridge.step(Event::Acquired { descriptor: 9 }),
        failing(Failure::Dropfile { error: DropfileError::NotAFile })
    );
}

#[test]
fn missing_directory_ends_the_run_before_the_child() {
    let mut bridge = Bridge::new(request("DOOR32.SYS", "nowhere", "DOOR.EXE"));
    bridge.step(Event::Start);
    bridge.step(Event::Connected);
    bridge.step(Event::Acquired { descriptor: 9 });
    bridge.step(Event::DropfileRead { contents: Vec::new() });
    assert_eq!(
        bridge.step(Event::NotADirectory),
        failing(Failure::Dropfile { error: DropfileError::NotADirectory })
    );
    assert_eq!(bridge.step(Event::DropfileWritten), failing(Failure::OutOfTurn));
}

#[test]
fn failed_read_or_write_ends_the_run() {
    let diagnostic = String::from("Permission denied (os error 13)");
    let mut reading = Bridge::new(request("DOOR32.SYS", "out", "DOOR.EXE"));
    reading.step(Event::Start);
    reading.step(Event::Connected);
    reading.step(Event::Acquired { descriptor: 9 });
    assert_eq!(
        reading.step(Event::IoFailed { diagnostic: diagnostic.clone() }),
        failing(Failure::Read { diagnostic: diagnostic.clone() })
    );
    let mut writing = Bridge::new(request("DOOR32.SYS", "out", "DOOR.EXE"));
    writing.step(Event::Start);
    writing.step(Event::Connected);
    writing.step(Event::Acquired { descriptor: 9 });
    writing.step(Event::DropfileRead { contents: Vec::new() });
    assert_eq!(
        writing.step(Event::IoFailed { diagnostic: diagnostic.clone() }),
        failing(Failure::Write { diagnostic })
    );
}

#[test]
fn event_out_of_turn_ends_the_run() {
    let mut bridge = Bridge::new(request("", "", "DOOR.EXE"));
    assert_eq!(bridge.step(Event::Connected), failing(Failure::OutOfTurn));
    assert_eq!(bridge.current_stage(), Stage::Finished);
    assert_eq!(bridge.step(Event::Start), failing(Failure::OutOfTurn));
}

#[test]
fn file_and_arguments_carry_the_same_value() {
    for descriptor in [0u64, 7, 1288, u64::MAX] {
        let mut bridge = Bridge::new(request("DOOR32.SYS", "out", "DOOR.EXE {fd}"));
        bridge.step(Event::Start);
        bridge.step(Event::Connected);
        bridge.step(Event::Acquired { descriptor });
        let written = bridge.step(Event::DropfileRead { contents: b"0\n0\nrest\n".to_vec() });
        let launched = bridge.step(Event::DropfileWritten);
        let digits = descriptor.to_string();
        match (written, launched) {
            (Action::WriteDropfile { contents, .. }, Action::Launch { arguments, .. }) => {
                let text = String::from_utf8(contents).unwrap();
                assert_eq!(text.lines().nth(1), Some(digits.as_str()));
                assert_eq!(arguments, vec![digits.clone()]);
            }
            other => panic!("unexpected answers: {:?}", other),
        }
    }
}

#[test]
fn messages_carry_the_diagnostic() {
    let asked = request("bbs/DOOR.SYS", "", "DOOR.EXE");
    let diagnostic = String::from("Connection refused (os error 111)");
    assert_eq!(
        Failure::Connection { diagnostic: diagnostic.clone() }.message(&asked),
        "Failed to connect: Connection refused (os error 111)"
    );
    assert_eq!(
        Failure::Duplication { diagnostic: diagnostic.clone() }.message(&asked),
        "Failed to duplicate handle: Connection refused (os error 111)"
    );
    assert_eq!(
        Failure::Read { diagnostic: diagnostic.clone() }.message(&asked),
        "Failed to read dropfile at bbs/DOOR.SYS: Connection refused (os error 111)"
    );
    assert_eq!(
        Failure::Write { diagnostic: diagnostic.clone() }.message(&asked),
        "Failed to write dropfile: Connection refused (os error 111)"
    );
    assert_eq!(
        Failure::Spawn { diagnostic }.message(&asked),
        "Execute failed: Connection refused (os error 111)"
    );
    assert_eq!(Failure::SignalTermination.message(&asked), "Process terminated by signal");
    assert_eq!(Failure::OutOfTurn.message(&asked), "Event out of turn");
}

#[test]
fn messages_name_the_file_and_the_directory() {
    let beside = request("bbs/DOOR.SYS", "", "DOOR.EXE");
    let elsewhere = request("bbs/DOOR32.SYS", "tmp/out", "DOOR.EXE");
    assert_eq!(
        Failure::Dropfile { error: DropfileError::NotAFile }.message(&beside),
        "Failed to read dropfile at bbs/DOOR.SYS: the path does not name a file"
    );
    assert_eq!(
        Failure::Dropfile { error: DropfileError::NameMismatch }.message(&beside),
        "Failed to read dropfile at bbs/DOOR.SYS: the file is not DOOR32.SYS"
    );
    assert_eq!(
        Failure::Dropfile { error: DropfileError::NotADirectory }.message(&beside),
        "Not a directory: bbs"
    );
    assert_eq!(
        Failure::Dropfile { error: DropfileError::NotADirectory }.message(&elsewhere),
        "Not a directory: tmp/out"
    );
    assert_eq!(
        Failure::Dropfile { error: DropfileError::Encoding { line: 3 } }.message(&beside),
        "Failed to convert to CP437: line 3"
    );
}
