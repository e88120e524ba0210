use markdown_composer::{split_command, program_and_args, Command, Failure, Next, Session};

fn packed(method: &str, params: &[&str]) -> Vec<u8> {
    rmp_serde::to_vec(&(2u32, method, params.to_vec())).unwrap()
}

#[test]
fn basic_send() {
    let mut session = Session::new(None);
    session.receive(&packed("send_data", &["Hello, world!"]));
    assert_eq!(
        session.next(),
        Ok(Next::Perform(Command::Render("Hello, world!".to_string())))
    );
    assert_eq!(session.next(), Ok(Next::ReadMore));
}

#[test]
fn split_frame_across_reads() {
    let bytes = packed("send_data", &["Hello, world!"]);
    let mut session = Session::new(None);
    session.receive(&bytes[..5]);
    assert_eq!(session.next(), Ok(Next::ReadMore));
    session.receive(&bytes[5..]);
    assert_eq!(
        session.next(),
        Ok(Next::Perform(Command::Render("Hello, world!".to_string())))
    );
    assert_eq!(session.next(), Ok(Next::ReadMore));
    assert_eq!(session.finish(), Ok(()));
}

#[test]
fn chdir_then_send() {
    let mut bytes = packed("chdir", &["/tmp/docs"]);
    bytes.extend(packed("send_data", &["# Title"]));
    let mut session = Session::new(None);
    session.receive(&bytes);
    assert_eq!(
        session.next(),
        Ok(Next::Perform(Command::SetStaticRoot("/tmp/docs".to_string())))
    );
    assert_eq!(
        session.next(),
        Ok(Next::Perform(Command::Render("# Title".to_string())))
    );
    assert_eq!(session.next(), Ok(Next::ReadMore));
}

#[test]
fn clean_shutdown() {
    let mut session = Session::new(None);
    assert_eq!(session.next(), Ok(Next::ReadMore));
    assert_eq!(session.finish(), Ok(()));
}

#[test]
fn hang_up_mid_frame_is_truncated() {
    let bytes = packed("send_data", &["Hello, world!"]);
    let mut session = Session::new(None);
    session.receive(&bytes[..bytes.len() - 1]);
    assert_eq!(session.next(), Ok(Next::ReadMore));
    assert_eq!(session.finish(), Err(Failure::Truncated));
}

#[test]
fn unknown_method_fails_without_an_operation() {
    let mut bytes = packed("delete_everything", &["/"]);
    bytes.extend(packed("send_data", &["after"]));
    let mut session = Session::new(None);
    session.receive(&bytes);
    let unknown = Failure::UnknownCommand("delete_everything".to_string());
    assert_eq!(session.next(), Err(unknown.clone()));
    assert_eq!(session.next(), Err(unknown.clone()));
    assert_eq!(session.finish(), Err(unknown));
}

#[test]
fn method_names_are_case_sensitive() {
    let mut session = Session::new(None);
    session.receive(&packed("Send_Data", &["x"]));
    assert_eq!(
        session.next(),
        Err(Failure::UnknownCommand("Send_Data".to_string()))
    );
}

#[test]
fn arity_mismatch_fails() {
    let mut session = Session::new(None);
    session.receive(&packed("send_data", &[]));
    assert_eq!(
        session.next(),
        Err(Failure::ArityMismatch("send_data".to_string()))
    );
    let mut session = Session::new(None);
    session.receive(&packed("chdir", &["a", "b"]));
    assert_eq!(session.next(), Err(Failure::ArityMismatch("chdir".to_string())));
    let mut session = Session::new(None);
    session.receive(&packed("open_browser", &["x"]));
    assert_eq!(
        session.next(),
        Err(Failure::ArityMismatch("open_browser".to_string()))
    );
}

#[test]
fn malformed_stream_fails_and_stays_failed() {
    let mut session = Session::new(None);
    session.receive(&[0x93, 0x05]);
    assert_eq!(session.next(), Err(Failure::Malformed));
    session.receive(&packed("send_data", &["x"]));
    assert_eq!(session.next(), Err(Failure::Malformed));
    assert_eq!(session.finish(), Err(Failure::Malformed));
}

#[test]
fn open_browser_uses_the_configured_browser() {
    let mut session = Session::new(Some("firefox".to_string()));
    session.receive(&packed("open_browser", &[]));
    assert_eq!(
        session.next(),
        Ok(Next::Perform(Command::OpenBrowserWith("firefox".to_string())))
    );
    let mut session = Session::new(None);
    session.receive(&packed("open_browser", &[]));
    assert_eq!(session.next(), Ok(Next::Perform(Command::OpenBrowser)));
}

#[test]
fn split_command_words() {
    assert_eq!(
        split_command("firefox --new-window"),
        Some(("firefox".to_string(), vec!["--new-window".to_string()]))
    );
    assert_eq!(
        split_command("'my browser' -a \"b c\""),
        Some((
            "my browser".to_string(),
            vec!["-a".to_string(), "b c".to_string()]
        ))
    );
    assert_eq!(split_command("   "), None);
    assert_eq!(split_command(""), None);
}

#[test]
fn program_and_args_of_words() {
    assert_eq!(program_and_args(vec![]), None);
    assert_eq!(
        program_and_args(vec!["a".to_string(), "b".to_string()]),
        Some(("a".to_string(), vec!["b".to_string()]))
    );
}
