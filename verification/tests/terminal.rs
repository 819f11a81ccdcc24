use herdr_terminal::client::HerdrClient;
use herdr_terminal::iterm2::Iterm2;
use herdr_terminal::kitty::Kitty;
use herdr_terminal::terminal::{adapter_for, adapters, FocusCommand, TerminalAdapter};

const INSTALL: (&str, &str) = (
    "KITTY_INSTALLATION_DIR",
    "/Applications/kitty.app/Contents/Resources/kitty",
);

fn client(pairs: &[(&str, &str)]) -> HerdrClient {
    HerdrClient {
        environment: pairs
            .iter()
            .map(|(key, value)| (key.to_string(), value.to_string()))
            .collect(),
    }
}

fn command(program: &str, args: &[&str]) -> FocusCommand {
    FocusCommand::new(
        program.to_string(),
        args.iter().map(|arg| arg.to_string()).collect(),
    )
}

#[test]
fn finds_adapters_by_bundle_id() {
    assert_eq!(
        adapter_for("net.kovidgoyal.kitty").map(|adapter| adapter.bundle_id()),
        Some("net.kovidgoyal.kitty")
    );
    assert!(adapter_for("dev.zed.Zed").is_none());
}

#[test]
fn adapter_bundle_ids_are_unique() {
    let mut ids: Vec<_> = adapters().iter().map(|adapter| adapter.bundle_id()).collect();
    ids.sort_unstable();
    ids.dedup();
    assert_eq!(ids.len(), adapters().len());
}

#[test]
fn only_registered_adapters_are_found() {
    assert_eq!(adapters(), vec![TerminalAdapter::Kitty]);
    assert_eq!(TerminalAdapter::Iterm2.bundle_id(), "com.googlecode.iterm2");
    assert!(adapter_for("com.googlecode.iterm2").is_none());
    assert!(adapter_for("").is_none());
}

#[test]
fn focuses_the_client_kitty_window() {
    let command_found = Kitty.focus_command(&client(&[
        ("KITTY_WINDOW_ID", "3"),
        ("KITTY_LISTEN_ON", "unix:/tmp/my kitty-42"),
        INSTALL,
    ]));
    assert_eq!(
        command_found,
        Some(command(
            "/Applications/kitty.app/Contents/MacOS/kitten",
            &[
                "@",
                "--to",
                "unix:/tmp/my kitty-42",
                "focus-window",
                "--match",
                "id:3"
            ],
        ))
    );
}

#[test]
fn requires_remote_control_and_a_numeric_window_id() {
    let listen = ("KITTY_LISTEN_ON", "unix:/tmp/kitty");
    assert_eq!(
        Kitty.focus_command(&client(&[("KITTY_WINDOW_ID", "3"), INSTALL])),
        None
    );
    assert_eq!(
        Kitty.focus_command(&client(&[("KITTY_WINDOW_ID", "3; rm"), listen, INSTALL])),
        None
    );
    assert_eq!(Kitty.focus_command(&client(&[listen, INSTALL])), None);
    assert_eq!(
        Kitty.focus_command(&client(&[("KITTY_WINDOW_ID", "3"), listen])),
        None
    );
}

#[test]
fn kitty_adapter_dispatches_to_kitty() {
    let c = client(&[
        ("KITTY_WINDOW_ID", "12"),
        ("KITTY_LISTEN_ON", "unix:/tmp/k"),
        ("KITTY_INSTALLATION_DIR", "/opt/kitty.app/Contents/Resources/kitty"),
    ]);
    assert_eq!(TerminalAdapter::Kitty.focus_command(&c), Kitty.focus_command(&c));
    assert_eq!(
        TerminalAdapter::Kitty.focus_command(&c).map(|command| command.args),
        Some(vec![
            "@".to_string(),
            "--to".to_string(),
            "unix:/tmp/k".to_string(),
            "focus-window".to_string(),
            "--match".to_string(),
            "id:12".to_string(),
        ])
    );
    let shallow = client(&[
        ("KITTY_WINDOW_ID", "12"),
        ("KITTY_LISTEN_ON", "unix:/tmp/k"),
        ("KITTY_INSTALLATION_DIR", "/"),
    ]);
    assert_eq!(Kitty.focus_command(&shallow), None);
}

fn iterm_client(session_id: Option<&str>) -> HerdrClient {
    iterm_client_with(session_id, &[])
}

fn iterm_client_with(session_id: Option<&str>, pairs: &[(&str, &str)]) -> HerdrClient {
    let mut pairs = pairs.to_vec();
    pairs.extend(session_id.map(|id| ("ITERM_SESSION_ID", id)));
    HerdrClient::from_pairs(&pairs)
}

#[test]
fn reveals_the_client_iterm2_session() {
    assert_eq!(
        Iterm2.focus_command(&iterm_client(Some("w0t2p1:1234-ABCD"))),
        Some(command(
            "/usr/bin/open",
            &["iterm2:reveal?sessionid=w0t2p1:1234-ABCD"]
        ))
    );
}

#[test]
fn requires_a_safe_session_id() {
    assert_eq!(Iterm2.focus_command(&iterm_client(None)), None);
    assert_eq!(Iterm2.focus_command(&iterm_client(Some(""))), None);
    assert_eq!(
        Iterm2.focus_command(&iterm_client(Some("w0t0p0:id&unexpected=value"))),
        None
    );
}

#[test]
fn skips_clients_of_other_terminals_with_an_inherited_session_id() {
    let session = Some("w0t0p0:1234-ABCD");
    assert!(Iterm2
        .focus_command(&iterm_client_with(session, &[("TERM_PROGRAM", "iTerm.app")]))
        .is_some());
    assert_eq!(
        Iterm2.focus_command(&iterm_client_with(session, &[("KITTY_WINDOW_ID", "3")])),
        None
    );
    assert_eq!(
        Iterm2.focus_command(&iterm_client_with(session, &[("TERM_PROGRAM", "Apple_Terminal")])),
        None
    );
}

#[test]
fn kitty_and_iterm2_never_both_claim_a_client() {
    let both = client(&[
        ("KITTY_WINDOW_ID", "3"),
        ("KITTY_LISTEN_ON", "unix:/tmp/k"),
        INSTALL,
        ("ITERM_SESSION_ID", "w0t0p0:1234-ABCD"),
    ]);
    assert!(Kitty.focus_command(&both).is_some());
    assert!(Iterm2.focus_command(&both).is_none());
}
