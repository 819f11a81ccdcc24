use herdr_terminal::client::HerdrClient;
use herdr_terminal::raise::{
    focus_progress, raise_client_container, FocusPoll, FocusProgress, RaiseAction,
};

fn kitty_client(window: &str) -> HerdrClient {
    HerdrClient::from_pairs(&[
        ("KITTY_WINDOW_ID", window),
        ("KITTY_LISTEN_ON", "unix:/tmp/k"),
        ("KITTY_INSTALLATION_DIR", "/Applications/kitty.app/Contents/Resources/kitty"),
    ])
}

fn window_of(action: &RaiseAction) -> String {
    match action {
        RaiseAction::RunFocus(command) => command.args.last().unwrap().clone(),
        RaiseAction::Finish(outcome) => panic!("finished early: {outcome:?}"),
    }
}

#[test]
fn fails_without_an_adapter_for_the_bound_terminal() {
    match raise_client_container("dev.zed.Zed") {
        Err(error) => assert_eq!(error, "no terminal adapter for dev.zed.Zed"),
        Ok(_) => panic!("an adapter for zed"),
    }
}

#[test]
fn reports_the_client_listing_error() {
    let mut raise = raise_client_container("net.kovidgoyal.kitty").unwrap();
    match raise.clients_listed(Err("failed to list Herdr client sockets".to_string())) {
        RaiseAction::Finish(outcome) => {
            assert_eq!(outcome, Err("failed to list Herdr client sockets".to_string()))
        }
        RaiseAction::RunFocus(_) => panic!("ran a command"),
    }
}

#[test]
fn fails_without_a_controllable_client() {
    let mut raise = raise_client_container("net.kovidgoyal.kitty").unwrap();
    let clients = vec![HerdrClient::from_pairs(&[("TERM_PROGRAM", "iTerm.app")])];
    match raise.clients_listed(Ok(clients)) {
        RaiseAction::Finish(outcome) => assert_eq!(
            outcome,
            Err("no Herdr client with a controllable net.kovidgoyal.kitty container".to_string())
        ),
        RaiseAction::RunFocus(_) => panic!("ran a command"),
    }
}

#[test]
fn tries_clients_in_order_until_one_succeeds() {
    let mut raise = raise_client_container("net.kovidgoyal.kitty").unwrap();
    let clients = vec![
        kitty_client("1"),
        HerdrClient::from_pairs(&[("TERM_PROGRAM", "iTerm.app")]),
        kitty_client("2"),
        kitty_client("3"),
    ];
    let first = raise.clients_listed(Ok(clients));
    assert_eq!(window_of(&first), "id:1");
    let second = raise.focus_ran(Err("kitten failed: exit status: 1".to_string()));
    assert_eq!(window_of(&second), "id:2");
    match raise.focus_ran(Ok(())) {
        RaiseAction::Finish(outcome) => assert_eq!(outcome, Ok(())),
        RaiseAction::RunFocus(_) => panic!("ran after a success"),
    }
}

#[test]
fn fails_with_the_last_error_when_every_client_fails() {
    let mut raise = raise_client_container("net.kovidgoyal.kitty").unwrap();
    let first = raise.clients_listed(Ok(vec![kitty_client("1"), kitty_client("2")]));
    assert_eq!(window_of(&first), "id:1");
    let second = raise.focus_ran(Err("first error".to_string()));
    assert_eq!(window_of(&second), "id:2");
    match raise.focus_ran(Err("second error".to_string())) {
        RaiseAction::Finish(outcome) => assert_eq!(outcome, Err("second error".to_string())),
        RaiseAction::RunFocus(_) => panic!("ran a third command"),
    }
}

#[test]
fn decides_each_focus_command_step() {
    assert_eq!(
        focus_progress("true", FocusPoll::Exited { success: true, status: "exit status: 0".into() }),
        FocusProgress::Done(Ok(()))
    );
    assert_eq!(
        focus_progress("false", FocusPoll::Exited { success: false, status: "exit status: 1".into() }),
        FocusProgress::Done(Err("false failed: exit status: 1".to_string()))
    );
    assert_eq!(
        focus_progress(
            "/nonexistent/focus",
            FocusPoll::SpawnFailed("No such file or directory (os error 2)".into())
        ),
        FocusProgress::Done(Err(
            "failed to run /nonexistent/focus: No such file or directory (os error 2)".to_string()
        ))
    );
    assert_eq!(
        focus_progress("sleep", FocusPoll::Running { before_deadline: true }),
        FocusProgress::Wait
    );
    assert_eq!(
        focus_progress("sleep", FocusPoll::Running { before_deadline: false }),
        FocusProgress::KillAndFail("sleep timed out".to_string())
    );
    assert_eq!(
        focus_progress("x", FocusPoll::WaitFailed("interrupted".into())),
        FocusProgress::Done(Err("failed to wait for x: interrupted".to_string()))
    );
}
