//! kitty: a Herdr client's container is the kitty window in `KITTY_WINDOW_ID`.
//!
//! `kitten @ focus-window` switches to that window's tab and brings its OS
//! window forward. It needs kitty remote control over a socket
//! (`allow_remote_control` and `listen_on` in kitty.conf), which kitty exposes
//! to the client as `KITTY_LISTEN_ON`.
use vstd::prelude::*;

use crate::client::{env_var, EnvView, HerdrClient};
use crate::paths::{join, parent, path_join, path_parent};
use crate::terminal::{opt_command, CommandView, FocusCommand};
use crate::text::{all_digits, only_digits};

verus! {

/// The kitty focus command for a client with environment `env`: `kitten` of
/// the installation in `KITTY_INSTALLATION_DIR` (which is
/// `kitty.app/Contents/Resources/kitty`; the kitten binary lives in
/// `kitty.app/Contents/MacOS`), told over `KITTY_LISTEN_ON` to focus the
/// window with the all-digit id `KITTY_WINDOW_ID`.
pub open spec fn kitty_focus(env: EnvView) -> Option<CommandView> {
    match (
        env_var(env, "KITTY_WINDOW_ID"@),
        env_var(env, "KITTY_LISTEN_ON"@),
        env_var(env, "KITTY_INSTALLATION_DIR"@),
    ) {
        (Some(window_id), Some(listen_on), Some(dir)) => if !all_digits(window_id) {
            None
        } else {
            match path_parent(dir) {
                Some(contents) => match path_parent(contents) {
                    Some(app) => Some(
                        (
                            path_join(app, "MacOS/kitten"@),
                            seq![
                                "@"@,
                                "--to"@,
                                listen_on,
                                "focus-window"@,
                                "--match"@,
                                "id:"@ + window_id,
                            ],
                        ),
                    ),
                    None => None,
                },
                None => None,
            }
        },
        _ => None,
    }
}

pub struct Kitty;

impl Kitty {
    pub fn bundle_id(&self) -> (id: &'static str)
        ensures
            id@ == "net.kovidgoyal.kitty"@,
    {
        "net.kovidgoyal.kitty"
    }

    pub fn focus_command(&self, client: &HerdrClient) -> (command: Option<FocusCommand>)
        ensures
            opt_command(command) == kitty_focus(client@),
    {
        let window_id = match client.env("KITTY_WINDOW_ID") {
            Some(id) => id,
            None => return None,
        };
        if !only_digits(window_id) {
            return None;
        }
        let listen_on = match client.env("KITTY_LISTEN_ON") {
            Some(listen_on) => listen_on,
            None => return None,
        };
        let dir = match client.env("KITTY_INSTALLATION_DIR") {
            Some(dir) => dir,
            None => return None,
        };
        let contents = match parent(dir) {
            Some(contents) => contents,
            None => return None,
        };
        let app = match parent(contents.as_str()) {
            Some(app) => app,
            None => return None,
        };
        let kitten = join(app.as_str(), "MacOS/kitten");
        let args = vec![
            "@".to_owned(),
            "--to".to_owned(),
            listen_on.to_owned(),
            "focus-window".to_owned(),
            "--match".to_owned(),
            "id:".to_owned().concat(window_id),
        ];
        let command = FocusCommand::new(kitten, args);
        assert(command@.1 =~= seq![
            "@"@,
            "--to"@,
            listen_on@,
            "focus-window"@,
            "--match"@,
            "id:"@ + window_id@,
        ]);
        Some(command)
    }
}

/// A client gets a kitty command exactly when its window id is made of the
/// digits 0-9 only, it has a remote-control socket, and its installation
/// directory has two parents. The command runs `MacOS/kitten` beside those
/// parents and focuses, over that socket, the window `id:` followed by the
/// window id.
pub proof fn lemma_kitty_command(env: EnvView)
    ensures
        kitty_focus(env) is Some <==> {
            &&& env_var(env, "KITTY_WINDOW_ID"@) matches Some(id)
            &&& forall|i: int| 0 <= i < id.len() ==> '0' <= #[trigger] id[i] && id[i] <= '9'
            &&& env_var(env, "KITTY_LISTEN_ON"@) is Some
            &&& env_var(env, "KITTY_INSTALLATION_DIR"@) matches Some(dir)
            &&& path_parent(dir) matches Some(contents)
            &&& path_parent(contents) is Some
        },
        kitty_focus(env) matches Some(command) ==> {
            let id = env_var(env, "KITTY_WINDOW_ID"@)->0;
            let listen_on = env_var(env, "KITTY_LISTEN_ON"@)->0;
            let app = path_parent(path_parent(env_var(env, "KITTY_INSTALLATION_DIR"@)->0)->0)->0;
            &&& command.0 == path_join(app, "MacOS/kitten"@)
            &&& command.1.len() == 6
            &&& command.1[0] == "@"@
            &&& command.1[1] == "--to"@
            &&& command.1[2] == listen_on
            &&& command.1[3] == "focus-window"@
            &&& command.1[4] == "--match"@
            &&& command.1[5] == "id:"@ + id
        },
{
    if let Some(id) = env_var(env, "KITTY_WINDOW_ID"@) {
        assert(all_digits(id) <==> forall|i: int|
            0 <= i < id.len() ==> '0' <= #[trigger] id[i] && id[i] <= '9') by {
            if all_digits(id) {
                assert forall|i: int| 0 <= i < id.len() implies '0' <= #[trigger] id[i] && id[i]
                    <= '9' by {
                    assert(crate::text::is_digit(id[i]));
                }
            }
        }
    }
}
} // verus!
