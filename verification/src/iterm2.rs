//! iTerm2: a Herdr client's container is the session in `ITERM_SESSION_ID`.
//!
//! iTerm2's reveal URL selects that session together with its tab and OS
//! window. It is handled by iTerm2 itself and needs no Python runtime or
//! scripting setup.
use vstd::prelude::*;

use crate::client::{env_var, EnvView, HerdrClient};
use crate::terminal::{opt_command, CommandView, FocusCommand};
use crate::text::{only_id_chars, only_id_chars_in};

verus! {

/// The iTerm2 focus command for a client with environment `env`: `open` on
/// the reveal URL of the session `ITERM_SESSION_ID`, whose characters are
/// ASCII letters and digits, `:` and `-`.
///
/// `open` succeeds once iTerm2 receives the URL, whether or not the session
/// still exists, so a stale session id would stop the core from trying other
/// clients. Clients that belong to another terminal (kitty's
/// `KITTY_WINDOW_ID`, or a `TERM_PROGRAM` other than `iTerm.app`) but
/// inherited `ITERM_SESSION_ID` from a shell they were started in get none.
pub open spec fn iterm2_focus(env: EnvView) -> Option<CommandView> {
    if env_var(env, "KITTY_WINDOW_ID"@) is Some || (env_var(env, "TERM_PROGRAM"@) matches Some(
        program,
    ) && program != "iTerm.app"@) {
        None
    } else {
        match env_var(env, "ITERM_SESSION_ID"@) {
            Some(session_id) => if only_id_chars(session_id) {
                Some(("/usr/bin/open"@, seq!["iterm2:reveal?sessionid="@ + session_id]))
            } else {
                None
            },
            None => None,
        }
    }
}

pub struct Iterm2;

impl Iterm2 {
    pub fn bundle_id(&self) -> (id: &'static str)
        ensures
            id@ == "com.googlecode.iterm2"@,
    {
        "com.googlecode.iterm2"
    }

    pub fn focus_command(&self, client: &HerdrClient) -> (command: Option<FocusCommand>)
        ensures
            opt_command(command) == iterm2_focus(client@),
    {
        if client.env("KITTY_WINDOW_ID").is_some() {
            return None;
        }
        if let Some(program) = client.env("TERM_PROGRAM") {
            let expected: String = "iTerm.app".to_owned();
            if program.to_owned() != expected {
                return None;
            }
        }
        let session_id = match client.env("ITERM_SESSION_ID") {
            Some(session_id) => session_id,
            None => return None,
        };
        if !only_id_chars_in(session_id) {
            return None;
        }
        let url = "iterm2:reveal?sessionid=".to_owned().concat(session_id);
        let command = FocusCommand::new("/usr/bin/open".to_owned(), vec![url]);
        assert(command@.1 =~= seq!["iterm2:reveal?sessionid="@ + session_id@]);
        Some(command)
    }
}

/// A client gets an iTerm2 command exactly when it has no kitty window, its
/// `TERM_PROGRAM` is unset or `iTerm.app`, and its session id is made of
/// ASCII letters, digits, `:` and `-` only; the command opens the reveal URL
/// of that session.
pub proof fn lemma_iterm2_command(env: EnvView)
    ensures
        iterm2_focus(env) is Some <==> {
            &&& env_var(env, "KITTY_WINDOW_ID"@) is None
            &&& (env_var(env, "TERM_PROGRAM"@) is None || env_var(env, "TERM_PROGRAM"@) == Some(
                "iTerm.app"@,
            ))
            &&& env_var(env, "ITERM_SESSION_ID"@) matches Some(id)
            &&& forall|i: int|
                0 <= i < id.len() ==> {
                    let c = #[trigger] id[i];
                    ('0' <= c && c <= '9') || ('a' <= c && c <= 'z') || ('A' <= c && c <= 'Z')
                        || c == ':' || c == '-'
                }
        },
        iterm2_focus(env) matches Some(command) ==> command == (
            "/usr/bin/open"@,
            seq!["iterm2:reveal?sessionid="@ + env_var(env, "ITERM_SESSION_ID"@)->0],
        ),
{
    if let Some(id) = env_var(env, "ITERM_SESSION_ID"@) {
        if only_id_chars(id) {
            assert forall|i: int| 0 <= i < id.len() implies {
                let c = #[trigger] id[i];
                ('0' <= c && c <= '9') || ('a' <= c && c <= 'z') || ('A' <= c && c <= 'Z') || c
                    == ':' || c == '-'
            } by {
                assert(crate::text::is_ascii_alphanumeric(id[i]) || id[i] == ':' || id[i] == '-');
            }
        }
    }
}
} // verus!
