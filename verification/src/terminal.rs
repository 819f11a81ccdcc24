//! The terminals that can raise the container of a Herdr client, and the
//! commands that do it.
//!
//! Each supported terminal declares its bundle identifier and how a client
//! maps to the command that focuses its container; the registry lists those
//! that are in use.
use vstd::prelude::*;

use crate::client::{EnvView, HerdrClient};
use crate::iterm2::{iterm2_focus, Iterm2};
use crate::kitty::{kitty_focus, Kitty};

verus! {

/// A command and its arguments, as characters.
pub type CommandView = (Seq<char>, Seq<Seq<char>>);

/// A command an adapter asks the core to run.
#[derive(Debug, PartialEq, Eq)]
pub struct FocusCommand {
    pub program: String,
    pub args: Vec<String>,
}

pub open spec fn strings_view(v: Seq<String>) -> Seq<Seq<char>> {
    v.map_values(|a: String| a@)
}

impl View for FocusCommand {
    type V = CommandView;

    open spec fn view(&self) -> CommandView {
        (self.program@, strings_view(self.args@))
    }
}

/// The characters of an optional command.
pub open spec fn opt_command(o: Option<FocusCommand>) -> Option<CommandView> {
    match o {
        Some(c) => Some(c@),
        None => None,
    }
}

impl FocusCommand {
    pub fn new(program: String, args: Vec<String>) -> (command: Self)
        ensures
            command.program == program,
            command.args == args,
    {
        FocusCommand { program, args }
    }

    /// A command with the same program and arguments.
    pub fn duplicate(&self) -> (copy: Self)
        ensures
            copy@ == self@,
    {
        let mut args: Vec<String> = Vec::new();
        let mut i: usize = 0;
        while i < self.args.len()
            invariant
                i <= self.args@.len(),
                args@.len() == i,
                forall|j: int| 0 <= j < i ==> (#[trigger] args@[j])@ == self.args@[j]@,
            decreases self.args.len() - i,
        {
            args.push(self.args[i].clone());
            i = i + 1;
        }
        assert(strings_view(args@) =~= strings_view(self.args@));
        FocusCommand { program: self.program.clone(), args }
    }
}

/// A terminal that can focus the container running a given Herdr client.
#[derive(Clone, Copy, Debug, PartialEq, Eq)]
pub enum TerminalAdapter {
    Kitty,
    Iterm2,
}

/// Bundle identifier of the terminal app, as stored in workspace bindings.
pub open spec fn adapter_bundle_id(adapter: TerminalAdapter) -> Seq<char> {
    match adapter {
        TerminalAdapter::Kitty => "net.kovidgoyal.kitty"@,
        TerminalAdapter::Iterm2 => "com.googlecode.iterm2"@,
    }
}

/// The command that focuses the container of a client with environment
/// `env`, if the client runs in the terminal of `adapter`.
pub open spec fn adapter_focus(adapter: TerminalAdapter, env: EnvView) -> Option<CommandView> {
    match adapter {
        TerminalAdapter::Kitty => kitty_focus(env),
        TerminalAdapter::Iterm2 => iterm2_focus(env),
    }
}

/// The adapters in use.
pub open spec fn registered_adapters() -> Seq<TerminalAdapter> {
    seq![TerminalAdapter::Kitty]
}

/// The first adapter of `adapters` whose bundle identifier is `bundle_id`.
pub open spec fn first_adapter(adapters: Seq<TerminalAdapter>, bundle_id: Seq<char>) -> Option<
    TerminalAdapter,
>
    decreases adapters.len(),
{
    if adapters.len() == 0 {
        None
    } else if adapter_bundle_id(adapters[0]) == bundle_id {
        Some(adapters[0])
    } else {
        first_adapter(adapters.drop_first(), bundle_id)
    }
}

impl TerminalAdapter {
    /// Bundle identifier of the terminal app, as stored in workspace bindings.
    pub fn bundle_id(&self) -> (id: &'static str)
        ensures
            id@ == adapter_bundle_id(*self),
    {
        match self {
            TerminalAdapter::Kitty => Kitty.bundle_id(),
            TerminalAdapter::Iterm2 => Iterm2.bundle_id(),
        }
    }

    /// The command that focuses the deepest container running `client` (for
    /// example a kitty window or an iTerm2 session), including its tab and OS
    /// window. `None` when the client does not run in this terminal or the
    /// terminal cannot be controlled.
    pub fn focus_command(&self, client: &HerdrClient) -> (command: Option<FocusCommand>)
        ensures
            opt_command(command) == adapter_focus(*self, client@),
    {
        match self {
            TerminalAdapter::Kitty => Kitty.focus_command(client),
            TerminalAdapter::Iterm2 => Iterm2.focus_command(client),
        }
    }
}

/// The adapters in use, in the order they are tried.
pub fn adapters() -> (list: Vec<TerminalAdapter>)
    ensures
        list@ == registered_adapters(),
{
    let list = vec![TerminalAdapter::Kitty];
    assert(list@ =~= registered_adapters());
    list
}

/// The adapter in use for the terminal app with bundle identifier
/// `bundle_id`.
pub fn adapter_for(bundle_id: &str) -> (adapter: Option<TerminalAdapter>)
    ensures
        adapter == first_adapter(registered_adapters(), bundle_id@),
{
    let list = adapters();
    let wanted: String = bundle_id.to_owned();
    let mut i: usize = 0;
    assert(list@.skip(0) =~= list@);
    while i < list.len()
        invariant
            i <= list@.len(),
            list@ == registered_adapters(),
            wanted@ == bundle_id@,
            first_adapter(list@, bundle_id@) == first_adapter(list@.skip(i as int), bundle_id@),
        decreases list.len() - i,
    {
        let candidate = list[i];
        let id: String = candidate.bundle_id().to_owned();
        assert(list@.skip(i as int)[0] == candidate);
        assert(list@.skip(i as int).drop_first() =~= list@.skip(i + 1));
        if id == wanted {
            return Some(candidate);
        }
        i = i + 1;
    }
    None
}

/// No two adapters in use share a bundle identifier, so a workspace binding
/// names at most one of them.
pub proof fn lemma_adapter_bundle_ids_unique()
    ensures
        forall|i: int, j: int|
            0 <= i < j < registered_adapters().len() ==> adapter_bundle_id(
                registered_adapters()[i],
            ) != adapter_bundle_id(registered_adapters()[j]),
{
}

/// The adapter found for a bundle identifier is in use and has that
/// identifier; none is found only when no adapter in use has it.
pub proof fn lemma_adapter_for_matches(bundle_id: Seq<char>)
    ensures
        match first_adapter(registered_adapters(), bundle_id) {
            Some(adapter) => registered_adapters().contains(adapter) && adapter_bundle_id(adapter)
                == bundle_id,
            None => forall|i: int|
                0 <= i < registered_adapters().len() ==> adapter_bundle_id(
                    #[trigger] registered_adapters()[i],
                ) != bundle_id,
        },
{
    let list = registered_adapters();
    assert(list[0] == TerminalAdapter::Kitty);
    assert(list.drop_first() =~= Seq::<TerminalAdapter>::empty());
    assert(list.contains(list[0]));
    reveal_with_fuel(first_adapter, 2);
}

/// kitty and iTerm2 never both claim a client: a client with a kitty window
/// gets no iTerm2 command, whatever iTerm2 session id it inherited.
pub proof fn lemma_kitty_and_iterm2_exclusive(env: EnvView)
    ensures
        !(kitty_focus(env) is Some && iterm2_focus(env) is Some),
{
}

} // verus!
