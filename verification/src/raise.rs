//! Raises the terminal container that shows Herdr before a notification
//! click activates the bound terminal.
//!
//! Every Herdr client attached to a session mirrors the same focused pane, so
//! any client's terminal container shows the target once Herdr focuses it.
//! Selecting a client's container first makes the terminal bring that one
//! forward. The decisions are made here, step by step; the caller lists the
//! clients and runs the commands, and hands back what came of it.
use vstd::prelude::*;

use crate::client::{EnvView, HerdrClient};
use crate::terminal::{
    adapter_focus, adapter_for, first_adapter, registered_adapters, CommandView, FocusCommand,
    TerminalAdapter,
};

verus! {

/// The focus commands of the clients with environments `clients`, in the
/// clients' order, leaving out clients the adapter cannot focus.
pub open spec fn focus_commands(adapter: TerminalAdapter, clients: Seq<EnvView>) -> Seq<
    CommandView,
>
    decreases clients.len(),
{
    if clients.len() == 0 {
        Seq::empty()
    } else {
        let rest = focus_commands(adapter, clients.drop_last());
        match adapter_focus(adapter, clients.last()) {
            Some(command) => rest.push(command),
            None => rest,
        }
    }
}

/// The environments of `clients`.
pub open spec fn client_views(clients: Seq<HerdrClient>) -> Seq<EnvView> {
    clients.map_values(|c: HerdrClient| c@)
}

/// What comes of a running focus command: the next command to run, or the
/// end of the raise.
pub enum RaiseState {
    /// The command with this index is to run.
    Running(int),
    /// The raise ends with this outcome.
    Done(Result<(), Seq<char>>),
}

/// The characters of an outcome.
pub open spec fn outcome_view(outcome: Result<(), String>) -> Result<(), Seq<char>> {
    match outcome {
        Ok(()) => Ok(()),
        Err(error) => Err(error@),
    }
}

/// After the command with index `next` of `count` commands ran with
/// `outcome`: a success ends the raise; after a failure the next command
/// runs, and when none is left the raise fails with that failure.
pub open spec fn after_focus(next: int, count: int, outcome: Result<(), Seq<char>>) -> RaiseState {
    match outcome {
        Ok(()) => RaiseState::Done(Ok(())),
        Err(error) => if next + 1 < count {
            RaiseState::Running(next + 1)
        } else {
            RaiseState::Done(Err(error))
        },
    }
}

/// Where a raise with `count` commands stands once the commands from index
/// `next` on ran with `outcomes`, one after the other.
pub open spec fn after_focuses(next: int, count: int, outcomes: Seq<Result<(), Seq<char>>>) -> RaiseState
    decreases outcomes.len(),
{
    if outcomes.len() == 0 {
        RaiseState::Running(next)
    } else {
        match after_focus(next, count, outcomes[0]) {
            RaiseState::Running(n) => after_focuses(n, count, outcomes.drop_first()),
            RaiseState::Done(outcome) => RaiseState::Done(outcome),
        }
    }
}

/// Each client the adapter can focus gives exactly one command, in the
/// clients' order, and a client it cannot focus gives none.
pub proof fn lemma_focus_commands_one_per_client(
    adapter: TerminalAdapter,
    clients: Seq<EnvView>,
    client: EnvView,
)
    ensures
        focus_commands(adapter, Seq::empty()) == Seq::<CommandView>::empty(),
        focus_commands(adapter, clients.push(client)) == match adapter_focus(adapter, client) {
            Some(command) => focus_commands(adapter, clients).push(command),
            None => focus_commands(adapter, clients),
        },
{
    assert(clients.push(client).drop_last() =~= clients);
}

/// There are as many commands as clients the adapter can focus, and each
/// command is that of one of the clients.
pub proof fn lemma_focus_commands_count(adapter: TerminalAdapter, clients: Seq<EnvView>)
    ensures
        focus_commands(adapter, clients).len() == clients.filter(
            |c: EnvView| adapter_focus(adapter, c) is Some,
        ).len(),
        forall|k: int|
            0 <= k < focus_commands(adapter, clients).len() ==> exists|i: int|
                0 <= i < clients.len() && adapter_focus(adapter, clients[i]) == Some(
                    #[trigger] focus_commands(adapter, clients)[k],
                ),
    decreases clients.len(),
{
    reveal_with_fuel(Seq::filter, 1);
    if clients.len() > 0 {
        let rest = clients.drop_last();
        lemma_focus_commands_count(adapter, rest);
        let cmds = focus_commands(adapter, clients);
        let before = focus_commands(adapter, rest);
        assert forall|k: int| 0 <= k < cmds.len() implies exists|i: int|
            0 <= i < clients.len() && adapter_focus(adapter, clients[i]) == Some(
                #[trigger] cmds[k],
            ) by {
            if k < before.len() {
                assert(cmds[k] == before[k]);
                let i = choose|i: int|
                    0 <= i < rest.len() && adapter_focus(adapter, rest[i]) == Some(
                        #[trigger] before[k],
                    );
                assert(clients[i] == rest[i]);
            } else {
                assert(adapter_focus(adapter, clients[clients.len() - 1]) == Some(cmds[k]));
            }
        }
    }
}

/// Whether one of `outcomes` is a success.
pub open spec fn some_success(outcomes: Seq<Result<(), Seq<char>>>) -> bool {
    exists|i: int| 0 <= i < outcomes.len() && outcomes[i] is Ok
}

proof fn lemma_after_focuses_from(next: int, count: int, outcomes: Seq<Result<(), Seq<char>>>)
    requires
        0 <= next,
        next + outcomes.len() == count,
        outcomes.len() >= 1,
    ensures
        after_focuses(next, count, outcomes) == (if some_success(outcomes) {
            RaiseState::Done(Ok(()))
        } else {
            RaiseState::Done(outcomes.last())
        }),
    decreases outcomes.len(),
{
    let rest = outcomes.drop_first();
    if outcomes[0] is Ok {
        assert(some_success(outcomes));
    } else if outcomes.len() == 1 {
        assert(!some_success(outcomes));
    } else {
        lemma_after_focuses_from(next + 1, count, rest);
        if some_success(rest) {
            let i = choose|i: int| 0 <= i < rest.len() && rest[i] is Ok;
            assert(outcomes[i + 1] is Ok);
        } else {
            assert forall|i: int| 0 <= i < outcomes.len() implies !(outcomes[i] is Ok) by {
                if i > 0 {
                    assert(outcomes[i] == rest[i - 1]);
                }
            }
        }
    }
}

/// Once each of the `count` focus commands has had its turn, from the first
/// (the most recently used client's) on, the raise has ended: it succeeded
/// when one of the commands did, and otherwise it failed with the last
/// command's error.
pub proof fn lemma_tries_commands_until_one_succeeds(
    count: int,
    outcomes: Seq<Result<(), Seq<char>>>,
)
    requires
        count >= 1,
        outcomes.len() == count,
    ensures
        after_focuses(0, count, outcomes) == (if some_success(outcomes) {
            RaiseState::Done(Ok(()))
        } else {
            RaiseState::Done(outcomes[count - 1])
        }),
{
    lemma_after_focuses_from(0, count, outcomes);
}

/// Where raising a container stands.
#[derive(Clone, Copy, Debug, PartialEq, Eq)]
pub enum RaiseStage {
    /// The session's clients are to be listed.
    AwaitingClients,
    /// A focus command is running.
    Focusing,
    /// The outcome is known.
    Finished,
}

/// What the caller is to do next.
#[derive(Debug)]
pub enum RaiseAction {
    /// Run this focus command and report how it went.
    RunFocus(FocusCommand),
    /// Stop, with this outcome.
    Finish(Result<(), String>),
}

/// Focuses the container of the bound terminal for a Herdr client attached
/// to a session, trying the clients from the most recently used one until a
/// focus command succeeds.
pub struct ContainerRaise {
    bound_terminal: String,
    adapter: TerminalAdapter,
    commands: Vec<FocusCommand>,
    next: usize,
    stage: RaiseStage,
}

impl ContainerRaise {
    pub closed spec fn bound_terminal(&self) -> Seq<char> {
        self.bound_terminal@
    }

    pub closed spec fn adapter(&self) -> TerminalAdapter {
        self.adapter
    }

    /// The focus commands to try, in order.
    pub closed spec fn commands(&self) -> Seq<CommandView> {
        self.commands@.map_values(|c: FocusCommand| c@)
    }

    /// The index of the command that runs.
    pub closed spec fn next(&self) -> int {
        self.next as int
    }

    pub closed spec fn stage(&self) -> RaiseStage {
        self.stage
    }

    /// While a command runs, it is one of the commands.
    pub closed spec fn well_formed(&self) -> bool {
        self.stage == RaiseStage::Focusing ==> self.next < self.commands@.len()
    }

    /// Takes in the session's clients, most recently used first, or the
    /// error that listing them met.
    pub fn clients_listed(&mut self, clients: Result<Vec<HerdrClient>, String>) -> (action:
        RaiseAction)
        requires
            old(self).stage() == RaiseStage::AwaitingClients,
        ensures
            final(self).well_formed(),
            final(self).bound_terminal() == old(self).bound_terminal(),
            final(self).adapter() == old(self).adapter(),
            match clients {
                Err(error) => action matches RaiseAction::Finish(Err(e)) && e@ == error@
                    && final(self).stage() == RaiseStage::Finished,
                Ok(list) => {
                    &&& final(self).commands() == focus_commands(
                        old(self).adapter(),
                        client_views(list@),
                    )
                    &&& if final(self).commands().len() == 0 {
                        &&& action matches RaiseAction::Finish(Err(e))
                        &&& e@ == "no Herdr client with a controllable "@ + old(
                            self,
                        ).bound_terminal() + " container"@
                        &&& final(self).stage() == RaiseStage::Finished
                    } else {
                        &&& action matches RaiseAction::RunFocus(c)
                        &&& c@ == final(self).commands()[0]
                        &&& final(self).next() == 0
                        &&& final(self).stage() == RaiseStage::Focusing
                    }
                },
            },
    {
        let list = match clients {
            Err(error) => {
                self.stage = RaiseStage::Finished;
                return RaiseAction::Finish(Err(error));
            },
            Ok(list) => list,
        };
        let mut commands: Vec<FocusCommand> = Vec::new();
        let mut i: usize = 0;
        while i < list.len()
            invariant
                i <= list@.len(),
                commands@.map_values(|c: FocusCommand| c@) == focus_commands(
                    self.adapter,
                    client_views(list@).take(i as int),
                ),
            decreases list.len() - i,
        {
            let ghost before = commands@;
            assert(client_views(list@).take(i + 1).drop_last() =~= client_views(list@).take(
                i as int,
            ));
            assert(client_views(list@).take(i + 1).last() == list@[i as int]@);
            match self.adapter.focus_command(&list[i]) {
                Some(command) => {
                    commands.push(command);
                    assert(commands@.map_values(|c: FocusCommand| c@) =~= before.map_values(
                        |c: FocusCommand| c@,
                    ).push(commands@.last()@));
                },
                None => {},
            }
            i = i + 1;
        }
        assert(client_views(list@).take(i as int) =~= client_views(list@));
        self.commands = commands;
        if self.commands.len() == 0 {
            self.stage = RaiseStage::Finished;
            let message = "no Herdr client with a controllable ".to_owned().concat(
                self.bound_terminal.as_str(),
            ).concat(" container");
            return RaiseAction::Finish(Err(message));
        }
        self.next = 0;
        self.stage = RaiseStage::Focusing;
        RaiseAction::RunFocus(self.commands[0].duplicate())
    }

    /// Takes in how the running focus command went: a success ends the
    /// raise; after a failure the next command runs, and when none is left
    /// the raise fails with the last command's error.
    pub fn focus_ran(&mut self, outcome: Result<(), String>) -> (action: RaiseAction)
        requires
            old(self).well_formed(),
            old(self).stage() == RaiseStage::Focusing,
        ensures
            final(self).well_formed(),
            final(self).commands() == old(self).commands(),
            final(self).bound_terminal() == old(self).bound_terminal(),
            final(self).adapter() == old(self).adapter(),
            match after_focus(old(self).next(), old(self).commands().len() as int, outcome_view(outcome)) {
                RaiseState::Running(n) => {
                    &&& action matches RaiseAction::RunFocus(c)
                    &&& c@ == old(self).commands()[n]
                    &&& final(self).next() == n
                    &&& final(self).stage() == RaiseStage::Focusing
                },
                RaiseState::Done(end) => {
                    &&& action matches RaiseAction::Finish(o)
                    &&& outcome_view(o) == end
                    &&& final(self).stage() == RaiseStage::Finished
                },
            },
    {
        match outcome {
            Ok(()) => {
                self.stage = RaiseStage::Finished;
                RaiseAction::Finish(Ok(()))
            },
            Err(error) => {
                if self.next < self.commands.len() - 1 {
                    self.next = self.next + 1;
                    let command = self.commands[self.next].duplicate();
                    RaiseAction::RunFocus(command)
                } else {
                    self.stage = RaiseStage::Finished;
                    RaiseAction::Finish(Err(error))
                }
            },
        }
    }
}

/// Starts raising the container of the terminal with bundle identifier
/// `bound_terminal`, which fails at once when no adapter in use is for that
/// terminal. Otherwise the session's clients are to be listed next.
pub fn raise_client_container(bound_terminal: &str) -> (started: Result<ContainerRaise, String>)
    ensures
        match started {
            Ok(raise) => {
                &&& first_adapter(registered_adapters(), bound_terminal@) == Some(raise.adapter())
                &&& raise.bound_terminal() == bound_terminal@
                &&& raise.commands().len() == 0
                &&& raise.stage() == RaiseStage::AwaitingClients
                &&& raise.well_formed()
            },
            Err(error) => first_adapter(registered_adapters(), bound_terminal@) is None && error@
                == "no terminal adapter for "@ + bound_terminal@,
        },
{
    match adapter_for(bound_terminal) {
        Some(adapter) => {
            let raise = ContainerRaise {
                bound_terminal: bound_terminal.to_owned(),
                adapter,
                commands: Vec::new(),
                next: 0,
                stage: RaiseStage::AwaitingClients,
            };
            assert(raise.commands() =~= Seq::<CommandView>::empty());
            Ok(raise)
        },
        None => Err("no terminal adapter for ".to_owned().concat(bound_terminal)),
    }
}

/// What the caller observed of a focus command it started.
pub enum FocusPoll {
    /// The command could not be started, for this reason.
    SpawnFailed(String),
    /// The command exited, successfully or not, with this status.
    Exited { success: bool, status: String },
    /// The command still runs, before or past its deadline.
    Running { before_deadline: bool },
    /// Waiting for the command failed, for this reason.
    WaitFailed(String),
}

/// What the caller is to do about a focus command.
#[derive(Debug, PartialEq, Eq)]
pub enum FocusProgress {
    /// The command has ended with this outcome.
    Done(Result<(), String>),
    /// Wait a little and look again.
    Wait,
    /// Kill the command and wait for it; it failed with this error.
    KillAndFail(String),
}

/// The next step of running the focus command `program`, given what was
/// observed of it. A command that is still running at its deadline is
/// killed, so that a terminal asking the user to confirm a control request
/// does not block the click indefinitely.
pub fn focus_progress(program: &str, poll: FocusPoll) -> (progress: FocusProgress)
    ensures
        match poll {
            FocusPoll::SpawnFailed(err) => progress matches FocusProgress::Done(Err(m)) && m@
                == "failed to run "@ + program@ + ": "@ + err@,
            FocusPoll::Exited { success, status } => if success {
                progress matches FocusProgress::Done(Ok(()))
            } else {
                progress matches FocusProgress::Done(Err(m)) && m@ == program@ + " failed: "@
                    + status@
            },
            FocusPoll::Running { before_deadline } => if before_deadline {
                progress matches FocusProgress::Wait
            } else {
                progress matches FocusProgress::KillAndFail(m) && m@ == program@ + " timed out"@
            },
            FocusPoll::WaitFailed(err) => progress matches FocusProgress::Done(Err(m)) && m@
                == "failed to wait for "@ + program@ + ": "@ + err@,
        },
{
    match poll {
        FocusPoll::SpawnFailed(err) => FocusProgress::Done(
            Err(
                "failed to run ".to_owned().concat(program).concat(": ").concat(err.as_str()),
            ),
        ),
        FocusPoll::Exited { success, status } => if success {
            FocusProgress::Done(Ok(()))
        } else {
            FocusProgress::Done(
                Err(program.to_owned().concat(" failed: ").concat(status.as_str())),
            )
        },
        FocusPoll::Running { before_deadline } => if before_deadline {
            FocusProgress::Wait
        } else {
            FocusProgress::KillAndFail(program.to_owned().concat(" timed out"))
        },
        FocusPoll::WaitFailed(err) => FocusProgress::Done(
            Err(
                "failed to wait for ".to_owned().concat(program).concat(": ").concat(
                    err.as_str(),
                ),
            ),
        ),
    }
}

} // verus!
