//! How key interactions go on and end.

use vstd::prelude::*;
use crate::command::Command;
use crate::event::Notification;

verus! {

/// Why a key interaction ended without a command.
#[derive(Clone, Copy, Debug, PartialEq, Eq, Structural)]
pub enum DispatchError {
    /// The digits typed stand for a count that cannot be represented.
    NumberTooLarge,
    /// The key is not bound to a command that can take a count.
    UnrecognizedCommand,
}

/// How a key interaction ended.
#[derive(Debug, PartialEq, Eq)]
pub enum Outcome {
    /// Escape was pressed: nothing is to be done.
    Cancelled,
    /// The commands are to be run in their order, once each, and input that
    /// is pending is to be discarded.
    Execute { commands: Vec<Command> },
    /// The cursor is to go to the row `index`, counted from 0.
    CursorMove { index: usize },
    /// The commands are to be run, each with the count `count`.
    NumberedExecute { commands: Vec<Command>, count: usize },
}

/// What one event does to a key interaction.
#[derive(Debug, PartialEq, Eq)]
pub enum Step {
    /// The key was taken and more keys are awaited.
    Continue,
    /// The event is none of the terminal's: it is to be handed to the
    /// application, and the interaction is as it was.
    Forward(Notification),
    /// The interaction is over.
    Done(Result<Outcome, DispatchError>),
}

/// [`Outcome`] as a mathematical value.
pub enum OutcomeView {
    Cancelled,
    Execute { commands: Seq<Command> },
    CursorMove { index: usize },
    NumberedExecute { commands: Seq<Command>, count: usize },
}

/// [`Step`] as a mathematical value.
pub enum StepView {
    Continue,
    Forward(Notification),
    Done(Result<OutcomeView, DispatchError>),
}

impl View for Outcome {
    type V = OutcomeView;

    open spec fn view(&self) -> OutcomeView {
        match *self {
            Outcome::Cancelled => OutcomeView::Cancelled,
            Outcome::Execute { commands } => OutcomeView::Execute { commands: commands@ },
            Outcome::CursorMove { index } => OutcomeView::CursorMove { index },
            Outcome::NumberedExecute { commands, count } => OutcomeView::NumberedExecute {
                commands: commands@,
                count,
            },
        }
    }
}

/// The result of an interaction as a mathematical value.
pub open spec fn result_view(result: Result<Outcome, DispatchError>) -> Result<
    OutcomeView,
    DispatchError,
> {
    match result {
        Ok(outcome) => Ok(outcome@),
        Err(error) => Err(error),
    }
}

impl View for Step {
    type V = StepView;

    open spec fn view(&self) -> StepView {
        match *self {
            Step::Continue => StepView::Continue,
            Step::Forward(notification) => StepView::Forward(notification),
            Step::Done(result) => StepView::Done(result_view(result)),
        }
    }
}

/// A key interaction played over a run of events.
#[derive(Debug, PartialEq, Eq)]
pub struct Dispatch {
    /// How the prefix ended. Events that run out end it as Escape does.
    pub result: Result<Outcome, DispatchError>,
    /// The events of the application that came meanwhile, in their order.
    pub forwarded: Vec<Notification>,
    /// How many of the events were taken, the one that ended the prefix
    /// among them.
    pub consumed: usize,
}

/// [`Dispatch`] as a mathematical value.
pub struct DispatchView {
    pub result: Result<OutcomeView, DispatchError>,
    pub forwarded: Seq<Notification>,
    pub consumed: nat,
}

impl View for Dispatch {
    type V = DispatchView;

    open spec fn view(&self) -> DispatchView {
        DispatchView {
            result: result_view(self.result),
            forwarded: self.forwarded@,
            consumed: self.consumed as nat,
        }
    }
}

/// A copy of `commands`.
pub fn copy_commands(commands: &Vec<Command>) -> (copy: Vec<Command>)
    ensures
        copy@ == commands@,
{
    let mut copy: Vec<Command> = Vec::new();
    let mut i: usize = 0;
    while i < commands.len()
        invariant
            i <= commands@.len(),
            copy@ == commands@.take(i as int),
        decreases commands@.len() - i,
    {
        copy.push(commands[i]);
        assert(commands@.take(i + 1) =~= commands@.take(i as int).push(commands@[i as int]));
        i += 1;
    }
    assert(commands@.take(commands@.len() as int) =~= commands@);
    copy
}

} // verus!
