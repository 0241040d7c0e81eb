//! Key interactions: from the first key to a command.

use vstd::prelude::*;
use crate::builder::AppKeyMapping;
use crate::command::FileType;
use crate::event::{AppEvent, KeyCode, KeyEvent, Notification};
use crate::keybind::CommandKeybind;
use crate::keymap::KeyMapping;
use crate::numbered::{
    digit, digit_typed, digits_after, is_digit, respond, run, NumberedPrefix,
};
use crate::outcome::{
    copy_commands, Dispatch, DispatchError, DispatchView, Outcome, OutcomeView, Step, StepView,
};

verus! {

/// The views of the application, each with key bindings of its own.
#[derive(Clone, Copy, Debug, PartialEq, Eq, Hash, Structural)]
pub enum ViewKind {
    Default,
    Task,
    Help,
}

impl AppKeyMapping {
    /// The bindings of the view `kind`.
    pub open spec fn spec_keymap_of(self, kind: ViewKind) -> KeyMapping {
        match kind {
            ViewKind::Default => self.default_view,
            ViewKind::Task => self.task_view,
            ViewKind::Help => self.help_view,
        }
    }

    /// The bindings of the view `kind`.
    pub fn keymap_of(&self, kind: ViewKind) -> (keymap: &KeyMapping)
        ensures
            *keymap == self.spec_keymap_of(kind),
    {
        match kind {
            ViewKind::Default => &self.default_view,
            ViewKind::Task => &self.task_view,
            ViewKind::Help => &self.help_view,
        }
    }
}

/// What `event` does to a chord of which `pending` was typed.
///
/// Escape cancels a chord that was begun. A key that leads to a further
/// level is taken and more keys are awaited. A key that completes a binding
/// ends the chord with the commands bound for the selected file type, or
/// else for any; without either, and for input that leads nowhere, the chord
/// ends in an error.
pub open spec fn chord_respond(
    pending: Seq<KeyEvent>,
    event: AppEvent,
    keymap: KeyMapping,
    selected: Option<FileType>,
) -> StepView {
    match event {
        AppEvent::Application(notification) => StepView::Forward(notification),
        AppEvent::Unsupported => StepView::Done(Err(DispatchError::UnrecognizedCommand)),
        AppEvent::Terminal(key) => {
            if pending.len() > 0 && key == KeyEvent::spec_plain(KeyCode::Escape) {
                StepView::Done(Ok(OutcomeView::Cancelled))
            } else {
                match keymap.node_at(pending.push(key)) {
                    None => StepView::Done(Err(DispatchError::UnrecognizedCommand)),
                    Some(CommandKeybind::CompositeKeybind(_)) => StepView::Continue,
                    Some(CommandKeybind::SimpleKeybind { commands, description }) => {
                        match commands.spec_select(selected) {
                            Some(list) => StepView::Done(
                                Ok(OutcomeView::Execute { commands: list }),
                            ),
                            None => StepView::Done(Err(DispatchError::UnrecognizedCommand)),
                        }
                    },
                }
            }
        },
    }
}

/// The keys of a chord that are pending after `event`.
pub open spec fn chord_after(
    pending: Seq<KeyEvent>,
    event: AppEvent,
    keymap: KeyMapping,
    selected: Option<FileType>,
) -> Seq<KeyEvent> {
    match chord_respond(pending, event, keymap, selected) {
        StepView::Continue => pending.push(event->Terminal_0),
        StepView::Forward(_) => pending,
        StepView::Done(_) => Seq::empty(),
    }
}

/// The keys typed so far of a chord.
#[derive(Debug)]
pub struct KeyResolver {
    pending: Vec<KeyEvent>,
}

impl View for KeyResolver {
    type V = Seq<KeyEvent>;

    /// The keys typed so far.
    closed spec fn view(&self) -> Seq<KeyEvent> {
        self.pending@
    }
}

impl KeyResolver {
    /// No key typed yet.
    pub fn new() -> (resolver: KeyResolver)
        ensures
            resolver@ == Seq::<KeyEvent>::empty(),
    {
        KeyResolver { pending: Vec::new() }
    }

    /// The keys typed so far.
    pub fn pending(&self) -> (keys: &Vec<KeyEvent>)
        ensures
            keys@ == self@,
    {
        &self.pending
    }

    /// Takes one event, see [`chord_respond`]. When the chord ends, no key
    /// is pending any more.
    pub fn step(&mut self, event: AppEvent, keymap: &KeyMapping, selected: Option<FileType>) -> (step:
        Step)
        requires
            keymap.wf(),
        ensures
            step@ == chord_respond(old(self)@, event, *keymap, selected),
            final(self)@ == chord_after(old(self)@, event, *keymap, selected),
    {
        let key = match event {
            AppEvent::Application(notification) => {
                return Step::Forward(notification);
            },
            AppEvent::Unsupported => {
                self.pending.clear();
                return Step::Done(Err(DispatchError::UnrecognizedCommand));
            },
            AppEvent::Terminal(key) => key,
        };
        if self.pending.len() > 0 && key == KeyEvent::plain(KeyCode::Escape) {
            self.pending.clear();
            return Step::Done(Ok(Outcome::Cancelled));
        }
        self.pending.push(key);
        let result = match keymap.lookup(&self.pending) {
            None => Err(DispatchError::UnrecognizedCommand),
            Some(CommandKeybind::CompositeKeybind(_)) => {
                return Step::Continue;
            },
            Some(CommandKeybind::SimpleKeybind { commands, description }) => {
                match commands.select(selected) {
                    Some(list) => Ok(Outcome::Execute { commands: copy_commands(list) }),
                    None => Err(DispatchError::UnrecognizedCommand),
                }
            },
        };
        self.pending.clear();
        Step::Done(result)
    }
}

/// Where a key interaction stands.
#[derive(Debug)]
pub enum Interaction {
    /// No key was typed yet.
    Idle,
    /// A chord is being typed.
    Chord(KeyResolver),
    /// A numeric prefix is being typed.
    Prefix(NumberedPrefix),
}

/// [`Interaction`] as a mathematical value.
pub enum InteractionView {
    Idle,
    Chord(Seq<KeyEvent>),
    Prefix(Seq<char>),
}

impl View for Interaction {
    type V = InteractionView;

    open spec fn view(&self) -> InteractionView {
        match *self {
            Interaction::Idle => InteractionView::Idle,
            Interaction::Chord(resolver) => InteractionView::Chord(resolver@),
            Interaction::Prefix(prefix) => InteractionView::Prefix(prefix@),
        }
    }
}

/// `event` begins a numeric prefix in the view `kind`: it types a digit, and
/// the view is the default one.
pub open spec fn begins_prefix(event: AppEvent, kind: ViewKind) -> bool {
    kind is Default && digit_typed(event) is Some
}

/// What `event` does to the interaction `state` in the view `kind`.
///
/// From idle, a digit begins a numeric prefix in the default view, and any
/// other key begins a chord. A numeric prefix goes by the bindings of the
/// default view, a chord by those of `kind`.
pub open spec fn interaction_respond(
    state: InteractionView,
    event: AppEvent,
    keymaps: AppKeyMapping,
    kind: ViewKind,
    selected: Option<FileType>,
) -> StepView {
    match state {
        InteractionView::Idle => if begins_prefix(event, kind) {
            StepView::Continue
        } else {
            chord_respond(Seq::empty(), event, keymaps.spec_keymap_of(kind), selected)
        },
        InteractionView::Chord(pending) => chord_respond(
            pending,
            event,
            keymaps.spec_keymap_of(kind),
            selected,
        ),
        InteractionView::Prefix(digits) => respond(digits, event, keymaps.default_view, selected),
    }
}

/// Where the interaction `state` stands after `event`: idle again once it
/// has ended.
pub open spec fn interaction_after(
    state: InteractionView,
    event: AppEvent,
    keymaps: AppKeyMapping,
    kind: ViewKind,
    selected: Option<FileType>,
) -> InteractionView {
    match interaction_respond(state, event, keymaps, kind, selected) {
        StepView::Done(_) => InteractionView::Idle,
        StepView::Forward(_) => state,
        StepView::Continue => match state {
            InteractionView::Idle => if begins_prefix(event, kind) {
                InteractionView::Prefix(seq![digit_typed(event)->Some_0])
            } else {
                InteractionView::Chord(seq![event->Terminal_0])
            },
            InteractionView::Chord(pending) => InteractionView::Chord(
                pending.push(event->Terminal_0),
            ),
            InteractionView::Prefix(digits) => InteractionView::Prefix(
                digits_after(digits, event),
            ),
        },
    }
}

impl Interaction {
    /// A numeric prefix holds digits and the count they stand for.
    pub open spec fn wf(self) -> bool {
        match self {
            Interaction::Prefix(prefix) => prefix.wf(),
            _ => true,
        }
    }

    /// Takes one event, see [`interaction_respond`].
    pub fn step(
        &mut self,
        event: AppEvent,
        keymaps: &AppKeyMapping,
        kind: ViewKind,
        selected: Option<FileType>,
    ) -> (step: Step)
        requires
            old(self).wf(),
            keymaps.wf(),
        ensures
            final(self).wf(),
            step@ == interaction_respond(old(self)@, event, *keymaps, kind, selected),
            final(self)@ == interaction_after(old(self)@, event, *keymaps, kind, selected),
    {
        let step = match self {
            Interaction::Idle => {
                let mut begun: Option<char> = None;
                if let ViewKind::Default = kind {
                    if let AppEvent::Terminal(key) = event {
                        if key.modifiers == crate::event::Modifiers::none() {
                            if let KeyCode::Char(c) = key.code {
                                if digit(c).is_some() {
                                    begun = Some(c);
                                }
                            }
                        }
                    }
                }
                match begun {
                    Some(c) => {
                        *self = Interaction::Prefix(NumberedPrefix::start(c));
                        return Step::Continue;
                    },
                    None => {
                        let mut resolver = KeyResolver::new();
                        let step = resolver.step(event, keymaps.keymap_of(kind), selected);
                        if let Step::Continue = step {
                            assert(resolver@ =~= seq![event->Terminal_0]);
                            *self = Interaction::Chord(resolver);
                        }
                        return step;
                    },
                }
            },
            Interaction::Chord(resolver) => resolver.step(event, keymaps.keymap_of(kind), selected),
            Interaction::Prefix(prefix) => prefix.step(event, &keymaps.default_view, selected),
        };
        if let Step::Done(_) = step {
            *self = Interaction::Idle;
        }
        step
    }
}

/// The interaction `state` played over `events` from the first on, up to
/// the event that ends an interaction. Events that run out end it as Escape
/// does.
pub open spec fn play(
    state: InteractionView,
    events: Seq<AppEvent>,
    keymaps: AppKeyMapping,
    kind: ViewKind,
    selected: Option<FileType>,
) -> DispatchView
    decreases events.len(),
{
    if events.len() == 0 {
        DispatchView { result: Ok(OutcomeView::Cancelled), forwarded: Seq::empty(), consumed: 0 }
    } else {
        let rest = play(
            interaction_after(state, events[0], keymaps, kind, selected),
            events.skip(1),
            keymaps,
            kind,
            selected,
        );
        match interaction_respond(state, events[0], keymaps, kind, selected) {
            StepView::Done(result) => DispatchView { result, forwarded: Seq::empty(), consumed: 1 },
            StepView::Continue => DispatchView { consumed: rest.consumed + 1, ..rest },
            StepView::Forward(notification) => DispatchView {
                result: rest.result,
                forwarded: seq![notification] + rest.forwarded,
                consumed: rest.consumed + 1,
            },
        }
    }
}

/// Plays one key interaction over `events` in the view `kind`, from idle:
/// it ends when a command is found, when it is cancelled or when it fails.
pub fn resolve(
    events: &Vec<AppEvent>,
    keymaps: &AppKeyMapping,
    kind: ViewKind,
    selected: Option<FileType>,
) -> (dispatch: Dispatch)
    requires
        keymaps.wf(),
    ensures
        dispatch@ == play(InteractionView::Idle, events@, *keymaps, kind, selected),
{
    let mut state = Interaction::Idle;
    let mut forwarded: Vec<Notification> = Vec::new();
    let mut i: usize = 0;
    let ghost whole = play(InteractionView::Idle, events@, *keymaps, kind, selected);
    assert(events@.skip(0) =~= events@);
    while i < events.len()
        invariant
            i <= events@.len(),
            state.wf(),
            keymaps.wf(),
            whole == play(InteractionView::Idle, events@, *keymaps, kind, selected),
            ({
                let rest = play(state@, events@.skip(i as int), *keymaps, kind, selected);
                &&& whole.result == rest.result
                &&& whole.forwarded == forwarded@ + rest.forwarded
                &&& whole.consumed == i + rest.consumed
            }),
        decreases events@.len() - i,
    {
        proof {
            assert(events@.skip(i as int).skip(1) =~= events@.skip(i + 1));
            assert(events@.skip(i as int)[0] == events@[i as int]);
        }
        match state.step(events[i], keymaps, kind, selected) {
            Step::Continue => {},
            Step::Forward(notification) => {
                proof {
                    let rest = play(state@, events@.skip(i + 1), *keymaps, kind, selected);
                    assert(forwarded@ + (seq![notification] + rest.forwarded) =~= forwarded@.push(
                        notification,
                    ) + rest.forwarded);
                }
                forwarded.push(notification);
            },
            Step::Done(result) => {
                proof {
                    assert(forwarded@ + Seq::<Notification>::empty() =~= forwarded@);
                }
                return Dispatch { result, forwarded, consumed: i + 1 };
            },
        }
        i += 1;
    }
    proof {
        assert(forwarded@ + Seq::<Notification>::empty() =~= forwarded@);
    }
    Dispatch { result: Ok(Outcome::Cancelled), forwarded, consumed: i }
}

/// An interaction that stands in a numeric prefix goes on as the prefix
/// does by itself.
pub proof fn lemma_play_prefix(
    digits: Seq<char>,
    events: Seq<AppEvent>,
    keymaps: AppKeyMapping,
    kind: ViewKind,
    selected: Option<FileType>,
)
    ensures
        play(InteractionView::Prefix(digits), events, keymaps, kind, selected) == run(
            digits,
            events,
            keymaps.default_view,
            selected,
        ),
    decreases events.len(),
{
    if events.len() > 0 {
        lemma_play_prefix(
            digits_after(digits, events[0]),
            events.skip(1),
            keymaps,
            kind,
            selected,
        );
    }
}

/// In the default view, a digit typed from idle begins a numeric prefix:
/// the events after it are taken as the prefix takes them.
pub proof fn lemma_digit_begins_prefix(
    first: char,
    events: Seq<AppEvent>,
    keymaps: AppKeyMapping,
    selected: Option<FileType>,
)
    requires
        is_digit(first),
    ensures
        ({
            let played = play(
                InteractionView::Idle,
                seq![AppEvent::Terminal(KeyEvent::spec_char(first))] + events,
                keymaps,
                ViewKind::Default,
                selected,
            );
            let prefix = run(seq![first], events, keymaps.default_view, selected);
            &&& played.result == prefix.result
            &&& played.forwarded == prefix.forwarded
            &&& played.consumed == prefix.consumed + 1
        }),
{
    let all = seq![AppEvent::Terminal(KeyEvent::spec_char(first))] + events;
    assert(all.skip(1) =~= events);
    assert(digit_typed(all[0]) == Some(first));
    lemma_play_prefix(seq![first], events, keymaps, ViewKind::Default, selected);
}

} // verus!
