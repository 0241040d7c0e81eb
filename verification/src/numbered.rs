//! Numeric prefixes: a count typed before a key.

use vstd::prelude::*;
use vstd::string::StringExecFns;
use crate::builder::AppKeyMapping;
use crate::command::FileType;
use crate::event::{interactive, AppEvent, KeyCode, KeyEvent, Modifiers, Notification};
use crate::keybind::CommandKeybind;
use crate::keymap::KeyMapping;
use crate::outcome::{
    copy_commands, result_view, Dispatch, DispatchError, DispatchView, Outcome, OutcomeView, Step,
    StepView,
};

verus! {

/// `c` is a decimal digit.
pub open spec fn is_digit(c: char) -> bool {
    '0' <= c && c <= '9'
}

/// The value of the decimal digit `c`.
pub open spec fn digit_value(c: char) -> nat
    recommends
        is_digit(c),
{
    (c as u32 - '0' as u32) as nat
}

/// `digits` holds decimal digits only.
pub open spec fn all_digits(digits: Seq<char>) -> bool {
    forall|i: int| 0 <= i < digits.len() ==> is_digit(#[trigger] digits[i])
}

/// The number that `digits` writes in base ten; 0 for no digits.
pub open spec fn number_of(digits: Seq<char>) -> nat
    decreases digits.len(),
{
    if digits.len() == 0 {
        0
    } else {
        number_of(digits.drop_last()) * 10 + digit_value(digits.last())
    }
}

/// The count that `digits` stands for, if it can be represented.
pub open spec fn count_of(digits: Seq<char>) -> Option<usize> {
    if number_of(digits) <= usize::MAX {
        Some(number_of(digits) as usize)
    } else {
        None
    }
}

fn digit_text(c: char) -> (text: &'static str)
    requires
        is_digit(c),
    ensures
        text@ == seq![c],
{
    proof {
        reveal_strlit("0");
        reveal_strlit("1");
        reveal_strlit("2");
        reveal_strlit("3");
        reveal_strlit("4");
        reveal_strlit("5");
        reveal_strlit("6");
        reveal_strlit("7");
        reveal_strlit("8");
        reveal_strlit("9");
    }
    let text = match c {
        '0' => "0",
        '1' => "1",
        '2' => "2",
        '3' => "3",
        '4' => "4",
        '5' => "5",
        '6' => "6",
        '7' => "7",
        '8' => "8",
        _ => "9",
    };
    assert(text@ =~= seq![c]);
    text
}

/// The value of `c` if it is a decimal digit.
pub fn digit(c: char) -> (value: Option<u8>)
    ensures
        value is Some <==> is_digit(c),
        value matches Some(d) ==> d == digit_value(c),
{
    if '0' <= c && c <= '9' {
        Some((c as u32 - '0' as u32) as u8)
    } else {
        None
    }
}

/// The digit that `event` types, if it types one.
pub open spec fn digit_typed(event: AppEvent) -> Option<char> {
    match event {
        AppEvent::Terminal(KeyEvent { code: KeyCode::Char(c), modifiers }) => if modifiers
            == Modifiers::spec_none() && is_digit(c) {
            Some(c)
        } else {
            None
        },
        _ => None,
    }
}

/// The row that the line number `count` stands for: lines are counted from
/// 1, rows from 0, and line 0 is taken for the first row.
pub open spec fn row_of(count: usize) -> usize {
    if count == 0 {
        0
    } else {
        (count - 1) as usize
    }
}

/// What the key `key`, which ends a prefix that stands for `count`, leads to.
pub open spec fn dispatch(
    count: usize,
    key: KeyEvent,
    keymap: KeyMapping,
    selected: Option<FileType>,
) -> Result<OutcomeView, DispatchError> {
    if key == KeyEvent::spec_char('g') {
        Ok(OutcomeView::CursorMove { index: row_of(count) })
    } else if !keymap@.contains_key(key) {
        Err(DispatchError::UnrecognizedCommand)
    } else {
        match keymap@[key] {
            CommandKeybind::SimpleKeybind { commands, description } => match commands.spec_select(
                selected,
            ) {
                Some(list) => Ok(OutcomeView::NumberedExecute { commands: list, count }),
                None => Err(DispatchError::UnrecognizedCommand),
            },
            CommandKeybind::CompositeKeybind(_) => Err(DispatchError::UnrecognizedCommand),
        }
    }
}

/// What `event` does to a prefix that holds `digits`.
pub open spec fn respond(
    digits: Seq<char>,
    event: AppEvent,
    keymap: KeyMapping,
    selected: Option<FileType>,
) -> StepView {
    match event {
        AppEvent::Application(notification) => StepView::Forward(notification),
        AppEvent::Unsupported => match count_of(digits) {
            None => StepView::Done(Err(DispatchError::NumberTooLarge)),
            Some(_) => StepView::Done(Err(DispatchError::UnrecognizedCommand)),
        },
        AppEvent::Terminal(key) => {
            if key == KeyEvent::spec_plain(KeyCode::Escape) {
                StepView::Done(Ok(OutcomeView::Cancelled))
            } else if digit_typed(event) is Some {
                StepView::Continue
            } else {
                match count_of(digits) {
                    None => StepView::Done(Err(DispatchError::NumberTooLarge)),
                    Some(count) => StepView::Done(dispatch(count, key, keymap, selected)),
                }
            }
        },
    }
}

/// The digits that a prefix holds after `event`.
pub open spec fn digits_after(digits: Seq<char>, event: AppEvent) -> Seq<char> {
    match digit_typed(event) {
        Some(c) => digits.push(c),
        None => digits,
    }
}

/// One more digit: the number is ten times what it was, and the digit.
pub proof fn lemma_number_push(digits: Seq<char>, c: char)
    ensures
        number_of(digits.push(c)) == number_of(digits) * 10 + digit_value(c),
{
    assert(digits.push(c).drop_last() =~= digits);
}

/// The digits typed so far in a numeric prefix, and the count they stand for.
#[derive(Debug)]
pub struct NumberedPrefix {
    prefix: String,
    count: Option<usize>,
}

impl View for NumberedPrefix {
    type V = Seq<char>;

    /// The digits typed so far.
    closed spec fn view(&self) -> Seq<char> {
        self.prefix@
    }
}

impl NumberedPrefix {
    /// At least one digit was typed, only digits were, and the count is
    /// theirs.
    pub closed spec fn wf(self) -> bool {
        &&& self.prefix@.len() > 0
        &&& all_digits(self.prefix@)
        &&& self.count == count_of(self.prefix@)
    }

    /// A prefix that starts with the digit `first`.
    pub fn start(first: char) -> (state: NumberedPrefix)
        requires
            is_digit(first),
        ensures
            state.wf(),
            state@ == seq![first],
    {
        let prefix = String::from_str(digit_text(first));
        proof {
            lemma_number_push(Seq::<char>::empty(), first);
            assert(Seq::<char>::empty().push(first) =~= seq![first]);
        }
        NumberedPrefix { prefix, count: Some((first as u32 - '0' as u32) as usize) }
    }

    /// A prefix that starts with `first`; `None` if `first` is no digit.
    pub fn new(first: char) -> (r: Option<NumberedPrefix>)
        ensures
            r is Some <==> is_digit(first),
            r matches Some(state) ==> state.wf() && state@ == seq![first],
    {
        if digit(first).is_some() {
            Some(NumberedPrefix::start(first))
        } else {
            None
        }
    }

    /// The digits typed so far, to be shown while the prefix is typed.
    pub fn prefix(&self) -> (text: &String)
        ensures
            text@ == self@,
    {
        &self.prefix
    }

    /// The count that the digits stand for, unless it is too large.
    pub fn count(&self) -> (count: Option<usize>)
        requires
            self.wf(),
        ensures
            count == count_of(self@),
    {
        self.count
    }

    fn push_digit(&mut self, c: char, d: u8)
        requires
            old(self).wf(),
            is_digit(c),
            d == digit_value(c),
        ensures
            final(self).wf(),
            final(self)@ == old(self)@.push(c),
    {
        proof {
            lemma_number_push(self.prefix@, c);
        }
        self.prefix.append(digit_text(c));
        let count = match self.count {
            Some(n) => if n <= (usize::MAX - d as usize) / 10 {
                Some(n * 10 + d as usize)
            } else {
                None
            },
            None => None,
        };
        self.count = count;
        assert(self.prefix@ =~= old(self).prefix@.push(c));
    }

    /// Takes one event.
    ///
    /// Escape cancels, whatever was typed. A digit goes to the end of the
    /// prefix. An event of the application is handed on and changes nothing.
    /// Any other input ends the prefix: `g` moves the cursor to the line that
    /// the digits name, a key bound to commands at the top level of `keymap`
    /// runs those with the count, and everything else is an error, as is a
    /// count too large to represent.
    pub fn step(
        &mut self,
        event: AppEvent,
        keymap: &KeyMapping,
        selected: Option<FileType>,
    ) -> (step: Step)
        requires
            old(self).wf(),
            keymap.wf(),
        ensures
            final(self).wf(),
            step@ == respond(old(self)@, event, *keymap, selected),
            final(self)@ == digits_after(old(self)@, event),
            event == AppEvent::Terminal(KeyEvent::spec_plain(KeyCode::Escape)) ==> step@
                == StepView::Done(Ok(OutcomeView::Cancelled)) && final(self)@ == old(self)@,
            event matches AppEvent::Application(notification) ==> step@ == StepView::Forward(
                notification,
            ) && final(self)@ == old(self)@,
    {
        let key = match event {
            AppEvent::Application(notification) => {
                return Step::Forward(notification);
            },
            AppEvent::Unsupported => {
                return Step::Done(
                    Err(
                        match self.count {
                            None => DispatchError::NumberTooLarge,
                            Some(_) => DispatchError::UnrecognizedCommand,
                        },
                    ),
                );
            },
            AppEvent::Terminal(key) => key,
        };
        if key == KeyEvent::plain(KeyCode::Escape) {
            return Step::Done(Ok(Outcome::Cancelled));
        }
        if key.modifiers == Modifiers::none() {
            if let KeyCode::Char(c) = key.code {
                if let Some(d) = digit(c) {
                    self.push_digit(c, d);
                    return Step::Continue;
                }
            }
        }
        let count = match self.count {
            None => {
                return Step::Done(Err(DispatchError::NumberTooLarge));
            },
            Some(count) => count,
        };
        Step::Done(dispatch_key(count, key, keymap, selected))
    }
}

/// What the key `key` leads to after a prefix that stands for `count`.
pub fn dispatch_key(
    count: usize,
    key: KeyEvent,
    keymap: &KeyMapping,
    selected: Option<FileType>,
) -> (result: Result<Outcome, DispatchError>)
    requires
        keymap.wf(),
    ensures
        result_view(result) == dispatch(count, key, *keymap, selected),
{
    if key == KeyEvent::char('g') {
        let index = if count == 0 {
            0
        } else {
            count - 1
        };
        return Ok(Outcome::CursorMove { index });
    }
    match keymap.get(key) {
        Some(CommandKeybind::SimpleKeybind { commands, description }) => {
            match commands.select(selected) {
                Some(list) => Ok(Outcome::NumberedExecute { commands: copy_commands(list), count }),
                None => Err(DispatchError::UnrecognizedCommand),
            }
        },
        _ => Err(DispatchError::UnrecognizedCommand),
    }
}

/// A prefix that holds `digits`, played over `events` from the first on.
pub open spec fn run(
    digits: Seq<char>,
    events: Seq<AppEvent>,
    keymap: KeyMapping,
    selected: Option<FileType>,
) -> DispatchView
    decreases events.len(),
{
    if events.len() == 0 {
        DispatchView { result: Ok(OutcomeView::Cancelled), forwarded: Seq::empty(), consumed: 0 }
    } else {
        let rest = run(digits_after(digits, events[0]), events.skip(1), keymap, selected);
        match respond(digits, events[0], keymap, selected) {
            StepView::Done(result) => DispatchView { result, forwarded: Seq::empty(), consumed: 1 },
            StepView::Continue => DispatchView { consumed: rest.consumed + 1, ..rest },
            StepView::Forward(notification) => DispatchView {
                result: rest.result,
                forwarded: seq![notification] + rest.forwarded,
                consumed: rest.consumed + 1,
            },
        }
    }
}

/// Plays the numeric prefix that the digit `first_char` starts over
/// `events`, with the bindings of the default view.
pub fn numbered_command(
    first_char: char,
    events: &Vec<AppEvent>,
    keymap: &AppKeyMapping,
    selected: Option<FileType>,
) -> (dispatch: Dispatch)
    requires
        is_digit(first_char),
        keymap.default_view.wf(),
    ensures
        dispatch@ == run(seq![first_char], events@, keymap.default_view, selected),
{
    let mut state = NumberedPrefix::start(first_char);
    let mut forwarded: Vec<Notification> = Vec::new();
    let mut i: usize = 0;
    let ghost whole = run(seq![first_char], events@, keymap.default_view, selected);
    assert(events@.skip(0) =~= events@);
    while i < events.len()
        invariant
            i <= events@.len(),
            state.wf(),
            keymap.default_view.wf(),
            whole == run(seq![first_char], events@, keymap.default_view, selected),
            ({
                let rest = run(state@, events@.skip(i as int), keymap.default_view, selected);
                &&& whole.result == rest.result
                &&& whole.forwarded == forwarded@ + rest.forwarded
                &&& whole.consumed == i + rest.consumed
            }),
        decreases events@.len() - i,
    {
        let ghost digits = state@;
        proof {
            assert(events@.skip(i as int).skip(1) =~= events@.skip(i + 1));
            assert(events@.skip(i as int)[0] == events@[i as int]);
        }
        match state.step(events[i], &keymap.default_view, selected) {
            Step::Continue => {},
            Step::Forward(notification) => {
                proof {
                    let rest = run(state@, events@.skip(i + 1), keymap.default_view, selected);
                    assert(forwarded@ + (seq![notification] + rest.forwarded) =~= forwarded@.push(
                        notification,
                    ) + rest.forwarded);
                }
                forwarded.push(notification);
            },
            Step::Done(result) => {
                proof {
                    assert(forwarded@ + Seq::<Notification>::empty() =~= forwarded@);
                }
                return Dispatch { result, forwarded, consumed: i + 1 };
            },
        }
        i += 1;
    }
    proof {
        assert(forwarded@ + Seq::<Notification>::empty() =~= forwarded@);
    }
    Dispatch { result: Ok(Outcome::Cancelled), forwarded, consumed: i }
}

/// The events that type `digits`, one key each.
pub open spec fn typed(digits: Seq<char>) -> Seq<AppEvent> {
    Seq::new(digits.len(), |i: int| AppEvent::Terminal(KeyEvent::spec_char(digits[i])))
}

/// Digits typed one after the other are all taken into the prefix, and the
/// events after them meet the prefix that holds them all.
pub proof fn lemma_run_digits(
    digits: Seq<char>,
    more: Seq<char>,
    events: Seq<AppEvent>,
    keymap: KeyMapping,
    selected: Option<FileType>,
)
    requires
        all_digits(more),
    ensures
        run(digits, typed(more) + events, keymap, selected).result == run(
            digits + more,
            events,
            keymap,
            selected,
        ).result,
        run(digits, typed(more) + events, keymap, selected).forwarded == run(
            digits + more,
            events,
            keymap,
            selected,
        ).forwarded,
        run(digits, typed(more) + events, keymap, selected).consumed == more.len() + run(
            digits + more,
            events,
            keymap,
            selected,
        ).consumed,
    decreases more.len(),
{
    if more.len() == 0 {
        assert(typed(more) + events =~= events);
        assert(digits + more =~= digits);
    } else {
        let all = typed(more) + events;
        assert(all[0] == AppEvent::Terminal(KeyEvent::spec_char(more[0])));
        assert(is_digit(more[0]));
        assert(digit_typed(all[0]) == Some(more[0]));
        assert(all.skip(1) =~= typed(more.skip(1)) + events);
        assert(digits.push(more[0]) + more.skip(1) =~= digits + more);
        lemma_run_digits(digits.push(more[0]), more.skip(1), events, keymap, selected);
    }
}

/// A count typed digit by digit and then a key bound to commands runs
/// exactly those commands with exactly that count.
///
/// The key is bound at the top level of `keymap` for the selected file type
/// or for any, and is none of the keys that the prefix takes for itself:
/// Escape, a digit and `g`. The digits stand for a count that can be
/// represented.
pub proof fn lemma_prefix_determinism(
    digits: Seq<char>,
    key: KeyEvent,
    keymap: KeyMapping,
    selected: Option<FileType>,
)
    requires
        digits.len() > 0,
        all_digits(digits),
        number_of(digits) <= usize::MAX,
        key != KeyEvent::spec_plain(KeyCode::Escape),
        key != KeyEvent::spec_char('g'),
        digit_typed(AppEvent::Terminal(key)) is None,
        keymap@.contains_key(key),
        keymap@[key] matches CommandKeybind::SimpleKeybind { commands, .. }
            && commands.spec_select(selected) is Some,
    ensures
        run(
            seq![digits[0]],
            typed(digits.skip(1)) + seq![AppEvent::Terminal(key)],
            keymap,
            selected,
        ) == (DispatchView {
            result: Ok(
                OutcomeView::NumberedExecute {
                    commands: keymap@[key]->SimpleKeybind_commands.spec_select(selected)->Some_0,
                    count: number_of(digits) as usize,
                },
            ),
            forwarded: Seq::empty(),
            consumed: digits.len(),
        }),
{
    let last = seq![AppEvent::Terminal(key)];
    lemma_run_digits(seq![digits[0]], digits.skip(1), last, keymap, selected);
    assert(seq![digits[0]] + digits.skip(1) =~= digits);
    assert(last.skip(1) =~= Seq::<AppEvent>::empty());
    let played = run(digits, last, keymap, selected);
    assert(played.result == dispatch(number_of(digits) as usize, key, keymap, selected));
}

/// Events of the application that come while a prefix is typed are handed
/// on in their order and change nothing: the prefix ends as it does over the
/// terminal events alone, none of which is lost.
pub proof fn lemma_application_events_transparent(
    digits: Seq<char>,
    events: Seq<AppEvent>,
    keymap: KeyMapping,
    selected: Option<FileType>,
)
    ensures
        run(digits, events, keymap, selected).result == run(
            digits,
            interactive(events),
            keymap,
            selected,
        ).result,
        run(digits, interactive(events), keymap, selected).forwarded == Seq::<
            Notification,
        >::empty(),
    decreases events.len(),
{
    if events.len() > 0 {
        let rest = events.skip(1);
        lemma_application_events_transparent(
            digits_after(digits, events[0]),
            rest,
            keymap,
            selected,
        );
        if events[0].spec_is_interactive() {
            let kept = interactive(events);
            assert(kept[0] == events[0]);
            assert(kept.skip(1) =~= interactive(rest));
        }
    }
}

/// Escape ends a prefix at once, whatever was typed and whatever follows:
/// nothing is run and nothing is handed on.
pub proof fn lemma_escape_cancels(
    digits: Seq<char>,
    rest: Seq<AppEvent>,
    keymap: KeyMapping,
    selected: Option<FileType>,
)
    ensures
        run(
            digits,
            seq![AppEvent::Terminal(KeyEvent::spec_plain(KeyCode::Escape))] + rest,
            keymap,
            selected,
        ) == (DispatchView {
            result: Ok(OutcomeView::Cancelled),
            forwarded: Seq::empty(),
            consumed: 1,
        }),
{
}

} // verus!
