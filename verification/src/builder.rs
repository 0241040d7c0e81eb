//! Building key mappings from declared bindings.

use vstd::prelude::*;
use crate::command::{Command, FileType};
use crate::event::KeyEvent;
use crate::keybind::CommandKeybind;
use crate::keymap::{
    commands_of, description_of, filetypes_of, insert_described, is_strict_prefix,
    AmbiguityError, Conflict, KeyMapping,
};

verus! {

/// A token of a declaration that was not recognised.
#[derive(Debug)]
pub struct ParseFailure {
    /// Why the token was refused.
    pub reason: String,
}

/// One declared binding, with each of its tokens read or refused.
#[derive(Debug)]
pub struct CommandKeymap {
    /// The command, or why its name was refused.
    pub command: Result<Command, ParseFailure>,
    /// The key sequence, token by token.
    pub keys: Vec<Result<KeyEvent, ParseFailure>>,
    /// The file type that the binding is meant for; `None` for any.
    pub filetype: Option<FileType>,
    /// What a menu shows for the binding in place of the command's name.
    pub description: Option<String>,
}

/// What is wrong with a declared binding.
#[derive(Clone, Copy, Debug, PartialEq, Eq, Structural)]
pub enum Problem {
    /// The command name was not recognised.
    UnknownCommand,
    /// One of the key tokens was not recognised.
    UnknownKey,
    /// The binding collides with an earlier one.
    Ambiguous(AmbiguityError),
}

/// A declared binding that was skipped, and why.
#[derive(Clone, Copy, Debug, PartialEq, Eq, Structural)]
pub struct Diagnostic {
    /// The position of the binding among the declared ones.
    pub binding: usize,
    pub problem: Problem,
}

/// What becomes of a declared binding.
#[derive(Clone, Copy, Debug, PartialEq, Eq, Structural)]
pub enum Verdict {
    /// It is bound.
    Bound,
    /// It has no keys: nothing is bound and nothing is wrong.
    Empty,
    /// It is skipped.
    Skipped(Problem),
}

impl CommandKeymap {
    /// Every key token was recognised.
    pub open spec fn keys_parsed(self) -> bool {
        forall|i: int| 0 <= i < self.keys@.len() ==> (#[trigger] self.keys@[i]) is Ok
    }

    /// The declared key sequence.
    pub open spec fn path(self) -> Seq<KeyEvent> {
        Seq::new(self.keys@.len(), |i: int| self.keys@[i]->Ok_0)
    }

    /// The declared key sequence, unless a token was refused.
    pub fn events(&self) -> (r: Option<Vec<KeyEvent>>)
        ensures
            r is Some <==> self.keys_parsed(),
            r matches Some(events) ==> events@ == self.path(),
    {
        let mut events: Vec<KeyEvent> = Vec::new();
        let mut i: usize = 0;
        while i < self.keys.len()
            invariant
                i <= self.keys@.len(),
                events@.len() == i,
                forall|j: int| 0 <= j < i ==> (#[trigger] self.keys@[j]) is Ok,
                forall|j: int| 0 <= j < i ==> events@[j] == self.keys@[j]->Ok_0,
            decreases self.keys@.len() - i,
        {
            match &self.keys[i] {
                Ok(event) => events.push(*event),
                Err(_) => {
                    return None;
                },
            }
            i += 1;
        }
        assert(events@ =~= self.path());
        Some(events)
    }
}

/// Declaration `j` is bound when the first `j` declarations have been
/// processed in order and `j` after them.
pub open spec fn is_bound_decl(bindings: Seq<CommandKeymap>, j: int) -> bool
    decreases j, 4int,
{
    0 <= j < bindings.len() && verdict(bindings, j) is Bound
}

/// One of the first `n` declarations is bound to exactly `q`.
pub open spec fn bound_to(bindings: Seq<CommandKeymap>, n: int, q: Seq<KeyEvent>) -> bool
    decreases n, 1int,
{
    exists|j: int| 0 <= j < n && is_bound_decl(bindings, j) && (#[trigger] bindings[j]).path() == q
}

/// One of the first `n` declarations is bound to `q` for `filetype`.
pub open spec fn bound_for(
    bindings: Seq<CommandKeymap>,
    n: int,
    q: Seq<KeyEvent>,
    filetype: Option<FileType>,
) -> bool
    decreases n, 1int,
{
    exists|j: int|
        0 <= j < n && is_bound_decl(bindings, j) && (#[trigger] bindings[j]).path() == q
            && bindings[j].filetype == filetype
}

/// One of the first `n` declarations is bound to a key sequence that goes on
/// after `q`.
pub open spec fn bound_beyond(bindings: Seq<CommandKeymap>, n: int, q: Seq<KeyEvent>) -> bool
    decreases n, 1int,
{
    exists|j: int|
        0 <= j < n && is_bound_decl(bindings, j) && is_strict_prefix(
            q,
            (#[trigger] bindings[j]).path(),
        )
}

/// One of the first `n` declarations is bound to a shorter beginning of `q`.
pub open spec fn bound_before(bindings: Seq<CommandKeymap>, n: int, q: Seq<KeyEvent>) -> bool
    decreases n, 1int,
{
    exists|j: int|
        0 <= j < n && is_bound_decl(bindings, j) && is_strict_prefix(
            (#[trigger] bindings[j]).path(),
            q,
        )
}

/// What stands against binding `q` for `filetype` after the first `n`
/// declarations.
pub open spec fn declared_conflict(
    bindings: Seq<CommandKeymap>,
    n: int,
    q: Seq<KeyEvent>,
    filetype: Option<FileType>,
) -> Option<Conflict>
    decreases n, 2int,
{
    if bound_before(bindings, n, q) {
        Some(Conflict::ExtendsBinding)
    } else if bound_beyond(bindings, n, q) {
        Some(Conflict::PrefixOfBinding)
    } else if bound_for(bindings, n, q, filetype) {
        Some(Conflict::SlotTaken)
    } else {
        None
    }
}

/// What becomes of declaration `i` when the declarations are processed in
/// order: earlier bindings win.
pub open spec fn verdict(bindings: Seq<CommandKeymap>, i: int) -> Verdict
    recommends
        0 <= i < bindings.len(),
    decreases i, 3int,
{
    let declared = bindings[i];
    if declared.command is Err {
        Verdict::Skipped(Problem::UnknownCommand)
    } else if !declared.keys_parsed() {
        Verdict::Skipped(Problem::UnknownKey)
    } else if declared.path().len() == 0 {
        Verdict::Empty
    } else {
        match declared_conflict(bindings, i, declared.path(), declared.filetype) {
            Some(conflict) => Verdict::Skipped(
                Problem::Ambiguous(AmbiguityError { command: declared.command->Ok_0, conflict }),
            ),
            None => Verdict::Bound,
        }
    }
}

/// The diagnostics that the first `n` declarations give rise to, in the order
/// of the declarations.
pub open spec fn diagnostics_of(bindings: Seq<CommandKeymap>, n: int) -> Seq<Diagnostic>
    decreases n,
{
    if n <= 0 {
        Seq::empty()
    } else {
        let earlier = diagnostics_of(bindings, n - 1);
        match verdict(bindings, n - 1) {
            Verdict::Skipped(problem) => earlier.push(
                Diagnostic { binding: (n - 1) as usize, problem },
            ),
            _ => earlier,
        }
    }
}

/// The file types for which the first `n` declarations bind `q`, in the order
/// of the declarations.
pub open spec fn declared_filetypes(bindings: Seq<CommandKeymap>, n: int, q: Seq<KeyEvent>) -> Seq<
    Option<FileType>,
>
    decreases n,
{
    if n <= 0 {
        Seq::empty()
    } else {
        let earlier = declared_filetypes(bindings, n - 1, q);
        if is_bound_decl(bindings, n - 1) && bindings[n - 1].path() == q {
            earlier.push(bindings[n - 1].filetype)
        } else {
            earlier
        }
    }
}

/// The keys that the first `n` declarations bind at the level that `q`
/// leads to, each where it is first bound.
pub open spec fn declared_keys(bindings: Seq<CommandKeymap>, n: int, q: Seq<KeyEvent>) -> Seq<
    KeyEvent,
>
    decreases n,
{
    if n <= 0 {
        Seq::empty()
    } else {
        let earlier = declared_keys(bindings, n - 1, q);
        let path = bindings[n - 1].path();
        if is_bound_decl(bindings, n - 1) && is_strict_prefix(q, path) && !earlier.contains(
            path[q.len() as int],
        ) {
            earlier.push(path[q.len() as int])
        } else {
            earlier
        }
    }
}

/// The description that the first `n` declarations give to the binding of
/// `q`: that of the last one bound there that gives one.
pub open spec fn declared_description(bindings: Seq<CommandKeymap>, n: int, q: Seq<KeyEvent>) -> Option<
    String,
>
    decreases n,
{
    if n <= 0 {
        None
    } else {
        let earlier = declared_description(bindings, n - 1, q);
        if is_bound_decl(bindings, n - 1) && bindings[n - 1].path() == q
            && bindings[n - 1].description is Some {
            bindings[n - 1].description
        } else {
            earlier
        }
    }
}

/// At the key sequence `q`, `keymap` holds what the first `n` declarations
/// bind there and nothing else.
pub open spec fn holds_at(
    keymap: KeyMapping,
    bindings: Seq<CommandKeymap>,
    n: int,
    q: Seq<KeyEvent>,
) -> bool {
    let node = keymap.node_at(q);
    &&& keymap.is_bound(q) <==> bound_to(bindings, n, q)
    &&& keymap.is_partial(q) <==> bound_beyond(bindings, n, q)
    &&& filetypes_of(node) == declared_filetypes(bindings, n, q)
    &&& forall|filetype: Option<FileType>| #[trigger]
        commands_of(node).contains_key(filetype) <==> bound_for(bindings, n, q, filetype)
    &&& forall|j: int|
        0 <= j < n && is_bound_decl(bindings, j) && (#[trigger] bindings[j]).path() == q
            ==> commands_of(node)[bindings[j].filetype] == seq![bindings[j].command->Ok_0]
    &&& description_of(node) == declared_description(bindings, n, q)
}

/// `keymap` holds exactly what the first `n` declarations bind, with the
/// keys of every level in the order in which the declarations bind them.
pub open spec fn holds(keymap: KeyMapping, bindings: Seq<CommandKeymap>, n: int) -> bool {
    &&& forall|q: Seq<KeyEvent>| q.len() > 0 ==> #[trigger] holds_at(keymap, bindings, n, q)
    &&& forall|q: Seq<KeyEvent>| #[trigger] keymap.keys_at(q) == declared_keys(bindings, n, q)
}

/// A mapping that holds the first `n` declarations refuses a binding for the
/// reason that the declarations give.
pub proof fn lemma_conflict_declared(
    keymap: KeyMapping,
    bindings: Seq<CommandKeymap>,
    n: int,
    p: Seq<KeyEvent>,
    filetype: Option<FileType>,
)
    requires
        holds(keymap, bindings, n),
        0 <= n <= bindings.len(),
        p.len() > 0,
    ensures
        keymap.conflict(p, filetype) == declared_conflict(bindings, n, p, filetype),
{
    assert(holds_at(keymap, bindings, n, p));
    if exists|i: int| 0 < i < p.len() && #[trigger] keymap.is_bound(p.take(i)) {
        let i = choose|i: int| 0 < i < p.len() && #[trigger] keymap.is_bound(p.take(i));
        assert(holds_at(keymap, bindings, n, p.take(i)));
        let j = choose|j: int|
            0 <= j < n && is_bound_decl(bindings, j) && (#[trigger] bindings[j]).path() == p.take(i);
        assert(is_strict_prefix(bindings[j].path(), p));
    }
    if bound_before(bindings, n, p) {
        assert(exists|j: int|
            0 <= j < n && is_bound_decl(bindings, j) && is_strict_prefix(
                (#[trigger] bindings[j]).path(),
                p,
            ));
        let j = choose|j: int|
            0 <= j < n && is_bound_decl(bindings, j) && is_strict_prefix(
                (#[trigger] bindings[j]).path(),
                p,
            );
        let i = bindings[j].path().len() as int;
        assert(p.take(i) =~= bindings[j].path());
        assert(holds_at(keymap, bindings, n, p.take(i)));
        assert(keymap.is_bound(p.take(i)));
    }
}

/// A declaration that is not bound, because a token of it was refused,
/// because it has no keys or because it collides with an earlier one, leaves
/// the mapping as it is: what holds the declarations before it holds them
/// with it.
pub proof fn lemma_holds_skip(keymap: KeyMapping, bindings: Seq<CommandKeymap>, n: int)
    requires
        holds(keymap, bindings, n),
        0 <= n < bindings.len(),
        !is_bound_decl(bindings, n),
    ensures
        holds(keymap, bindings, n + 1),
{
    assert forall|q: Seq<KeyEvent>| q.len() > 0 implies #[trigger] holds_at(
        keymap,
        bindings,
        n + 1,
        q,
    ) by {
        assert(holds_at(keymap, bindings, n, q));
    }
}

/// A declaration that is bound takes the mapping one step on: binding it
/// in what holds the declarations before it gives what holds them with it.
pub proof fn lemma_holds_bind(
    after: KeyMapping,
    keymap: KeyMapping,
    bindings: Seq<CommandKeymap>,
    n: int,
)
    requires
        holds(keymap, bindings, n),
        0 <= n < bindings.len(),
        is_bound_decl(bindings, n),
        after.binds(
            keymap,
            bindings[n].path(),
            bindings[n].filetype,
            bindings[n].command->Ok_0,
            bindings[n].description,
        ),
    ensures
        holds(after, bindings, n + 1),
{
    let p = bindings[n].path();
    let filetype = bindings[n].filetype;
    assert(declared_conflict(bindings, n, p, filetype) is None);
    assert(holds_at(keymap, bindings, n, p));
    assert forall|q: Seq<KeyEvent>| q.len() > 0 implies #[trigger] holds_at(
        after,
        bindings,
        n + 1,
        q,
    ) by {
        assert(holds_at(keymap, bindings, n, q));
        if q == p {
            assert(after.is_bound(q));
            assert(!after.is_partial(q));
        } else if q.is_prefix_of(p) {
            if q.len() == p.len() {
                assert(q =~= p);
            }
            assert(q =~= p.take(q.len() as int));
            assert(after.is_partial(p.take(q.len() as int)));
            assert(is_strict_prefix(q, p));
            assert(!after.is_bound(q));
            assert(!bound_to(bindings, n, q));
        } else {
            assert(after.node_at(q) == keymap.node_at(q));
            assert(!is_strict_prefix(q, p));
        }
    }
}

/// Builds a key mapping from declared bindings, in the order of their
/// declaration.
///
/// A binding with a refused token, or one that collides with an earlier
/// binding, is skipped with a diagnostic; the others are bound, each with
/// its description where it has one.
pub fn vec_to_map(bindings: &Vec<CommandKeymap>) -> (r: (KeyMapping, Vec<Diagnostic>))
    ensures
        r.0.wf(),
        holds(r.0, bindings@, bindings@.len() as int),
        r.1@ == diagnostics_of(bindings@, bindings@.len() as int),
{
    let mut keymap = KeyMapping::new();
    let mut diagnostics: Vec<Diagnostic> = Vec::new();
    let mut i: usize = 0;
    proof {
        lemma_holds_none(keymap, bindings@);
    }
    while i < bindings.len()
        invariant
            i <= bindings@.len(),
            keymap.wf(),
            holds(keymap, bindings@, i as int),
            diagnostics@ == diagnostics_of(bindings@, i as int),
        decreases bindings@.len() - i,
    {
        let declared = &bindings[i];
        let ghost before = keymap;
        match &declared.command {
            Err(_) => {
                diagnostics.push(Diagnostic { binding: i, problem: Problem::UnknownCommand });
            },
            Ok(command) => match declared.events() {
                None => {
                    diagnostics.push(Diagnostic { binding: i, problem: Problem::UnknownKey });
                },
                Some(events) => {
                    proof {
                        if events@.len() > 0 {
                            lemma_conflict_declared(
                                keymap,
                                bindings@,
                                i as int,
                                events@,
                                declared.filetype,
                            );
                        }
                    }
                    let description = match &declared.description {
                        Some(text) => Some(text.clone()),
                        None => None,
                    };
                    match insert_described(
                        &mut keymap,
                        *command,
                        description,
                        declared.filetype,
                        &events,
                    ) {
                        Ok(_) => {},
                        Err(error) => {
                            diagnostics.push(
                                Diagnostic { binding: i, problem: Problem::Ambiguous(error) },
                            );
                        },
                    }
                },
            },
        }
        proof {
            if is_bound_decl(bindings@, i as int) {
                lemma_holds_bind(keymap, before, bindings@, i as int);
            } else {
                lemma_holds_skip(keymap, bindings@, i as int);
            }
        }
        i += 1;
    }
    (keymap, diagnostics)
}

/// A mapping without keys holds what no declarations bind.
pub proof fn lemma_holds_none(keymap: KeyMapping, bindings: Seq<CommandKeymap>)
    requires
        keymap@ == Map::<KeyEvent, CommandKeybind>::empty(),
        keymap.keys() == Seq::<KeyEvent>::empty(),
    ensures
        holds(keymap, bindings, 0),
{
    assert forall|q: Seq<KeyEvent>| q.len() > 0 implies #[trigger] holds_at(
        keymap,
        bindings,
        0,
        q,
    ) by {
        lemma_empty_unbound(keymap, q);
    }
    assert forall|q: Seq<KeyEvent>| #[trigger]
        keymap.keys_at(q) == declared_keys(bindings, 0, q) by {
        lemma_empty_unbound(keymap, q);
    }
}

/// Nothing is bound in a mapping without keys.
pub proof fn lemma_empty_unbound(keymap: KeyMapping, q: Seq<KeyEvent>)
    requires
        keymap@ == Map::<KeyEvent, CommandKeybind>::empty(),
    ensures
        keymap.node_at(q) is None,
{
}

/// The key mappings of the application, one for each of its views.
///
/// The three are separate name spaces: a key bound in one is not bound in
/// another.
#[derive(Debug)]
pub struct AppKeyMapping {
    pub default_view: KeyMapping,
    pub task_view: KeyMapping,
    pub help_view: KeyMapping,
}

/// The declared bindings of one view.
#[derive(Debug)]
pub struct AppModeKeyMapping {
    pub keymap: Vec<CommandKeymap>,
}

/// The declared bindings of the application, view by view.
#[derive(Debug)]
pub struct AppKeyMappingRaw {
    pub default_view: AppModeKeyMapping,
    pub task_view: AppModeKeyMapping,
    pub help_view: AppModeKeyMapping,
}

impl AppKeyMapping {
    /// Every view's mapping is well formed.
    pub open spec fn wf(self) -> bool {
        self.default_view.wf() && self.task_view.wf() && self.help_view.wf()
    }

    /// Key mappings with nothing bound in any view.
    pub fn new() -> (keymaps: AppKeyMapping)
        ensures
            keymaps.wf(),
            keymaps.default_view@ == Map::<KeyEvent, CommandKeybind>::empty(),
            keymaps.task_view@ == Map::<KeyEvent, CommandKeybind>::empty(),
            keymaps.help_view@ == Map::<KeyEvent, CommandKeybind>::empty(),
            keymaps.default_view.keys() == Seq::<KeyEvent>::empty(),
            keymaps.task_view.keys() == Seq::<KeyEvent>::empty(),
            keymaps.help_view.keys() == Seq::<KeyEvent>::empty(),
    {
        AppKeyMapping {
            default_view: KeyMapping::new(),
            task_view: KeyMapping::new(),
            help_view: KeyMapping::new(),
        }
    }

    /// Builds each view's mapping from the bindings declared for that view
    /// and returns the declarations that were skipped, view by view.
    pub fn from_raw(raw: &AppKeyMappingRaw) -> (r: (AppKeyMapping, AppDiagnostics))
        ensures
            r.0.wf(),
            holds(r.0.default_view, raw.default_view.keymap@, raw.default_view.keymap@.len() as int),
            holds(r.0.task_view, raw.task_view.keymap@, raw.task_view.keymap@.len() as int),
            holds(r.0.help_view, raw.help_view.keymap@, raw.help_view.keymap@.len() as int),
            r.1.default_view@ == diagnostics_of(
                raw.default_view.keymap@,
                raw.default_view.keymap@.len() as int,
            ),
            r.1.task_view@ == diagnostics_of(
                raw.task_view.keymap@,
                raw.task_view.keymap@.len() as int,
            ),
            r.1.help_view@ == diagnostics_of(
                raw.help_view.keymap@,
                raw.help_view.keymap@.len() as int,
            ),
    {
        let (default_view, default_diagnostics) = vec_to_map(&raw.default_view.keymap);
        let (task_view, task_diagnostics) = vec_to_map(&raw.task_view.keymap);
        let (help_view, help_diagnostics) = vec_to_map(&raw.help_view.keymap);
        (
            AppKeyMapping { default_view, task_view, help_view },
            AppDiagnostics {
                default_view: default_diagnostics,
                task_view: task_diagnostics,
                help_view: help_diagnostics,
            },
        )
    }
}

/// The declarations that were skipped, view by view.
#[derive(Debug)]
pub struct AppDiagnostics {
    pub default_view: Vec<Diagnostic>,
    pub task_view: Vec<Diagnostic>,
    pub help_view: Vec<Diagnostic>,
}

impl CommandKeymap {
    /// Every token was recognised and there is at least one key.
    pub open spec fn bindable(self) -> bool {
        self.command is Ok && self.keys_parsed() && self.path().len() > 0
    }
}

/// `declared` was skipped because it collides with an earlier binding.
pub open spec fn is_ambiguous(declared: Verdict) -> bool {
    declared matches Verdict::Skipped(Problem::Ambiguous(_))
}

/// Every declaration that is skipped has its diagnostic.
pub proof fn lemma_skipped_reported(bindings: Seq<CommandKeymap>, n: int, j: int)
    requires
        0 <= j < n,
        verdict(bindings, j) is Skipped,
    ensures
        diagnostics_of(bindings, n).contains(
            Diagnostic { binding: j as usize, problem: verdict(bindings, j)->Skipped_0 },
        ),
    decreases n,
{
    let wanted = Diagnostic { binding: j as usize, problem: verdict(bindings, j)->Skipped_0 };
    let earlier = diagnostics_of(bindings, n - 1);
    if j == n - 1 {
        assert(earlier.push(wanted).last() == wanted);
    } else {
        lemma_skipped_reported(bindings, n - 1, j);
        let at = choose|at: int| 0 <= at < earlier.len() && earlier[at] == wanted;
        assert(diagnostics_of(bindings, n)[at] == wanted);
    }
}

/// Of two declarations that name the same keys for the same file type, at
/// most one is bound. Each one that is not bound is skipped as ambiguous and
/// has its diagnostic.
pub proof fn lemma_one_binding_per_slot(bindings: Seq<CommandKeymap>, i: int, j: int)
    requires
        0 <= i < j < bindings.len(),
        bindings[i].bindable(),
        bindings[j].bindable(),
        bindings[i].path() == bindings[j].path(),
        bindings[i].filetype == bindings[j].filetype,
    ensures
        !(is_bound_decl(bindings, i) && is_bound_decl(bindings, j)),
        !is_bound_decl(bindings, i) ==> is_ambiguous(verdict(bindings, i)) && diagnostics_of(
            bindings,
            bindings.len() as int,
        ).contains(
            Diagnostic { binding: i as usize, problem: verdict(bindings, i)->Skipped_0 },
        ),
        !is_bound_decl(bindings, j) ==> is_ambiguous(verdict(bindings, j)) && diagnostics_of(
            bindings,
            bindings.len() as int,
        ).contains(
            Diagnostic { binding: j as usize, problem: verdict(bindings, j)->Skipped_0 },
        ),
{
    if is_bound_decl(bindings, i) {
        assert(bound_for(bindings, j, bindings[j].path(), bindings[j].filetype));
    }
    if !is_bound_decl(bindings, i) {
        lemma_skipped_reported(bindings, bindings.len() as int, i);
    }
    if !is_bound_decl(bindings, j) {
        lemma_skipped_reported(bindings, bindings.len() as int, j);
    }
}

/// The two declarations cannot both be bound: they name the same keys for
/// the same file type, or the keys of one are a shorter beginning of the
/// keys of the other.
pub open spec fn clash(a: CommandKeymap, b: CommandKeymap) -> bool {
    ||| a.path() == b.path() && a.filetype == b.filetype
    ||| is_strict_prefix(a.path(), b.path())
    ||| is_strict_prefix(b.path(), a.path())
}

/// Every declaration can be bound, and no two of them clash.
pub open spec fn conflict_free(bindings: Seq<CommandKeymap>) -> bool {
    &&& forall|i: int| 0 <= i < bindings.len() ==> (#[trigger] bindings[i]).bindable()
    &&& forall|i: int, j: int|
        0 <= i < j < bindings.len() ==> !clash(#[trigger] bindings[i], #[trigger] bindings[j])
}

/// At the key sequence `q`, the two mappings bind the same: both bind it or
/// neither does, both ask for more keys or neither does, and the same
/// commands are bound for the same file types.
pub open spec fn same_bindings_at(first: KeyMapping, second: KeyMapping, q: Seq<KeyEvent>) -> bool {
    &&& first.is_bound(q) == second.is_bound(q)
    &&& first.is_partial(q) == second.is_partial(q)
    &&& commands_of(first.node_at(q)) == commands_of(second.node_at(q))
}

/// Where no two declarations clash, every one of them is bound.
pub proof fn lemma_conflict_free_all_bound(bindings: Seq<CommandKeymap>, i: int)
    requires
        conflict_free(bindings),
        0 <= i < bindings.len(),
    ensures
        is_bound_decl(bindings, i),
{
    let p = bindings[i].path();
    if bound_before(bindings, i, p) {
        let j = choose|j: int|
            0 <= j < i && is_bound_decl(bindings, j) && is_strict_prefix(
                (#[trigger] bindings[j]).path(),
                p,
            );
        assert(clash(bindings[j], bindings[i]));
    }
    if bound_beyond(bindings, i, p) {
        let j = choose|j: int|
            0 <= j < i && is_bound_decl(bindings, j) && is_strict_prefix(
                p,
                (#[trigger] bindings[j]).path(),
            );
        assert(clash(bindings[j], bindings[i]));
    }
    if bound_for(bindings, i, p, bindings[i].filetype) {
        let j = choose|j: int|
            0 <= j < i && is_bound_decl(bindings, j) && (#[trigger] bindings[j]).path() == p
                && bindings[j].filetype == bindings[i].filetype;
        assert(clash(bindings[j], bindings[i]));
    }
}

/// Where no two declarations clash, there is no diagnostic.
pub proof fn lemma_conflict_free_no_diagnostics(bindings: Seq<CommandKeymap>, n: int)
    requires
        conflict_free(bindings),
        0 <= n <= bindings.len(),
    ensures
        diagnostics_of(bindings, n) == Seq::<Diagnostic>::empty(),
    decreases n,
{
    if n > 0 {
        lemma_conflict_free_no_diagnostics(bindings, n - 1);
        lemma_conflict_free_all_bound(bindings, n - 1);
    }
}

/// Where no two declarations clash, the mapping built from them binds each
/// declared key sequence, for its file type, to the declared command alone,
/// and binds nothing that is not declared.
pub proof fn lemma_conflict_free_binds_all(keymap: KeyMapping, bindings: Seq<CommandKeymap>)
    requires
        conflict_free(bindings),
        holds(keymap, bindings, bindings.len() as int),
    ensures
        forall|i: int|
            0 <= i < bindings.len() ==> {
                let node = keymap.node_at((#[trigger] bindings[i]).path());
                &&& keymap.is_bound(bindings[i].path())
                &&& commands_of(node).contains_key(bindings[i].filetype)
                &&& commands_of(node)[bindings[i].filetype] == seq![bindings[i].command->Ok_0]
            },
        forall|q: Seq<KeyEvent>, filetype: Option<FileType>|
            q.len() > 0 && #[trigger] commands_of(keymap.node_at(q)).contains_key(filetype)
                ==> exists|i: int|
                0 <= i < bindings.len() && (#[trigger] bindings[i]).path() == q
                    && bindings[i].filetype == filetype,
{
    let n = bindings.len() as int;
    assert forall|i: int| 0 <= i < bindings.len() implies {
        let node = keymap.node_at((#[trigger] bindings[i]).path());
        &&& keymap.is_bound(bindings[i].path())
        &&& commands_of(node).contains_key(bindings[i].filetype)
        &&& commands_of(node)[bindings[i].filetype] == seq![bindings[i].command->Ok_0]
    } by {
        lemma_conflict_free_all_bound(bindings, i);
        let q = bindings[i].path();
        assert(holds_at(keymap, bindings, n, q));
        assert(bound_to(bindings, n, q));
        assert(bound_for(bindings, n, q, bindings[i].filetype));
    }
    assert forall|q: Seq<KeyEvent>, filetype: Option<FileType>|
        q.len() > 0 && #[trigger] commands_of(keymap.node_at(q)).contains_key(
            filetype,
        ) implies exists|i: int|
        0 <= i < bindings.len() && (#[trigger] bindings[i]).path() == q && bindings[i].filetype
            == filetype by {
        assert(holds_at(keymap, bindings, n, q));
        assert(bound_for(bindings, n, q, filetype));
    }
}

/// Declarations that do not clash do not clash in any other order either,
/// and each of them is found in the other order.
pub proof fn lemma_reordered_conflict_free(first: Seq<CommandKeymap>, second: Seq<CommandKeymap>)
    requires
        conflict_free(first),
        first.to_multiset() == second.to_multiset(),
    ensures
        conflict_free(second),
        forall|i: int| 0 <= i < first.len() ==> second.contains(#[trigger] first[i]),
        forall|i: int| 0 <= i < second.len() ==> first.contains(#[trigger] second[i]),
{
    first.to_multiset_ensures();
    second.to_multiset_ensures();
    assert forall|i: int| 0 <= i < first.len() implies second.contains(#[trigger] first[i]) by {
        assert(first.contains(first[i]));
        assert(first.to_multiset().count(first[i]) > 0);
        assert(second.to_multiset().count(first[i]) > 0);
    }
    assert forall|i: int| 0 <= i < second.len() implies first.contains(#[trigger] second[i]) by {
        assert(second.contains(second[i]));
        assert(second.to_multiset().count(second[i]) > 0);
        assert(first.to_multiset().count(second[i]) > 0);
    }
    assert(first.no_duplicates()) by {
        assert forall|i: int, j: int| 0 <= i < first.len() && 0 <= j < first.len() && i != j implies first[i]
            != first[j] by {
            if first[i] == first[j] {
                if i < j {
                    assert(clash(first[i], first[j]));
                } else {
                    assert(clash(first[j], first[i]));
                }
            }
        }
    }
    first.lemma_multiset_has_no_duplicates();
    second.lemma_multiset_has_no_duplicates_conv();
    assert forall|i: int, j: int| 0 <= i < j < second.len() implies !clash(
        #[trigger] second[i],
        #[trigger] second[j],
    ) by {
        assert(first.contains(second[i]));
        assert(first.contains(second[j]));
        let a = choose|a: int| 0 <= a < first.len() && first[a] == second[i];
        let b = choose|b: int| 0 <= b < first.len() && first[b] == second[j];
        assert(second[i] != second[j]);
        if a < b {
            assert(!clash(first[a], first[b]));
        } else {
            assert(!clash(first[b], first[a]));
        }
    }
    assert forall|i: int| 0 <= i < second.len() implies (#[trigger] second[i]).bindable() by {
        assert(first.contains(second[i]));
        let a = choose|a: int| 0 <= a < first.len() && first[a] == second[i];
        assert(first[a].bindable());
    }
}

proof fn lemma_bound_in_both(
    first_map: KeyMapping,
    first: Seq<CommandKeymap>,
    second_map: KeyMapping,
    second: Seq<CommandKeymap>,
    q: Seq<KeyEvent>,
)
    requires
        conflict_free(first),
        conflict_free(second),
        forall|i: int| 0 <= i < first.len() ==> second.contains(#[trigger] first[i]),
        holds(first_map, first, first.len() as int),
        holds(second_map, second, second.len() as int),
        q.len() > 0,
    ensures
        first_map.is_bound(q) ==> second_map.is_bound(q),
        first_map.is_partial(q) ==> second_map.is_partial(q),
        forall|filetype: Option<FileType>| #[trigger]
            commands_of(first_map.node_at(q)).contains_key(filetype) ==> commands_of(
                second_map.node_at(q),
            ).contains_key(filetype) && commands_of(second_map.node_at(q))[filetype]
                == commands_of(first_map.node_at(q))[filetype],
{
    let n = first.len() as int;
    let m = second.len() as int;
    assert(holds_at(first_map, first, n, q));
    assert(holds_at(second_map, second, m, q));
    if first_map.is_bound(q) {
        let i = choose|i: int|
            0 <= i < n && is_bound_decl(first, i) && (#[trigger] first[i]).path() == q;
        assert(second.contains(first[i]));
        let j = choose|j: int| 0 <= j < second.len() && second[j] == first[i];
        lemma_conflict_free_all_bound(second, j);
        assert(second[j].path() == q);
    }
    if first_map.is_partial(q) {
        let i = choose|i: int|
            0 <= i < n && is_bound_decl(first, i) && is_strict_prefix(
                q,
                (#[trigger] first[i]).path(),
            );
        assert(second.contains(first[i]));
        let j = choose|j: int| 0 <= j < second.len() && second[j] == first[i];
        lemma_conflict_free_all_bound(second, j);
        assert(is_strict_prefix(q, second[j].path()));
    }
    assert forall|filetype: Option<FileType>| #[trigger]
        commands_of(first_map.node_at(q)).contains_key(filetype) implies commands_of(
        second_map.node_at(q),
    ).contains_key(filetype) && commands_of(second_map.node_at(q))[filetype] == commands_of(
        first_map.node_at(q),
    )[filetype] by {
        assert(bound_for(first, n, q, filetype));
        let i = choose|i: int|
            0 <= i < n && is_bound_decl(first, i) && (#[trigger] first[i]).path() == q
                && first[i].filetype == filetype;
        assert(second.contains(first[i]));
        let j = choose|j: int| 0 <= j < second.len() && second[j] == first[i];
        lemma_conflict_free_all_bound(second, j);
        assert(second[j].path() == q && second[j].filetype == filetype);
        assert(bound_for(second, m, q, filetype));
    }
}

/// The order of declarations that do not clash does not matter to what is
/// bound: built from the same declarations in another order, a mapping binds
/// the same key sequences, for the same file types, to the same commands,
/// and neither build has a diagnostic.
///
/// What follows the order of the declarations is the order of the keys of a
/// level and of the file types of a binding, and which description stays
/// where several are given for one key sequence.
pub proof fn lemma_order_does_not_matter(
    first_map: KeyMapping,
    first: Seq<CommandKeymap>,
    second_map: KeyMapping,
    second: Seq<CommandKeymap>,
)
    requires
        conflict_free(first),
        first.to_multiset() == second.to_multiset(),
        holds(first_map, first, first.len() as int),
        holds(second_map, second, second.len() as int),
    ensures
        diagnostics_of(first, first.len() as int) == Seq::<Diagnostic>::empty(),
        diagnostics_of(second, second.len() as int) == Seq::<Diagnostic>::empty(),
        forall|q: Seq<KeyEvent>|
            q.len() > 0 ==> #[trigger] same_bindings_at(first_map, second_map, q),
{
    lemma_reordered_conflict_free(first, second);
    lemma_conflict_free_no_diagnostics(first, first.len() as int);
    lemma_conflict_free_no_diagnostics(second, second.len() as int);
    assert forall|q: Seq<KeyEvent>| q.len() > 0 implies #[trigger] same_bindings_at(
        first_map,
        second_map,
        q,
    ) by {
        lemma_bound_in_both(first_map, first, second_map, second, q);
        lemma_bound_in_both(second_map, second, first_map, first, q);
        assert(commands_of(first_map.node_at(q)) =~= commands_of(second_map.node_at(q)));
    }
}

/// The place that the declaration at `j` has before the declaration at `i`
/// is taken out.
pub open spec fn place_before_removal(i: int, j: int) -> int {
    if j < i {
        j
    } else {
        j + 1
    }
}

/// Without a declaration that is not bound, the same becomes of every other
/// declaration.
pub proof fn lemma_verdict_without(bindings: Seq<CommandKeymap>, i: int, j: int)
    requires
        0 <= i < bindings.len(),
        !is_bound_decl(bindings, i),
        0 <= j < bindings.len() - 1,
    ensures
        verdict(bindings.remove(i), j) == verdict(bindings, place_before_removal(i, j)),
    decreases j,
{
    let rest = bindings.remove(i);
    let at = place_before_removal(i, j);
    let p = rest[j].path();
    let filetype = rest[j].filetype;
    assert(rest[j] == bindings[at]);
    assert forall|k: int| 0 <= k < j implies is_bound_decl(rest, k) == is_bound_decl(
        bindings,
        place_before_removal(i, k),
    ) && #[trigger] rest[k] == bindings[place_before_removal(i, k)] by {
        lemma_verdict_without(bindings, i, k);
    }
    if bound_before(rest, j, p) {
        let k = choose|k: int|
            0 <= k < j && is_bound_decl(rest, k) && is_strict_prefix((#[trigger] rest[k]).path(), p);
        assert(is_strict_prefix(bindings[place_before_removal(i, k)].path(), p));
    }
    if bound_before(bindings, at, p) {
        let k = choose|k: int|
            0 <= k < at && is_bound_decl(bindings, k) && is_strict_prefix(
                (#[trigger] bindings[k]).path(),
                p,
            );
        let back = if k < i { k } else { k - 1 };
        assert(is_strict_prefix(rest[back].path(), p));
    }
    if bound_beyond(rest, j, p) {
        let k = choose|k: int|
            0 <= k < j && is_bound_decl(rest, k) && is_strict_prefix(p, (#[trigger] rest[k]).path());
        assert(is_strict_prefix(p, bindings[place_before_removal(i, k)].path()));
    }
    if bound_beyond(bindings, at, p) {
        let k = choose|k: int|
            0 <= k < at && is_bound_decl(bindings, k) && is_strict_prefix(
                p,
                (#[trigger] bindings[k]).path(),
            );
        let back = if k < i { k } else { k - 1 };
        assert(is_strict_prefix(p, rest[back].path()));
    }
    if bound_for(rest, j, p, filetype) {
        let k = choose|k: int|
            0 <= k < j && is_bound_decl(rest, k) && (#[trigger] rest[k]).path() == p
                && rest[k].filetype == filetype;
        assert(bindings[place_before_removal(i, k)].path() == p);
    }
    if bound_for(bindings, at, p, filetype) {
        let k = choose|k: int|
            0 <= k < at && is_bound_decl(bindings, k) && (#[trigger] bindings[k]).path() == p
                && bindings[k].filetype == filetype;
        let back = if k < i { k } else { k - 1 };
        assert(rest[back].path() == p);
    }
}

proof fn lemma_declared_without(bindings: Seq<CommandKeymap>, i: int, n: int, q: Seq<KeyEvent>)
    requires
        0 <= i < bindings.len(),
        !is_bound_decl(bindings, i),
        0 <= n <= bindings.len() - 1,
    ensures
        ({
            let rest = bindings.remove(i);
            let m = if n <= i { n } else { n + 1 };
            &&& declared_filetypes(rest, n, q) == declared_filetypes(bindings, m, q)
            &&& declared_keys(rest, n, q) == declared_keys(bindings, m, q)
            &&& declared_description(rest, n, q) == declared_description(bindings, m, q)
        }),
    decreases n,
{
    let rest = bindings.remove(i);
    if n > 0 {
        lemma_declared_without(bindings, i, n - 1, q);
        lemma_verdict_without(bindings, i, n - 1);
        assert(rest[n - 1] == bindings[place_before_removal(i, n - 1)]);
        if n == i + 1 {
            lemma_declared_skip(bindings, i, q);
        }
    }
}

proof fn lemma_declared_skip(bindings: Seq<CommandKeymap>, i: int, q: Seq<KeyEvent>)
    requires
        0 <= i < bindings.len(),
        !is_bound_decl(bindings, i),
    ensures
        declared_filetypes(bindings, i + 1, q) == declared_filetypes(bindings, i, q),
        declared_keys(bindings, i + 1, q) == declared_keys(bindings, i, q),
        declared_description(bindings, i + 1, q) == declared_description(bindings, i, q),
{
}

/// A declaration that is not bound could as well not be declared: a mapping
/// that holds what the declarations bind holds what they bind without it.
pub proof fn lemma_holds_without(keymap: KeyMapping, bindings: Seq<CommandKeymap>, i: int)
    requires
        0 <= i < bindings.len(),
        !is_bound_decl(bindings, i),
        holds(keymap, bindings, bindings.len() as int),
    ensures
        holds(keymap, bindings.remove(i), bindings.len() - 1),
{
    let rest = bindings.remove(i);
    let n = bindings.len() as int;
    assert forall|k: int| 0 <= k < n - 1 implies is_bound_decl(rest, k) == is_bound_decl(
        bindings,
        place_before_removal(i, k),
    ) && #[trigger] rest[k] == bindings[place_before_removal(i, k)] by {
        lemma_verdict_without(bindings, i, k);
    }
    assert forall|q: Seq<KeyEvent>| #[trigger]
        keymap.keys_at(q) == declared_keys(rest, n - 1, q) by {
        lemma_declared_without(bindings, i, n - 1, q);
        lemma_declared_skip(bindings, i, q);
    }
    assert forall|q: Seq<KeyEvent>| q.len() > 0 implies #[trigger] holds_at(
        keymap,
        rest,
        n - 1,
        q,
    ) by {
        assert(holds_at(keymap, bindings, n, q));
        lemma_declared_without(bindings, i, n - 1, q);
        lemma_declared_skip(bindings, i, q);
        if bound_to(rest, n - 1, q) {
            let k = choose|k: int|
                0 <= k < n - 1 && is_bound_decl(rest, k) && (#[trigger] rest[k]).path() == q;
            assert(bindings[place_before_removal(i, k)].path() == q);
        }
        if bound_to(bindings, n, q) {
            let k = choose|k: int|
                0 <= k < n && is_bound_decl(bindings, k) && (#[trigger] bindings[k]).path() == q;
            let back = if k < i { k } else { k - 1 };
            assert(rest[back].path() == q);
        }
        if bound_beyond(rest, n - 1, q) {
            let k = choose|k: int|
                0 <= k < n - 1 && is_bound_decl(rest, k) && is_strict_prefix(
                    q,
                    (#[trigger] rest[k]).path(),
                );
            assert(is_strict_prefix(q, bindings[place_before_removal(i, k)].path()));
        }
        if bound_beyond(bindings, n, q) {
            let k = choose|k: int|
                0 <= k < n && is_bound_decl(bindings, k) && is_strict_prefix(
                    q,
                    (#[trigger] bindings[k]).path(),
                );
            let back = if k < i { k } else { k - 1 };
            assert(is_strict_prefix(q, rest[back].path()));
        }
        let node = keymap.node_at(q);
        assert forall|filetype: Option<FileType>| #[trigger]
            commands_of(node).contains_key(filetype) <==> bound_for(rest, n - 1, q, filetype) by {
            if bound_for(rest, n - 1, q, filetype) {
                let k = choose|k: int|
                    0 <= k < n - 1 && is_bound_decl(rest, k) && (#[trigger] rest[k]).path() == q
                        && rest[k].filetype == filetype;
                assert(bindings[place_before_removal(i, k)].path() == q);
            }
            if bound_for(bindings, n, q, filetype) {
                let k = choose|k: int|
                    0 <= k < n && is_bound_decl(bindings, k) && (#[trigger] bindings[k]).path()
                        == q && bindings[k].filetype == filetype;
                let back = if k < i { k } else { k - 1 };
                assert(rest[back].path() == q);
            }
        }
        assert forall|j: int|
            0 <= j < n - 1 && is_bound_decl(rest, j) && (#[trigger] rest[j]).path()
                == q implies commands_of(node)[rest[j].filetype] == seq![rest[j].command->Ok_0] by {
            assert(bindings[place_before_removal(i, j)].path() == q);
        }
    }
}

} // verus!
