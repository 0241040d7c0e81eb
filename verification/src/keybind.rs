//! The nodes of the binding trie.

use vstd::prelude::*;
use crate::command::{Command, FileType};
use crate::keymap::KeyMapping;
use crate::text::{push_str, string_of};

verus! {

/// The commands of one complete binding, by the file type they are meant for.
///
/// `None` is the wildcard: its commands run when no entry is selected or when
/// nothing is bound for the type of the selected entry. File types keep the
/// order in which they were bound.
#[derive(Debug)]
pub struct CommandTable {
    entries: Vec<(Option<FileType>, Vec<Command>)>,
}

impl CommandTable {
    /// No file type occurs twice.
    pub closed spec fn wf(self) -> bool {
        forall|i: int, j: int|
            0 <= i < j < self.entries@.len() ==> self.entries@[i].0 != self.entries@[j].0
    }

    /// The file types that are bound, in the order in which they were bound.
    pub closed spec fn filetypes(self) -> Seq<Option<FileType>> {
        Seq::new(self.entries@.len(), |i: int| self.entries@[i].0)
    }

    /// The command lists that are bound, in the order in which they were
    /// bound: the list at a place is bound for the file type at that place.
    pub closed spec fn lists(self) -> Seq<Seq<Command>> {
        Seq::new(self.entries@.len(), |i: int| self.entries@[i].1@)
    }

    /// The commands bound for each file type.
    pub closed spec fn view(&self) -> Map<Option<FileType>, Seq<Command>> {
        Map::new(
            |t: Option<FileType>| self.filetypes().contains(t),
            |t: Option<FileType>| self.entries@[self.filetypes().index_of(t)].1@,
        )
    }

    /// There is one command list for each bound file type.
    pub proof fn lemma_lists(self)
        ensures
            self.lists().len() == self.filetypes().len(),
    {
    }

    /// The bound file types are those that commands are bound for, each
    /// listed once, and the list at the place of a file type is what is
    /// bound for it.
    pub proof fn lemma_filetypes(self)
        requires
            self.wf(),
        ensures
            self.filetypes().no_duplicates(),
            forall|t: Option<FileType>| self.filetypes().contains(t) <==> self@.contains_key(t),
            forall|i: int|
                0 <= i < self.filetypes().len() ==> self@[#[trigger] self.filetypes()[i]]
                    == self.lists()[i],
    {
        assert forall|i: int| 0 <= i < self.filetypes().len() implies self@[#[trigger] self.filetypes()[i]]
            == self.lists()[i] by {
            self.lemma_entry(i);
        }
    }

    proof fn lemma_entry(self, i: int)
        requires
            self.wf(),
            0 <= i < self.entries@.len(),
        ensures
            self@.contains_key(self.entries@[i].0),
            self@[self.entries@[i].0] == self.entries@[i].1@,
    {
        let t = self.entries@[i].0;
        assert(self.filetypes()[i] == t);
        let j = self.filetypes().index_of(t);
        assert(self.filetypes()[j] == t);
    }

    /// The commands that run when an entry of type `selected` is selected
    /// (`None`: no entry): those bound for that type, else the wildcard's.
    pub open spec fn spec_select(self, selected: Option<FileType>) -> Option<Seq<Command>> {
        if selected is Some && self@.contains_key(selected) {
            Some(self@[selected])
        } else if self@.contains_key(None) {
            Some(self@[None])
        } else {
            None
        }
    }

    /// A table with nothing bound.
    pub fn new() -> (table: CommandTable)
        ensures
            table.wf(),
            table@ == Map::<Option<FileType>, Seq<Command>>::empty(),
            table.filetypes() == Seq::<Option<FileType>>::empty(),
            table.lists() == Seq::<Seq<Command>>::empty(),
    {
        let table = CommandTable { entries: Vec::new() };
        assert(table.filetypes() =~= Seq::<Option<FileType>>::empty());
        assert(table.lists() =~= Seq::<Seq<Command>>::empty());
        assert(table@ =~= Map::<Option<FileType>, Seq<Command>>::empty());
        table
    }

    fn position(&self, filetype: Option<FileType>) -> (r: Option<usize>)
        requires
            self.wf(),
        ensures
            match r {
                Some(i) => i < self.entries@.len() && self.entries@[i as int].0 == filetype,
                None => !self@.contains_key(filetype),
            },
    {
        let mut i: usize = 0;
        while i < self.entries.len()
            invariant
                i <= self.entries@.len(),
                forall|j: int| 0 <= j < i ==> self.entries@[j].0 != filetype,
            decreases self.entries@.len() - i,
        {
            if same_filetype(self.entries[i].0, filetype) {
                return Some(i);
            }
            i += 1;
        }
        proof {
            if self.filetypes().contains(filetype) {
                let j = self.filetypes().index_of(filetype);
                assert(self.filetypes()[j] == filetype);
            }
        }
        None
    }

    /// The commands bound for exactly `filetype`.
    pub fn get(&self, filetype: Option<FileType>) -> (r: Option<&Vec<Command>>)
        requires
            self.wf(),
        ensures
            match r {
                Some(commands) => self@.contains_key(filetype) && commands@ == self@[filetype],
                None => !self@.contains_key(filetype),
            },
    {
        match self.position(filetype) {
            Some(i) => {
                proof {
                    self.lemma_entry(i as int);
                }
                Some(&self.entries[i].1)
            },
            None => None,
        }
    }

    /// Binds `commands` for `filetype` unless something is bound for it
    /// already; says whether it did.
    pub fn insert(&mut self, filetype: Option<FileType>, commands: Vec<Command>) -> (inserted: bool)
        requires
            old(self).wf(),
        ensures
            final(self).wf(),
            inserted == !old(self)@.contains_key(filetype),
            inserted ==> final(self)@ == old(self)@.insert(filetype, commands@),
            inserted ==> final(self).filetypes() == old(self).filetypes().push(filetype),
            inserted ==> final(self).lists() == old(self).lists().push(commands@),
            !inserted ==> *final(self) == *old(self),
    {
        if let Some(i) = self.position(filetype) {
            proof {
                self.lemma_entry(i as int);
            }
            return false;
        }
        proof {
            assert forall|i: int| 0 <= i < self.entries@.len() implies self.entries@[i].0
                != filetype by {
                self.lemma_entry(i);
            }
        }
        let ghost before = *self;
        self.entries.push((filetype, commands));
        proof {
            assert(self.filetypes() =~= before.filetypes().push(filetype));
            assert(self.lists() =~= before.lists().push(commands@));
            assert forall|t: Option<FileType>| #[trigger]
                self@.contains_key(t) == before@.insert(filetype, commands@).contains_key(t) by {
                if before.filetypes().contains(t) {
                    let j = before.filetypes().index_of(t);
                    assert(self.filetypes()[j] == t);
                }
                if t == filetype {
                    assert(self.filetypes()[before.entries@.len() as int] == t);
                }
            }
            assert forall|t: Option<FileType>| self@.contains_key(t) implies #[trigger] self@[t]
                == before@.insert(filetype, commands@)[t] by {
                let j = self.filetypes().index_of(t);
                assert(self.filetypes()[j] == t);
                self.lemma_entry(j);
                if j < before.entries@.len() {
                    before.lemma_entry(j);
                }
            }
            assert(self@ =~= before@.insert(filetype, commands@));
        }
        true
    }

    /// How many file types are bound.
    pub fn len(&self) -> (n: usize)
        ensures
            n == self.filetypes().len(),
    {
        self.entries.len()
    }

    /// The file type that was bound as the `i`-th, and its commands.
    pub fn entry(&self, i: usize) -> (r: (Option<FileType>, &Vec<Command>))
        requires
            i < self.filetypes().len(),
        ensures
            r.0 == self.filetypes()[i as int],
            r.1@ == self.lists()[i as int],
            self.wf() ==> self@.contains_key(r.0) && r.1@ == self@[r.0],
    {
        proof {
            if self.wf() {
                self.lemma_entry(i as int);
            }
        }
        (self.entries[i].0, &self.entries[i].1)
    }

    /// The commands for an entry of type `selected`, see [`Self::spec_select`].
    pub fn select(&self, selected: Option<FileType>) -> (r: Option<&Vec<Command>>)
        requires
            self.wf(),
        ensures
            match r {
                Some(commands) => self.spec_select(selected) == Some(commands@),
                None => self.spec_select(selected) is None,
            },
    {
        if selected.is_some() {
            let specific = self.get(selected);
            if specific.is_some() {
                return specific;
            }
        }
        self.get(None)
    }
}

/// Whether two file-type filters are the same.
pub fn same_filetype(a: Option<FileType>, b: Option<FileType>) -> (same: bool)
    ensures
        same == (a == b),
{
    match (a, b) {
        (None, None) => true,
        (Some(x), Some(y)) => x == y,
        _ => false,
    }
}

/// What a key leads to: a complete action, or a further level of keys.
#[derive(Debug)]
pub enum CommandKeybind {
    /// A complete binding: its commands by file type, and a description that,
    /// where present, is shown in place of the generated one.
    SimpleKeybind { commands: CommandTable, description: Option<String> },
    /// More keys are needed: the next level of the trie.
    CompositeKeybind(KeyMapping),
}

impl CommandKeybind {
    /// A complete binding holds at least one command list, a further level at
    /// least one key, and both are well formed throughout.
    pub open spec fn wf(self) -> bool
        decreases self,
    {
        match self {
            CommandKeybind::SimpleKeybind { commands, description } => {
                &&& commands.wf()
                &&& commands.filetypes().len() > 0
                &&& forall|t: Option<FileType>| commands@.contains_key(t) ==> commands@[t].len() > 0
            },
            CommandKeybind::CompositeKeybind(m) => m.wf() && m.keys().len() > 0,
        }
    }
}

/// How the binding of `commands` for `filetype` is written: the name of the
/// first command, then the file type.
pub open spec fn binding_text(commands: Seq<Command>, filetype: Option<FileType>) -> Seq<char> {
    commands[0].spec_name() + FileType::spec_annotation(filetype)
}

/// The first `n` bindings of `commands`, each written as by
/// [`binding_text`] with a comma and a blank after it.
pub open spec fn listing(commands: CommandTable, n: int) -> Seq<char>
    decreases n,
{
    if n <= 0 {
        Seq::empty()
    } else {
        listing(commands, n - 1) + binding_text(
            commands.lists()[n - 1],
            commands.filetypes()[n - 1],
        ) + ", "@
    }
}

/// Appends to `out` how the binding of `commands` for `filetype` is written.
pub fn push_binding(out: &mut Vec<char>, commands: &Vec<Command>, filetype: Option<FileType>)
    requires
        commands@.len() > 0,
    ensures
        final(out)@ == old(out)@ + binding_text(commands@, filetype),
{
    push_str(out, commands[0].name());
    push_str(out, FileType::annotation(filetype));
    assert(out@ =~= old(out)@ + binding_text(commands@, filetype));
}

impl CommandKeybind {
    /// The node can be shown: a complete binding without a description has
    /// a command in each of its lists, whose name stands for the list.
    pub open spec fn describable(self) -> bool {
        match self {
            CommandKeybind::SimpleKeybind { commands, description: None } => forall|i: int|
                0 <= i < commands.filetypes().len() ==> (#[trigger] commands.lists()[i]).len() > 0,
            _ => true,
        }
    }

    /// A well-formed node can be shown.
    pub proof fn lemma_wf_describable(self)
        requires
            self.wf(),
        ensures
            self.describable(),
    {
        match self {
            CommandKeybind::SimpleKeybind { commands, description } => {
                commands.lemma_filetypes();
                assert forall|i: int| 0 <= i < commands.filetypes().len() implies (
                #[trigger] commands.lists()[i]).len() > 0 by {
                    assert(commands.filetypes().contains(commands.filetypes()[i]));
                    assert(commands@[commands.filetypes()[i]] == commands.lists()[i]);
                }
            },
            _ => {},
        }
    }

    /// What a menu shows for the node: the description where one was given,
    /// else the bindings in the order in which they were bound; three dots
    /// for a node that asks for more keys.
    pub open spec fn spec_describe(self) -> Seq<char> {
        match self {
            CommandKeybind::SimpleKeybind { commands, description: Some(text) } => text@,
            CommandKeybind::SimpleKeybind { commands, description: None } => listing(
                commands,
                commands.filetypes().len() as int,
            ),
            CommandKeybind::CompositeKeybind(_) => "..."@,
        }
    }

    /// See [`Self::spec_describe`]. The node must be one that can be shown,
    /// as every well-formed node is.
    pub fn describe(&self) -> (text: String)
        requires
            self.describable() || self.wf(),
        ensures
            text@ == self.spec_describe(),
    {
        proof {
            if self.wf() {
                self.lemma_wf_describable();
            }
        }
        match self {
            CommandKeybind::SimpleKeybind { commands, description: Some(text) } => text.clone(),
            CommandKeybind::SimpleKeybind { commands, description: None } => {
                let mut out: Vec<char> = Vec::new();
                let mut i: usize = 0;
                while i < commands.len()
                    invariant
                        forall|k: int|
                            0 <= k < commands.filetypes().len() ==> (#[trigger] commands.lists()[
                                k
                            ]).len() > 0,
                        i <= commands.filetypes().len(),
                        out@ == listing(*commands, i as int),
                    decreases commands.filetypes().len() - i,
                {
                    let (filetype, list) = commands.entry(i);
                    push_binding(&mut out, list, filetype);
                    push_str(&mut out, ", ");
                    assert(out@ =~= listing(*commands, i + 1));
                    i += 1;
                }
                string_of(&out)
            },
            CommandKeybind::CompositeKeybind(_) => {
                let mut out: Vec<char> = Vec::new();
                push_str(&mut out, "...");
                assert(out@ =~= "..."@);
                string_of(&out)
            },
        }
    }
}

} // verus!
