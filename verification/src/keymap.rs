//! The key mapping: a trie from key sequences to commands.

use vstd::prelude::*;
use crate::command::{Command, FileType};
use crate::event::KeyEvent;
use crate::keybind::{CommandKeybind, CommandTable};

verus! {

/// Why a binding cannot be added to a key mapping.
#[derive(Clone, Copy, Debug, PartialEq, Eq, Structural)]
pub enum Conflict {
    /// The key sequence is bound already for the same file type.
    SlotTaken,
    /// The key sequence is the beginning of a longer one that is bound.
    PrefixOfBinding,
    /// The key sequence goes on after a shorter one that is bound.
    ExtendsBinding,
}

/// A binding that was refused because it collides with an earlier one.
#[derive(Clone, Copy, Debug, PartialEq, Eq, Structural)]
pub struct AmbiguityError {
    /// The command whose binding was refused.
    pub command: Command,
    /// What it collided with.
    pub conflict: Conflict,
}

/// `q` is a beginning of `p`, and shorter.
pub open spec fn is_strict_prefix(q: Seq<KeyEvent>, p: Seq<KeyEvent>) -> bool {
    q.len() < p.len() && q.is_prefix_of(p)
}

/// The commands bound at `node` by file type; nothing unless `node` is a
/// complete binding.
pub open spec fn commands_of(node: Option<CommandKeybind>) -> Map<Option<FileType>, Seq<Command>> {
    match node {
        Some(CommandKeybind::SimpleKeybind { commands, description }) => commands@,
        _ => Map::empty(),
    }
}

/// The file types bound at `node`, in the order in which they were bound.
pub open spec fn filetypes_of(node: Option<CommandKeybind>) -> Seq<Option<FileType>> {
    match node {
        Some(CommandKeybind::SimpleKeybind { commands, description }) => commands.filetypes(),
        _ => Seq::empty(),
    }
}

/// The description given to `node`, if any.
pub open spec fn description_of(node: Option<CommandKeybind>) -> Option<String> {
    match node {
        Some(CommandKeybind::SimpleKeybind { commands, description }) => description,
        _ => None,
    }
}

/// The description of a complete binding once a command is bound to it with
/// the description `given`: the one given, or else the one that `node` has.
pub open spec fn description_after(given: Option<String>, node: Option<CommandKeybind>) -> Option<
    String,
> {
    match given {
        Some(_) => given,
        None => description_of(node),
    }
}

/// One level of the trie: the keys bound at this level, each with its node.
///
/// Keys keep the order in which they were first bound.
#[derive(Debug)]
pub struct KeyMapping {
    entries: Vec<(KeyEvent, CommandKeybind)>,
}

impl KeyMapping {
    /// No key occurs twice at a level, and every node is well formed.
    pub closed spec fn wf(self) -> bool
        decreases self,
    {
        &&& forall|i: int, j: int|
            0 <= i < j < self.entries@.len() ==> self.entries@[i].0 != self.entries@[j].0
        &&& forall|i: int|
            0 <= i < self.entries@.len() ==> (#[trigger] self.entries@[i]).1.wf()
    }

    /// The keys bound at this level, in the order in which they were bound.
    pub closed spec fn keys(self) -> Seq<KeyEvent> {
        Seq::new(self.entries@.len(), |i: int| self.entries@[i].0)
    }

    /// The nodes of this level, in the order in which their keys were bound:
    /// the node at a place is what the key at that place leads to.
    pub closed spec fn nodes(self) -> Seq<CommandKeybind> {
        Seq::new(self.entries@.len(), |i: int| self.entries@[i].1)
    }

    /// The node that each key of this level leads to.
    pub closed spec fn view(&self) -> Map<KeyEvent, CommandKeybind> {
        Map::new(
            |k: KeyEvent| self.keys().contains(k),
            |k: KeyEvent| self.entries@[self.keys().index_of(k)].1,
        )
    }

    /// The node that the key sequence `path` leads to, if it leads anywhere.
    pub open spec fn node_at(self, path: Seq<KeyEvent>) -> Option<CommandKeybind>
        decreases path.len(),
    {
        if path.len() == 0 || !self@.contains_key(path[0]) {
            None
        } else if path.len() == 1 {
            Some(self@[path[0]])
        } else {
            match self@[path[0]] {
                CommandKeybind::CompositeKeybind(next) => next.node_at(path.skip(1)),
                CommandKeybind::SimpleKeybind { .. } => None,
            }
        }
    }

    /// The keys bound at the level that `path` leads to, in the order in
    /// which they were bound: the top level for no keys, and no key where
    /// `path` leads to no further level.
    pub open spec fn keys_at(self, path: Seq<KeyEvent>) -> Seq<KeyEvent> {
        if path.len() == 0 {
            self.keys()
        } else {
            match self.node_at(path) {
                Some(CommandKeybind::CompositeKeybind(next)) => next.keys(),
                _ => Seq::empty(),
            }
        }
    }

    /// The keys at the level that `q` leads to once `path` is bound: where
    /// `path` passes through that level with a key that is new there, the
    /// key comes after those that the level has.
    pub open spec fn keys_after(self, path: Seq<KeyEvent>, q: Seq<KeyEvent>) -> Seq<KeyEvent> {
        if is_strict_prefix(q, path) && !self.keys_at(q).contains(path[q.len() as int]) {
            self.keys_at(q).push(path[q.len() as int])
        } else {
            self.keys_at(q)
        }
    }

    /// `path` is bound: it leads to a complete binding.
    pub open spec fn is_bound(self, path: Seq<KeyEvent>) -> bool {
        self.node_at(path) matches Some(CommandKeybind::SimpleKeybind { .. })
    }

    /// `path` is the beginning of longer key sequences: more keys are needed.
    pub open spec fn is_partial(self, path: Seq<KeyEvent>) -> bool {
        self.node_at(path) matches Some(CommandKeybind::CompositeKeybind(_))
    }

    /// What stands against binding `path` for `filetype`, if anything does.
    pub open spec fn conflict(self, path: Seq<KeyEvent>, filetype: Option<FileType>) -> Option<
        Conflict,
    > {
        if exists|i: int| 0 < i < path.len() && #[trigger] self.is_bound(path.take(i)) {
            Some(Conflict::ExtendsBinding)
        } else if self.is_partial(path) {
            Some(Conflict::PrefixOfBinding)
        } else if commands_of(self.node_at(path)).contains_key(filetype) {
            Some(Conflict::SlotTaken)
        } else {
            None
        }
    }

    /// `self` is `before` with `command` bound to `path` for `filetype`:
    /// `path` leads to a complete binding that holds what `before` had there
    /// and the new command after it, every shorter beginning of `path` asks
    /// for more keys, all other key sequences lead where they led, and the
    /// keys of every level are in the order in which they were bound. The
    /// binding has the description `description` if one is given, and keeps
    /// its own if none is.
    pub open spec fn binds(
        self,
        before: KeyMapping,
        path: Seq<KeyEvent>,
        filetype: Option<FileType>,
        command: Command,
        description: Option<String>,
    ) -> bool {
        &&& forall|q: Seq<KeyEvent>|
            q.len() > 0 && !q.is_prefix_of(path) ==> #[trigger] self.node_at(q) == before.node_at(q)
        &&& forall|i: int| 0 < i < path.len() ==> #[trigger] self.is_partial(path.take(i))
        &&& self.is_bound(path)
        &&& commands_of(self.node_at(path)) == commands_of(before.node_at(path)).insert(
            filetype,
            seq![command],
        )
        &&& filetypes_of(self.node_at(path)) == filetypes_of(before.node_at(path)).push(filetype)
        &&& description_of(self.node_at(path)) == description_after(
            description,
            before.node_at(path),
        )
        &&& forall|q: Seq<KeyEvent>| #[trigger] self.keys_at(q) == before.keys_after(path, q)
    }

    proof fn lemma_entry(self, i: int)
        requires
            self.wf(),
            0 <= i < self.entries@.len(),
        ensures
            self.keys()[i] == self.entries@[i].0,
            self@.contains_key(self.entries@[i].0),
            self@[self.entries@[i].0] == self.entries@[i].1,
            self@[self.entries@[i].0].wf(),
    {
        let k = self.entries@[i].0;
        assert(self.keys()[i] == k);
        let j = self.keys().index_of(k);
        assert(self.keys()[j] == k);
    }

    proof fn lemma_absent(self, k: KeyEvent)
        requires
            forall|i: int| 0 <= i < self.entries@.len() ==> self.entries@[i].0 != k,
        ensures
            !self@.contains_key(k),
    {
        if self.keys().contains(k) {
            let j = self.keys().index_of(k);
            assert(self.keys()[j] == k);
        }
    }

    /// There is one node for each key of a level.
    pub proof fn lemma_nodes(self)
        ensures
            self.nodes().len() == self.keys().len(),
    {
    }

    /// The keys of a level are those that lead somewhere, each listed once;
    /// the node at the place of a key is what the key leads to; and every
    /// node of a well-formed mapping is well formed.
    pub proof fn lemma_keys(self)
        requires
            self.wf(),
        ensures
            self.keys().no_duplicates(),
            forall|k: KeyEvent| self.keys().contains(k) <==> self@.contains_key(k),
            forall|k: KeyEvent| self@.contains_key(k) ==> (#[trigger] self@[k]).wf(),
            forall|i: int|
                0 <= i < self.keys().len() ==> self@[#[trigger] self.keys()[i]] == self.nodes()[i],
            forall|i: int| 0 <= i < self.keys().len() ==> (#[trigger] self.nodes()[i]).wf(),
    {
        assert forall|k: KeyEvent| self@.contains_key(k) implies (#[trigger] self@[k]).wf() by {
            let j = self.keys().index_of(k);
            assert(self.keys()[j] == k);
            self.lemma_entry(j);
        }
        assert forall|i: int| 0 <= i < self.keys().len() implies self@[#[trigger] self.keys()[i]]
            == self.nodes()[i] by {
            self.lemma_entry(i);
        }
        assert forall|i: int| 0 <= i < self.keys().len() implies (#[trigger] self.nodes()[i]).wf() by {
            self.lemma_entry(i);
        }
    }

    /// A mapping with no bindings.
    pub fn new() -> (keymap: KeyMapping)
        ensures
            keymap.wf(),
            keymap@ == Map::<KeyEvent, CommandKeybind>::empty(),
            keymap.keys() == Seq::<KeyEvent>::empty(),
    {
        let keymap = KeyMapping { entries: Vec::new() };
        assert(keymap.keys() =~= Seq::<KeyEvent>::empty());
        assert(keymap@ =~= Map::<KeyEvent, CommandKeybind>::empty());
        keymap
    }

    fn position(&self, key: KeyEvent) -> (r: Option<usize>)
        requires
            self.wf(),
        ensures
            match r {
                Some(i) => i < self.entries@.len() && self.entries@[i as int].0 == key
                    && self@.contains_key(key) && self@[key] == self.entries@[i as int].1,
                None => !self@.contains_key(key),
            },
    {
        let mut i: usize = 0;
        while i < self.entries.len()
            invariant
                self.wf(),
                i <= self.entries@.len(),
                forall|j: int| 0 <= j < i ==> self.entries@[j].0 != key,
            decreases self.entries@.len() - i,
        {
            if self.entries[i].0 == key {
                proof {
                    self.lemma_entry(i as int);
                }
                return Some(i);
            }
            i += 1;
        }
        proof {
            self.lemma_absent(key);
        }
        None
    }

    /// How many keys are bound at this level.
    pub fn len(&self) -> (n: usize)
        ensures
            n == self.keys().len(),
    {
        self.entries.len()
    }

    /// The key that was bound as the `i`-th at this level, and its node.
    pub fn entry(&self, i: usize) -> (r: (KeyEvent, &CommandKeybind))
        requires
            i < self.keys().len(),
        ensures
            r.0 == self.keys()[i as int],
            *r.1 == self.nodes()[i as int],
            self.wf() ==> self@.contains_key(r.0) && *r.1 == self@[r.0] && r.1.wf(),
    {
        proof {
            if self.wf() {
                self.lemma_entry(i as int);
            }
        }
        (self.entries[i].0, &self.entries[i].1)
    }

    /// The node that `key` leads to at this level.
    pub fn get(&self, key: KeyEvent) -> (r: Option<&CommandKeybind>)
        requires
            self.wf(),
        ensures
            match r {
                Some(node) => self@.contains_key(key) && *node == self@[key] && node.wf(),
                None => !self@.contains_key(key),
            },
    {
        match self.position(key) {
            Some(i) => {
                proof {
                    self.lemma_entry(i as int);
                }
                Some(&self.entries[i].1)
            },
            None => None,
        }
    }

    /// One step along a key sequence: what `conflict` is, seen from the first key.
    proof fn lemma_conflict_step(self, path: Seq<KeyEvent>, filetype: Option<FileType>)
        requires
            path.len() > 0,
        ensures
            !self@.contains_key(path[0]) ==> self.conflict(path, filetype) is None,
            self@.contains_key(path[0]) ==> match self@[path[0]] {
                CommandKeybind::SimpleKeybind { commands, description } => self.conflict(
                    path,
                    filetype,
                ) == if path.len() > 1 {
                    Some(Conflict::ExtendsBinding)
                } else if commands@.contains_key(filetype) {
                    Some(Conflict::SlotTaken)
                } else {
                    None
                },
                CommandKeybind::CompositeKeybind(next) => self.conflict(path, filetype)
                    == if path.len() > 1 {
                    next.conflict(path.skip(1), filetype)
                } else {
                    Some(Conflict::PrefixOfBinding)
                },
            },
    {
        let rest = path.skip(1);
        assert(path.take(path.len() as int) =~= path);
        assert forall|i: int| 0 < i <= path.len() implies (#[trigger] path.take(i))[0] == path[0]
            && path.take(i).len() == i && (i > 1 ==> path.take(i).skip(1) =~= rest.take(
            i - 1,
        )) by {}
        if !self@.contains_key(path[0]) {
            assert forall|i: int| 0 < i < path.len() implies !#[trigger] self.is_bound(
                path.take(i),
            ) by {}
        } else {
            match self@[path[0]] {
                CommandKeybind::SimpleKeybind { commands, description } => {
                    if path.len() > 1 {
                        assert(self.is_bound(path.take(1)));
                    }
                },
                CommandKeybind::CompositeKeybind(next) => {
                    if path.len() > 1 {
                        assert(rest.take(rest.len() as int) =~= rest);
                        assert forall|i: int| 1 < i <= path.len() implies self.node_at(
                            #[trigger] path.take(i),
                        ) == next.node_at(rest.take(i - 1)) by {}
                        assert(!self.is_bound(path.take(1)));
                        if exists|i: int| 0 < i < path.len() && #[trigger] self.is_bound(path.take(i)) {
                            let i = choose|i: int|
                                0 < i < path.len() && #[trigger] self.is_bound(path.take(i));
                            assert(next.is_bound(rest.take(i - 1)));
                        }
                        if exists|j: int| 0 < j < rest.len() && #[trigger] next.is_bound(rest.take(j)) {
                            let j = choose|j: int|
                                0 < j < rest.len() && #[trigger] next.is_bound(rest.take(j));
                            assert(path.take(j + 1).skip(1) =~= rest.take(j));
                            assert(self.is_bound(path.take(j + 1)));
                        }
                    }
                },
            }
        }
    }

    fn conflict_from(&self, events: &Vec<KeyEvent>, depth: usize, filetype: Option<FileType>) -> (r:
        Option<Conflict>)
        requires
            self.wf(),
            depth < events@.len(),
        ensures
            r == self.conflict(events@.skip(depth as int), filetype),
        decreases events@.len() - depth,
    {
        proof {
            self.lemma_conflict_step(events@.skip(depth as int), filetype);
            assert(events@.skip(depth as int).skip(1) =~= events@.skip(depth + 1));
        }
        let last = events.len() - depth == 1;
        match self.get(events[depth]) {
            None => None,
            Some(CommandKeybind::SimpleKeybind { commands, description }) => {
                if !last {
                    Some(Conflict::ExtendsBinding)
                } else if commands.get(filetype).is_some() {
                    Some(Conflict::SlotTaken)
                } else {
                    None
                }
            },
            Some(CommandKeybind::CompositeKeybind(next)) => {
                if last {
                    Some(Conflict::PrefixOfBinding)
                } else {
                    next.conflict_from(events, depth + 1, filetype)
                }
            },
        }
    }

    /// What stands against binding `events` for `filetype`, if anything does.
    pub fn find_conflict(&self, events: &Vec<KeyEvent>, filetype: Option<FileType>) -> (r: Option<
        Conflict,
    >)
        requires
            self.wf(),
        ensures
            r == self.conflict(events@, filetype),
    {
        if events.len() == 0 {
            assert(self.node_at(events@) is None);
            None
        } else {
            assert(events@.skip(0) =~= events@);
            self.conflict_from(events, 0, filetype)
        }
    }

    proof fn lemma_pushed(self, before: KeyMapping, key: KeyEvent, node: CommandKeybind)
        requires
            before.wf(),
            !before@.contains_key(key),
            node.wf(),
            self.entries@ == before.entries@.push((key, node)),
        ensures
            self.wf(),
            self@ == before@.insert(key, node),
            self.keys() == before.keys().push(key),
    {
        assert forall|i: int| 0 <= i < before.entries@.len() implies before.entries@[i].0
            != key by {
            before.lemma_entry(i);
        }
        assert(self.wf());
        assert(self.keys() =~= before.keys().push(key));
        assert forall|k: KeyEvent| #[trigger]
            self@.contains_key(k) == before@.insert(key, node).contains_key(k) by {
            if before.keys().contains(k) {
                let j = before.keys().index_of(k);
                assert(self.keys()[j] == k);
            }
            if k == key {
                assert(self.keys()[before.entries@.len() as int] == k);
            }
        }
        assert forall|k: KeyEvent| self@.contains_key(k) implies #[trigger] self@[k]
            == before@.insert(key, node)[k] by {
            let j = self.keys().index_of(k);
            assert(self.keys()[j] == k);
            self.lemma_entry(j);
            if j < before.entries@.len() {
                before.lemma_entry(j);
            }
        }
        assert(self@ =~= before@.insert(key, node));
    }

    proof fn lemma_replaced(self, before: KeyMapping, i: int, node: CommandKeybind)
        requires
            before.wf(),
            0 <= i < before.entries@.len(),
            node.wf(),
            self.entries@ == before.entries@.update(i, (before.entries@[i].0, node)),
        ensures
            self.wf(),
            self@ == before@.insert(before.entries@[i].0, node),
            self.keys() == before.keys(),
    {
        let key = before.entries@[i].0;
        assert(self.wf());
        assert(self.keys() =~= before.keys());
        assert forall|k: KeyEvent| self@.contains_key(k) implies #[trigger] self@[k]
            == before@.insert(key, node)[k] by {
            let j = self.keys().index_of(k);
            assert(self.keys()[j] == k);
            self.lemma_entry(j);
            before.lemma_entry(j);
        }
        before.lemma_entry(i);
        assert(self@ =~= before@.insert(key, node));
    }

    /// Binding below the first key of `path` binds `path`.
    proof fn lemma_binds_step(
        self,
        before: KeyMapping,
        path: Seq<KeyEvent>,
        filetype: Option<FileType>,
        command: Command,
        description: Option<String>,
        node: CommandKeybind,
        next_before: KeyMapping,
    )
        requires
            path.len() > 0,
            before.conflict(path, filetype) is None,
            self@ == before@.insert(path[0], node),
            path.len() == 1 ==> node is SimpleKeybind && commands_of(Some(node)) == commands_of(
                before.node_at(path),
            ).insert(filetype, seq![command]) && filetypes_of(Some(node)) == filetypes_of(
                before.node_at(path),
            ).push(filetype) && description_of(Some(node)) == description_after(
                description,
                before.node_at(path),
            ),
            path.len() > 1 ==> (node matches CommandKeybind::CompositeKeybind(next) && next.binds(
                next_before,
                path.skip(1),
                filetype,
                command,
                description,
            )),
            path.len() > 1 ==> if before@.contains_key(path[0]) {
                before@[path[0]] == CommandKeybind::CompositeKeybind(next_before)
            } else {
                next_before@ == Map::<KeyEvent, CommandKeybind>::empty() && next_before.keys()
                    == Seq::<KeyEvent>::empty()
            },
            self.keys() == if before@.contains_key(path[0]) {
                before.keys()
            } else {
                before.keys().push(path[0])
            },
        ensures
            self.binds(before, path, filetype, command, description),
    {
        let rest = path.skip(1);
        before.lemma_conflict_step(path, filetype);
        assert forall|q: Seq<KeyEvent>| #[trigger] self.keys_at(q) == before.keys_after(
            path,
            q,
        ) by {
            if q.len() == 0 {
                assert(q.is_prefix_of(path));
            } else if q[0] != path[0] {
                assert(!q.is_prefix_of(path)) by {
                    if q.is_prefix_of(path) {
                        assert(path.subrange(0, q.len() as int)[0] == path[0]);
                    }
                }
            } else if path.len() == 1 {
                assert(!is_strict_prefix(q, path));
            } else {
                let next = node->CompositeKeybind_0;
                let tail = q.skip(1);
                assert(next.keys_at(tail) == next_before.keys_after(rest, tail));
                assert(is_strict_prefix(q, path) == is_strict_prefix(tail, rest)) by {
                    if is_strict_prefix(tail, rest) {
                        let head = rest.subrange(0, tail.len() as int);
                        assert forall|j: int| 0 <= j < q.len() implies q[j] == path[j] by {
                            if j > 0 {
                                assert(q[j] == tail[j - 1]);
                                assert(head[j - 1] == rest[j - 1]);
                            }
                        }
                        assert(q =~= path.subrange(0, q.len() as int));
                    }
                    if is_strict_prefix(q, path) {
                        let head = path.subrange(0, q.len() as int);
                        assert forall|j: int| 0 <= j < tail.len() implies tail[j] == rest[j] by {
                            assert(tail[j] == q[j + 1]);
                            assert(head[j + 1] == path[j + 1]);
                        }
                        assert(tail =~= rest.subrange(0, tail.len() as int));
                    }
                }
                if tail.len() < rest.len() {
                    assert(path[q.len() as int] == rest[tail.len() as int]);
                }
                if q.len() > 1 {
                    assert(self.node_at(q) == next.node_at(tail));
                    assert(before.node_at(q) == next_before.node_at(tail));
                } else {
                    assert(tail.len() == 0);
                }
            }
        }
        assert(path.take(path.len() as int) =~= path);
        assert forall|i: int| 0 < i <= path.len() implies (#[trigger] path.take(i))[0] == path[0]
            && path.take(i).len() == i && (i > 1 ==> path.take(i).skip(1) =~= rest.take(
            i - 1,
        )) by {}
        assert forall|q: Seq<KeyEvent>| q.len() > 0 && !q.is_prefix_of(path) implies #[trigger]
            self.node_at(q) == before.node_at(q) by {
            if q[0] == path[0] {
                if q.len() == 1 {
                    assert(q =~= path.subrange(0, 1));
                } else if path.len() == 1 {
                } else {
                    let next = node->CompositeKeybind_0;
                    if q.skip(1).is_prefix_of(rest) {
                        let head = rest.subrange(0, q.len() - 1);
                        assert forall|j: int| 0 <= j < q.len() implies q[j] == path[j] by {
                            if j > 0 {
                                assert(q[j] == q.skip(1)[j - 1]);
                                assert(head[j - 1] == rest[j - 1]);
                            }
                        }
                        assert(q =~= path.subrange(0, q.len() as int));
                    }
                    assert(next.node_at(q.skip(1)) == next_before.node_at(q.skip(1)));
                }
            }
        }
        if path.len() > 1 {
            let next = node->CompositeKeybind_0;
            assert(rest.take(rest.len() as int) =~= rest);
            assert forall|i: int| 0 < i < path.len() implies #[trigger] self.is_partial(
                path.take(i),
            ) by {
                if i > 1 {
                    assert(next.is_partial(rest.take(i - 1)));
                }
            }
            assert(self.node_at(path) == next.node_at(rest));
            assert(before.node_at(path) == next_before.node_at(rest));
        }
    }

    fn bind_from(
        &mut self,
        command: Command,
        description: Option<String>,
        filetype: Option<FileType>,
        events: &Vec<KeyEvent>,
        depth: usize,
    )
        requires
            old(self).wf(),
            depth < events@.len(),
            old(self).conflict(events@.skip(depth as int), filetype) is None,
        ensures
            final(self).wf(),
            final(self).keys().len() > 0,
            final(self).binds(
                *old(self),
                events@.skip(depth as int),
                filetype,
                command,
                description,
            ),
        decreases events@.len() - depth,
    {
        let ghost before = *self;
        let ghost path = events@.skip(depth as int);
        let ghost given = description;
        proof {
            before.lemma_conflict_step(path, filetype);
            assert(path.skip(1) =~= events@.skip(depth + 1));
        }
        let key = events[depth];
        let last = events.len() - depth == 1;
        match self.position(key) {
            None => {
                let ghost mut next_before = before;
                let node = if last {
                    let mut commands = CommandTable::new();
                    let mut list = Vec::new();
                    list.push(command);
                    commands.insert(filetype, list);
                    CommandKeybind::SimpleKeybind { commands, description }
                } else {
                    let mut next = KeyMapping::new();
                    proof {
                        next_before = next;
                        next.lemma_conflict_step(path.skip(1), filetype);
                    }
                    next.bind_from(command, description, filetype, events, depth + 1);
                    CommandKeybind::CompositeKeybind(next)
                };
                self.entries.push((key, node));
                proof {
                    self.lemma_pushed(before, key, node);
                    self.lemma_binds_step(
                        before,
                        path,
                        filetype,
                        command,
                        given,
                        node,
                        next_before,
                    );
                }
            },
            Some(i) => {
                let ghost mut next_before = before;
                let node = node_mut(&mut self.entries, i);
                match node {
                    CommandKeybind::SimpleKeybind { commands, description: shown } => {
                        let mut list = Vec::new();
                        list.push(command);
                        commands.insert(filetype, list);
                        if description.is_some() {
                            *shown = description;
                        }
                    },
                    CommandKeybind::CompositeKeybind(next) => {
                        proof {
                            next_before = *next;
                        }
                        next.bind_from(command, description, filetype, events, depth + 1);
                    },
                }
                proof {
                    let node = self.entries@[i as int].1;
                    self.lemma_replaced(before, i as int, node);
                    self.lemma_binds_step(
                        before,
                        path,
                        filetype,
                        command,
                        given,
                        node,
                        next_before,
                    );
                }
            },
        }
    }
}

fn node_mut(entries: &mut Vec<(KeyEvent, CommandKeybind)>, i: usize) -> (node: &mut CommandKeybind)
    requires
        i < old(entries)@.len(),
    ensures
        *node == old(entries)@[i as int].1,
        final(entries)@ == old(entries)@.update(i as int, (old(entries)@[i as int].0, *final(node))),
{
    &mut entries[i].1
}

/// Binds `keycommand` to the key sequence `events` for the file type
/// `filetype`, unless that collides with what `keymap` holds. The binding
/// keeps the description that it has.
///
/// An empty key sequence binds nothing and is no error.
pub fn insert_keycommand(
    keymap: &mut KeyMapping,
    keycommand: Command,
    filetype: Option<FileType>,
    events: &Vec<KeyEvent>,
) -> (res: Result<(), AmbiguityError>)
    requires
        old(keymap).wf(),
    ensures
        final(keymap).wf(),
        match res {
            Ok(_) => old(keymap).conflict(events@, filetype) is None && if events@.len() == 0 {
                *final(keymap) == *old(keymap)
            } else {
                final(keymap).binds(*old(keymap), events@, filetype, keycommand, None)
            },
            Err(e) => e.command == keycommand && old(keymap).conflict(events@, filetype) == Some(
                e.conflict,
            ) && *final(keymap) == *old(keymap),
        },
{
    insert_described(keymap, keycommand, None, filetype, events)
}

/// Binds `keycommand` to the key sequence `events` for the file type
/// `filetype`, unless that collides with what `keymap` holds. Where a
/// description is given, it becomes the description of the binding, for all
/// its file types, in place of one given before.
///
/// An empty key sequence binds nothing and is no error.
pub fn insert_described(
    keymap: &mut KeyMapping,
    keycommand: Command,
    description: Option<String>,
    filetype: Option<FileType>,
    events: &Vec<KeyEvent>,
) -> (res: Result<(), AmbiguityError>)
    requires
        old(keymap).wf(),
    ensures
        final(keymap).wf(),
        match res {
            Ok(_) => old(keymap).conflict(events@, filetype) is None && if events@.len() == 0 {
                *final(keymap) == *old(keymap)
            } else {
                final(keymap).binds(*old(keymap), events@, filetype, keycommand, description)
            },
            Err(e) => e.command == keycommand && old(keymap).conflict(events@, filetype) == Some(
                e.conflict,
            ) && *final(keymap) == *old(keymap),
        },
{
    match keymap.find_conflict(events, filetype) {
        Some(conflict) => Err(AmbiguityError { command: keycommand, conflict }),
        None => {
            if events.len() > 0 {
                assert(events@.skip(0) =~= events@);
                keymap.bind_from(keycommand, description, filetype, events, 0);
            }
            Ok(())
        },
    }
}

impl KeyMapping {
    fn lookup_from(&self, path: &Vec<KeyEvent>, depth: usize) -> (r: Option<&CommandKeybind>)
        requires
            self.wf(),
            depth < path@.len(),
        ensures
            match r {
                Some(node) => self.node_at(path@.skip(depth as int)) == Some(*node) && node.wf(),
                None => self.node_at(path@.skip(depth as int)) is None,
            },
        decreases path@.len() - depth,
    {
        proof {
            assert(path@.skip(depth as int).skip(1) =~= path@.skip(depth + 1));
        }
        let last = path.len() - depth == 1;
        match self.get(path[depth]) {
            None => None,
            Some(node) => if last {
                Some(node)
            } else {
                match node {
                    CommandKeybind::CompositeKeybind(next) => next.lookup_from(path, depth + 1),
                    CommandKeybind::SimpleKeybind { .. } => None,
                }
            },
        }
    }

    /// The node that the key sequence `path` leads to.
    pub fn lookup(&self, path: &Vec<KeyEvent>) -> (r: Option<&CommandKeybind>)
        requires
            self.wf(),
        ensures
            match r {
                Some(node) => self.node_at(path@) == Some(*node) && node.wf(),
                None => self.node_at(path@) is None,
            },
    {
        if path.len() == 0 {
            None
        } else {
            assert(path@.skip(0) =~= path@);
            self.lookup_from(path, 0)
        }
    }

    /// A key sequence that leads somewhere passes only through levels that
    /// ask for more keys.
    pub proof fn lemma_beginnings_partial(self, path: Seq<KeyEvent>, i: int)
        requires
            self.node_at(path) is Some,
            0 < i < path.len(),
        ensures
            self.is_partial(path.take(i)),
        decreases path.len(),
    {
        let rest = path.skip(1);
        assert(path.take(i)[0] == path[0]);
        if i > 1 {
            let next = self@[path[0]]->CompositeKeybind_0;
            assert(path.take(i).skip(1) =~= rest.take(i - 1));
            next.lemma_beginnings_partial(rest, i - 1);
        }
    }

    /// Nothing stands against any binding in a mapping without keys.
    pub proof fn lemma_empty_accepts(self, path: Seq<KeyEvent>, filetype: Option<FileType>)
        requires
            self@ == Map::<KeyEvent, CommandKeybind>::empty(),
        ensures
            self.conflict(path, filetype) is None,
    {
        assert(self.node_at(path) is None);
        assert forall|i: int| 0 < i < path.len() implies !#[trigger] self.is_bound(
            path.take(i),
        ) by {}
    }

    /// A key sequence that is the beginning of a longer bound one cannot be
    /// bound, for any file type.
    pub proof fn lemma_prefix_of_bound_refused(
        self,
        bound: Seq<KeyEvent>,
        path: Seq<KeyEvent>,
        filetype: Option<FileType>,
    )
        requires
            self.is_bound(bound),
            path.len() > 0,
            is_strict_prefix(path, bound),
        ensures
            self.conflict(path, filetype) == Some(Conflict::PrefixOfBinding),
    {
        assert(path =~= bound.take(path.len() as int));
        self.lemma_beginnings_partial(bound, path.len() as int);
        if exists|i: int| 0 < i < path.len() && #[trigger] self.is_bound(path.take(i)) {
            let i = choose|i: int| 0 < i < path.len() && #[trigger] self.is_bound(path.take(i));
            assert(path.take(i) =~= bound.take(i));
            self.lemma_beginnings_partial(bound, i);
        }
    }

    /// A key sequence that goes on after a shorter bound one cannot be
    /// bound, for any file type.
    pub proof fn lemma_extension_of_bound_refused(
        self,
        bound: Seq<KeyEvent>,
        path: Seq<KeyEvent>,
        filetype: Option<FileType>,
    )
        requires
            self.is_bound(bound),
            is_strict_prefix(bound, path),
        ensures
            self.conflict(path, filetype) == Some(Conflict::ExtendsBinding),
    {
        assert(bound =~= path.take(bound.len() as int));
        assert(self.is_bound(path.take(bound.len() as int)));
    }

    /// Two bindings that do not collide with each other, and that a mapping
    /// takes each by itself, are taken one after the other as well: once the
    /// first is bound, nothing stands against the second.
    ///
    /// They do not collide when neither key sequence is a shorter beginning
    /// of the other and they differ in the key sequence or in the file type.
    pub proof fn lemma_separate_bindings_accepted(
        self,
        before: KeyMapping,
        first: Seq<KeyEvent>,
        first_filetype: Option<FileType>,
        first_command: Command,
        first_description: Option<String>,
        second: Seq<KeyEvent>,
        second_filetype: Option<FileType>,
    )
        requires
            first.len() > 0,
            second.len() > 0,
            before.conflict(first, first_filetype) is None,
            before.conflict(second, second_filetype) is None,
            self.binds(before, first, first_filetype, first_command, first_description),
            !is_strict_prefix(first, second),
            !is_strict_prefix(second, first),
            first != second || first_filetype != second_filetype,
        ensures
            self.conflict(second, second_filetype) is None,
    {
        assert forall|i: int| 0 < i < second.len() implies !#[trigger] self.is_bound(
            second.take(i),
        ) by {
            let q = second.take(i);
            assert(!before.is_bound(q));
            if q.is_prefix_of(first) {
                if q.len() == first.len() {
                    assert(q =~= first);
                    assert(is_strict_prefix(first, second));
                } else {
                    assert(q =~= first.take(i));
                    assert(self.is_partial(first.take(i)));
                }
            } else {
                assert(self.node_at(q) == before.node_at(q));
            }
        }
        if second.is_prefix_of(first) {
            if second.len() == first.len() {
                assert(second =~= first);
            }
        } else {
            assert(self.node_at(second) == before.node_at(second));
        }
    }
}

} // verus!
