//! The menu of the keys that can be typed next.

use vstd::prelude::*;
use crate::event::KeyEvent;
use crate::keybind::{binding_text, push_binding, CommandKeybind};
use crate::keymap::KeyMapping;
use crate::text::{insert_sorted, is_sorted, push_str, string_of, texts};

verus! {

/// A rectangle of the screen, in cells.
#[derive(Clone, Copy, Debug, PartialEq, Eq, Hash, Structural)]
pub struct Rect {
    pub x: u16,
    pub y: u16,
    pub width: u16,
    pub height: u16,
}

/// The rows of the menu's upper border.
pub const BORDER_HEIGHT: u16 = 1;

/// The rows left free below the menu.
pub const BOTTOM_MARGIN: u16 = 1;

/// The line of the menu for `key`, with `label` for what it leads to.
pub open spec fn menu_line(key: KeyEvent, label: Seq<char>) -> Seq<char> {
    "  "@ + key.spec_label() + "        "@ + label
}

/// The lines of the menu for `key`: for a complete binding its description
/// where it has one, else one line for each file type that it is bound for;
/// one line with three dots for a key that asks for more.
pub open spec fn node_lines(key: KeyEvent, node: CommandKeybind) -> Seq<Seq<char>> {
    match node {
        CommandKeybind::SimpleKeybind { commands, description: Some(text) } => seq![
            menu_line(key, text@),
        ],
        CommandKeybind::SimpleKeybind { commands, description: None } => Seq::new(
            commands.filetypes().len(),
            |i: int| menu_line(key, binding_text(commands.lists()[i], commands.filetypes()[i])),
        ),
        CommandKeybind::CompositeKeybind(_) => seq![menu_line(key, "..."@)],
    }
}

/// The lines of the menu for the first `n` keys of `keymap`, key by key.
pub open spec fn unsorted_lines(keymap: KeyMapping, n: int) -> Seq<Seq<char>>
    decreases n,
{
    if n <= 0 {
        Seq::empty()
    } else {
        unsorted_lines(keymap, n - 1) + node_lines(keymap.keys()[n - 1], keymap.nodes()[n - 1])
    }
}

/// Every node of the level can be shown.
pub open spec fn showable(keymap: KeyMapping) -> bool {
    forall|i: int| 0 <= i < keymap.keys().len() ==> (#[trigger] keymap.nodes()[i]).describable()
}

/// Every level of a well-formed mapping can be shown.
pub proof fn lemma_wf_showable(keymap: KeyMapping)
    requires
        keymap.wf(),
    ensures
        showable(keymap),
{
    keymap.lemma_keys();
    assert forall|i: int| 0 <= i < keymap.keys().len() implies (#[trigger] keymap.nodes()[
        i
    ]).describable() by {
        keymap.nodes()[i].lemma_wf_describable();
    }
}

/// Where the menu of `lines` lines stands in `area`: at the bottom, above
/// the margin, over the whole width, and no higher than `area`.
pub open spec fn menu_rect(area: Rect, lines: nat) -> Rect {
    Rect {
        x: 0,
        y: if area.height < lines + BORDER_HEIGHT + BOTTOM_MARGIN {
            0
        } else {
            (area.height - (BORDER_HEIGHT + BOTTOM_MARGIN) - lines) as u16
        },
        width: area.width,
        height: if lines + BORDER_HEIGHT > area.height {
            area.height
        } else {
            (lines + BORDER_HEIGHT) as u16
        },
    }
}

fn push_menu_line(out: &mut Vec<char>, key: KeyEvent)
    ensures
        final(out)@ == old(out)@ + "  "@ + key.spec_label() + "        "@,
{
    push_str(out, "  ");
    key.push_label(out);
    push_str(out, "        ");
}

/// The menu of the keys of one level of a key mapping.
pub struct TuiCommandMenu<'a> {
    keymap: &'a KeyMapping,
}

impl<'a> TuiCommandMenu<'a> {
    /// The level that the menu shows.
    pub closed spec fn keymap(self) -> KeyMapping {
        *self.keymap
    }

    /// The menu of the keys of `keymap`.
    pub fn new(keymap: &'a KeyMapping) -> (menu: Self)
        ensures
            menu.keymap() == *keymap,
    {
        TuiCommandMenu { keymap }
    }

    /// The lines of the menu, in order: those of [`unsorted_lines`] for all
    /// the keys, sorted character by character. The level must be one that
    /// can be shown, as every level of a well-formed mapping is.
    pub fn lines(&self) -> (lines: Vec<String>)
        requires
            showable(self.keymap()) || self.keymap().wf(),
        ensures
            is_sorted(Seq::new(lines@.len(), |i: int| lines@[i]@)),
            Seq::new(lines@.len(), |i: int| lines@[i]@).to_multiset() == unsorted_lines(
                self.keymap(),
                self.keymap().keys().len() as int,
            ).to_multiset(),
    {
        let keymap = self.keymap;
        proof {
            if keymap.wf() {
                lemma_wf_showable(*keymap);
            }
        }
        let mut sorted: Vec<Vec<char>> = Vec::new();
        let mut i: usize = 0;
        assert(texts(sorted@) =~= unsorted_lines(*keymap, 0));
        while i < keymap.len()
            invariant
                showable(*keymap),
                i <= keymap.keys().len(),
                is_sorted(texts(sorted@)),
                texts(sorted@).to_multiset() == unsorted_lines(*keymap, i as int).to_multiset(),
            decreases keymap.keys().len() - i,
        {
            let (key, node) = keymap.entry(i);
            let ghost done = unsorted_lines(*keymap, i as int);
            let ghost fresh = node_lines(key, *node);
            assert(node.describable());
            match node {
                CommandKeybind::SimpleKeybind { commands, description: Some(text) } => {
                    let mut line: Vec<char> = Vec::new();
                    push_menu_line(&mut line, key);
                    push_str(&mut line, text.as_str());
                    proof {
                        assert(line@ =~= fresh[0]);
                        assert(done + fresh =~= done.push(fresh[0]));
                        vstd::seq_lib::to_multiset_build(done, fresh[0]);
                    }
                    insert_sorted(&mut sorted, line);
                },
                CommandKeybind::SimpleKeybind { commands, description: None } => {
                    let mut j: usize = 0;
                    assert(done + fresh.take(0) =~= done);
                    while j < commands.len()
                        invariant
                            forall|k: int|
                                0 <= k < commands.filetypes().len() ==> (
                                #[trigger] commands.lists()[k]).len() > 0,
                            fresh == node_lines(key, *node),
                            *node == (CommandKeybind::SimpleKeybind {
                                commands: *commands,
                                description: None,
                            }),
                            j <= commands.filetypes().len(),
                            is_sorted(texts(sorted@)),
                            texts(sorted@).to_multiset() == (done + fresh.take(
                                j as int,
                            )).to_multiset(),
                        decreases commands.filetypes().len() - j,
                    {
                        let (filetype, list) = commands.entry(j);
                        let mut line: Vec<char> = Vec::new();
                        push_menu_line(&mut line, key);
                        push_binding(&mut line, list, filetype);
                        proof {
                            assert(line@ =~= fresh[j as int]);
                            assert(done + fresh.take(j + 1) =~= (done + fresh.take(j as int)).push(
                                fresh[j as int],
                            ));
                            vstd::seq_lib::to_multiset_build(
                                done + fresh.take(j as int),
                                fresh[j as int],
                            );
                        }
                        insert_sorted(&mut sorted, line);
                        j += 1;
                    }
                    assert(fresh.take(fresh.len() as int) =~= fresh);
                },
                CommandKeybind::CompositeKeybind(_) => {
                    let mut line: Vec<char> = Vec::new();
                    push_menu_line(&mut line, key);
                    push_str(&mut line, "...");
                    proof {
                        assert(line@ =~= fresh[0]);
                        assert(done + fresh =~= done.push(fresh[0]));
                        vstd::seq_lib::to_multiset_build(done, fresh[0]);
                    }
                    insert_sorted(&mut sorted, line);
                },
            }
            i += 1;
        }
        let mut lines: Vec<String> = Vec::new();
        let mut k: usize = 0;
        while k < sorted.len()
            invariant
                k <= sorted@.len(),
                lines@.len() == k,
                forall|m: int| 0 <= m < k ==> (#[trigger] lines@[m])@ == sorted@[m]@,
            decreases sorted@.len() - k,
        {
            lines.push(string_of(&sorted[k]));
            k += 1;
        }
        assert(Seq::new(lines@.len(), |i: int| lines@[i]@) =~= texts(sorted@));
        lines
    }

    /// Where a menu of `lines` lines stands in `area`.
    pub fn layout(area: Rect, lines: usize) -> (rect: Rect)
        ensures
            rect == menu_rect(area, lines as nat),
    {
        let height = area.height as usize;
        let y = if height < 2 || height - 2 < lines {
            0
        } else {
            area.height - (BORDER_HEIGHT + BOTTOM_MARGIN) - lines as u16
        };
        let menu_height = if height < 1 || height - 1 < lines {
            area.height
        } else {
            lines as u16 + BORDER_HEIGHT
        };
        Rect { x: 0, y, width: area.width, height: menu_height }
    }
}

} // verus!
