//! The commands that a key can be bound to.

use vstd::prelude::*;

verus! {

/// The type of a file-system entry, as far as bindings tell entries apart.
#[derive(Clone, Copy, Debug, PartialEq, Eq, PartialOrd, Ord, Hash, Structural)]
pub enum FileType {
    Directory,
    File,
}

/// An action of the file manager.
#[derive(Clone, Copy, Debug, PartialEq, Eq, Hash, Structural)]
pub enum Command {
    MoveUp { offset: usize },
    MoveDown { offset: usize },
    MoveHome,
    MoveEnd,
    ParentDirectory,
    OpenEntry,
    TouchFile,
    DeleteFiles,
    ToggleVisualMode,
    Quit,
}

impl FileType {
    /// What is put after a command's name to say which file type it is
    /// bound for; nothing for a binding that is meant for any.
    pub open spec fn spec_annotation(filetype: Option<FileType>) -> Seq<char> {
        match filetype {
            None => ""@,
            Some(FileType::Directory) => " [Directory]"@,
            Some(FileType::File) => " [File]"@,
        }
    }

    /// See [`Self::spec_annotation`].
    pub fn annotation(filetype: Option<FileType>) -> (text: &'static str)
        ensures
            text@ == FileType::spec_annotation(filetype),
    {
        match filetype {
            None => "",
            Some(FileType::Directory) => " [Directory]",
            Some(FileType::File) => " [File]",
        }
    }
}

impl Command {
    /// The name by which the command is declared and shown.
    pub open spec fn spec_name(self) -> Seq<char> {
        match self {
            Command::MoveUp { .. } => "move_up"@,
            Command::MoveDown { .. } => "move_down"@,
            Command::MoveHome => "move_home"@,
            Command::MoveEnd => "move_end"@,
            Command::ParentDirectory => "parent_directory"@,
            Command::OpenEntry => "open"@,
            Command::TouchFile => "touch"@,
            Command::DeleteFiles => "delete_files"@,
            Command::ToggleVisualMode => "toggle_visual"@,
            Command::Quit => "quit"@,
        }
    }

    /// The name by which the command is declared and shown.
    pub fn name(&self) -> (name: &'static str)
        ensures
            name@ == self.spec_name(),
    {
        match self {
            Command::MoveUp { .. } => "move_up",
            Command::MoveDown { .. } => "move_down",
            Command::MoveHome => "move_home",
            Command::MoveEnd => "move_end",
            Command::ParentDirectory => "parent_directory",
            Command::OpenEntry => "open",
            Command::TouchFile => "touch",
            Command::DeleteFiles => "delete_files",
            Command::ToggleVisualMode => "toggle_visual",
            Command::Quit => "quit",
        }
    }

    /// The command as it is run with the count `count`: a movement goes
    /// `count` rows, and a command that has no use for a count is itself.
    pub open spec fn spec_with_count(self, count: usize) -> Command {
        match self {
            Command::MoveUp { .. } => Command::MoveUp { offset: count },
            Command::MoveDown { .. } => Command::MoveDown { offset: count },
            _ => self,
        }
    }

    /// See [`Self::spec_with_count`].
    pub fn with_count(self, count: usize) -> (command: Command)
        ensures
            command == self.spec_with_count(count),
    {
        match self {
            Command::MoveUp { .. } => Command::MoveUp { offset: count },
            Command::MoveDown { .. } => Command::MoveDown { offset: count },
            other => other,
        }
    }
}

} // verus!
