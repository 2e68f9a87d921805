use vstd::prelude::*;

verus! {

/// An operation recorded in the log: the unit of replay. `Put` is written
/// under the tag `Set` (see the codec).
#[derive(Debug)]
pub enum Command {
    Put { key: String, value: String },
    Remove { key: String },
}

/// What a `Command` means, with its strings as sequences of characters.
pub ghost enum CommandModel {
    Put { key: Seq<char>, value: Seq<char> },
    Remove { key: Seq<char> },
}

impl CommandModel {
    pub open spec fn key(self) -> Seq<char> {
        match self {
            CommandModel::Put { key, .. } => key,
            CommandModel::Remove { key } => key,
        }
    }
}

impl View for Command {
    type V = CommandModel;

    open spec fn view(&self) -> CommandModel {
        match self {
            Command::Put { key, value } => CommandModel::Put { key: key@, value: value@ },
            Command::Remove { key } => CommandModel::Remove { key: key@ },
        }
    }
}

impl Command {
    /// A command that sets `key` to `value`.
    pub fn set(key: String, value: String) -> (r: Command)
        ensures
            r@ == (CommandModel::Put { key: key@, value: value@ }),
    {
        Command::Put { key, value }
    }

    /// A tombstone for `key`.
    pub fn remove(key: String) -> (r: Command)
        ensures
            r@ == (CommandModel::Remove { key: key@ }),
    {
        Command::Remove { key }
    }

    /// A tombstone for `key` (the short name).
    pub fn rm(key: String) -> (r: Command)
        ensures
            r@ == (CommandModel::Remove { key: key@ }),
    {
        Command::remove(key)
    }
}

/// Where one encoded command lies: segment `gen`, bytes `pos .. pos + len`.
#[derive(Clone, Copy, Debug, PartialEq, Eq)]
pub struct CommandPos {
    pub gen: u64,
    pub pos: u64,
    pub len: u64,
}

impl CommandPos {
    /// The position of the byte range `start .. end` of segment `gen`.
    pub fn from_range(gen: u64, start: u64, end: u64) -> (r: CommandPos)
        requires
            start <= end,
        ensures
            r.gen == gen,
            r.pos == start,
            r.len == end - start,
    {
        CommandPos { gen, pos: start, len: end - start }
    }

    /// One past the last byte of the range.
    pub open spec fn end(self) -> int {
        self.pos + self.len
    }
}

} // verus!
