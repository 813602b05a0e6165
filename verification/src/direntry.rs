use vstd::prelude::*;

verus! {

/// What kind of object an index entry stands for.
#[derive(PartialEq, Eq, Debug, Clone, Copy)]
pub enum ObjectType {
    Regular,
    SymLink,
    /// A submodule.
    GitLink,
}

impl Default for ObjectType {
    fn default() -> (r: Self)
        ensures
            r == ObjectType::Regular,
    {
        ObjectType::Regular
    }
}

/// The object type that a 16-bit mode encodes in its top four bits.
pub open spec fn mode_object_type(mode: u16) -> ObjectType {
    if mode / 4096 == 14 {
        ObjectType::GitLink
    } else if mode / 4096 == 10 {
        ObjectType::SymLink
    } else {
        ObjectType::Regular
    }
}

impl ObjectType {
    /// Reads the object type out of an entry's mode.
    pub fn from_mode(mode: u16) -> (r: ObjectType)
        ensures
            r == mode_object_type(mode),
    {
        let object_bits: u16 = mode / 4096;
        if object_bits == 14 {
            ObjectType::GitLink
        } else if object_bits == 10 {
            ObjectType::SymLink
        } else {
            ObjectType::Regular
        }
    }

    /// Whether this is the type of a submodule.
    pub fn is_git_link(&self) -> (r: bool)
        ensures
            r == (*self == ObjectType::GitLink),
    {
        match self {
            ObjectType::GitLink => true,
            _ => false,
        }
    }
}

/// Modification time and size of a file, the pair by which a change is detected.
#[derive(PartialEq, Eq, Debug, Default, Clone, Copy)]
pub struct FileStat {
    /// Modification time in nanoseconds since the Unix epoch.
    pub mtime: u128,
    pub size: u32,
}

impl FileStat {
    /// Whether both the time and the size agree.
    pub fn same_as(&self, other: &FileStat) -> (r: bool)
        ensures
            r == (*self == *other),
    {
        self.mtime == other.mtime && self.size == other.size
    }
}

/// An entry of the index: a tracked file, symlink or submodule.
#[derive(PartialEq, Eq, Debug, Default, Clone)]
pub struct DirEntry {
    pub object_type: ObjectType,
    pub stat: FileStat,
    /// The object id, which the format documentation calls "object name".
    pub sha: [u8; 20],
    /// The name within its directory.
    pub name: String,
    pub mode: u16,
}

/// What an index entry holds, as mathematical values.
pub ghost struct DirEntryView {
    pub object_type: ObjectType,
    pub stat: FileStat,
    pub sha: Seq<u8>,
    pub name: Seq<char>,
    pub mode: u16,
}

impl View for DirEntry {
    type V = DirEntryView;

    open spec fn view(&self) -> DirEntryView {
        DirEntryView {
            object_type: self.object_type,
            stat: self.stat,
            sha: self.sha@,
            name: self.name@,
            mode: self.mode,
        }
    }
}

} // verus!
