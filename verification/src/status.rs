use vstd::prelude::*;
use vstd::string::*;

verus! {

/// The status of a file in relation to the rest of the repository.
#[derive(PartialEq, Eq, Debug, Clone)]
pub enum Status {
    Current,
    New,
    /// Modified; a submodule carries a note on what changed in it.
    Modified(Option<String>),
    Deleted,
}

/// A status as mathematical values.
pub ghost enum StatusView {
    Current,
    New,
    Modified(Option<Seq<char>>),
    Deleted,
}

impl View for Status {
    type V = StatusView;

    open spec fn view(&self) -> StatusView {
        match self {
            Status::Current => StatusView::Current,
            Status::New => StatusView::New,
            Status::Modified(None) => StatusView::Modified(None),
            Status::Modified(Some(detail)) => StatusView::Modified(Some(detail@)),
            Status::Deleted => StatusView::Deleted,
        }
    }
}

impl Default for Status {
    fn default() -> (r: Self)
        ensures
            r@ == StatusView::Current,
    {
        Status::Current
    }
}

/// The label that the long format puts before a path.
pub open spec fn long_label(state: StatusView) -> Seq<char> {
    match state {
        StatusView::Current => ""@,
        StatusView::New => "new file:   "@,
        StatusView::Modified(_) => "modified:   "@,
        StatusView::Deleted => "deleted:    "@,
    }
}

/// The letter that the short format shows for a state.
pub open spec fn short_code(state: StatusView) -> Seq<char> {
    match state {
        StatusView::Current => " "@,
        StatusView::New => "A"@,
        StatusView::Modified(_) => "M"@,
        StatusView::Deleted => "D"@,
    }
}

impl Status {
    /// Whether the state is that of a modified file or submodule.
    pub fn is_modified(&self) -> (r: bool)
        ensures
            r == (self@ is Modified),
    {
        match self {
            Status::Modified(_) => true,
            _ => false,
        }
    }

    /// Whether the state is that of a new path.
    pub fn is_new(&self) -> (r: bool)
        ensures
            r == (self@ is New),
    {
        match self {
            Status::New => true,
            _ => false,
        }
    }

    /// Whether the state is that of a deleted file.
    pub fn is_deleted(&self) -> (r: bool)
        ensures
            r == (self@ is Deleted),
    {
        match self {
            Status::Deleted => true,
            _ => false,
        }
    }

    /// The long-format label of this state.
    pub fn to_string(&self) -> (r: String)
        ensures
            r@ == long_label(self@),
    {
        match self {
            Status::Current => String::from_str(""),
            Status::New => String::from_str("new file:   "),
            Status::Modified(_) => String::from_str("modified:   "),
            Status::Deleted => String::from_str("deleted:    "),
        }
    }

    /// The one-letter code of this state in the short format.
    pub fn short_status_string(&self) -> (r: String)
        ensures
            r@ == short_code(self@),
    {
        match self {
            Status::Current => String::from_str(" "),
            Status::New => String::from_str("A"),
            Status::Modified(_) => String::from_str("M"),
            Status::Deleted => String::from_str("D"),
        }
    }
}

/// One line of a status report: a path and what happened to it.
#[derive(PartialEq, Eq, Debug, Default, Clone)]
pub struct StatusEntry {
    pub name: String,
    pub state: Status,
}

/// A status entry as mathematical values.
pub ghost struct StatusEntryView {
    pub name: Seq<char>,
    pub state: StatusView,
}

impl View for StatusEntry {
    type V = StatusEntryView;

    open spec fn view(&self) -> StatusEntryView {
        StatusEntryView { name: self.name@, state: self.state@ }
    }
}

impl StatusEntry {
    /// The entry as the long format prints it: the label, then the path.
    pub fn to_string(&self) -> (r: String)
        ensures
            r@ == long_label(self.state@) + self.name@,
    {
        let label = self.state.to_string();
        label.concat(self.name.as_str())
    }
}

} // verus!
