//! Small enumerations and preferences shared by the application's parts.
use vstd::prelude::*;

verus! {

/// What the keyboard is doing.
#[derive(Clone, Copy, Debug, PartialEq, Eq, Structural)]
pub enum Mode {
    Normal,
    Insert,
    Search,
    Jump,
}

/// Which list is shown.
#[derive(Clone, Copy, Debug, PartialEq, Eq, Structural)]
pub enum View {
    List,
    Archive,
}

/// Order of the task list.
#[derive(Clone, Copy, Debug, PartialEq, Eq, Structural)]
pub enum Sort {
    File,
    Priority,
    Due,
}

/// Display preferences.
#[derive(Clone, Copy, Debug, PartialEq, Eq, Structural)]
pub struct Prefs {
    pub sort: Sort,
    pub show_done: bool,
    pub show_future: bool,
}

impl Default for Prefs {
    fn default() -> (r: Self)
        ensures
            r == (Prefs { sort: Sort::File, show_done: true, show_future: false }),
    {
        Prefs { sort: Sort::File, show_done: true, show_future: false }
    }
}

} // verus!
