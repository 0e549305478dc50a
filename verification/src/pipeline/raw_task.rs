//! A task as it is written in a pipeline file.

use vstd::prelude::*;

verus! {

/// A task as it is written down: dependencies are names, and the image may be
/// left out.
#[derive(Debug, PartialEq)]
pub struct RawTask {
    pub name: String,
    pub commands: String,
    pub image: Option<String>,
    pub depends: Option<Vec<String>>,
}

/// A [`RawTask`] as plain values.
pub struct RawTaskView {
    pub name: Seq<char>,
    pub commands: Seq<char>,
    pub image: Option<Seq<char>>,
    pub depends: Option<Seq<Seq<char>>>,
}

impl RawTaskView {
    /// The names that the task depends on: none where none are written.
    pub open spec fn dependencies(self) -> Seq<Seq<char>> {
        match self.depends {
            Some(names) => names,
            None => Seq::empty(),
        }
    }

    /// The image that the task runs in: its own, or else the default.
    pub open spec fn resolved_image(self, default: Option<Seq<char>>) -> Option<Seq<char>> {
        match self.image {
            Some(image) => Some(image),
            None => default,
        }
    }
}

impl View for RawTask {
    type V = RawTaskView;

    open spec fn view(&self) -> RawTaskView {
        RawTaskView {
            name: self.name@,
            commands: self.commands@,
            image: match self.image {
                Some(image) => Some(image@),
                None => None,
            },
            depends: match self.depends {
                Some(names) => Some(names.deep_view()),
                None => None,
            },
        }
    }
}

/// Raw tasks as plain values.
pub open spec fn raw_view(tasks: Seq<RawTask>) -> Seq<RawTaskView> {
    tasks.map_values(|task: RawTask| task@)
}

} // verus!
