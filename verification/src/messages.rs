//! What is shown to the user, before it is drawn.

use crate::text::{joined, law_joined_piecewise};
use vstd::prelude::*;

verus! {

#[derive(Debug, Clone, Copy, PartialEq, Eq, Structural)]
pub enum Color {
    Green,
    Magenta,
    Red,
    Yellow,
}

#[derive(Debug, Clone, Copy, PartialEq, Eq, Structural)]
pub enum Attribute {
    Bold,
    Italic,
}

#[derive(Debug, Clone, Copy, PartialEq, Eq, Structural)]
pub enum CellAlignment {
    Left,
    Center,
    Right,
}

/// One cell of a table: its text and how the text is drawn.
#[derive(Debug, Clone)]
pub struct CellData {
    pub text: String,
    pub color: Option<Color>,
    pub attributes: Vec<Attribute>,
    pub alignment: Option<CellAlignment>,
}

/// What a cell says.
#[verifier::ext_equal]
pub struct CellModel {
    pub text: Seq<char>,
    pub color: Option<Color>,
    pub attributes: Seq<Attribute>,
    pub alignment: Option<CellAlignment>,
}

impl DeepView for CellData {
    type V = CellModel;

    open spec fn deep_view(&self) -> CellModel {
        CellModel {
            text: self.text@,
            color: self.color,
            attributes: self.attributes@,
            alignment: self.alignment,
        }
    }
}

impl CellData {
    pub fn new(
        text: String,
        color: Option<Color>,
        attributes: Vec<Attribute>,
        alignment: Option<CellAlignment>,
    ) -> (r: Self)
        ensures
            r.deep_view() == (CellModel {
                text: text@,
                color,
                attributes: attributes@,
                alignment,
            }),
    {
        CellData { text, color, attributes, alignment }
    }
}

/// A header and the rows below it.
#[derive(Debug, Clone)]
pub struct RustiqueMessage {
    pub header: Option<CellData>,
    pub message: Vec<CellData>,
}

/// What a message says.
#[verifier::ext_equal]
pub struct MessageModel {
    pub header: Option<CellModel>,
    pub message: Seq<CellModel>,
}

impl DeepView for RustiqueMessage {
    type V = MessageModel;

    open spec fn deep_view(&self) -> MessageModel {
        MessageModel { header: self.header.deep_view(), message: self.message.deep_view() }
    }
}

/// One line that is brought to the user's notice, in bold.
#[derive(Debug, Clone)]
pub struct Notice {
    pub text: String,
    pub color: Color,
}

/// What a notice says.
#[verifier::ext_equal]
pub struct NoticeModel {
    pub text: Seq<char>,
    pub color: Color,
}

impl DeepView for Notice {
    type V = NoticeModel;

    open spec fn deep_view(&self) -> NoticeModel {
        NoticeModel { text: self.text@, color: self.color }
    }
}

/// The names in square brackets, as in `[a], [b]`, without the outermost two brackets.
pub open spec fn bracketed(names: Seq<Seq<char>>) -> Seq<char> {
    joined(names, "], ["@)
}

/// Every name stands in brackets of its own: the names before a place and those behind it are
/// bracketed on their own, with a comma between them. One name is what stands in its brackets.
pub proof fn law_every_name_is_bracketed(a: Seq<Seq<char>>, b: Seq<Seq<char>>)
    ensures
        a.len() == 0 ==> bracketed(a).len() == 0,
        a.len() == 1 ==> bracketed(a) == a[0],
        a.len() > 0 && b.len() > 0 ==> bracketed(a + b) == bracketed(a) + "], ["@ + bracketed(b),
{
    law_joined_piecewise(a, b, "], ["@);
}

/// What a list of mods that were passed over is about.
#[derive(Debug, Clone, Copy, PartialEq, Eq, Structural)]
pub enum Report {
    /// Mods without a version that their pins allow.
    PinnedConstraints,
    /// Dependencies that the mod site does not have.
    MissingDependencies,
    /// Mods that the last sync knows no version of.
    NoVersionInformation,
}

impl Report {
    /// What the list is headed by.
    pub open spec fn heading(self) -> Seq<char> {
        match self {
            Report::PinnedConstraints => "Failed to install mods due to pinned constraints"@,
            Report::MissingDependencies => "Dependencies that could not be installed"@,
            Report::NoVersionInformation => "Skipped, no version information"@,
        }
    }

    /// The heading of the list where there is something to list. An empty list is not shown.
    pub fn title_of(self, rows: &Vec<String>) -> (r: Option<&'static str>)
        ensures
            r.deep_view() == (if rows.len() == 0 {
                None
            } else {
                Some(self.heading())
            }),
    {
        if rows.len() == 0 {
            return None;
        }
        Some(
            match self {
                Report::PinnedConstraints => "Failed to install mods due to pinned constraints",
                Report::MissingDependencies => "Dependencies that could not be installed",
                Report::NoVersionInformation => "Skipped, no version information",
            },
        )
    }
}

} // verus!
