//! The contents of a `splits.txt` file: the sections of the program and, for
//! each source file, the address ranges of the sections that it holds.
use vstd::prelude::*;

pub mod parser;
pub mod layout;

pub use parser::splits as parser;

verus! {

/// A whole `splits.txt`.
#[derive(Debug)]
pub struct Splits {
    pub sections: Vec<Section>,
    pub files: Vec<File>,
}

/// One source file and the ranges that belong to it.
#[derive(Debug)]
pub struct File {
    pub path: String,
    pub splits: Vec<Split>,
}

/// A range `start..end` of the section named `section`.
#[derive(Debug)]
pub struct Split {
    pub section: String,
    pub start: u32,
    pub end: u32,
}

/// A section of the program, with its type and alignment.
#[derive(Debug)]
pub struct Section {
    pub name: String,
    pub kind: String,
    pub align: u32,
}

/// The abstract value of a [`Splits`].
pub struct SplitsSpec {
    pub sections: Seq<SectionSpec>,
    pub files: Seq<FileSpec>,
}

/// The abstract value of a [`File`].
pub struct FileSpec {
    pub path: Seq<char>,
    pub splits: Seq<SplitSpec>,
}

/// The abstract value of a [`Split`].
pub struct SplitSpec {
    pub section: Seq<char>,
    pub start: u32,
    pub end: u32,
}

/// The abstract value of a [`Section`].
pub struct SectionSpec {
    pub name: Seq<char>,
    pub kind: Seq<char>,
    pub align: u32,
}

impl DeepView for Section {
    type V = SectionSpec;

    open spec fn deep_view(&self) -> SectionSpec {
        SectionSpec { name: self.name@, kind: self.kind@, align: self.align }
    }
}

impl DeepView for Split {
    type V = SplitSpec;

    open spec fn deep_view(&self) -> SplitSpec {
        SplitSpec { section: self.section@, start: self.start, end: self.end }
    }
}

impl DeepView for File {
    type V = FileSpec;

    open spec fn deep_view(&self) -> FileSpec {
        FileSpec { path: self.path@, splits: self.splits.deep_view() }
    }
}

impl DeepView for Splits {
    type V = SplitsSpec;

    open spec fn deep_view(&self) -> SplitsSpec {
        SplitsSpec { sections: self.sections.deep_view(), files: self.files.deep_view() }
    }
}

} // verus!
