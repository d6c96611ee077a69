//! The tallies of files and directories, and the closing line.

use vstd::prelude::*;
use vstd::string::*;
use crate::utils::{decimal, to_decimal};

verus! {

/// The tallies of one run.
#[derive(Debug)]
pub struct Output {
    files: usize,
    directories: usize,
    starting_directories: usize,
}

/// The mathematical value of an [`Output`].
pub ghost struct OutputView {
    pub files: nat,
    pub directories: nat,
    pub starting_directories: nat,
}

impl View for Output {
    type V = OutputView;

    closed spec fn view(&self) -> OutputView {
        OutputView {
            files: self.files as nat,
            directories: self.directories as nat,
            starting_directories: self.starting_directories as nat,
        }
    }
}

/// The directories that were found below the roots: those that were
/// counted but for the roots, and none where fewer were counted than there
/// are roots, as where a root is no directory.
pub open spec fn directories_found(output: OutputView) -> nat {
    if output.directories >= output.starting_directories {
        (output.directories - output.starting_directories) as nat
    } else {
        0
    }
}

/// The closing line of a run: the directories found below the roots, and
/// the files.
pub open spec fn summary_text(output: OutputView) -> Seq<char> {
    decimal(directories_found(output)) + " directories, "@ + decimal(output.files) + " files"@
}

impl Output {
    /// Tallies that have counted nothing yet, for a run from so many roots.
    pub fn new(starting_directories: usize) -> (r: Output)
        ensures
            r@ == (OutputView {
                files: 0,
                directories: 0,
                starting_directories: starting_directories as nat,
            }),
    {
        Output { files: 0, directories: 0, starting_directories }
    }

    /// Counts one more file.
    pub fn increment_files(&mut self)
        requires
            old(self)@.files < usize::MAX,
        ensures
            final(self)@ == (OutputView { files: old(self)@.files + 1, ..old(self)@ }),
    {
        self.files += 1;
    }

    /// Counts one more directory.
    pub fn increment_directories(&mut self)
        requires
            old(self)@.directories < usize::MAX,
        ensures
            final(self)@ == (OutputView { directories: old(self)@.directories + 1, ..old(self)@ }),
    {
        self.directories += 1;
    }

    /// The number of entries visited that are no directories.
    pub fn files(&self) -> (r: usize)
        ensures
            r == self@.files,
    {
        self.files
    }

    /// The number of directories visited, the roots among them.
    pub fn directories(&self) -> (r: usize)
        ensures
            r == self@.directories,
    {
        self.directories
    }

    /// The number of roots the run was started with.
    pub fn starting_directories(&self) -> (r: usize)
        ensures
            r == self@.starting_directories,
    {
        self.starting_directories
    }

    /// The closing line, which leaves the roots out of the directory tally.
    pub fn summary(&self) -> (r: String)
        ensures
            r@ == summary_text(self@),
    {
        let found: usize = if self.directories >= self.starting_directories {
            self.directories - self.starting_directories
        } else {
            0
        };
        let mut text = to_decimal(found);
        text.append(" directories, ");
        text.append(to_decimal(self.files).as_str());
        text.append(" files");
        text
    }
}

} // verus!
