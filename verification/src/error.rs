use vstd::prelude::*;
use vstd::string::StringExecFns;

verus! {

/// The failure taxonomy of the library. Each variant carries the offending
/// path or segment, so callers can surface what went wrong.
#[derive(Debug)]
pub enum PdfError {
    /// The relative file name does not split into exactly six segments.
    InvalidFileName(String),
    /// The date segment is not exactly six ASCII digits.
    InvalidDate(String),
    /// The cost segment is not parseable as a decimal number.
    InvalidCost(String),
    /// The location segment does not lowercase to a recognized token.
    InvalidLocation(String),
    /// A record that is not flagged `split` was handed to the allocator.
    InvalidSplitInput(String),
    /// The source directory does not exist.
    MissingDir(String),
    /// The source path names a file, not a directory.
    InvalidDir(String),
    /// The source directory contains a nested subdirectory.
    InvalidDirContents(String),
    /// An entry of the source directory lacks a `.pdf` extension.
    InvalidFileExtension(String),
    /// Enumerating the source directory failed.
    WalkFailure(String),
    /// Creating an output directory failed.
    DirCreateFailure(String),
    /// Copying a source file to its destination failed.
    FileCopyFailure(String),
    /// The two halves of a split did not reconcile to the original cost.
    SplitInvariantViolation(String),
}

impl PdfError {
    /// The detail string carried by the error: the offending path or segment.
    pub open spec fn spec_detail(&self) -> Seq<char> {
        match self {
            PdfError::InvalidFileName(s) => s@,
            PdfError::InvalidDate(s) => s@,
            PdfError::InvalidCost(s) => s@,
            PdfError::InvalidLocation(s) => s@,
            PdfError::InvalidSplitInput(s) => s@,
            PdfError::MissingDir(s) => s@,
            PdfError::InvalidDir(s) => s@,
            PdfError::InvalidDirContents(s) => s@,
            PdfError::InvalidFileExtension(s) => s@,
            PdfError::WalkFailure(s) => s@,
            PdfError::DirCreateFailure(s) => s@,
            PdfError::FileCopyFailure(s) => s@,
            PdfError::SplitInvariantViolation(s) => s@,
        }
    }

    /// The phrase that names each failure kind.
    pub open spec fn spec_prefix(&self) -> Seq<char> {
        match self {
            PdfError::InvalidFileName(_) => ("INVALID FILE NAME: the name must consist of 6 segments: ")@,
            PdfError::InvalidDate(_) => ("INVALID DATE: the 'date' field must consist of 6 digits like '010125': ")@,
            PdfError::InvalidCost(_) => ("INVALID COST: the 'cost' field must be a decimal number: ")@,
            PdfError::InvalidLocation(_) => ("INVALID LOCATION: the 'location' field must be 'southroads', 'utica', or 'split': ")@,
            PdfError::InvalidSplitInput(_) => ("INVALID SPLIT INPUT: only a record with location 'split' can be allocated: ")@,
            PdfError::MissingDir(_) => ("MISSING DIR: this dir does not exist: ")@,
            PdfError::InvalidDir(_) => ("INVALID DIR: provided a file, not a dir: ")@,
            PdfError::InvalidDirContents(_) => ("INVALID DIR CONTENTS: the dir must not contain any subdirectories: ")@,
            PdfError::InvalidFileExtension(_) => ("INVALID FILE EXTENSION: the dir must contain only .pdf files: ")@,
            PdfError::WalkFailure(_) => ("WALKDIR FAILURE: an error was encountered when walking the provided dir path: ")@,
            PdfError::DirCreateFailure(_) => ("FAILED TO CREATE DIR: the following dir was not created: ")@,
            PdfError::FileCopyFailure(_) => ("FILE COPY FAILURE: ")@,
            PdfError::SplitInvariantViolation(_) => ("PDF SPLIT ERROR: the cost of the two halves does not equal the original cost: ")@,
        }
    }

    /// A human-readable message: the kind of the failure, then the
    /// offending path or segment.
    pub fn message(&self) -> (m: String)
        ensures
            m@ == self.spec_prefix() + self.spec_detail(),
    {
        let prefix: &str = match self {
            PdfError::InvalidFileName(_) => "INVALID FILE NAME: the name must consist of 6 segments: ",
            PdfError::InvalidDate(_) => "INVALID DATE: the 'date' field must consist of 6 digits like '010125': ",
            PdfError::InvalidCost(_) => "INVALID COST: the 'cost' field must be a decimal number: ",
            PdfError::InvalidLocation(_) => "INVALID LOCATION: the 'location' field must be 'southroads', 'utica', or 'split': ",
            PdfError::InvalidSplitInput(_) => "INVALID SPLIT INPUT: only a record with location 'split' can be allocated: ",
            PdfError::MissingDir(_) => "MISSING DIR: this dir does not exist: ",
            PdfError::InvalidDir(_) => "INVALID DIR: provided a file, not a dir: ",
            PdfError::InvalidDirContents(_) => "INVALID DIR CONTENTS: the dir must not contain any subdirectories: ",
            PdfError::InvalidFileExtension(_) => "INVALID FILE EXTENSION: the dir must contain only .pdf files: ",
            PdfError::WalkFailure(_) => "WALKDIR FAILURE: an error was encountered when walking the provided dir path: ",
            PdfError::DirCreateFailure(_) => "FAILED TO CREATE DIR: the following dir was not created: ",
            PdfError::FileCopyFailure(_) => "FILE COPY FAILURE: ",
            PdfError::SplitInvariantViolation(_) => "PDF SPLIT ERROR: the cost of the two halves does not equal the original cost: ",
        };
        let detail: &String = match self {
            PdfError::InvalidFileName(s) => s,
            PdfError::InvalidDate(s) => s,
            PdfError::InvalidCost(s) => s,
            PdfError::InvalidLocation(s) => s,
            PdfError::InvalidSplitInput(s) => s,
            PdfError::MissingDir(s) => s,
            PdfError::InvalidDir(s) => s,
            PdfError::InvalidDirContents(s) => s,
            PdfError::InvalidFileExtension(s) => s,
            PdfError::WalkFailure(s) => s,
            PdfError::DirCreateFailure(s) => s,
            PdfError::FileCopyFailure(s) => s,
            PdfError::SplitInvariantViolation(s) => s,
        };
        let mut m = String::from_str(prefix);
        m.append(detail.as_str());
        m
    }
}

} // verus!
