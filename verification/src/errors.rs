//! The run-level error kinds and their user-readable messages.

use vstd::prelude::*;
use vstd::string::*;

verus! {

/// Everything that can end a create or audit run early.  I/O failures are
/// carried as their rendered messages together with the path concerned.
#[derive(Debug)]
pub enum Error {
    /// A directory was given as a source without the recursive option.
    IsDir(String),
    /// Reading a file or directory failed: the failure's message, then the path.
    Io(String, String),
    /// The output file could not be created.
    OutputRead(String),
    /// A data line could not be written to the output file.
    OutputWrite(String),
    /// The finish time could not be patched into the finished file.
    OutputFinish(String),
    /// The manifest header or a data line is malformed.
    FileFormat,
    /// An unknown algorithm token; the payload is the full message.
    InvalidHash(String),
    /// Reading a line of the manifest failed.
    ReadLine(String),
    /// The manifest holds an empty-directory entry but the caller did not
    /// opt in to empty directories.
    AuditEmptyDir(String),
}

/// The message shown for each error kind.
pub open spec fn error_msg(e: Error) -> Seq<char> {
    match e {
        Error::IsDir(p) => "`"@ + p@ + "` is a directory, try running with --recursive flag"@,
        Error::Io(m, p) => "trying to read file or directory `"@ + p@ + "`: "@ + m@,
        Error::OutputRead(m) => "failed to read output file: "@ + m@,
        Error::OutputWrite(m) => "failed to write to output file: "@ + m@,
        Error::OutputFinish(
            _,
        ) => "hashing concluded successfully but the program failed to insert the finish time into the file"@,
        Error::FileFormat => "invalid hashes file format"@,
        Error::InvalidHash(v) => v@,
        Error::ReadLine(m) => "failed to read hashes file: "@ + m@,
        Error::AuditEmptyDir(
            p,
        ) => "empty directory: "@ + p@
            + "\n - Because the hashes file was created with `empty-dirs` option enabled, this option must also be enabled when auditing"@,
    }
}

impl Error {
    /// Render the message for this error.
    pub fn message(&self) -> (r: String)
        ensures
            r@ == error_msg(*self),
    {
        match self {
            Error::IsDir(p) => {
                let mut s = String::from_str("`");
                s.append(p.as_str());
                s.append("` is a directory, try running with --recursive flag");
                s
            },
            Error::Io(m, p) => {
                let mut s = String::from_str("trying to read file or directory `");
                s.append(p.as_str());
                s.append("`: ");
                s.append(m.as_str());
                s
            },
            Error::OutputRead(m) => {
                let mut s = String::from_str("failed to read output file: ");
                s.append(m.as_str());
                s
            },
            Error::OutputWrite(m) => {
                let mut s = String::from_str("failed to write to output file: ");
                s.append(m.as_str());
                s
            },
            Error::OutputFinish(_) => String::from_str(
                "hashing concluded successfully but the program failed to insert the finish time into the file",
            ),
            Error::FileFormat => String::from_str("invalid hashes file format"),
            Error::InvalidHash(v) => v.clone(),
            Error::ReadLine(m) => {
                let mut s = String::from_str("failed to read hashes file: ");
                s.append(m.as_str());
                s
            },
            Error::AuditEmptyDir(p) => {
                let mut s = String::from_str("empty directory: ");
                s.append(p.as_str());
                s.append(
                    "\n - Because the hashes file was created with `empty-dirs` option enabled, this option must also be enabled when auditing",
                );
                s
            },
        }
    }
}

} // verus!
