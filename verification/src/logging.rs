//! Loggers: where the lines of the engine go.

use vstd::prelude::*;

verus! {

/// Console logger implementation
#[derive(Debug, Clone, Copy)]
pub struct ConsoleLogger;

/// File logger implementation
#[derive(Debug)]
pub struct FileLogger {
    file_path: String,
}

impl FileLogger {
    /// Path of the file that the logger writes to.
    pub closed spec fn path(&self) -> Seq<char> {
        self.file_path@
    }

    pub fn new(file_path: String) -> (logger: FileLogger)
        ensures
            logger.path() == file_path@,
    {
        FileLogger { file_path }
    }

    /// Path of the file that the logger writes to.
    pub fn file_path(&self) -> (path: &str)
        ensures
            path@ == self.path(),
    {
        self.file_path.as_str()
    }
}

} // verus!
