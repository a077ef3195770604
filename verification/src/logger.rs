//! The lines that the downloader prints: coloured, with informational lines
//! only when verbose.

use vstd::prelude::*;
use crate::downloader::DownloaderArgs;

verus! {

/// Prints messages; informational ones only when verbose.
pub struct Logger {
    verbose: bool,
}

/// The kinds of message.
pub enum Level {
    /// A yellow note, always printed.
    Note,
    /// A green informational message, printed only when verbose.
    Info,
    /// A green message, always printed.
    Message,
    /// A red error, always printed.
    Error,
}

/// The colour code and label that start a line of the given level.
pub open spec fn level_prefix(level: Level) -> Seq<char> {
    match level {
        Level::Note => "\x1b[33mNOTE: "@,
        Level::Info => "\x1b[32mINFO: "@,
        Level::Message => "\x1b[32m"@,
        Level::Error => "\x1b[31mERROR: "@,
    }
}

/// The code that resets the colour at the end of a line.
pub open spec fn colour_reset() -> Seq<char> {
    "\x1b[0m"@
}

impl Logger {
    /// Whether informational messages are printed.
    pub closed spec fn is_verbose(&self) -> bool {
        self.verbose
    }

    /// A logger that is verbose unless the options ask for no verbosity.
    pub fn new(args: &DownloaderArgs) -> (r: Logger)
        ensures
            r.is_verbose() == !args.no_verbose,
    {
        Logger { verbose: !args.no_verbose }
    }

    /// The line to print for `msg` at `level`: its colour and label, the
    /// message, and the colour reset; none for an informational message when
    /// not verbose.
    pub fn line(&self, level: Level, msg: &str) -> (r: Option<String>)
        ensures
            r is None <==> (level is Info && !self.is_verbose()),
            r matches Some(s) ==> s@ == level_prefix(level) + msg@ + colour_reset(),
    {
        let prefix = match level {
            Level::Note => "\x1b[33mNOTE: ",
            Level::Info => {
                if !self.verbose {
                    return None;
                }
                "\x1b[32mINFO: "
            },
            Level::Message => "\x1b[32m",
            Level::Error => "\x1b[31mERROR: ",
        };
        let mut s = String::new();
        s.append(prefix);
        s.append(msg);
        s.append("\x1b[0m");
        Some(s)
    }
}

} // verus!
