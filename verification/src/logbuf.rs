//! The in-memory log: a capped buffer of entries shown in the log window.
//!
//! File rotation and the log directory's creation are I/O and live with the
//! caller; the buffer logic — debug gating, the capacity cap, and the
//! one-fifth drain when the cap is crossed — is here.

use vstd::prelude::*;
use vstd::string::StringExecFns;

verus! {

/// In-memory log entries kept at most.
pub const MAX_MEMORY_LOGS: usize = 2000;

/// One log line: a timestamp (formatted by the caller), a level, a message.
#[derive(Debug, Clone)]
pub struct LogEntry {
    pub timestamp: String,
    pub level: String,
    pub message: String,
}

pub struct LogEntryView {
    pub timestamp: Seq<char>,
    pub level: Seq<char>,
    pub message: Seq<char>,
}

impl View for LogEntry {
    type V = LogEntryView;

    open spec fn view(&self) -> LogEntryView {
        LogEntryView {
            timestamp: self.timestamp@,
            level: self.level@,
            message: self.message@,
        }
    }
}

impl DeepView for LogEntry {
    type V = LogEntryView;

    open spec fn deep_view(&self) -> LogEntryView {
        self.view()
    }
}

impl LogEntry {
    pub fn duplicate(&self) -> (r: LogEntry)
        ensures
            r@ == self@,
    {
        LogEntry {
            timestamp: self.timestamp.clone(),
            level: self.level.clone(),
            message: self.message.clone(),
        }
    }
}

/// Sizes of the persistent log files, collected by the caller for display.
#[derive(Debug, Clone)]
pub struct LogStats {
    pub log_dir: String,
    pub total_size_bytes: u64,
    pub file_count: usize,
    pub current_file_size_bytes: u64,
}

/// The log state: the capped in-memory buffer, the log directory once the
/// caller resolved it, and the debug-gating flag.
pub struct LogState {
    logs: Vec<LogEntry>,
    log_dir: Option<String>,
    debug_mode: bool,
}

impl View for LogState {
    type V = (Seq<LogEntryView>, Option<Seq<char>>, bool);

    closed spec fn view(&self) -> (Seq<LogEntryView>, Option<Seq<char>>, bool) {
        (self.logs.deep_view(), crate::model::opt_view(self.log_dir), self.debug_mode)
    }
}

impl LogState {
    pub fn new() -> (r: LogState)
        ensures
            r@.0 =~= Seq::<LogEntryView>::empty(),
            r@.1 is None,
            !r@.2,
    {
        let r = LogState { logs: Vec::new(), log_dir: None, debug_mode: false };
        proof {
            assert(r@.0 =~= Seq::<LogEntryView>::empty());
        }
        r
    }

    /// Records the resolved log directory.
    pub fn set_log_dir(&mut self, dir: String)
        ensures
            final(self)@.0 == old(self)@.0,
            final(self)@.1 == Some(dir@),
            final(self)@.2 == old(self)@.2,
    {
        self.log_dir = Some(dir);
    }

    /// The log directory, if resolved.
    pub fn get_log_dir(&self) -> (r: Option<String>)
        ensures
            crate::model::opt_view(r) == self@.1,
    {
        crate::model::clone_opt_string(&self.log_dir)
    }

    /// The active log file's path: the log directory plus the fixed file
    /// name.
    pub fn current_log_path(&self) -> (r: Option<String>)
        ensures
            match self@.1 {
                Some(d) => r matches Some(p) && p@ == d + "/tagdeck.log"@,
                None => r is None,
            },
    {
        match &self.log_dir {
            Some(d) => {
                let mut p = d.clone();
                p.append("/tagdeck.log");
                Some(p)
            },
            None => None,
        }
    }

    pub fn is_debug(&self) -> (r: bool)
        ensures
            r == self@.2,
    {
        self.debug_mode
    }

    pub fn set_debug(&mut self, enabled: bool)
        ensures
            final(self)@.0 == old(self)@.0,
            final(self)@.1 == old(self)@.1,
            final(self)@.2 == enabled,
    {
        self.debug_mode = enabled;
    }

    /// Appends one entry to the in-memory buffer, dropping the oldest fifth
    /// when the cap is crossed. Debug entries are dropped while debug mode
    /// is off; reports whether the entry was recorded.
    pub fn add_log(&mut self, level: &str, message: &str, timestamp: &str) -> (recorded: bool)
        ensures
            final(self)@.1 == old(self)@.1,
            final(self)@.2 == old(self)@.2,
            recorded == !(level@ == "DEBUG"@ && !old(self)@.2),
            !recorded ==> final(self)@.0 == old(self)@.0,
            recorded ==> ({
                let appended = old(self)@.0.push(
                    LogEntryView { timestamp: timestamp@, level: level@, message: message@ },
                );
                if appended.len() > MAX_MEMORY_LOGS {
                    final(self)@.0 == appended.skip((MAX_MEMORY_LOGS / 5) as int)
                } else {
                    final(self)@.0 == appended
                }
            }),
    {
        if crate::strutil::str_eq(level, "DEBUG") && !self.debug_mode {
            return false;
        }
        let entry = LogEntry {
            timestamp: timestamp.to_owned(),
            level: level.to_owned(),
            message: message.to_owned(),
        };
        let ghost before = self@.0;
        let ghost ev = entry@;
        self.logs.push(entry);
        proof {
            assert(self@.0 =~= before.push(ev));
        }
        if self.logs.len() > MAX_MEMORY_LOGS {
            let drain_count: usize = MAX_MEMORY_LOGS / 5;
            let ghost appended = self@.0;
            let mut kept: Vec<LogEntry> = Vec::new();
            let mut i: usize = drain_count;
            while i < self.logs.len()
                invariant
                    drain_count <= i <= self.logs@.len(),
                    appended == self.logs.deep_view(),
                    appended.len() == self.logs@.len(),
                    kept@.len() == i - drain_count,
                    forall|j: int|
                        0 <= j < kept@.len() ==> (#[trigger] kept@[j])@ == appended[j
                            + drain_count],
                decreases self.logs@.len() - i,
            {
                proof {
                    assert(appended[i as int] == self.logs@[i as int]@);
                }
                kept.push(self.logs[i].duplicate());
                i = i + 1;
            }
            self.logs = kept;
            proof {
                assert forall|j: int| 0 <= j < self@.0.len() implies self@.0[j] == appended.skip(
                    drain_count as int,
                )[j] by {
                    assert(self@.0[j] == self.logs@[j]@);
                }
                assert(self@.0 =~= appended.skip(drain_count as int));
            }
        }
        true
    }

    /// A copy of the buffered entries, oldest first.
    pub fn get_logs(&self) -> (r: Vec<LogEntry>)
        ensures
            r.deep_view() == self@.0,
    {
        let mut r: Vec<LogEntry> = Vec::new();
        let mut i: usize = 0;
        while i < self.logs.len()
            invariant
                i <= self.logs@.len(),
                self@.0.len() == self.logs@.len(),
                r@.len() == i,
                forall|j: int| 0 <= j < i ==> (#[trigger] r@[j])@ == self@.0[j],
            decreases self.logs@.len() - i,
        {
            proof {
                assert(self@.0[i as int] == self.logs@[i as int]@);
            }
            r.push(self.logs[i].duplicate());
            i = i + 1;
        }
        proof {
            assert forall|j: int| 0 <= j < r.deep_view().len() implies r.deep_view()[j]
                == self@.0[j] by {
                assert(r.deep_view()[j] == r@[j]@);
            }
            assert(r.deep_view() =~= self@.0);
        }
        r
    }
}

/// Normalizes a caller-supplied log level: anything but the four known
/// levels reads as informational.
pub fn normalize_level(level: &str) -> (r: &'static str)
    ensures
        (level@ == "ERROR"@ || level@ == "WARN"@ || level@ == "INFO"@ || level@ == "DEBUG"@)
            ==> r@ == level@,
        !(level@ == "ERROR"@ || level@ == "WARN"@ || level@ == "INFO"@ || level@ == "DEBUG"@)
            ==> r@ == "INFO"@,
{
    if crate::strutil::str_eq(level, "ERROR") {
        "ERROR"
    } else if crate::strutil::str_eq(level, "WARN") {
        "WARN"
    } else if crate::strutil::str_eq(level, "INFO") {
        "INFO"
    } else if crate::strutil::str_eq(level, "DEBUG") {
        "DEBUG"
    } else {
        "INFO"
    }
}

} // verus!
