//! The log of the application: entries, the bounded buffer that keeps the
//! most recent ones in memory, the line that is printed for an entry, and
//! the filters of a query.

use vstd::prelude::*;
use vstd::string::*;
use crate::error::JanusError;
use crate::paths::{join, spec_join};
use crate::text::copy_optional;

verus! {

/// How severe an entry is.
#[derive(Debug, Clone, Copy, PartialEq, Eq, Structural)]
pub enum LogLevel {
    Error,
    Warn,
    Info,
    Debug,
    Trace,
    Verify,
}

impl LogLevel {
    /// The name of the level, in capitals.
    pub open spec fn spec_name(self) -> Seq<char> {
        match self {
            LogLevel::Error => "ERROR"@,
            LogLevel::Warn => "WARN"@,
            LogLevel::Info => "INFO"@,
            LogLevel::Debug => "DEBUG"@,
            LogLevel::Trace => "TRACE"@,
            LogLevel::Verify => "VERIFY"@,
        }
    }

    /// The name of the level, in capitals.
    pub fn name(self) -> (name: &'static str)
        ensures
            name@ == self.spec_name(),
    {
        match self {
            LogLevel::Error => "ERROR",
            LogLevel::Warn => "WARN",
            LogLevel::Info => "INFO",
            LogLevel::Debug => "DEBUG",
            LogLevel::Trace => "TRACE",
            LogLevel::Verify => "VERIFY",
        }
    }
}

/// One entry of the log.
#[derive(Debug, Clone, PartialEq, Eq)]
pub struct LogEntry {
    /// When the entry was made, as text.
    pub timestamp: String,
    pub level: LogLevel,
    /// The part of the application that made the entry.
    pub component: String,
    pub message: String,
    /// Structured details, as JSON text.
    pub details: Option<String>,
    /// What ties the entry to others of the same operation.
    pub context_id: Option<String>,
}

/// A `LogEntry` as a mathematical value.
pub struct LogEntryView {
    pub timestamp: Seq<char>,
    pub level: LogLevel,
    pub component: Seq<char>,
    pub message: Seq<char>,
    pub details: Option<Seq<char>>,
    pub context_id: Option<Seq<char>>,
}

impl DeepView for LogEntry {
    type V = LogEntryView;

    open spec fn deep_view(&self) -> LogEntryView {
        LogEntryView {
            timestamp: self.timestamp@,
            level: self.level,
            component: self.component@,
            message: self.message@,
            details: self.details.deep_view(),
            context_id: self.context_id.deep_view(),
        }
    }
}

impl LogEntry {
    /// A copy of the entry.
    pub fn copy(&self) -> (copy: LogEntry)
        ensures
            copy.deep_view() == self.deep_view(),
    {
        LogEntry {
            timestamp: self.timestamp.clone(),
            level: self.level,
            component: self.component.clone(),
            message: self.message.clone(),
            details: copy_optional(&self.details),
            context_id: copy_optional(&self.context_id),
        }
    }
}

/// How an optional part of a line is printed: between `before` and `after`,
/// or not at all.
pub open spec fn spec_optional_part(before: Seq<char>, part: Option<Seq<char>>, after: Seq<char>)
    -> Seq<char> {
    match part {
        Some(text) => before + text + after,
        None => Seq::empty(),
    }
}

/// The line that is printed for an entry: the timestamp, the level and the
/// component in square brackets, the context where there is one, the
/// message, and the details where there are any.
pub open spec fn spec_log_line(entry: LogEntryView) -> Seq<char> {
    "["@ + entry.timestamp + "] ["@ + entry.level.spec_name() + "] ["@ + entry.component + "]"@
        + spec_optional_part(" [Context:"@, entry.context_id, "]"@) + " "@ + entry.message
        + spec_optional_part(" | "@, entry.details, Seq::empty())
}

/// The line that is printed for an entry.
pub fn log_line(entry: &LogEntry) -> (line: String)
    ensures
        line@ == spec_log_line(entry.deep_view()),
{
    let mut line = String::from_str("[");
    line.append(entry.timestamp.as_str());
    line.append("] [");
    line.append(entry.level.name());
    line.append("] [");
    line.append(entry.component.as_str());
    line.append("]");
    let ghost start = line@;
    if let Some(context) = &entry.context_id {
        line.append(" [Context:");
        line.append(context.as_str());
        line.append("]");
    }
    assert(line@ =~= start + spec_optional_part(" [Context:"@, entry.context_id.deep_view(), "]"@));
    line.append(" ");
    line.append(entry.message.as_str());
    let ghost middle = line@;
    if let Some(details) = &entry.details {
        line.append(" | ");
        line.append(details.as_str());
    }
    assert(line@ =~= middle + spec_optional_part(
        " | "@,
        entry.details.deep_view(),
        Seq::empty(),
    ));
    line
}

/// How many entries the buffer keeps at most.
pub const MAX_MEMORY_LOGS: usize = 1000;

/// The last `count` entries of a list, or all of them where there are
/// fewer.
pub open spec fn spec_last(list: Seq<LogEntryView>, count: nat) -> Seq<LogEntryView> {
    if list.len() > count {
        list.skip(list.len() - count)
    } else {
        list
    }
}

/// The most recent entries of the log, oldest first.
#[derive(Debug, Clone, PartialEq, Eq)]
pub struct LogBuffer {
    pub entries: Vec<LogEntry>,
}

impl DeepView for LogBuffer {
    type V = Seq<LogEntryView>;

    open spec fn deep_view(&self) -> Seq<LogEntryView> {
        self.entries.deep_view()
    }
}

impl LogBuffer {
    /// An empty buffer.
    pub fn new() -> (buffer: LogBuffer)
        ensures
            buffer.deep_view() == Seq::<LogEntryView>::empty(),
    {
        let buffer = LogBuffer { entries: Vec::new() };
        assert(buffer.deep_view() =~= Seq::<LogEntryView>::empty());
        buffer
    }

    /// Adds an entry at the end and keeps the last `MAX_MEMORY_LOGS`
    /// entries.
    pub fn push(&mut self, entry: LogEntry)
        ensures
            final(self).deep_view() == spec_last(
                old(self).deep_view().push(entry.deep_view()),
                MAX_MEMORY_LOGS as nat,
            ),
    {
        let ghost before = self.deep_view();
        let ghost added = entry.deep_view();
        let mut entries: Vec<LogEntry> = Vec::new();
        core::mem::swap(&mut entries, &mut self.entries);
        entries.push(entry);
        assert(entries.deep_view() =~= before.push(added));
        if entries.len() > MAX_MEMORY_LOGS {
            let excess = entries.len() - MAX_MEMORY_LOGS;
            let kept = entries.split_off(excess);
            assert(kept.deep_view() =~= before.push(added).skip(excess as int));
            self.entries = kept;
        } else {
            self.entries = entries;
        }
    }
}

/// Records an entry in the buffer and returns the line that is printed for
/// it. Never fails.
pub fn log_event(buffer: &mut LogBuffer, entry: LogEntry) -> (res: Result<String, JanusError>)
    ensures
        res matches Ok(line) && line@ == spec_log_line(entry.deep_view()),
        final(buffer).deep_view() == spec_last(
            old(buffer).deep_view().push(entry.deep_view()),
            MAX_MEMORY_LOGS as nat,
        ),
{
    let line = log_line(&entry);
    buffer.push(entry);
    Ok(line)
}

/// Records an entry that the user interface made, as `log_event` does.
pub fn log_event_from_frontend(buffer: &mut LogBuffer, entry: LogEntry) -> (res: Result<
    String,
    JanusError,
>)
    ensures
        res matches Ok(line) && line@ == spec_log_line(entry.deep_view()),
        final(buffer).deep_view() == spec_last(
            old(buffer).deep_view().push(entry.deep_view()),
            MAX_MEMORY_LOGS as nat,
        ),
{
    log_event(buffer, entry)
}

/// What `str::to_uppercase` returns for a text.
pub uninterp spec fn spec_uppercase(text: Seq<char>) -> Seq<char>;

/// `str::to_uppercase` on `text`: the text in capitals, by the rules of
/// Unicode.
#[verifier::external_body]
fn uppercase(text: &str) -> (upper: String)
    ensures
        upper@ == spec_uppercase(text@),
{
    text.to_uppercase()
}

/// The filters of a query. A filter that is absent lets every entry pass.
#[derive(Debug, Clone, PartialEq, Eq)]
pub struct LogFilter {
    /// The name of the level, in capitals.
    pub level: Option<String>,
    pub component: Option<String>,
    pub context_id: Option<String>,
}

/// A `LogFilter` as a mathematical value.
pub struct LogFilterView {
    pub level: Option<Seq<char>>,
    pub component: Option<Seq<char>>,
    pub context_id: Option<Seq<char>>,
}

impl DeepView for LogFilter {
    type V = LogFilterView;

    open spec fn deep_view(&self) -> LogFilterView {
        LogFilterView {
            level: self.level.deep_view(),
            component: self.component.deep_view(),
            context_id: self.context_id.deep_view(),
        }
    }
}

/// Whether an entry passes the filters: its level has the name asked for,
/// its component is the one asked for, and it has the context asked for.
pub open spec fn spec_passes(entry: LogEntryView, filter: LogFilterView) -> bool {
    &&& filter.level matches Some(level) ==> entry.level.spec_name() == level
    &&& filter.component matches Some(component) ==> entry.component == component
    &&& filter.context_id matches Some(context) ==> entry.context_id == Some(context)
}

/// The entries that a query returns: those that pass the filters, in their
/// order, and of these the last `limit` where a limit is given.
pub open spec fn spec_query(entries: Seq<LogEntryView>, filter: LogFilterView, limit: Option<usize>)
    -> Seq<LogEntryView> {
    let passing = entries.filter(|e: LogEntryView| spec_passes(e, filter));
    match limit {
        Some(count) => spec_last(passing, count as nat),
        None => passing,
    }
}

/// Whether an entry passes the filters.
pub fn passes(entry: &LogEntry, filter: &LogFilter) -> (pass: bool)
    ensures
        pass == spec_passes(entry.deep_view(), filter.deep_view()),
{
    let level_ok = match &filter.level {
        Some(level) => {
            let name = String::from_str(entry.level.name());
            name == *level
        },
        None => true,
    };
    let component_ok = match &filter.component {
        Some(component) => entry.component == *component,
        None => true,
    };
    let context_ok = match &filter.context_id {
        Some(context) => match &entry.context_id {
            Some(own) => *own == *context,
            None => false,
        },
        None => true,
    };
    level_ok && component_ok && context_ok
}

/// The entries of the buffer that pass the filters, in their order, and of
/// these the last `limit` where a limit is given.
pub fn query_logs(buffer: &LogBuffer, filter: &LogFilter, limit: Option<usize>) -> (found: Vec<
    LogEntry,
>)
    ensures
        found.deep_view() == spec_query(buffer.deep_view(), filter.deep_view(), limit),
{
    let ghost all = buffer.deep_view();
    let ghost wanted = |e: LogEntryView| spec_passes(e, filter.deep_view());
    let mut passing: Vec<LogEntry> = Vec::new();
    let mut i: usize = 0;
    proof {
        assert(all.take(0) =~= Seq::<LogEntryView>::empty());
        reveal(Seq::filter);
        assert(passing.deep_view() =~= all.take(0).filter(wanted));
    }
    while i < buffer.entries.len()
        invariant
            i <= buffer.entries.len(),
            all == buffer.deep_view(),
            wanted == |e: LogEntryView| spec_passes(e, filter.deep_view()),
            passing.deep_view() == all.take(i as int).filter(wanted),
        decreases buffer.entries.len() - i,
    {
        let ghost seen = all.take(i as int);
        let ghost before = passing.deep_view();
        proof {
            assert(all.take(i + 1) =~= seen.push(all[i as int]));
            seen.lemma_filter_push(all[i as int], wanted);
        }
        if passes(&buffer.entries[i], filter) {
            passing.push(buffer.entries[i].copy());
            assert(passing.deep_view() =~= before.push(all[i as int]));
        }
        i += 1;
    }
    proof {
        assert(all.take(i as int) =~= all);
    }
    match limit {
        Some(count) => {
            if passing.len() > count {
                let ghost whole = passing.deep_view();
                let excess = passing.len() - count;
                let kept = passing.split_off(excess);
                assert(kept.deep_view() =~= whole.skip(excess as int));
                kept
            } else {
                passing
            }
        },
        None => passing,
    }
}

/// The entries of the buffer that a query asks for. The level is compared
/// without regard to case.
///
/// Returns the entries whose level has the name that `level` has in
/// capitals, whose component is `component` and whose context is
/// `context_id`, each where it is given, and of these the last `limit`.
/// Never fails.
pub fn get_recent_logs(
    buffer: &LogBuffer,
    level: Option<String>,
    component: Option<String>,
    context_id: Option<String>,
    limit: Option<usize>,
) -> (res: Result<Vec<LogEntry>, JanusError>)
    ensures
        res matches Ok(found) && found.deep_view() == spec_query(
            buffer.deep_view(),
            LogFilterView {
                level: match level {
                    Some(text) => Some(spec_uppercase(text@)),
                    None => None,
                },
                component: component.deep_view(),
                context_id: context_id.deep_view(),
            },
            limit,
        ),
{
    let level = match level {
        Some(text) => Some(uppercase(text.as_str())),
        None => None,
    };
    let filter = LogFilter { level, component, context_id };
    Ok(query_logs(buffer, &filter, limit))
}

/// The directory of the log files, below the directory `data_dir` for the
/// data of applications.
///
/// Fails with `ConfigError` where there is no such directory.
pub fn get_log_dir(data_dir: Option<String>) -> (res: Result<String, JanusError>)
    ensures
        match data_dir {
            Some(dir) => res matches Ok(logs) && logs@ == spec_join(
                spec_join(dir@, "januslens"@),
                "logs"@,
            ),
            None => res matches Err(JanusError::ConfigError(t)) && t@
                == "Could not determine data directory"@,
        },
{
    match data_dir {
        Some(dir) => {
            let app = join(dir.as_str(), "januslens");
            Ok(join(app.as_str(), "logs"))
        },
        None => Err(JanusError::ConfigError("Could not determine data directory".to_owned())),
    }
}

/// The name of the log file of a day: one file for each day.
pub open spec fn spec_log_file_name(day: Seq<char>) -> Seq<char> {
    "januslens_"@ + day + ".log"@
}

/// The name of the log file of the day `day`.
pub fn log_file_name(day: &str) -> (name: String)
    ensures
        name@ == spec_log_file_name(day@),
{
    let mut name = String::from_str("januslens_");
    name.append(day);
    name.append(".log");
    name
}

/// The path of the file to which logs are exported as `filename`, below the
/// user's directory for documents.
///
/// Fails with `ConfigError` where there is no such directory.
pub fn export_logs(documents: Option<String>, filename: String) -> (res: Result<
    String,
    JanusError,
>)
    ensures
        match documents {
            Some(dir) => res matches Ok(path) && path@ == spec_join(
                spec_join(dir@, "JanusLens"@),
                filename@,
            ),
            None => res matches Err(JanusError::ConfigError(t)) && t@
                == "Could not determine documents directory"@,
        },
{
    match documents {
        Some(dir) => {
            let folder = join(dir.as_str(), "JanusLens");
            Ok(join(folder.as_str(), filename.as_str()))
        },
        None => Err(
            JanusError::ConfigError("Could not determine documents directory".to_owned()),
        ),
    }
}

} // verus!
