//! The sink of one file's scan: it counts the matches of the file and hands
//! the table over exactly once.

use vstd::prelude::*;
use crate::entry_data::{table_count, EntryData, EntryView};

verus! {

/// The text that a run of bytes decodes to when every malformed sequence is
/// replaced by the replacement character.
pub uninterp spec fn lossy_text(bytes: Seq<u8>) -> Seq<char>;

/// `String::from_utf8_lossy`: decodes bytes permissively. Trusted: the result
/// is the named text, a function of the bytes alone.
#[verifier::external_body]
pub(crate) fn decode_lossy(bytes: &[u8]) -> (text: String)
    ensures
        text@ == lossy_text(bytes@),
{
    String::from_utf8_lossy(bytes).into_owned()
}

/// The table after one more occurrence of `text` was counted.
pub open spec fn counted(table: EntryView, text: Seq<char>) -> EntryView {
    EntryView {
        path: table.path,
        counts: table.counts.insert(text, table_count(table.counts, text) + 1),
    }
}

/// What a scanning collector with the table `table` answers to a match.
pub open spec fn answer(table: EntryView, text: Seq<char>, excluded: bool) -> Result<
    (),
    CollectError,
> {
    if !excluded && table_count(table.counts, text) >= u64::MAX {
        Err(CollectError::Full)
    } else {
        Ok(())
    }
}

/// The table of a scanning collector after a match.
pub open spec fn after_match(table: EntryView, text: Seq<char>, excluded: bool) -> EntryView {
    if excluded || table_count(table.counts, text) >= u64::MAX {
        table
    } else {
        counted(table, text)
    }
}

/// Why a match was not counted.
#[derive(Debug, PartialEq, Eq)]
pub enum CollectError {
    /// The term's count stands at the highest number that can be held.
    Full,
}

/// The sink of one file: scanning while it holds the file's table, finished
/// once the table is handed over.
pub struct Collector {
    entry: Option<EntryData>,
}

impl Collector {
    /// The collector's invariant: while it scans, its table is well formed.
    pub closed spec fn wf(&self) -> bool {
        self.entry matches Some(entry) ==> entry.wf()
    }

    /// Whether the table is still with the collector.
    pub closed spec fn is_scanning(&self) -> bool {
        self.entry is Some
    }

    /// The table that a scanning collector holds.
    pub closed spec fn table(&self) -> EntryView
        recommends
            self.is_scanning(),
    {
        self.entry->0@
    }

    /// A collector that starts to scan the file `path` with an empty table.
    pub fn new(path: &str) -> (collector: Self)
        ensures
            collector.wf(),
            collector.is_scanning(),
            collector.table().path == path@,
            collector.table().counts == Map::<Seq<char>, nat>::empty(),
    {
        Collector { entry: Some(EntryData::new(path)) }
    }

    /// A collector that goes on scanning into the table `entry`.
    pub fn resume(entry: EntryData) -> (collector: Self)
        requires
            entry.wf(),
        ensures
            collector.wf(),
            collector.is_scanning(),
            collector.table() == entry@,
    {
        Collector { entry: Some(entry) }
    }

    /// Whether the table is still with the collector.
    pub fn scanning(&self) -> (scanning: bool)
        ensures
            scanning == self.is_scanning(),
    {
        self.entry.is_some()
    }

    /// Takes note of one matched text: a match that is not excluded is
    /// counted, an excluded one changes nothing. Only a scanning collector
    /// takes matches; one after the hand-over is an error of the caller.
    pub fn matched_text(&mut self, text: &str, excluded: bool) -> (outcome: Result<(), CollectError>)
        requires
            old(self).wf(),
            old(self).is_scanning(),
        ensures
            final(self).wf(),
            final(self).is_scanning(),
            outcome == answer(old(self).table(), text@, excluded),
            final(self).table() == after_match(old(self).table(), text@, excluded),
    {
        match self.entry.take() {
            Some(mut entry) => {
                let outcome = if excluded {
                    Ok(())
                } else if entry.count(text) == u64::MAX {
                    Err(CollectError::Full)
                } else {
                    entry.inc_term(text);
                    Ok(())
                };
                self.entry = Some(entry);
                outcome
            },
            None => unreached(),
        }
    }

    /// Takes note of one match as raw bytes, decoded permissively.
    pub fn matched(&mut self, bytes: &[u8], excluded: bool) -> (outcome: Result<(), CollectError>)
        requires
            old(self).wf(),
            old(self).is_scanning(),
        ensures
            final(self).wf(),
            final(self).is_scanning(),
            outcome == answer(old(self).table(), lossy_text(bytes@), excluded),
            final(self).table() == after_match(old(self).table(), lossy_text(bytes@), excluded),
    {
        let text = decode_lossy(bytes);
        self.matched_text(text.as_str(), excluded)
    }

    /// Hands the table over and ends the scan. A collector finishes once.
    pub fn finish(&mut self) -> (entry: EntryData)
        requires
            old(self).wf(),
            old(self).is_scanning(),
        ensures
            final(self).wf(),
            !final(self).is_scanning(),
            entry.wf(),
            entry@ == old(self).table(),
    {
        match self.entry.take() {
            Some(entry) => entry,
            None => unreached(),
        }
    }
}

} // verus!
