//! The journal entry record and its summary projection.

use vstd::prelude::*;
use crate::text::split_first_at;

verus! {

/// Mathematical model of one journal record.
pub ghost struct EntryModel {
    pub id: Seq<char>,
    pub timestamp: Seq<char>,
    pub word_count: u32,
    pub content: Seq<char>,
}

impl EntryModel {
    /// The record layout keeps `id` and `timestamp` free of the field
    /// delimiter; `content` may hold anything, delimiters and newlines
    /// included.
    pub open spec fn wf(self) -> bool {
        !self.id.contains('|') && !self.timestamp.contains('|')
    }
}

/// One journal record: an opaque unique identifier assigned at creation, a
/// free-form date-and-time string, a word count, and the text body.
#[derive(Debug)]
pub struct Entry {
    pub id: String,
    pub timestamp: String,
    pub word_count: u32,
    pub content: String,
}

impl View for Entry {
    type V = EntryModel;

    open spec fn view(&self) -> EntryModel {
        EntryModel {
            id: self.id@,
            timestamp: self.timestamp@,
            word_count: self.word_count,
            content: self.content@,
        }
    }
}

/// Model of the metadata projection handed to summary views: the timestamp
/// split into date and time, the content withheld.
pub ghost struct SummaryModel {
    pub date: Seq<char>,
    pub time: Seq<char>,
    pub word_count: u32,
}

/// The summary view of one record.
#[derive(Debug)]
pub struct Summary {
    pub date: String,
    pub time: String,
    pub word_count: u32,
}

impl View for Summary {
    type V = SummaryModel;

    open spec fn view(&self) -> SummaryModel {
        SummaryModel { date: self.date@, time: self.time@, word_count: self.word_count }
    }
}

/// The summary of an entry: the date is the timestamp up to the first space,
/// the time the stretch between the first and the second space (empty when
/// the timestamp has no space), and the word count is kept.
pub open spec fn summary_of(e: EntryModel) -> SummaryModel {
    let (date, rest) = split_first_at(e.timestamp, ' ');
    let time = match rest {
        Some(r) => split_first_at(r, ' ').0,
        None => Seq::<char>::empty(),
    };
    SummaryModel { date, time, word_count: e.word_count }
}

} // verus!
