//! The store, category by category.
//!
//! Each operation is handed the content of the backing file of its category,
//! where it reads one, and returns what is to be appended to that file or
//! written in its place. The path of the file is
//! [`PersistenceConfig::default_file_path`].

use crate::config::{PersistenceConfig, PersistenceType};
use crate::entries::FileHistoryEntry;
use crate::record::Record;
use crate::retention::{trim_split, trims_by_name};
use crate::sequence::{all_representable, encode_all, views};
use crate::splits::SplitEntry;
use crate::store::{
    file_bytes, push, read_all, read_fails_at, reads, stored, trim, trims, write_all, DecodeError,
};
use vstd::prelude::*;

verus! {

/// The category whose history a register feeds: the command line for `:`,
/// the search for `/`, and none for any other register.
pub open spec fn register_file(register: char) -> Option<PersistenceType> {
    if register == ':' {
        Some(PersistenceType::Command)
    } else if register == '/' {
        Some(PersistenceType::Search)
    } else {
        None
    }
}

/// What a read returns that gives the newest record first: the records that
/// the content holds, in the opposite of the order in which they were
/// appended; or an error where it is not made of encodings of records.
pub open spec fn reads_newest_first<T: Record>(
    content: Option<&[u8]>,
    r: Result<Vec<T>, DecodeError>,
) -> bool {
    match r {
        Ok(records) => {
            &&& stored::<T>(file_bytes(content)) matches Some(oldest_first)
            &&& views(records@) == oldest_first.reverse()
        },
        Err(e) => read_fails_at::<T>(file_bytes(content), e),
    }
}

/// The same items in the opposite order.
fn reversed<T>(items: Vec<T>) -> (r: Vec<T>)
    ensures
        r@ == items@.reverse(),
{
    let mut items = items;
    let ghost all = items@;
    let mut r: Vec<T> = Vec::new();
    while items.len() > 0
        invariant
            items@.len() <= all.len(),
            items@ == all.take(items@.len() as int),
            r@.len() == all.len() - items@.len(),
            forall|k: int| 0 <= k < r@.len() ==> r@[k] == all[all.len() - 1 - k],
        decreases items@.len(),
    {
        let last = items.pop().unwrap();
        r.push(last);
    }
    r
}

impl PersistenceConfig {
    /// The bytes to append to the backing file of the file history so that
    /// it holds `entry` as its newest record.
    pub fn push_file_history(&self, entry: &FileHistoryEntry) -> (appended: Vec<u8>)
        ensures
            FileHistoryEntry::representable(entry@),
            appended@ == FileHistoryEntry::encoding(entry@),
    {
        push(entry)
    }

    /// The file history that the content holds, oldest first.
    pub fn read_file_history(&self, content: Option<&[u8]>) -> (r: Result<
        Vec<FileHistoryEntry>,
        DecodeError,
    >)
        ensures
            reads::<FileHistoryEntry>(content, r),
            content is None ==> r is Ok && r->Ok_0@.len() == 0,
    {
        read_all(content)
    }

    /// Trims the file history to the number of entries set for it. See
    /// [`trim`].
    pub fn trim_file_history(&self, content: Option<&[u8]>) -> (r: Result<
        Option<Vec<u8>>,
        DecodeError,
    >)
        ensures
            trims::<FileHistoryEntry>(
                content,
                self.effective(PersistenceType::File).max_entries,
                r,
            ),
    {
        trim::<FileHistoryEntry>(content, self.max_entries(PersistenceType::File))
    }

    /// The category that the register feeds and the bytes to append to its
    /// backing file so that it holds `line` as its newest record. A register
    /// other than `:` and `/` has no history: nothing is to be written.
    pub fn push_reg_history(&self, register: char, line: &String) -> (r: Option<
        (PersistenceType, Vec<u8>),
    >)
        ensures
            match r {
                Some((file, appended)) => {
                    &&& register_file(register) == Some(file)
                    &&& String::representable(line@)
                    &&& appended@ == String::encoding(line@)
                },
                None => register_file(register) is None,
            },
    {
        let file = if register == ':' {
            PersistenceType::Command
        } else if register == '/' {
            PersistenceType::Search
        } else {
            return None;
        };
        Some((file, push(line)))
    }

    /// The lines that the content of a register's backing file holds, oldest
    /// first.
    fn read_reg_history(content: Option<&[u8]>) -> (r: Result<Vec<String>, DecodeError>)
        ensures
            reads::<String>(content, r),
            content is None ==> r is Ok && r->Ok_0@.len() == 0,
    {
        read_all(content)
    }

    /// The command lines that the content holds, newest first.
    pub fn read_command_history(&self, content: Option<&[u8]>) -> (r: Result<
        Vec<String>,
        DecodeError,
    >)
        ensures
            reads_newest_first::<String>(content, r),
            content is None ==> r is Ok && r->Ok_0@.len() == 0,
    {
        match Self::read_reg_history(content) {
            Ok(lines) => {
                let newest_first = reversed(lines);
                assert(views(newest_first@) =~= views(lines@).reverse());
                Ok(newest_first)
            },
            Err(e) => Err(e),
        }
    }

    /// Trims the command history to the number of entries set for it. See
    /// [`trim`].
    pub fn trim_command_history(&self, content: Option<&[u8]>) -> (r: Result<
        Option<Vec<u8>>,
        DecodeError,
    >)
        ensures
            trims::<String>(content, self.effective(PersistenceType::Command).max_entries, r),
    {
        trim::<String>(content, self.max_entries(PersistenceType::Command))
    }

    /// The searches that the content holds, newest first.
    pub fn read_search_history(&self, content: Option<&[u8]>) -> (r: Result<
        Vec<String>,
        DecodeError,
    >)
        ensures
            reads_newest_first::<String>(content, r),
            content is None ==> r is Ok && r->Ok_0@.len() == 0,
    {
        match Self::read_reg_history(content) {
            Ok(lines) => {
                let newest_first = reversed(lines);
                assert(views(newest_first@) =~= views(lines@).reverse());
                Ok(newest_first)
            },
            Err(e) => Err(e),
        }
    }

    /// Trims the search history to the number of entries set for it. See
    /// [`trim`].
    pub fn trim_search_history(&self, content: Option<&[u8]>) -> (r: Result<
        Option<Vec<u8>>,
        DecodeError,
    >)
        ensures
            trims::<String>(content, self.effective(PersistenceType::Search).max_entries, r),
    {
        trim::<String>(content, self.max_entries(PersistenceType::Search))
    }

    /// The whole content of a clipboard file that holds exactly these
    /// values, in this order.
    pub fn write_clipboard_file(&self, values: &Vec<String>) -> (content: Vec<u8>)
        ensures
            all_representable::<String>(views(values@)),
            content@ == encode_all::<String>(views(values@)),
            stored::<String>(content@) == Some(views(values@)),
    {
        write_all(values)
    }

    /// The values that the content of the clipboard file holds, in the order
    /// in which they were written.
    pub fn read_clipboard_file(&self, content: Option<&[u8]>) -> (r: Result<
        Vec<String>,
        DecodeError,
    >)
        ensures
            reads::<String>(content, r),
            content is None ==> r is Ok && r->Ok_0@.len() == 0,
    {
        read_all(content)
    }

    /// The bytes to append to the backing file of the saved layouts so that
    /// it holds `entry` as its newest record, whether or not it already
    /// holds a layout of that name.
    pub fn push_split_entry(&self, entry: &SplitEntry) -> (appended: Vec<u8>)
        ensures
            SplitEntry::representable(entry@),
            appended@ == SplitEntry::encoding(entry@),
    {
        push(entry)
    }

    /// The saved layouts that the content holds, oldest first.
    pub fn read_split_file(&self, content: Option<&[u8]>) -> (r: Result<
        Vec<SplitEntry>,
        DecodeError,
    >)
        ensures
            reads::<SplitEntry>(content, r),
            content is None ==> r is Ok && r->Ok_0@.len() == 0,
    {
        read_all(content)
    }

    /// Trims the saved layouts to the number of names set for them. See
    /// [`trim_split`].
    pub fn trim_split_file(&self, content: Option<&[u8]>) -> (r: Result<
        Option<Vec<u8>>,
        DecodeError,
    >)
        ensures
            trims_by_name(content, self.effective(PersistenceType::Splits).max_entries, r),
    {
        trim_split(content, self.max_entries(PersistenceType::Splits))
    }
}

} // verus!
