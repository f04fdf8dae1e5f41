use vstd::prelude::*;
use crate::text::{chars_of, lemma_split_on_len, pieces, split_on, split_ranges, text_of};

verus! {

/// The data is downloaded again once the last download is older than this.
pub const UPDATE_INTERVAL_SECS: u64 = 3600;

/// One line of the file that remembers the last download.
#[derive(Debug, Clone, Copy, PartialEq, Eq)]
pub enum UpdateRecord {
    /// The line could not be read as a time.
    Unreadable,
    /// The time on the line lies this many whole seconds in the past.
    Elapsed { secs: u64 },
    /// The time on the line lies in the future.
    InFuture,
}

/// The answer that the lines of the download log give, read from the first:
/// the first line whose time lies in the past decides whether the data is
/// older than an hour; an unreadable line before it is an error (`None`);
/// lines in the future are skipped; no deciding line means the data is due.
pub open spec fn update_due(records: Seq<UpdateRecord>) -> Option<bool>
    decreases records.len(),
{
    if records.len() == 0 {
        Some(true)
    } else {
        match records[0] {
            UpdateRecord::Unreadable => None,
            UpdateRecord::Elapsed { secs } => Some(secs > UPDATE_INTERVAL_SECS),
            UpdateRecord::InFuture => update_due(records.drop_first()),
        }
    }
}

/// Reads the download log: whether the data is older than an hour, or
/// `None` when a line before the deciding one cannot be read.
pub fn check_last_update(records: &Vec<UpdateRecord>) -> (r: Option<bool>)
    ensures
        r == update_due(records@),
{
    let mut i: usize = 0;
    assert(records@.skip(0) == records@);
    while i < records.len()
        invariant
            i <= records.len(),
            update_due(records@) == update_due(records@.skip(i as int)),
        decreases records.len() - i,
    {
        assert(records@.skip(i as int)[0] == records@[i as int]);
        match records[i] {
            UpdateRecord::Unreadable => {
                return None;
            },
            UpdateRecord::Elapsed { secs } => {
                return Some(secs > UPDATE_INTERVAL_SECS);
            },
            UpdateRecord::InFuture => {
                assert(records@.skip(i as int).drop_first() == records@.skip(i + 1));
            },
        }
        i = i + 1;
    }
    assert(records@.skip(i as int).len() == 0);
    Some(true)
}

/// Whether to download the world data: when forced, or when the download
/// log says the data is older than an hour (an unreadable log does not).
pub fn needs_download(bypass: bool, last_update: Option<bool>) -> (r: bool)
    ensures
        r == (bypass || last_update == Some(true)),
{
    bypass || match last_update {
        Some(due) => due,
        None => false,
    }
}

/// The reply to an update request.
pub fn update_reply(updated: bool) -> (r: &'static str)
    ensures
        updated ==> r@ == "Tribal Wars data updated"@,
        !updated ==> r@ == "Last update was less than an hour ago, try later"@,
{
    if updated {
        "Tribal Wars data updated"
    } else {
        "Last update was less than an hour ago, try later"
    }
}

/// The name under which a download is saved: the last segment of the
/// address path, or `tmp.bin` when there is no path or its last segment is
/// empty.
pub open spec fn file_name_text(path: Option<Seq<char>>) -> Seq<char> {
    match path {
        None => "tmp.bin"@,
        Some(p) => {
            let last = split_on(p, '/').last();
            if last.len() == 0 {
                "tmp.bin"@
            } else {
                last
            }
        },
    }
}

/// The file name for a download whose address has the path `path` (`None`
/// for an address without a path hierarchy).
pub fn download_file_name(path: Option<&str>) -> (r: String)
    ensures
        r@ == file_name_text(
            match path {
                Some(p) => Some(p@),
                None => None,
            },
        ),
{
    match path {
        None => String::from_str("tmp.bin"),
        Some(p) => {
            let v = chars_of(p);
            let ranges = split_ranges(&v, '/');
            proof {
                lemma_split_on_len(v@, '/');
            }
            assert(pieces(v@, ranges@).len() == ranges@.len());
            let (lo, hi) = ranges[ranges.len() - 1];
            assert(pieces(v@, ranges@)[ranges@.len() - 1] == v@.subrange(lo as int, hi as int));
            if lo == hi {
                String::from_str("tmp.bin")
            } else {
                text_of(&v, lo, hi)
            }
        },
    }
}

}
