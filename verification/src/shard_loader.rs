//! The decisions of loading text shards: the order in which dataset files are
//! visited, which reader a file's extension selects, and how reader error
//! messages are classified. Reading the files is done by the caller.

use std::path::PathBuf;
use vstd::prelude::*;
use vstd::string::StringSliceAdditionalSpecFns;
use vstd::utf8::{decode_utf8, encode_utf8, encode_utf8_decode_utf8};

use crate::bindings::{ascii_lowercase, lowercase, to_lowercase};
use vstd::utf8::is_ascii_chars;

verus! {

/// The reader a dataset file is opened with.
#[derive(Debug, Clone, Copy, PartialEq, Eq, Structural)]
pub enum FileFormat {
    /// `.parquet`
    Parquet,
    /// `.arrow` or `.ipc`: Arrow IPC, as a file or, failing that, a stream.
    Ipc,
    /// `.jsonl` or `.ndjson`
    JsonLines,
    /// `.csv` or `.txt`
    Csv,
}

/// The reader for an already lower-cased extension.
pub open spec fn format_of(ext: Seq<char>) -> Option<FileFormat> {
    if ext == "parquet"@ {
        Some(FileFormat::Parquet)
    } else if ext == "arrow"@ || ext == "ipc"@ {
        Some(FileFormat::Ipc)
    } else if ext == "jsonl"@ || ext == "ndjson"@ {
        Some(FileFormat::JsonLines)
    } else if ext == "csv"@ || ext == "txt"@ {
        Some(FileFormat::Csv)
    } else {
        None
    }
}

/// `needle` occurs in `hay` as a contiguous run.
pub open spec fn seq_contains<A>(hay: Seq<A>, needle: Seq<A>) -> bool {
    exists|i: int| 0 <= i <= hay.len() - needle.len() && #[trigger] hay.subrange(i, i + needle.len()) == needle
}

/// `needle` occurs in `hay` (compared as UTF-8 bytes, as `str::contains` does).
pub open spec fn text_contains(hay: &str, needle: &str) -> bool {
    seq_contains(hay.spec_bytes(), needle.spec_bytes())
}

fn bytes_eq_at(hay: &[u8], start: usize, needle: &[u8]) -> (r: bool)
    requires
        start + needle@.len() <= hay@.len(),
    ensures
        r == (hay@.subrange(start as int, start + needle@.len()) == needle@),
{
    let hay_len = hay.len();
    let mut j: usize = 0;
    while j < needle.len()
        invariant
            hay_len == hay@.len(),
            j <= needle@.len(),
            start + needle@.len() <= hay@.len(),
            forall|t: int| 0 <= t < j ==> hay@[start + t] == needle@[t],
        decreases needle@.len() - j,
    {
        assert(start + j < hay@.len());
        if hay[start + j] != needle[j] {
            assert(hay@.subrange(start as int, start + needle@.len())[j as int] != needle@[j as int]);
            return false;
        }
        j = j + 1;
    }
    assert(hay@.subrange(start as int, start + needle@.len()) =~= needle@);
    true
}

/// Whether `needle` occurs in `hay`.
pub fn contains_text(hay: &str, needle: &str) -> (r: bool)
    ensures
        r == text_contains(hay, needle),
{
    let h = hay.as_bytes();
    let n = needle.as_bytes();
    if n.len() > h.len() {
        assert forall|i: int| 0 <= i <= h@.len() - n@.len() implies #[trigger] h@.subrange(i, i + n@.len()) != n@ by {}
        return false;
    }
    let last = h.len() - n.len();
    let mut i: usize = 0;
    loop
        invariant
            i <= last,
            last == h@.len() - n@.len(),
            n@.len() <= h@.len(),
            h@ == hay.spec_bytes(),
            n@ == needle.spec_bytes(),
            forall|t: int| 0 <= t < i ==> #[trigger] h@.subrange(t, t + n@.len()) != n@,
        decreases last - i,
    {
        if bytes_eq_at(h, i, n) {
            return true;
        }
        if i == last {
            return false;
        }
        i = i + 1;
    }
}

/// Whether two strings are equal.
pub fn text_eq(a: &str, b: &str) -> (r: bool)
    ensures
        r == (a@ == b@),
{
    broadcast use encode_utf8_decode_utf8;
    let x = a.as_bytes();
    let y = b.as_bytes();
    if x.len() != y.len() {
        return false;
    }
    let r = bytes_eq_at(x, 0, y);
    assert(x@.subrange(0, y@.len() as int) =~= x@);
    proof {
        assert(decode_utf8(encode_utf8(a@)) == a@);
        assert(decode_utf8(encode_utf8(b@)) == b@);
    }
    r
}

/// The reader selected by an extension that is already lower case.
pub fn format_from_lowercase(ext: &str) -> (r: Option<FileFormat>)
    ensures
        r == format_of(ext@),
{
    if text_eq(ext, "parquet") {
        Some(FileFormat::Parquet)
    } else if text_eq(ext, "arrow") || text_eq(ext, "ipc") {
        Some(FileFormat::Ipc)
    } else if text_eq(ext, "jsonl") || text_eq(ext, "ndjson") {
        Some(FileFormat::JsonLines)
    } else if text_eq(ext, "csv") || text_eq(ext, "txt") {
        Some(FileFormat::Csv)
    } else {
        None
    }
}

/// The reader selected by a file's extension, compared without regard to
/// case; `None` (an unsupported file) when there is no extension or it is not
/// one of parquet, arrow, ipc, jsonl, ndjson, csv or txt.
pub fn file_format(extension: Option<&str>) -> (r: Option<FileFormat>)
    ensures
        r == match extension {
            Some(e) => format_of(lowercase(e@)),
            None => None,
        },
        extension matches Some(e) ==> (is_ascii_chars(e@) ==> r == format_of(ascii_lowercase(e@))),
{
    match extension {
        Some(e) => {
            let lower = to_lowercase(e);
            format_from_lowercase(lower.as_str())
        },
        None => None,
    }
}

/// Whether a failed Arrow IPC file scan reports a damaged or missing footer,
/// in which case the file is read again as an IPC stream.
pub fn is_ipc_footer_error(message: &str) -> (r: bool)
    ensures
        r == (text_contains(message, "InvalidFooter") || text_contains(message, "out-of-spec")),
{
    contains_text(message, "InvalidFooter") || contains_text(message, "out-of-spec")
}

/// Whether a failed column selection reports that the column does not exist.
pub fn is_column_missing_error(message: &str) -> (r: bool)
    ensures
        r == (text_contains(message, "ColumnNotFound") || text_contains(message, "not found")),
{
    contains_text(message, "ColumnNotFound") || contains_text(message, "not found")
}

/// A cursor over dataset files, visited once each in order, and the name of
/// the text column to extract from each.
#[derive(Debug)]
pub struct ShardLoader {
    dataset_files: Vec<PathBuf>,
    text_column_name: String,
    current_file_idx: usize,
}

impl ShardLoader {
    /// The dataset files, in visiting order.
    pub closed spec fn files(self) -> Seq<PathBuf> {
        self.dataset_files@
    }

    /// The text column to extract.
    pub closed spec fn column(self) -> Seq<char> {
        self.text_column_name@
    }

    /// Files visited so far.
    pub closed spec fn visited(self) -> usize {
        self.current_file_idx
    }

    /// A cursor before the first of `dataset_files`.
    pub fn new(dataset_files: Vec<PathBuf>, text_column_name: String) -> (r: Self)
        ensures
            r.files() == dataset_files@,
            r.column() == text_column_name@,
            r.visited() == 0,
    {
        ShardLoader { dataset_files, text_column_name, current_file_idx: 0 }
    }

    /// Moves past the next file, returning its position, or `None` once every
    /// file has been visited.
    pub fn advance(&mut self) -> (r: Option<usize>)
        ensures
            final(self).files() == old(self).files(),
            final(self).column() == old(self).column(),
            old(self).visited() >= old(self).files().len() ==> r is None && final(self).visited() == old(self).visited(),
            old(self).visited() < old(self).files().len() ==> r == Some(old(self).visited()) && final(self).visited()
                == old(self).visited() + 1,
    {
        if self.current_file_idx >= self.dataset_files.len() {
            return None;
        }
        let idx = self.current_file_idx;
        self.current_file_idx = idx + 1;
        Some(idx)
    }

    /// Dataset file number `idx`.
    pub fn dataset_file(&self, idx: usize) -> (r: &PathBuf)
        requires
            idx < self.files().len(),
        ensures
            *r == self.files()[idx as int],
    {
        &self.dataset_files[idx]
    }

    /// The text column to extract.
    pub fn text_column_name(&self) -> (r: &str)
        ensures
            r@ == self.column(),
    {
        self.text_column_name.as_str()
    }
}

} // verus!
