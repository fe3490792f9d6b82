//! The content store: timestamped records, newest first, read one page at a
//! time. A record that does not decode fails the whole page.

use crate::auth::{AuthCtl, Credential};
use std::collections::HashMap;
use vstd::prelude::*;
use vstd::string::StringSliceAdditionalSpecFns;
use vstd::utf8::{decode_utf8, encode_utf8_decode_utf8, valid_utf8};

verus! {

/// The reason `core::str::from_utf8` gives for refusing bytes. Nothing is
/// stated of what it holds.
#[verifier::external_type_specification]
#[verifier::external_body]
pub struct ExUtf8Error(core::str::Utf8Error);

/// The reason `serde_json` gives for refusing a text. Nothing is stated of
/// what it holds.
#[verifier::external_type_specification]
#[verifier::external_body]
pub struct ExJsonError(serde_json::Error);

/// `core::str::from_utf8` accepts exactly the byte sequences that are valid
/// UTF-8, and the text it returns is made of the very bytes it was given.
pub assume_specification<'a>[ core::str::from_utf8 ](v: &'a [u8]) -> (r: Result<
    &'a str,
    core::str::Utf8Error,
>)
    ensures
        r is Ok <==> valid_utf8(v@),
        r matches Ok(s) ==> s.spec_bytes() == v@,
;

/// The field mapping that `serde_json::from_str` reads from a text as a map
/// from strings to strings, or `None` where it refuses the text.
pub uninterp spec fn json_fields(text: Seq<char>) -> Option<Map<Seq<char>, Seq<char>>>;

/// Calls `serde_json::from_str` for a map from strings to strings. The
/// contract claims only that the outcome is a function of the text: the
/// mapping that `json_fields` names, or an error where it names none.
#[verifier::external_body]
fn parse_fields(text: &str) -> (r: Result<HashMap<String, String>, serde_json::Error>)
    ensures
        match r {
            Ok(fields) => json_fields(text@) == Some(fields.deep_view()),
            Err(_) => json_fields(text@) is None,
        },
{
    serde_json::from_str(text)
}

/// The eight bytes of a key as an unsigned number, most significant first.
pub open spec fn be_u64(b: Seq<u8>) -> int
    recommends
        b.len() >= 8,
{
    b[0] * 0x0100_0000_0000_0000 + b[1] * 0x0001_0000_0000_0000 + b[2] * 0x0000_0100_0000_0000
        + b[3] * 0x0000_0001_0000_0000 + b[4] * 0x0000_0000_0100_0000 + b[5]
        * 0x0000_0000_0001_0000 + b[6] * 0x0000_0000_0000_0100 + b[7]
}

/// The same eight bytes as a signed number in two's complement.
pub open spec fn be_i64(b: Seq<u8>) -> int
    recommends
        b.len() >= 8,
{
    if be_u64(b) >= 0x8000_0000_0000_0000 {
        be_u64(b) - 0x1_0000_0000_0000_0000
    } else {
        be_u64(b)
    }
}

/// Reads the timestamp that a key starts with: eight bytes, big-endian,
/// signed. Bytes after the eighth are not looked at.
pub fn read_be_i64(input: &[u8]) -> (r: i64)
    requires
        input.len() >= 8,
    ensures
        r == be_i64(input@),
{
    let b0: u64 = input[0] as u64;
    let b1: u64 = input[1] as u64;
    let b2: u64 = input[2] as u64;
    let b3: u64 = input[3] as u64;
    let b4: u64 = input[4] as u64;
    let b5: u64 = input[5] as u64;
    let b6: u64 = input[6] as u64;
    let b7: u64 = input[7] as u64;
    let v: u64 = b0 * 0x0100_0000_0000_0000 + b1 * 0x0001_0000_0000_0000 + b2
        * 0x0000_0100_0000_0000 + b3 * 0x0000_0001_0000_0000 + b4 * 0x0000_0000_0100_0000 + b5
        * 0x0000_0000_0001_0000 + b6 * 0x0000_0000_0000_0100 + b7;
    if v >= 0x8000_0000_0000_0000 {
        let low: i64 = (v - 0x8000_0000_0000_0000) as i64;
        low + i64::MIN
    } else {
        v as i64
    }
}

/// One stored entry as the store hands it out: the timestamp of its key and
/// the bytes of its value.
#[derive(Debug)]
pub struct Entry {
    pub timestamp: i64,
    pub value: Vec<u8>,
}

/// One decoded record: its timestamp and its fields.
#[derive(Debug)]
pub struct Record {
    pub timestamp: i64,
    pub fields: HashMap<String, String>,
}

/// Why a stored value could not be decoded, with the message of the cause.
#[derive(Debug)]
pub enum DecodeError {
    /// The bytes are not valid UTF-8.
    InvalidText(String),
    /// The text is not a mapping from strings to strings.
    InvalidFields(String),
}

impl DecodeError {
    /// The message of the underlying cause.
    pub fn message(&self) -> (msg: String)
        ensures
            match *self {
                DecodeError::InvalidText(m) => msg@ == m@,
                DecodeError::InvalidFields(m) => msg@ == m@,
            },
    {
        match self {
            DecodeError::InvalidText(m) => m.clone(),
            DecodeError::InvalidFields(m) => m.clone(),
        }
    }
}

/// A value decodes when it is valid UTF-8 and its text is a field mapping.
pub open spec fn decodable(value: Seq<u8>) -> bool {
    valid_utf8(value) && json_fields(decode_utf8(value)) is Some
}

/// The fields that a decodable value holds.
pub open spec fn decoded_fields(value: Seq<u8>) -> Map<Seq<char>, Seq<char>>
    recommends
        decodable(value),
{
    json_fields(decode_utf8(value)).unwrap()
}

impl Record {
    /// Makes the record of an entry from what parsing its text gave: the
    /// parsed fields under the entry's timestamp, or the parser's refusal as
    /// a decode error.
    pub fn from_parsed(
        timestamp: i64,
        parsed: Result<HashMap<String, String>, serde_json::Error>,
    ) -> (r: Result<Record, DecodeError>)
        ensures
            match parsed {
                Ok(fields) => r matches Ok(rec) && rec.timestamp == timestamp && rec.fields
                    == fields,
                Err(_) => r matches Err(DecodeError::InvalidFields(_)),
            },
    {
        match parsed {
            Ok(fields) => Ok(Record { timestamp, fields }),
            Err(cause) => Err(DecodeError::InvalidFields(cause.to_string())),
        }
    }
}

/// Decodes one entry: its bytes as text, then the text as a field mapping.
pub fn decode_record(entry: &Entry) -> (r: Result<Record, DecodeError>)
    ensures
        match r {
            Ok(rec) => decodable(entry.value@) && rec.timestamp == entry.timestamp
                && rec.fields.deep_view() == decoded_fields(entry.value@),
            Err(e) => !decodable(entry.value@) && (e is InvalidText <==> !valid_utf8(
                entry.value@,
            )),
        },
{
    let text = match core::str::from_utf8(entry.value.as_slice()) {
        Err(cause) => {
            return Err(DecodeError::InvalidText(cause.to_string()));
        },
        Ok(text) => text,
    };
    proof {
        encode_utf8_decode_utf8(text@);
    }
    Record::from_parsed(entry.timestamp, parse_fields(text))
}

/// The entries come newest first: each timestamp is strictly greater than
/// every one after it.
pub open spec fn newest_first(entries: Seq<Entry>) -> bool {
    forall|i: int, j: int|
        0 <= i < j < entries.len() ==> #[trigger] entries[i].timestamp
            > #[trigger] entries[j].timestamp
}

/// The same of decoded records.
pub open spec fn records_newest_first(recs: Seq<Record>) -> bool {
    forall|i: int, j: int|
        0 <= i < j < recs.len() ==> #[trigger] recs[i].timestamp > #[trigger] recs[j].timestamp
}

/// Where a page begins: after `start` entries, or at the end of the store.
pub open spec fn page_lo(len: int, start: int) -> int {
    if start < len {
        start
    } else {
        len
    }
}

/// Where a page ends: `num` entries after `start`, that index left out, or
/// at the end of the store.
pub open spec fn page_hi(len: int, start: int, num: int) -> int {
    if start + num < len {
        start + num
    } else {
        len
    }
}

/// The entries of a page: those numbered from `start` up to, and without,
/// `start + num`, as far as the store holds them.
pub open spec fn page(entries: Seq<Entry>, start: int, num: int) -> Seq<Entry>
    recommends
        0 <= start,
        0 <= num,
{
    entries.subrange(
        page_lo(entries.len() as int, start),
        page_hi(entries.len() as int, start, num),
    )
}

/// The records are the page decoded: one for each entry, in the same order,
/// under the entry's timestamp and with exactly the fields of its value.
pub open spec fn is_page_of(recs: Seq<Record>, entries: Seq<Entry>) -> bool {
    &&& recs.len() == entries.len()
    &&& forall|i: int|
        0 <= i < entries.len() ==> {
            &&& decodable((#[trigger] entries[i]).value@)
            &&& recs[i].timestamp == entries[i].timestamp
            &&& recs[i].fields.deep_view() == decoded_fields(entries[i].value@)
        }
}

/// Entry `k` is the first of the page that does not decode.
pub open spec fn is_first_bad(entries: Seq<Entry>, k: int) -> bool {
    &&& 0 <= k < entries.len()
    &&& !decodable(entries[k].value@)
    &&& forall|j: int| 0 <= j < k ==> decodable((#[trigger] entries[j]).value@)
}

/// The shared state of the service: the identity directory, and the entries
/// of the content store, newest first.
pub struct UserCtlRaw {
    meta: AuthCtl,
    entries: Vec<Entry>,
}

impl UserCtlRaw {
    /// The entries of the store, newest first.
    pub closed spec fn entries(&self) -> Seq<Entry> {
        self.entries@
    }

    /// The credential records of the directory, by id.
    pub closed spec fn directory(&self) -> Map<usize, Credential> {
        self.meta@
    }

    /// The directory is well formed and the entries come newest first.
    pub closed spec fn wf(&self) -> bool {
        self.meta.wf() && newest_first(self.entries@)
    }

    /// The entries of well-formed state come newest first.
    pub proof fn lemma_entries_newest_first(&self)
        requires
            self.wf(),
        ensures
            newest_first(self.entries()),
    {
    }

    /// The identity directory.
    pub fn meta(&self) -> (meta: &AuthCtl)
        requires
            self.wf(),
        ensures
            meta.wf(),
            meta@ == self.directory(),
    {
        &self.meta
    }

    /// Composes the shared state from a directory and the store's entries as
    /// a newest-first walk of the store gives them. Entries that are not in
    /// strictly descending order of timestamp are refused.
    pub fn new(meta: AuthCtl, entries: Vec<Entry>) -> (r: Option<UserCtlRaw>)
        requires
            meta.wf(),
        ensures
            r is Some <==> newest_first(entries@),
            r matches Some(ctl) ==> ctl.wf() && ctl.directory() == meta@ && ctl.entries() == entries@,
    {
        let n = entries.len();
        let mut k: usize = 1;
        while k < n
            invariant
                n == entries.len(),
                1 <= k,
                n > 0 ==> k <= n,
                n > 0 ==> newest_first(entries@.take(k as int)),
            decreases n - k,
        {
            if entries[k - 1].timestamp <= entries[k].timestamp {
                return None;
            }
            proof {
                let before = entries@.take(k as int);
                let after = entries@.take(k + 1);
                assert forall|i: int, j: int| 0 <= i < j < after.len() implies #[trigger] after[i].timestamp
                    > #[trigger] after[j].timestamp by {
                    if j < k {
                        assert(before[i].timestamp > before[j].timestamp);
                    } else if i < k - 1 {
                        assert(before[i].timestamp > before[k - 1].timestamp);
                    }
                }
            }
            k += 1;
        }
        proof {
            if n > 0 {
                assert(entries@.take(n as int) =~= entries@);
            }
        }
        Some(UserCtlRaw { meta, entries })
    }

    /// How many entries the store holds.
    pub fn len(&self) -> (n: usize)
        ensures
            n == self.entries().len(),
    {
        self.entries.len()
    }

    /// Reads one page of the feed: skips the `start` newest entries and
    /// decodes up to `num` after them, newest first. The entry numbered
    /// `start + num` is not part of the page. Skipped entries are not
    /// decoded. One entry of the page that does not decode fails the whole
    /// read, with the error of the first such entry.
    pub fn read_latest(&self, start: usize, num: usize) -> (r: Result<Vec<Record>, DecodeError>)
        requires
            self.wf(),
        ensures
            match r {
                Ok(recs) => is_page_of(recs@, page(self.entries(), start as int, num as int)),
                Err(e) => exists|k: int|
                    {
                        &&& is_first_bad(page(self.entries(), start as int, num as int), k)
                        &&& e is InvalidText <==> !valid_utf8(
                            page(self.entries(), start as int, num as int)[k].value@,
                        )
                    },
            },
            r matches Ok(recs) ==> recs.len() <= num && records_newest_first(recs@),
            start >= self.entries().len() ==> (r matches Ok(recs) && recs.len() == 0),
    {
        let len = self.entries.len();
        let lo = if start < len {
            start
        } else {
            len
        };
        let hi = if num < len - lo {
            lo + num
        } else {
            len
        };
        let ghost pg = page(self.entries(), start as int, num as int);
        let mut ret: Vec<Record> = Vec::new();
        let mut idx = lo;
        while idx < hi
            invariant
                lo <= idx <= hi <= len,
                len == self.entries.len(),
                lo == page_lo(len as int, start as int),
                hi == page_hi(len as int, start as int, num as int),
                pg == page(self.entries(), start as int, num as int),
                ret.len() == idx - lo,
                is_page_of(ret@, pg.take(idx - lo)),
            decreases hi - idx,
        {
            let decoded = decode_record(&self.entries[idx]);
            match decoded {
                Err(e) => {
                    proof {
                        let k = idx - lo;
                        assert(pg[k] == self.entries@[idx as int]);
                        assert forall|j: int| 0 <= j < k implies decodable(
                            (#[trigger] pg[j]).value@,
                        ) by {
                            assert(pg.take(k)[j] == pg[j]);
                        }
                        assert(is_first_bad(pg, k));
                    }
                    return Err(e);
                },
                Ok(rec) => {
                    proof {
                        let k = idx - lo;
                        assert(pg[k] == self.entries@[idx as int]);
                        let grown = pg.take(k + 1);
                        let recs = ret@.push(rec);
                        assert forall|i: int| 0 <= i < grown.len() implies {
                            &&& decodable((#[trigger] grown[i]).value@)
                            &&& recs[i].timestamp == grown[i].timestamp
                            &&& recs[i].fields.deep_view() == decoded_fields(grown[i].value@)
                        } by {
                            if i < k {
                                assert(pg.take(k)[i] == grown[i]);
                            }
                        }
                    }
                    ret.push(rec);
                },
            }
            idx += 1;
        }
        proof {
            assert(pg.take(hi - lo) =~= pg);
            lemma_page_descends(self.entries(), start as int, num as int);
            assert forall|i: int, j: int| 0 <= i < j < ret@.len() implies #[trigger] ret@[i].timestamp
                > #[trigger] ret@[j].timestamp by {
                assert(pg[i].timestamp > pg[j].timestamp);
            }
        }
        Ok(ret)
    }
}

/// A page holds at most `num` entries, and none where `start` is at or past
/// the end of the store.
pub proof fn lemma_page_len(entries: Seq<Entry>, start: int, num: int)
    requires
        0 <= start,
        0 <= num,
    ensures
        page(entries, start, num).len() <= num,
        start >= entries.len() ==> page(entries, start, num).len() == 0,
{
}

/// A page of entries that come newest first comes newest first.
pub proof fn lemma_page_descends(entries: Seq<Entry>, start: int, num: int)
    requires
        0 <= start,
        0 <= num,
        newest_first(entries),
    ensures
        newest_first(page(entries, start, num)),
{
    let lo = page_lo(entries.len() as int, start);
    let pg = page(entries, start, num);
    assert forall|i: int, j: int| 0 <= i < j < pg.len() implies #[trigger] pg[i].timestamp
        > #[trigger] pg[j].timestamp by {
        assert(pg[i] == entries[lo + i]);
        assert(pg[j] == entries[lo + j]);
    }
}

/// Among entries of which one does not decode, one is the first that does
/// not.
pub proof fn lemma_first_bad_exists(entries: Seq<Entry>, k: int)
    requires
        0 <= k < entries.len(),
        !decodable(entries[k].value@),
    ensures
        exists|j: int| is_first_bad(entries, j),
    decreases k,
{
    if forall|j: int| 0 <= j < k ==> decodable((#[trigger] entries[j]).value@) {
        assert(is_first_bad(entries, k));
    } else {
        let j = choose|j: int| 0 <= j < k && !decodable((#[trigger] entries[j]).value@);
        lemma_first_bad_exists(entries, j);
    }
}

/// An entry whose bytes are not valid text, and which lies within a page,
/// leaves that page with no decoding at all: no records are a page of it,
/// and some entry of it is the first that fails.
pub proof fn lemma_invalid_text_fails_page(entries: Seq<Entry>, start: int, num: int, at: int)
    requires
        0 <= start,
        0 <= num,
        start <= at < start + num,
        at < entries.len(),
        !valid_utf8(entries[at].value@),
    ensures
        forall|recs: Seq<Record>| !is_page_of(recs, page(entries, start, num)),
        exists|k: int| is_first_bad(page(entries, start, num), k),
{
    let pg = page(entries, start, num);
    assert(pg[at - start] == entries[at]);
    lemma_first_bad_exists(pg, at - start);
}

/// A page depends only on the entries before its end: reading it from the
/// first `n` entries of the store, with `n` at or past `start + num`, gives
/// the page of the whole store.
pub proof fn lemma_page_of_prefix(entries: Seq<Entry>, n: int, start: int, num: int)
    requires
        0 <= start,
        0 <= num,
        start + num <= n <= entries.len(),
    ensures
        page(entries.take(n), start, num) == page(entries, start, num),
{
    assert(page(entries.take(n), start, num) =~= page(entries, start, num));
}

} // verus!
