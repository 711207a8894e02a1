//! Reading `.aix` packages, which are ZIP archives: the entries of the central
//! directory (`rawzip`), and the verified extraction of one entry, stored or
//! deflated (`miniz_oxide`).
use vstd::prelude::*;

use vstd::utf8::{decode_utf8, valid_utf8};
use vstd::string::StringExecFns;

verus! {

// ---------------------------------------------------------------------------
// The outside ZIP and DEFLATE code
// ---------------------------------------------------------------------------

#[verifier::external_type_specification]
#[verifier::external_body]
#[verifier::reject_recursive_types(T)]
pub struct ExZipSliceArchive<T>(rawzip::ZipSliceArchive<T>);

#[verifier::external_type_specification]
#[verifier::external_body]
pub struct ExZipSliceEntries<'a>(rawzip::ZipSliceEntries<'a>);

#[verifier::external_type_specification]
#[verifier::external_body]
pub struct ExZipFileHeaderRecord<'a>(rawzip::ZipFileHeaderRecord<'a>);

#[verifier::external_type_specification]
#[verifier::external_body]
pub struct ExZipError(rawzip::Error);

#[verifier::external_type_specification]
#[verifier::external_body]
pub struct ExDecompressError(miniz_oxide::inflate::DecompressError);

/// Whether `rawzip` finds the end of the central directory of a ZIP archive in
/// these bytes.
pub uninterp spec fn zip_opens(data: Seq<u8>) -> bool;

/// The path that `rawzip` normalizes the raw bytes of an entry name to, when
/// they are UTF-8.
pub uninterp spec fn normalized_zip_path(raw: Seq<u8>) -> Option<Seq<char>>;

/// What `miniz_oxide` inflates raw DEFLATE data to, within a limit on the size
/// of the output.
pub uninterp spec fn inflated(data: Seq<u8>, limit: nat) -> Option<Seq<u8>>;

/// The CRC-32 checksum that `rawzip` computes over the bytes.
pub uninterp spec fn zip_crc32(data: Seq<u8>) -> u32;

/// What the library reads of a record of a central directory: the raw bytes
/// of the entry's name, its compression method's id, its recorded CRC-32 and
/// uncompressed and compressed sizes, and where `rawzip` locates the entry's
/// stored data in the archive: the range of the archive's bytes from the
/// first byte of the data to the byte after its last, or `None` where the
/// local header cannot be read there.
pub struct RecordInfo {
    pub raw_path: Seq<u8>,
    pub method: u16,
    pub crc: u32,
    pub size: u64,
    pub compressed_size: u64,
    pub located: Option<(u64, u64)>,
}

/// A record of a central directory as `rawzip` yields it, converted, with the
/// outcome of locating its data.
pub struct ZipRecord {
    pub raw_path: Vec<u8>,
    pub method: u16,
    pub crc: u32,
    pub size: u64,
    pub compressed_size: u64,
    pub located: Result<(u64, u64), rawzip::Error>,
}

pub open spec fn record_info(r: ZipRecord) -> RecordInfo {
    RecordInfo {
        raw_path: r.raw_path@,
        method: r.method,
        crc: r.crc,
        size: r.size,
        compressed_size: r.compressed_size,
        located: match r.located {
            Ok(range) => Some(range),
            Err(_) => None,
        },
    }
}

/// The records that `rawzip` reads, in order, from the central directory of
/// the archive in these bytes, up to its end or to the first record it cannot
/// read.
pub uninterp spec fn zip_directory(data: Seq<u8>) -> Seq<RecordInfo>;

/// Whether `rawzip` reads the central directory of these bytes to its end
/// (rather than stopping at a record it cannot read).
pub uninterp spec fn zip_directory_complete(data: Seq<u8>) -> bool;

/// The bytes that an archive opened by `rawzip` reads.
pub uninterp spec fn archive_bytes(archive: rawzip::ZipSliceArchive<&[u8]>) -> Seq<u8>;

/// The records that a central-directory iterator has still to yield.
pub uninterp spec fn pending_records(entries: rawzip::ZipSliceEntries) -> Seq<RecordInfo>;

/// Whether a central-directory iterator, once its pending records are
/// yielded, ends rather than fails.
pub uninterp spec fn pending_complete(entries: rawzip::ZipSliceEntries) -> bool;

/// `rawzip::ZipArchive::from_slice`: it reads the end of the central directory
/// of the archive in the bytes; whether it succeeds depends on the bytes alone.
#[verifier::external_body]
fn open_zip(data: &[u8]) -> (r: Result<rawzip::ZipSliceArchive<&[u8]>, rawzip::Error>)
    ensures
        r is Ok <==> zip_opens(data@),
        r matches Ok(a) ==> archive_bytes(a) == data@,
{
    rawzip::ZipArchive::from_slice(data)
}

/// `rawzip::ZipSliceArchive::entries`: an iterator over the central
/// directory of the archive's bytes, which will yield exactly the records that
/// [`zip_directory`] names.
#[verifier::external_body]
fn zip_entries<'a>(archive: &'a rawzip::ZipSliceArchive<&'a [u8]>) -> (r: rawzip::ZipSliceEntries<'a>)
    ensures
        pending_records(r) == zip_directory(archive_bytes(*archive)),
        pending_complete(r) == zip_directory_complete(archive_bytes(*archive)),
{
    archive.entries()
}

/// `rawzip::ZipSliceEntries::next_entry`: the next record of the central
/// directory, with its raw name, its compression method's id, its recorded
/// CRC-32 and sizes, and where `rawzip::ZipSliceArchive::get_entry` locates
/// its stored data in the archive (`ZipSliceEntry::compressed_data_range`,
/// which starts after the local header and spans the recorded compressed
/// size); `Ok(None)` once the directory is read to its end, an error where a
/// record cannot be read.
#[verifier::external_body]
fn next_zip_record<'a>(
    archive: &'a rawzip::ZipSliceArchive<&'a [u8]>,
    entries: &mut rawzip::ZipSliceEntries<'a>,
) -> (r: Result<Option<ZipRecord>, rawzip::Error>)
    ensures
        pending_records(*old(entries)).len() > 0 ==> (r matches Ok(Some(rec)) && record_info(rec)
            == pending_records(*old(entries))[0] && pending_records(*final(entries)) == pending_records(
            *old(entries),
        ).drop_first() && pending_complete(*final(entries)) == pending_complete(*old(entries))),
        pending_records(*old(entries)).len() == 0 && pending_complete(*old(entries)) ==> r matches Ok(
            None,
        ),
        r matches Ok(None) ==> pending_records(*final(entries)) == pending_records(*old(entries))
            && pending_complete(*final(entries)) == pending_complete(*old(entries)),
        pending_records(*old(entries)).len() == 0 && !pending_complete(*old(entries)) ==> r is Err,
        r matches Ok(Some(rec)) ==> (rec.located matches Ok((start, end)) ==> start <= end
            <= archive_bytes(*archive).len() && end - start == rec.compressed_size),
{
    match entries.next_entry() {
        Ok(Some(record)) => Ok(Some(ZipRecord {
            raw_path: record.file_path().as_bytes().to_vec(),
            method: record.compression_method().as_u16(),
            crc: record.crc32(),
            size: record.uncompressed_size_hint(),
            compressed_size: record.compressed_size_hint(),
            located: match archive.get_entry(record.wayfinder()) {
                Ok(entry) => Ok(entry.compressed_data_range()),
                Err(error) => Err(error),
            },
        })),
        Ok(None) => Ok(None),
        Err(error) => Err(error),
    }
}

/// `rawzip::ZipFilePath::try_normalize` on the raw bytes of an entry name: it
/// fails exactly when the bytes are not UTF-8, and the normalized path depends
/// on the bytes alone.
#[verifier::external_body]
fn normalize_zip_path(raw: &[u8]) -> (r: Result<String, rawzip::Error>)
    ensures
        r is Ok <==> valid_utf8(raw@),
        match r {
            Ok(s) => normalized_zip_path(raw@) == Some(s@),
            Err(_) => normalized_zip_path(raw@) is None,
        },
{
    rawzip::path::ZipFilePath::from_bytes(raw).try_normalize().map(|path| path.as_ref().to_string())
}

/// `miniz_oxide::inflate::decompress_to_vec_with_limit`: it inflates raw
/// DEFLATE data, refusing output longer than the limit; the outcome depends on
/// the data and the limit alone.
#[verifier::external_body]
fn inflate_limited(data: &[u8], limit: usize) -> (r: Result<Vec<u8>, miniz_oxide::inflate::DecompressError>)
    ensures
        match r {
            Ok(out) => inflated(data@, limit as nat) == Some(out@),
            Err(_) => inflated(data@, limit as nat) is None,
        },
{
    miniz_oxide::inflate::decompress_to_vec_with_limit(data, limit)
}

/// `rawzip::crc32`: the CRC-32 checksum of the bytes.
#[verifier::external_body]
fn crc32_of(data: &[u8]) -> (r: u32)
    ensures
        r == zip_crc32(data@),
{
    rawzip::crc32(data)
}

/// The `Debug` text of a `rawzip` error; what it says is not described here.
#[verifier::external_body]
fn zip_error_text(error: &rawzip::Error) -> String {
    format!("{:?}", error)
}

/// The `Display` text of a `rawzip` compression method given by its id (the id
/// and the method's name); what it says is not described here.
#[verifier::external_body]
fn method_text(id: u16) -> String {
    rawzip::CompressionMethod::new(id).to_string()
}

/// The `Debug` text of the error that `rawzip::ZipVerification::valid` gives
/// when the expected CRC-32 and size differ from the actual ones (it compares
/// the sizes first); what it says is not described here.
#[verifier::external_body]
fn verification_error_text(expected_crc: u32, expected_size: u64, actual_crc: u32, actual_size: u64) -> String {
    let expected = rawzip::ZipVerification { crc: expected_crc, uncompressed_size: expected_size };
    let actual = rawzip::ZipVerification { crc: actual_crc, uncompressed_size: actual_size };
    match expected.valid(actual) {
        Ok(()) => String::new(),
        Err(error) => format!("{:?}", error),
    }
}

/// The `Display` text of a `miniz_oxide` error; what it says is not described here.
#[verifier::external_body]
fn inflate_error_text(error: &miniz_oxide::inflate::DecompressError) -> String {
    error.to_string()
}

// ---------------------------------------------------------------------------
// Entries and errors
// ---------------------------------------------------------------------------

/// One entry of an `.aix` package, as its central directory records it.
#[derive(Debug)]
pub struct AixEntry {
    /// The normalized path of the entry.
    pub name: String,
    /// The size of the extracted data.
    pub size: u64,
    /// The size of the data as stored.
    pub compressed_size: u64,
}

/// Why a package could not be read.
#[derive(Debug)]
pub enum ReaderError {
    /// The bytes are not a ZIP archive.
    Open(String),
    /// A record of the central directory could not be read.
    Entry(String),
    /// An entry name is not UTF-8.
    InvalidPath(String),
    /// Two entries have the same normalized name.
    Duplicate(String),
    /// No entry has the name.
    NotFound(String),
    /// The entry's data could not be located in the archive.
    Locate(String, String),
    /// The recorded size does not fit in memory.
    TooLarge(String),
    /// The entry is compressed with a method other than STORE and DEFLATE.
    Unsupported(String, u16),
    /// The DEFLATE data could not be inflated.
    Extract(String, String),
    /// The extracted size differs from the recorded one.
    SizeMismatch(String, u64, u64),
    /// The extracted data's CRC-32 differs from the recorded one.
    ChecksumMismatch(String, u32, u32),
    /// `app.json` declares a Widget whose `.ink` entry is missing.
    WidgetEntryMissing(String),
}

impl ReaderError {
    /// The message that the command line shows.
    pub fn message(&self) -> (m: String)
        ensures
            match self {
                ReaderError::NotFound(n) => m@ == "File not found: "@ + n@,
                ReaderError::WidgetEntryMissing(p) => m@ == "Widget entry not found: "@ + p@,
                ReaderError::Duplicate(n) => m@ == "Duplicate zip entry: "@ + n@,
                ReaderError::TooLarge(n) => m@ == "File too large: "@ + n@,
                _ => true,
            },
    {
        match self {
            ReaderError::Open(why) => String::from_str("Failed to read zip: ").concat(why.as_str()),
            ReaderError::Entry(why) => String::from_str("Failed to read zip entry: ").concat(why.as_str()),
            ReaderError::InvalidPath(why) => String::from_str("Invalid zip path: ").concat(why.as_str()),
            ReaderError::Duplicate(n) => String::from_str("Duplicate zip entry: ").concat(n.as_str()),
            ReaderError::NotFound(n) => String::from_str("File not found: ").concat(n.as_str()),
            ReaderError::Locate(n, why) => String::from_str("Failed to locate ").concat(n.as_str()).concat(
                ": ",
            ).concat(why.as_str()),
            ReaderError::TooLarge(n) => String::from_str("File too large: ").concat(n.as_str()),
            ReaderError::Unsupported(n, m) => String::from_str("Unsupported compression for ").concat(
                n.as_str(),
            ).concat(": ").concat(method_text(*m).as_str()),
            ReaderError::Extract(n, why) => String::from_str("Failed to extract ").concat(n.as_str()).concat(
                ": ",
            ).concat(why.as_str()),
            ReaderError::SizeMismatch(n, e, a) => String::from_str("Failed to verify ").concat(n.as_str()).concat(
                ": ",
            ).concat(verification_error_text(0, *e, 0, *a).as_str()),
            ReaderError::ChecksumMismatch(n, e, a) => String::from_str("Failed to verify ").concat(
                n.as_str(),
            ).concat(": ").concat(verification_error_text(*e, 0, *a, 0).as_str()),
            ReaderError::WidgetEntryMissing(p) => String::from_str("Widget entry not found: ").concat(p.as_str()),
        }
    }
}

/// How the host manages a Widget's placement.
#[derive(Debug, Clone, Copy, PartialEq, Eq, Structural)]
pub enum WidgetPlacement {
    /// The Widget keeps its place in the layout.
    Persistent,
    /// The Widget is placed over the layout when it is launched.
    Overlay,
}

impl Default for WidgetPlacement {
    /// Without a declared placement, a Widget is persistent.
    fn default() -> (p: Self)
        ensures
            p == WidgetPlacement::Persistent,
    {
        WidgetPlacement::Persistent
    }
}

/// A Widget that `app.json` declares.
#[derive(Debug, Clone, PartialEq, Eq)]
pub struct WidgetInfo {
    /// The Widget's path without extension, such as `widgets/clock/index`.
    pub path: String,
    /// The Widget's family, such as `1x1`.
    pub family: String,
    /// How the host places the Widget.
    pub placement: WidgetPlacement,
}

// ---------------------------------------------------------------------------
// Extraction
// ---------------------------------------------------------------------------

/// The STORE method: the data is kept as it is.
pub open spec fn method_store() -> u16 {
    0
}

/// The DEFLATE method.
pub open spec fn method_deflate() -> u16 {
    8
}

/// What the extraction of an entry's data gives, by compression method:
/// `Some(Some(bytes))` on success, `Some(None)` when inflation fails, `None`
/// for an unsupported method.
pub open spec fn decoded(method: u16, data: Seq<u8>, limit: nat) -> Option<Option<Seq<u8>>> {
    if method == method_store() {
        Some(Some(data))
    } else if method == method_deflate() {
        Some(inflated(data, limit))
    } else {
        None
    }
}

/// Extracts the data of the entry `name`, stored with the given method,
/// allowing at most `limit` bytes of output.
pub fn decode_entry(name: &str, method: u16, data: &[u8], limit: usize) -> (r: Result<Vec<u8>, ReaderError>)
    ensures
        match decoded(method, data@, limit as nat) {
            Some(Some(out)) => r matches Ok(v) && v@ == out,
            Some(None) => r matches Err(ReaderError::Extract(n, _)) && n@ == name@,
            None => r matches Err(ReaderError::Unsupported(n, m)) && n@ == name@ && m == method,
        },
{
    if method == 0 {
        Ok(vstd::slice::slice_to_vec(data))
    } else if method == 8 {
        match inflate_limited(data, limit) {
            Ok(out) => Ok(out),
            Err(e) => Err(ReaderError::Extract(String::from_str(name), inflate_error_text(&e))),
        }
    } else {
        Err(ReaderError::Unsupported(String::from_str(name), method))
    }
}

/// Checks extracted data against the size and CRC-32 that the central
/// directory records for it: the size first, then the checksum.
pub fn verify_extracted(name: &str, data: Vec<u8>, claimed_crc: u32, claimed_size: u64) -> (r: Result<
    Vec<u8>,
    ReaderError,
>)
    ensures
        data.len() != claimed_size ==> (r matches Err(ReaderError::SizeMismatch(n, e, a)) && n@ == name@
            && e == claimed_size && a == data.len()),
        data.len() == claimed_size && zip_crc32(data@) != claimed_crc ==> (r matches Err(
            ReaderError::ChecksumMismatch(n, e, a),
        ) && n@ == name@ && e == claimed_crc && a == zip_crc32(data@)),
        data.len() == claimed_size && zip_crc32(data@) == claimed_crc ==> (r matches Ok(v) && v@
            == data@),
{
    let actual_size = data.len() as u64;
    if actual_size != claimed_size {
        return Err(ReaderError::SizeMismatch(String::from_str(name), claimed_size, actual_size));
    }
    let actual_crc = crc32_of(data.as_slice());
    if actual_crc != claimed_crc {
        return Err(ReaderError::ChecksumMismatch(String::from_str(name), claimed_crc, actual_crc));
    }
    Ok(data)
}

/// The build identifier that a read of the `VERSION` entry gives: the
/// entry's bytes when the read succeeded and they are UTF-8, decoded.
pub fn version_text(read: Result<Vec<u8>, ReaderError>) -> (r: Option<String>)
    ensures
        match read {
            Ok(bytes) => if valid_utf8(bytes@) {
                r matches Some(s) && s@ == decode_utf8(bytes@)
            } else {
                r is None
            },
            Err(_) => r is None,
        },
{
    match read {
        Ok(bytes) => crate::collector::decode_text(&bytes),
        Err(_) => None,
    }
}

// ---------------------------------------------------------------------------
// The reader
// ---------------------------------------------------------------------------

/// Where an entry's data lies in the archive, and how to extract it.
#[derive(Debug)]
struct EntryLocator {
    method: u16,
    crc: u32,
    located: Result<(u64, u64), rawzip::Error>,
}

/// Reads and inspects an `.aix` package held in memory.
#[derive(Debug)]
pub struct AixReader {
    entries: Vec<AixEntry>,
    locators: Vec<EntryLocator>,
    data: Vec<u8>,
}

/// The mathematical value of an [`AixEntry`], with the compression method of
/// the entry, its recorded CRC-32, and the range of the archive's bytes that
/// holds its stored data (`None` where it could not be located).
pub struct EntryView {
    pub name: Seq<char>,
    pub size: u64,
    pub compressed_size: u64,
    pub method: u16,
    pub crc: u32,
    pub located: Option<(u64, u64)>,
}

/// The mathematical value of an [`AixReader`]: its entries, in the order of
/// the central directory, and the archive's bytes.
pub struct ReaderView {
    pub entries: Seq<EntryView>,
    pub data: Seq<u8>,
}

pub open spec fn entry_names(entries: Seq<EntryView>) -> Seq<Seq<char>> {
    entries.map_values(|e: EntryView| e.name)
}

/// No two entries have the same name.
pub open spec fn names_distinct(entries: Seq<EntryView>) -> bool {
    forall|i: int, j: int|
        0 <= i < entries.len() && 0 <= j < entries.len() && i != j ==> #[trigger] entries[i].name
            != #[trigger] entries[j].name
}

impl View for AixReader {
    type V = ReaderView;

    closed spec fn view(&self) -> ReaderView {
        ReaderView {
            entries: Seq::new(
                self.entries@.len(),
                |i: int|
                    EntryView {
                        name: self.entries@[i].name@,
                        size: self.entries@[i].size,
                        compressed_size: self.entries@[i].compressed_size,
                        method: self.locators@[i].method,
                        crc: self.locators@[i].crc,
                        located: located_range(self.locators@[i].located),
                    },
            ),
            data: self.data@,
        }
    }
}

pub open spec fn located_range(located: Result<(u64, u64), rawzip::Error>) -> Option<(u64, u64)> {
    match located {
        Ok(range) => Some(range),
        Err(_) => None,
    }
}

/// The entry that a record of the central directory gives, when its name is
/// UTF-8: the normalized name, and the record's sizes, method, CRC-32 and
/// located data.
pub open spec fn record_entry(rec: RecordInfo) -> Option<EntryView> {
    match normalized_zip_path(rec.raw_path) {
        Some(n) => Some(
            EntryView {
                name: n,
                size: rec.size,
                compressed_size: rec.compressed_size,
                method: rec.method,
                crc: rec.crc,
                located: rec.located,
            },
        ),
        None => None,
    }
}

/// What reading an entry of the archive `data` gives when it succeeds: its
/// stored data, extracted by its method within its recorded size, when the
/// data was located, the recorded size fits in memory, the method is STORE or
/// DEFLATE, and the extracted bytes have the recorded size and CRC-32.
pub open spec fn entry_contents(e: EntryView, data: Seq<u8>) -> Option<Seq<u8>> {
    match e.located {
        None => None,
        Some((start, end)) => if e.size > usize::MAX {
            None
        } else {
            match decoded(e.method, data.subrange(start as int, end as int), e.size as nat) {
                Some(Some(out)) => if out.len() == e.size && zip_crc32(out) == e.crc {
                    Some(out)
                } else {
                    None
                },
                _ => None,
            }
        },
    }
}

/// The outcome of reading the entry `e`, named `name`, of the archive
/// `data`, step by step: locating its data, the size check, the extraction by
/// method, then the size and the CRC-32 of the extracted bytes.
pub open spec fn read_outcome(r: Result<Vec<u8>, ReaderError>, name: Seq<char>, e: EntryView, data: Seq<u8>) -> bool {
    match e.located {
        None => r matches Err(ReaderError::Locate(n, _)) && n@ == name,
        Some((start, end)) => if e.size > usize::MAX {
            r matches Err(ReaderError::TooLarge(n)) && n@ == name
        } else {
            match decoded(e.method, data.subrange(start as int, end as int), e.size as nat) {
                None => r matches Err(ReaderError::Unsupported(n, m)) && n@ == name && m == e.method,
                Some(None) => r matches Err(ReaderError::Extract(n, _)) && n@ == name,
                Some(Some(out)) => if out.len() != e.size {
                    r matches Err(ReaderError::SizeMismatch(n, x, a)) && n@ == name && x == e.size && a
                        == out.len()
                } else if zip_crc32(out) != e.crc {
                    r matches Err(ReaderError::ChecksumMismatch(n, x, a)) && n@ == name && x == e.crc
                        && a == zip_crc32(out)
                } else {
                    r matches Ok(v) && v@ == out
                },
            }
        },
    }
}

/// An archive that [`AixReader::new`] accepts: `rawzip` opens it and reads
/// its whole central directory, every entry name is UTF-8, and no two
/// normalized names are the same.
pub open spec fn directory_ok(data: Seq<u8>) -> bool {
    let dir = zip_directory(data);
    &&& zip_opens(data)
    &&& zip_directory_complete(data)
    &&& forall|i: int| 0 <= i < dir.len() ==> (#[trigger] record_entry(dir[i])) is Some
    &&& forall|i: int, j: int|
        0 <= i < dir.len() && 0 <= j < dir.len() && i != j ==> #[trigger] normalized_zip_path(dir[i].raw_path)
            != #[trigger] normalized_zip_path(dir[j].raw_path)
}

/// The records before `k` have UTF-8 names, and no two of them the same
/// normalized name.
pub open spec fn records_ok_before(dir: Seq<RecordInfo>, k: int) -> bool {
    &&& forall|i: int| 0 <= i < k ==> (#[trigger] normalized_zip_path(dir[i].raw_path)) is Some
    &&& forall|i: int, j: int|
        0 <= i < k && 0 <= j < k && i != j ==> #[trigger] normalized_zip_path(dir[i].raw_path)
            != #[trigger] normalized_zip_path(dir[j].raw_path)
}

/// The record at `k` is the first that [`AixReader::new`] refuses: every
/// record before it is accepted, and its name is not UTF-8 or normalizes to
/// the name of an earlier record.
pub open spec fn first_bad_record(dir: Seq<RecordInfo>, k: int) -> bool {
    &&& 0 <= k < dir.len()
    &&& records_ok_before(dir, k)
    &&& (normalized_zip_path(dir[k].raw_path) is None || exists|j: int|
        0 <= j < k && normalized_zip_path(dir[j].raw_path) == normalized_zip_path(dir[k].raw_path))
}

/// Only one record is the first refused, and none is when every record is
/// accepted.
pub proof fn lemma_first_bad_record_unique(dir: Seq<RecordInfo>, k: int, m: int)
    requires
        first_bad_record(dir, k),
    ensures
        first_bad_record(dir, m) ==> m == k,
        !records_ok_before(dir, dir.len() as int),
{
    if first_bad_record(dir, m) && m != k {
        let (lo, hi) = if m < k { (m, k) } else { (k, m) };
        assert(first_bad_record(dir, lo));
        assert(records_ok_before(dir, hi));
        assert(normalized_zip_path(dir[lo].raw_path) is Some);
        let j = choose|j: int| 0 <= j < lo && normalized_zip_path(dir[j].raw_path) == normalized_zip_path(dir[lo].raw_path);
        assert(normalized_zip_path(dir[j].raw_path) != normalized_zip_path(dir[lo].raw_path));
    }
    if records_ok_before(dir, dir.len() as int) {
        assert(normalized_zip_path(dir[k].raw_path) is Some);
        let j = choose|j: int| 0 <= j < k && normalized_zip_path(dir[j].raw_path) == normalized_zip_path(dir[k].raw_path);
        assert(normalized_zip_path(dir[j].raw_path) != normalized_zip_path(dir[k].raw_path));
    }
}

proof fn lemma_entries_accepted(dir: Seq<RecordInfo>, entries: Seq<AixEntry>, locators: Seq<EntryLocator>)
    requires
        entries.len() <= dir.len(),
        entries.len() == locators.len(),
        forall|i: int|
            0 <= i < entries.len() ==> record_entry(dir[i]) == Some(
                EntryView {
                    name: (#[trigger] entries[i]).name@,
                    size: entries[i].size,
                    compressed_size: entries[i].compressed_size,
                    method: locators[i].method,
                    crc: locators[i].crc,
                    located: located_range(locators[i].located),
                },
            ),
        forall|i: int, j: int|
            0 <= i < entries.len() && 0 <= j < entries.len() && i != j ==> #[trigger] entries[i].name@
                != #[trigger] entries[j].name@,
    ensures
        records_ok_before(dir, entries.len() as int),
        forall|i: int| 0 <= i < entries.len() ==> normalized_zip_path(dir[i].raw_path) == Some(#[trigger] entries[i].name@),
{
    assert forall|i: int| 0 <= i < entries.len() implies normalized_zip_path(dir[i].raw_path) == Some(
        #[trigger] entries[i].name@,
    ) by {
        let e = entries[i];
        assert(record_entry(dir[i]) == Some(
            EntryView {
                name: e.name@,
                size: e.size,
                compressed_size: e.compressed_size,
                method: locators[i].method,
                crc: locators[i].crc,
                located: located_range(locators[i].located),
            },
        ));
    }
    assert forall|i: int| 0 <= i < entries.len() implies (#[trigger] normalized_zip_path(dir[i].raw_path)) is Some by {
        assert(normalized_zip_path(dir[i].raw_path) == Some(entries[i].name@));
    }
    assert forall|i: int, j: int|
        0 <= i < entries.len() && 0 <= j < entries.len() && i != j implies #[trigger] normalized_zip_path(
            dir[i].raw_path,
        ) != #[trigger] normalized_zip_path(dir[j].raw_path) by {
        assert(normalized_zip_path(dir[i].raw_path) == Some(entries[i].name@));
        assert(normalized_zip_path(dir[j].raw_path) == Some(entries[j].name@));
    }
}

impl AixReader {
    #[verifier::type_invariant]
    closed spec fn well_formed(self) -> bool {
        &&& self.entries@.len() == self.locators@.len()
        &&& forall|i: int|
            0 <= i < self.locators@.len() ==> ((#[trigger] self.locators@[i]).located matches Ok((start, end))
                ==> start <= end <= self.data@.len())
        &&& forall|i: int, j: int|
            0 <= i < self.entries@.len() && 0 <= j < self.entries@.len() && i != j
                ==> #[trigger] self.entries@[i].name@ != #[trigger] self.entries@[j].name@
    }

    fn index_of(&self, name: &str) -> (r: Option<usize>)
        ensures
            match r {
                Some(i) => i < self@.entries.len() && self@.entries[i as int].name == name@,
                None => !entry_names(self@.entries).contains(name@),
            },
    {
        proof {
            use_type_invariant(self);
        }
        let wanted = String::from_str(name);
        let mut i: usize = 0;
        while i < self.entries.len()
            invariant
                i <= self.entries.len(),
                wanted@ == name@,
                forall|j: int| 0 <= j < i ==> self.entries@[j].name@ != name@,
            decreases self.entries.len() - i,
        {
            if self.entries[i].name.eq(&wanted) {
                return Some(i);
            }
            i = i + 1;
        }
        proof {
            if entry_names(self@.entries).contains(name@) {
                let j = choose|j: int| 0 <= j < self@.entries.len() && entry_names(self@.entries)[j] == name@;
                assert(self.entries@[j].name@ == name@);
            }
        }
        None
    }

    /// Reads the central directory of an archive: one entry per record, in
    /// order, with the name that `rawzip` normalizes. An archive that `rawzip`
    /// cannot open is refused with `Open`; otherwise the first record that
    /// is refused decides the error: `InvalidPath` for a name that is not
    /// UTF-8, `Duplicate` for a name that an earlier record has; and where
    /// every record read is accepted but the directory stops at a record that
    /// cannot be read, the error is `Entry`.
    pub fn new(data: Vec<u8>) -> (r: Result<AixReader, ReaderError>)
        ensures
            !zip_opens(data@) ==> r matches Err(ReaderError::Open(_)),
            zip_opens(data@) ==> forall|k: int|
                #[trigger] first_bad_record(zip_directory(data@), k) ==> match normalized_zip_path(
                    zip_directory(data@)[k].raw_path,
                ) {
                    None => r matches Err(ReaderError::InvalidPath(_)),
                    Some(n) => r matches Err(ReaderError::Duplicate(m)) && m@ == n,
                },
            zip_opens(data@) && records_ok_before(zip_directory(data@), zip_directory(data@).len() as int)
                && !zip_directory_complete(data@) ==> r matches Err(ReaderError::Entry(_)),
            r is Ok <==> directory_ok(data@),
            r matches Ok(reader) ==> reader@.data == data@ && names_distinct(reader@.entries)
                && reader@.entries.len() == zip_directory(data@).len() && forall|i: int|
                0 <= i < reader@.entries.len() ==> record_entry(zip_directory(data@)[i]) == Some(
                    #[trigger] reader@.entries[i],
                ),
    {
        let mut entries: Vec<AixEntry> = Vec::new();
        let mut locators: Vec<EntryLocator> = Vec::new();
        let ghost dir = zip_directory(data@);
        {
            let archive = match open_zip(data.as_slice()) {
                Ok(a) => a,
                Err(e) => {
                    return Err(ReaderError::Open(zip_error_text(&e)));
                },
            };
            let mut records = zip_entries(&archive);
            loop
                invariant
                    entries@.len() == locators@.len(),
                    zip_opens(data@),
                    dir == zip_directory(data@),
                    entries@.len() <= dir.len(),
                    pending_records(records) == dir.skip(entries@.len() as int),
                    pending_complete(records) == zip_directory_complete(data@),
                    archive_bytes(archive) == data@,
                    forall|i: int|
                        0 <= i < locators@.len() ==> ((#[trigger] locators@[i]).located matches Ok((start, end))
                            ==> start <= end <= data@.len()),
                    forall|i: int|
                        0 <= i < entries@.len() ==> record_entry(dir[i]) == Some(
                            EntryView {
                                name: (#[trigger] entries@[i]).name@,
                                size: entries@[i].size,
                                compressed_size: entries@[i].compressed_size,
                                method: locators@[i].method,
                                crc: locators@[i].crc,
                                located: located_range(locators@[i].located),
                            },
                        ),
                    forall|i: int, j: int|
                        0 <= i < entries@.len() && 0 <= j < entries@.len() && i != j
                            ==> #[trigger] entries@[i].name@ != #[trigger] entries@[j].name@,
                ensures
                    entries@.len() == dir.len(),
                    zip_directory_complete(data@),
                    entries@.len() == locators@.len(),
                    forall|i: int|
                        0 <= i < locators@.len() ==> ((#[trigger] locators@[i]).located matches Ok((start, end))
                            ==> start <= end <= data@.len()),
                    forall|i: int|
                        0 <= i < entries@.len() ==> record_entry(dir[i]) == Some(
                            EntryView {
                                name: (#[trigger] entries@[i]).name@,
                                size: entries@[i].size,
                                compressed_size: entries@[i].compressed_size,
                                method: locators@[i].method,
                                crc: locators@[i].crc,
                                located: located_range(locators@[i].located),
                            },
                        ),
                    forall|i: int, j: int|
                        0 <= i < entries@.len() && 0 <= j < entries@.len() && i != j
                            ==> #[trigger] entries@[i].name@ != #[trigger] entries@[j].name@,
                decreases pending_records(records).len(),
            {
                let ghost k = entries@.len() as int;
                let record = match next_zip_record(&archive, &mut records) {
                    Ok(Some(record)) => record,
                    Ok(None) => {
                        assert(dir.skip(k).len() == 0);
                        break;
                    },
                    Err(e) => {
                        assert(!directory_ok(data@));
                        proof {
                            lemma_entries_accepted(dir, entries@, locators@);
                            assert forall|k2: int| #[trigger] first_bad_record(dir, k2) implies false by {
                                lemma_first_bad_record_unique(dir, k2, k2);
                            }
                        }
                        return Err(ReaderError::Entry(zip_error_text(&e)));
                    },
                };
                assert(record_info(record) == dir[k]);
                assert(dir.skip(k).drop_first() =~= dir.skip(k + 1));
                let name = match normalize_zip_path(record.raw_path.as_slice()) {
                    Ok(n) => n,
                    Err(e) => {
                        assert(record_entry(dir[k]) is None);
                        proof {
                            lemma_entries_accepted(dir, entries@, locators@);
                            assert(first_bad_record(dir, k));
                            assert forall|k2: int| #[trigger] first_bad_record(dir, k2) implies k2 == k by {
                                lemma_first_bad_record_unique(dir, k, k2);
                            }
                        }
                        return Err(ReaderError::InvalidPath(zip_error_text(&e)));
                    },
                };
                let mut m: usize = 0;
                while m < entries.len()
                    invariant
                        m <= entries.len(),
                        entries@.len() == k,
                        entries@.len() == locators@.len(),
                        k < dir.len(),
                        zip_opens(data@),
                        dir == zip_directory(data@),
                        normalized_zip_path(dir[k].raw_path) == Some(name@),
                        forall|i: int|
                            0 <= i < entries@.len() ==> record_entry(dir[i]) == Some(
                                EntryView {
                                    name: (#[trigger] entries@[i]).name@,
                                    size: entries@[i].size,
                                    compressed_size: entries@[i].compressed_size,
                                    method: locators@[i].method,
                                crc: locators@[i].crc,
                                located: located_range(locators@[i].located),
                                },
                            ),
                        forall|j: int| 0 <= j < m ==> entries@[j].name@ != name@,
                        forall|i: int, j: int|
                            0 <= i < entries@.len() && 0 <= j < entries@.len() && i != j
                                ==> #[trigger] entries@[i].name@ != #[trigger] entries@[j].name@,
                    decreases entries.len() - m,
                {
                    if entries[m].name.eq(&name) {
                        proof {
                            assert(record_entry(dir[m as int]) == Some(
                                EntryView {
                                    name: entries@[m as int].name@,
                                    size: entries@[m as int].size,
                                    compressed_size: entries@[m as int].compressed_size,
                                    method: locators@[m as int].method,
                                    crc: locators@[m as int].crc,
                                    located: located_range(locators@[m as int].located),
                                },
                            ));
                            assert(normalized_zip_path(dir[m as int].raw_path) == normalized_zip_path(dir[k].raw_path));
                            assert(!directory_ok(data@));
                            lemma_entries_accepted(dir, entries@, locators@);
                            assert(first_bad_record(dir, k));
                            assert forall|k2: int| #[trigger] first_bad_record(dir, k2) implies k2 == k by {
                                lemma_first_bad_record_unique(dir, k, k2);
                            }
                        }
                        return Err(ReaderError::Duplicate(name));
                    }
                    m = m + 1;
                }
                let ZipRecord { method, crc, size, compressed_size, located, .. } = record;
                locators.push(EntryLocator { method, crc, located });
                entries.push(AixEntry { name, size, compressed_size });
            }
        }
        proof {
            lemma_entries_accepted(dir, entries@, locators@);
            assert forall|k2: int| #[trigger] first_bad_record(dir, k2) implies false by {
                lemma_first_bad_record_unique(dir, k2, k2);
            }
        }
        let reader = AixReader { entries, locators, data };
        proof {
            assert(reader@.data == data@);
            assert forall|i: int, j: int|
                0 <= i < reader@.entries.len() && 0 <= j < reader@.entries.len() && i != j
                    implies #[trigger] reader@.entries[i].name != #[trigger] reader@.entries[j].name by {
                assert(reader@.entries[i].name == reader.entries@[i].name@);
                assert(reader@.entries[j].name == reader.entries@[j].name@);
            }
            assert forall|i: int| 0 <= i < reader@.entries.len() implies record_entry(dir[i]) == Some(
                #[trigger] reader@.entries[i],
            ) by {
                assert(reader.entries@[i].name == reader.entries@[i].name);
            }
            assert(reader@.entries.len() == dir.len());
            assert forall|i: int| 0 <= i < dir.len() implies (#[trigger] record_entry(dir[i])) is Some by {
                assert(i < reader@.entries.len());
                assert(record_entry(dir[i]) == Some(reader@.entries[i]));
            }
            assert forall|i: int, j: int|
                0 <= i < dir.len() && 0 <= j < dir.len() && i != j implies #[trigger] normalized_zip_path(
                    dir[i].raw_path,
                ) != #[trigger] normalized_zip_path(dir[j].raw_path) by {
                assert(reader.entries@[i].name@ != reader.entries@[j].name@);
            }
        }
        Ok(reader)
    }

    /// The entries of the package, in the order of the central directory.
    pub fn list(&self) -> (r: &Vec<AixEntry>)
        ensures
            r@.len() == self@.entries.len(),
            forall|i: int|
                0 <= i < r@.len() ==> (#[trigger] r@[i]).name@ == self@.entries[i].name && r@[i].size
                    == self@.entries[i].size && r@[i].compressed_size == self@.entries[i].compressed_size,
    {
        &self.entries
    }

    /// The bytes of the archive, as they were handed to [`AixReader::new`].
    pub fn as_bytes(&self) -> (r: &[u8])
        ensures
            r@ == self@.data,
    {
        self.data.as_slice()
    }

    /// Gives the bytes of the archive back.
    pub fn into_bytes(self) -> (r: Vec<u8>)
        ensures
            r@ == self@.data,
    {
        self.data
    }

    /// Whether the package has an entry with the name.
    pub fn has_entry(&self, name: &str) -> (r: bool)
        ensures
            r == entry_names(self@.entries).contains(name@),
    {
        match self.index_of(name) {
            Some(i) => {
                assert(entry_names(self@.entries)[i as int] == name@);
                true
            },
            None => false,
        }
    }

    /// Reads one file of the package: it takes the entry's stored data where
    /// the central directory located it, extracts it (stored or deflated,
    /// never more than the recorded size), and checks the result against the
    /// recorded size and CRC-32.
    pub fn read_file(&self, name: &str) -> (r: Result<Vec<u8>, ReaderError>)
        ensures
            !entry_names(self@.entries).contains(name@) <==> (r matches Err(ReaderError::NotFound(n))
                && n@ == name@),
            forall|i: int|
                0 <= i < self@.entries.len() && (#[trigger] self@.entries[i]).name == name@ ==> read_outcome(
                    r,
                    name@,
                    self@.entries[i],
                    self@.data,
                ) && (r is Ok <==> entry_contents(self@.entries[i], self@.data) is Some) && (r matches Ok(
                    v,
                ) ==> entry_contents(self@.entries[i], self@.data) == Some(v@)),
    {
        proof {
            use_type_invariant(self);
        }
        let i = match self.index_of(name) {
            Some(i) => i,
            None => {
                proof {
                    assert forall|j: int|
                        0 <= j < self@.entries.len() && (#[trigger] self@.entries[j]).name == name@ implies false by {
                        assert(entry_names(self@.entries)[j] == name@);
                    }
                }
                return Err(ReaderError::NotFound(String::from_str(name)));
            },
        };
        proof {
            assert(entry_names(self@.entries)[i as int] == name@);
            assert forall|j: int|
                0 <= j < self@.entries.len() && (#[trigger] self@.entries[j]).name == name@ implies j == i by {
                if j != i {
                    assert(self.entries@[j].name@ != self.entries@[i as int].name@);
                }
            }
        }
        let locator = &self.locators[i];
        let method = locator.method;
        let (start, end) = match &locator.located {
            Ok(range) => {
                assert(self.locators@[i as int].located matches Ok((a, b)) && a == range.0 && b == range.1);
                *range
            },
            Err(error) => {
                return Err(ReaderError::Locate(String::from_str(name), zip_error_text(error)));
            },
        };
        assert(start <= end <= self.data@.len()) by {
            let l = self.locators@[i as int];
            assert(l.located matches Ok((a, b)) ==> a <= b <= self.data@.len());
        }
        let claimed_size = self.entries[i].size;
        if claimed_size > usize::MAX as u64 {
            return Err(ReaderError::TooLarge(String::from_str(name)));
        }
        let limit = claimed_size as usize;
        let all = self.data.as_slice();
        let total: usize = all.len();
        assert(end <= total);
        let stored = vstd::slice::slice_subrange(all, start as usize, end as usize);
        assert(stored@ == self@.data.subrange(start as int, end as int));
        let output = match decode_entry(name, method, stored, limit) {
            Ok(out) => out,
            Err(e) => {
                return Err(e);
            },
        };
        verify_extracted(name, output, locator.crc, claimed_size)
    }

    /// The build identifier in the `VERSION` entry: the entry's contents
    /// when it exists, reads back intact (see [`AixReader::read_file`]) and is
    /// UTF-8, decoded; otherwise nothing.
    pub fn get_version(&self) -> (r: Option<String>)
        ensures
            !entry_names(self@.entries).contains("VERSION"@) ==> r is None,
            forall|i: int|
                0 <= i < self@.entries.len() && (#[trigger] self@.entries[i]).name == "VERSION"@
                    ==> match entry_contents(self@.entries[i], self@.data) {
                    Some(bytes) => if valid_utf8(bytes) {
                        r matches Some(s) && s@ == decode_utf8(bytes)
                    } else {
                        r is None
                    },
                    None => r is None,
                },
    {
        let read = self.read_file("VERSION");
        proof {
            reveal_strlit("VERSION");
        }
        version_text(read)
    }

    /// The Widgets that `app.json` declares, once every one of them is found
    /// to have its `.ink` entry in the package; the first without one is
    /// reported.
    pub fn get_widgets(&self, declared: Vec<WidgetInfo>) -> (r: Result<Vec<WidgetInfo>, ReaderError>)
        ensures
            r is Ok <==> forall|i: int|
                0 <= i < declared@.len() ==> entry_names(self@.entries).contains(
                    #[trigger] declared@[i].path@ + ".ink"@,
                ),
            r matches Ok(v) ==> v@ == declared@,
            r matches Err(e) ==> (e matches ReaderError::WidgetEntryMissing(p) && exists|i: int|
                0 <= i < declared@.len() && p@ == declared@[i].path@ + ".ink"@
                    && !entry_names(self@.entries).contains(p@) && forall|j: int|
                    0 <= j < i ==> entry_names(self@.entries).contains(
                        #[trigger] declared@[j].path@ + ".ink"@,
                    )),
    {
        let mut i: usize = 0;
        while i < declared.len()
            invariant
                i <= declared.len(),
                forall|j: int|
                    0 <= j < i ==> entry_names(self@.entries).contains(
                        #[trigger] declared@[j].path@ + ".ink"@,
                    ),
            decreases declared.len() - i,
        {
            let entry = String::from_str(declared[i].path.as_str()).concat(".ink");
            if !self.has_entry(entry.as_str()) {
                return Err(ReaderError::WidgetEntryMissing(entry));
            }
            i = i + 1;
        }
        Ok(declared)
    }
}

} // verus!
