//! The CSV reader and writer of the `csv` crate, as this library relies on
//! them.
use vstd::prelude::*;

use crate::text::texts;

verus! {

#[verifier::external_type_specification]
#[verifier::external_body]
pub struct ExCsvError(csv::Error);

/// The texts held by a sequence of records.
pub open spec fn records_texts(v: Seq<Vec<String>>) -> Seq<Seq<Seq<char>>> {
    v.map_values(|r: Vec<String>| texts(r@))
}

/// What the flexible CSV reader makes of a byte text: the header record and
/// the data records after it, or `None` where it reports an error.
pub uninterp spec fn csv_read(bytes: Seq<u8>) -> Option<(Seq<Seq<char>>, Seq<Seq<Seq<char>>>)>;

/// The bytes the CSV writer emits for one record, terminator included.
pub uninterp spec fn csv_record_bytes(fields: Seq<Seq<char>>) -> Seq<u8>;

/// Relies on `csv::ReaderBuilder` with `flexible(true)`, `Reader::headers` and
/// `Reader::records`: the first record is the header, the others follow in
/// file order, each field as its text; the result depends on the bytes alone.
#[verifier::external_body]
pub(crate) fn read_delimited(bytes: &[u8]) -> (r: Result<(Vec<String>, Vec<Vec<String>>), csv::Error>)
    ensures
        r is Ok <==> csv_read(bytes@) is Some,
        r matches Ok((h, recs)) ==> csv_read(bytes@) == Some((texts(h@), records_texts(recs@))),
{
    let mut rdr = csv::ReaderBuilder::new().flexible(true).from_reader(bytes);
    let headers: Vec<String> = rdr.headers()?.iter().map(|h| h.to_string()).collect();
    let records = rdr
        .records()
        .map(|rec| rec.map(|r| r.iter().map(|f| f.to_string()).collect()))
        .collect::<Result<Vec<Vec<String>>, csv::Error>>()?;
    Ok((headers, records))
}

/// Relies on `csv::Writer::write_record` and `Writer::into_inner` with the
/// default configuration: the bytes of one record, which depend on its
/// fields alone. A fresh writer only records the first record's field count,
/// and its buffer is flushed into a `Vec`, which cannot fail, so the result
/// is always `Ok`.
#[verifier::external_body]
pub(crate) fn write_delimited_record(fields: &Vec<String>) -> (r: Result<Vec<u8>, csv::Error>)
    ensures
        r is Ok,
        r matches Ok(b) ==> b@ == csv_record_bytes(texts(fields@)),
{
    let mut w = csv::Writer::from_writer(Vec::new());
    w.write_record(fields)?;
    w.into_inner().map_err(|e| csv::Error::from(e.into_error()))
}

/// A character that no platform treats as a path separator, a drive mark or
/// an extension mark.
pub open spec fn is_word_char(c: char) -> bool {
    ('a' <= c && c <= 'z') || ('A' <= c && c <= 'Z') || ('0' <= c && c <= '9') || c == '_'
}

/// A non-empty run of word characters.
pub open spec fn is_word(s: Seq<char>) -> bool {
    s.len() > 0 && forall|i: int| 0 <= i < s.len() ==> is_word_char(#[trigger] s[i])
}

/// What is known of the stem of `path` on every platform: a bare word is its
/// own stem, and a word, a dot and a word has the first word as stem.
pub open spec fn is_stem_of(path: Seq<char>, stem: Seq<char>) -> bool {
    &&& is_word(path) ==> stem == path
    &&& forall|i: int|
        0 < i < path.len() && path[i] == '.' && is_word(#[trigger] path.take(i)) && is_word(
            path.skip(i + 1),
        ) ==> stem == path.take(i)
}

/// Relies on `std::path::Path::file_stem`: the file name without its
/// extension, or an empty text where the path names no file. How a path is
/// split depends on the platform, so only what holds on all of them is
/// stated.
#[verifier::external_body]
pub(crate) fn file_stem(path: &str) -> (r: String)
    ensures
        is_stem_of(path@, r@),
{
    std::path::Path::new(path).file_stem().map(|s| s.to_string_lossy().into_owned()).unwrap_or_default()
}

} // verus!
