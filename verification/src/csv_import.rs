//! Offset records read from CSV text with the columns consumer group, topic,
//! partition and offset.

use vstd::prelude::*;
use vstd::string::StringExecFns;

use crate::offsets_topic::OffsetAccumulator;
use crate::record::{
    import_records, records_map, snapshot_view, sorted_records, ImportError, OffsetKey, OffsetRecord,
    OffsetRecordView, OffsetSnapshot,
};
use crate::text::{decimal, format_u64, string_views};
use vstd::utf8::encode_utf8;

verus! {

/// A row of the CSV text: the four columns, or the line where it could not
/// be read and why.
pub type CsvRow = Result<(String, String, i32, i64), (u64, String)>;

/// Mathematical value of a [`CsvRow`].
pub type CsvRowView = Result<(Seq<char>, Seq<char>, i32, i64), (u64, Seq<char>)>;

pub open spec fn row_view(r: CsvRow) -> CsvRowView {
    match r {
        Ok(t) => Ok((t.0@, t.1@, t.2, t.3)),
        Err(e) => Err((e.0, e.1@)),
    }
}

pub open spec fn rows_view(rows: Seq<CsvRow>) -> Seq<CsvRowView> {
    rows.map_values(|r: CsvRow| row_view(r))
}

/// The rows that the `csv` crate reads from the bytes `text` with the
/// column names `headers` set by hand (so that the first line is a record
/// too), each deserialized into (consumer group, topic, partition, offset).
pub uninterp spec fn csv_offset_rows(headers: Seq<Seq<char>>, text: Seq<u8>) -> Seq<CsvRowView>;

/// The rows of the bytes `text`.
///
/// Trusted: builds a `csv::ReaderBuilder::new()` reader over `text`, sets
/// its headers to `headers` with `set_headers`, and collects
/// `deserialize::<(String, String, i32, i64)>()`, each error as the line of
/// its position (0 when it has none) and its text. The
/// result is a function of the arguments alone and is named
/// `csv_offset_rows`; nothing more is stated of it.
#[verifier::external_body]
fn read_csv_rows(headers: &Vec<String>, text: &[u8]) -> (r: Vec<CsvRow>)
    ensures
        rows_view(r@) == csv_offset_rows(string_views(headers@), text@),
{
    let mut reader = csv::ReaderBuilder::new().from_reader(text);
    reader.set_headers(csv::StringRecord::from(headers.clone()));
    reader
        .deserialize::<(String, String, i32, i64)>()
        .map(|row| row.map_err(|e| (e.position().map(|p| p.line()).unwrap_or(0), e.to_string())))
        .collect()
}

/// The column names of the CSV text.
pub open spec fn csv_headers() -> Seq<Seq<char>> {
    seq!["consumer_group"@, "topic"@, "partition"@, "offset"@]
}

fn headers() -> (r: Vec<String>)
    ensures
        string_views(r@) == csv_headers(),
{
    let mut r: Vec<String> = Vec::new();
    r.push(String::from_str("consumer_group"));
    r.push(String::from_str("topic"));
    r.push(String::from_str("partition"));
    r.push(String::from_str("offset"));
    proof {
        assert(string_views(r@) =~= csv_headers());
    }
    r
}

/// The record that a read row stands for.
pub open spec fn record_of_row(r: CsvRowView) -> Result<OffsetRecordView, Seq<char>> {
    match r {
        Ok(t) => Ok(OffsetRecordView { consumer_group: t.0, topic: t.1, partition: t.2, offset: t.3 }),
        Err(e) => Err(e.1),
    }
}

pub open spec fn record_result_view(r: Result<OffsetRecord, String>) -> Result<OffsetRecordView, Seq<char>> {
    match r {
        Ok(x) => Ok(x@),
        Err(e) => Err(e@),
    }
}

/// The records of rows that were all read.
pub open spec fn records_of_rows(rows: Seq<CsvRowView>) -> Seq<OffsetRecordView> {
    rows.map_values(|r: CsvRowView| record_of_row(r)->Ok_0)
}

/// The outcome of importing rows: the records when every row was read, or
/// the messages of the rows that were not.
pub open spec fn import_rows_spec(rows: Seq<CsvRowView>) -> Result<Seq<OffsetRecordView>, Seq<Seq<char>>> {
    if forall|i: int| 0 <= i < rows.len() ==> #[trigger] rows[i] is Ok {
        Ok(records_of_rows(rows))
    } else {
        Err(rows.filter(|r: CsvRowView| r is Err).map_values(|r: CsvRowView| r->Err_0.1))
    }
}

pub open spec fn import_result_view(r: Result<OffsetSnapshot, ImportError>) -> Result<Seq<OffsetRecordView>, Seq<Seq<char>>> {
    match r {
        Ok(v) => Ok(snapshot_view(v@)),
        Err(ImportError::ParseErrors(e)) => Err(string_views(e@)),
        Err(ImportError::ResourceNotFound(m)) => Err(seq![m@]),
    }
}

fn rows_to_records(rows: Vec<CsvRow>) -> (r: Vec<Result<OffsetRecord, String>>)
    ensures
        r@.len() == rows@.len(),
        forall|i: int| 0 <= i < r@.len() ==> record_result_view(#[trigger] r@[i]) == record_of_row(row_view(rows@[i])),
{
    let mut r: Vec<Result<OffsetRecord, String>> = Vec::new();
    let mut i: usize = 0;
    while i < rows.len()
        invariant
            i <= rows@.len(),
            r@.len() == i,
            forall|j: int| 0 <= j < i ==> record_result_view(#[trigger] r@[j]) == record_of_row(row_view(rows@[j])),
        decreases rows@.len() - i,
    {
        let item = match &rows[i] {
            Ok(t) => Ok(OffsetRecord {
                consumer_group: t.0.clone(),
                topic: t.1.clone(),
                partition: t.2,
                offset: t.3,
            }),
            Err(e) => Err(e.1.clone()),
        };
        r.push(item);
        i = i + 1;
    }
    r
}

/// The records of read rows, or every parse error when there is one.
pub fn import_rows(rows: Vec<CsvRow>) -> (r: Result<OffsetSnapshot, ImportError>)
    ensures
        !(r matches Err(ImportError::ResourceNotFound(_))),
        import_result_view(r) == import_rows_spec(rows_view(rows@)),
        r is Err ==> exists|i: int| 0 <= i < rows@.len() && #[trigger] rows@[i] is Err,
{
    let ghost rv = rows_view(rows@);
    let records = rows_to_records(rows);
    let ghost input = records@;
    let r = import_records(records);
    proof {
        assert forall|i: int| 0 <= i < input.len() implies (#[trigger] input[i] is Ok <==> rv[i] is Ok) by {
            assert(record_result_view(input[i]) == record_of_row(row_view(rows@[i])));
        }
        match &r {
            Ok(v) => {
                assert(forall|i: int| 0 <= i < rv.len() ==> #[trigger] rv[i] is Ok) by {
                    assert forall|i: int| 0 <= i < rv.len() implies #[trigger] rv[i] is Ok by {
                        assert(input[i] is Ok);
                    }
                }
                assert forall|i: int| 0 <= i < v@.len() implies #[trigger] snapshot_view(v@)[i]
                    == records_of_rows(rv)[i] by {
                    assert(v@[i]@ == input[i]->Ok_0@);
                    assert(record_result_view(input[i]) == record_of_row(row_view(rows@[i])));
                }
                assert(snapshot_view(v@) =~= records_of_rows(rv));
            },
            Err(ImportError::ParseErrors(e)) => {
                lemma_error_messages(input, rv);
                let f = input.filter(|x: Result<OffsetRecord, String>| x is Err);
                assert(string_views(e@).len() == e@.len());
                assert(f.map_values(|x: Result<OffsetRecord, String>| x->Err_0@).len() == f.len());
                assert(f.len() > 0);
                assert(!(forall|i: int| 0 <= i < rv.len() ==> #[trigger] rv[i] is Ok));
                let k = choose|k: int| 0 <= k < rv.len() && !(#[trigger] rv[k] is Ok);
                assert(row_view(rows@[k]) == rv[k]);
            },
            Err(_) => {},
        }
    }
    r
}

proof fn lemma_error_messages(input: Seq<Result<OffsetRecord, String>>, rv: Seq<CsvRowView>)
    requires
        input.len() == rv.len(),
        forall|i: int| 0 <= i < input.len() ==> record_result_view(#[trigger] input[i]) == record_of_row(rv[i]),
    ensures
        input.filter(|x: Result<OffsetRecord, String>| x is Err).map_values(|x: Result<OffsetRecord, String>| x->Err_0@)
            == rv.filter(|r: CsvRowView| r is Err).map_values(|r: CsvRowView| r->Err_0.1),
        (forall|i: int| 0 <= i < rv.len() ==> #[trigger] rv[i] is Ok) ==> input.filter(
            |x: Result<OffsetRecord, String>| x is Err,
        ).len() == 0,
    decreases input.len(),
{
    reveal_with_fuel(Seq::<_>::filter, 1);
    if input.len() > 0 {
        let n = input.len() - 1;
        lemma_error_messages(input.drop_last(), rv.drop_last());
        assert(record_result_view(input[n]) == record_of_row(rv[n]));
        let a = input.drop_last().filter(|x: Result<OffsetRecord, String>| x is Err);
        let b = rv.drop_last().filter(|r: CsvRowView| r is Err);
        if input[n] is Err {
            assert(input.filter(|x: Result<OffsetRecord, String>| x is Err) == a.push(input[n]));
            assert(rv.filter(|r: CsvRowView| r is Err) == b.push(rv[n]));
            assert(a.push(input[n]).map_values(|x: Result<OffsetRecord, String>| x->Err_0@) =~= a.map_values(
                |x: Result<OffsetRecord, String>| x->Err_0@,
            ).push(input[n]->Err_0@));
            assert(b.push(rv[n]).map_values(|r: CsvRowView| r->Err_0.1) =~= b.map_values(|r: CsvRowView| r->Err_0.1).push(
                rv[n]->Err_0.1,
            ));
        } else {
            assert(input.filter(|x: Result<OffsetRecord, String>| x is Err) == a);
            assert(rv.filter(|r: CsvRowView| r is Err) == b);
        }
        if forall|i: int| 0 <= i < rv.len() ==> #[trigger] rv[i] is Ok {
            assert(rv[n] is Ok);
            assert forall|i: int| 0 <= i < rv.drop_last().len() implies #[trigger] rv.drop_last()[i] is Ok by {
                assert(rv[i] is Ok);
            }
        }
    }
}

/// The offset records of CSV text, or every parse error when a row could
/// not be read.
pub fn import_csv(text: &str) -> (r: Result<OffsetSnapshot, ImportError>)
    ensures
        !(r matches Err(ImportError::ResourceNotFound(_))),
        import_result_view(r) == import_rows_spec(csv_offset_rows(csv_headers(), encode_utf8(text@))),
{
    import_csv_bytes(text.as_bytes())
}

/// The offset records of CSV bytes, or every parse error when a row could
/// not be read (bytes that are not UTF-8 among them).
pub fn import_csv_bytes(text: &[u8]) -> (r: Result<OffsetSnapshot, ImportError>)
    ensures
        !(r matches Err(ImportError::ResourceNotFound(_))),
        import_result_view(r) == import_rows_spec(csv_offset_rows(csv_headers(), text@)),
{
    let h = headers();
    let rows = read_csv_rows(&h, text);
    import_rows(rows)
}

/// The record of one CSV line, read from its rows.
pub fn convert_rows(rows: Vec<CsvRow>) -> (r: Result<OffsetRecord, ImportError>)
    requires
        rows@.len() > 0,
    ensures
        !(r matches Err(ImportError::ResourceNotFound(_))),
        match import_rows_spec(rows_view(rows@)) {
            Ok(records) => r matches Ok(x) && x@ == records[0],
            Err(errors) => r matches Err(ImportError::ParseErrors(e)) && string_views(e@) == errors,
        },
{
    let ghost rv = rows_view(rows@);
    let n = rows.len();
    let result = import_rows(rows);
    match result {
        Ok(records) => {
            proof {
                assert(snapshot_view(records@).len() == rv.len());
                assert(snapshot_view(records@)[0] == records@[0]@);
            }
            Ok(records[0].duplicate())
        },
        Err(e) => Err(e),
    }
}

/// The record of one CSV line (such as `group,topic,0,100`), or the parse
/// errors; a line without any record is out of its domain.
pub fn convert(value: String) -> (r: Result<OffsetRecord, ImportError>)
    requires
        csv_offset_rows(csv_headers(), encode_utf8(value@)).len() > 0,
    ensures
        !(r matches Err(ImportError::ResourceNotFound(_))),
        match import_rows_spec(csv_offset_rows(csv_headers(), encode_utf8(value@))) {
            Ok(records) => r matches Ok(x) && x@ == records[0],
            Err(errors) => r matches Err(ImportError::ParseErrors(e)) && string_views(e@) == errors,
        },
{
    let h = headers();
    let rows = read_csv_rows(&h, value.as_str().as_bytes());
    convert_rows(rows)
}

/// The record of one CSV line as [`convert`] reads it, or `None` when the
/// line holds no record at all.
pub fn try_convert(value: String) -> (r: Option<Result<OffsetRecord, ImportError>>)
    ensures
        r is None <==> csv_offset_rows(csv_headers(), encode_utf8(value@)).len() == 0,
        r matches Some(res) ==> !(res matches Err(ImportError::ResourceNotFound(_))) && match import_rows_spec(
            csv_offset_rows(csv_headers(), encode_utf8(value@)),
        ) {
            Ok(records) => res matches Ok(x) && x@ == records[0],
            Err(errors) => res matches Err(ImportError::ParseErrors(e)) && string_views(e@) == errors,
        },
{
    let h = headers();
    let rows = read_csv_rows(&h, value.as_str().as_bytes());
    if rows.len() == 0 {
        None
    } else {
        Some(convert(value))
    }
}

/// Whether the line holds at least one CSV row.
pub open spec fn line_has_row(line: Seq<char>) -> bool {
    csv_offset_rows(csv_headers(), encode_utf8(line)).len() > 0
}

/// The records of the lines that read as one, in order: each line as
/// [`convert`] reads it, the lines whose rows could not be read left out.
pub open spec fn records_of_lines(lines: Seq<Seq<char>>) -> Seq<OffsetRecordView>
    decreases lines.len(),
{
    if lines.len() == 0 {
        Seq::empty()
    } else {
        let rest = records_of_lines(lines.drop_last());
        match import_rows_spec(csv_offset_rows(csv_headers(), encode_utf8(lines.last()))) {
            Ok(records) => rest.push(records[0]),
            Err(_) => rest,
        }
    }
}

/// The records of the lines that read as one (such as lines of standard
/// input), in order; a line without any row is out of its domain.
pub fn records_from_lines(lines: Vec<String>) -> (r: Vec<OffsetRecord>)
    requires
        forall|i: int| 0 <= i < lines@.len() ==> #[trigger] line_has_row(lines@[i]@),
    ensures
        snapshot_view(r@) == records_of_lines(string_views(lines@)),
{
    let ghost ls = string_views(lines@);
    let mut r: Vec<OffsetRecord> = Vec::new();
    let mut i: usize = 0;
    proof {
        assert(ls.take(0) =~= Seq::<Seq<char>>::empty());
        assert(snapshot_view(r@) =~= Seq::<OffsetRecordView>::empty());
    }
    while i < lines.len()
        invariant
            i <= lines@.len(),
            ls == string_views(lines@),
            forall|k: int| 0 <= k < lines@.len() ==> #[trigger] line_has_row(lines@[k]@),
            snapshot_view(r@) == records_of_lines(ls.take(i as int)),
        decreases lines@.len() - i,
    {
        proof {
            assert(ls.take(i + 1).drop_last() =~= ls.take(i as int));
            assert(ls.take(i + 1).last() == lines@[i as int]@);
            assert(line_has_row(lines@[i as int]@));
        }
        let ghost before = snapshot_view(r@);
        match try_convert(lines[i].clone()) {
            Some(Ok(record)) => {
                let ghost x = record@;
                r.push(record);
                proof {
                    assert(snapshot_view(r@) =~= before.push(x));
                }
            },
            _ => {},
        }
        i = i + 1;
    }
    proof {
        assert(ls.take(i as int) =~= ls);
    }
    r
}

/// The records of the lines as [`records_from_lines`] reads them, or
/// `None` when a line holds no row at all.
pub fn checked_records_from_lines(lines: Vec<String>) -> (r: Option<Vec<OffsetRecord>>)
    ensures
        r is Some <==> forall|i: int| 0 <= i < lines@.len() ==> #[trigger] line_has_row(lines@[i]@),
        r matches Some(v) ==> snapshot_view(v@) == records_of_lines(string_views(lines@)),
{
    let mut i: usize = 0;
    while i < lines.len()
        invariant
            i <= lines@.len(),
            forall|k: int| 0 <= k < i ==> #[trigger] line_has_row(lines@[k]@),
        decreases lines@.len() - i,
    {
        let line = lines[i].clone();
        proof {
            assert(line@ == lines@[i as int]@);
        }
        if try_convert(line).is_none() {
            proof {
                assert(!line_has_row(lines@[i as int]@));
            }
            return None;
        }
        i = i + 1;
    }
    Some(records_from_lines(lines))
}

/// A source of offset records.
pub trait OffsetSnapshotImporter {
    /// The records of the source, or why they could not be read.
    fn import(&self) -> Result<OffsetSnapshot, ImportError>;
}

/// The importer of the offset records of a CSV file.
pub struct CsvOffsetSnapshotImporter {
    pub file_path: String,
}

/// The text by which an unopened file is reported: the path's `Debug`
/// formatting as a `std::path::Path`.
pub uninterp spec fn path_debug_text(s: Seq<char>) -> Seq<char>;

/// The `Debug` text of the path `s`.
///
/// Trusted: calls `format!("{:?}", std::path::Path::new(s))`, a function of
/// `s` alone, named `path_debug_text`.
#[verifier::external_body]
fn path_debug_string(s: &str) -> (r: String)
    ensures
        r@ == path_debug_text(s@),
{
    format!("{:?}", std::path::Path::new(s))
}

impl CsvOffsetSnapshotImporter {
    /// The records of the file given its contents, `None` when the file
    /// could not be opened.
    pub fn import_contents(&self, contents: Option<Vec<u8>>) -> (r: Result<OffsetSnapshot, ImportError>)
        ensures
            match contents {
                None => r matches Err(ImportError::ResourceNotFound(m)) && m@ == path_debug_text(self.file_path@)
                    + " could not be opened."@,
                Some(text) => !(r matches Err(ImportError::ResourceNotFound(_))) && import_result_view(r)
                    == import_rows_spec(csv_offset_rows(csv_headers(), text@)),
            },
    {
        match contents {
            Some(text) => import_csv_bytes(text.as_slice()),
            None => {
                let mut m = path_debug_string(self.file_path.as_str());
                m.append(" could not be opened.");
                Err(ImportError::ResourceNotFound(m))
            },
        }
    }
}

/// Why a snapshot could not be read from CSV text: the line of the first
/// malformed record, and why.
#[derive(Debug)]
pub enum CsvSnapshotError {
    MalformedRecord(u64, String),
}

impl CsvSnapshotError {
    /// The text of the error.
    pub fn message(&self) -> (r: String)
        ensures
            match self {
                CsvSnapshotError::MalformedRecord(line, m) => r@ == "Malformed record at line "@ + decimal(
                    *line as int,
                ) + ": "@ + m@,
            },
    {
        match self {
            CsvSnapshotError::MalformedRecord(line, m) => {
                let mut r = String::from_str("Malformed record at line ");
                r.append(format_u64(*line).as_str());
                r.append(": ");
                r.append(m.as_str());
                r
            },
        }
    }
}

/// The first row that could not be read, as (line, reason).
pub open spec fn first_malformed(rows: Seq<CsvRowView>) -> Option<(u64, Seq<char>)>
    decreases rows.len(),
{
    if rows.len() == 0 {
        None
    } else {
        match first_malformed(rows.drop_last()) {
            Some(e) => Some(e),
            None => match rows.last() {
                Err(e) => Some(e),
                Ok(_) => None,
            },
        }
    }
}

proof fn lemma_first_malformed_prefix(rows: Seq<CsvRowView>, j: int)
    requires
        0 <= j <= rows.len(),
        first_malformed(rows.take(j)) is Some,
    ensures
        first_malformed(rows) == first_malformed(rows.take(j)),
    decreases rows.len() - j,
{
    if j < rows.len() {
        assert(rows.take(j + 1).drop_last() =~= rows.take(j));
        assert(first_malformed(rows.take(j + 1)) == first_malformed(rows.take(j)));
        lemma_first_malformed_prefix(rows, j + 1);
    } else {
        assert(rows.take(j) =~= rows);
    }
}

/// The offset of each (consumer group, topic, partition) in the rows, a
/// later row for a key replacing an earlier one.
pub open spec fn latest_offsets(rows: Seq<CsvRowView>) -> Map<OffsetKey, i64>
    decreases rows.len(),
{
    if rows.len() == 0 {
        Map::empty()
    } else {
        let m = latest_offsets(rows.drop_last());
        match rows.last() {
            Ok(t) => m.insert((t.0, t.1, t.2), t.3),
            Err(_) => m,
        }
    }
}

/// The snapshot that CSV text holds: one record per (consumer group, topic,
/// partition), with the offset of its last row, ordered by consumer group,
/// topic and partition; an error at the first malformed row.
pub fn snapshot_from_csv(text: &[u8]) -> (r: Result<OffsetSnapshot, CsvSnapshotError>)
    ensures
        ({
            let rows = csv_offset_rows(csv_headers(), text@);
            match first_malformed(rows) {
                Some((line, m)) => r matches Err(CsvSnapshotError::MalformedRecord(l, x)) && l == line && x@ == m,
                None => r matches Ok(s) && sorted_records(snapshot_view(s@)) && records_map(snapshot_view(s@))
                    == latest_offsets(rows),
            }
        }),
{
    let h = headers();
    let rows = read_csv_rows(&h, text);
    snapshot_from_rows(rows)
}

/// The snapshot that rows read from CSV text hold: one record per
/// (consumer group, topic, partition), with the offset of its last row,
/// ordered by consumer group, topic and partition; an error at the first
/// malformed row.
pub fn snapshot_from_rows(rows: Vec<CsvRow>) -> (r: Result<OffsetSnapshot, CsvSnapshotError>)
    ensures
        match first_malformed(rows_view(rows@)) {
            Some((line, m)) => r matches Err(CsvSnapshotError::MalformedRecord(l, x)) && l == line && x@ == m,
            None => r matches Ok(s) && sorted_records(snapshot_view(s@)) && records_map(snapshot_view(s@))
                == latest_offsets(rows_view(rows@)),
        },
{
    let ghost rv = rows_view(rows@);
    let mut acc = OffsetAccumulator::new(Vec::new());
    let mut i: usize = 0;
    proof {
        assert(rv.take(0) =~= Seq::<CsvRowView>::empty());
    }
    while i < rows.len()
        invariant
            i <= rows@.len(),
            rv == rows_view(rows@),
            acc.wf(),
            first_malformed(rv.take(i as int)) is None,
            acc@.offsets == latest_offsets(rv.take(i as int)),
        decreases rows@.len() - i,
    {
        proof {
            assert(rv.take(i + 1).drop_last() =~= rv.take(i as int));
            assert(rv.take(i + 1).last() == rv[i as int]);
        }
        match &rows[i] {
            Ok(t) => {
                acc.insert_key(t.0.clone(), t.1.clone(), t.2, t.3);
            },
            Err(e) => {
                proof {
                    assert(rv[i as int] == row_view(rows@[i as int]));
                    assert(first_malformed(rv.take(i + 1)) == Some((e.0, e.1@)));
                    lemma_first_malformed_prefix(rv, i + 1);
                }
                return Err(CsvSnapshotError::MalformedRecord(e.0, e.1.clone()));
            },
        }
        i = i + 1;
    }
    proof {
        assert(rv.take(i as int) =~= rv);
    }
    Ok(acc.into_snapshot())
}

} // verus!
