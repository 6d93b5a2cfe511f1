//! Marking the entries of a two-column table that occur more than once in
//! their column, and whether both columns of a row agree on it.
use vstd::prelude::*;
use vstd::utf8::encode_utf8;

verus! {

/// The texts of a sequence of strings.
pub open spec fn texts(v: Seq<String>) -> Seq<Seq<char>> {
    v.map_values(|s: String| s@)
}

/// Entry `i` of `col` occurs at another position too.
pub open spec fn has_twin(col: Seq<Seq<char>>, i: int) -> bool {
    exists|j: int| 0 <= j < col.len() && j != i && #[trigger] col[j] == col[i]
}

/// For each entry of `column`, whether the same text occurs elsewhere in it.
pub fn duplicate_flags(column: &Vec<String>) -> (flags: Vec<bool>)
    ensures
        flags.len() == column.len(),
        forall|i: int| 0 <= i < column.len() ==> #[trigger] flags[i] == has_twin(texts(column@), i),
{
    let ghost col = texts(column@);
    let mut flags: Vec<bool> = Vec::new();
    let mut idx: usize = 0;
    while idx < column.len()
        invariant
            idx <= column.len(),
            col == texts(column@),
            flags.len() == idx,
            forall|i: int| 0 <= i < idx ==> #[trigger] flags[i] == has_twin(col, i),
        decreases column.len() - idx,
    {
        let mut duplicated = false;
        let mut j: usize = 0;
        while j < column.len()
            invariant_except_break
                !duplicated,
            invariant
                idx < column.len(),
                j <= column.len(),
                col == texts(column@),
                forall|k: int| 0 <= k < j && k != idx ==> col[k] != col[idx as int],
            ensures
                duplicated ==> has_twin(col, idx as int),
                !duplicated ==> forall|k: int| 0 <= k < column.len() && k != idx ==> col[k] != col[idx as int],
            decreases column.len() - j,
        {
            if j != idx && column[j] == column[idx] {
                assert(col[j as int] == col[idx as int]);
                duplicated = true;
                break;
            }
            j = j + 1;
        }
        proof {
            if !duplicated {
                assert(!has_twin(col, idx as int));
            }
        }
        flags.push(duplicated);
        idx = idx + 1;
    }
    flags
}

/// A row of the report: both names with their duplicate marks, and whether
/// the two marks agree.
#[derive(Debug)]
pub struct DedupRow {
    pub nickname: String,
    pub nickname_dup: bool,
    pub qq_name: String,
    pub qq_name_dup: bool,
    pub dup_eq: bool,
}

/// Column `c` of a table.
pub open spec fn column_texts(records: Seq<Vec<String>>, c: int) -> Seq<Seq<char>> {
    Seq::new(records.len(), |i: int| records[i]@[c]@)
}

/// The report for a table whose records have at least two fields: the first
/// field is the nickname, the second the QQ name.
pub fn mark_duplicates(records: &Vec<Vec<String>>) -> (rows: Vec<DedupRow>)
    requires
        forall|i: int| 0 <= i < records.len() ==> #[trigger] records[i].len() >= 2,
    ensures
        rows.len() == records.len(),
        forall|i: int|
            0 <= i < records.len() ==> {
                let row = #[trigger] rows[i];
                &&& row.nickname@ == records[i]@[0]@
                &&& row.qq_name@ == records[i]@[1]@
                &&& row.nickname_dup == has_twin(column_texts(records@, 0), i)
                &&& row.qq_name_dup == has_twin(column_texts(records@, 1), i)
                &&& row.dup_eq == (row.nickname_dup == row.qq_name_dup)
            },
{
    let mut nicknames: Vec<String> = Vec::new();
    let mut qq_names: Vec<String> = Vec::new();
    let mut i: usize = 0;
    while i < records.len()
        invariant
            i <= records.len(),
            forall|k: int| 0 <= k < records.len() ==> #[trigger] records[k].len() >= 2,
            nicknames.len() == i,
            qq_names.len() == i,
            forall|k: int| 0 <= k < i ==> #[trigger] nicknames[k]@ == records[k]@[0]@,
            forall|k: int| 0 <= k < i ==> #[trigger] qq_names[k]@ == records[k]@[1]@,
        decreases records.len() - i,
    {
        assert(records[i as int].len() >= 2);
        let record = &records[i];
        nicknames.push(record[0].clone());
        qq_names.push(record[1].clone());
        i = i + 1;
    }
    assert(texts(nicknames@) =~= column_texts(records@, 0));
    assert(texts(qq_names@) =~= column_texts(records@, 1));
    let nickname_dup = duplicate_flags(&nicknames);
    let qq_name_dup = duplicate_flags(&qq_names);
    let mut rows: Vec<DedupRow> = Vec::new();
    let mut i: usize = 0;
    while i < records.len()
        invariant
            i <= records.len(),
            nicknames.len() == records.len(),
            qq_names.len() == records.len(),
            nickname_dup.len() == records.len(),
            qq_name_dup.len() == records.len(),
            forall|k: int| 0 <= k < records.len() ==> #[trigger] nicknames[k]@ == records[k]@[0]@,
            forall|k: int| 0 <= k < records.len() ==> #[trigger] qq_names[k]@ == records[k]@[1]@,
            forall|k: int| 0 <= k < records.len() ==> #[trigger] nickname_dup[k] == has_twin(column_texts(records@, 0), k),
            forall|k: int| 0 <= k < records.len() ==> #[trigger] qq_name_dup[k] == has_twin(column_texts(records@, 1), k),
            rows.len() == i,
            forall|k: int|
                0 <= k < i ==> {
                    let row = #[trigger] rows[k];
                    &&& row.nickname@ == records[k]@[0]@
                    &&& row.qq_name@ == records[k]@[1]@
                    &&& row.nickname_dup == has_twin(column_texts(records@, 0), k)
                    &&& row.qq_name_dup == has_twin(column_texts(records@, 1), k)
                    &&& row.dup_eq == (row.nickname_dup == row.qq_name_dup)
                },
        decreases records.len() - i,
    {
        let a = nickname_dup[i];
        let b = qq_name_dup[i];
        rows.push(
            DedupRow {
                nickname: nicknames[i].clone(),
                nickname_dup: a,
                qq_name: qq_names[i].clone(),
                qq_name_dup: b,
                dup_eq: a == b,
            },
        );
        i = i + 1;
    }
    rows
}

/// The text of a mark: `true` or `false`.
pub fn mark_text(b: bool) -> (s: &'static str)
    ensures
        s@ == (if b { "true"@ } else { "false"@ }),
{
    if b {
        "true"
    } else {
        "false"
    }
}

impl DedupRow {
    /// The row as the five fields of an output record.
    pub fn to_record(&self) -> (fields: Vec<String>)
        ensures
            fields.len() == 5,
            fields[0]@ == self.nickname@,
            fields[1]@ == (if self.nickname_dup { "true"@ } else { "false"@ }),
            fields[2]@ == self.qq_name@,
            fields[3]@ == (if self.qq_name_dup { "true"@ } else { "false"@ }),
            fields[4]@ == (if self.dup_eq { "true"@ } else { "false"@ }),
    {
        let mut fields: Vec<String> = Vec::new();
        fields.push(self.nickname.clone());
        fields.push(String::from_str(mark_text(self.nickname_dup)));
        fields.push(self.qq_name.clone());
        fields.push(String::from_str(mark_text(self.qq_name_dup)));
        fields.push(String::from_str(mark_text(self.dup_eq)));
        fields
    }
}

/// The five fields of the output record for a row.
pub open spec fn report_record(row: DedupRow) -> Seq<Seq<char>> {
    seq![
        row.nickname@,
        if row.nickname_dup { "true"@ } else { "false"@ },
        row.qq_name@,
        if row.qq_name_dup { "true"@ } else { "false"@ },
        if row.dup_eq { "true"@ } else { "false"@ },
    ]
}

/// A CSV writer into a byte vector (`csv::Writer<Vec<u8>>`), whose state
/// Verus does not see: what it has written is named below.
#[verifier::external_body]
pub struct CsvWriter {
    inner: csv::Writer<Vec<u8>>,
}

#[verifier::external_type_specification]
#[verifier::external_body]
pub struct ExCsvError(csv::Error);

/// The records written so far into a CSV writer, each as its fields.
pub uninterp spec fn csv_records_written(w: CsvWriter) -> Seq<Seq<Seq<char>>>;

/// A byte that forces quotes around a field: `,` `"` `\r` `\n`.
pub open spec fn csv_special_byte(b: u8) -> bool {
    b == 0x2cu8 || b == 0x22u8 || b == 0x0du8 || b == 0x0au8
}

/// The bytes with every `"` doubled.
pub open spec fn csv_double_quotes(b: Seq<u8>) -> Seq<u8>
    decreases b.len(),
{
    if b.len() == 0 {
        b
    } else {
        (if b[0] == 0x22u8 {
            seq![0x22u8, 0x22u8]
        } else {
            seq![b[0]]
        }) + csv_double_quotes(b.drop_first())
    }
}

/// One field: its UTF-8 bytes, in quotes (inner quotes doubled) when it
/// holds a special byte.
pub open spec fn csv_field(f: Seq<char>) -> Seq<u8> {
    let b = encode_utf8(f);
    if exists|i: int| 0 <= i < b.len() && csv_special_byte(#[trigger] b[i]) {
        seq![0x22u8] + csv_double_quotes(b) + seq![0x22u8]
    } else {
        b
    }
}

/// The fields joined by `,`.
pub open spec fn csv_joined(fields: Seq<Seq<char>>) -> Seq<u8>
    decreases fields.len(),
{
    if fields.len() == 0 {
        Seq::empty()
    } else if fields.len() == 1 {
        csv_field(fields[0])
    } else {
        csv_joined(fields.drop_last()) + seq![0x2cu8] + csv_field(fields.last())
    }
}

/// One record: its joined fields (`""` when they come to nothing), then `\n`.
pub open spec fn csv_record(fields: Seq<Seq<char>>) -> Seq<u8> {
    let joined = csv_joined(fields);
    (if joined.len() == 0 {
        seq![0x22u8, 0x22u8]
    } else {
        joined
    }) + seq![0x0au8]
}

/// The bytes that a CSV writer with the default settings (comma
/// delimiter, `"` quotes where needed, `\n` after each record) produces for
/// the given records, one after the other.
pub open spec fn csv_encoding(records: Seq<Seq<Seq<char>>>) -> Seq<u8>
    decreases records.len(),
{
    if records.len() == 0 {
        Seq::empty()
    } else {
        csv_encoding(records.drop_last()) + csv_record(records.last())
    }
}

/// `csv::WriterBuilder::new().from_writer(vec![])`: a writer with the default
/// settings into an empty byte vector, with no record written yet.
#[verifier::external_body]
fn csv_writer_new() -> (w: CsvWriter)
    ensures
        csv_records_written(w) == Seq::<Seq<Seq<char>>>::empty(),
{
    CsvWriter { inner: csv::WriterBuilder::new().from_writer(vec![]) }
}

/// `csv::Writer::write_record`: on success the writer comes back with the
/// record added to what was written. Writing into a byte vector cannot
/// fail, so the only error left with the default settings is a record whose
/// number of fields differs from that of the first record; a record of the
/// first record's length is always written. A writer whose write failed is
/// not handed back.
#[verifier::external_body]
fn csv_write_record(w: CsvWriter, record: &Vec<String>) -> (res: Result<CsvWriter, csv::Error>)
    requires
        record.len() > 0,
    ensures
        res matches Ok(next) ==> csv_records_written(next) == csv_records_written(w).push(
            texts(record@),
        ),
        csv_records_written(w).len() == 0 || csv_records_written(w)[0].len() == record.len()
            ==> res is Ok,
{
    let mut w = w;
    match w.inner.write_record(record) {
        Ok(()) => Ok(w),
        Err(e) => Err(e),
    }
}

/// `csv::Writer::into_inner`: flushes the writer and hands back the bytes
/// of all records written; flushing into a byte vector cannot fail.
#[verifier::external_body]
fn csv_into_bytes(w: CsvWriter) -> (bytes: Option<Vec<u8>>)
    ensures
        bytes is Some,
        bytes matches Some(b) ==> b@ == csv_encoding(csv_records_written(w)),
{
    match w.inner.into_inner() {
        Ok(bytes) => Some(bytes),
        Err(_) => None,
    }
}

/// The report as CSV text, one record per row, in order.
pub fn encode_report(rows: &Vec<DedupRow>) -> (bytes: Vec<u8>)
    ensures
        bytes@ == csv_encoding(Seq::new(rows.len() as nat, |i: int| report_record(rows[i]))),
{
    let mut writer = csv_writer_new();
    let mut i: usize = 0;
    while i < rows.len()
        invariant
            i <= rows.len(),
            csv_records_written(writer) == Seq::new(i as nat, |k: int| report_record(rows[k])),
        decreases rows.len() - i,
    {
        let record = rows[i].to_record();
        let ghost before = csv_records_written(writer);
        writer = match csv_write_record(writer, &record) {
            Ok(next) => next,
            Err(_) => {
                proof {
                    assert(before.len() > 0 ==> before[0].len() == 5);
                }
                return Vec::new();
            },
        };
        assert(texts(record@) =~= report_record(rows[i as int]));
        assert(csv_records_written(writer) =~= Seq::new((i + 1) as nat, |k: int| report_record(rows[k])));
        i = i + 1;
    }
    match csv_into_bytes(writer) {
        Some(bytes) => bytes,
        None => Vec::new(),
    }
}

/// The fields of each record as texts.
pub open spec fn table_texts(records: Seq<Vec<String>>) -> Seq<Seq<Seq<char>>> {
    records.map_values(|f: Vec<String>| texts(f@))
}

/// The records after the header row that `csv::Reader` with the default
/// settings reads from these bytes, each as its fields; `None` when the
/// reader reports an error.
pub uninterp spec fn csv_rows_of(bytes: Seq<u8>) -> Option<Seq<Seq<Seq<char>>>>;

/// `csv::Reader::from_reader(bytes).into_records()`, every record turned
/// into its fields: the rows after the header, or `None` on the first error.
#[verifier::external_body]
pub(crate) fn csv_read_rows(bytes: &[u8]) -> (rows: Option<Vec<Vec<String>>>)
    ensures
        rows is Some <==> csv_rows_of(bytes@) is Some,
        rows matches Some(r) ==> csv_rows_of(bytes@) == Some(table_texts(r@)),
{
    csv::Reader::from_reader(bytes)
        .into_records()
        .map(|rec| rec.map(|r| r.iter().map(str::to_string).collect::<Vec<String>>()))
        .collect::<Result<Vec<Vec<String>>, csv::Error>>()
        .ok()
}

/// Column `c` of a table of texts.
pub open spec fn text_column(rows: Seq<Seq<Seq<char>>>, c: int) -> Seq<Seq<char>> {
    Seq::new(rows.len(), |i: int| rows[i][c])
}

pub open spec fn mark_of(b: bool) -> Seq<char> {
    if b { "true"@ } else { "false"@ }
}

/// The output records for a table: the nickname, whether it repeats in its
/// column, the QQ name, whether it repeats, and whether the two marks agree.
pub open spec fn dedup_report(rows: Seq<Seq<Seq<char>>>) -> Seq<Seq<Seq<char>>> {
    Seq::new(
        rows.len(),
        |i: int|
            {
                let a = has_twin(text_column(rows, 0), i);
                let b = has_twin(text_column(rows, 1), i);
                seq![rows[i][0], mark_of(a), rows[i][1], mark_of(b), mark_of(a == b)]
            },
    )
}

/// Every row has at least two fields.
pub open spec fn rows_have_two_fields(rows: Seq<Seq<Seq<char>>>) -> bool {
    forall|i: int| 0 <= i < rows.len() ==> #[trigger] rows[i].len() >= 2
}

/// The report, as CSV bytes, for the CSV table `input` (a header row, then
/// one row per person: nickname, QQ name); `None` when the table cannot be
/// read or a row has fewer than two fields.
pub fn dedup_csv(input: &[u8]) -> (out: Option<Vec<u8>>)
    ensures
        match csv_rows_of(input@) {
            None => out is None,
            Some(rows) => if rows_have_two_fields(rows) {
                out matches Some(b) && b@ == csv_encoding(dedup_report(rows))
            } else {
                out is None
            },
        },
{
    let records = match csv_read_rows(input) {
        Some(r) => r,
        None => return None,
    };
    let ghost table = table_texts(records@);
    let mut i: usize = 0;
    while i < records.len()
        invariant
            i <= records.len(),
            table == table_texts(records@),
            csv_rows_of(input@) == Some(table),
            forall|k: int| 0 <= k < i ==> #[trigger] records[k].len() >= 2,
        decreases records.len() - i,
    {
        if records[i].len() < 2 {
            assert(table[i as int] == texts(records[i as int]@));
            assert(table[i as int].len() < 2);
            assert(!(forall|j: int| 0 <= j < table.len() ==> #[trigger] table[j].len() >= 2));
            return None;
        }
        i = i + 1;
    }
    assert forall|k: int| 0 <= k < table.len() implies #[trigger] table[k].len() >= 2 by {
        assert(records[k].len() >= 2);
    }
    let rows = mark_duplicates(&records);
    let bytes = encode_report(&rows);
    assert(text_column(table, 0) =~= column_texts(records@, 0));
    assert(text_column(table, 1) =~= column_texts(records@, 1));
    assert(Seq::new(rows.len() as nat, |k: int| report_record(rows[k])) =~= dedup_report(table)) by {
        assert forall|k: int| 0 <= k < rows.len() implies #[trigger] report_record(rows[k]) =~= dedup_report(table)[k] by {
            assert(table[k] == texts(records[k]@));
        }
    }
    Some(bytes)
}

/// Each record of the report holds, for its row: the nickname; `true` when
/// another row has the same nickname, else `false`; the QQ name; `true` when
/// another row has the same QQ name, else `false`; and `true` exactly when
/// those two marks are the same (so `true` for a row whose names are both
/// unique).
pub proof fn lemma_dedup_report_fields(rows: Seq<Seq<Seq<char>>>)
    requires
        rows_have_two_fields(rows),
    ensures
        dedup_report(rows).len() == rows.len(),
        forall|i: int|
            0 <= i < rows.len() ==> {
                let r = #[trigger] dedup_report(rows)[i];
                &&& r.len() == 5
                &&& r[0] == rows[i][0]
                &&& r[2] == rows[i][1]
                &&& r[1] == "true"@ || r[1] == "false"@
                &&& r[3] == "true"@ || r[3] == "false"@
                &&& r[4] == "true"@ || r[4] == "false"@
                &&& (r[1] == "true"@ <==> exists|j: int|
                    0 <= j < rows.len() && j != i && rows[j][0] == rows[i][0])
                &&& (r[3] == "true"@ <==> exists|j: int|
                    0 <= j < rows.len() && j != i && rows[j][1] == rows[i][1])
                &&& (r[4] == "true"@ <==> r[1] == r[3])
            },
{
    reveal_strlit("true");
    reveal_strlit("false");
    assert("true"@ != "false"@) by {
        assert("true"@.len() != "false"@.len());
    }
    assert forall|i: int| 0 <= i < rows.len() implies {
        let r = #[trigger] dedup_report(rows)[i];
        &&& r.len() == 5
        &&& r[0] == rows[i][0]
        &&& r[2] == rows[i][1]
        &&& r[1] == "true"@ || r[1] == "false"@
        &&& r[3] == "true"@ || r[3] == "false"@
        &&& r[4] == "true"@ || r[4] == "false"@
        &&& (r[1] == "true"@ <==> exists|j: int| 0 <= j < rows.len() && j != i && rows[j][0] == rows[i][0])
        &&& (r[3] == "true"@ <==> exists|j: int| 0 <= j < rows.len() && j != i && rows[j][1] == rows[i][1])
        &&& (r[4] == "true"@ <==> r[1] == r[3])
    } by {
        let c0 = text_column(rows, 0);
        let c1 = text_column(rows, 1);
        if exists|j: int| 0 <= j < rows.len() && j != i && rows[j][0] == rows[i][0] {
            let j = choose|j: int| 0 <= j < rows.len() && j != i && rows[j][0] == rows[i][0];
            assert(c0[j] == c0[i]);
        }
        if has_twin(c0, i) {
            let j = choose|j: int| 0 <= j < c0.len() && j != i && #[trigger] c0[j] == c0[i];
            assert(rows[j][0] == rows[i][0]);
        }
        if exists|j: int| 0 <= j < rows.len() && j != i && rows[j][1] == rows[i][1] {
            let j = choose|j: int| 0 <= j < rows.len() && j != i && rows[j][1] == rows[i][1];
            assert(c1[j] == c1[i]);
        }
        if has_twin(c1, i) {
            let j = choose|j: int| 0 <= j < c1.len() && j != i && #[trigger] c1[j] == c1[i];
            assert(rows[j][1] == rows[i][1]);
        }
    }
}

} // verus!
