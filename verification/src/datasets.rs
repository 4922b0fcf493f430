//! Datasets read from CSV text: a header row names the columns, and field `k` of
//! each record belongs to column `k`.
use crate::plate_mapping::texts;
use crate::text::push_str;
use vstd::prelude::*;

verus! {

/// An error of the `csv` reader.
#[verifier::external_type_specification]
#[verifier::external_body]
pub struct ExCsvError(csv::Error);

/// The header row and the records that the `csv` crate reads from `text` with
/// its default settings (comma separated, a header row, every record as long as
/// the header), each field as text; `None` when the reader reports an error.
pub uninterp spec fn csv_table(text: Seq<u8>) -> Option<(Seq<Seq<char>>, Seq<Seq<Seq<char>>>)>;

/// The texts of the fields of each record.
pub open spec fn record_texts(records: Seq<Vec<String>>) -> Seq<Seq<Seq<char>>> {
    records.map_values(|r: Vec<String>| texts(r@))
}

/// Reads the header row and every record of the CSV `text` with
/// `csv::ReaderBuilder`'s defaults (`headers`, then `records`), stopping at the
/// first error the reader reports. The result is the one `csv_table` names.
#[verifier::external_body]
fn read_csv_table(text: &[u8]) -> (r: Result<(Vec<String>, Vec<Vec<String>>), csv::Error>)
    ensures
        r matches Ok((h, rs)) ==> csv_table(text@) == Some((texts(h@), record_texts(rs@))),
        r is Err ==> csv_table(text@) is None,
{
    let mut reader = csv::ReaderBuilder::new().from_reader(text);
    let headers: Vec<String> = reader.headers()?.iter().map(String::from).collect();
    let records: Result<Vec<Vec<String>>, csv::Error> =
        reader.records().map(|r| r.map(|record| record.iter().map(String::from).collect())).collect();
    Ok((headers, records?))
}

/// Every record has at most as many fields as there are headers.
pub open spec fn fits_header(n_headers: nat, records: Seq<Seq<Seq<char>>>) -> bool {
    forall|j: int| 0 <= j < records.len() ==> (#[trigger] records[j]).len() <= n_headers
}

/// Field `k` of each of the first `end` records that has one, in record order.
pub open spec fn column_fields(records: Seq<Seq<Seq<char>>>, k: int, end: int) -> Seq<Seq<char>>
    decreases end,
{
    if end <= 0 {
        Seq::empty()
    } else if k < records[end - 1].len() {
        column_fields(records, k, end - 1).push(records[end - 1][k])
    } else {
        column_fields(records, k, end - 1)
    }
}

/// The message for a record longer than the header row.
pub open spec fn too_many_fields_message() -> Seq<char> {
    "record has more fields than the header"@
}

/// The number of records, and each header with its column's fields: field `k`
/// of each record, in record order. A record with more fields than there are
/// headers is refused.
pub fn dataset_fields(headers: &Vec<String>, records: &Vec<Vec<String>>) -> (r: Result<(usize, Vec<(String, Vec<String>)>), String>)
    ensures
        r is Ok <==> fits_header(headers@.len(), record_texts(records@)),
        r matches Err(m) ==> m@ == too_many_fields_message(),
        r matches Ok((n, columns)) ==> {
            &&& n == records@.len()
            &&& columns@.len() == headers@.len()
            &&& forall|k: int| 0 <= k < headers@.len() ==> (#[trigger] columns@[k]).0@ == headers@[k]@
                && texts(columns@[k].1@) == column_fields(record_texts(records@), k, records@.len() as int)
        },
{
    let ghost rt = record_texts(records@);
    let mut j: usize = 0;
    while j < records.len()
        invariant
            j <= records@.len(),
            rt == record_texts(records@),
            forall|q: int| 0 <= q < j ==> (#[trigger] rt[q]).len() <= headers@.len(),
        decreases records@.len() - j,
    {
        if records[j].len() > headers.len() {
            proof { reveal_strlit("record has more fields than the header"); }
            let mut m = String::new();
            push_str(&mut m, "record has more fields than the header");
            assert(rt[j as int].len() > headers@.len());
            return Err(m);
        }
        j = j + 1;
    }
    let mut columns: Vec<(String, Vec<String>)> = Vec::new();
    let mut k: usize = 0;
    while k < headers.len()
        invariant
            k <= headers@.len(),
            rt == record_texts(records@),
            columns@.len() == k,
            forall|c: int| 0 <= c < k ==> (#[trigger] columns@[c]).0@ == headers@[c]@
                && texts(columns@[c].1@) == column_fields(rt, c, records@.len() as int),
        decreases headers@.len() - k,
    {
        let mut fields: Vec<String> = Vec::new();
        let mut j: usize = 0;
        while j < records.len()
            invariant
                j <= records@.len(),
                k < headers@.len(),
                rt == record_texts(records@),
                texts(fields@) == column_fields(rt, k as int, j as int),
            decreases records@.len() - j,
        {
            let ghost before = fields@;
            if k < records[j].len() {
                fields.push(records[j][k].clone());
                assert(texts(fields@) =~= texts(before).push(records@[j as int]@[k as int]@));
            }
            assert(rt[j as int] == texts(records@[j as int]@));
            j = j + 1;
        }
        columns.push((headers[k].clone(), fields));
        k = k + 1;
    }
    Ok((records.len(), columns))
}

/// Why a dataset could not be read.
#[derive(Debug)]
pub enum DatasetError {
    /// The CSV reader refused the text.
    Csv(csv::Error),
    /// A record has more fields than there are headers.
    Shape(String),
}

/// Reads a dataset from CSV `text`: the number of records and the fields of each
/// column, as `dataset_fields` gives them for what the CSV reader read.
pub fn parse_dataset(text: &[u8]) -> (r: Result<(usize, Vec<(String, Vec<String>)>), DatasetError>)
    ensures
        csv_table(text@) is None <==> (r is Err && r->Err_0 is Csv),
        csv_table(text@) matches Some((h, rs)) ==> {
            &&& r is Ok <==> fits_header(h.len(), rs)
            &&& r matches Err(DatasetError::Shape(m)) ==> m@ == too_many_fields_message()
            &&& r matches Ok((n, columns)) ==> {
                &&& n == rs.len()
                &&& columns@.len() == h.len()
                &&& forall|k: int| 0 <= k < h.len() ==> (#[trigger] columns@[k]).0@ == h[k]
                    && texts(columns@[k].1@) == column_fields(rs, k, rs.len() as int)
            }
        },
{
    match read_csv_table(text) {
        Err(e) => Err(DatasetError::Csv(e)),
        Ok((headers, records)) => {
            proof {
                assert forall|k: int| 0 <= k < headers@.len() implies headers@[k]@ == texts(headers@)[k] by {}
            }
            match dataset_fields(&headers, &records) {
                Ok(fields) => Ok(fields),
                Err(m) => Err(DatasetError::Shape(m)),
            }
        },
    }
}

} // verus!
