//! Turning CSV text into an array of row objects keyed by the header.

use vstd::prelude::*;
use crate::error::DataError;
use crate::text::views;
use crate::value::{
    insert, lemma_insert_wf, lemma_view_entries, lemma_view_items, object_insert, view_entries,
    view_items, wf, wf_entries, Json, Value,
};

verus! {

/// The header and the records of a CSV text.
#[derive(Debug, Clone)]
pub struct CsvParseResult {
    pub headers: Vec<String>,
    pub rows: Vec<Vec<String>>,
}

/// The header and records that CSV text holds (records may be shorter or
/// longer than the header), or `None` where the text is not CSV.
pub uninterp spec fn csv_table(text: Seq<char>) -> Option<(Seq<Seq<char>>, Seq<Seq<Seq<char>>>)>;

pub open spec fn table_view(t: CsvParseResult) -> (Seq<Seq<char>>, Seq<Seq<Seq<char>>>) {
    (views(t.headers@), t.rows@.map_values(|r: Vec<String>| views(r@)))
}

/// Relies on the csv crate's reader, with a header line and records of any
/// length: the header and records it reads depend on the text alone.
#[verifier::external_body]
fn read_csv(text: &str) -> (r: Result<CsvParseResult, String>)
    ensures
        match csv_table(text@) {
            Some(t) => r is Ok && table_view(r->Ok_0) == t,
            None => r is Err,
        },
{
    let mut rdr = csv::ReaderBuilder::new().has_headers(true).flexible(true).from_reader(
        text.as_bytes(),
    );
    let headers = rdr.headers().map_err(|e| e.to_string())?.iter().map(|s| s.to_string()).collect();
    let rows = rdr.records().map(
        |rec| rec.map(|r| r.iter().map(|s| s.to_string()).collect()).map_err(|e| e.to_string()),
    ).collect::<Result<Vec<Vec<String>>, String>>()?;
    Ok(CsvParseResult { headers, rows })
}

/// A record as an object: the field at each position under the header name
/// at that position; fields past the header are dropped, and a repeated
/// header name keeps its last field.
pub open spec fn row_entries(headers: Seq<Seq<char>>, fields: Seq<Seq<char>>) -> Seq<
    (Seq<char>, Json),
>
    decreases fields.len(),
{
    if fields.len() == 0 {
        Seq::empty()
    } else if fields.len() > headers.len() {
        row_entries(headers, fields.take(headers.len() as int))
    } else {
        let i = fields.len() - 1;
        insert(row_entries(headers, fields.drop_last()), headers[i], Json::String(fields[i]))
    }
}

pub open spec fn table_json(t: (Seq<Seq<char>>, Seq<Seq<Seq<char>>>)) -> Json {
    Json::Array(t.1.map_values(|r: Seq<Seq<char>>| Json::Object(row_entries(t.0, r))))
}

proof fn lemma_row_entries_wf(headers: Seq<Seq<char>>, fields: Seq<Seq<char>>)
    ensures
        wf_entries(row_entries(headers, fields)),
    decreases fields.len(),
{
    if fields.len() == 0 {
        assert(wf_entries(Seq::empty()));
    } else if fields.len() > headers.len() {
        lemma_row_entries_wf(headers, fields.take(headers.len() as int));
    } else {
        let i = fields.len() - 1;
        lemma_row_entries_wf(headers, fields.drop_last());
        lemma_insert_wf(row_entries(headers, fields.drop_last()), headers[i], Json::String(fields[i]));
    }
}

/// The rows of any table are well-formed objects.
pub proof fn table_json_is_well_formed(t: (Seq<Seq<char>>, Seq<Seq<Seq<char>>>))
    ensures
        wf(table_json(t)),
{
    let a = t.1.map_values(|r: Seq<Seq<char>>| Json::Object(row_entries(t.0, r)));
    assert forall|i: int| 0 <= i < a.len() implies wf(#[trigger] a[i]) by {
        lemma_row_entries_wf(t.0, t.1[i]);
    }
}

fn row_to_object(headers: &Vec<String>, fields: &Vec<String>) -> (r: Value)
    ensures
        r@ == Json::Object(row_entries(views(headers@), views(fields@))),
{
    let ghost h = views(headers@);
    let ghost f = views(fields@);
    let n = if fields.len() < headers.len() {
        fields.len()
    } else {
        headers.len()
    };
    let mut entries: Vec<(String, Value)> = Vec::new();
    let mut i: usize = 0;
    proof {
        assert(view_entries(entries@) =~= Seq::<(Seq<char>, Json)>::empty());
        assert(f.take(0) =~= Seq::<Seq<char>>::empty());
    }
    while i < n
        invariant
            i <= n,
            n <= fields.len(),
            n <= headers.len(),
            h == views(headers@),
            f == views(fields@),
            view_entries(entries@) == row_entries(h, f.take(i as int)),
        decreases n - i,
    {
        proof {
            assert(f.take(i + 1).drop_last() =~= f.take(i as int));
            assert(f.take(i + 1)[i as int] == fields@[i as int]@);
            assert(h[i as int] == headers@[i as int]@);
        }
        object_insert(&mut entries, headers[i].clone(), Value::String(fields[i].clone()));
        i += 1;
    }
    proof {
        if fields.len() > headers.len() {
            assert(f.take(h.len() as int) == f.take(i as int));
        } else {
            assert(f.take(i as int) =~= f);
        }
    }
    Value::Object(entries)
}

/// The records of a table as objects keyed by the header, in order.
pub fn rows_to_objects(table: &CsvParseResult) -> (r: Value)
    ensures
        r@ == table_json(table_view(*table)),
{
    let ghost t = table_view(*table);
    let mut out: Vec<Value> = Vec::new();
    let mut i: usize = 0;
    while i < table.rows.len()
        invariant
            i <= table.rows.len(),
            t == table_view(*table),
            out.len() == i,
            forall|j: int|
                0 <= j < i ==> #[trigger] out@[j]@ == Json::Object(
                    row_entries(t.0, t.1[j]),
                ),
        decreases table.rows.len() - i,
    {
        let o = row_to_object(&table.headers, &table.rows[i]);
        out.push(o);
        i += 1;
    }
    proof {
        lemma_view_items(out@);
        assert(view_items(out@) =~= t.1.map_values(
            |r: Seq<Seq<char>>| Json::Object(row_entries(t.0, r)),
        ));
    }
    Value::Array(out)
}

/// Reads CSV text with a header line into an array of row objects.
pub fn parse_csv(text: &str) -> (r: Result<Value, DataError>)
    ensures
        match csv_table(text@) {
            Some(t) => r is Ok && r->Ok_0@ == table_json(t),
            None => r matches Err(DataError::CsvSyntax(_)),
        },
        r matches Ok(v) ==> wf(v@),
{
    proof {
        if let Some(t) = csv_table(text@) {
            table_json_is_well_formed(t);
        }
    }
    match read_csv(text) {
        Ok(table) => Ok(rows_to_objects(&table)),
        Err(e) => Err(DataError::CsvSyntax(e)),
    }
}

} // verus!
