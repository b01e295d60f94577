//! Tables of text fields and their rendering as comma-separated values.
//!
//! The encoding itself (which fields are quoted, and how) is the work of the
//! `csv` crate. This module hands it the records one by one and takes the
//! text back.

use vstd::prelude::*;
use vstd::string::*;
use crate::error::{ErrorView, IpCalcError, Result};
use crate::text::string_views;

verus! {

/// A writer of the `csv` crate that collects what it writes in memory.
#[verifier::external_body]
pub struct CsvWriter {
    inner: csv::Writer<Vec<u8>>,
}

/// The records that a writer has completed, each a list of fields. A record
/// is completed when its terminator has been written.
pub uninterp spec fn written_records(w: CsvWriter) -> Seq<Seq<Seq<char>>>;

/// A record is open: the writer has taken fields of a record that it has
/// not completed, as it does when it refuses a record for its number of
/// fields.
pub uninterp spec fn record_open(w: CsvWriter) -> bool;

/// The text that the `csv` crate makes of a list of records, written with
/// its default settings.
pub uninterp spec fn csv_text(records: Seq<Seq<Seq<char>>>) -> Seq<char>;

/// The views of a table of strings.
pub open spec fn table_views(rows: Seq<Vec<String>>) -> Seq<Seq<Seq<char>>> {
    rows.map_values(|r: Vec<String>| string_views(r@))
}

/// Every row has as many fields as the first one.
pub open spec fn uniform(rows: Seq<Seq<Seq<char>>>) -> bool {
    forall|i: int| 0 <= i < rows.len() ==> (#[trigger] rows[i]).len() == rows[0].len()
}

/// Calls `csv::Writer::from_writer` on an empty vector of bytes. The new
/// writer has completed no record and has none open.
#[verifier::external_body]
fn new_writer() -> (w: CsvWriter)
    ensures
        written_records(w) == Seq::<Seq<Seq<char>>>::empty(),
        !record_open(w),
{
    CsvWriter { inner: csv::Writer::from_writer(Vec::new()) }
}

/// Calls `csv::Writer::write_record` with the fields of one record, on a
/// writer that has no record open. The writer, which writes to memory and
/// keeps its default settings, refuses a record exactly when it has
/// completed a record before and the number of fields differs from that of
/// the first one. Where the call succeeds, the writer has completed one more
/// record, with these fields, and has none open. The error comes back as
/// its message; nothing is claimed of the writer after it, since the fields
/// of the refused record stay behind.
#[verifier::external_body]
fn write_record(w: &mut CsvWriter, fields: &Vec<String>) -> (r: core::result::Result<(), String>)
    requires
        !record_open(*old(w)),
    ensures
        r is Ok <==> (written_records(*old(w)).len() == 0 || fields@.len() == written_records(
            *old(w),
        )[0].len()),
        r is Ok ==> written_records(*final(w)) == written_records(*old(w)).push(
            string_views(fields@),
        ) && !record_open(*final(w)),
{
    w.inner.write_record(fields).map_err(|e| e.to_string())
}

/// Calls `csv::Writer::into_inner` on a writer that has no record open,
/// which flushes the writer and hands out the bytes it wrote, and reads them
/// as UTF-8 with `String::from_utf8`. Both succeed: the bytes go to memory,
/// and they are the bytes of the fields, which are strings, with quotes,
/// commas and line feeds between them. The text is what the crate makes of
/// the records that were completed.
#[verifier::external_body]
fn finish_writer(w: CsvWriter) -> (r: core::result::Result<String, String>)
    requires
        !record_open(w),
    ensures
        r is Ok,
        r matches Ok(text) ==> text@ == csv_text(written_records(w)),
{
    match w.inner.into_inner() {
        Ok(bytes) => String::from_utf8(bytes).map_err(|e| e.to_string()),
        Err(e) => Err(e.to_string()),
    }
}

/// What rendering a table yields, given what the writer made of it: the
/// comment lines followed by the writer's text, or the writer's error as a
/// CSV error.
pub open spec fn assembled(comments: Seq<char>, written: core::result::Result<
    Seq<char>,
    Seq<char>,
>) -> core::result::Result<Seq<char>, ErrorView> {
    match written {
        Ok(text) => Ok(comments + text),
        Err(message) => Err(ErrorView::Csv(message)),
    }
}

/// A text or an error, as views.
pub open spec fn text_outcome(r: Result<String>) -> core::result::Result<Seq<char>, ErrorView> {
    match r {
        Ok(s) => Ok(s@),
        Err(e) => Err(e@),
    }
}

/// A text or a message, as views.
pub open spec fn written_outcome(r: core::result::Result<String, String>) -> core::result::Result<
    Seq<char>,
    Seq<char>,
> {
    match r {
        Ok(s) => Ok(s@),
        Err(m) => Err(m@),
    }
}

/// Puts the comment lines before the text of a table, or turns the
/// writer's message into a CSV error.
pub fn assemble(comments: &str, written: core::result::Result<String, String>) -> (r: Result<
    String,
>)
    ensures
        text_outcome(r) == assembled(comments@, written_outcome(written)),
{
    match written {
        Ok(text) => {
            let mut out = String::new();
            out.append(comments);
            out.append(text.as_str());
            assert(out@ =~= comments@ + text@);
            Ok(out)
        },
        Err(message) => Err(IpCalcError::Csv(message)),
    }
}

/// Renders a table as comma-separated values, after the given comment
/// lines. The first row is the header. Where every row has as many fields
/// as the first, the result is the comment lines followed by what the `csv`
/// crate makes of the rows; where a row differs, it is a CSV error.
pub fn render_csv(comments: &str, rows: &Vec<Vec<String>>) -> (r: Result<String>)
    ensures
        uniform(table_views(rows@)) ==> (r matches Ok(s) && s@ == comments@ + csv_text(
            table_views(rows@),
        )),
        !uniform(table_views(rows@)) ==> (r matches Err(e) && e@ is Csv),
{
    let ghost views = table_views(rows@);
    let mut writer = new_writer();
    let mut i: usize = 0;
    proof {
        assert(views.take(0) =~= Seq::<Seq<Seq<char>>>::empty());
    }
    while i < rows.len()
        invariant
            0 <= i <= rows.len(),
            views == table_views(rows@),
            written_records(writer) == views.take(i as int),
            !record_open(writer),
            forall|j: int| 0 <= j < i ==> (#[trigger] views[j]).len() == views[0].len(),
        decreases rows.len() - i,
    {
        proof {
            assert(views[i as int] == string_views(rows@[i as int]@));
            if i > 0 {
                assert(views.take(i as int)[0] == views[0]);
            }
        }
        match write_record(&mut writer, &rows[i]) {
            Ok(()) => {},
            Err(message) => {
                proof {
                    assert(views[i as int].len() != views[0].len());
                }
                return Err(IpCalcError::Csv(message));
            },
        }
        proof {
            assert(views.take(i + 1) =~= views.take(i as int).push(views[i as int]));
        }
        i = i + 1;
    }
    proof {
        assert(views.take(rows@.len() as int) =~= views);
    }
    assemble(comments, finish_writer(writer))
}

} // verus!
