//! Reading a transaction file: semicolon-delimited records without a header
//! row, four fields each: description, date, category, amount.

use crate::amount::{amount_value, parse_amount};
use crate::timestamp::Timestamp;
use crate::transaction::{Entry, Transaction};
use vstd::prelude::*;

verus! {

/// The records that the csv crate reads from the bytes of a file, with `;` as
/// the delimiter, no header row, and any number of fields in a record. Each
/// record is the text of its fields in order; a record that is not valid UTF-8
/// is nothing.
pub uninterp spec fn csv_records(content: Seq<u8>) -> Seq<Option<Seq<Seq<char>>>>;

/// Splits the bytes of a file into records with a reader of the csv crate:
/// `ReaderBuilder` with `has_headers(false)`, `delimiter(b';')` and
/// `flexible(true)`, read through `records()`.
///
/// Trusted: the result is what that reader yields, each record as the strings
/// of its fields and each record that it reports as an error as `None`.
#[verifier::external_body]
fn read_records(content: &[u8]) -> (records: Vec<Option<Vec<String>>>)
    ensures
        records.deep_view() == csv_records(content@),
{
    let mut reader = csv::ReaderBuilder::new()
        .has_headers(false)
        .delimiter(b';')
        .flexible(true)
        .from_reader(content);
    reader.records().map(|r| r.ok().map(|s| s.iter().map(String::from).collect())).collect()
}

/// The transaction that four fields and the reading of the date field make:
/// there is one if there are exactly four fields, the date was read, and the
/// fourth field writes an amount.
pub open spec fn assembled(fields: Seq<Seq<char>>, date: Option<Timestamp>) -> Option<Entry> {
    if fields.len() == 4 && date is Some && amount_value(fields[3]) is Some {
        Some(
            Entry {
                description: fields[0],
                date: date->0,
                category: fields[2],
                amount: amount_value(fields[3])->0,
            },
        )
    } else {
        None
    }
}

/// The transaction that the fields of a record write, if they are well
/// formed: four fields, of which the second writes a timestamp and the fourth
/// an amount.
pub open spec fn decoded(fields: Seq<Seq<char>>) -> Option<Entry> {
    if fields.len() == 4 {
        assembled(fields, Timestamp::reading(fields[1]))
    } else {
        None
    }
}

/// The transaction of a record, if the record could be read and is well
/// formed.
pub open spec fn record_entry(record: Option<Seq<Seq<char>>>) -> Option<Entry> {
    match record {
        Some(fields) => decoded(fields),
        None => None,
    }
}

/// The transactions of the well-formed records, in the order of the records.
pub open spec fn well_formed(records: Seq<Option<Seq<Seq<char>>>>) -> Seq<Entry>
    decreases records.len(),
{
    if records.len() == 0 {
        Seq::empty()
    } else {
        match record_entry(records.last()) {
            Some(entry) => well_formed(records.drop_last()).push(entry),
            None => well_formed(records.drop_last()),
        }
    }
}

/// The number of malformed records.
pub open spec fn malformed(records: Seq<Option<Seq<Seq<char>>>>) -> nat
    decreases records.len(),
{
    if records.len() == 0 {
        0
    } else if record_entry(records.last()) is Some {
        malformed(records.drop_last())
    } else {
        malformed(records.drop_last()) + 1
    }
}

/// Whether the date of every transaction is a calendar date and a time of
/// day.
pub open spec fn all_civil(transactions: Seq<Transaction>) -> bool {
    forall|i: int| 0 <= i < transactions.len() ==> (#[trigger] transactions[i]).date.is_civil()
}

/// Every record is either well formed or malformed.
pub proof fn lemma_records_accounted(records: Seq<Option<Seq<Seq<char>>>>)
    ensures
        well_formed(records).len() + malformed(records) == records.len(),
    decreases records.len(),
{
    if records.len() > 0 {
        lemma_records_accounted(records.drop_last());
    }
}

/// Builds a transaction from the fields of a record and the timestamp that
/// was read from its date field.
pub fn assemble(fields: &Vec<String>, date: Option<Timestamp>) -> (r: Option<Transaction>)
    ensures
        r.deep_view() == assembled(fields.deep_view(), date),
        r matches Some(transaction) ==> Some(transaction.date) == date,
{
    if fields.len() != 4 {
        return None;
    }
    let date = match date {
        Some(date) => date,
        None => {
            return None;
        },
    };
    let amount = match parse_amount(fields[3].as_str()) {
        Some(amount) => amount,
        None => {
            return None;
        },
    };
    Some(
        Transaction {
            description: fields[0].clone(),
            date,
            category: fields[2].clone(),
            amount,
        },
    )
}

/// Decodes the fields of one record.
pub fn decode_record(fields: &Vec<String>) -> (r: Option<Transaction>)
    ensures
        r.deep_view() == decoded(fields.deep_view()),
        r matches Some(transaction) ==> transaction.date.is_civil(),
{
    if fields.len() != 4 {
        return None;
    }
    let date = Timestamp::parse(fields[1].as_str());
    assemble(fields, date)
}

/// Decodes records: the transactions of the well-formed ones in order, and
/// the number of the others.
pub fn decode_records(records: &Vec<Option<Vec<String>>>) -> (r: (Vec<Transaction>, usize))
    ensures
        r.0.deep_view() == well_formed(records.deep_view()),
        r.1 == malformed(records.deep_view()),
        r.0.len() + r.1 == records.len(),
        all_civil(r.0@),
{
    let mut transactions: Vec<Transaction> = Vec::new();
    let mut skipped: usize = 0;
    let ghost all = records.deep_view();
    for i in 0..records.len()
        invariant
            all == records.deep_view(),
            transactions.deep_view() == well_formed(all.take(i as int)),
            skipped == malformed(all.take(i as int)),
            transactions.len() + skipped == i,
            all_civil(transactions@),
    {
        let ghost before = transactions.deep_view();
        proof {
            assert(all.take(i + 1).drop_last() =~= all.take(i as int));
            assert(all.take(i + 1).last() == records[i as int].deep_view());
        }
        let decoded = match &records[i] {
            Some(fields) => decode_record(fields),
            None => None,
        };
        match decoded {
            Some(transaction) => {
                transactions.push(transaction);
                assert(transactions.deep_view() =~= before.push(transaction@));
            },
            None => {
                skipped = skipped + 1;
            },
        }
    }
    proof {
        assert(all.take(records.len() as int) =~= all);
    }
    (transactions, skipped)
}

/// Reads the transactions of a file from its bytes.
///
/// A record is malformed if it does not have exactly four fields, if its date
/// is not a timestamp, if its amount is not a decimal numeral, or if it is not
/// valid UTF-8. Malformed records are left out and counted; the others come
/// back in the order of the file.
pub fn parse(content: &[u8]) -> (r: (Vec<Transaction>, usize))
    ensures
        r.0.deep_view() == well_formed(csv_records(content@)),
        r.1 == malformed(csv_records(content@)),
        r.0.len() + r.1 == csv_records(content@).len(),
        all_civil(r.0@),
{
    let records = read_records(content);
    decode_records(&records)
}

/// The place of a malformed record among the records of a file, counted
/// from zero.
#[derive(Debug, Clone, Copy, PartialEq, Eq, Structural)]
pub struct Malformed {
    pub record: usize,
}

/// Whether every record is well formed.
pub open spec fn all_well_formed(records: Seq<Option<Seq<Seq<char>>>>) -> bool {
    forall|i: int| 0 <= i < records.len() ==> record_entry(#[trigger] records[i]) is Some
}

/// Decodes records that must all be well formed: their transactions in
/// order, or the place of the first malformed record.
pub fn decode_records_strict(records: &Vec<Option<Vec<String>>>) -> (r: Result<
    Vec<Transaction>,
    Malformed,
>)
    ensures
        r is Ok <==> all_well_formed(records.deep_view()),
        r matches Ok(transactions) ==> transactions.deep_view() == well_formed(
            records.deep_view(),
        ) && transactions.len() == records.len() && all_civil(transactions@),
        r matches Err(first) ==> first.record < records.len() && record_entry(
            records.deep_view()[first.record as int],
        ) is None && all_well_formed(records.deep_view().take(first.record as int)),
{
    let mut transactions: Vec<Transaction> = Vec::new();
    let ghost all = records.deep_view();
    for i in 0..records.len()
        invariant
            all == records.deep_view(),
            transactions.deep_view() == well_formed(all.take(i as int)),
            transactions.len() == i,
            all_well_formed(all.take(i as int)),
            all_civil(transactions@),
    {
        let ghost before = transactions.deep_view();
        proof {
            assert(all.take(i + 1).drop_last() =~= all.take(i as int));
            assert(all.take(i + 1).last() == records[i as int].deep_view());
        }
        let decoded = match &records[i] {
            Some(fields) => decode_record(fields),
            None => None,
        };
        match decoded {
            Some(transaction) => {
                transactions.push(transaction);
                proof {
                    assert(transactions.deep_view() =~= before.push(transaction@));
                    assert forall|k: int| 0 <= k < i + 1 implies record_entry(
                        #[trigger] all.take(i + 1)[k],
                    ) is Some by {
                        if k < i {
                            assert(all.take(i as int)[k] == all.take(i + 1)[k]);
                        }
                    }
                }
            },
            None => {
                return Err(Malformed { record: i });
            },
        }
    }
    proof {
        assert(all.take(records.len() as int) =~= all);
    }
    Ok(transactions)
}

/// Reads the transactions of a file from its bytes, all or none: the
/// transactions in the order of the file if every record is well formed, and
/// else the place of the first malformed record.
pub fn parse_strict(content: &[u8]) -> (r: Result<Vec<Transaction>, Malformed>)
    ensures
        r is Ok <==> all_well_formed(csv_records(content@)),
        r matches Ok(transactions) ==> transactions.deep_view() == well_formed(
            csv_records(content@),
        ) && transactions.len() == csv_records(content@).len() && all_civil(transactions@),
        r matches Err(first) ==> first.record < csv_records(content@).len() && record_entry(
            csv_records(content@)[first.record as int],
        ) is None && all_well_formed(csv_records(content@).take(first.record as int)),
{
    let records = read_records(content);
    decode_records_strict(&records)
}

} // verus!
