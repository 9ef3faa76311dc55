//! Rows as the `csv` crate hands them over.

use vstd::prelude::*;

verus! {

/// `csv::StringRecord`, a row of text fields; nothing is known of it but
/// what `fields_of` names.
#[verifier::external_type_specification]
#[verifier::external_body]
pub struct ExStringRecord(csv::StringRecord);

/// The fields of a record, in order.
pub uninterp spec fn fields_of(r: csv::StringRecord) -> Seq<Seq<char>>;

/// `StringRecord::len` returns the number of fields in the record.
pub assume_specification[ csv::StringRecord::len ](r: &csv::StringRecord) -> (n: usize)
    ensures
        n == fields_of(*r).len(),
;

/// `StringRecord::get` returns the field at index `i`, and `None` where the
/// record has no such field.
pub assume_specification<'a>[ csv::StringRecord::get ](r: &'a csv::StringRecord, i: usize) -> (f:
    Option<&'a str>)
    ensures
        match f {
            Some(s) => i < fields_of(*r).len() && s@ == fields_of(*r)[i as int],
            None => i >= fields_of(*r).len(),
        },
;

/// The cell of a row at a position: a row that is too short reads as empty
/// there.
pub open spec fn cell(row: Seq<Seq<char>>, i: int) -> Seq<char> {
    if 0 <= i < row.len() {
        row[i]
    } else {
        Seq::empty()
    }
}

/// The cells of the column at place `i`, row by row.
pub open spec fn column_of(rows: Seq<Seq<Seq<char>>>, i: int) -> Seq<Seq<char>> {
    Seq::new(rows.len(), |k: int| cell(rows[k], i))
}

/// The rows that a list of records stands for.
pub open spec fn rows_of(records: Seq<csv::StringRecord>) -> Seq<Seq<Seq<char>>> {
    Seq::new(records.len(), |k: int| fields_of(records[k]))
}

/// The cell of `record` at position `i`.
pub fn field(record: &csv::StringRecord, i: usize) -> (s: &str)
    ensures
        s@ == cell(fields_of(*record), i as int),
{
    match record.get(i) {
        Some(s) => s,
        None => {
            proof {
                reveal_strlit("");
            }
            assert(""@ =~= Seq::<char>::empty());
            ""
        },
    }
}

/// The texts of a list of strings.
pub open spec fn texts(v: Seq<String>) -> Seq<Seq<char>> {
    Seq::new(v.len(), |i: int| v[i]@)
}

/// The fields of `record` as strings.
pub fn field_names(record: &csv::StringRecord) -> (v: Vec<String>)
    ensures
        texts(v@) == fields_of(*record),
{
    let n: usize = record.len();
    let mut v: Vec<String> = Vec::new();
    let mut i: usize = 0;
    while i < n
        invariant
            i <= n == fields_of(*record).len(),
            v@.len() == i,
            forall|k: int| 0 <= k < i ==> v@[k]@ == fields_of(*record)[k],
        decreases n - i,
    {
        let s = field(record, i);
        v.push(s.to_owned());
        i += 1;
    }
    assert(texts(v@) =~= fields_of(*record));
    v
}

} // verus!
