//! The record type the registry stores.

use vstd::prelude::*;

verus! {

/// What a record holds, at the specification level: the id together with the
/// character sequences of its two text fields.
pub ghost struct RecordData {
    pub id: u32,
    pub name: Seq<char>,
    pub email: Seq<char>,
}

/// A uniquely identified entity: a positive id assigned by the registry, a
/// name and an email, both non-empty text.
#[derive(Debug)]
pub struct Record {
    pub id: u32,
    pub name: String,
    pub email: String,
}

impl View for Record {
    type V = RecordData;

    open spec fn view(&self) -> RecordData {
        RecordData { id: self.id, name: self.name@, email: self.email@ }
    }
}

impl Clone for Record {
    fn clone(&self) -> (r: Self)
        ensures
            r@ == self@,
    {
        Record { id: self.id, name: self.name.clone(), email: self.email.clone() }
    }
}

/// The specification-level contents of a sequence of records.
pub open spec fn views_of(v: Seq<Record>) -> Seq<RecordData> {
    v.map(|i: int, r: Record| r@)
}

} // verus!
