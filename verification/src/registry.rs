//! The in-memory registry: creation with validation, point lookup,
//! substring search, and export.

use vstd::prelude::*;

use crate::codec::{encode_records, render_records};
use crate::error::Error;
use crate::record::{Record, RecordData, views_of};
use crate::text::{contains_seq, contains_substring, matches_at};

verus! {

/// The search predicate: `term` occurs in the record's name.
pub open spec fn name_matches(rd: RecordData, term: Seq<char>) -> bool {
    contains_seq(rd.name, term)
}

/// The owner of all records, keyed by id.
///
/// Ids are assigned sequentially starting at 1 and records are never removed,
/// so the record with id `k` sits at position `k - 1`.
pub struct Registry {
    records: Vec<Record>,
}

impl View for Registry {
    type V = Seq<RecordData>;

    closed spec fn view(&self) -> Seq<RecordData> {
        views_of(self.records@)
    }
}

impl Registry {
    /// Ids are dense (`1..=len`, in order) and every stored text field is
    /// non-empty. Constructors establish this and every method preserves it.
    pub open spec fn wf(&self) -> bool {
        forall|i: int|
            0 <= i < self@.len() ==> {
                &&& (#[trigger] self@[i]).id == i + 1
                &&& self@[i].name.len() > 0
                &&& self@[i].email.len() > 0
            }
    }

    /// Creates an empty registry.
    pub fn new() -> (r: Registry)
        ensures
            r@ == Seq::<RecordData>::empty(),
            r.wf(),
    {
        let r = Registry { records: Vec::new() };
        proof {
            assert(r@ =~= Seq::<RecordData>::empty());
        }
        r
    }

    /// The number of records stored so far.
    pub fn len(&self) -> (n: usize)
        ensures
            n == self@.len(),
    {
        self.records.len()
    }

    /// Creates a record after validating that both fields are non-empty
    /// (name checked first), assigns it the id `len + 1`, stores it, and
    /// returns a copy of the stored record. On failure the registry is
    /// unchanged.
    pub fn create(&mut self, name: String, email: String) -> (r: Result<Record, Error>)
        requires
            old(self).wf(),
            old(self)@.len() < u32::MAX,
        ensures
            final(self).wf(),
            name@.len() == 0 ==> {
                &&& final(self)@ == old(self)@
                &&& r matches Err(e) && e is InvalidInput
            },
            name@.len() > 0 && email@.len() == 0 ==> {
                &&& final(self)@ == old(self)@
                &&& r matches Err(e) && e is InvalidInput
            },
            name@.len() > 0 && email@.len() > 0 ==> {
                &&& r matches Ok(rec)
                &&& rec@ == (RecordData {
                    id: (old(self)@.len() + 1) as u32,
                    name: name@,
                    email: email@,
                })
                &&& final(self)@ == old(self)@.push(rec@)
            },
    {
        if name.as_str().is_empty() {
            return Err(Error::InvalidInput(String::from_str("Name cannot be empty")));
        }
        if email.as_str().is_empty() {
            return Err(Error::InvalidInput(String::from_str("Email cannot be empty")));
        }
        let id = self.records.len() as u32 + 1;
        let rec = Record { id, name, email };
        let stored = rec.clone();
        self.records.push(stored);
        proof {
            assert(self@ =~= old(self)@.push(rec@));
        }
        Ok(rec)
    }

    /// Looks the record with the given id up; absence is a normal outcome,
    /// not an error. Exactly the ids `1..=len` are present.
    pub fn get(&self, id: u32) -> (r: Option<Record>)
        requires
            self.wf(),
        ensures
            1 <= id <= self@.len() ==> {
                &&& r matches Some(rec)
                &&& rec@ == self@[id - 1]
                &&& rec@.id == id
            },
            !(1 <= id <= self@.len()) ==> r is None,
    {
        if id >= 1 && id as usize <= self.records.len() {
            let idx = id as usize - 1;
            let rec = self.records[idx].clone();
            proof {
                assert(rec@ == self@[id - 1]);
            }
            Some(rec)
        } else {
            None
        }
    }

    /// Returns exactly the stored records whose name contains `term` as a
    /// substring, in id order; the empty term keeps every record.
    pub fn find_by_name(&self, term: &str) -> (r: Vec<Record>)
        requires
            self.wf(),
        ensures
            views_of(r@) == self@.filter(|rd: RecordData| name_matches(rd, term@)),
    {
        let ghost pred = |rd: RecordData| name_matches(rd, term@);
        let mut out: Vec<Record> = Vec::new();
        let mut i: usize = 0;
        proof {
            assert(views_of(out@) =~= self@.take(0).filter(pred));
            reveal(Seq::filter);
        }
        while i < self.records.len()
            invariant
                i <= self.records.len(),
                self@ == views_of(self.records@),
                views_of(out@) == self@.take(i as int).filter(pred),
                pred == (|rd: RecordData| name_matches(rd, term@)),
            decreases self.records.len() - i,
        {
            let matched = contains_substring(self.records[i].name.as_str(), term);
            proof {
                reveal(Seq::filter);
                assert(self@.take(i + 1).drop_last() =~= self@.take(i as int));
                assert(self@.take(i + 1).last() == self@[i as int]);
            }
            if matched {
                out.push(self.records[i].clone());
                proof {
                    assert(views_of(out@) =~= self@.take(i as int).filter(pred).push(
                        self@[i as int]));
                }
            }
            i += 1;
        }
        proof {
            assert(self@.take(self.records.len() as int) =~= self@);
        }
        out
    }

    /// Serializes the full record set, in id order, to the export text.
    /// Writing it to a destination is the caller's concern; encoding itself
    /// cannot fail.
    pub fn export_all(&self) -> (out: String)
        ensures
            out@ == encode_records(self@),
    {
        render_records(&self.records)
    }
}

/// Searching with the empty term keeps every record: the empty sequence is
/// a substring of every name.
pub proof fn lemma_empty_term_keeps_all(rows: Seq<RecordData>)
    ensures
        rows.filter(|rd: RecordData| name_matches(rd, Seq::<char>::empty())) == rows,
    decreases rows.len(),
{
    reveal(Seq::filter);
    let pred = |rd: RecordData| name_matches(rd, Seq::<char>::empty());
    if rows.len() == 0 {
        assert(rows.filter(pred) =~= rows);
    } else {
        lemma_empty_term_keeps_all(rows.drop_last());
        assert(matches_at(rows.last().name, Seq::<char>::empty(), 0)) by {
            assert(rows.last().name.subrange(0, 0) =~= Seq::<char>::empty());
        }
        assert(pred(rows.last()));
        assert(rows.filter(pred) =~= rows);
    }
}

} // verus!
