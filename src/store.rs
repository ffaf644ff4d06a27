//! The store's lifecycle: the in-memory mapping, loaded from the backing
//! file's text, changed by upserts, and written back by an explicit flush or,
//! when none succeeded, once at teardown.

use vstd::prelude::*;
use crate::codec::{
    CodecError, decode, decode_lines, decode_spec, encode, encode_spec, lemma_round_trip, plain_records,
    split_lines,
};
use crate::records::{RecordView, has_key, keys_unique, map_of, records_view, upsert, upsert_record};

verus! {

/// A store loaded from its backing file, with the flag that tells whether it
/// has been written back.
pub struct Database {
    records: Vec<(String, String)>,
    flushed: bool,
}

impl View for Database {
    type V = Map<Seq<char>, Seq<char>>;

    /// The mapping from keys to values.
    open spec fn view(&self) -> Map<Seq<char>, Seq<char>> {
        map_of(self.records())
    }
}

impl Database {
    /// The records in the order in which they are written out.
    pub closed spec fn records(&self) -> Seq<RecordView> {
        records_view(self.records@)
    }

    /// Whether a flush has succeeded.
    pub closed spec fn flushed(&self) -> bool {
        self.flushed
    }

    /// Keys are unique.
    pub closed spec fn wf(&self) -> bool {
        keys_unique(self.records())
    }

    /// The text that a flush of this store writes.
    pub open spec fn flush_text(&self) -> Seq<char> {
        encode_spec(self.records())
    }

    /// The store after a flush whose write succeeded (`ok`) or failed: the
    /// records stay, and the flag is set on success and never cleared.
    pub closed spec fn flushed_as(&self, ok: bool) -> Database {
        Database { records: self.records, flushed: self.flushed || ok }
    }

    /// Loads a store from the backing file's text; a missing file counts as
    /// empty text. The store starts out not flushed.
    pub fn new(contents: &str) -> (r: Result<Database, CodecError>)
        ensures
            match r {
                Ok(db) => {
                    &&& db.wf()
                    &&& decode_spec(contents@) == Some(db.records())
                    &&& !db.flushed()
                },
                Err(e) => decode_spec(contents@) is None && e == CodecError::CorruptRecord,
            },
            contents@.len() == 0 ==> (r matches Ok(db) && db.records().len() == 0 && db@
                == Map::<Seq<char>, Seq<char>>::empty()),
    {
        proof {
            if contents@.len() == 0 {
                assert(split_lines(contents@) == seq![Seq::<char>::empty()]);
                assert(seq![Seq::<char>::empty()].drop_last() =~= Seq::<Seq<char>>::empty());
                assert(decode_lines(Seq::<Seq<char>>::empty()) == Some(Seq::<RecordView>::empty()));
                assert(decode_spec(contents@) == Some(Seq::<RecordView>::empty()));
                assert(map_of(Seq::<RecordView>::empty()) == Map::<Seq<char>, Seq<char>>::empty());
            }
        }
        match decode(contents) {
            Ok(records) => Ok(Database { records, flushed: false }),
            Err(e) => Err(e),
        }
    }

    /// Stores `value` under `key`, replacing the value held there. The flag
    /// is left as it is: it records whether a flush succeeded, not whether
    /// the mapping changed since.
    pub fn insert(&mut self, key: String, value: String)
        requires
            old(self).wf(),
        ensures
            final(self).wf(),
            final(self).records() == upsert(old(self).records(), key@, value@),
            final(self)@ == old(self)@.insert(key@, value@),
            final(self).flushed() == old(self).flushed(),
    {
        upsert_record(&mut self.records, key, value);
    }

    /// The value stored under `key`, if any.
    pub fn get(&self, key: &str) -> (r: Option<&String>)
        requires
            self.wf(),
        ensures
            match r {
                Some(v) => self@.contains_key(key@) && self@[key@] == v@,
                None => !self@.contains_key(key@),
            },
    {
        let wanted = String::from_str(key);
        let n = self.records.len();
        let mut i: usize = 0;
        while i < n
            invariant
                n == self.records@.len(),
                wanted@ == key@,
                self.wf(),
                i <= n,
                forall|j: int| 0 <= j < i ==> self.records()[j].0 != key@,
            decreases n - i,
        {
            if self.records[i].0 == wanted {
                assert(self.records()[i as int].0 == key@);
                proof {
                    crate::records::lemma_map_of_unique(self.records());
                }
                assert(has_key(self.records(), key@));
                assert(self@[self.records()[i as int].0] == self.records()[i as int].1);
                return Some(&self.records[i].1);
            }
            i = i + 1;
        }
        proof {
            crate::records::lemma_map_of_unique(self.records());
        }
        None
    }

    /// The number of records.
    pub fn len(&self) -> (r: usize)
        ensures
            r == self.records().len(),
    {
        self.records.len()
    }

    /// Whether a flush has succeeded.
    pub fn is_flushed(&self) -> (r: bool)
        ensures
            r == self.flushed(),
    {
        self.flushed
    }

    /// The text that a flush writes: one `key<TAB>value` line per record.
    pub fn contents(&self) -> (r: String)
        ensures
            r@ == self.flush_text(),
    {
        encode(&self.records)
    }

    /// Writes the store out: hands its text to `write`, which overwrites the
    /// backing file, and marks the store flushed when that succeeds. The
    /// outcome of the write is returned as it came.
    pub fn flush<E, F: FnOnce(String) -> Result<(), E>>(&mut self, write: F) -> (r: Result<(), E>)
        requires
            old(self).wf(),
            forall|s: String| s@ == old(self).flush_text() ==> #[trigger] write.requires((s,)),
        ensures
            *final(self) == old(self).flushed_as(r is Ok),
            final(self).wf(),
            final(self).records() == old(self).records(),
            final(self).flushed() == (old(self).flushed() || r is Ok),
            exists|s: String| s@ == old(self).flush_text() && #[trigger] write.ensures((s,), r),
    {
        let text = encode(&self.records);
        let r = write(text);
        if r.is_ok() {
            self.flushed = true;
        }
        r
    }

    /// Runs when the store's owner goes away: flushes once unless a flush
    /// has already succeeded. A failed write is dropped, as no caller is
    /// left to act on it.
    pub fn teardown<E, F: FnOnce(String) -> Result<(), E>>(&mut self, write: F)
        requires
            old(self).wf(),
            forall|s: String| s@ == old(self).flush_text() ==> #[trigger] write.requires((s,)),
        ensures
            final(self).wf(),
            final(self).records() == old(self).records(),
            old(self).flushed() ==> *final(self) == *old(self),
            !old(self).flushed() ==> exists|s: String, r: Result<(), E>|
                s@ == old(self).flush_text() && #[trigger] write.ensures((s,), r) && *final(self)
                    == old(self).flushed_as(r is Ok),
    {
        if !self.flushed {
            let _ = self.flush(write);
        }
    }
}

/// Flushing twice in a row writes the same text both times, whatever the
/// first write's outcome; where keys and values hold no tab and no newline,
/// that text reads back as the mapping held at the first flush.
pub proof fn lemma_flush_twice(db: Database, first_ok: bool)
    requires
        db.wf(),
    ensures
        db.flushed_as(first_ok).flush_text() == db.flush_text(),
        plain_records(db.records()) ==> decode_spec(db.flushed_as(first_ok).flush_text()) == Some(
            db.records(),
        ) && map_of(decode_spec(db.flushed_as(first_ok).flush_text())->0) == db@,
{
    if plain_records(db.records()) {
        lemma_round_trip(db.records());
    }
}

/// The text that a flush writes, explicit or at teardown, reads back as the
/// store's whole mapping, every insert made so far included, where keys and
/// values hold no tab and no newline.
pub proof fn lemma_flush_text_reads_back(db: Database)
    requires
        db.wf(),
        plain_records(db.records()),
    ensures
        decode_spec(db.flush_text()) == Some(db.records()),
        map_of(decode_spec(db.flush_text())->0) == db@,
{
    lemma_round_trip(db.records());
}

} // verus!
