//! The store itself: the pairs held in memory, and how they are read from
//! and written to their saved text.

use crate::error::Error;
use crate::format::{
    has_corrupt_line, is_corrupt, is_first, lemma_line_read, lemma_lines_step, lemma_table_push,
    line_of, lines, parse, serialize, strip_cr, table_of,
};
use crate::table;
use crate::table::{as_map, distinct_keys, has_key, holds_at, lookup, Table, Text};
use crate::text::{chars_of, scan, string_of};
use vstd::prelude::*;
use vstd::string::StringExecFns;

verus! {

/// A store of string pairs. It lists its pairs in the order in which their
/// keys were first stored, and never holds two pairs with one key.
pub struct Database {
    entries: Vec<(String, String)>,
}

impl View for Database {
    type V = Table;

    closed spec fn view(&self) -> Table {
        self.entries.deep_view()
    }
}

impl Database {
    /// The store's invariant: no key is stored twice.
    pub open spec fn wf(&self) -> bool {
        distinct_keys(self@)
    }

    /// The store as a map from keys to values.
    pub open spec fn map(&self) -> Map<Text, Text> {
        as_map(self@)
    }

    /// An empty store.
    pub fn new() -> (db: Database)
        ensures
            db@ == Seq::<(Text, Text)>::empty(),
            db.wf(),
    {
        let db = Database { entries: Vec::new() };
        assert(db.entries.deep_view() =~= Seq::<(Text, Text)>::empty());
        db
    }

    /// The place at which `key` is stored, if it is stored.
    fn find(&self, key: &String) -> (place: Option<usize>)
        ensures
            match place {
                Some(i) => holds_at(self@, key@, i as int),
                None => !has_key(self@, key@),
            },
    {
        let mut i: usize = 0;
        while i < self.entries.len()
            invariant
                i <= self.entries.len(),
                forall|j: int| 0 <= j < i ==> !holds_at(self@, key@, j),
            decreases self.entries.len() - i,
        {
            if self.entries[i].0 == *key {
                return Some(i);
            }
            i += 1;
        }
        None
    }

    /// Stores `val` under `key` and returns the value that `key` had before,
    /// if it had one. A key that is already stored keeps its place in the
    /// listing; a new key is listed last.
    pub fn put(&mut self, key: String, val: String) -> (prior: Option<String>)
        requires
            old(self).wf(),
        ensures
            final(self)@ == table::put(old(self)@, key@, val@),
            final(self).map() == old(self).map().insert(key@, val@),
            prior.deep_view() == lookup(old(self)@, key@),
            final(self).wf(),
    {
        proof {
            table::lemma_put(self@, key@, val@);
        }
        match self.find(&key) {
            Some(i) => {
                proof {
                    table::lemma_place_unique(self@, key@, i as int);
                }
                let prior = self.entries[i].1.clone();
                self.entries.set(i, (key, val));
                assert(self.entries.deep_view() =~= table::put(old(self)@, key@, val@));
                Some(prior)
            },
            None => {
                self.entries.push((key, val));
                assert(self.entries.deep_view() =~= table::put(old(self)@, key@, val@));
                None
            },
        }
    }

    /// The value stored under `key`, if there is one. The store is left as
    /// it was.
    pub fn get(&mut self, key: &String) -> (found: Option<String>)
        requires
            old(self).wf(),
        ensures
            found.deep_view() == lookup(old(self)@, key@),
            found is Some <==> old(self).map().contains_key(key@),
            found matches Some(v) ==> v@ == old(self).map()[key@],
            final(self)@ == old(self)@,
    {
        match self.find(key) {
            Some(i) => {
                proof {
                    table::lemma_place_unique(self@, key@, i as int);
                }
                Some(self.entries[i].1.clone())
            },
            None => None,
        }
    }

    /// Removes `key` and returns the value it had, if it was stored. The
    /// other pairs keep their order.
    pub fn drop(&mut self, key: &String) -> (removed: Option<String>)
        requires
            old(self).wf(),
        ensures
            final(self)@ == table::erase(old(self)@, key@),
            final(self).map() == old(self).map().remove(key@),
            removed.deep_view() == lookup(old(self)@, key@),
            final(self).wf(),
    {
        proof {
            table::lemma_erase(self@, key@);
        }
        match self.find(key) {
            Some(i) => {
                proof {
                    table::lemma_place_unique(self@, key@, i as int);
                }
                let pair = self.entries.remove(i);
                assert(self.entries.deep_view() =~= table::erase(old(self)@, key@));
                Some(pair.1)
            },
            None => None,
        }
    }

    /// The pairs of the store, in the order in which it lists them.
    pub fn entries(&self) -> (out: Vec<(String, String)>)
        ensures
            out.deep_view() == self@,
    {
        let mut out: Vec<(String, String)> = Vec::new();
        let mut i: usize = 0;
        while i < self.entries.len()
            invariant
                i <= self.entries.len(),
                out.len() == i,
                forall|j: int|
                    0 <= j < i ==> out@[j].0@ == self.entries@[j].0@ && out@[j].1@
                        == self.entries@[j].1@,
            decreases self.entries.len() - i,
        {
            out.push((self.entries[i].0.clone(), self.entries[i].1.clone()));
            i += 1;
        }
        assert(out.deep_view() =~= self@);
        out
    }

    /// The text that the store is saved as. The store is left as it was, so
    /// that a second call gives the same text again.
    pub fn commit(&mut self) -> (contents: String)
        ensures
            contents@ == serialize(old(self)@),
            final(self)@ == old(self)@,
    {
        let mut contents = String::new();
        let mut i: usize = 0;
        assert(self@.take(0) =~= Seq::<(Text, Text)>::empty());
        while i < self.entries.len()
            invariant
                i <= self.entries.len(),
                contents@ == serialize(self@.take(i as int)),
            decreases self.entries.len() - i,
        {
            let ghost done = self@.take(i as int);
            let ghost next = self@.take(i as int + 1);
            if i > 0 {
                contents.push('\n');
            }
            contents.append(self.entries[i].0.as_str());
            contents.push('\t');
            contents.append(self.entries[i].1.as_str());
            proof {
                assert(next.drop_last() =~= done);
                assert(next.last() == self@[i as int]);
                if i > 0 {
                    assert(contents@ =~= serialize(done).push('\n') + line_of(next.last()));
                } else {
                    assert(contents@ =~= line_of(next[0]));
                }
            }
            i += 1;
        }
        assert(self@.take(self.entries.len() as int) =~= self@);
        contents
    }

    /// Reads a store from its saved text. Empty lines are passed over; every
    /// other line gives a pair, and of two lines with one key the later one
    /// counts. The text is refused if, and only if, one of its lines is not
    /// empty and holds no tab.
    pub fn load(contents: &str) -> (loaded: Result<Database, Error>)
        ensures
            loaded is Err <==> has_corrupt_line(contents@),
            match loaded {
                Ok(db) => parse(contents@) == Some(db@) && db.wf(),
                Err(e) => e == Error::CorruptData,
            },
    {
        let chars = chars_of(contents);
        let n = chars.len();
        let mut db = Database::new();
        let mut pos: usize = 0;
        let ghost mut done: Seq<Text> = Seq::empty();
        assert(chars@.skip(0) =~= chars@);
        while pos < n
            invariant
                pos <= n == chars.len(),
                chars@ == contents@,
                lines(chars@) == done + lines(chars@.skip(pos as int)),
                forall|i: int| 0 <= i < done.len() ==> !is_corrupt(#[trigger] done[i]),
                db@ == table_of(done),
                db.wf(),
            decreases n - pos,
        {
            let end = scan(&chars, pos, n, '\n');
            let stop = if end < n && pos < end && chars[end - 1] == '\r' {
                end - 1
            } else {
                end
            };
            let ghost line = chars@.subrange(pos as int, stop as int);
            let ghost after = lines(
                chars@.skip(
                    if end < n {
                        end + 1
                    } else {
                        end as int
                    },
                ),
            );
            proof {
                lemma_lines_step(chars@, pos as int, end as int);
                if end < n {
                    assert(strip_cr(chars@.subrange(pos as int, end as int)) =~= line);
                } else {
                    assert(after =~= Seq::<Text>::empty());
                }
                assert(lines(chars@) =~= done.push(line) + after);
                assert(lines(chars@)[done.len() as int] == line);
                lemma_table_push(done, line);
            }
            if pos < stop {
                let tab = scan(&chars, pos, stop, '\t');
                proof {
                    assert(is_first(line, '\t', tab - pos));
                    lemma_line_read(line, tab - pos);
                }
                if tab == stop {
                    return Err(Error::CorruptData);
                }
                let key = string_of(&chars, pos, tab);
                let value = string_of(&chars, tab + 1, stop);
                proof {
                    assert(line.take(tab - pos) =~= key@);
                    assert(line.skip(tab - pos + 1) =~= value@);
                }
                db.put(key, value);
            }
            proof {
                done = done.push(line);
            }
            pos = if end < n {
                end + 1
            } else {
                end
            };
        }
        proof {
            assert(lines(chars@.skip(n as int)) =~= Seq::<Text>::empty());
            assert(lines(chars@) =~= done);
        }
        Ok(db)
    }
}

} // verus!
