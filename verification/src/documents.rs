//! The open documents, by URI.
//!
//! Documents are kept as (URI, text) pairs in the order they were last
//! written. A URI occurs at most once: writing a document first drops any
//! earlier text for its URI.
use vstd::prelude::*;

verus! {

/// Open documents, by URI.
pub struct Documents {
    entries: Vec<(String, String)>,
}

/// The text stored for `uri`: the last pair that names it.
pub open spec fn lookup(entries: Seq<(String, String)>, uri: Seq<char>) -> Option<Seq<char>>
    decreases entries.len(),
{
    if entries.len() == 0 {
        None
    } else if entries.last().0@ == uri {
        Some(entries.last().1@)
    } else {
        lookup(entries.drop_last(), uri)
    }
}

impl View for Documents {
    type V = Map<Seq<char>, Seq<char>>;

    closed spec fn view(&self) -> Map<Seq<char>, Seq<char>> {
        Map::new(
            |uri: Seq<char>| lookup(self.entries@, uri) is Some,
            |uri: Seq<char>| lookup(self.entries@, uri)->0,
        )
    }
}

impl Documents {
    /// No documents.
    pub fn new() -> (r: Documents)
        ensures
            r@ == Map::<Seq<char>, Seq<char>>::empty(),
    {
        let r = Documents { entries: Vec::new() };
        assert(r@ =~= Map::<Seq<char>, Seq<char>>::empty());
        r
    }

    /// The text of the document at `uri`, if it is open.
    pub fn get(&self, uri: &str) -> (r: Option<&String>)
        ensures
            r is Some <==> self@.contains_key(uri@),
            r matches Some(t) ==> t@ == self@[uri@],
    {
        let key = uri.to_owned();
        let mut i = self.entries.len();
        assert(self.entries@.take(i as int) =~= self.entries@);
        while i > 0
            invariant
                i <= self.entries@.len(),
                key@ == uri@,
                lookup(self.entries@.take(i as int), uri@) == lookup(self.entries@, uri@),
            decreases i,
        {
            assert(self.entries@.take(i as int).drop_last() =~= self.entries@.take(i - 1));
            if self.entries[i - 1].0 == key {
                return Some(&self.entries[i - 1].1);
            }
            i = i - 1;
        }
        None
    }

    /// Drops the document at `uri`, if it is open.
    pub fn remove(&mut self, uri: &str)
        ensures
            final(self)@ == old(self)@.remove(uri@),
    {
        let key = uri.to_owned();
        let ghost old_entries = self.entries@;
        let mut kept: Vec<(String, String)> = Vec::new();
        let n = self.entries.len();
        for i in 0..n
            invariant
                n == self.entries@.len(),
                self.entries@ == old_entries,
                key@ == uri@,
                forall|k: Seq<char>|
                    #![trigger lookup(kept@, k)]
                    lookup(kept@, k) == if k == uri@ {
                        None
                    } else {
                        lookup(old_entries.take(i as int), k)
                    },
        {
            let ghost before = kept@;
            assert(old_entries.take(i + 1).drop_last() =~= old_entries.take(i as int));
            if self.entries[i].0 != key {
                let pair = (self.entries[i].0.clone(), self.entries[i].1.clone());
                kept.push(pair);
                assert(kept@.drop_last() =~= before);
            }
            assert forall|k: Seq<char>|
                #![trigger lookup(kept@, k)]
                lookup(kept@, k) == if k == uri@ {
                    None
                } else {
                    lookup(old_entries.take(i + 1), k)
                } by {
                if self.entries@[i as int].0@ != uri@ {
                    assert(lookup(kept@, k) == if kept@.last().0@ == k {
                        Some(kept@.last().1@)
                    } else {
                        lookup(before, k)
                    });
                }
            }
        }
        assert(old_entries.take(n as int) =~= old_entries);
        self.entries = kept;
        assert(self@ =~= old(self)@.remove(uri@)) by {
            assert forall|k: Seq<char>| #[trigger] lookup(self.entries@, k) == (if k == uri@ {
                None
            } else {
                lookup(old_entries, k)
            }) by {}
        }
    }

    /// Opens `uri` with `text`, or replaces the text it had.
    pub fn insert(&mut self, uri: String, text: String)
        ensures
            final(self)@ == old(self)@.insert(uri@, text@),
    {
        self.remove(uri.as_str());
        let ghost mid = self@;
        let ghost before = self.entries@;
        let ghost key = uri@;
        let ghost value = text@;
        self.entries.push((uri, text));
        assert(self.entries@.drop_last() =~= before);
        assert(self@ =~= mid.insert(key, value)) by {
            assert forall|k: Seq<char>| #[trigger] lookup(self.entries@, k) == (if k == key {
                Some(value)
            } else {
                lookup(before, k)
            }) by {}
            assert forall|k: Seq<char>| #[trigger] mid.contains_key(k) == (lookup(before, k) is Some) by {}
            assert forall|k: Seq<char>| mid.contains_key(k) implies #[trigger] mid[k] == lookup(before, k)->0 by {}
        }
        assert(mid.insert(key, value) =~= old(self)@.insert(key, value));
    }
}

} // verus!
