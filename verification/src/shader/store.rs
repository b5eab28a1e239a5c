use vstd::prelude::*;

use crate::text::str_eq;

verus! {

// ---------------------------------------------------------------------------
// An in-memory snapshot of shader sources
//
// The preprocessor works on plain values: the surrounding program reads the
// files a shader may pull in and hands their text over in a `SourceStore`
// keyed by canonical absolute path.
// ---------------------------------------------------------------------------

/// The contents a sequence of insertions denotes: later entries win.
pub open spec fn store_map_of(entries: Seq<(String, String)>) -> Map<Seq<char>, Seq<char>>
    decreases entries.len(),
{
    if entries.len() == 0 {
        Map::empty()
    } else {
        store_map_of(entries.drop_last()).insert(entries.last().0@, entries.last().1@)
    }
}

/// A snapshot of file contents keyed by path.
pub struct SourceStore {
    entries: Vec<(String, String)>,
}

impl View for SourceStore {
    type V = Map<Seq<char>, Seq<char>>;

    closed spec fn view(&self) -> Map<Seq<char>, Seq<char>> {
        store_map_of(self.entries@)
    }
}

impl SourceStore {
    /// How many insertions this store holds; an upper bound on the number of
    /// distinct paths.
    pub closed spec fn spec_size(&self) -> nat {
        self.entries@.len()
    }

    /// An empty store.
    pub fn new() -> (r: SourceStore)
        ensures
            r@ == Map::<Seq<char>, Seq<char>>::empty(),
            r.spec_size() == 0,
    {
        SourceStore { entries: Vec::new() }
    }

    /// Records the contents of one file; a later insertion for the same path
    /// replaces the earlier one.
    pub fn insert(&mut self, path: String, contents: String)
        ensures
            final(self)@ == old(self)@.insert(path@, contents@),
            final(self).spec_size() == old(self).spec_size() + 1,
    {
        let ghost before = self.entries@;
        self.entries.push((path, contents));
        proof {
            assert(self.entries@.drop_last() =~= before);
        }
    }

    /// Whether the store holds contents for `path`.
    pub fn contains_path(&self, path: &str) -> (r: bool)
        ensures
            r == self@.contains_key(path@),
    {
        match self.read(path) {
            Some(_) => true,
            None => false,
        }
    }

    /// The contents recorded for `path`, if any.
    pub fn read(&self, path: &str) -> (r: Option<&String>)
        ensures
            match r {
                Some(c) => self@.contains_key(path@) && c@ == self@[path@],
                None => !self@.contains_key(path@),
            },
    {
        let mut i: usize = self.entries.len();
        proof {
            assert(self.entries@.subrange(0, i as int) =~= self.entries@);
        }
        while i > 0
            invariant
                i <= self.entries@.len(),
                store_map_of(self.entries@).contains_key(path@) == store_map_of(
                    self.entries@.subrange(0, i as int),
                ).contains_key(path@),
                store_map_of(self.entries@).contains_key(path@) ==> store_map_of(
                    self.entries@,
                )[path@] == store_map_of(self.entries@.subrange(0, i as int))[path@],
            decreases i,
        {
            let ghost pre = self.entries@.subrange(0, i as int);
            proof {
                assert(pre.len() > 0);
                assert(pre.last() == self.entries@[i - 1]);
                assert(pre.drop_last() =~= self.entries@.subrange(0, i - 1));
            }
            if str_eq(self.entries[i - 1].0.as_str(), path) {
                return Some(&self.entries[i - 1].1);
            }
            i = i - 1;
        }
        proof {
            assert(self.entries@.subrange(0, 0) =~= Seq::<(String, String)>::empty());
        }
        None
    }

    /// The domain of a store is finite and no larger than its size.
    pub proof fn lemma_dom_size(&self)
        ensures
            self@.dom().finite(),
            self@.dom().len() <= self.spec_size(),
    {
        Self::lemma_dom_size_rec(self.entries@);
    }

    proof fn lemma_dom_size_rec(entries: Seq<(String, String)>)
        ensures
            store_map_of(entries).dom().finite(),
            store_map_of(entries).dom().len() <= entries.len(),
        decreases entries.len(),
    {
        if entries.len() > 0 {
            Self::lemma_dom_size_rec(entries.drop_last());
        }
    }
}

} // verus!
