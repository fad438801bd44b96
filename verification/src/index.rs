//! The exact-match index: a read-only mapping from lowercased concept name
//! to the point identifiers that carry that name in the vector index. It is
//! built once at startup by the caller and only read here.

use vstd::prelude::*;

verus! {

/// One index entry: a lowercased name and the point identifiers stored for
/// it.
pub struct IndexEntry {
    pub name_lower: String,
    pub point_ids: Vec<String>,
}

/// The first entry whose name matches, if any.
pub open spec fn spec_index_lookup(entries: Seq<IndexEntry>, name: Seq<char>) -> Option<
    Seq<String>,
>
    decreases entries.len(),
{
    if entries.len() == 0 {
        None
    } else if entries[0].name_lower@ == name {
        Some(entries[0].point_ids@)
    } else {
        spec_index_lookup(entries.drop_first(), name)
    }
}

/// A precomputed mapping from lowercased concept name to vector-index point
/// identifiers.
pub struct ExactMatchIndex {
    pub entries: Vec<IndexEntry>,
}

impl ExactMatchIndex {
    /// An empty index.
    pub fn new() -> (r: Self)
        ensures
            r.entries@ == Seq::<IndexEntry>::empty(),
    {
        let r = ExactMatchIndex { entries: Vec::new() };
        proof {
            assert(r.entries@ =~= Seq::<IndexEntry>::empty());
        }
        r
    }

    /// Record the point identifiers stored under a lowercased name.
    pub fn add_entry(&mut self, name_lower: String, point_ids: Vec<String>)
        ensures
            final(self).entries@ == old(self).entries@.push(
                IndexEntry { name_lower, point_ids },
            ),
    {
        self.entries.push(IndexEntry { name_lower, point_ids });
    }

    /// Look a lowercased name up; the result is the first entry recorded for
    /// it.
    pub fn lookup<'a>(&'a self, name: &String) -> (r: Option<&'a Vec<String>>)
        ensures
            match r {
                Some(ids) => spec_index_lookup(self.entries@, name@) == Some(ids@),
                None => spec_index_lookup(self.entries@, name@) is None,
            },
    {
        proof {
            assert(self.entries@.skip(0) =~= self.entries@);
        }
        let mut i: usize = 0;
        while i < self.entries.len()
            invariant
                i <= self.entries.len(),
                spec_index_lookup(self.entries@, name@) == spec_index_lookup(
                    self.entries@.skip(i as int),
                    name@,
                ),
            decreases self.entries.len() - i,
        {
            proof {
                assert(self.entries@.skip(i as int)[0] == self.entries@[i as int]);
                assert(self.entries@.skip(i as int).drop_first() =~= self.entries@.skip(
                    i as int + 1,
                ));
            }
            if self.entries[i].name_lower == *name {
                return Some(&self.entries[i].point_ids);
            }
            i += 1;
        }
        proof {
            assert(spec_index_lookup(self.entries@.skip(self.entries@.len() as int), name@)
                is None);
        }
        None
    }
}

} // verus!
