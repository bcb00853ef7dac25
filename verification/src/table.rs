//! A string-keyed table of strings: a later entry for a key overrides an
//! earlier one, as inserting into a map does.
use vstd::prelude::*;

verus! {

/// The map that a list of key/value entries denotes (later entries win).
pub open spec fn entries_map(ps: Seq<(String, String)>) -> Map<Seq<char>, Seq<char>>
    decreases ps.len(),
{
    if ps.len() == 0 {
        Map::empty()
    } else {
        entries_map(ps.drop_last()).insert(ps.last().0@, ps.last().1@)
    }
}

/// String keys mapped to string values.
pub struct StringMap {
    entries: Vec<(String, String)>,
}

impl View for StringMap {
    type V = Map<Seq<char>, Seq<char>>;

    closed spec fn view(&self) -> Map<Seq<char>, Seq<char>> {
        entries_map(self.entries@)
    }
}

impl StringMap {
    /// An empty table.
    pub fn new() -> (m: Self)
        ensures
            m@ == Map::<Seq<char>, Seq<char>>::empty(),
    {
        StringMap { entries: Vec::new() }
    }

    /// Maps `k` to `v`, replacing what `k` mapped to.
    pub fn insert(&mut self, k: String, v: String)
        ensures
            final(self)@ == old(self)@.insert(k@, v@),
    {
        let ghost old_entries = self.entries@;
        self.entries.push((k, v));
        assert(self.entries@.drop_last() =~= old_entries);
    }

    /// The value `k` maps to.
    pub fn get(&self, k: &str) -> (r: Option<&String>)
        ensures
            match r {
                Some(v) => self@.contains_key(k@) && self@[k@] == v@,
                None => !self@.contains_key(k@),
            },
    {
        let key = String::from_str(k);
        let ghost ps = self.entries@;
        let mut j = self.entries.len();
        assert(ps.take(j as int) =~= ps);
        while j > 0
            invariant
                j <= ps.len(),
                ps == self.entries@,
                key@ == k@,
                entries_map(ps).contains_key(k@) == entries_map(ps.take(j as int)).contains_key(k@),
                entries_map(ps).contains_key(k@) ==> entries_map(ps)[k@] == entries_map(ps.take(j as int))[k@],
            decreases j,
        {
            assert(ps.take(j as int).drop_last() =~= ps.take(j - 1));
            if self.entries[j - 1].0.eq(&key) {
                return Some(&self.entries[j - 1].1);
            }
            j = j - 1;
        }
        None
    }
}

} // verus!
