//! API tokens by dotted credential path.
use vstd::prelude::*;

use crate::credentials_reader::pair_views;
use crate::text::text_is;

verus! {

/// The value of the last pair of `pairs` whose path is `key`.
pub open spec fn lookup(pairs: Seq<(Seq<char>, Seq<char>)>, key: Seq<char>) -> Option<Seq<char>>
    decreases pairs.len(),
{
    if pairs.len() == 0 {
        None
    } else if pairs.last().0 == key {
        Some(pairs.last().1)
    } else {
        lookup(pairs.drop_last(), key)
    }
}

/// Tokens by credential path; a later value for a path replaces an earlier one.
pub struct CredentialsStore {
    credentials_map: Vec<(String, String)>,
}

impl CredentialsStore {
    /// The pairs taken in, in order.
    pub closed spec fn pairs(&self) -> Seq<(Seq<char>, Seq<char>)> {
        pair_views(self.credentials_map@)
    }

    pub fn new() -> (r: Self)
        ensures
            r.pairs() == Seq::<(Seq<char>, Seq<char>)>::empty(),
    {
        let r = CredentialsStore { credentials_map: Vec::new() };
        proof {
            assert(pair_views(r.credentials_map@) =~= Seq::<(Seq<char>, Seq<char>)>::empty());
        }
        r
    }

    /// Takes in `(path, value)` pairs, in order.
    pub fn insert_values_into_map(&mut self, map_of_values: &Vec<(String, String)>)
        ensures
            final(self).pairs() == old(self).pairs() + pair_views(map_of_values@),
    {
        let mut i: usize = 0;
        while i < map_of_values.len()
            invariant
                i <= map_of_values@.len(),
                self.pairs() == old(self).pairs() + pair_views(map_of_values@).take(i as int),
            decreases map_of_values@.len() - i,
        {
            let (key, value) = &map_of_values[i];
            let ghost before = self.credentials_map@;
            self.credentials_map.push((key.clone(), value.clone()));
            i = i + 1;
            proof {
                assert(pair_views(self.credentials_map@) =~= pair_views(before).push((key@, value@)));
                assert(pair_views(map_of_values@).take(i as int) =~= pair_views(map_of_values@).take(
                    i - 1,
                ).push((key@, value@)));
            }
        }
        proof {
            assert(pair_views(map_of_values@).take(i as int) =~= pair_views(map_of_values@));
        }
    }

    /// Whether a token is stored for `key`.
    pub fn has_token(&self, key: &str) -> (r: bool)
        ensures
            r == (lookup(self.pairs(), key@) is Some),
    {
        self.find(key).is_some()
    }

    /// The token stored for `key`.
    pub fn get_token(&self, key: &str) -> (r: String)
        requires
            lookup(self.pairs(), key@) is Some,
        ensures
            Some(r@) == lookup(self.pairs(), key@),
    {
        match self.find(key) {
            Some(v) => v,
            None => String::new(),
        }
    }

    fn find(&self, key: &str) -> (r: Option<String>)
        ensures
            match r {
                Some(v) => lookup(self.pairs(), key@) == Some(v@),
                None => lookup(self.pairs(), key@) is None,
            },
    {
        let mut i: usize = self.credentials_map.len();
        let ghost all = self.pairs();
        let mut key_text = String::new();
        crate::credentials_reader::append_str(&mut key_text, key);
        proof {
            assert(all.take(i as int) =~= all);
        }
        while i > 0
            invariant
                i <= self.credentials_map@.len(),
                all == self.pairs(),
                key_text@ == key@,
                lookup(all, key@) == lookup(all.take(i as int), key@),
            decreases i,
        {
            let (k, v) = &self.credentials_map[i - 1];
            proof {
                let t = all.take(i as int);
                assert(t.last() == (k@, v@));
                assert(t.drop_last() =~= all.take(i - 1));
            }
            if *k == key_text {
                return Some(v.clone());
            }
            i = i - 1;
        }
        None
    }
}

} // verus!
