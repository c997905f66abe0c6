//! The data provider the indexer resolves asset references against: named
//! text assets loaded once for the whole session. It stands in for the data
//! directory of a score root; lookups are pure, and a miss is never an error
//! (the indexer falls back to displaying the reference name).

use vstd::prelude::*;
use crate::text::{str_eq, views_of};

verus! {

pub struct AssetStore {
    pub entries: Vec<(String, String)>,
}

impl View for AssetStore {
    type V = Seq<(Seq<char>, Seq<char>)>;

    open spec fn view(&self) -> Seq<(Seq<char>, Seq<char>)> {
        self.entries@.map_values(|e: (String, String)| (e.0@, e.1@))
    }
}

/// The text under the first entry carrying `name`, if any.
pub open spec fn lookup_in(assets: Seq<(Seq<char>, Seq<char>)>, name: Seq<char>) -> Option<
    Seq<char>,
>
    decreases assets.len(),
{
    if assets.len() == 0 {
        None
    } else if assets[0].0 == name {
        Some(assets[0].1)
    } else {
        lookup_in(assets.skip(1), name)
    }
}

impl AssetStore {
    pub fn new() -> (r: AssetStore)
        ensures
            r@ == Seq::<(Seq<char>, Seq<char>)>::empty(),
    {
        let r = AssetStore { entries: Vec::new() };
        proof {
            assert(r@ =~= Seq::<(Seq<char>, Seq<char>)>::empty());
        }
        r
    }

    pub fn add(&mut self, name: String, text: String)
        ensures
            final(self)@ == old(self)@.push((name@, text@)),
    {
        let ghost prev = self@;
        let e = (name, text);
        proof {
            assert(old(self).entries@.push(e).map_values(|e: (String, String)| (e.0@, e.1@))
                =~~= prev.push((e.0@, e.1@)));
        }
        self.entries.push(e);
    }

    pub fn lookup(&self, name: &str) -> (r: Option<String>)
        ensures
            r matches Some(t) ==> lookup_in(self@, name@) == Some(t@),
            r is None ==> lookup_in(self@, name@) is None,
    {
        let mut i: usize = 0;
        proof {
            assert(self@.skip(0) =~= self@);
        }
        while i < self.entries.len()
            invariant
                0 <= i <= self.entries@.len(),
                self@.len() == self.entries@.len(),
                lookup_in(self@, name@) == lookup_in(self@.skip(i as int), name@),
            decreases self.entries@.len() - i,
        {
            proof {
                assert(self@.skip(i as int)[0] == self@[i as int]);
            }
            let e = &self.entries[i];
            if str_eq(e.0.as_str(), name) {
                return Some(e.1.clone());
            }
            proof {
                assert(self@.skip(i as int).skip(1) =~= self@.skip(i + 1));
            }
            i += 1;
        }
        proof {
            assert(self@.skip(self@.len() as int) =~= Seq::<(Seq<char>, Seq<char>)>::empty());
        }
        None
    }
}

/// The names of the known assets, in entry order: what the parser receives to
/// tell data references from inline text.
pub fn get_data_names(assets: &AssetStore) -> (r: Vec<String>)
    ensures
        views_of(r@) == assets@.map_values(|e: (Seq<char>, Seq<char>)| e.0),
{
    let mut r: Vec<String> = Vec::new();
    let mut i: usize = 0;
    while i < assets.entries.len()
        invariant
            0 <= i <= assets.entries@.len(),
            assets@.len() == assets.entries@.len(),
            views_of(r@) == assets@.map_values(|e: (Seq<char>, Seq<char>)| e.0).take(i as int),
        decreases assets.entries@.len() - i,
    {
        let name = assets.entries[i].0.clone();
        proof {
            let ghost names = assets@.map_values(|e: (Seq<char>, Seq<char>)| e.0);
            let ghost prev = views_of(r@);
            assert(views_of(r@.push(name)) =~~= prev.push(name@));
            assert(names.take(i + 1) =~~= names.take(i as int).push(names[i as int]));
        }
        r.push(name);
        i += 1;
    }
    proof {
        let ghost names = assets@.map_values(|e: (Seq<char>, Seq<char>)| e.0);
        assert(names.take(names.len() as int) =~= names);
    }
    r
}

} // verus!
