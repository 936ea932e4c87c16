//! Named text values, as flags and query strings give them.

use vstd::prelude::*;

use crate::bytes::same_str;

verus! {

/// Text values by name. The one given last counts.
pub struct Params {
    pub pairs: Vec<(String, String)>,
}

/// The values after each of a list of names and values.
pub open spec fn values(pairs: Seq<(String, String)>) -> Map<Seq<char>, Seq<char>>
    decreases pairs.len(),
{
    if pairs.len() == 0 {
        Map::empty()
    } else {
        values(pairs.drop_last()).insert(pairs.last().0@, pairs.last().1@)
    }
}

impl View for Params {
    type V = Map<Seq<char>, Seq<char>>;

    open spec fn view(&self) -> Map<Seq<char>, Seq<char>> {
        values(self.pairs@)
    }
}

impl Params {
    pub fn new() -> (r: Self)
        ensures
            r@ == Map::<Seq<char>, Seq<char>>::empty(),
    {
        Params { pairs: Vec::new() }
    }

    /// Set the value of a name.
    pub fn insert(&mut self, name: String, value: String)
        ensures
            final(self)@ == old(self)@.insert(name@, value@),
    {
        let ghost had = self.pairs@;
        self.pairs.push((name, value));
        assert(self.pairs@.drop_last() =~= had);
    }

    /// The value of a name.
    pub fn get(&self, name: &str) -> (r: Option<&String>)
        ensures
            match r {
                Some(v) => self@.contains_key(name@) && self@[name@] == v@,
                None => !self@.contains_key(name@),
            },
    {
        let mut i: usize = self.pairs.len();
        assert(self.pairs@.take(i as int) =~= self.pairs@);
        while i > 0
            invariant
                i <= self.pairs@.len(),
                values(self.pairs@.take(i as int)).contains_key(name@) == self@.contains_key(name@),
                self@.contains_key(name@) ==> values(self.pairs@.take(i as int))[name@]
                    == self@[name@],
            decreases i,
        {
            let ghost now = self.pairs@.take(i as int);
            assert(now.drop_last() =~= self.pairs@.take(i - 1));
            assert(now.last() == self.pairs@[i - 1]);
            if same_str(self.pairs[i - 1].0.as_str(), name) {
                return Some(&self.pairs[i - 1].1);
            }
            i -= 1;
        }
        None
    }
}

} // verus!
