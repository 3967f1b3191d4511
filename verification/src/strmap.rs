//! A string-to-string mapping with overwrite-on-insert semantics, used for
//! attribute maps and declaration lists. Stored as the sequence of insertions;
//! viewed as a mathematical map in which the last insertion for a key wins.

use vstd::prelude::*;
use crate::text::str_eq;

verus! {

/// The map described by a sequence of insertions: later pairs override
/// earlier ones.
pub open spec fn assoc_map(pairs: Seq<(String, String)>) -> Map<Seq<char>, Seq<char>>
    decreases pairs.len(),
{
    if pairs.len() == 0 {
        Map::empty()
    } else {
        assoc_map(pairs.drop_last()).insert(pairs.last().0@, pairs.last().1@)
    }
}

#[derive(Debug)]
pub struct AttrMap {
    pairs: Vec<(String, String)>,
}

impl View for AttrMap {
    type V = Map<Seq<char>, Seq<char>>;

    closed spec fn view(&self) -> Map<Seq<char>, Seq<char>> {
        assoc_map(self.pairs@)
    }
}

proof fn lemma_assoc_found(pairs: Seq<(String, String)>, k: Seq<char>, j: int)
    requires
        0 <= j < pairs.len(),
        pairs[j].0@ == k,
        forall|idx: int| j < idx < pairs.len() ==> #[trigger] pairs[idx].0@ != k,
    ensures
        assoc_map(pairs).contains_key(k),
        assoc_map(pairs)[k] == pairs[j].1@,
    decreases pairs.len(),
{
    if j == pairs.len() - 1 {
    } else {
        lemma_assoc_found(pairs.drop_last(), k, j);
    }
}

proof fn lemma_assoc_absent(pairs: Seq<(String, String)>, k: Seq<char>)
    requires
        forall|idx: int| 0 <= idx < pairs.len() ==> #[trigger] pairs[idx].0@ != k,
    ensures
        !assoc_map(pairs).contains_key(k),
    decreases pairs.len(),
{
    if pairs.len() > 0 {
        lemma_assoc_absent(pairs.drop_last(), k);
    }
}

impl AttrMap {
    /// The empty mapping.
    pub fn new() -> (r: AttrMap)
        ensures
            r@ == Map::<Seq<char>, Seq<char>>::empty(),
    {
        AttrMap { pairs: Vec::new() }
    }

    /// Binds `k` to `v`; a later insertion for the same key wins.
    pub fn insert(&mut self, k: String, v: String)
        ensures
            final(self)@ == old(self)@.insert(k@, v@),
    {
        let ghost k0 = k@;
        let ghost v0 = v@;
        self.pairs.push((k, v));
        proof {
            assert(self.pairs@.drop_last() =~= old(self).pairs@);
            assert(self.pairs@.last().0@ == k0);
            assert(self.pairs@.last().1@ == v0);
        }
    }

    /// The value bound to `k`, if any.
    pub fn get(&self, k: &str) -> (r: Option<&String>)
        ensures
            match r {
                Some(v) => self@.contains_key(k@) && v@ == self@[k@],
                None => !self@.contains_key(k@),
            },
    {
        let n = self.pairs.len();
        let mut j: usize = n;
        while j > 0
            invariant
                j <= n,
                n == self.pairs@.len(),
                forall|idx: int| j <= idx < n ==> #[trigger] self.pairs@[idx].0@ != k@,
            decreases j,
        {
            j = j - 1;
            if str_eq(self.pairs[j].0.as_str(), k) {
                proof {
                    lemma_assoc_found(self.pairs@, k@, j as int);
                }
                return Some(&self.pairs[j].1);
            }
        }
        proof {
            lemma_assoc_absent(self.pairs@, k@);
        }
        None
    }

    /// Whether `k` is bound.
    pub fn contains_key(&self, k: &str) -> (r: bool)
        ensures
            r == self@.contains_key(k@),
    {
        self.get(k).is_some()
    }
}

} // verus!
