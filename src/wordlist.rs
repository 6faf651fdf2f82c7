//! Wordlists: an identifier and the ordered values substituted for it.
use vstd::prelude::*;
use crate::indexer::{all_positive, nat_seq};

verus! {

/// A named wordlist. Its identifier marks, in the command template, where one
/// of its values is substituted.
#[derive(Clone, Debug)]
pub struct Wordlist {
    pub identifier: String,
    pub values: Vec<String>,
}

/// The identifiers of the wordlists, in order.
pub open spec fn ids_of(ws: Seq<Wordlist>) -> Seq<Seq<char>> {
    ws.map_values(|w: Wordlist| w.identifier@)
}

/// The values of each wordlist, in order.
pub open spec fn words_of(ws: Seq<Wordlist>) -> Seq<Seq<Seq<char>>> {
    ws.map_values(|w: Wordlist| w.values@.map_values(|v: String| v@))
}

/// The number of values of each wordlist.
pub open spec fn lengths_of(words: Seq<Seq<Seq<char>>>) -> Seq<nat> {
    words.map_values(|w: Seq<Seq<char>>| w.len())
}

/// The length of each wordlist, in order.
pub fn wordlist_lengths(wordlists: &Vec<Wordlist>) -> (r: Vec<usize>)
    ensures
        nat_seq(r@) == lengths_of(words_of(wordlists@)),
{
    let mut r: Vec<usize> = Vec::new();
    let mut k: usize = 0;
    while k < wordlists.len()
        invariant
            k <= wordlists.len(),
            r@.len() == k,
            forall|m: int| 0 <= m < k ==> r@[m] == wordlists@[m].values@.len(),
        decreases wordlists.len() - k,
    {
        r.push(wordlists[k].values.len());
        k = k + 1;
    }
    assert(nat_seq(r@) =~= lengths_of(words_of(wordlists@)));
    r
}

/// Whether every wordlist holds at least one value; where not, the position
/// of the first empty one.
pub fn first_empty(wordlists: &Vec<Wordlist>) -> (r: Option<usize>)
    ensures
        match r {
            None => all_positive(lengths_of(words_of(wordlists@))),
            Some(k) => k < wordlists.len() && wordlists@[k as int].values@.len() == 0 && forall|
                m: int,
            | 0 <= m < k ==> wordlists@[m].values@.len() > 0,
        },
{
    let mut k: usize = 0;
    while k < wordlists.len()
        invariant
            k <= wordlists.len(),
            forall|m: int| 0 <= m < k ==> wordlists@[m].values@.len() > 0,
        decreases wordlists.len() - k,
    {
        if wordlists[k].values.len() == 0 {
            return Some(k);
        }
        k = k + 1;
    }
    None
}

} // verus!
