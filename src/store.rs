//! The latest results of each target, replaced whole by each sweep.
use vstd::prelude::*;
use crate::ping_result::PingResult;

verus! {

/// The latest result set of each target, keyed by the target's text.
#[verifier::external_body]
pub struct ResultStore {
    results: hashbrown::HashMap<String, Vec<PingResult>>,
}

/// What a store holds: each target's text with its latest results.
pub uninterp spec fn stored(store: ResultStore) -> Map<Seq<char>, Seq<PingResult>>;

/// `snap` lists the entries of `m`, each once, in some order.
pub open spec fn lists_entries(
    snap: Seq<(String, Vec<PingResult>)>,
    m: Map<Seq<char>, Seq<PingResult>>,
) -> bool {
    &&& snap.len() == m.dom().len()
    &&& forall|i: int|
        0 <= i < snap.len() ==> m.contains_key(#[trigger] snap[i].0@) && m[snap[i].0@]
            == snap[i].1@
    &&& forall|i: int, j: int|
        0 <= i < j < snap.len() ==> #[trigger] snap[i].0@ != #[trigger] snap[j].0@
    &&& forall|k: Seq<char>|
        #[trigger] m.contains_key(k) ==> exists|i: int| 0 <= i < snap.len() && snap[i].0@ == k
}

impl ResultStore {
    /// Relies on `hashbrown::HashMap::new`: a map with no entries.
    #[verifier::external_body]
    pub fn new() -> (r: ResultStore)
        ensures
            stored(r).dom() == Set::<Seq<char>>::empty(),
    {
        ResultStore { results: hashbrown::HashMap::new() }
    }

    /// Relies on `hashbrown::HashMap::insert`: the target's entry becomes the
    /// given results, whatever it held before; the other entries stay.
    #[verifier::external_body]
    pub fn publish(&mut self, target: String, results: Vec<PingResult>)
        ensures
            stored(*final(self)) == stored(*old(self)).insert(target@, results@),
    {
        self.results.insert(target, results);
    }

    /// Relies on `hashbrown::HashMap::iter`, which visits every entry once in
    /// some order; keys and results are copied out.
    #[verifier::external_body]
    pub fn snapshot(&self) -> (r: Vec<(String, Vec<PingResult>)>)
        ensures
            lists_entries(r@, stored(*self)),
    {
        self.results.iter().map(|(k, v)| (k.clone(), v.clone())).collect()
    }
}

/// A snapshot taken right after a target's results are published holds
/// exactly those results for that target.
pub proof fn lemma_publish_then_snapshot(
    before: Map<Seq<char>, Seq<PingResult>>,
    target: Seq<char>,
    results: Seq<PingResult>,
    snap: Seq<(String, Vec<PingResult>)>,
)
    requires
        lists_entries(snap, before.insert(target, results)),
    ensures
        exists|i: int| 0 <= i < snap.len() && snap[i].0@ == target && snap[i].1@ == results,
        forall|i: int| 0 <= i < snap.len() && snap[i].0@ == target ==> snap[i].1@ == results,
{
    let m = before.insert(target, results);
    assert(m.contains_key(target));
    let i = choose|i: int| 0 <= i < snap.len() && snap[i].0@ == target;
    assert(snap[i].1@ == m[snap[i].0@]);
}

} // verus!
