use vstd::prelude::*;

verus! {

/// The path-to-node index kept beside the file graph, backed by a hash map
/// so that insert-or-lookup is O(1) expected.
#[verifier::external_body]
pub struct PathIndex {
    map: hashbrown::HashMap<String, usize>,
}

/// What the index holds: a map from path to node id.
pub uninterp spec fn index_map(ix: PathIndex) -> Map<Seq<char>, int>;

impl PathIndex {
    /// Relies on hashbrown::HashMap::new: a new index is empty.
    #[verifier::external_body]
    pub(crate) fn new() -> (r: PathIndex)
        ensures
            index_map(r).dom() == Set::<Seq<char>>::empty(),
    {
        PathIndex { map: hashbrown::HashMap::new() }
    }

    /// Relies on hashbrown::HashMap::get: the value stored under `p`, if any.
    #[verifier::external_body]
    pub(crate) fn get(&self, p: &str) -> (r: Option<usize>)
        ensures
            (r is Some) == index_map(*self).contains_key(p@),
            r matches Some(id) ==> id as int == index_map(*self)[p@],
    {
        self.map.get(p).copied()
    }

    /// Relies on hashbrown::HashMap::insert: the entry for `p` is set to
    /// `id` and every other entry is kept.
    #[verifier::external_body]
    pub(crate) fn insert(&mut self, p: String, id: usize)
        ensures
            index_map(*final(self)) == index_map(*old(self)).insert(p@, id as int),
    {
        self.map.insert(p, id);
    }
}

} // verus!
