//! The secondary index: free-form tags, each with the keys registered under
//! it, in the order of registration.
use vstd::hash_map::StringHashMap;
use vstd::prelude::*;

verus! {

/// Maps a tag to the list of keys registered under it. Keys are appended as
/// they come: nothing is checked and nothing is deduplicated.
pub struct TagIndex<K> {
    /// Position in `lists` of the list that belongs to a tag.
    ids: StringHashMap<usize>,
    /// The lists of keys, one for each tag seen so far.
    lists: Vec<Vec<K>>,
}

impl<K> View for TagIndex<K> {
    type V = Map<Seq<char>, Seq<K>>;

    closed spec fn view(&self) -> Map<Seq<char>, Seq<K>> {
        Map::new(
            |tag: Seq<char>| self.ids@.contains_key(tag),
            |tag: Seq<char>| self.lists@[self.ids@[tag] as int]@,
        )
    }
}

impl<K> TagIndex<K> {
    /// Every tag has a list of its own.
    pub closed spec fn wf(&self) -> bool {
        &&& forall|tag: Seq<char>| #[trigger]
            self.ids@.contains_key(tag) ==> self.ids@[tag] < self.lists@.len()
        &&& forall|a: Seq<char>, b: Seq<char>|
            self.ids@.contains_key(a) && self.ids@.contains_key(b) && #[trigger] self.ids@[a]
                == #[trigger] self.ids@[b] ==> a == b
    }

    /// An index without tags.
    pub fn new() -> (r: Self)
        ensures
            r.wf(),
            r@ == Map::<Seq<char>, Seq<K>>::empty(),
    {
        let r = TagIndex { ids: StringHashMap::new(), lists: Vec::new() };
        assert(r@ =~= Map::<Seq<char>, Seq<K>>::empty());
        r
    }

    /// Appends `key` to the list of `tag`; a tag not seen before starts with
    /// an empty list.
    pub fn add(&mut self, tag: String, key: K)
        requires
            old(self).wf(),
        ensures
            final(self).wf(),
            final(self)@ == old(self)@.insert(
                tag@,
                (if old(self)@.contains_key(tag@) {
                    old(self)@[tag@]
                } else {
                    Seq::empty()
                }).push(key),
            ),
    {
        let ghost before = self@;
        let found = match self.ids.get(tag.as_str()) {
            Some(id) => Some(*id),
            None => None,
        };
        match found {
            Some(id) => {
                self.lists[id].push(key);
                assert(self@ =~= before.insert(tag@, before[tag@].push(key)));
            },
            None => {
                let id = self.lists.len();
                let mut list: Vec<K> = Vec::new();
                list.push(key);
                self.lists.push(list);
                self.ids.insert(tag, id);
                assert(self@ =~= before.insert(tag@, Seq::<K>::empty().push(key)));
            },
        }
    }

    /// The keys registered under `tag`, or nothing if the tag was never used.
    pub fn get(&self, tag: &str) -> (r: Option<&Vec<K>>)
        requires
            self.wf(),
        ensures
            match r {
                Some(keys) => self@.contains_key(tag@) && keys@ == self@[tag@],
                None => !self@.contains_key(tag@),
            },
    {
        match self.ids.get(tag) {
            Some(id) => Some(&self.lists[*id]),
            None => None,
        }
    }
}

} // verus!
