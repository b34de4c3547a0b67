//! A table of values under text keys, whose values can be changed where they stand.
use vstd::hash_map::StringHashMap;
use vstd::prelude::*;
use vstd::string::*;

verus! {

/// Values under text keys. A key that was once given stays.
pub struct Keyed<T> {
    places: StringHashMap<usize>,
    values: Vec<T>,
}

impl<T> View for Keyed<T> {
    type V = Map<Seq<char>, T>;

    closed spec fn view(&self) -> Map<Seq<char>, T> {
        Map::new(
            |key: Seq<char>| self.places@.contains_key(key),
            |key: Seq<char>| self.values@[self.places@[key] as int],
        )
    }
}

impl<T> Keyed<T> {
    /// Every key has a place, and no two keys have the same.
    pub closed spec fn wf(&self) -> bool {
        &&& forall|key: Seq<char>| #[trigger]
            self.places@.contains_key(key) ==> self.places@[key] < self.values@.len()
        &&& forall|a: Seq<char>, b: Seq<char>|
            #![trigger self.places@[a], self.places@[b]]
            self.places@.contains_key(a) && self.places@.contains_key(b) && a != b
                ==> self.places@[a] != self.places@[b]
    }

    /// No key yet.
    pub fn new() -> (table: Keyed<T>)
        ensures
            table.wf(),
            table@ == Map::<Seq<char>, T>::empty(),
    {
        let table = Keyed { places: StringHashMap::new(), values: Vec::new() };
        assert(table@ =~= Map::<Seq<char>, T>::empty());
        table
    }

    /// The value under a key, to be changed.
    pub fn get_mut(&mut self, key: &str) -> (value: Option<&mut T>)
        requires
            old(self).wf(),
        ensures
            match value {
                Some(value) => {
                    &&& old(self)@.contains_key(key@)
                    &&& *value == old(self)@[key@]
                    &&& final(self)@ == old(self)@.insert(key@, *final(value))
                },
                None => !old(self)@.contains_key(key@) && final(self)@ == old(self)@,
            },
            final(self).wf(),
    {
        match self.places.get(key) {
            None => None,
            Some(place) => {
                let place: usize = *place;
                Some(&mut self.values[place])
            },
        }
    }

    /// The value under a key, to be changed; where there is none, the given one is put there.
    pub fn entry_or(&mut self, key: &str, default: T) -> (value: &mut T)
        requires
            old(self).wf(),
        ensures
            *value == (if old(self)@.contains_key(key@) {
                old(self)@[key@]
            } else {
                default
            }),
            final(self)@ == old(self)@.insert(key@, *final(value)),
            final(self).wf(),
    {
        if !self.places.contains_key(key) {
            let place: usize = self.values.len();
            self.values.push(default);
            self.places.insert(key.to_owned(), place);
        }
        let place: usize = *self.places.get(key).unwrap();
        &mut self.values[place]
    }
}

} // verus!
