use vstd::prelude::*;
use std::marker::PhantomData;
use crate::id_types::{CurrencyID, ExchangeID};

verus! {

/// Marker of a mapper that still takes new keys.
#[derive(Debug)]
pub struct Editing;

/// Marker of a mapper that is only read.
#[derive(Debug)]
pub struct Reading;

/// An id type that hands out consecutive ids from zero.
pub trait GetCurrentAndIncrementStringToIntMapperId: Sized {
    /// The number this id stands for.
    spec fn id_value(&self) -> int;

    /// The largest number an id of this type can stand for.
    spec fn id_max() -> int;

    /// The id of number zero.
    fn first_id() -> (r: Self)
        ensures
            r.id_value() == 0,
    ;

    /// Returns the current id and moves to the next one.
    fn get_and_increment(&mut self) -> (r: Self)
        requires
            0 <= old(self).id_value() < Self::id_max(),
        ensures
            r.id_value() == old(self).id_value(),
            final(self).id_value() == old(self).id_value() + 1,
    ;

    fn to_usize(&self) -> (r: usize)
        requires
            0 <= self.id_value(),
        ensures
            r == self.id_value(),
    ;
}

impl GetCurrentAndIncrementStringToIntMapperId for ExchangeID {
    open spec fn id_value(&self) -> int {
        self.0 as int
    }

    open spec fn id_max() -> int {
        u8::MAX as int
    }

    fn first_id() -> (r: Self) {
        ExchangeID(0)
    }

    fn get_and_increment(&mut self) -> (r: Self) {
        let ret = *self;
        self.0 = self.0 + 1;
        ret
    }

    fn to_usize(&self) -> (r: usize) {
        self.0 as usize
    }
}

impl GetCurrentAndIncrementStringToIntMapperId for CurrencyID {
    open spec fn id_value(&self) -> int {
        self.0 as int
    }

    open spec fn id_max() -> int {
        u16::MAX as int
    }

    fn first_id() -> (r: Self) {
        CurrencyID(0)
    }

    fn get_and_increment(&mut self) -> (r: Self) {
        let ret = *self;
        self.0 = self.0 + 1;
        ret
    }

    fn to_usize(&self) -> (r: usize) {
        self.0 as usize
    }
}

impl GetCurrentAndIncrementStringToIntMapperId for i32 {
    open spec fn id_value(&self) -> int {
        *self as int
    }

    open spec fn id_max() -> int {
        i32::MAX as int
    }

    fn first_id() -> (r: Self) {
        0
    }

    fn get_and_increment(&mut self) -> (r: Self) {
        let ret = *self;
        *self = ret + 1;
        ret
    }

    fn to_usize(&self) -> (r: usize) {
        *self as usize
    }
}

/// A two-way mapping between strings and consecutive ids, in the order the
/// strings were added. `State` tells whether it still takes new keys.
pub struct StringToIntMapper<T, State = Editing> {
    set_next_id: T,
    added_in_order: Vec<String>,
    keys_mapped_to: Vec<T>,
    removed_ids_in_order: Vec<T>,
    state: PhantomData<State>,
}

impl<T: GetCurrentAndIncrementStringToIntMapperId + Copy, State> StringToIntMapper<T, State> {
    /// The keys, in the order they were added; key `i` has id `i`.
    pub closed spec fn keys(&self) -> Seq<Seq<char>> {
        self.added_in_order@.map_values(|s: String| s@)
    }

    /// The ids marked as removed, in order.
    pub closed spec fn removed(&self) -> Seq<int> {
        self.removed_ids_in_order@.map_values(|t: T| t.id_value())
    }

    /// Keys are distinct, the id of key `i` is `i`, and the next id follows the last.
    pub closed spec fn wf(&self) -> bool {
        &&& self.added_in_order@.len() == self.keys_mapped_to@.len()
        &&& self.set_next_id.id_value() == self.added_in_order@.len()
        &&& forall|i: int| 0 <= i < self.keys_mapped_to@.len() ==> (#[trigger] self.keys_mapped_to@[i]).id_value() == i
        &&& self.keys().no_duplicates()
    }

    pub proof fn lemma_keys_distinct(&self)
        requires
            self.wf(),
        ensures
            self.keys().no_duplicates(),
    {
    }

    /// Whether another key can be added.
    pub closed spec fn has_room(&self) -> bool {
        self.set_next_id.id_value() < T::id_max()
    }

    fn consume_new<StateTo>(self) -> (r: StringToIntMapper<T, StateTo>)
        ensures
            r.keys() == self.keys(),
            r.removed() == self.removed(),
            r.wf() == self.wf(),
            r.has_room() == self.has_room(),
    {
        StringToIntMapper {
            set_next_id: self.set_next_id,
            added_in_order: self.added_in_order,
            keys_mapped_to: self.keys_mapped_to,
            removed_ids_in_order: self.removed_ids_in_order,
            state: PhantomData,
        }
    }

    pub fn new() -> (r: Self)
        ensures
            r.wf(),
            r.keys().len() == 0,
            r.removed().len() == 0,
            T::id_max() > 0 ==> r.has_room(),
    {
        let r = StringToIntMapper {
            set_next_id: T::first_id(),
            added_in_order: Vec::new(),
            keys_mapped_to: Vec::new(),
            removed_ids_in_order: Vec::new(),
            state: PhantomData,
        };
        assert(r.keys() =~= Seq::<Seq<char>>::empty());
        assert(r.removed() =~= Seq::<int>::empty());
        r
    }

    fn position(&self, key: &str) -> (r: Option<usize>)
        requires
            self.wf(),
        ensures
            match r {
                Some(i) => i < self.keys().len() && self.keys()[i as int] == key@,
                None => !self.keys().contains(key@),
            },
    {
        let k = key.to_owned();
        let mut i: usize = 0;
        while i < self.added_in_order.len()
            invariant
                self.wf(),
                k@ == key@,
                i <= self.added_in_order@.len(),
                forall|j: int| 0 <= j < i ==> #[trigger] self.keys()[j] != key@,
            decreases self.added_in_order@.len() - i,
        {
            assert(self.keys()[i as int] == self.added_in_order@[i as int]@);
            if self.added_in_order[i] == k {
                return Some(i);
            }
            i += 1;
        }
        None
    }

    /// The id of `key`, if it was added.
    pub fn get_id(&self, key: &str) -> (r: Option<&T>)
        requires
            self.wf(),
        ensures
            r is Some == self.keys().contains(key@),
            r is Some ==> 0 <= r->0.id_value() < self.keys().len() && self.keys()[r->0.id_value()] == key@,
    {
        match self.position(key) {
            Some(i) => Some(&self.keys_mapped_to[i]),
            None => None,
        }
    }
}

impl<T: GetCurrentAndIncrementStringToIntMapperId + Copy> StringToIntMapper<T, Editing> {
    /// Adds `key` with the next id, unless it is already there.
    pub fn add(&mut self, key: &str) -> (r: Option<T>)
        requires
            old(self).wf(),
            old(self).keys().contains(key@) || old(self).has_room(),
        ensures
            final(self).wf(),
            final(self).removed() == old(self).removed(),
            old(self).keys().contains(key@) ==> r is None && final(self).keys() == old(self).keys()
                && final(self).has_room() == old(self).has_room(),
            !old(self).keys().contains(key@) ==> r is Some && r->0.id_value() == old(self).keys().len()
                && final(self).keys() == old(self).keys().push(key@)
                && final(self).has_room() == (old(self).keys().len() + 1 < T::id_max()),
    {
        if self.position(key).is_none() {
            let ghost old_keys = self.keys();
            let id = self.set_next_id.get_and_increment();
            let s = key.to_owned();
            self.added_in_order.push(s);
            self.keys_mapped_to.push(id);
            proof {
                assert(self.keys() =~= old_keys.push(key@));
                assert forall|i: int, j: int| 0 <= i < j < self.keys().len() implies self.keys()[i] != self.keys()[j] by {
                    if j == old_keys.len() {
                        assert(old_keys[i] == self.keys()[i]);
                    } else {
                        assert(old_keys[i] == self.keys()[i] && old_keys[j] == self.keys()[j]);
                    }
                }
                assert(self.removed() =~= old(self).removed());
            }
            return Some(id);
        }
        None
    }

    /// Marks the id of `key` as removed (the key keeps its id).
    pub fn remove(&mut self, key: &str)
        requires
            old(self).wf(),
        ensures
            final(self).wf(),
            final(self).keys() == old(self).keys(),
            final(self).has_room() == old(self).has_room(),
            old(self).keys().contains(key@) ==> exists|i: int|
                0 <= i < old(self).keys().len() && old(self).keys()[i] == key@ && final(self).removed()
                    == old(self).removed().push(i),
            !old(self).keys().contains(key@) ==> final(self).removed() == old(self).removed(),
    {
        match self.position(key) {
            Some(i) => {
                let v = self.keys_mapped_to[i];
                let ghost old_removed = self.removed();
                self.removed_ids_in_order.push(v);
                assert(self.removed() =~= old_removed.push(i as int));
                assert(self.keys() =~= old(self).keys());
            },
            None => {},
        }
    }

    pub fn to_reader(self) -> (r: StringToIntMapper<T, Reading>)
        ensures
            r.keys() == self.keys(),
            r.removed() == self.removed(),
            r.wf() == self.wf(),
            r.has_room() == self.has_room(),
    {
        self.consume_new()
    }

    pub fn new_editing() -> (r: StringToIntMapper<T, Editing>)
        ensures
            r.wf(),
            r.keys().len() == 0,
            r.removed().len() == 0,
            T::id_max() > 0 ==> r.has_room(),
    {
        Self::new()
    }
}

impl<T: GetCurrentAndIncrementStringToIntMapperId + Copy> StringToIntMapper<T, Reading> {
    /// The key of `id`, if an id that large was handed out.
    pub fn get_key(&self, id: &T) -> (r: Option<&str>)
        requires
            self.wf(),
            0 <= id.id_value(),
        ensures
            r is Some == (id.id_value() < self.keys().len()),
            r is Some ==> r->0@ == self.keys()[id.id_value()],
    {
        let uid: usize = id.to_usize();
        if self.added_in_order.len() > uid {
            assert(self.keys()[uid as int] == self.added_in_order@[uid as int]@);
            return Some(self.added_in_order[uid].as_str());
        }
        None
    }

    /// The keys in the order they were added.
    pub fn iter_in_order(&self) -> (r: &[String])
        ensures
            r@.map_values(|s: String| s@) == self.keys(),
    {
        self.added_in_order.as_slice()
    }

    pub fn to_editer(self) -> (r: StringToIntMapper<T, Editing>)
        ensures
            r.keys() == self.keys(),
            r.removed() == self.removed(),
            r.wf() == self.wf(),
            r.has_room() == self.has_room(),
    {
        self.consume_new()
    }

    pub fn new_reading() -> (r: StringToIntMapper<T, Reading>)
        ensures
            r.wf(),
            r.keys().len() == 0,
            r.removed().len() == 0,
    {
        Self::new()
    }
}

} // verus!
