//! A map keyed by text that is walked in ascending key order.

use vstd::prelude::*;
use vstd::string::*;

use crate::text::chars_of;

verus! {

/// Text order: by the first character that differs, a prefix first.
pub open spec fn text_before(a: Seq<char>, b: Seq<char>) -> bool
    decreases a.len(),
{
    if b.len() == 0 {
        false
    } else if a.len() == 0 {
        true
    } else if a[0] != b[0] {
        a[0] < b[0]
    } else {
        text_before(a.skip(1), b.skip(1))
    }
}

proof fn lemma_text_before_irreflexive(a: Seq<char>)
    ensures
        !text_before(a, a),
    decreases a.len(),
{
    if a.len() > 0 {
        lemma_text_before_irreflexive(a.skip(1));
    }
}

proof fn lemma_text_before_transitive(a: Seq<char>, b: Seq<char>, c: Seq<char>)
    requires
        text_before(a, b),
        text_before(b, c),
    ensures
        text_before(a, c),
    decreases a.len(),
{
    if a.len() > 0 && a[0] == b[0] && b[0] == c[0] {
        lemma_text_before_transitive(a.skip(1), b.skip(1), c.skip(1));
    }
}

proof fn lemma_text_before_total(a: Seq<char>, b: Seq<char>)
    ensures
        text_before(a, b) || text_before(b, a) || a == b,
    decreases a.len(),
{
    if a.len() > 0 && b.len() > 0 && a[0] == b[0] {
        lemma_text_before_total(a.skip(1), b.skip(1));
        if a.skip(1) == b.skip(1) {
            assert(a =~= seq![a[0]] + a.skip(1));
            assert(b =~= seq![b[0]] + b.skip(1));
        }
    } else if a.len() == 0 && b.len() == 0 {
        assert(a =~= b);
    }
}

/// How two texts stand to each other.
#[derive(Clone, Copy, PartialEq, Eq, Structural)]
enum Side {
    Before,
    Same,
    After,
}

fn side_of(a: &Vec<char>, b: &Vec<char>) -> (side: Side)
    ensures
        side == Side::Before <==> text_before(a@, b@),
        side == Side::After <==> text_before(b@, a@),
        side == Side::Same <==> a@ == b@,
{
    let mut i: usize = 0;
    proof {
        assert(a@.skip(0) =~= a@);
        assert(b@.skip(0) =~= b@);
        lemma_text_before_irreflexive(a@);
        lemma_text_before_total(a@, b@);
        if text_before(a@, b@) && text_before(b@, a@) {
            lemma_text_before_transitive(a@, b@, a@);
        }
    }
    while i < a.len() && i < b.len()
        invariant
            i <= a@.len(),
            i <= b@.len(),
            text_before(a@, b@) == text_before(a@.skip(i as int), b@.skip(i as int)),
            text_before(b@, a@) == text_before(b@.skip(i as int), a@.skip(i as int)),
            !text_before(a@, a@),
            text_before(a@, b@) || text_before(b@, a@) || a@ == b@,
            !(text_before(a@, b@) && text_before(b@, a@)),
        decreases a@.len() - i,
    {
        proof {
            assert(a@.skip(i as int).skip(1) =~= a@.skip(i + 1));
            assert(b@.skip(i as int).skip(1) =~= b@.skip(i + 1));
        }
        if a[i] < b[i] {
            return Side::Before;
        }
        if b[i] < a[i] {
            return Side::After;
        }
        i += 1;
    }
    if i < b.len() {
        Side::Before
    } else if i < a.len() {
        Side::After
    } else {
        Side::Same
    }
}

/// Texts in strictly ascending order.
pub open spec fn ascends(list: Seq<Seq<char>>) -> bool {
    forall|i: int, j: int|
        0 <= i < j < list.len() ==> text_before(#[trigger] list[i], #[trigger] list[j])
}

/// The texts of a set in ascending order.
pub open spec fn in_order(texts: Set<Seq<char>>) -> Seq<Seq<char>> {
    choose|list: Seq<Seq<char>>| #[trigger] ascends(list) && list.to_set() == texts
}

/// There is one way to list texts in ascending order.
pub proof fn ascending_lists_agree(a: Seq<Seq<char>>, b: Seq<Seq<char>>)
    requires
        ascends(a),
        ascends(b),
        a.to_set() == b.to_set(),
    ensures
        a == b,
    decreases a.len(),
{
    if a.len() == 0 {
        if b.len() > 0 {
            assert(b.to_set().contains(b[0]));
            assert(a.to_set().contains(b[0]));
        }
        assert(a =~= b);
    } else {
        assert(a.to_set().contains(a.last()));
        assert(b.to_set().contains(a.last()));
        let j = choose|j: int| 0 <= j < b.len() && b[j] == a.last();
        assert(b.to_set().contains(b.last()));
        assert(a.to_set().contains(b.last()));
        let i = choose|i: int| 0 <= i < a.len() && a[i] == b.last();
        if a.last() != b.last() {
            assert(text_before(b[j], b[b.len() - 1]));
            assert(text_before(a[i], a[a.len() - 1]));
            lemma_text_before_transitive(a.last(), b.last(), a.last());
            lemma_text_before_irreflexive(a.last());
        }
        let x = a.drop_last();
        let y = b.drop_last();
        lemma_text_before_irreflexive(a.last());
        assert forall|t: Seq<char>| x.to_set().contains(t) implies y.to_set().contains(t) by {
            let k = choose|k: int| 0 <= k < x.len() && x[k] == t;
            assert(a[k] == t);
            assert(a.to_set().contains(t));
            assert(text_before(a[k], a[a.len() - 1]));
            assert(b.to_set().contains(t));
            let m = choose|m: int| 0 <= m < b.len() && b[m] == t;
            assert(y[m] == t);
        }
        assert forall|t: Seq<char>| y.to_set().contains(t) implies x.to_set().contains(t) by {
            let k = choose|k: int| 0 <= k < y.len() && y[k] == t;
            assert(b[k] == t);
            assert(b.to_set().contains(t));
            assert(text_before(b[k], b[b.len() - 1]));
            assert(a.to_set().contains(t));
            let m = choose|m: int| 0 <= m < a.len() && a[m] == t;
            assert(x[m] == t);
        }
        assert(x.to_set() =~= y.to_set());
        ascending_lists_agree(x, y);
        assert(a =~= x.push(a.last()));
        assert(b =~= y.push(b.last()));
    }
}

/// Nothing is listed of no texts.
pub proof fn lemma_nothing_in_order()
    ensures
        in_order(Set::empty()) == Seq::<Seq<char>>::empty(),
{
    let none = Seq::<Seq<char>>::empty();
    assert(none.to_set() =~= Set::empty());
    assert(ascends(none));
    ascending_lists_agree(none, in_order(Set::empty()));
}

/// A map from text to values, kept in ascending key order.
pub struct TextMap<V> {
    entries: Vec<(String, V)>,
}

pub open spec fn has_key<V>(entries: Seq<(String, V)>, key: Seq<char>) -> bool {
    exists|i: int| 0 <= i < entries.len() && (#[trigger] entries[i]).0@ == key
}

pub open spec fn key_index<V>(entries: Seq<(String, V)>, key: Seq<char>) -> int {
    choose|i: int| 0 <= i < entries.len() && (#[trigger] entries[i]).0@ == key
}

impl<V> View for TextMap<V> {
    type V = Map<Seq<char>, V>;

    closed spec fn view(&self) -> Map<Seq<char>, V> {
        Map::new(
            |key: Seq<char>| has_key(self.entries@, key),
            |key: Seq<char>| self.entries@[key_index(self.entries@, key)].1,
        )
    }
}

impl<V> TextMap<V> {
    /// The keys in ascending order.
    pub closed spec fn keys(&self) -> Seq<Seq<char>> {
        self.entries@.map_values(|entry: (String, V)| entry.0@)
    }

    /// Keys strictly ascend.
    pub closed spec fn wf(&self) -> bool {
        forall|i: int, j: int|
            0 <= i < j < self.entries@.len() ==> text_before(
                (#[trigger] self.entries@[i]).0@,
                (#[trigger] self.entries@[j]).0@,
            )
    }

    proof fn lemma_index(&self, i: int)
        requires
            self.wf(),
            0 <= i < self.entries@.len(),
        ensures
            self@.dom().contains(self.entries@[i].0@),
            self@[self.entries@[i].0@] == self.entries@[i].1,
            key_index(self.entries@, self.entries@[i].0@) == i,
    {
        let key = self.entries@[i].0@;
        let j = key_index(self.entries@, key);
        assert(self.entries@[i].0@ == key);
        lemma_text_before_irreflexive(key);
    }

    /// Every key of the map is one of `keys`, each once and in ascending order.
    pub proof fn lemma_keys(&self)
        requires
            self.wf(),
        ensures
            forall|key: Seq<char>| self@.dom().contains(key) <==> self.keys().contains(key),
            forall|i: int, j: int|
                0 <= i < j < self.keys().len() ==> text_before(
                    #[trigger] self.keys()[i],
                    #[trigger] self.keys()[j],
                ),
            self.keys().no_duplicates(),
            self@.dom().finite(),
            self@.dom().len() == self.keys().len(),
            self.keys() == in_order(self@.dom()),
    {
        let keys = self.keys();
        assert forall|key: Seq<char>| self@.dom().contains(key) implies keys.contains(key) by {
            let i = key_index(self.entries@, key);
            assert(keys[i] == key);
        }
        assert forall|key: Seq<char>| keys.contains(key) implies self@.dom().contains(key) by {
            let i = choose|i: int| 0 <= i < keys.len() && keys[i] == key;
            assert(self.entries@[i].0@ == key);
        }
        assert forall|i: int, j: int|
            0 <= i < keys.len() && 0 <= j < keys.len() && i != j implies keys[i] != keys[j] by {
            lemma_text_before_irreflexive(keys[i]);
            if i < j {
                assert(text_before(self.entries@[i].0@, self.entries@[j].0@));
            } else {
                assert(text_before(self.entries@[j].0@, self.entries@[i].0@));
            }
        }
        assert(keys.no_duplicates());
        keys.unique_seq_to_set();
        assert(self@.dom() =~= keys.to_set());
        assert(ascends(keys));
        ascending_lists_agree(keys, in_order(self@.dom()));
    }

    /// An empty map.
    pub fn new() -> (map: Self)
        ensures
            map.wf(),
            map@ == Map::<Seq<char>, V>::empty(),
            map.keys() == Seq::<Seq<char>>::empty(),
    {
        let map = TextMap { entries: Vec::new() };
        proof {
            assert(map@ =~= Map::<Seq<char>, V>::empty());
            assert(map.keys() =~= Seq::<Seq<char>>::empty());
        }
        map
    }

    /// How many keys there are.
    pub fn len(&self) -> (len: usize)
        ensures
            len == self.keys().len(),
    {
        self.entries.len()
    }

    /// The key at a place of the ascending order.
    pub fn key_at(&self, index: usize) -> (key: &String)
        requires
            index < self.keys().len(),
        ensures
            key@ == self.keys()[index as int],
    {
        &self.entries[index].0
    }

    /// The value at a place of the ascending order.
    pub fn value_at(&self, index: usize) -> (value: &V)
        requires
            self.wf(),
            index < self.keys().len(),
        ensures
            self@.dom().contains(self.keys()[index as int]),
            *value == self@[self.keys()[index as int]],
    {
        proof {
            self.lemma_index(index as int);
        }
        &self.entries[index].1
    }

    /// Where a key stands, or where it would be put.
    fn place_of(&self, key: &str) -> (place: (bool, usize))
        requires
            self.wf(),
        ensures
            place.1 <= self.entries@.len(),
            place.0 == self@.dom().contains(key@),
            place.0 ==> place.1 < self.entries@.len() && self.entries@[place.1 as int].0@ == key@,
            !place.0 ==> forall|i: int|
                0 <= i < place.1 ==> text_before((#[trigger] self.entries@[i]).0@, key@),
            !place.0 ==> forall|i: int|
                place.1 <= i < self.entries@.len() ==> text_before(
                    key@,
                    (#[trigger] self.entries@[i]).0@,
                ),
    {
        let wanted = chars_of(key);
        let mut i: usize = 0;
        while i < self.entries.len()
            invariant
                self.wf(),
                wanted@ == key@,
                i <= self.entries@.len(),
                forall|j: int| 0 <= j < i ==> text_before((#[trigger] self.entries@[j]).0@, key@),
            decreases self.entries@.len() - i,
        {
            let held = chars_of(self.entries[i].0.as_str());
            match side_of(&held, &wanted) {
                Side::Before => {
                    i += 1;
                },
                Side::Same => {
                    proof {
                        self.lemma_index(i as int);
                    }
                    return (true, i);
                },
                Side::After => {
                    proof {
                        assert forall|j: int| i <= j < self.entries@.len() implies text_before(
                            key@,
                            (#[trigger] self.entries@[j]).0@,
                        ) by {
                            if j > i {
                                lemma_text_before_transitive(
                                    key@,
                                    self.entries@[i as int].0@,
                                    self.entries@[j].0@,
                                );
                            }
                        }
                        self.lemma_absent(key@, i as int);
                    }
                    return (false, i);
                },
            }
        }
        proof {
            self.lemma_absent(key@, i as int);
        }
        (false, i)
    }

    proof fn lemma_absent(&self, key: Seq<char>, place: int)
        requires
            0 <= place <= self.entries@.len(),
            forall|i: int| 0 <= i < place ==> text_before((#[trigger] self.entries@[i]).0@, key),
            forall|i: int|
                place <= i < self.entries@.len() ==> text_before(
                    key,
                    (#[trigger] self.entries@[i]).0@,
                ),
        ensures
            !self@.dom().contains(key),
    {
        if has_key(self.entries@, key) {
            let i = key_index(self.entries@, key);
            lemma_text_before_irreflexive(key);
        }
    }

    /// Whether a key is there.
    pub fn contains(&self, key: &str) -> (found: bool)
        requires
            self.wf(),
        ensures
            found == self@.dom().contains(key@),
    {
        self.place_of(key).0
    }

    /// The value of a key.
    pub fn get(&self, key: &str) -> (value: Option<&V>)
        requires
            self.wf(),
        ensures
            value is Some <==> self@.dom().contains(key@),
            value matches Some(held) ==> *held == self@[key@],
    {
        let (found, place) = self.place_of(key);
        if found {
            proof {
                self.lemma_index(place as int);
            }
            Some(&self.entries[place].1)
        } else {
            None
        }
    }

    /// The value of a key that is there, to be changed in place.
    pub fn get_mut(&mut self, key: &str) -> (value: &mut V)
        requires
            old(self).wf(),
            old(self)@.dom().contains(key@),
        ensures
            *value == old(self)@[key@],
            final(self).wf(),
            final(self)@ == old(self)@.insert(key@, *final(value)),
            final(self).keys() == old(self).keys(),
    {
        let (found, place) = self.place_of(key);
        proof {
            self.lemma_index(place as int);
            let before = *self;
            assert forall|after: TextMap<V>, new: V|
                #![trigger after.entries@, before@.insert(key@, new)]
                after.entries@ == before.entries@.update(
                    place as int,
                    (before.entries@[place as int].0, new),
                ) implies after.wf() && after@ == before@.insert(key@, new) && after.keys()
                == before.keys() by {
                lemma_replaced(before, after, place as int, new);
            }
        }
        &mut self.entries[place].1
    }

    /// Puts a value under a key, in place of an earlier one.
    pub fn put(&mut self, key: String, value: V)
        requires
            old(self).wf(),
        ensures
            final(self).wf(),
            final(self)@ == old(self)@.insert(key@, value),
    {
        let (found, place) = self.place_of(key.as_str());
        if found {
            let ghost before = *self;
            proof {
                self.lemma_index(place as int);
            }
            let (held, _) = self.entries.remove(place);
            self.entries.insert(place, (held, value));
            proof {
                assert(self.entries@ =~= before.entries@.update(place as int, (held, value)));
                lemma_replaced(before, *self, place as int, value);
            }
        } else {
            let ghost before = *self;
            let ghost name = key@;
            self.entries.insert(place, (key, value));
            proof {
                lemma_inserted(before, *self, place as int, key, value);
            }
        }
    }

    /// Takes a key out and gives back its value.
    pub fn remove(&mut self, key: &str) -> (value: Option<V>)
        requires
            old(self).wf(),
        ensures
            final(self).wf(),
            final(self)@ == old(self)@.remove(key@),
            value is Some <==> old(self)@.dom().contains(key@),
            value matches Some(held) ==> held == old(self)@[key@],
    {
        let (found, place) = self.place_of(key);
        if !found {
            proof {
                assert(self@.remove(key@) =~= self@);
            }
            return None;
        }
        let ghost before = *self;
        proof {
            self.lemma_index(place as int);
        }
        let (_, value) = self.entries.remove(place);
        proof {
            lemma_removed(before, *self, place as int);
        }
        Some(value)
    }
}

proof fn lemma_replaced<V>(before: TextMap<V>, after: TextMap<V>, place: int, value: V)
    requires
        before.wf(),
        0 <= place < before.entries@.len(),
        after.entries@ == before.entries@.update(place, (before.entries@[place].0, value)),
    ensures
        after.wf(),
        after@ == before@.insert(before.entries@[place].0@, value),
        after.keys() == before.keys(),
{
    let key = before.entries@[place].0@;
    assert(after.keys() =~= before.keys());
    assert forall|i: int, j: int| 0 <= i < j < after.entries@.len() implies text_before(
        (#[trigger] after.entries@[i]).0@,
        (#[trigger] after.entries@[j]).0@,
    ) by {
        assert(before.entries@[i].0@ == after.entries@[i].0@);
        assert(before.entries@[j].0@ == after.entries@[j].0@);
    }
    assert forall|k: Seq<char>| after@.dom().contains(k) == before@.insert(key, value).dom().contains(
        k,
    ) by {
        if has_key(after.entries@, k) {
            let i = key_index(after.entries@, k);
            assert(before.entries@[i].0@ == k);
        }
        if has_key(before.entries@, k) {
            let i = key_index(before.entries@, k);
            assert(after.entries@[i].0@ == k);
        }
        assert(after.entries@[place].0@ == key);
    }
    assert forall|k: Seq<char>| after@.dom().contains(k) implies after@[k] == before@.insert(
        key,
        value,
    )[k] by {
        let i = key_index(after.entries@, k);
        after.lemma_index(i);
        before.lemma_index(i);
        before.lemma_index(place);
    }
    assert(after@ =~= before@.insert(key, value));
}

proof fn lemma_inserted<V>(
    before: TextMap<V>,
    after: TextMap<V>,
    place: int,
    key: String,
    value: V,
)
    requires
        before.wf(),
        0 <= place <= before.entries@.len(),
        after.entries@ == before.entries@.insert(place, (key, value)),
        forall|i: int|
            0 <= i < place ==> text_before((#[trigger] before.entries@[i]).0@, key@),
        forall|i: int|
            place <= i < before.entries@.len() ==> text_before(
                key@,
                (#[trigger] before.entries@[i]).0@,
            ),
    ensures
        after.wf(),
        after@ == before@.insert(key@, value),
{
    let old_index = |i: int| if i < place { i } else { i - 1 };
    let new_index = |i: int| if i < place { i } else { i + 1 };
    assert forall|i: int| 0 <= i < after.entries@.len() && i != place implies #[trigger] after.entries@[i]
        == before.entries@[old_index(i)] by {}
    assert(after.entries@[place] == (key, value));
    assert forall|i: int, j: int| 0 <= i < j < after.entries@.len() implies text_before(
        (#[trigger] after.entries@[i]).0@,
        (#[trigger] after.entries@[j]).0@,
    ) by {
        if i != place && j != place {
            assert(text_before(
                before.entries@[old_index(i)].0@,
                before.entries@[old_index(j)].0@,
            ));
        }
    }
    assert forall|k: Seq<char>| after@.dom().contains(k) == before@.insert(key@, value).dom().contains(
        k,
    ) by {
        if has_key(after.entries@, k) {
            let i = key_index(after.entries@, k);
            if i != place {
                assert(before.entries@[old_index(i)].0@ == k);
            }
        }
        if has_key(before.entries@, k) {
            let i = key_index(before.entries@, k);
            assert(after.entries@[new_index(i)] == before.entries@[i]);
        }
    }
    assert forall|k: Seq<char>| after@.dom().contains(k) implies after@[k] == before@.insert(
        key@,
        value,
    )[k] by {
        let i = key_index(after.entries@, k);
        after.lemma_index(i);
        after.lemma_index(place);
        if i != place {
            before.lemma_index(old_index(i));
            lemma_text_before_irreflexive(key@);
        }
    }
    assert(after@ =~= before@.insert(key@, value));
}

proof fn lemma_removed<V>(before: TextMap<V>, after: TextMap<V>, place: int)
    requires
        before.wf(),
        0 <= place < before.entries@.len(),
        after.entries@ == before.entries@.remove(place),
    ensures
        after.wf(),
        after@ == before@.remove(before.entries@[place].0@),
{
    let key = before.entries@[place].0@;
    let old_index = |i: int| if i < place { i } else { i + 1 };
    let new_index = |i: int| if i < place { i } else { i - 1 };
    assert forall|i: int| 0 <= i < after.entries@.len() implies #[trigger] after.entries@[i]
        == before.entries@[old_index(i)] by {}
    assert forall|i: int, j: int| 0 <= i < j < after.entries@.len() implies text_before(
        (#[trigger] after.entries@[i]).0@,
        (#[trigger] after.entries@[j]).0@,
    ) by {
        assert(text_before(before.entries@[old_index(i)].0@, before.entries@[old_index(j)].0@));
    }
    before.lemma_index(place);
    assert forall|k: Seq<char>| after@.dom().contains(k) == before@.remove(key).dom().contains(k) by {
        if has_key(after.entries@, k) {
            let i = key_index(after.entries@, k);
            before.lemma_index(old_index(i));
        }
        if has_key(before.entries@, k) && k != key {
            let i = key_index(before.entries@, k);
            assert(after.entries@[new_index(i)] == before.entries@[i]);
        }
    }
    assert forall|k: Seq<char>| after@.dom().contains(k) implies after@[k] == before@.remove(key)[k] by {
        let i = key_index(after.entries@, k);
        after.lemma_index(i);
        before.lemma_index(old_index(i));
    }
    assert(after@ =~= before@.remove(key));
}

}
