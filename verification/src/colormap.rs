use std::collections::HashMap;
use vstd::prelude::*;

use crate::color::{lemma_u32_round_trip, rgb_value, Color};

verus! {

/// The key under which a colour is stored: its `0xRRGGBB` value.
pub open spec fn color_key(c: Color) -> u32 {
    rgb_value(c) as u32
}

proof fn lemma_color_key_injective(a: Color, b: Color)
    ensures
        color_key(a) == color_key(b) <==> a == b,
{
    lemma_u32_round_trip(a, 0);
    lemma_u32_round_trip(b, 0);
}

/// A map keyed by colours: the values are stored in a `HashMap` under the
/// colours' `0xRRGGBB` values, and the keys are also kept in insertion order.
pub struct ColorMap<V> {
    order: Vec<Color>,
    values: HashMap<u32, V>,
    map: Ghost<Map<Color, V>>,
}

impl<V> View for ColorMap<V> {
    type V = Map<Color, V>;

    closed spec fn view(&self) -> Map<Color, V> {
        self.map@
    }
}

/// The storage invariant, over the parts of a map.
spec fn parts_ok<V>(order: Seq<Color>, values: Map<u32, V>, map: Map<Color, V>) -> bool {
    &&& order.no_duplicates()
    &&& forall|i: int| 0 <= i < order.len() ==> #[trigger] map.contains_key(order[i])
    &&& forall|c: Color| #[trigger] map.contains_key(c) ==> order.contains(c)
    &&& forall|c: Color| #[trigger] map.contains_key(c) <==> values.contains_key(color_key(c))
    &&& forall|c: Color| #[trigger] map.contains_key(c) ==> values[color_key(c)] == map[c]
}

impl<V> ColorMap<V> {
    /// The keys in the order they were first inserted.
    pub closed spec fn key_order(&self) -> Seq<Color> {
        self.order@
    }

    #[verifier::type_invariant]
    spec fn inv(self) -> bool {
        parts_ok(self.order@, self.values@, self.map@)
    }

    fn from_parts(order: Vec<Color>, values: HashMap<u32, V>, Ghost(map): Ghost<Map<Color, V>>) -> (m: Self)
        requires
            parts_ok(order@, values@, map),
        ensures
            m@ == map,
            m.key_order() == order@,
    {
        ColorMap { order, values, map: Ghost(map) }
    }

    /// The empty map.
    pub fn new() -> (m: Self)
        ensures
            m@ == Map::<Color, V>::empty(),
            m.key_order() == Seq::<Color>::empty(),
    {
        let values: HashMap<u32, V> = HashMap::new();
        let order: Vec<Color> = Vec::new();
        assert(order@.no_duplicates());
        Self::from_parts(order, values, Ghost(Map::empty()))
    }

    /// Whether `key` has an entry.
    pub fn contains_key(&self, key: &Color) -> (b: bool)
        ensures
            b == self@.contains_key(*key),
    {
        proof {
            use_type_invariant(self);
        }
        let k = key.to_u32();
        self.values.contains_key(&k)
    }

    /// The value stored for `key`.
    pub fn get(&self, key: &Color) -> (r: Option<&V>)
        ensures
            match r {
                Some(v) => self@.contains_key(*key) && *v == self@[*key],
                None => !self@.contains_key(*key),
            },
    {
        proof {
            use_type_invariant(self);
        }
        let k = key.to_u32();
        self.values.get(&k)
    }

    /// Stores `value` for `key`, replacing any value stored before; a new key
    /// comes last in the insertion order.
    pub fn insert(&mut self, key: Color, value: V)
        ensures
            final(self)@ == old(self)@.insert(key, value),
            final(self).key_order() == (if old(self)@.contains_key(key) {
                old(self).key_order()
            } else {
                old(self).key_order().push(key)
            }),
    {
        proof {
            use_type_invariant(&*self);
        }
        let mut taken = ColorMap::new();
        std::mem::swap(&mut taken, self);
        proof {
            use_type_invariant(&taken);
        }
        let ColorMap { mut order, mut values, map } = taken;
        let ghost old_order = order@;
        let ghost old_values = values@;
        let ghost new_map = map@.insert(key, value);
        let k = key.to_u32();
        let had = values.insert(k, value);
        proof {
            assert forall|c: Color| #[trigger] new_map.contains_key(c) <==> values@.contains_key(color_key(c)) by {
                lemma_color_key_injective(c, key);
            }
            assert forall|c: Color| #[trigger] new_map.contains_key(c) implies values@[color_key(c)] == new_map[c] by {
                lemma_color_key_injective(c, key);
            }
        }
        match had {
            Some(_) => {
                assert(map@.contains_key(key));
                assert(parts_ok(order@, values@, new_map));
                *self = ColorMap::from_parts(order, values, Ghost(new_map));
            },
            None => {
                assert(!map@.contains_key(key));
                order.push(key);
                proof {
                    assert forall|i: int, j: int|
                        0 <= i < order@.len() && 0 <= j < order@.len() && i != j implies order@[i] != order@[j] by {
                        if i < old_order.len() && j < old_order.len() {
                            assert(old_order[i] != old_order[j]);
                        } else if i < old_order.len() {
                            assert(map@.contains_key(old_order[i]));
                        } else {
                            assert(map@.contains_key(old_order[j]));
                        }
                    }
                    assert forall|i: int| 0 <= i < order@.len() implies #[trigger] new_map.contains_key(order@[i]) by {
                        if i < old_order.len() {
                            assert(map@.contains_key(old_order[i]));
                        }
                    }
                    assert forall|c: Color| #[trigger] new_map.contains_key(c) implies order@.contains(c) by {
                        if c != key {
                            assert(old_order.contains(c));
                            let j = choose|j: int| 0 <= j < old_order.len() && old_order[j] == c;
                            assert(order@[j] == c);
                        } else {
                            assert(order@[order@.len() - 1] == c);
                        }
                    }
                }
                *self = ColorMap::from_parts(order, values, Ghost(new_map));
            },
        }
    }

    /// The number of entries.
    pub fn len(&self) -> (n: usize)
        ensures
            n == self@.dom().len(),
            self@.dom().finite(),
    {
        proof {
            use_type_invariant(self);
            let ks = self.order@;
            assert(ks.to_set() =~= self@.dom());
            ks.unique_seq_to_set();
            vstd::seq_lib::seq_to_set_is_finite(ks);
        }
        self.order.len()
    }

    /// Whether the map has no entry.
    pub fn is_empty(&self) -> (b: bool)
        ensures
            b == (self@.dom() =~= Set::<Color>::empty()),
    {
        proof {
            use_type_invariant(self);
            if self.order@.len() > 0 {
                assert(self@.contains_key(self.order@[0]));
            }
        }
        self.order.len() == 0
    }

    /// The keys, in the order they were first inserted.
    pub fn keys(&self) -> (r: Vec<Color>)
        ensures
            r@ == self.key_order(),
            r@.to_set() == self@.dom(),
            r@.no_duplicates(),
    {
        proof {
            use_type_invariant(self);
        }
        let mut r: Vec<Color> = Vec::new();
        let mut i: usize = 0;
        while i < self.order.len()
            invariant
                0 <= i <= self.order@.len(),
                r@ == self.order@.take(i as int),
            decreases self.order@.len() - i,
        {
            r.push(self.order[i]);
            i = i + 1;
            assert(r@ =~= self.order@.take(i as int));
        }
        assert(r@ =~= self.order@);
        assert(r@.to_set() =~= self@.dom());
        r
    }
}

/// What a read gives back of a write: after storing `v` for `k`, `k` reads
/// `v`, and every other key reads what it read before.
pub proof fn lemma_insert_then_get<V>(m: Map<Color, V>, k: Color, v: V, other: Color)
    ensures
        m.insert(k, v).contains_key(k),
        m.insert(k, v)[k] == v,
        other != k ==> (m.insert(k, v).contains_key(other) == m.contains_key(other)),
        other != k && m.contains_key(other) ==> m.insert(k, v)[other] == m[other],
{
}

} // verus!
