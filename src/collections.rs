//! A small association table: a vector of slots, each empty or holding one
//! key and its value, searched linearly.

use vstd::prelude::*;

verus! {

/// A key that the table can compare: two keys are the same key exactly when
/// their views are equal.
pub trait TableKey: View + Sized {
    fn same_key(&self, other: &Self) -> (r: bool)
        ensures
            r == (self@ == other@),
    ;
}

impl TableKey for u64 {
    fn same_key(&self, other: &u64) -> (r: bool) {
        *self == *other
    }
}

impl TableKey for i32 {
    fn same_key(&self, other: &i32) -> (r: bool) {
        *self == *other
    }
}

/// The pairs held by `s`, in slot order.
pub open spec fn live_pairs<K, V>(s: Seq<Option<(K, V)>>) -> Seq<(K, V)>
    decreases s.len(),
{
    if s.len() == 0 {
        Seq::empty()
    } else {
        let rest = live_pairs(s.drop_last());
        match s.last() {
            Some(p) => rest.push(p),
            None => rest,
        }
    }
}

/// Every pair that `live_pairs` lists stands in some slot.
proof fn lemma_live_pairs_in_slots<K, V>(s: Seq<Option<(K, V)>>)
    ensures
        forall|j: int|
            0 <= j < live_pairs(s).len() ==> exists|i: int|
                0 <= i < s.len() && s[i] == Some(#[trigger] live_pairs(s)[j]),
    decreases s.len(),
{
    if s.len() > 0 {
        let r = s.drop_last();
        lemma_live_pairs_in_slots(r);
        assert forall|j: int| 0 <= j < live_pairs(s).len() implies exists|i: int|
            0 <= i < s.len() && s[i] == Some(#[trigger] live_pairs(s)[j]) by {
            if j < live_pairs(r).len() {
                let i = choose|i: int| 0 <= i < r.len() && r[i] == Some(live_pairs(r)[j]);
                assert(s[i] == r[i]);
            } else {
                assert(s[s.len() - 1] == Some(live_pairs(s)[j]));
            }
        }
    }
}

/// Pairs that `live_pairs` lists in order stand in slots in the same order.
proof fn lemma_live_pairs_ordered<K, V>(s: Seq<Option<(K, V)>>)
    ensures
        forall|i: int, j: int|
            0 <= i < j < live_pairs(s).len() ==> exists|a: int, b: int|
                0 <= a < b < s.len() && s[a] == Some(#[trigger] live_pairs(s)[i]) && s[b] == Some(
                    #[trigger] live_pairs(s)[j],
                ),
    decreases s.len(),
{
    if s.len() > 0 {
        let r = s.drop_last();
        lemma_live_pairs_ordered(r);
        lemma_live_pairs_in_slots(r);
        assert forall|i: int, j: int| 0 <= i < j < live_pairs(s).len() implies exists|a: int, b: int|
            0 <= a < b < s.len() && s[a] == Some(#[trigger] live_pairs(s)[i]) && s[b] == Some(
                #[trigger] live_pairs(s)[j],
            ) by {
            if j < live_pairs(r).len() {
                let (a, b) = choose|a: int, b: int|
                    0 <= a < b < r.len() && r[a] == Some(live_pairs(r)[i]) && r[b] == Some(
                        live_pairs(r)[j],
                    );
                assert(s[a] == r[a] && s[b] == r[b]);
            } else {
                let a = choose|a: int| 0 <= a < r.len() && r[a] == Some(live_pairs(r)[i]);
                assert(s[a] == r[a]);
                assert(s[s.len() - 1] == Some(live_pairs(s)[j]));
            }
        }
    }
}

/// Every slot that holds a pair shows up in `live_pairs`.
proof fn lemma_slot_in_live_pairs<K, V>(s: Seq<Option<(K, V)>>, i: int)
    requires
        0 <= i < s.len(),
        s[i] is Some,
    ensures
        exists|j: int| 0 <= j < live_pairs(s).len() && live_pairs(s)[j] == s[i]->Some_0,
    decreases s.len(),
{
    let r = s.drop_last();
    if i == s.len() - 1 {
        assert(live_pairs(s)[live_pairs(r).len() as int] == s[i]->Some_0);
    } else {
        lemma_slot_in_live_pairs(r, i);
        let j = choose|j: int| 0 <= j < live_pairs(r).len() && live_pairs(r)[j] == r[i]->Some_0;
        assert(live_pairs(s)[j] == live_pairs(r)[j]);
    }
}

proof fn lemma_live_pairs_empty<K, V>(s: Seq<Option<(K, V)>>)
    requires
        forall|i: int| 0 <= i < s.len() ==> s[i] is None,
    ensures
        live_pairs(s) == Seq::<(K, V)>::empty(),
    decreases s.len(),
{
    if s.len() > 0 {
        lemma_live_pairs_empty(s.drop_last());
    }
}

/// A table of at least `CAP` slots, each empty or holding one key and its
/// value. No two slots hold keys with the same view.
#[derive(Debug)]
pub struct HashMap<K, V, const CAP: usize> {
    entries: Vec<Option<(K, V)>>,
}

impl<K: TableKey, V, const CAP: usize> View for HashMap<K, V, CAP> {
    type V = Map<K::V, V>;

    closed spec fn view(&self) -> Map<K::V, V> {
        Map::new(
            |k: K::V| exists|i: int| self.holds_at(i, k),
            |k: K::V| self.slots()[self.index_of(k)]->Some_0.1,
        )
    }
}

impl<K: TableKey, V, const CAP: usize> HashMap<K, V, CAP> {
    /// The slots, in order.
    pub closed spec fn slots(&self) -> Seq<Option<(K, V)>> {
        self.entries@
    }

    /// The pairs held, in the order in which `iter` hands them out.
    pub open spec fn pairs(&self) -> Seq<(K, V)> {
        live_pairs(self.slots())
    }

    /// Slot `i` holds a key whose view is `k`.
    pub open spec fn holds_at(&self, i: int, k: K::V) -> bool {
        &&& 0 <= i < self.slots().len()
        &&& self.slots()[i] is Some
        &&& self.slots()[i]->Some_0.0@ == k
    }

    /// The slot that holds a key whose view is `k`, where one does.
    pub closed spec fn index_of(&self, k: K::V) -> int {
        choose|i: int| self.holds_at(i, k)
    }

    /// Keys are unique by view.
    pub closed spec fn wf(&self) -> bool {
        &&& forall|i: int, j: int, k: K::V|
            #[trigger] self.holds_at(i, k) && #[trigger] self.holds_at(j, k) ==> i == j
    }

    proof fn lemma_view_at(&self, i: int)
        requires
            self.wf(),
            0 <= i < self.slots().len(),
            self.slots()[i] is Some,
        ensures
            self@.contains_key(self.slots()[i]->Some_0.0@),
            self@[self.slots()[i]->Some_0.0@] == self.slots()[i]->Some_0.1,
    {
        let k = self.slots()[i]->Some_0.0@;
        assert(self.holds_at(i, k));
        assert(self.holds_at(self.index_of(k), k));
    }

    /// `iter` hands out each key once.
    pub proof fn lemma_pairs_distinct(&self)
        requires
            self.wf(),
        ensures
            forall|i: int, j: int|
                0 <= i < self.pairs().len() && 0 <= j < self.pairs().len() && i != j ==> (
                #[trigger] self.pairs()[i]).0@ != (#[trigger] self.pairs()[j]).0@,
    {
        lemma_live_pairs_ordered(self.slots());
        assert forall|i: int, j: int|
            0 <= i < self.pairs().len() && 0 <= j < self.pairs().len() && i != j implies (
            #[trigger] self.pairs()[i]).0@ != (#[trigger] self.pairs()[j]).0@ by {
            let (x, y) = if i < j {
                (i, j)
            } else {
                (j, i)
            };
            let (a, b) = choose|a: int, b: int|
                0 <= a < b < self.slots().len() && self.slots()[a] == Some(self.pairs()[x])
                    && self.slots()[b] == Some(self.pairs()[y]);
            if self.pairs()[i].0@ == self.pairs()[j].0@ {
                let k = self.pairs()[i].0@;
                assert(self.holds_at(a, k) && self.holds_at(b, k));
            }
        }
    }

    /// The map holds finitely many keys: those `iter` hands out.
    pub proof fn lemma_dom_finite(&self)
        requires
            self.wf(),
        ensures
            self@.dom().finite(),
            self@.dom() == self.pairs().map_values(|p: (K, V)| p.0@).to_set(),
    {
        self.lemma_pairs_in_map();
        self.lemma_map_in_pairs();
        let keys = self.pairs().map_values(|p: (K, V)| p.0@);
        assert forall|k: K::V| #[trigger] self@.dom().contains(k) == keys.to_set().contains(k) by {
            if self@.dom().contains(k) {
                let j = choose|j: int| 0 <= j < self.pairs().len() && (#[trigger] self.pairs()[j]).0@ == k;
                assert(keys[j] == k);
            }
            if keys.to_set().contains(k) {
                let j = choose|j: int| 0 <= j < keys.len() && keys[j] == k;
                assert(self.pairs()[j].0@ == k);
            }
        }
        assert(self@.dom() =~= keys.to_set());
    }

    /// Each key of the map is handed out by `iter`.
    pub proof fn lemma_map_in_pairs(&self)
        requires
            self.wf(),
        ensures
            forall|k: K::V| #[trigger]
                self@.contains_key(k) ==> exists|j: int|
                    0 <= j < self.pairs().len() && (#[trigger] self.pairs()[j]).0@ == k,
    {
        assert forall|k: K::V| #[trigger] self@.contains_key(k) implies exists|j: int|
            0 <= j < self.pairs().len() && (#[trigger] self.pairs()[j]).0@ == k by {
            let i = choose|i: int| self.holds_at(i, k);
            lemma_slot_in_live_pairs(self.slots(), i);
            let j = choose|j: int|
                0 <= j < live_pairs(self.slots()).len() && live_pairs(self.slots())[j]
                    == self.slots()[i]->Some_0;
            assert(self.pairs()[j].0@ == k);
        }
    }

    /// Each pair handed out is the key's entry in the map.
    pub proof fn lemma_pairs_in_map(&self)
        requires
            self.wf(),
        ensures
            forall|j: int|
                0 <= j < self.pairs().len() ==> {
                    &&& self@.contains_key(#[trigger] self.pairs()[j].0@)
                    &&& self@[self.pairs()[j].0@] == self.pairs()[j].1
                },
    {
        lemma_live_pairs_in_slots(self.slots());
        assert forall|j: int| 0 <= j < self.pairs().len() implies {
            &&& self@.contains_key(#[trigger] self.pairs()[j].0@)
            &&& self@[self.pairs()[j].0@] == self.pairs()[j].1
        } by {
            let i = choose|i: int|
                0 <= i < self.slots().len() && self.slots()[i] == Some(self.pairs()[j]);
            self.lemma_view_at(i);
        }
    }
}

/// `b` is `a` with the value in the slot that holds `k` replaced by `v`.
pub closed spec fn value_replaced<K: TableKey, V, const CAP: usize>(
    a: HashMap<K, V, CAP>,
    b: HashMap<K, V, CAP>,
    k: K::V,
    v: V,
) -> bool {
    exists|i: int|
        a.holds_at(i, k) && b.slots() == a.slots().update(i, Some((a.slots()[i]->Some_0.0, v)))
}

/// Changing a value through `get_mut` changes it in the map, and keeps the
/// number of pairs.
pub proof fn lemma_value_replaced<K: TableKey, V, const CAP: usize>(
    a: HashMap<K, V, CAP>,
    b: HashMap<K, V, CAP>,
    k: K::V,
    v: V,
)
    requires
        a.wf(),
        value_replaced(a, b, k, v),
    ensures
        b.wf(),
        b@ == a@.insert(k, v),
        b@.dom().finite(),
        b.pairs().len() == a.pairs().len(),
{
    let i = choose|i: int|
        a.holds_at(i, k) && b.slots() == a.slots().update(i, Some((a.slots()[i]->Some_0.0, v)));
    assert forall|x: int, kk: K::V| #[trigger] b.holds_at(x, kk) == a.holds_at(x, kk) by {}
    assert forall|kk: K::V| #[trigger] b@.contains_key(kk) == a@.insert(k, v).contains_key(kk) by {
        if b@.contains_key(kk) {
            let w = choose|w: int| b.holds_at(w, kk);
            assert(a.holds_at(w, kk));
        }
        if a@.contains_key(kk) {
            let w = choose|w: int| a.holds_at(w, kk);
            assert(b.holds_at(w, kk));
        }
        assert(b.holds_at(i, k));
    }
    assert forall|kk: K::V| #[trigger] b@.contains_key(kk) implies b@[kk] == a@.insert(k, v)[kk] by {
        assert(b.holds_at(b.index_of(kk), kk));
        assert(a.holds_at(a.index_of(kk), kk));
    }
    assert(b@ == a@.insert(k, v));
    lemma_live_pairs_len_update(a.slots(), i, Some((a.slots()[i]->Some_0.0, v)));
    b.lemma_dom_finite();
}

proof fn lemma_live_pairs_len_update<K, V>(s: Seq<Option<(K, V)>>, i: int, x: Option<(K, V)>)
    requires
        0 <= i < s.len(),
        s[i] is Some,
        x is Some,
    ensures
        live_pairs(s.update(i, x)).len() == live_pairs(s).len(),
    decreases s.len(),
{
    if i < s.len() - 1 {
        assert(s.update(i, x).drop_last() == s.drop_last().update(i, x));
        lemma_live_pairs_len_update(s.drop_last(), i, x);
    } else {
        assert(s.update(i, x).drop_last() == s.drop_last());
    }
}

impl<K: TableKey, V, const CAP: usize> HashMap<K, V, CAP> {
    /// An empty table of `CAP` slots.
    pub fn init() -> (r: Self)
        ensures
            r.wf(),
            r@.dom().finite(),
            r@ == Map::<K::V, V>::empty(),
            r.pairs() == Seq::<(K, V)>::empty(),
    {
        let mut v: Vec<Option<(K, V)>> = Vec::new();
        let mut i: usize = 0;
        while i < CAP
            invariant
                i <= CAP,
                v@.len() == i,
                forall|j: int| 0 <= j < i ==> v@[j] is None,
            decreases CAP - i,
        {
            v.push(None);
            i = i + 1;
        }
        let r = HashMap { entries: v };
        proof {
            lemma_live_pairs_empty(r.slots());
            assert(r@ == Map::<K::V, V>::empty());
        }
        r
    }

    /// An empty table of `CAP` slots.
    pub fn new() -> (r: Self)
        ensures
            r.wf(),
            r@.dom().finite(),
            r@ == Map::<K::V, V>::empty(),
            r.pairs() == Seq::<(K, V)>::empty(),
    {
        Self::init()
    }

    /// The slot that holds `key`, if one does.
    fn find(&self, key: &K) -> (r: Option<usize>)
        requires
            self.wf(),
        ensures
            match r {
                Some(i) => self.holds_at(i as int, key@),
                None => !self@.contains_key(key@),
            },
    {
        proof {
            if self@.contains_key(key@) {
                assert(self.holds_at(self.index_of(key@), key@));
            }
        }
        let mut i: usize = 0;
        while i < self.entries.len()
            invariant
                self.wf(),
                i <= self.slots().len(),
                forall|j: int| 0 <= j < i ==> !self.holds_at(j, key@),
            decreases self.slots().len() - i,
        {
            let hit = match &self.entries[i] {
                Some(p) => p.0.same_key(key),
                None => false,
            };
            if hit {
                return Some(i);
            }
            i = i + 1;
        }
        None
    }

    /// The pairs held, in slot order.
    pub fn iter(&self) -> (r: Vec<(&K, &V)>)
        ensures
            r@.len() == self.pairs().len(),
            forall|j: int|
                0 <= j < r@.len() ==> *(#[trigger] r@[j]).0 == self.pairs()[j].0 && *r@[j].1
                    == self.pairs()[j].1,
    {
        let mut out: Vec<(&K, &V)> = Vec::new();
        let mut i: usize = 0;
        while i < self.entries.len()
            invariant
                i <= self.slots().len(),
                out@.len() == live_pairs(self.slots().subrange(0, i as int)).len(),
                forall|j: int|
                    0 <= j < out@.len() ==> *(#[trigger] out@[j]).0 == live_pairs(
                        self.slots().subrange(0, i as int),
                    )[j].0 && *out@[j].1 == live_pairs(self.slots().subrange(0, i as int))[j].1,
            decreases self.slots().len() - i,
        {
            assert(self.slots().subrange(0, i + 1).drop_last() == self.slots().subrange(
                0,
                i as int,
            ));
            match &self.entries[i] {
                Some(p) => {
                    out.push((&p.0, &p.1));
                },
                None => {},
            }
            i = i + 1;
        }
        assert(self.slots().subrange(0, self.slots().len() as int) == self.slots());
        out
    }

    /// An empty slot, made at the end when every slot is taken.
    fn free_slot(&mut self) -> (f: usize)
        requires
            old(self).wf(),
        ensures
            final(self).wf(),
            final(self)@ == old(self)@,
            f < final(self).slots().len(),
            final(self).slots()[f as int] is None,
            forall|i: int, kk: K::V| #[trigger]
                final(self).holds_at(i, kk) == old(self).holds_at(i, kk),
    {
        let mut i: usize = 0;
        while i < self.entries.len()
            invariant
                self.wf(),
                i <= self.slots().len(),
                forall|j: int| 0 <= j < i ==> self.slots()[j] is Some,
            decreases self.slots().len() - i,
        {
            if self.entries[i].is_none() {
                return i;
            }
            i = i + 1;
        }
        let ghost before = *self;
        self.entries.push(None);
        proof {
            assert forall|a: int, kk: K::V| #[trigger] self.holds_at(a, kk) == before.holds_at(
                a,
                kk,
            ) by {
                if 0 <= a < before.slots().len() {
                    assert(self.slots()[a] == before.slots()[a]);
                }
            }
            assert forall|kk: K::V| #[trigger] self@.contains_key(kk) == before@.contains_key(kk) by {
                if self@.contains_key(kk) {
                    let w = choose|w: int| self.holds_at(w, kk);
                    assert(before.holds_at(w, kk));
                }
                if before@.contains_key(kk) {
                    let w = choose|w: int| before.holds_at(w, kk);
                    assert(self.holds_at(w, kk));
                }
            }
            assert forall|kk: K::V| #[trigger] self@.contains_key(kk) implies self@[kk]
                == before@[kk] by {
                assert(self.holds_at(self.index_of(kk), kk));
                assert(before.holds_at(before.index_of(kk), kk));
                assert(self.slots()[before.index_of(kk)] == before.slots()[before.index_of(kk)]);
            }
            assert(self@ == before@);
        }
        (self.entries.len() - 1) as usize
    }

    /// Puts `value` under `key`: in the slot that holds the key, else in the
    /// first empty slot, else in a new slot at the end.
    pub fn insert(&mut self, key: K, value: V)
        requires
            old(self).wf(),
        ensures
            final(self).wf(),
            final(self)@ == old(self)@.insert(key@, value),
            final(self)@.dom().finite(),
    {
        let ghost k = key@;
        let target = match self.find(&key) {
            Some(i) => i,
            None => self.free_slot(),
        };
        let ghost before = *self;
        assert(before.holds_at(target as int, k) || (before.slots()[target as int] is None
            && !before@.contains_key(k)));
        self.entries[target] = Some((key, value));
        proof {
            assert forall|i: int, j: int, kk: K::V|
                #[trigger] self.holds_at(i, kk) && #[trigger] self.holds_at(j, kk) implies i == j by {
                if i != target && j != target {
                    assert(before.holds_at(i, kk) && before.holds_at(j, kk));
                } else if i == target && j != target {
                    assert(before.holds_at(j, k));
                } else if j == target && i != target {
                    assert(before.holds_at(i, k));
                }
            }
            assert forall|kk: K::V| #[trigger] self@.contains_key(kk) == before@.insert(
                k,
                value,
            ).contains_key(kk) by {
                if kk != k {
                    if self@.contains_key(kk) {
                        let i = choose|i: int| self.holds_at(i, kk);
                        assert(before.holds_at(i, kk));
                    }
                    if before@.contains_key(kk) {
                        let i = choose|i: int| before.holds_at(i, kk);
                        assert(self.holds_at(i, kk));
                    }
                } else {
                    assert(self.holds_at(target as int, k));
                }
            }
            assert forall|kk: K::V| #[trigger] self@.contains_key(kk) implies self@[kk] == before@.insert(
                k,
                value,
            )[kk] by {
                let i = self.index_of(kk);
                assert(self.holds_at(i, kk));
                if kk == k {
                    assert(self.holds_at(target as int, k));
                } else {
                    assert(before.holds_at(i, kk));
                    assert(before.holds_at(before.index_of(kk), kk));
                }
            }
            assert(self@ == before@.insert(k, value));
            self.lemma_dom_finite();
        }
    }

    /// The value under `key`.
    pub fn get(&self, key: &K) -> (r: Option<&V>)
        requires
            self.wf(),
        ensures
            match r {
                Some(v) => self@.contains_key(key@) && *v == self@[key@],
                None => !self@.contains_key(key@),
            },
    {
        match self.find(key) {
            Some(i) => {
                proof {
                    self.lemma_view_at(i as int);
                }
                match &self.entries[i] {
                    Some(p) => Some(&p.1),
                    None => None,
                }
            },
            None => None,
        }
    }

    /// The value under `key`, to be changed in place.
    pub fn get_mut(&mut self, key: &K) -> (r: Option<&mut V>)
        requires
            old(self).wf(),
        ensures
            match r {
                Some(v) => {
                    &&& old(self)@.contains_key(key@)
                    &&& *v == old(self)@[key@]
                    &&& value_replaced(*old(self), *final(self), key@, *final(v))
                },
                None => !old(self)@.contains_key(key@) && *final(self) == *old(self),
            },
    {
        match self.find(key) {
            Some(i) => {
                proof {
                    self.lemma_view_at(i as int);
                }
                match &mut self.entries[i] {
                    Some(p) => Some(&mut p.1),
                    None => None,
                }
            },
            None => None,
        }
    }

    /// Takes `key` and its value out.
    pub fn remove(&mut self, key: &K) -> (r: Option<V>)
        requires
            old(self).wf(),
        ensures
            final(self).wf(),
            final(self)@ == old(self)@.remove(key@),
            final(self)@.dom().finite(),
            r == (if old(self)@.contains_key(key@) {
                Some(old(self)@[key@])
            } else {
                None
            }),
    {
        match self.find(key) {
            Some(i) => {
                let ghost before = *self;
                proof {
                    self.lemma_view_at(i as int);
                }
                let slot = self.entries[i].take();
                proof {
                    let k = key@;
                    assert forall|a: int, b: int, kk: K::V|
                        #[trigger] self.holds_at(a, kk) && #[trigger] self.holds_at(b, kk) implies a
                        == b by {
                        assert(before.holds_at(a, kk) && before.holds_at(b, kk));
                    }
                    assert forall|kk: K::V| #[trigger] self@.contains_key(kk) == before@.remove(
                        k,
                    ).contains_key(kk) by {
                        if self@.contains_key(kk) {
                            let a = choose|a: int| self.holds_at(a, kk);
                            assert(before.holds_at(a, kk));
                            assert(before.holds_at(i as int, k));
                        }
                        if before@.contains_key(kk) && kk != k {
                            let a = choose|a: int| before.holds_at(a, kk);
                            assert(before.holds_at(i as int, k));
                            assert(self.holds_at(a, kk));
                        }
                    }
                    assert forall|kk: K::V| #[trigger] self@.contains_key(kk) implies self@[kk]
                        == before@.remove(k)[kk] by {
                        let a = self.index_of(kk);
                        assert(self.holds_at(a, kk));
                        assert(before.holds_at(a, kk));
                        assert(before.holds_at(before.index_of(kk), kk));
                    }
                    assert(self@ == before@.remove(k));
                    self.lemma_dom_finite();
                }
                match slot {
                    Some(p) => Some(p.1),
                    None => None,
                }
            },
            None => {
                proof {
                    assert(self@ == self@.remove(key@));
                    self.lemma_dom_finite();
                }
                None
            },
        }
    }

    /// Whether `key` is held.
    pub fn contains_key(&self, key: &K) -> (r: bool)
        requires
            self.wf(),
        ensures
            r == self@.contains_key(key@),
    {
        self.get(key).is_some()
    }

    /// Empties every slot.
    pub fn clear(&mut self)
        requires
            old(self).wf(),
        ensures
            final(self).wf(),
            final(self)@.dom().finite(),
            final(self)@ == Map::<K::V, V>::empty(),
            final(self).pairs() == Seq::<(K, V)>::empty(),
    {
        let mut i: usize = 0;
        while i < self.entries.len()
            invariant
                i <= self.slots().len(),
                forall|j: int| 0 <= j < i ==> self.slots()[j] is None,
            decreases self.slots().len() - i,
        {
            self.entries[i] = None;
            i = i + 1;
        }
        proof {
            lemma_live_pairs_empty(self.slots());
            assert(self@ == Map::<K::V, V>::empty());
        }
    }
}

} // verus!
