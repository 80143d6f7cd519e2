//! The mapping that an object can hold: entries in ascending order of their
//! keys, no key twice.
use crate::model::{canon_entries, Raw, Val};
use crate::order::{
    lemma_val_lt_irreflexive, lemma_val_lt_total, lemma_val_lt_transitive, val_lt, Rel,
};
use crate::value::{view_entries, Obj};
use vstd::prelude::*;

verus! {

/// A mapping from objects to objects, its entries held in ascending order of
/// their keys.
#[derive(Debug)]
pub struct ObjMap {
    pub(crate) entries: Vec<(Obj, Obj)>,
}

impl View for ObjMap {
    type V = Seq<(Raw, Raw)>;

    closed spec fn view(&self) -> Seq<(Raw, Raw)>
        decreases self,
    {
        view_entries(self.entries@)
    }
}

/// Whether the keys of the entries ascend strictly, so that no key occurs
/// twice.
pub open spec fn keys_ascend(entries: Seq<(Val, Val)>) -> bool {
    forall|i: int, j: int| 0 <= i < j < entries.len() ==> val_lt(entries[i].0, entries[j].0)
}

/// The first position at or after `i` whose key does not precede `key`; the
/// number of entries where there is none.
pub open spec fn lower_bound(entries: Seq<(Raw, Raw)>, key: Val, i: nat) -> nat
    decreases entries.len() - i,
{
    if i < entries.len() && val_lt(entries[i as int].0.canon(), key) {
        lower_bound(entries, key, i + 1)
    } else {
        i
    }
}

/// The value stored under a key equal to `key`, if there is one, in entries
/// whose keys ascend.
pub open spec fn raw_get(entries: Seq<(Raw, Raw)>, key: Val) -> Option<Raw> {
    let p = lower_bound(entries, key, 0) as int;
    if p < entries.len() && entries[p].0.canon() == key {
        Some(entries[p].1)
    } else {
        None
    }
}

/// The entries after `value` is stored under `key`: where an equal key is
/// present its value is replaced and the key that was there stays, else the
/// new entry goes to the place that keeps the keys ascending.
pub open spec fn raw_put(entries: Seq<(Raw, Raw)>, key: Raw, value: Raw) -> Seq<(Raw, Raw)> {
    let p = lower_bound(entries, key.canon(), 0) as int;
    if p < entries.len() && entries[p].0.canon() == key.canon() {
        entries.update(p, (entries[p].0, value))
    } else {
        entries.insert(p, (key, value))
    }
}

/// The entries after the first `n` of `pairs` are stored in turn, each key
/// with its value.
pub open spec fn put_all(entries: Seq<(Raw, Raw)>, pairs: Seq<(Raw, Raw)>, n: nat) -> Seq<
    (Raw, Raw),
>
    decreases n,
{
    if n == 0 || n > pairs.len() {
        entries
    } else {
        raw_put(put_all(entries, pairs, (n - 1) as nat), pairs[n - 1].0, pairs[n - 1].1)
    }
}

/// The value of the last of the first `n` pairs whose key equals `key`, if
/// there is one.
pub open spec fn last_value(pairs: Seq<(Raw, Raw)>, n: nat, key: Val) -> Option<Raw>
    decreases n,
{
    if n == 0 || n > pairs.len() {
        None
    } else if pairs[n - 1].0.canon() == key {
        Some(pairs[n - 1].1)
    } else {
        last_value(pairs, (n - 1) as nat, key)
    }
}

impl ObjMap {
    /// The keys of a mapping ascend strictly.
    #[verifier::type_invariant]
    closed spec fn ascending(self) -> bool {
        keys_ascend(canon_entries(self@))
    }

    /// The canonical keys and values of the entries, in stored order.
    pub open spec fn vals(&self) -> Seq<(Val, Val)> {
        canon_entries(self@)
    }

    /// The view of a mapping is that of its stored entries.
    pub(crate) proof fn lemma_view(&self)
        ensures
            self@ == view_entries(self.entries@),
    {
    }

    /// A mapping without entries.
    pub fn new() -> (m: ObjMap)
        ensures
            m@ == Seq::<(Raw, Raw)>::empty(),
    {
        let m = ObjMap { entries: Vec::new() };
        m
    }

    /// The number of entries.
    pub fn len(&self) -> (n: usize)
        ensures
            n == self@.len(),
            keys_ascend(self.vals()),
    {
        proof {
            use_type_invariant(self);
        }
        self.entries.len()
    }

    /// Whether the mapping has no entry.
    pub fn is_empty(&self) -> (b: bool)
        ensures
            b == (self@.len() == 0),
    {
        self.entries.len() == 0
    }

    /// The entries, in ascending order of their keys.
    pub fn entries(&self) -> (entries: &Vec<(Obj, Obj)>)
        ensures
            view_entries(entries@) == self@,
            keys_ascend(self.vals()),
    {
        proof {
            use_type_invariant(self);
        }
        &self.entries
    }

    /// The mapping that holds the pairs, stored in turn: where two keys are
    /// equal, the later value is held under the earlier key.
    pub fn from_pairs(pairs: Vec<(Obj, Obj)>) -> (m: ObjMap)
        ensures
            m@ == put_all(Seq::<(Raw, Raw)>::empty(), view_entries(pairs@), pairs@.len()),
            keys_ascend(m.vals()),
    {
        let ghost given = view_entries(pairs@);
        let mut pairs = pairs;
        let mut m = ObjMap::new();
        let mut i: usize = 0;
        while i < pairs.len()
            invariant
                i <= pairs.len(),
                given.len() == pairs.len(),
                forall|j: int|
                    i <= j < pairs.len() ==> given[j] == ((#[trigger] pairs@[j]).0@, pairs@[j].1@),
                m@ == put_all(Seq::<(Raw, Raw)>::empty(), given, i as nat),
            decreases pairs.len() - i,
        {
            let mut pair = (Obj::Null, Obj::Null);
            let slot = &mut pairs[i];
            core::mem::swap(slot, &mut pair);
            m.insert(pair.0, pair.1);
            i += 1;
        }
        proof {
            use_type_invariant(&m);
        }
        m
    }

    /// The position of the first key that does not precede `key`.
    fn search(&self, key: &Obj) -> (p: usize)
        ensures
            p == lower_bound(self@, key.val(), 0),
            p <= self@.len(),
    {
        let ghost x = canon_entries(self@);
        let ghost k = key.val();
        proof {
            use_type_invariant(self);
        }
        let mut lo: usize = 0;
        let mut hi: usize = self.entries.len();
        while lo < hi
            invariant
                lo <= hi <= self.entries.len(),
                x == canon_entries(self@),
                x.len() == self.entries.len(),
                k == key.val(),
                keys_ascend(x),
                forall|j: int|
                    0 <= j < x.len() ==> x[j] == (
                        (#[trigger] self.entries@[j]).0.val(),
                        self.entries@[j].1.val(),
                    ),
                forall|j: int| 0 <= j < lo ==> val_lt(#[trigger] x[j].0, k),
                forall|j: int| hi <= j < x.len() ==> !val_lt(#[trigger] x[j].0, k),
            decreases hi - lo,
        {
            let mid = lo + (hi - lo) / 2;
            let r = self.entries[mid].0.compare(key);
            if r == Rel::Before {
                assert forall|j: int| 0 <= j < mid + 1 implies val_lt(#[trigger] x[j].0, k) by {
                    if j < mid {
                        lemma_val_lt_transitive(x[j].0, x[mid as int].0, k);
                    }
                }
                lo = mid + 1;
            } else {
                assert forall|j: int| mid <= j < x.len() implies !val_lt(#[trigger] x[j].0, k) by {
                    lemma_val_lt_irreflexive(k);
                    if mid < j && val_lt(x[j].0, k) {
                        lemma_val_lt_transitive(x[mid as int].0, x[j].0, k);
                    }
                }
                hi = mid;
            }
        }
        proof {
            assert forall|j: int| 0 <= j < lo implies val_lt(
                #[trigger] self@[j].0.canon(),
                k,
            ) by {
                assert(x[j].0 == self@[j].0.canon());
            }
            if lo < x.len() {
                assert(x[lo as int].0 == self@[lo as int].0.canon());
            }
            lemma_lower_bound_is(self@, k, 0, lo as nat);
        }
        lo
    }

    /// The value stored under a key equal to `key`.
    pub fn get(&self, key: &Obj) -> (r: Option<&Obj>)
        ensures
            match r {
                Some(v) => raw_get(self@, key.val()) == Some(v@),
                None => raw_get(self@, key.val()) is None,
            },
    {
        let p = self.search(key);
        if p < self.entries.len() && self.entries[p].0.compare(key) == Rel::Same {
            Some(&self.entries[p].1)
        } else {
            None
        }
    }

    /// Stores `value` under `key` and returns the value that an equal key
    /// held before, if there was one. The key that was there stays.
    pub fn insert(&mut self, key: Obj, value: Obj) -> (previous: Option<Obj>)
        ensures
            final(self)@ == raw_put(old(self)@, key@, value@),
            match previous {
                Some(v) => raw_get(old(self)@, key.val()) == Some(v@),
                None => raw_get(old(self)@, key.val()) is None,
            },
            keys_ascend(final(self).vals()),
    {
        let ghost before = self.entries@;
        proof {
            use_type_invariant(&*self);
        }
        let p = self.search(&key);
        let found = p < self.entries.len() && self.entries[p].0.compare(&key) == Rel::Same;
        let mut entries: Vec<(Obj, Obj)> = Vec::new();
        core::mem::swap(&mut self.entries, &mut entries);
        let mut held = value;
        if found {
            let slot = &mut entries[p];
            core::mem::swap(&mut slot.1, &mut held);
            proof {
                assert(view_entries(entries@) =~= raw_put(view_entries(before), key@, value@));
                lemma_put_ascends(view_entries(before), key@, value@);
            }
            core::mem::swap(&mut self.entries, &mut entries);
            return Some(held);
        }
        entries.insert(p, (key, held));
        proof {
            assert(view_entries(entries@) =~= raw_put(view_entries(before), key@, value@));
            lemma_put_ascends(view_entries(before), key@, value@);
        }
        core::mem::swap(&mut self.entries, &mut entries);
        None
    }

    /// A copy of the mapping, with the same stored form.
    pub fn duplicate(&self) -> (r: ObjMap)
        ensures
            r@ == self@,
        decreases self,
    {
        let mut copies: Vec<(Obj, Obj)> = Vec::new();
        let mut i: usize = 0;
        while i < self.entries.len()
            invariant
                i <= self.entries.len(),
                copies.len() == i,
                forall|j: int|
                    0 <= j < i ==> copies@[j].0@ == self.entries@[j].0@ && copies@[j].1@
                        == self.entries@[j].1@,
            decreases self.entries.len() - i,
        {
            let key = self.entries[i].0.duplicate();
            let value = self.entries[i].1.duplicate();
            copies.push((key, value));
            i += 1;
        }
        proof {
            use_type_invariant(self);
            assert(view_entries(copies@) =~= view_entries(self.entries@));
        }
        ObjMap { entries: copies }
    }
}

impl Clone for ObjMap {
    /// A copy of the mapping, with the same stored form.
    fn clone(&self) -> (r: ObjMap)
        ensures
            r@ == self@,
    {
        self.duplicate()
    }
}

/// A position that parts the keys preceding `key` from the others is the
/// lower bound.
pub proof fn lemma_lower_bound_is(entries: Seq<(Raw, Raw)>, key: Val, i: nat, p: nat)
    requires
        i <= p <= entries.len(),
        forall|j: int| i <= j < p ==> val_lt(#[trigger] entries[j].0.canon(), key),
        p < entries.len() ==> !val_lt(entries[p as int].0.canon(), key),
    ensures
        lower_bound(entries, key, i) == p,
    decreases p - i,
{
    if i < p {
        lemma_lower_bound_is(entries, key, i + 1, p);
    }
}

/// What the lower bound parts: the keys before it precede `key`, and the key
/// at it, if any, does not.
pub proof fn lemma_lower_bound_parts(entries: Seq<(Raw, Raw)>, key: Val, i: nat)
    requires
        i <= entries.len(),
    ensures
        i <= lower_bound(entries, key, i) <= entries.len(),
        forall|j: int|
            i <= j < lower_bound(entries, key, i) ==> val_lt(#[trigger] entries[j].0.canon(), key),
        lower_bound(entries, key, i) < entries.len() ==> !val_lt(
            entries[lower_bound(entries, key, i) as int].0.canon(),
            key,
        ),
    decreases entries.len() - i,
{
    if i < entries.len() && val_lt(entries[i as int].0.canon(), key) {
        lemma_lower_bound_parts(entries, key, i + 1);
    }
}

/// Storing a value under a key keeps the keys ascending.
pub proof fn lemma_put_ascends(entries: Seq<(Raw, Raw)>, key: Raw, value: Raw)
    requires
        keys_ascend(canon_entries(entries)),
    ensures
        keys_ascend(canon_entries(raw_put(entries, key, value))),
{
    let k = key.canon();
    let p = lower_bound(entries, k, 0) as int;
    let x = canon_entries(entries);
    let y = canon_entries(raw_put(entries, key, value));
    lemma_lower_bound_parts(entries, k, 0);
    if p < entries.len() && entries[p].0.canon() == k {
        assert forall|i: int, j: int| 0 <= i < j < y.len() implies val_lt(y[i].0, y[j].0) by {
            assert(y[i].0 == x[i].0 && y[j].0 == x[j].0);
        }
    } else {
        assert forall|i: int, j: int| 0 <= i < j < y.len() implies val_lt(y[i].0, y[j].0) by {
            if j < p {
                assert(y[i] == x[i] && y[j] == x[j]);
            } else if j == p {
                assert(x[i].0 == entries[i].0.canon());
            } else {
                if p < x.len() {
                    lemma_val_lt_total(x[p].0, k);
                    if p < j - 1 {
                        lemma_val_lt_transitive(k, x[p].0, x[j - 1].0);
                    }
                }
                if i > p {
                    assert(y[i] == x[i - 1]);
                }
            }
        }
    }
}

/// A key that follows all the keys of ascending entries is stored at the end.
pub proof fn lemma_put_last(entries: Seq<(Raw, Raw)>, key: Raw, value: Raw)
    requires
        forall|i: int|
            0 <= i < entries.len() ==> val_lt(#[trigger] entries[i].0.canon(), key.canon()),
    ensures
        raw_put(entries, key, value) == entries.push((key, value)),
{
    lemma_lower_bound_is(entries, key.canon(), 0, entries.len());
}

/// What holds of every key and value of some entries, and of a key and a
/// value stored among them, holds of every key and value afterwards.
pub proof fn lemma_put_preserves(
    entries: Seq<(Raw, Raw)>,
    key: Raw,
    value: Raw,
    good: spec_fn(Raw) -> bool,
)
    requires
        forall|i: int|
            0 <= i < entries.len() ==> good((#[trigger] entries[i]).0) && good(entries[i].1),
        good(key),
        good(value),
    ensures
        forall|i: int|
            0 <= i < raw_put(entries, key, value).len() ==> good(
                (#[trigger] raw_put(entries, key, value)[i]).0,
            ) && good(raw_put(entries, key, value)[i].1),
{
    let after = raw_put(entries, key, value);
    lemma_lower_bound_parts(entries, key.canon(), 0);
    assert forall|i: int| 0 <= i < after.len() implies good((#[trigger] after[i]).0) && good(
        after[i].1,
    ) by {}
}

} // verus!
