//! Comparison of objects: the recursive comparison, and equality and order
//! as the standard operators see them.
use crate::binary::bin_as_slice;
use crate::mapping::ObjMap;
use crate::model::{canon_entries, canon_list, float_rank, Val};
use crate::order::{
    bytes_rel, entry_lt, lemma_bytes_lt_skip, lemma_entries_lt_skip, lemma_list_lt_skip,
    lemma_rel_after, ordering_of, rel, val_lt, Rel,
};
use crate::value::{view_list, Obj};
use core::cmp::Ordering;
use vstd::prelude::*;

verus! {

/// Compares two byte strings lexicographically, byte by byte.
pub fn bytes_compare(a: &[u8], b: &[u8]) -> (r: Rel)
    ensures
        r == bytes_rel(a@, b@),
{
    let mut i: usize = 0;
    while i < a.len() && i < b.len()
        invariant
            i <= a.len(),
            i <= b.len(),
            forall|j: int| 0 <= j < i ==> a@[j] == b@[j],
        decreases a.len() - i,
    {
        if a[i] != b[i] {
            proof {
                lemma_bytes_lt_skip(a@, b@, 0, i as nat);
            }
            return if a[i] < b[i] {
                Rel::Before
            } else {
                Rel::After
            };
        }
        i += 1;
    }
    proof {
        lemma_bytes_lt_skip(a@, b@, 0, i as nat);
        if a.len() == b.len() {
            assert(a@ =~= b@);
        }
    }
    if a.len() == b.len() {
        Rel::Same
    } else if i == a.len() {
        Rel::Before
    } else {
        Rel::After
    }
}

/// The rank of the float with the given bit pattern.
fn float_key(bits: u64) -> (k: i64)
    ensures
        k == float_rank(bits),
{
    let negative = bits >= 0x8000_0000_0000_0000;
    let magnitude: u64 = if negative {
        bits - 0x8000_0000_0000_0000
    } else {
        bits
    };
    if magnitude > 0x7FF0_0000_0000_0000 {
        0x7FF0_0000_0000_0001
    } else if negative {
        -(magnitude as i64)
    } else {
        magnitude as i64
    }
}

impl Obj {
    /// The integer that a `Signed` or `Unsigned` object holds.
    fn int_value(&self) -> (n: i128)
        requires
            self is Signed || self is Unsigned,
        ensures
            self.val() == Val::Int(n as int),
    {
        match self {
            Obj::Signed(v) => *v as i128,
            Obj::Unsigned(v) => *v as i128,
            _ => 0,
        }
    }

    /// Compares two objects in the total order on the values they denote.
    pub fn compare(&self, other: &Obj) -> (r: Rel)
        ensures
            r == rel(self.val(), other.val()),
        decreases self,
    {
        let self_class = self.type_num();
        let other_class = other.type_num();
        if self_class != other_class {
            return if self_class < other_class {
                Rel::Before
            } else {
                Rel::After
            };
        }
        match (self, other) {
            (Obj::Null, Obj::Null) => Rel::Same,
            (Obj::Bool(a), Obj::Bool(b)) => {
                if *a == *b {
                    Rel::Same
                } else if *b {
                    Rel::Before
                } else {
                    Rel::After
                }
            },
            (Obj::Float(a), Obj::Float(b)) => {
                let x = float_key(*a);
                let y = float_key(*b);
                if x == y {
                    Rel::Same
                } else if x < y {
                    Rel::Before
                } else {
                    Rel::After
                }
            },
            (Obj::Str(a), Obj::Str(b)) => {
                bytes_compare(a.as_str().as_bytes(), b.as_str().as_bytes())
            },
            (Obj::Bin(a), Obj::Bin(b)) => bytes_compare(bin_as_slice(a), bin_as_slice(b)),
            (Obj::List(a), Obj::List(b)) => {
                let ghost x = canon_list(view_list(a@));
                let ghost y = canon_list(view_list(b@));
                let mut i: usize = 0;
                while i < a.len() && i < b.len()
                    invariant
                        i <= a.len(),
                        i <= b.len(),
                        x.len() == a.len(),
                        y.len() == b.len(),
                        forall|j: int| 0 <= j < a.len() ==> x[j] == (#[trigger] a@[j]).val(),
                        forall|j: int| 0 <= j < b.len() ==> y[j] == (#[trigger] b@[j]).val(),
                        forall|j: int| 0 <= j < i ==> x[j] == y[j],
                        self == Obj::List(*a),
                        self.val() == Val::List(x),
                        other.val() == Val::List(y),
                    decreases a.len() - i,
                {
                    let r = a[i].compare(&b[i]);
                    if r != Rel::Same {
                        proof {
                            lemma_list_lt_skip(x, y, 0, i as nat);
                        }
                        return r;
                    }
                    i += 1;
                }
                proof {
                    lemma_list_lt_skip(x, y, 0, i as nat);
                    if a.len() == b.len() {
                        assert(x =~= y);
                    }
                }
                if a.len() == b.len() {
                    Rel::Same
                } else if i == a.len() {
                    Rel::Before
                } else {
                    Rel::After
                }
            },
            (Obj::Mapping(a), Obj::Mapping(b)) => a.compare(b),
            _ => {
                let x = self.int_value();
                let y = other.int_value();
                if x == y {
                    Rel::Same
                } else if x < y {
                    Rel::Before
                } else {
                    Rel::After
                }
            },
        }
    }

    /// Compares two objects in the total order: `Less` exactly when `self`
    /// precedes `other`, `Equal` exactly when both denote the same value,
    /// `Greater` exactly when `other` precedes `self`.
    pub fn cmp(&self, other: &Obj) -> (r: Ordering)
        ensures
            r == ordering_of(rel(self.val(), other.val())),
            r == Ordering::Less <==> val_lt(self.val(), other.val()),
            r == Ordering::Equal <==> self.val() == other.val(),
            r == Ordering::Greater <==> val_lt(other.val(), self.val()),
    {
        proof {
            lemma_rel_after(self.val(), other.val());
        }
        match self.compare(other) {
            Rel::Before => Ordering::Less,
            Rel::Same => Ordering::Equal,
            Rel::After => Ordering::Greater,
        }
    }
}

impl ObjMap {
    /// Compares two mappings entry by entry: by key, then by value.
    pub fn compare(&self, other: &ObjMap) -> (r: Rel)
        ensures
            r == rel(Val::Mapping(canon_entries(self@)), Val::Mapping(canon_entries(other@))),
        decreases self,
    {
        let ghost x = canon_entries(self@);
        let ghost y = canon_entries(other@);
        let a = &self.entries;
        let b = &other.entries;
        proof {
            self.lemma_view();
            other.lemma_view();
        }
        let mut i: usize = 0;
        while i < a.len() && i < b.len()
            invariant
                i <= a.len(),
                i <= b.len(),
                x.len() == a.len(),
                y.len() == b.len(),
                forall|j: int|
                    0 <= j < a.len() ==> x[j] == ((#[trigger] a@[j]).0.val(), a@[j].1.val()),
                forall|j: int|
                    0 <= j < b.len() ==> y[j] == ((#[trigger] b@[j]).0.val(), b@[j].1.val()),
                forall|j: int| 0 <= j < i ==> x[j] == y[j],
                a == &self.entries,
                x == canon_entries(self@),
                y == canon_entries(other@),
            decreases a.len() - i,
        {
            let by_key = a[i].0.compare(&b[i].0);
            if by_key != Rel::Same {
                proof {
                    lemma_entries_lt_skip(x, y, 0, i as nat);
                    assert(entry_lt(x[i as int], y[i as int]) == val_lt(
                        x[i as int].0,
                        y[i as int].0,
                    ));
                }
                return by_key;
            }
            let by_value = a[i].1.compare(&b[i].1);
            if by_value != Rel::Same {
                proof {
                    lemma_entries_lt_skip(x, y, 0, i as nat);
                    assert(entry_lt(x[i as int], y[i as int]) == val_lt(
                        x[i as int].1,
                        y[i as int].1,
                    ));
                }
                return by_value;
            }
            i += 1;
        }
        proof {
            lemma_entries_lt_skip(x, y, 0, i as nat);
            if a.len() == b.len() {
                assert(x =~= y);
            }
        }
        if a.len() == b.len() {
            Rel::Same
        } else if i == a.len() {
            Rel::Before
        } else {
            Rel::After
        }
    }
}

impl PartialEq for Obj {
    /// Whether the two objects denote the same value.
    fn eq(&self, other: &Obj) -> (r: bool) {
        self.compare(other) == Rel::Same
    }
}

impl vstd::std_specs::cmp::PartialEqSpecImpl for Obj {
    open spec fn obeys_eq_spec() -> bool {
        true
    }

    open spec fn eq_spec(&self, other: &Obj) -> bool {
        self.val() == other.val()
    }
}

impl Eq for Obj {

}

impl PartialOrd for Obj {
    /// How the two objects stand in the total order; never `None`.
    fn partial_cmp(&self, other: &Obj) -> (r: Option<Ordering>) {
        Some(self.cmp(other))
    }
}

impl vstd::std_specs::cmp::PartialOrdSpecImpl for Obj {
    open spec fn obeys_partial_cmp_spec() -> bool {
        true
    }

    open spec fn partial_cmp_spec(&self, other: &Obj) -> Option<Ordering> {
        Some(ordering_of(rel(self.val(), other.val())))
    }
}

} // verus!
