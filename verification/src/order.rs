//! The total order on canonical values, and its laws.
use crate::model::{class, Val};
use vstd::prelude::*;

verus! {

/// Lexicographic order on bytes, looking only at positions `i` and beyond:
/// the first position at which the two differ decides, and a sequence that
/// ends there precedes one that goes on.
pub open spec fn bytes_lt(a: Seq<u8>, b: Seq<u8>, i: nat) -> bool
    decreases a.len() - i,
{
    if i >= a.len() {
        i < b.len()
    } else if i >= b.len() {
        false
    } else if a[i as int] == b[i as int] {
        bytes_lt(a, b, i + 1)
    } else {
        a[i as int] < b[i as int]
    }
}

/// The strict total order on values: by class first; within a class, `false`
/// before `true`, numbers by their size (floats by their rank), text and
/// blobs byte by byte, lists item by item and mappings entry by entry.
pub open spec fn val_lt(a: Val, b: Val) -> bool
    decreases a, 0nat,
{
    if class(a) != class(b) {
        class(a) < class(b)
    } else {
        match (a, b) {
            (Val::Bool(x), Val::Bool(y)) => !x && y,
            (Val::Int(x), Val::Int(y)) => x < y,
            (Val::Float(x), Val::Float(y)) => x < y,
            (Val::Str(x), Val::Str(y)) => bytes_lt(x, y, 0),
            (Val::Bin(x), Val::Bin(y)) => bytes_lt(x, y, 0),
            (Val::List(x), Val::List(y)) => list_lt(x, y, 0),
            (Val::Mapping(x), Val::Mapping(y)) => entries_lt(x, y, 0),
            _ => false,
        }
    }
}

/// Lexicographic order on lists, looking only at positions `i` and beyond.
pub open spec fn list_lt(a: Seq<Val>, b: Seq<Val>, i: nat) -> bool
    decreases a, a.len() - i,
{
    if i >= a.len() {
        i < b.len()
    } else if i >= b.len() {
        false
    } else if a[i as int] == b[i as int] {
        list_lt(a, b, i + 1)
    } else {
        val_lt(a[i as int], b[i as int])
    }
}

/// Order on entries: by key, then by value.
pub open spec fn entry_lt(a: (Val, Val), b: (Val, Val)) -> bool
    decreases a, 0nat,
{
    if a.0 == b.0 {
        val_lt(a.1, b.1)
    } else {
        val_lt(a.0, b.0)
    }
}

/// Lexicographic order on entry sequences, looking only at positions `i` and
/// beyond.
pub open spec fn entries_lt(a: Seq<(Val, Val)>, b: Seq<(Val, Val)>, i: nat) -> bool
    decreases a, a.len() - i,
{
    if i >= a.len() {
        i < b.len()
    } else if i >= b.len() {
        false
    } else if a[i as int] == b[i as int] {
        entries_lt(a, b, i + 1)
    } else {
        entry_lt(a[i as int], b[i as int])
    }
}

/// How one value stands to another in the total order.
#[derive(Clone, Copy, Debug, PartialEq, Eq, Structural)]
pub enum Rel {
    /// The first precedes the second.
    Before,
    /// The two are the same value.
    Same,
    /// The first follows the second.
    After,
}

/// The relation that an equality and a strict order between two values give.
pub open spec fn rel_of(same: bool, before: bool) -> Rel {
    if same {
        Rel::Same
    } else if before {
        Rel::Before
    } else {
        Rel::After
    }
}

/// How `a` stands to `b` in the total order on values.
pub open spec fn rel(a: Val, b: Val) -> Rel {
    rel_of(a == b, val_lt(a, b))
}

/// How `a` stands to `b` in the lexicographic order on bytes.
pub open spec fn bytes_rel(a: Seq<u8>, b: Seq<u8>) -> Rel {
    rel_of(a == b, bytes_lt(a, b, 0))
}

/// The comparison result that stands for a relation.
pub open spec fn ordering_of(r: Rel) -> core::cmp::Ordering {
    match r {
        Rel::Before => core::cmp::Ordering::Less,
        Rel::Same => core::cmp::Ordering::Equal,
        Rel::After => core::cmp::Ordering::Greater,
    }
}

/// No byte sequence precedes itself.
pub proof fn lemma_bytes_lt_irreflexive(a: Seq<u8>, i: nat)
    ensures
        !bytes_lt(a, a, i),
    decreases a.len() - i,
{
    if i < a.len() {
        lemma_bytes_lt_irreflexive(a, i + 1);
    }
}

/// The byte order is transitive.
pub proof fn lemma_bytes_lt_transitive(a: Seq<u8>, b: Seq<u8>, c: Seq<u8>, i: nat)
    requires
        bytes_lt(a, b, i),
        bytes_lt(b, c, i),
    ensures
        bytes_lt(a, c, i),
    decreases a.len() - i,
{
    if i < a.len() && a[i as int] == b[i as int] && b[i as int] == c[i as int] {
        lemma_bytes_lt_transitive(a, b, c, i + 1);
    }
}

/// Two byte sequences that agree before `i` are equal or ordered one way.
pub proof fn lemma_bytes_lt_total(a: Seq<u8>, b: Seq<u8>, i: nat)
    requires
        i <= a.len(),
        i <= b.len(),
        forall|j: int| 0 <= j < i ==> a[j] == b[j],
    ensures
        a == b || bytes_lt(a, b, i) || bytes_lt(b, a, i),
    decreases a.len() - i,
{
    if i < a.len() && i < b.len() && a[i as int] == b[i as int] {
        lemma_bytes_lt_total(a, b, i + 1);
    }
}

/// Positions at which two byte sequences agree do not bear on their order.
pub proof fn lemma_bytes_lt_skip(a: Seq<u8>, b: Seq<u8>, i: nat, n: nat)
    requires
        i <= n <= a.len(),
        n <= b.len(),
        forall|j: int| i <= j < n ==> a[j] == b[j],
    ensures
        bytes_lt(a, b, i) == bytes_lt(a, b, n),
    decreases n - i,
{
    if i < n {
        lemma_bytes_lt_skip(a, b, i + 1, n);
    }
}

/// No value precedes itself.
pub proof fn lemma_val_lt_irreflexive(a: Val)
    ensures
        !val_lt(a, a),
    decreases a, 0nat,
{
    match a {
        Val::Str(x) => lemma_bytes_lt_irreflexive(x, 0),
        Val::Bin(x) => lemma_bytes_lt_irreflexive(x, 0),
        Val::List(x) => lemma_list_lt_irreflexive(x, 0),
        Val::Mapping(x) => lemma_entries_lt_irreflexive(x, 0),
        _ => {},
    }
}

/// No list precedes itself.
pub proof fn lemma_list_lt_irreflexive(a: Seq<Val>, i: nat)
    ensures
        !list_lt(a, a, i),
    decreases a, a.len() - i,
{
    if i < a.len() {
        lemma_list_lt_irreflexive(a, i + 1);
    }
}

/// No entry sequence precedes itself.
pub proof fn lemma_entries_lt_irreflexive(a: Seq<(Val, Val)>, i: nat)
    ensures
        !entries_lt(a, a, i),
    decreases a, a.len() - i,
{
    if i < a.len() {
        lemma_entries_lt_irreflexive(a, i + 1);
    }
}

/// The order on values is transitive.
pub proof fn lemma_val_lt_transitive(a: Val, b: Val, c: Val)
    requires
        val_lt(a, b),
        val_lt(b, c),
    ensures
        val_lt(a, c),
    decreases a, 0nat,
{
    if class(a) == class(b) && class(b) == class(c) {
        match (a, b, c) {
            (Val::Str(x), Val::Str(y), Val::Str(z)) => lemma_bytes_lt_transitive(x, y, z, 0),
            (Val::Bin(x), Val::Bin(y), Val::Bin(z)) => lemma_bytes_lt_transitive(x, y, z, 0),
            (Val::List(x), Val::List(y), Val::List(z)) => lemma_list_lt_transitive(x, y, z, 0),
            (Val::Mapping(x), Val::Mapping(y), Val::Mapping(z)) => lemma_entries_lt_transitive(
                x,
                y,
                z,
                0,
            ),
            _ => {},
        }
    }
}

/// The order on lists is transitive.
pub proof fn lemma_list_lt_transitive(a: Seq<Val>, b: Seq<Val>, c: Seq<Val>, i: nat)
    requires
        list_lt(a, b, i),
        list_lt(b, c, i),
    ensures
        list_lt(a, c, i),
    decreases a, a.len() - i,
{
    if i < a.len() {
        let (x, y, z) = (a[i as int], b[i as int], c[i as int]);
        if x == y && y == z {
            lemma_list_lt_transitive(a, b, c, i + 1);
        } else {
            if x != y && y != z {
                lemma_val_lt_transitive(x, y, z);
            }
            lemma_val_lt_irreflexive(x);
        }
    }
}

/// The order on entries is transitive.
pub proof fn lemma_entry_lt_transitive(a: (Val, Val), b: (Val, Val), c: (Val, Val))
    requires
        entry_lt(a, b),
        entry_lt(b, c),
    ensures
        entry_lt(a, c),
    decreases a, 0nat,
{
    if a.0 == b.0 && b.0 == c.0 {
        lemma_val_lt_transitive(a.1, b.1, c.1);
    } else {
        if a.0 != b.0 && b.0 != c.0 {
            lemma_val_lt_transitive(a.0, b.0, c.0);
        }
        lemma_val_lt_irreflexive(a.0);
    }
}

/// The order on entry sequences is transitive.
pub proof fn lemma_entries_lt_transitive(
    a: Seq<(Val, Val)>,
    b: Seq<(Val, Val)>,
    c: Seq<(Val, Val)>,
    i: nat,
)
    requires
        entries_lt(a, b, i),
        entries_lt(b, c, i),
    ensures
        entries_lt(a, c, i),
    decreases a, a.len() - i,
{
    if i < a.len() {
        let (x, y, z) = (a[i as int], b[i as int], c[i as int]);
        if x == y && y == z {
            lemma_entries_lt_transitive(a, b, c, i + 1);
        } else {
            if x != y && y != z {
                lemma_entry_lt_transitive(x, y, z);
            }
            lemma_val_lt_irreflexive(x.1);
        }
    }
}

/// Two different values are ordered one way or the other.
pub proof fn lemma_val_lt_total(a: Val, b: Val)
    ensures
        a == b || val_lt(a, b) || val_lt(b, a),
    decreases a, 0nat,
{
    if class(a) == class(b) {
        match (a, b) {
            (Val::Str(x), Val::Str(y)) => lemma_bytes_lt_total(x, y, 0),
            (Val::Bin(x), Val::Bin(y)) => lemma_bytes_lt_total(x, y, 0),
            (Val::List(x), Val::List(y)) => lemma_list_lt_total(x, y, 0),
            (Val::Mapping(x), Val::Mapping(y)) => lemma_entries_lt_total(x, y, 0),
            _ => {},
        }
    }
}

/// Two lists that agree before `i` are equal or ordered one way.
pub proof fn lemma_list_lt_total(a: Seq<Val>, b: Seq<Val>, i: nat)
    requires
        i <= a.len(),
        i <= b.len(),
        forall|j: int| 0 <= j < i ==> a[j] == b[j],
    ensures
        a == b || list_lt(a, b, i) || list_lt(b, a, i),
    decreases a, a.len() - i,
{
    if i < a.len() && i < b.len() {
        if a[i as int] == b[i as int] {
            lemma_list_lt_total(a, b, i + 1);
        } else {
            lemma_val_lt_total(a[i as int], b[i as int]);
        }
    }
}

/// Two entry sequences that agree before `i` are equal or ordered one way.
pub proof fn lemma_entries_lt_total(a: Seq<(Val, Val)>, b: Seq<(Val, Val)>, i: nat)
    requires
        i <= a.len(),
        i <= b.len(),
        forall|j: int| 0 <= j < i ==> a[j] == b[j],
    ensures
        a == b || entries_lt(a, b, i) || entries_lt(b, a, i),
    decreases a, a.len() - i,
{
    if i < a.len() && i < b.len() {
        let (x, y) = (a[i as int], b[i as int]);
        if x == y {
            lemma_entries_lt_total(a, b, i + 1);
        } else {
            lemma_val_lt_total(x.0, y.0);
            lemma_val_lt_total(x.1, y.1);
            assert(entry_lt(x, y) || entry_lt(y, x));
        }
    }
}

/// Positions at which two lists agree do not bear on their order.
pub proof fn lemma_list_lt_skip(a: Seq<Val>, b: Seq<Val>, i: nat, n: nat)
    requires
        i <= n <= a.len(),
        n <= b.len(),
        forall|j: int| i <= j < n ==> a[j] == b[j],
    ensures
        list_lt(a, b, i) == list_lt(a, b, n),
    decreases n - i,
{
    if i < n {
        lemma_list_lt_skip(a, b, i + 1, n);
    }
}

/// Positions at which two entry sequences agree do not bear on their order.
pub proof fn lemma_entries_lt_skip(a: Seq<(Val, Val)>, b: Seq<(Val, Val)>, i: nat, n: nat)
    requires
        i <= n <= a.len(),
        n <= b.len(),
        forall|j: int| i <= j < n ==> a[j] == b[j],
    ensures
        entries_lt(a, b, i) == entries_lt(a, b, n),
    decreases n - i,
{
    if i < n {
        lemma_entries_lt_skip(a, b, i + 1, n);
    }
}

/// One value follows another exactly when the other precedes it.
pub proof fn lemma_rel_after(a: Val, b: Val)
    ensures
        rel(a, b) == Rel::After <==> val_lt(b, a),
        rel(a, b) == Rel::Before <==> val_lt(a, b),
        rel(a, b) == Rel::Same <==> a == b,
{
    lemma_val_lt_total(a, b);
    lemma_val_lt_irreflexive(a);
    if val_lt(a, b) && val_lt(b, a) {
        lemma_val_lt_transitive(a, b, a);
    }
}

} // verus!
