//! What holds of the library as a whole: the laws of equality, order and
//! hashing, of mappings, and of the build and emit protocols.
use crate::event::{alike, emit, parse, parse_all, DecodeError, Tok};
use crate::hash::hash_stream;
use crate::mapping::{
    keys_ascend, last_value, lemma_lower_bound_is, lemma_lower_bound_parts, lemma_put_ascends,
    lower_bound, put_all, raw_get, raw_put,
};
use crate::model::{canon_entries, is_nan, Raw, Val};
use crate::order::{
    lemma_bytes_lt_skip, lemma_list_lt_skip, lemma_val_lt_irreflexive, lemma_val_lt_total,
    lemma_val_lt_transitive, rel, val_lt, Rel,
};
use crate::stream::{
    cut, holds, lemma_normal_of_wf, lemma_parse_alike, lemma_parse_cut, lemma_parse_emit,
    lemma_parse_sound, lemma_parse_source,
};
use crate::value::Obj;
use std::collections::hash_map::DefaultHasher;
use vstd::prelude::*;
use vstd::std_specs::cmp::{PartialEqSpec, PartialOrdSpec};
use vstd::std_specs::hash::DefaultHasherAdditionalSpecFns;

verus! {

/// A signed integer that is not negative and the unsigned integer of the
/// same magnitude are the same value: they are equal, neither precedes the
/// other, and they feed the same bytes to a hasher.
pub proof fn law_canonical_equivalence(n: i64, m: u64)
    requires
        n == m,
    ensures
        Obj::Signed(n).val() == Obj::Unsigned(m).val(),
        Obj::Signed(n).eq_spec(&Obj::Unsigned(m)),
        Obj::Signed(n).partial_cmp_spec(&Obj::Unsigned(m)) == Some(core::cmp::Ordering::Equal),
        rel(Obj::Signed(n).val(), Obj::Unsigned(m).val()) == Rel::Same,
        hash_stream(Obj::Signed(n).val()) == hash_stream(Obj::Unsigned(m).val()),
{
}

/// Objects that are equal feed the same bytes to a hasher, and so have the
/// same hash under the standard hasher.
pub proof fn law_equal_hash_alike(a: Obj, b: Obj)
    requires
        a.eq_spec(&b),
    ensures
        hash_stream(a.val()) == hash_stream(b.val()),
        DefaultHasher::spec_finish(seq![hash_stream(a.val())]) == DefaultHasher::spec_finish(
            seq![hash_stream(b.val())],
        ),
{
}

/// Any two NaNs are equal, whatever their bits, and a NaN follows every float
/// that is not one.
pub proof fn law_nan(a: u64, b: u64)
    requires
        is_nan(a),
    ensures
        is_nan(b) ==> Obj::Float(a).eq_spec(&Obj::Float(b)),
        !is_nan(b) ==> !Obj::Float(a).eq_spec(&Obj::Float(b)),
        !is_nan(b) ==> val_lt(Obj::Float(b).val(), Obj::Float(a).val()),
{
}

/// Of two objects exactly one holds: the first precedes the second, they are
/// equal, or the second precedes the first.
pub proof fn law_trichotomy(a: Obj, b: Obj)
    ensures
        val_lt(a.val(), b.val()) || a.eq_spec(&b) || val_lt(b.val(), a.val()),
        !(val_lt(a.val(), b.val()) && a.eq_spec(&b)),
        !(val_lt(b.val(), a.val()) && a.eq_spec(&b)),
        !(val_lt(a.val(), b.val()) && val_lt(b.val(), a.val())),
{
    lemma_val_lt_total(a.val(), b.val());
    lemma_val_lt_irreflexive(a.val());
    if val_lt(a.val(), b.val()) && val_lt(b.val(), a.val()) {
        lemma_val_lt_transitive(a.val(), b.val(), a.val());
    }
}

/// The order is transitive.
pub proof fn law_transitive(a: Obj, b: Obj, c: Obj)
    requires
        val_lt(a.val(), b.val()),
        val_lt(b.val(), c.val()),
    ensures
        val_lt(a.val(), c.val()),
{
    lemma_val_lt_transitive(a.val(), b.val(), c.val());
}

/// A list precedes every list that it begins: a prefix is less than any
/// proper extension of itself.
pub proof fn law_prefix_precedes(a: Seq<Val>, b: Seq<Val>)
    requires
        a.len() < b.len(),
        forall|j: int| 0 <= j < a.len() ==> a[j] == b[j],
    ensures
        val_lt(Val::List(a), Val::List(b)),
{
    lemma_list_lt_skip(a, b, 0, a.len());
}

/// Two lists that differ first at one position are ordered as their items at
/// that position are.
pub proof fn law_first_difference_decides(a: Seq<Val>, b: Seq<Val>, k: int)
    requires
        0 <= k < a.len(),
        k < b.len(),
        forall|j: int| 0 <= j < k ==> a[j] == b[j],
        a[k] != b[k],
    ensures
        val_lt(Val::List(a), Val::List(b)) == val_lt(a[k], b[k]),
{
    lemma_list_lt_skip(a, b, 0, k as nat);
}

/// Text and blobs are ordered byte by byte in the same way: a prefix comes
/// first, and else the first byte that differs decides.
pub proof fn law_bytes_order(a: Seq<u8>, b: Seq<u8>, k: int)
    requires
        0 <= k <= a.len(),
        k <= b.len(),
        forall|j: int| 0 <= j < k ==> a[j] == b[j],
        k < a.len() && k < b.len() ==> a[k] != b[k],
    ensures
        val_lt(Val::Str(a), Val::Str(b)) == val_lt(Val::Bin(a), Val::Bin(b)),
        k == a.len() ==> val_lt(Val::Bin(a), Val::Bin(b)) == (k < b.len()),
        k < a.len() && k == b.len() ==> !val_lt(Val::Bin(a), Val::Bin(b)),
        k < a.len() && k < b.len() ==> val_lt(Val::Bin(a), Val::Bin(b)) == (a[k] < b[k]),
{
    lemma_bytes_lt_skip(a, b, 0, k as nat);
}

/// Ascending keys are all different: no key occurs twice in a mapping.
pub proof fn law_keys_differ(entries: Seq<(Raw, Raw)>, i: int, j: int)
    requires
        keys_ascend(canon_entries(entries)),
        0 <= i < entries.len(),
        0 <= j < entries.len(),
        i != j,
    ensures
        entries[i].0.canon() != entries[j].0.canon(),
{
    let x = canon_entries(entries);
    lemma_val_lt_irreflexive(x[i].0);
    if i < j {
        assert(val_lt(x[i].0, x[j].0));
    } else {
        assert(val_lt(x[j].0, x[i].0));
    }
}

/// A lookup finds every entry by its key, and finds nothing only where no
/// entry has an equal key.
pub proof fn law_get_finds(entries: Seq<(Raw, Raw)>, key: Val)
    requires
        keys_ascend(canon_entries(entries)),
    ensures
        forall|i: int|
            0 <= i < entries.len() && (#[trigger] entries[i]).0.canon() == key ==> raw_get(
                entries,
                key,
            ) == Some(entries[i].1),
        raw_get(entries, key) is None ==> forall|i: int|
            0 <= i < entries.len() ==> (#[trigger] entries[i]).0.canon() != key,
{
    let p = lower_bound(entries, key, 0) as int;
    let x = canon_entries(entries);
    lemma_lower_bound_parts(entries, key, 0);
    lemma_val_lt_irreflexive(key);
    assert forall|i: int| 0 <= i < entries.len() && (#[trigger] entries[i]).0.canon()
        == key implies i == p by {
        if i > p {
            assert(val_lt(x[p].0, x[i].0));
        }
    }
}

/// After a value is stored under a key, a lookup of an equal key gives that
/// value, and a lookup of any other key gives what it gave before.
pub proof fn law_get_put(entries: Seq<(Raw, Raw)>, key: Raw, value: Raw, other: Val)
    requires
        keys_ascend(canon_entries(entries)),
    ensures
        raw_get(raw_put(entries, key, value), other) == (if other == key.canon() {
            Some(value)
        } else {
            raw_get(entries, other)
        }),
{
    let k = key.canon();
    let p = lower_bound(entries, k, 0) as int;
    let q = lower_bound(entries, other, 0) as int;
    let after = raw_put(entries, key, value);
    let x = canon_entries(entries);
    lemma_lower_bound_parts(entries, k, 0);
    lemma_lower_bound_parts(entries, other, 0);
    lemma_val_lt_total(k, other);
    lemma_val_lt_irreflexive(k);
    assert forall|i: int| 0 <= i < entries.len() implies x[i].0
        == (#[trigger] entries[i]).0.canon() by {}
    if p < entries.len() && entries[p].0.canon() == k {
        lemma_lower_bound_is(after, other, 0, q as nat);
    } else if other == k {
        lemma_lower_bound_is(after, k, 0, p as nat);
    } else if val_lt(other, k) {
        if val_lt(k, other) {
            lemma_val_lt_transitive(k, other, k);
        }
        if q > p {
            lemma_val_lt_transitive(entries[p].0.canon(), other, k);
        }
        lemma_lower_bound_is(after, other, 0, q as nat);
    } else {
        assert forall|j: int| 0 <= j < q + 1 implies val_lt(
            #[trigger] after[j].0.canon(),
            other,
        ) by {
            if j < p {
                lemma_val_lt_transitive(entries[j].0.canon(), k, other);
            }
        }
        lemma_lower_bound_is(after, other, 0, (q + 1) as nat);
    }
}

/// The last write wins: where pairs are stored in turn, the keys ascend, and
/// a lookup gives the value of the last pair whose key equals the key looked
/// up, and nothing where no pair has such a key.
pub proof fn law_last_write_wins(pairs: Seq<(Raw, Raw)>, n: nat, key: Val)
    requires
        n <= pairs.len(),
    ensures
        keys_ascend(canon_entries(put_all(Seq::empty(), pairs, n))),
        raw_get(put_all(Seq::empty(), pairs, n), key) == last_value(pairs, n, key),
    decreases n,
{
    if n > 0 {
        let before = put_all(Seq::empty(), pairs, (n - 1) as nat);
        law_last_write_wins(pairs, (n - 1) as nat, key);
        lemma_put_ascends(before, pairs[n - 1].0, pairs[n - 1].1);
        law_get_put(before, pairs[n - 1].0, pairs[n - 1].1, key);
    }
}

/// Two keys that are equal share one entry: storing under the second leaves
/// the number of entries as the first left it, and its value is the one that
/// a lookup then gives.
pub proof fn law_equal_keys_collapse(
    entries: Seq<(Raw, Raw)>,
    first: Raw,
    first_value: Raw,
    second: Raw,
    second_value: Raw,
)
    requires
        keys_ascend(canon_entries(entries)),
        first.canon() == second.canon(),
    ensures
        raw_put(raw_put(entries, first, first_value), second, second_value).len() == raw_put(
            entries,
            first,
            first_value,
        ).len(),
        raw_get(
            raw_put(raw_put(entries, first, first_value), second, second_value),
            first.canon(),
        ) == Some(second_value),
{
    let once = raw_put(entries, first, first_value);
    law_get_put(entries, first, first_value, first.canon());
    lemma_put_ascends(entries, first, first_value);
    law_get_put(once, second, second_value, first.canon());
}

/// Building from the events that an object emits gives the object back,
/// variant for variant, where every mapping in it has ascending keys and it
/// is nested no deeper than the ceiling.
pub proof fn law_round_trip(v: Obj, max_depth: nat)
    requires
        v@.wf(),
        v@.within(max_depth),
    ensures
        parse_all(emit(v@), max_depth) == Ok::<Raw, DecodeError>(v@),
{
    lemma_parse_emit(emit(v@), 0, v@, max_depth);
    lemma_normal_of_wf(v@);
}

/// Building from the events of an object that is nested deeper than the
/// ceiling fails, and the failure names the depth.
pub proof fn law_depth_limit(v: Obj, max_depth: nat)
    requires
        !v@.within(max_depth),
    ensures
        parse_all(emit(v@), max_depth) == Err::<Raw, DecodeError>(DecodeError::NestingTooDeep),
{
    lemma_parse_emit(emit(v@), 0, v@, max_depth);
}

/// What a build gives has ascending keys in every mapping and is nested no
/// deeper than the ceiling.
pub proof fn law_built_well_formed(s: Seq<Tok>, max_depth: nat)
    ensures
        parse_all(s, max_depth) matches Ok(t) ==> t.wf() && t.within(max_depth),
{
    lemma_parse_sound(s, 0, max_depth);
}

/// Building from the events of any stored object, whatever the order of the
/// entries of its mappings and whether or not a key occurs twice in them,
/// gives the object as a build stores it.
pub proof fn law_build_of_emitted(t: Raw, max_depth: nat)
    requires
        t.within(max_depth),
    ensures
        parse_all(emit(t), max_depth) == Ok::<Raw, DecodeError>(t.normal()),
{
    lemma_parse_emit(emit(t), 0, t, max_depth);
}

/// A value is consumed whole, wherever it stands: decoding at the position
/// where a stream holds the events of an object ends just behind them, so
/// that a value can be decoded and dropped and the stream stays aligned.
pub proof fn law_stream_stays_aligned(s: Seq<Tok>, pos: nat, t: Raw, depth: nat)
    requires
        holds(s, pos, emit(t)),
        t.within(depth),
    ensures
        parse(s, pos, depth) == Ok::<(Raw, nat), DecodeError>((t.normal(), pos + emit(t).len())),
{
    lemma_parse_emit(s, pos, t, depth);
}

/// What a build gives, it gives of the events of some object: the stream is,
/// hints aside, the events of an object that is nested no deeper than the
/// ceiling, and what is built is that object as a build stores it.
pub proof fn law_built_has_source(s: Seq<Tok>, max_depth: nat) -> (u: Raw)
    requires
        parse_all(s, max_depth) is Ok,
    ensures
        alike(s, emit(u)),
        u.within(max_depth),
        parse_all(s, max_depth) == Ok::<Raw, DecodeError>(u.normal()),
{
    let u = lemma_parse_source(s, 0, max_depth);
    assert(alike(s, emit(u))) by {
        assert forall|i: int| 0 <= i < s.len() implies (#[trigger] s[i]).plain()
            == emit(u)[i].plain() by {}
    }
    u
}

/// The hints of begin events do not bear on what is built.
pub proof fn law_hints_ignored(a: Seq<Tok>, b: Seq<Tok>, max_depth: nat)
    requires
        alike(a, b),
    ensures
        parse_all(a, max_depth) == parse_all(b, max_depth),
{
    lemma_parse_alike(a, b, 0, max_depth);
}

/// Events after the events of an object are a malformation.
pub proof fn law_trailing_events(t: Raw, extra: Seq<Tok>, max_depth: nat)
    requires
        t.within(max_depth),
        extra.len() > 0,
    ensures
        parse_all(emit(t) + extra, max_depth) == Err::<Raw, DecodeError>(
            DecodeError::MalformedInput,
        ),
{
    let s = emit(t) + extra;
    assert(holds(s, 0, emit(t))) by {
        assert forall|j: int| 0 <= j < emit(t).len() implies s[0 + j]
            == #[trigger] emit(t)[j] by {}
    }
    lemma_parse_emit(s, 0, t, max_depth);
}

/// A stream that ends before the events of an object do is a malformation.
pub proof fn law_truncated_stream(t: Raw, n: nat, max_depth: nat)
    requires
        t.within(max_depth),
        n < emit(t).len(),
    ensures
        parse_all(emit(t).take(n as int), max_depth) == Err::<Raw, DecodeError>(
            DecodeError::MalformedInput,
        ),
{
    let s = emit(t).take(n as int);
    assert(cut(s, 0, emit(t))) by {
        assert forall|j: int| 0 <= j < s.len() implies s[0 + j]
            == #[trigger] emit(t)[j] by {}
    }
    lemma_parse_cut(s, 0, t, max_depth);
}

} // verus!
