//! What decoding does to a stream of events, lemma by lemma: to the events
//! of an object, to events that differ in their hints, and to a stream that
//! ends early.
use crate::event::{
    alike, emit, emit_entries, emit_list, normal_entries, normal_list, parse, parse_entries,
    parse_items, DecodeError, Tok,
};
use crate::mapping::{
    keys_ascend, lemma_put_ascends, lemma_put_last, lemma_put_preserves, put_all, raw_put,
};
use crate::model::{canon_entries, Raw};
use crate::order::val_lt;
use vstd::prelude::*;

verus! {

/// Whether the stream holds the events `e` from position `pos` on.
pub open spec fn holds(s: Seq<Tok>, pos: nat, e: Seq<Tok>) -> bool {
    pos + e.len() <= s.len() && forall|j: int| 0 <= j < e.len() ==> s[pos + j] == #[trigger] e[j]
}

/// Whether the stream from `from` up to `to` is the events `e`, hints aside.
pub open spec fn spans(s: Seq<Tok>, from: nat, to: nat, e: Seq<Tok>) -> bool {
    from <= to <= s.len() && to - from == e.len() && forall|j: int|
        0 <= j < e.len() ==> s[from + j].plain() == (#[trigger] e[j]).plain()
}

/// Whether the stream ends inside the events `e` that begin at `pos`: it
/// holds some of them, not all, and nothing after them.
pub open spec fn cut(s: Seq<Tok>, pos: nat, e: Seq<Tok>) -> bool {
    pos <= s.len() && s.len() - pos < e.len() && forall|j: int|
        0 <= j < s.len() - pos ==> s[pos + j] == #[trigger] e[j]
}

/// The events of the first items of a list begin the events of more of them.
pub proof fn lemma_emit_list_prefix(items: Seq<Raw>, k: nat, n: nat)
    requires
        k <= n <= items.len(),
    ensures
        holds(emit_list(items, n), 0, emit_list(items, k)),
        k < n ==> holds(emit_list(items, n), emit_list(items, k).len(), emit(items[k as int])),
    decreases n - k,
{
    if k < n {
        let whole = emit_list(items, n);
        lemma_emit_list_prefix(items, k, (n - 1) as nat);
        assert forall|j: int| 0 <= j < emit_list(items, k).len() implies whole[0 + j]
            == #[trigger] emit_list(items, k)[j] by {}
        if k < n - 1 {
            let at = emit_list(items, k).len();
            assert forall|j: int| 0 <= j < emit(items[k as int]).len() implies whole[at + j]
                == #[trigger] emit(items[k as int])[j] by {}
        }
    }
}

/// The events of the first entries of a mapping begin the events of more of
/// them.
pub proof fn lemma_emit_entries_prefix(entries: Seq<(Raw, Raw)>, k: nat, n: nat)
    requires
        k <= n <= entries.len(),
    ensures
        holds(emit_entries(entries, n), 0, emit_entries(entries, k)),
        k < n ==> holds(
            emit_entries(entries, n),
            emit_entries(entries, k).len(),
            emit(entries[k as int].0),
        ),
        k < n ==> holds(
            emit_entries(entries, n),
            emit_entries(entries, k).len() + emit(entries[k as int].0).len(),
            emit(entries[k as int].1),
        ),
        k < n ==> emit_entries(entries, k + 1).len() == emit_entries(entries, k).len() + emit(
            entries[k as int].0,
        ).len() + emit(entries[k as int].1).len(),
    decreases n - k,
{
    if k < n {
        let whole = emit_entries(entries, n);
        lemma_emit_entries_prefix(entries, k, (n - 1) as nat);
        assert forall|j: int| 0 <= j < emit_entries(entries, k).len() implies whole[0 + j]
            == #[trigger] emit_entries(entries, k)[j] by {}
        if k < n - 1 {
            let at = emit_entries(entries, k).len();
            assert forall|j: int| 0 <= j < emit(entries[k as int].0).len() implies whole[at + j]
                == #[trigger] emit(entries[k as int].0)[j] by {}
            let then = at + emit(entries[k as int].0).len();
            assert forall|j: int| 0 <= j < emit(entries[k as int].1).len() implies whole[then + j]
                == #[trigger] emit(entries[k as int].1)[j] by {}
        }
    }
}

/// The events of the first items of a list are those of any list that
/// begins with the same items.
pub proof fn lemma_emit_list_agree(a: Seq<Raw>, b: Seq<Raw>, n: nat)
    requires
        n <= a.len(),
        n <= b.len(),
        forall|i: int| 0 <= i < n ==> a[i] == b[i],
    ensures
        emit_list(a, n) == emit_list(b, n),
    decreases n,
{
    if n > 0 {
        lemma_emit_list_agree(a, b, (n - 1) as nat);
    }
}

/// The events of the first entries of a mapping are those of any mapping
/// that begins with the same entries.
pub proof fn lemma_emit_entries_agree(a: Seq<(Raw, Raw)>, b: Seq<(Raw, Raw)>, n: nat)
    requires
        n <= a.len(),
        n <= b.len(),
        forall|i: int| 0 <= i < n ==> a[i] == b[i],
    ensures
        emit_entries(a, n) == emit_entries(b, n),
    decreases n,
{
    if n > 0 {
        lemma_emit_entries_agree(a, b, (n - 1) as nat);
    }
}

/// Storing the first pairs of a sequence gives what storing them from any
/// sequence that begins with the same pairs gives.
pub proof fn lemma_put_all_agree(a: Seq<(Raw, Raw)>, b: Seq<(Raw, Raw)>, n: nat)
    requires
        n <= a.len(),
        n <= b.len(),
        forall|i: int| 0 <= i < n ==> a[i] == b[i],
    ensures
        put_all(Seq::empty(), a, n) == put_all(Seq::empty(), b, n),
    decreases n,
{
    if n > 0 {
        lemma_put_all_agree(a, b, (n - 1) as nat);
    }
}

/// Decoding the events of an object gives the object as a build stores it
/// where it is nested no deeper than the ceiling, and fails on its depth
/// where it is.
pub proof fn lemma_parse_emit(s: Seq<Tok>, pos: nat, t: Raw, depth: nat)
    requires
        holds(s, pos, emit(t)),
    ensures
        parse(s, pos, depth) == (if t.within(depth) {
            Ok::<(Raw, nat), DecodeError>((t.normal(), pos + emit(t).len()))
        } else {
            Err(DecodeError::NestingTooDeep)
        }),
    decreases t, 0nat,
{
    assert(s[pos as int] == emit(t)[0]);
    match t {
        Raw::List(items) => {
            if depth > 0 {
                let body = emit_list(items, items.len());
                assert(holds(emit(t), 1, body)) by {
                    assert forall|j: int| 0 <= j < body.len() implies emit(t)[1 + j]
                        == #[trigger] body[j] by {}
                }
                assert(s[(pos + 1 + body.len()) as int] == emit(t)[(1 + body.len()) as int]);
                assert(normal_list(items).take(0) =~= Seq::<Raw>::empty());
                lemma_parse_items_emit(s, pos + 1, items, 0, (depth - 1) as nat);
            }
        },
        Raw::Mapping(entries) => {
            if depth > 0 {
                let body = emit_entries(entries, entries.len());
                assert(holds(emit(t), 1, body)) by {
                    assert forall|j: int| 0 <= j < body.len() implies emit(t)[1 + j]
                        == #[trigger] body[j] by {}
                }
                assert(s[(pos + 1 + body.len()) as int] == emit(t)[(1 + body.len()) as int]);
                lemma_parse_entries_emit(s, pos + 1, entries, 0, (depth - 1) as nat);
            }
        },
        _ => {},
    }
}

/// Decoding the events of the items of a list from the `k`-th on, the items
/// before it being done.
pub proof fn lemma_parse_items_emit(s: Seq<Tok>, base: nat, items: Seq<Raw>, k: nat, depth: nat)
    requires
        k <= items.len(),
        holds(s, base, emit_list(items, items.len())),
        base + emit_list(items, items.len()).len() < s.len(),
        s[(base + emit_list(items, items.len()).len()) as int] is SeqEnd,
        forall|i: int| 0 <= i < k ==> (#[trigger] items[i]).within(depth),
    ensures
        parse_items(s, base + emit_list(items, k).len(), depth, normal_list(items).take(k as int))
            == (if forall|i: int| 0 <= i < items.len() ==> (#[trigger] items[i]).within(depth) {
            Ok::<(Raw, nat), DecodeError>(
                (Raw::List(normal_list(items)), base + emit_list(items, items.len()).len() + 1),
            )
        } else {
            Err(DecodeError::NestingTooDeep)
        }),
    decreases items, items.len() - k,
{
    let pos = base + emit_list(items, k).len();
    lemma_emit_list_prefix(items, k, items.len());
    if k == items.len() {
        assert(normal_list(items).take(k as int) =~= normal_list(items));
    } else {
        let item = items[k as int];
        lemma_parse_emit(s, pos, item, depth);
        if item.within(depth) {
            assert(normal_list(items).take(k as int).push(item.normal()) =~= normal_list(
                items,
            ).take((k + 1) as int));
            lemma_parse_items_emit(s, base, items, k + 1, depth);
        }
    }
}

/// Decoding the events of the entries of a mapping from the `k`-th on, the
/// entries before it being stored.
pub proof fn lemma_parse_entries_emit(
    s: Seq<Tok>,
    base: nat,
    entries: Seq<(Raw, Raw)>,
    k: nat,
    depth: nat,
)
    requires
        k <= entries.len(),
        holds(s, base, emit_entries(entries, entries.len())),
        base + emit_entries(entries, entries.len()).len() < s.len(),
        s[(base + emit_entries(entries, entries.len()).len()) as int] is MapEnd,
        forall|i: int|
            0 <= i < k ==> (#[trigger] entries[i]).0.within(depth) && entries[i].1.within(depth),
    ensures
        parse_entries(
            s,
            base + emit_entries(entries, k).len(),
            depth,
            put_all(Seq::empty(), normal_entries(entries), k),
        ) == (if forall|i: int|
            0 <= i < entries.len() ==> (#[trigger] entries[i]).0.within(depth)
                && entries[i].1.within(depth) {
            Ok::<(Raw, nat), DecodeError>(
                (
                    Raw::Mapping(put_all(Seq::empty(), normal_entries(entries), entries.len())),
                    base + emit_entries(entries, entries.len()).len() + 1,
                ),
            )
        } else {
            Err(DecodeError::NestingTooDeep)
        }),
    decreases entries, entries.len() - k,
{
    let pos = base + emit_entries(entries, k).len();
    lemma_emit_entries_prefix(entries, k, entries.len());
    if k < entries.len() {
        let (key, value) = entries[k as int];
        lemma_parse_emit(s, pos, key, depth);
        if key.within(depth) {
            let mid = pos + emit(key).len();
            lemma_parse_emit(s, mid, value, depth);
            if value.within(depth) {
                lemma_parse_entries_emit(s, base, entries, k + 1, depth);
            }
        }
    }
}

/// Entries whose keys ascend are stored as they stand.
pub proof fn lemma_put_all_ascending(entries: Seq<(Raw, Raw)>, k: nat)
    requires
        keys_ascend(canon_entries(entries)),
        k <= entries.len(),
    ensures
        put_all(Seq::empty(), entries, k) == entries.take(k as int),
    decreases k,
{
    if k > 0 {
        lemma_put_all_ascending(entries, (k - 1) as nat);
        let done = entries.take(k - 1);
        let (key, value) = entries[k - 1];
        assert forall|i: int| 0 <= i < done.len() implies val_lt(
            #[trigger] done[i].0.canon(),
            key.canon(),
        ) by {
            assert(canon_entries(entries)[i].0 == entries[i].0.canon());
            assert(canon_entries(entries)[k - 1].0 == key.canon());
        }
        lemma_put_last(done, key, value);
    }
}

/// An object in which the keys of every mapping ascend is stored as it
/// stands.
pub proof fn lemma_normal_of_wf(t: Raw)
    requires
        t.wf(),
    ensures
        t.normal() == t,
    decreases t,
{
    match t {
        Raw::List(items) => {
            assert forall|i: int| 0 <= i < items.len() implies normal_list(items)[i]
                == items[i] by {
                lemma_normal_of_wf(items[i]);
            }
            assert(normal_list(items) =~= items);
        },
        Raw::Mapping(entries) => {
            assert forall|i: int| 0 <= i < entries.len() implies normal_entries(entries)[i]
                == entries[i] by {
                lemma_normal_of_wf(entries[i].0);
                lemma_normal_of_wf(entries[i].1);
            }
            assert(normal_entries(entries) =~= entries);
            lemma_put_all_ascending(entries, entries.len());
            assert(entries.take(entries.len() as int) =~= entries);
        },
        _ => {},
    }
}

/// A decode that succeeds has moved forward in the stream, and what it gives
/// has ascending keys in every mapping and is nested no deeper than the
/// ceiling.
pub proof fn lemma_parse_sound(s: Seq<Tok>, pos: nat, depth: nat)
    ensures
        parse(s, pos, depth) matches Ok((t, next)) ==> pos < next <= s.len() && t.wf() && t.within(
            depth,
        ),
    decreases s.len() - pos, 1nat,
{
    if pos < s.len() && depth > 0 {
        if s[pos as int] is SeqBegin {
            lemma_parse_items_sound(s, pos + 1, (depth - 1) as nat, Seq::empty());
        } else if s[pos as int] is MapBegin {
            lemma_parse_entries_sound(s, pos + 1, (depth - 1) as nat, Seq::empty());
        }
    }
}

/// The same of the rest of a sequence, where it holds of the items done.
pub proof fn lemma_parse_items_sound(s: Seq<Tok>, pos: nat, depth: nat, done: Seq<Raw>)
    requires
        forall|i: int| 0 <= i < done.len() ==> (#[trigger] done[i]).wf() && done[i].within(depth),
    ensures
        parse_items(s, pos, depth, done) matches Ok((t, next)) ==> pos < next <= s.len() && t.wf()
            && t.within(depth + 1),
    decreases s.len() - pos, 2nat,
{
    if pos < s.len() && !(s[pos as int] is SeqEnd) {
        lemma_parse_sound(s, pos, depth);
        if let Ok((item, next)) = parse(s, pos, depth) {
            if pos < next <= s.len() {
                lemma_parse_items_sound(s, next, depth, done.push(item));
            }
        }
    }
}

/// The same of the rest of a mapping, where it holds of the entries done.
pub proof fn lemma_parse_entries_sound(s: Seq<Tok>, pos: nat, depth: nat, done: Seq<(Raw, Raw)>)
    requires
        keys_ascend(canon_entries(done)),
        forall|i: int|
            0 <= i < done.len() ==> (#[trigger] done[i]).0.wf() && done[i].1.wf()
                && done[i].0.within(depth) && done[i].1.within(depth),
    ensures
        parse_entries(s, pos, depth, done) matches Ok((t, next)) ==> pos < next <= s.len()
            && t.wf() && t.within(depth + 1),
    decreases s.len() - pos, 2nat,
{
    if pos < s.len() && !(s[pos as int] is MapEnd) {
        lemma_parse_sound(s, pos, depth);
        if let Ok((key, mid)) = parse(s, pos, depth) {
            if pos < mid <= s.len() {
                lemma_parse_sound(s, mid, depth);
                if let Ok((value, next)) = parse(s, mid, depth) {
                    if mid < next <= s.len() {
                        let after = raw_put(done, key, value);
                        lemma_put_ascends(done, key, value);
                        lemma_put_preserves(done, key, value, |r: Raw| r.wf() && r.within(depth));
                        lemma_parse_entries_sound(s, next, depth, after);
                    }
                }
            }
        }
    }
}

/// The hints of begin events do not bear on what a decode gives.
pub proof fn lemma_parse_alike(a: Seq<Tok>, b: Seq<Tok>, pos: nat, depth: nat)
    requires
        alike(a, b),
    ensures
        parse(a, pos, depth) == parse(b, pos, depth),
    decreases a.len() - pos, 1nat,
{
    if pos < a.len() {
        if depth > 0 {
            if a[pos as int] is SeqBegin {
                lemma_parse_items_alike(a, b, pos + 1, (depth - 1) as nat, Seq::empty());
            } else if a[pos as int] is MapBegin {
                lemma_parse_entries_alike(a, b, pos + 1, (depth - 1) as nat, Seq::empty());
            }
        }
    }
}

/// The same of the rest of a sequence.
pub proof fn lemma_parse_items_alike(
    a: Seq<Tok>,
    b: Seq<Tok>,
    pos: nat,
    depth: nat,
    done: Seq<Raw>,
)
    requires
        alike(a, b),
    ensures
        parse_items(a, pos, depth, done) == parse_items(b, pos, depth, done),
    decreases a.len() - pos, 2nat,
{
    if pos < a.len() {
        if !(a[pos as int] is SeqEnd) {
            lemma_parse_alike(a, b, pos, depth);
            if let Ok((item, next)) = parse(a, pos, depth) {
                if pos < next <= a.len() {
                    lemma_parse_items_alike(a, b, next, depth, done.push(item));
                }
            }
        }
    }
}

/// The same of the rest of a mapping.
pub proof fn lemma_parse_entries_alike(
    a: Seq<Tok>,
    b: Seq<Tok>,
    pos: nat,
    depth: nat,
    done: Seq<(Raw, Raw)>,
)
    requires
        alike(a, b),
    ensures
        parse_entries(a, pos, depth, done) == parse_entries(b, pos, depth, done),
    decreases a.len() - pos, 2nat,
{
    if pos < a.len() {
        if !(a[pos as int] is MapEnd) {
            lemma_parse_alike(a, b, pos, depth);
            if let Ok((key, mid)) = parse(a, pos, depth) {
                if pos < mid <= a.len() {
                    lemma_parse_alike(a, b, mid, depth);
                    if let Ok((value, next)) = parse(a, mid, depth) {
                        if mid < next <= a.len() {
                            lemma_parse_entries_alike(
                                a,
                                b,
                                next,
                                depth,
                                raw_put(done, key, value),
                            );
                        }
                    }
                }
            }
        }
    }
}

/// What a decode gives is what a build stores of some object, nested no
/// deeper than the ceiling, whose events the stream spans from `pos` on.
pub proof fn lemma_parse_source(s: Seq<Tok>, pos: nat, depth: nat) -> (u: Raw)
    requires
        parse(s, pos, depth) is Ok,
    ensures
        parse(s, pos, depth) == Ok::<(Raw, nat), DecodeError>((u.normal(), pos + emit(u).len())),
        u.within(depth),
        spans(s, pos, pos + emit(u).len(), emit(u)),
    decreases s.len() - pos, 1nat,
{
    let tok = s[pos as int];
    match tok {
        Tok::SeqBegin(_) => {
            let none = Seq::<Raw>::empty();
            assert(normal_list(none) =~= none);
            Raw::List(lemma_parse_items_source(s, pos + 1, (depth - 1) as nat, pos + 1, none))
        },
        Tok::MapBegin(_) => {
            let none = Seq::<(Raw, Raw)>::empty();
            Raw::Mapping(lemma_parse_entries_source(s, pos + 1, (depth - 1) as nat, pos + 1, none))
        },
        Tok::Null => Raw::Null,
        Tok::Bool(v) => Raw::Bool(v),
        Tok::Unsigned(v) => Raw::Unsigned(v),
        Tok::Signed(v) => Raw::Signed(v),
        Tok::Float(v) => Raw::Float(v),
        Tok::Str(v) => Raw::Str(v),
        Tok::Bytes(v) => Raw::Bin(v),
        _ => Raw::Null,
    }
}

/// The same of the rest of a sequence that began at `start`, `done` being
/// the objects whose events the stream spans up to `pos`.
pub proof fn lemma_parse_items_source(
    s: Seq<Tok>,
    pos: nat,
    depth: nat,
    start: nat,
    done: Seq<Raw>,
) -> (src: Seq<Raw>)
    requires
        parse_items(s, pos, depth, normal_list(done)) is Ok,
        spans(s, start, pos, emit_list(done, done.len())),
        forall|i: int| 0 <= i < done.len() ==> (#[trigger] done[i]).within(depth),
    ensures
        parse_items(s, pos, depth, normal_list(done)) == Ok::<(Raw, nat), DecodeError>(
            (Raw::List(normal_list(src)), start + emit_list(src, src.len()).len() + 1),
        ),
        forall|i: int| 0 <= i < src.len() ==> (#[trigger] src[i]).within(depth),
        spans(s, start, start + emit_list(src, src.len()).len(), emit_list(src, src.len())),
        start + emit_list(src, src.len()).len() < s.len(),
        s[(start + emit_list(src, src.len()).len()) as int] is SeqEnd,
    decreases s.len() - pos, 2nat,
{
    if s[pos as int] is SeqEnd {
        done
    } else {
        let u = lemma_parse_source(s, pos, depth);
        let next = pos + emit(u).len();
        let more = done.push(u);
        assert(normal_list(more) =~= normal_list(done).push(u.normal()));
        lemma_emit_list_agree(more, done, done.len());
        lemma_parse_items_source(s, next, depth, start, more)
    }
}

/// The same of the rest of a mapping that began at `start`, `done` being the
/// entries whose events the stream spans up to `pos`.
pub proof fn lemma_parse_entries_source(
    s: Seq<Tok>,
    pos: nat,
    depth: nat,
    start: nat,
    done: Seq<(Raw, Raw)>,
) -> (src: Seq<(Raw, Raw)>)
    requires
        parse_entries(s, pos, depth, put_all(Seq::empty(), normal_entries(done), done.len()))
            is Ok,
        spans(s, start, pos, emit_entries(done, done.len())),
        forall|i: int|
            0 <= i < done.len() ==> (#[trigger] done[i]).0.within(depth) && done[i].1.within(depth),
    ensures
        parse_entries(s, pos, depth, put_all(Seq::empty(), normal_entries(done), done.len()))
            == Ok::<(Raw, nat), DecodeError>(
            (
                Raw::Mapping(put_all(Seq::empty(), normal_entries(src), src.len())),
                start + emit_entries(src, src.len()).len() + 1,
            ),
        ),
        forall|i: int|
            0 <= i < src.len() ==> (#[trigger] src[i]).0.within(depth) && src[i].1.within(depth),
        spans(s, start, start + emit_entries(src, src.len()).len(), emit_entries(src, src.len())),
        start + emit_entries(src, src.len()).len() < s.len(),
        s[(start + emit_entries(src, src.len()).len()) as int] is MapEnd,
    decreases s.len() - pos, 2nat,
{
    if s[pos as int] is MapEnd {
        done
    } else {
        let key = lemma_parse_source(s, pos, depth);
        let mid = pos + emit(key).len();
        let value = lemma_parse_source(s, mid, depth);
        let next = mid + emit(value).len();
        let more = done.push((key, value));
        lemma_put_all_agree(normal_entries(more), normal_entries(done), done.len());
        lemma_emit_entries_agree(more, done, done.len());
        lemma_parse_entries_source(s, next, depth, start, more)
    }
}

/// Decoding a stream that ends inside the events of an object fails: the
/// input is malformed.
pub proof fn lemma_parse_cut(s: Seq<Tok>, pos: nat, t: Raw, depth: nat)
    requires
        t.within(depth),
        cut(s, pos, emit(t)),
    ensures
        parse(s, pos, depth) == Err::<(Raw, nat), DecodeError>(DecodeError::MalformedInput),
    decreases t, 0nat,
{
    if pos < s.len() {
        assert(s[pos as int] == emit(t)[0]);
        match t {
            Raw::List(items) => {
                let body = emit_list(items, items.len()) + seq![Tok::SeqEnd];
                assert forall|j: int| 0 <= j < s.len() - (pos + 1) implies s[pos + 1 + j]
                    == #[trigger] body[j] by {
                    assert(s[pos + (1 + j)] == emit(t)[1 + j]);
                }
                lemma_parse_items_cut(
                    s,
                    pos + 1,
                    items,
                    0,
                    (depth - 1) as nat,
                    Seq::empty(),
                );
            },
            Raw::Mapping(entries) => {
                let body = emit_entries(entries, entries.len()) + seq![Tok::MapEnd];
                assert forall|j: int| 0 <= j < s.len() - (pos + 1) implies s[pos + 1 + j]
                    == #[trigger] body[j] by {
                    assert(s[pos + (1 + j)] == emit(t)[1 + j]);
                }
                lemma_parse_entries_cut(
                    s,
                    pos + 1,
                    entries,
                    0,
                    (depth - 1) as nat,
                    Seq::empty(),
                );
            },
            _ => {},
        }
    }
}

/// The same of the rest of a sequence, the stream holding the events of its
/// first `k` items whole.
pub proof fn lemma_parse_items_cut(
    s: Seq<Tok>,
    base: nat,
    items: Seq<Raw>,
    k: nat,
    depth: nat,
    done: Seq<Raw>,
)
    requires
        k <= items.len(),
        forall|i: int| 0 <= i < items.len() ==> (#[trigger] items[i]).within(depth),
        cut(s, base, emit_list(items, items.len()) + seq![Tok::SeqEnd]),
        base + emit_list(items, k).len() <= s.len(),
    ensures
        parse_items(s, base + emit_list(items, k).len(), depth, done) == Err::<
            (Raw, nat),
            DecodeError,
        >(DecodeError::MalformedInput),
    decreases items, items.len() - k,
{
    let pos = base + emit_list(items, k).len();
    let whole = emit_list(items, items.len());
    let body = whole + seq![Tok::SeqEnd];
    lemma_emit_list_prefix(items, k, items.len());
    if pos < s.len() {
        if k < items.len() {
            let item = items[k as int];
            let e = emit(item);
            assert(body[emit_list(items, k).len() as int] == whole[emit_list(
                items,
                k,
            ).len() as int]);
            assert(s[pos as int] == e[0]);
            assert forall|j: int| 0 <= j < e.len() && pos + j < s.len() implies s[pos + j]
                == #[trigger] e[j] by {
                assert(s[base + (emit_list(items, k).len() + j)] == body[emit_list(items, k).len()
                    + j]);
            }
            if pos + e.len() <= s.len() {
                lemma_parse_emit(s, pos, item, depth);
                lemma_parse_items_cut(s, base, items, k + 1, depth, done.push(item.normal()));
            } else {
                lemma_parse_cut(s, pos, item, depth);
            }
        }
    }
}

/// The same of the rest of a mapping, the stream holding the events of its
/// first `k` entries whole.
pub proof fn lemma_parse_entries_cut(
    s: Seq<Tok>,
    base: nat,
    entries: Seq<(Raw, Raw)>,
    k: nat,
    depth: nat,
    done: Seq<(Raw, Raw)>,
)
    requires
        k <= entries.len(),
        forall|i: int|
            0 <= i < entries.len() ==> (#[trigger] entries[i]).0.within(depth)
                && entries[i].1.within(depth),
        cut(s, base, emit_entries(entries, entries.len()) + seq![Tok::MapEnd]),
        base + emit_entries(entries, k).len() <= s.len(),
    ensures
        parse_entries(s, base + emit_entries(entries, k).len(), depth, done) == Err::<
            (Raw, nat),
            DecodeError,
        >(DecodeError::MalformedInput),
    decreases entries, entries.len() - k,
{
    let pos = base + emit_entries(entries, k).len();
    let whole = emit_entries(entries, entries.len());
    let body = whole + seq![Tok::MapEnd];
    lemma_emit_entries_prefix(entries, k, entries.len());
    if pos < s.len() {
        if k < entries.len() {
            let (key, value) = entries[k as int];
            let ek = emit(key);
            let ev = emit(value);
            assert(body[emit_entries(entries, k).len() as int] == whole[emit_entries(
                entries,
                k,
            ).len() as int]);
            assert(s[pos as int] == ek[0]);
            assert forall|j: int| 0 <= j < ek.len() && pos + j < s.len() implies s[pos + j]
                == #[trigger] ek[j] by {
                assert(s[base + (emit_entries(entries, k).len() + j)] == body[emit_entries(
                    entries,
                    k,
                ).len() + j]);
            }
            if pos + ek.len() <= s.len() {
                lemma_parse_emit(s, pos, key, depth);
                let mid = pos + ek.len();
                assert forall|j: int| 0 <= j < ev.len() && mid + j < s.len() implies s[mid + j]
                    == #[trigger] ev[j] by {
                    assert(s[base + (emit_entries(entries, k).len() + ek.len() + j)]
                        == body[emit_entries(entries, k).len() + ek.len() + j]);
                }
                if mid + ev.len() <= s.len() {
                    lemma_parse_emit(s, mid, value, depth);
                    lemma_parse_entries_cut(
                        s,
                        base,
                        entries,
                        k + 1,
                        depth,
                        raw_put(done, key.normal(), value.normal()),
                    );
                } else {
                    lemma_parse_cut(s, mid, value, depth);
                }
            } else {
                lemma_parse_cut(s, pos, key, depth);
            }
        }
    }
}

} // verus!
