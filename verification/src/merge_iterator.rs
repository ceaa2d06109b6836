//! K-way merge of sorted sources with recency tie-break: the mathematical
//! model of the merged stream, and the priority merge iterator itself.
//!
//! The model views the live sources as a sequence of slots, one per source
//! index; an exhausted or absent source is an empty slot. `merge_output`
//! gives the exact stream the merge yields: repeatedly emit the entry of the
//! slot with the least (head key, index) pair, and drop the head of every
//! slot positioned at that key, so that lower-index sources win ties and
//! duplicates are never surfaced.

use vstd::prelude::*;
use vstd::pervasive::unreached;
use crate::key::KeySlice;
use crate::key::KeyVec;
use crate::key::key_eq;
use crate::key::key_lt;
use crate::key::lex_lt;
use crate::key::lemma_lex_lt_asymmetric;
use crate::key::lemma_lex_lt_connected;
use crate::key::lemma_lex_lt_irreflexive;
use crate::key::lemma_lex_lt_transitive;
use crate::iterators::IterationError;
use crate::iterators::StorageIterator;

verus! {

/// Every slot is in strictly ascending key order.
pub open spec fn all_ascending(srcs: Seq<Seq<(Seq<u8>, Seq<u8>)>>) -> bool {
    forall|i: int|
        0 <= i < srcs.len() ==> crate::iterators::strictly_ascending(#[trigger] srcs[i])
}

/// Slot `b` precedes slot `i` in (head key, index) order.
pub open spec fn beats(srcs: Seq<Seq<(Seq<u8>, Seq<u8>)>>, b: int, i: int) -> bool {
    lex_lt(srcs[b][0].0, srcs[i][0].0) || (srcs[b][0].0 == srcs[i][0].0 && b < i)
}

/// Some slot in `[k, srcs.len())` is nonempty.
pub open spec fn has_live(srcs: Seq<Seq<(Seq<u8>, Seq<u8>)>>, k: int) -> bool {
    exists|i: int| k <= i < srcs.len() && (#[trigger] srcs[i]).len() != 0
}

/// Slot `b` is nonempty and precedes every other nonempty slot in
/// `[k, srcs.len())`.
pub open spec fn is_best_in(srcs: Seq<Seq<(Seq<u8>, Seq<u8>)>>, b: int, k: int) -> bool {
    &&& k <= b < srcs.len()
    &&& srcs[b].len() != 0
    &&& forall|i: int|
        k <= i < srcs.len() && (#[trigger] srcs[i]).len() != 0 && i != b ==> beats(srcs, b, i)
}

/// The index of the nonempty slot least in (head key, index) order among
/// slots `[k, srcs.len())`, or -1 when all those slots are empty.
pub open spec fn best_from(srcs: Seq<Seq<(Seq<u8>, Seq<u8>)>>, k: int) -> int
    decreases srcs.len() - k,
{
    if k < 0 || k >= srcs.len() {
        -1
    } else {
        let rest = best_from(srcs, k + 1);
        if srcs[k].len() == 0 {
            rest
        } else if rest == -1 {
            k
        } else if lex_lt(srcs[rest][0].0, srcs[k][0].0) {
            rest
        } else {
            k
        }
    }
}

/// The slot whose head entry the merge emits next, or -1 when exhausted.
pub open spec fn best_slot(srcs: Seq<Seq<(Seq<u8>, Seq<u8>)>>) -> int {
    best_from(srcs, 0)
}

/// The number of entries left over all slots.
pub open spec fn total_len(srcs: Seq<Seq<(Seq<u8>, Seq<u8>)>>) -> nat
    decreases srcs.len(),
{
    if srcs.len() == 0 {
        0
    } else {
        total_len(srcs.drop_last()) + srcs.last().len()
    }
}

/// Advances every slot positioned at `key` past it.
pub open spec fn drain(srcs: Seq<Seq<(Seq<u8>, Seq<u8>)>>, key: Seq<u8>) -> Seq<
    Seq<(Seq<u8>, Seq<u8>)>,
> {
    Seq::new(
        srcs.len(),
        |i: int|
            if srcs[i].len() != 0 && srcs[i][0].0 == key {
                srcs[i].drop_first()
            } else {
                srcs[i]
            },
    )
}

/// The merged stream: the entry of the best slot, then the merge of the
/// slots with every occurrence of that entry's key consumed.
pub open spec fn merge_output(srcs: Seq<Seq<(Seq<u8>, Seq<u8>)>>) -> Seq<(Seq<u8>, Seq<u8>)>
    decreases total_len(srcs),
    via merge_output_decreases
{
    let b = best_slot(srcs);
    if b == -1 {
        Seq::empty()
    } else {
        seq![srcs[b][0]] + merge_output(drain(srcs, srcs[b][0].0))
    }
}

#[via_fn]
proof fn merge_output_decreases(srcs: Seq<Seq<(Seq<u8>, Seq<u8>)>>) {
    let b = best_slot(srcs);
    if b != -1 {
        lemma_best_from(srcs, 0);
        lemma_drain_total_len(srcs, srcs[b][0].0, b);
    }
}

/// `best_from` returns -1 exactly when all slots from `k` on are empty, and
/// otherwise the least nonempty slot in (head key, index) order.
pub proof fn lemma_best_from(srcs: Seq<Seq<(Seq<u8>, Seq<u8>)>>, k: int)
    requires
        0 <= k <= srcs.len(),
    ensures
        has_live(srcs, k) ==> is_best_in(srcs, best_from(srcs, k), k),
        !has_live(srcs, k) ==> best_from(srcs, k) == -1,
    decreases srcs.len() - k,
{
    if k == srcs.len() {
        assert(!has_live(srcs, k));
    } else {
        lemma_best_from(srcs, k + 1);
        let rest = best_from(srcs, k + 1);
        let b = best_from(srcs, k);
        if srcs[k].len() == 0 {
            if has_live(srcs, k) {
                let w = choose|i: int| k <= i < srcs.len() && (#[trigger] srcs[i]).len() != 0;
                assert(w != k);
                assert(has_live(srcs, k + 1));
            }
            if has_live(srcs, k + 1) {
                assert(has_live(srcs, k));
            }
        } else {
            assert(has_live(srcs, k));
            if rest == -1 {
                assert(b == k);
                assert forall|i: int|
                    k <= i < srcs.len() && (#[trigger] srcs[i]).len() != 0 && i != k implies beats(
                    srcs,
                    k,
                    i,
                ) by {
                    assert(has_live(srcs, k + 1));
                }
            } else {
                let kk = srcs[k][0].0;
                let kr = srcs[rest][0].0;
                if lex_lt(kr, kk) {
                    assert(b == rest);
                    assert forall|i: int|
                        k <= i < srcs.len() && (#[trigger] srcs[i]).len() != 0 && i != rest implies
                        beats(srcs, rest, i) by {
                        if i == k {
                            assert(lex_lt(kr, kk));
                        }
                    }
                } else {
                    assert(b == k);
                    lemma_lex_lt_connected(kk, kr);
                    assert forall|i: int|
                        k <= i < srcs.len() && (#[trigger] srcs[i]).len() != 0 && i != k implies
                        beats(srcs, k, i) by {
                        let ki = srcs[i][0].0;
                        if i == rest {
                            assert(lex_lt(kk, kr) || kk == kr);
                        } else {
                            assert(beats(srcs, rest, i));
                            if lex_lt(kk, kr) {
                                if lex_lt(kr, ki) {
                                    lemma_lex_lt_transitive(kk, kr, ki);
                                } else {
                                    assert(kr == ki);
                                }
                            } else {
                                assert(kk == kr);
                            }
                        }
                    }
                }
            }
        }
    }
}

/// Slot-wise no-larger slots give a no-larger total.
pub proof fn lemma_total_len_le(a: Seq<Seq<(Seq<u8>, Seq<u8>)>>, b: Seq<Seq<(Seq<u8>, Seq<u8>)>>)
    requires
        a.len() == b.len(),
        forall|i: int| 0 <= i < a.len() ==> (#[trigger] a[i]).len() <= b[i].len(),
    ensures
        total_len(a) <= total_len(b),
    decreases a.len(),
{
    if a.len() != 0 {
        lemma_total_len_le(a.drop_last(), b.drop_last());
    }
}

/// A slot-wise no-larger family with one strictly smaller slot has a
/// strictly smaller total.
pub proof fn lemma_total_len_lt(
    a: Seq<Seq<(Seq<u8>, Seq<u8>)>>,
    b: Seq<Seq<(Seq<u8>, Seq<u8>)>>,
    w: int,
)
    requires
        a.len() == b.len(),
        forall|i: int| 0 <= i < a.len() ==> (#[trigger] a[i]).len() <= b[i].len(),
        0 <= w < a.len(),
        a[w].len() < b[w].len(),
    ensures
        total_len(a) < total_len(b),
    decreases a.len(),
{
    if w == a.len() - 1 {
        lemma_total_len_le(a.drop_last(), b.drop_last());
    } else {
        lemma_total_len_lt(a.drop_last(), b.drop_last(), w);
    }
}

/// Draining the key of a nonempty slot strictly shrinks the total.
pub proof fn lemma_drain_total_len(srcs: Seq<Seq<(Seq<u8>, Seq<u8>)>>, key: Seq<u8>, w: int)
    requires
        0 <= w < srcs.len(),
        srcs[w].len() != 0,
        srcs[w][0].0 == key,
    ensures
        total_len(drain(srcs, key)) < total_len(srcs),
{
    let d = drain(srcs, key);
    assert(d[w].len() < srcs[w].len());
    lemma_total_len_lt(d, srcs, w);
}

/// `merge_output` is empty exactly when every slot is empty.
pub proof fn lemma_merge_output_empty(srcs: Seq<Seq<(Seq<u8>, Seq<u8>)>>)
    ensures
        merge_output(srcs).len() == 0 <==> !has_live(srcs, 0),
{
    lemma_best_from(srcs, 0);
    if has_live(srcs, 0) {
        let b = best_slot(srcs);
        assert(merge_output(srcs) == seq![srcs[b][0]] + merge_output(drain(srcs, srcs[b][0].0)));
    }
}

/// A slot that precedes every other nonempty slot is the best slot.
pub proof fn lemma_best_is(srcs: Seq<Seq<(Seq<u8>, Seq<u8>)>>, c: int)
    requires
        0 <= c < srcs.len(),
        srcs[c].len() != 0,
        forall|i: int|
            0 <= i < srcs.len() && (#[trigger] srcs[i]).len() != 0 && i != c ==> beats(srcs, c, i),
    ensures
        best_slot(srcs) == c,
{
    lemma_best_from(srcs, 0);
    assert(has_live(srcs, 0));
    let b = best_slot(srcs);
    if b != c {
        assert(beats(srcs, b, c));
        assert(beats(srcs, c, b));
        lemma_lex_lt_asymmetric(srcs[b][0].0, srcs[c][0].0);
        lemma_lex_lt_irreflexive(srcs[b][0].0);
        assert(false);
    }
}

/// Ascending order survives consuming the head, and the head precedes every
/// later entry.
pub proof fn lemma_ascending_drop_first(s: Seq<(Seq<u8>, Seq<u8>)>)
    requires
        crate::iterators::strictly_ascending(s),
        s.len() != 0,
    ensures
        crate::iterators::strictly_ascending(s.drop_first()),
        forall|i: int| 1 <= i < s.len() ==> lex_lt(s[0].0, (#[trigger] s[i]).0),
{
    assert forall|i: int, j: int|
        #![trigger s.drop_first()[i], s.drop_first()[j]]
        0 <= i < j < s.drop_first().len() implies lex_lt(
        s.drop_first()[i].0,
        s.drop_first()[j].0,
    ) by {
        assert(s.drop_first()[i] == s[i + 1]);
        assert(s.drop_first()[j] == s[j + 1]);
    }
}

/// Consuming the head of a slot positioned at `key` leaves `drain` of the
/// family unchanged.
proof fn lemma_drain_step(srcs: Seq<Seq<(Seq<u8>, Seq<u8>)>>, key: Seq<u8>, i: int)
    requires
        0 <= i < srcs.len(),
        srcs[i].len() != 0,
        srcs[i][0].0 == key,
        crate::iterators::strictly_ascending(srcs[i]),
    ensures
        drain(srcs.update(i, srcs[i].drop_first()), key) == drain(srcs, key),
{
    let upd = srcs.update(i, srcs[i].drop_first());
    if upd[i].len() != 0 {
        lemma_ascending_drop_first(srcs[i]);
        assert(upd[i][0] == srcs[i][1]);
        lemma_lex_lt_irreflexive(key);
        assert(upd[i][0].0 != key);
    }
    assert(drain(upd, key) =~= drain(srcs, key));
}

/// Unfolds one step of the merge: its head entry and the rest of the stream.
pub proof fn lemma_merge_output_step(srcs: Seq<Seq<(Seq<u8>, Seq<u8>)>>, b: int)
    requires
        best_slot(srcs) == b,
        b != -1,
    ensures
        merge_output(srcs).len() != 0,
        merge_output(srcs)[0] == srcs[b][0],
        merge_output(srcs).drop_first() == merge_output(drain(srcs, srcs[b][0].0)),
{
    let tail = merge_output(drain(srcs, srcs[b][0].0));
    assert(merge_output(srcs) == seq![srcs[b][0]] + tail);
    assert((seq![srcs[b][0]] + tail).drop_first() =~= tail);
}

/// Some entry of `s` has key `k`.
pub open spec fn slot_has_key(s: Seq<(Seq<u8>, Seq<u8>)>, k: Seq<u8>) -> bool {
    exists|i: int| 0 <= i < s.len() && (#[trigger] s[i]).0 == k
}

/// The first entry of `s` whose key is `k`; the only one when `s` is
/// ascending.
pub open spec fn slot_lookup(s: Seq<(Seq<u8>, Seq<u8>)>, k: Seq<u8>) -> (Seq<u8>, Seq<u8>)
    recommends
        slot_has_key(s, k),
    decreases s.len(),
{
    if s.len() == 0 {
        (Seq::empty(), Seq::empty())
    } else if s[0].0 == k {
        s[0]
    } else {
        slot_lookup(s.drop_first(), k)
    }
}

/// An ascending sequence holds at most one entry per key.
pub proof fn lemma_ascending_unique_key(s: Seq<(Seq<u8>, Seq<u8>)>, k: Seq<u8>)
    requires
        crate::iterators::strictly_ascending(s),
    ensures
        forall|p1: int, p2: int|
            0 <= p1 < p2 < s.len() ==> !((#[trigger] s[p1]).0 == k && (#[trigger] s[p2]).0 == k),
{
    assert forall|p1: int, p2: int| 0 <= p1 < p2 < s.len() implies !((#[trigger] s[p1]).0 == k && (
    #[trigger] s[p2]).0 == k) by {
        if s[p1].0 == k && s[p2].0 == k {
            lemma_lex_lt_irreflexive(k);
        }
    }
}

/// Draining a key keeps every slot ascending.
pub proof fn lemma_drain_ascending(srcs: Seq<Seq<(Seq<u8>, Seq<u8>)>>, k: Seq<u8>)
    requires
        all_ascending(srcs),
    ensures
        all_ascending(drain(srcs, k)),
{
    let d = drain(srcs, k);
    assert forall|i: int|
        0 <= i < d.len() implies crate::iterators::strictly_ascending(#[trigger] d[i]) by {
        if srcs[i].len() != 0 && srcs[i][0].0 == k {
            lemma_ascending_drop_first(srcs[i]);
        }
    }
}

/// Every key in the merged stream comes from some source.
pub proof fn lemma_merge_keys_subset(srcs: Seq<Seq<(Seq<u8>, Seq<u8>)>>, k: Seq<u8>)
    ensures
        slot_has_key(merge_output(srcs), k) ==> exists|i: int|
            0 <= i < srcs.len() && slot_has_key(#[trigger] srcs[i], k),
    decreases total_len(srcs),
{
    let out = merge_output(srcs);
    let b = best_slot(srcs);
    if slot_has_key(out, k) && b != -1 {
        lemma_best_from(srcs, 0);
        let kb = srcs[b][0].0;
        let d = drain(srcs, kb);
        lemma_drain_total_len(srcs, kb, b);
        lemma_merge_keys_subset(d, k);
        assert(out == seq![srcs[b][0]] + merge_output(d));
        let p = choose|p: int| 0 <= p < out.len() && (#[trigger] out[p]).0 == k;
        if p == 0 {
            assert(srcs[b][0].0 == k);
            assert(slot_has_key(srcs[b], k));
        } else {
            assert(out[p] == merge_output(d)[p - 1]);
            assert(slot_has_key(merge_output(d), k));
            let i = choose|i: int| 0 <= i < d.len() && slot_has_key(#[trigger] d[i], k);
            let j = choose|j: int| 0 <= j < d[i].len() && (#[trigger] d[i][j]).0 == k;
            if srcs[i].len() != 0 && srcs[i][0].0 == kb {
                assert(d[i][j] == srcs[i][j + 1]);
            } else {
                assert(d[i] == srcs[i]);
            }
            assert(slot_has_key(srcs[i], k));
        }
    }
}

/// Every key of the merged stream strictly exceeds a bound that every
/// source head strictly exceeds.
proof fn lemma_merge_lower_bound(srcs: Seq<Seq<(Seq<u8>, Seq<u8>)>>, lo: Seq<u8>)
    requires
        all_ascending(srcs),
        forall|i: int|
            0 <= i < srcs.len() && (#[trigger] srcs[i]).len() != 0 ==> lex_lt(lo, srcs[i][0].0),
    ensures
        forall|p: int|
            0 <= p < merge_output(srcs).len() ==> lex_lt(lo, (#[trigger] merge_output(srcs)[p]).0),
    decreases total_len(srcs),
{
    let out = merge_output(srcs);
    let b = best_slot(srcs);
    if b != -1 {
        lemma_best_from(srcs, 0);
        let kb = srcs[b][0].0;
        let d = drain(srcs, kb);
        lemma_drain_total_len(srcs, kb, b);
        lemma_drain_ascending(srcs, kb);
        assert forall|i: int|
            0 <= i < d.len() && (#[trigger] d[i]).len() != 0 implies lex_lt(lo, d[i][0].0) by {
            if srcs[i].len() != 0 && srcs[i][0].0 == kb {
                lemma_ascending_drop_first(srcs[i]);
                assert(d[i][0] == srcs[i][1]);
                lemma_lex_lt_transitive(lo, kb, srcs[i][1].0);
            }
        }
        lemma_merge_lower_bound(d, lo);
        assert(out == seq![srcs[b][0]] + merge_output(d));
        assert forall|p: int| 0 <= p < out.len() implies lex_lt(lo, (#[trigger] out[p]).0) by {
            if p > 0 {
                assert(out[p] == merge_output(d)[p - 1]);
            }
        }
    }
}

/// The merged stream is strictly ascending by key: globally sorted, with no
/// duplicate keys.
pub proof fn lemma_merge_sorted(srcs: Seq<Seq<(Seq<u8>, Seq<u8>)>>)
    requires
        all_ascending(srcs),
    ensures
        crate::iterators::strictly_ascending(merge_output(srcs)),
    decreases total_len(srcs),
{
    let out = merge_output(srcs);
    let b = best_slot(srcs);
    if b != -1 {
        lemma_best_from(srcs, 0);
        let kb = srcs[b][0].0;
        let d = drain(srcs, kb);
        lemma_drain_total_len(srcs, kb, b);
        lemma_drain_ascending(srcs, kb);
        assert forall|i: int|
            0 <= i < d.len() && (#[trigger] d[i]).len() != 0 implies lex_lt(kb, d[i][0].0) by {
            if srcs[i].len() != 0 && srcs[i][0].0 == kb {
                lemma_ascending_drop_first(srcs[i]);
                assert(d[i][0] == srcs[i][1]);
            } else {
                assert(d[i] == srcs[i]);
                assert(beats(srcs, b, i) || i == b);
                if i == b {
                    assert(srcs[b][0].0 == kb);
                    assert(false);
                }
                lemma_lex_lt_connected(kb, srcs[i][0].0);
                lemma_lex_lt_irreflexive(kb);
            }
        }
        lemma_merge_sorted(d);
        lemma_merge_lower_bound(d, kb);
        assert(out == seq![srcs[b][0]] + merge_output(d));
        assert forall|p1: int, p2: int| 0 <= p1 < p2 < out.len() implies lex_lt(
            (#[trigger] out[p1]).0,
            (#[trigger] out[p2]).0,
        ) by {
            assert(out[p2] == merge_output(d)[p2 - 1]);
            if p1 > 0 {
                assert(out[p1] == merge_output(d)[p1 - 1]);
            }
        }
    }
}

/// Single source identity: merging one source reproduces its stream
/// unchanged, entry for entry.
pub proof fn lemma_merge_single_source(s: Seq<(Seq<u8>, Seq<u8>)>)
    requires
        crate::iterators::strictly_ascending(s),
    ensures
        merge_output(seq![s]) == s,
    decreases s.len(),
{
    let srcs = seq![s];
    if s.len() == 0 {
        assert(best_from(srcs, 1) == -1);
        assert(best_slot(srcs) == -1);
        assert(merge_output(srcs) =~= s);
    } else {
        assert(best_from(srcs, 1) == -1);
        assert(best_slot(srcs) == 0);
        let k = s[0].0;
        let d = drain(srcs, k);
        assert(d =~= seq![s.drop_first()]);
        lemma_ascending_drop_first(s);
        lemma_merge_single_source(s.drop_first());
        assert(merge_output(srcs) == seq![s[0]] + merge_output(d));
        assert(seq![s[0]] + s.drop_first() =~= s);
    }
}

/// N-way duplicate collapse: for a key held by several sources, the merged
/// stream holds exactly one entry with that key, and it is the entry of
/// the lowest-index source holding the key; every other source's entry for
/// it is consumed without ever being surfaced.
pub proof fn lemma_merge_duplicate_collapse(
    srcs: Seq<Seq<(Seq<u8>, Seq<u8>)>>,
    k: Seq<u8>,
    w: int,
)
    requires
        all_ascending(srcs),
        0 <= w < srcs.len(),
        slot_has_key(srcs[w], k),
        forall|i: int| 0 <= i < w ==> !slot_has_key(#[trigger] srcs[i], k),
    ensures
        slot_has_key(merge_output(srcs), k),
        slot_lookup(merge_output(srcs), k) == slot_lookup(srcs[w], k),
        forall|p1: int, p2: int|
            0 <= p1 < p2 < merge_output(srcs).len() ==> !((#[trigger] merge_output(srcs)[p1]).0
                == k && (#[trigger] merge_output(srcs)[p2]).0 == k),
    decreases total_len(srcs),
{
    let out = merge_output(srcs);
    lemma_merge_sorted(srcs);
    lemma_ascending_unique_key(out, k);
    lemma_best_from(srcs, 0);
    assert(has_live(srcs, 0));
    let b = best_slot(srcs);
    let kb = srcs[b][0].0;
    let d = drain(srcs, kb);
    lemma_drain_total_len(srcs, kb, b);
    lemma_drain_ascending(srcs, kb);
    assert(out == seq![srcs[b][0]] + merge_output(d));
    // the head of a slot holding k is at most k
    let jw = choose|j: int| 0 <= j < srcs[w].len() && (#[trigger] srcs[w][j]).0 == k;
    if jw > 0 {
        assert(lex_lt(srcs[w][0].0, k));
    }
    if kb == k {
        // every slot holding k sits at head k, so the best slot is the
        // lowest-index one holding k
        assert(slot_has_key(srcs[b], k));
        if b < w {
            assert(!slot_has_key(srcs[b], k));
            assert(false);
        }
        if w < b {
            if jw > 0 {
                assert(beats(srcs, b, w));
                lemma_lex_lt_asymmetric(kb, srcs[w][0].0);
                lemma_lex_lt_irreflexive(kb);
                assert(false);
            }
            assert(srcs[w][0].0 == k);
            assert(beats(srcs, b, w));
            lemma_lex_lt_irreflexive(k);
            assert(false);
        }
        assert(b == w);
        assert(jw == 0) by {
            if jw > 0 {
                lemma_lex_lt_irreflexive(k);
            }
        }
        assert(srcs[w][0].0 == k);
        assert(slot_lookup(srcs[w], k) == srcs[w][0]);
        assert(out[0].0 == k);
        assert(slot_has_key(out, k));
        assert(slot_lookup(out, k) == out[0]);
    } else {
        // the emitted key differs from k: k survives the drain in slot w,
        // still ahead of every lower-index slot
        assert(slot_has_key(d[w], k)) by {
            if srcs[w].len() != 0 && srcs[w][0].0 == kb {
                assert(jw != 0);
                assert(d[w] == srcs[w].drop_first());
                assert(d[w][jw - 1] == srcs[w][jw]);
            } else {
                assert(d[w] == srcs[w]);
            }
        }
        assert forall|i: int| 0 <= i < w implies !slot_has_key(#[trigger] d[i], k) by {
            if slot_has_key(d[i], k) {
                let j = choose|j: int| 0 <= j < d[i].len() && (#[trigger] d[i][j]).0 == k;
                if srcs[i].len() != 0 && srcs[i][0].0 == kb {
                    assert(d[i][j] == srcs[i][j + 1]);
                } else {
                    assert(d[i] == srcs[i]);
                }
                assert(slot_has_key(srcs[i], k));
                assert(false);
            }
        }
        lemma_merge_duplicate_collapse(d, k, w);
        let rest = merge_output(d);
        // transfer presence and the looked-up entry across the head
        assert(slot_has_key(out, k)) by {
            let p0 = choose|p: int| 0 <= p < rest.len() && (#[trigger] rest[p]).0 == k;
            assert(out[p0 + 1] == rest[p0]);
        }
        assert(slot_lookup(d[w], k) == slot_lookup(srcs[w], k)) by {
            if srcs[w].len() != 0 && srcs[w][0].0 == kb {
                assert(d[w] == srcs[w].drop_first());
                assert(srcs[w][0].0 != k);
            } else {
                assert(d[w] == srcs[w]);
            }
        }
        assert(slot_lookup(out, k) == slot_lookup(rest, k)) by {
            assert(out.len() != 0);
            assert(out[0] == srcs[b][0]);
            assert(out[0].0 != k);
            assert(out.drop_first() =~= rest);
        }
    }
}

/// Queue entry `a` comes no later than `b` in (head key, source index)
/// order.
pub open spec fn entry_le<I: StorageIterator>(a: (usize, I), b: (usize, I)) -> bool {
    ||| lex_lt(a.1.remaining()[0].0, b.1.remaining()[0].0)
    ||| (a.1.remaining()[0].0 == b.1.remaining()[0].0 && a.0 <= b.0)
}

/// Merges any number of sources into one ascending, duplicate-free stream.
/// When the same key occurs in several sources, the source with the smaller
/// index wins; sources the merge holds are owned by it until it is dropped.
pub struct MergeIterator<I: StorageIterator> {
    iters: Vec<(usize, I)>,
    current: Option<(usize, I)>,
    model: Ghost<Seq<Seq<(Seq<u8>, Seq<u8>)>>>,
}

impl<I: StorageIterator> MergeIterator<I> {
    /// One slot per source handed in at creation: the entries that source
    /// has not yet consumed; exhausted sources are empty slots.
    pub closed spec fn sources(self) -> Seq<Seq<(Seq<u8>, Seq<u8>)>> {
        self.model@
    }

    /// Slot `i` is held by the queue or by the current entry.
    spec fn slot_live(self, i: int) -> bool {
        ||| (exists|j: int| 0 <= j < self.iters@.len() && (#[trigger] self.iters@[j]).0 == i)
        ||| (self.current matches Some(c) && c.0 == i)
    }

    /// Every queued source is well formed, nonempty, and agrees with its
    /// slot.
    spec fn queue_wf(self) -> bool {
        forall|j: int|
            0 <= j < self.iters@.len() ==> {
                let p = #[trigger] self.iters@[j];
                &&& p.1.inv()
                &&& (p.0 as int) < self.model@.len()
                &&& p.1.remaining() == self.model@[p.0 as int]
                &&& p.1.remaining().len() != 0
            }
    }

    /// No source index appears twice among the queue and the current entry.
    spec fn distinct_wf(self) -> bool {
        &&& forall|j1: int, j2: int|
            0 <= j1 < j2 < self.iters@.len() ==> (#[trigger] self.iters@[j1]).0 != (
            #[trigger] self.iters@[j2]).0
        &&& match self.current {
            Some(c) => forall|j: int|
                0 <= j < self.iters@.len() ==> (#[trigger] self.iters@[j]).0 != c.0,
            None => true,
        }
    }

    /// The current entry, when present, is well formed, agrees with its
    /// slot, and precedes every queued source; when absent the queue is
    /// empty.
    spec fn current_wf(self) -> bool {
        match self.current {
            None => self.iters@.len() == 0,
            Some(c) => {
                &&& c.1.inv()
                &&& (c.0 as int) < self.model@.len()
                &&& c.1.remaining() == self.model@[c.0 as int]
                &&& c.1.remaining().len() != 0
                &&& forall|j: int|
                    0 <= j < self.iters@.len() ==> beats(
                        self.model@,
                        c.0 as int,
                        (#[trigger] self.iters@[j]).0 as int,
                    )
            },
        }
    }

    /// Slots held by no live source are empty.
    spec fn slots_wf(self) -> bool {
        forall|i: int|
            0 <= i < self.model@.len() && !self.slot_live(i) ==> (#[trigger] self.model@[i]).len()
                == 0
    }

    /// Well-formedness of the whole merge structure.
    pub closed spec fn wf(self) -> bool {
        &&& self.queue_wf()
        &&& self.distinct_wf()
        &&& self.current_wf()
        &&& self.slots_wf()
        &&& all_ascending(self.model@)
    }

    /// What the merge will yield is exactly the modelled merged stream of
    /// its slots.
    pub proof fn lemma_remaining_is_merge(self)
        ensures
            self.remaining() == merge_output(self.sources()),
    {
    }

    /// The current entry's slot is the best slot of the model.
    proof fn lemma_current_best(self)
        requires
            self.wf(),
            self.current is Some,
        ensures
            best_slot(self.sources()) == self.current.unwrap().0 as int,
            merge_output(self.sources()).len() != 0,
            merge_output(self.sources())[0] == self.current.unwrap().1.remaining()[0],
            merge_output(self.sources()).drop_first() == merge_output(
                drain(self.sources(), self.current.unwrap().1.remaining()[0].0),
            ),
    {
        let c = self.current.unwrap();
        let srcs = self.model@;
        assert forall|i: int|
            0 <= i < srcs.len() && (#[trigger] srcs[i]).len() != 0 && i != c.0 as int implies beats(
            srcs,
            c.0 as int,
            i,
        ) by {
            assert(self.slot_live(i));
            let j = choose|j: int|
                0 <= j < self.iters@.len() && (#[trigger] self.iters@[j]).0 == i;
            assert(beats(srcs, c.0 as int, self.iters@[j].0 as int));
        }
        lemma_best_is(srcs, c.0 as int);
        lemma_merge_output_step(srcs, c.0 as int);
    }

    /// When nothing is live the merge yields nothing.
    proof fn lemma_exhausted(self)
        requires
            self.wf(),
            self.current is None,
        ensures
            merge_output(self.sources()).len() == 0,
    {
        assert forall|i: int| 0 <= i < self.model@.len() implies (#[trigger] self.model@[i]).len()
            == 0 by {
            if self.model@[i].len() != 0 {
                assert(self.slot_live(i));
            }
        }
        assert(!has_live(self.model@, 0));
        lemma_merge_output_empty(self.model@);
    }

    /// Removes the queued source least in (head key, index) order.
    fn pop_min(q: &mut Vec<(usize, I)>) -> (r: Option<(usize, I)>)
        requires
            forall|j: int|
                0 <= j < old(q)@.len() ==> (#[trigger] old(q)@[j]).1.inv() && old(
                    q,
                )@[j].1.remaining().len() != 0,
        ensures
            old(q)@.len() == 0 ==> r is None && final(q)@ == old(q)@,
            old(q)@.len() != 0 ==> (r matches Some(p) && final(q)@.len() == old(q)@.len() - 1 && (
            exists|m: int|
                0 <= m < old(q)@.len() && old(q)@[m] == p && (forall|t: int|
                    0 <= t < final(q)@.len() ==> final(q)@[t] == (if t < m {
                        old(q)@[t]
                    } else {
                        old(q)@[t + 1]
                    }))) && (forall|t: int|
                0 <= t < final(q)@.len() ==> entry_le(p, #[trigger] final(q)@[t]))),
    {
        if q.len() == 0 {
            return None;
        }
        let mut best: usize = 0;
        let mut j: usize = 1;
        while j < q.len()
            invariant
                q@ == old(q)@,
                1 <= j <= q@.len(),
                (best as int) < j,
                forall|m: int|
                    0 <= m < q@.len() ==> (#[trigger] q@[m]).1.inv()
                        && q@[m].1.remaining().len() != 0,
                forall|m: int|
                    0 <= m < j && m != best as int ==> entry_le(q@[best as int], #[trigger] q@[m]),
            decreases q@.len() - j,
        {
            let lt = key_lt(q[j].1.key(), q[best].1.key());
            let take_j = if lt {
                true
            } else {
                let eqk = key_eq(q[j].1.key(), q[best].1.key());
                eqk && q[j].0 < q[best].0
            };
            let ghost kj = q@[j as int].1.remaining()[0].0;
            let ghost kb = q@[best as int].1.remaining()[0].0;
            if take_j {
                proof {
                    assert forall|m: int| 0 <= m < j + 1 && m != j as int implies entry_le(
                        q@[j as int],
                        #[trigger] q@[m],
                    ) by {
                        if m != best as int {
                            let km = q@[m].1.remaining()[0].0;
                            assert(entry_le(q@[best as int], q@[m]));
                            if lex_lt(kj, kb) && lex_lt(kb, km) {
                                lemma_lex_lt_transitive(kj, kb, km);
                            }
                        }
                    }
                }
                best = j;
            } else {
                proof {
                    lemma_lex_lt_connected(kb, kj);
                    assert(entry_le(q@[best as int], q@[j as int]));
                }
            }
            j += 1;
        }
        let ghost mm = best as int;
        let ghost before = q@;
        let p = q.remove(best);
        proof {
            assert(q@ == before.remove(mm));
            assert(before.remove(mm) == before.subrange(0, mm) + before.subrange(
                mm + 1,
                before.len() as int,
            ));
            assert forall|t: int| 0 <= t < q@.len() implies q@[t] == (if t < mm {
                before[t]
            } else {
                before[t + 1]
            }) by {}
            assert forall|t: int| 0 <= t < q@.len() implies entry_le(p, #[trigger] q@[t]) by {
                if t < mm {
                    assert(entry_le(before[mm], before[t]));
                } else {
                    assert(q@[t] == before[t + 1]);
                    assert(entry_le(before[mm], before[t + 1]));
                }
            }
        }
        Some(p)
    }

    /// Enters the cleared state used after an underlying source has failed:
    /// nothing is live and nothing more is yielded.
    fn fail_state(&mut self)
        ensures
            final(self).wf(),
            final(self).sources().len() == old(self).sources().len(),
            merge_output(final(self).sources()).len() == 0,
    {
        self.iters = Vec::new();
        self.current = None;
        let ghost n = self.model@.len();
        proof {
            self.model@ = Seq::new(n, |i: int| Seq::<(Seq<u8>, Seq<u8>)>::empty());
        }
        proof {
            assert(!has_live(self.model@, 0));
            lemma_merge_output_empty(self.model@);
            assert(self.wf());
        }
    }

    /// Builds the merge over `iters`: source `i` gets priority `i` (lower
    /// wins key ties), already-exhausted sources are discarded, and the
    /// least source becomes current. With no live source the merge starts
    /// immediately invalid.
    pub fn create(iters: Vec<I>) -> (r: MergeIterator<I>)
        requires
            forall|i: int| 0 <= i < iters@.len() ==> (#[trigger] iters@[i]).inv(),
            forall|i: int|
                0 <= i < iters@.len() ==> crate::iterators::strictly_ascending(
                    (#[trigger] iters@[i]).remaining(),
                ),
        ensures
            r.wf(),
            r.inv(),
            r.sources() == Seq::new(iters@.len(), |i: int| iters@[i].remaining()),
            r.remaining() == merge_output(r.sources()),
            iters@.len() == 0 ==> r.remaining().len() == 0,
    {
        let ghost orig = iters@;
        let ghost model0 = Seq::new(iters@.len(), |i: int| iters@[i].remaining());
        let mut iters = iters;
        let total: usize = iters.len();
        let mut q: Vec<(usize, I)> = Vec::new();
        let mut idx: usize = total;
        while idx > 0
            invariant
                idx <= total,
                total == orig.len(),
                iters@ == orig.take(idx as int),
                model0 == Seq::new(orig.len(), |i: int| orig[i].remaining()),
                forall|i: int| 0 <= i < orig.len() ==> (#[trigger] orig[i]).inv(),
                forall|i: int|
                    0 <= i < orig.len() ==> crate::iterators::strictly_ascending(
                        (#[trigger] orig[i]).remaining(),
                    ),
                forall|j: int|
                    0 <= j < q@.len() ==> idx <= (#[trigger] q@[j]).0 < total
                        && q@[j].1 == orig[q@[j].0 as int]
                        && q@[j].1.remaining().len() != 0,
                forall|j1: int, j2: int|
                    0 <= j1 < j2 < q@.len() ==> (#[trigger] q@[j1]).0 > (#[trigger] q@[j2]).0,
                forall|i: int|
                    idx <= i < total && model0[i].len() != 0 ==> exists|j: int|
                        0 <= j < q@.len() && (#[trigger] q@[j]).0 == i,
            decreases idx,
        {
            idx = idx - 1;
            let it = match iters.pop() {
                Some(it) => it,
                None => unreached(),
            };
            proof {
                assert(orig.take(idx + 1).last() == orig[idx as int]);
                assert(orig.take(idx + 1).subrange(0, idx as int) =~= orig.take(idx as int));
                assert(it == orig[idx as int]);
            }
            let ghost q0 = q@;
            if it.is_valid() {
                q.push((idx, it));
                proof {
                    assert forall|i: int|
                        idx <= i < total && model0[i].len() != 0 implies exists|j: int|
                            0 <= j < q@.len() && (#[trigger] q@[j]).0 == i by {
                        if i == idx as int {
                            assert(q@[q@.len() - 1].0 == i);
                        } else {
                            let j = choose|j: int|
                                0 <= j < q0.len() && (#[trigger] q0[j]).0 == i;
                            assert(q@[j] == q0[j]);
                            assert(q@[j].0 == i);
                        }
                    }
                }
            } else {
                proof {
                    assert(model0[idx as int] == orig[idx as int].remaining());
                    assert(model0[idx as int].len() == 0);
                    assert forall|i: int|
                        idx <= i < total && model0[i].len() != 0 implies exists|j: int|
                            0 <= j < q@.len() && (#[trigger] q@[j]).0 == i by {
                        let j = choose|j: int|
                            0 <= j < q0.len() && (#[trigger] q0[j]).0 == i;
                        assert(q@[j].0 == i);
                    }
                }
            }
        }
        proof {
            assert forall|j: int|
                0 <= j < q@.len() implies (#[trigger] q@[j]).1.inv()
                    && q@[j].1.remaining().len() != 0 by {
                assert(q@[j].1 == orig[q@[j].0 as int]);
            }
        }
        let ghost qsnap = q@;
        let current = Self::pop_min(&mut q);
        let r = MergeIterator { iters: q, current, model: Ghost(model0) };
        proof {
            Self::lemma_create_wf(r, qsnap, orig);
            if orig.len() == 0 {
                assert(!has_live(model0, 0));
                lemma_merge_output_empty(model0);
            }
        }
        r
    }

    /// The state `create` builds after seeding the queue is well formed.
    proof fn lemma_create_wf(
        r: MergeIterator<I>,
        qsnap: Seq<(usize, I)>,
        orig: Seq<I>,
    )
        requires
            r.model@ == Seq::new(orig.len(), |i: int| orig[i].remaining()),
            forall|i: int|
                0 <= i < orig.len() ==> crate::iterators::strictly_ascending(
                    (#[trigger] orig[i]).remaining(),
                ),
            forall|j: int|
                0 <= j < qsnap.len() ==> (#[trigger] qsnap[j]).0 < orig.len() && qsnap[j].1
                    == orig[qsnap[j].0 as int] && qsnap[j].1.inv()
                    && qsnap[j].1.remaining().len() != 0,
            forall|j1: int, j2: int|
                0 <= j1 < j2 < qsnap.len() ==> (#[trigger] qsnap[j1]).0 != (
                #[trigger] qsnap[j2]).0,
            forall|i: int|
                0 <= i < orig.len() && r.model@[i].len() != 0 ==> exists|j: int|
                    0 <= j < qsnap.len() && (#[trigger] qsnap[j]).0 == i,
            qsnap.len() == 0 ==> r.current is None && r.iters@ == qsnap,
            qsnap.len() != 0 ==> (r.current matches Some(p) && r.iters@.len() == qsnap.len() - 1
                && (exists|m: int|
                0 <= m < qsnap.len() && qsnap[m] == p && (forall|t: int|
                    0 <= t < r.iters@.len() ==> r.iters@[t] == (if t < m {
                        qsnap[t]
                    } else {
                        qsnap[t + 1]
                    }))) && (forall|t: int|
                0 <= t < r.iters@.len() ==> entry_le(p, #[trigger] r.iters@[t]))),
        ensures
            r.wf(),
    {
        let model0 = r.model@;
        if qsnap.len() == 0 {
            assert(r.iters@.len() == 0);
            assert(r.queue_wf());
            assert(r.slots_wf());
        } else {
            let p = r.current.unwrap();
            let m = choose|m: int|
                0 <= m < qsnap.len() && qsnap[m] == p && (forall|t: int|
                    0 <= t < r.iters@.len() ==> r.iters@[t] == (if t < m {
                        qsnap[t]
                    } else {
                        qsnap[t + 1]
                    }));
            assert forall|j: int| 0 <= j < r.iters@.len() implies {
                let e = #[trigger] r.iters@[j];
                &&& e.1.inv()
                &&& (e.0 as int) < model0.len()
                &&& e.1.remaining() == model0[e.0 as int]
                &&& e.1.remaining().len() != 0
            } by {
                if j < m {
                    assert(r.iters@[j] == qsnap[j]);
                } else {
                    assert(r.iters@[j] == qsnap[j + 1]);
                }
            }
            assert forall|j1: int, j2: int| 0 <= j1 < j2 < r.iters@.len() implies (
            #[trigger] r.iters@[j1]).0 != (#[trigger] r.iters@[j2]).0 by {
                let o1: int = if j1 < m { j1 } else { j1 + 1 };
                let o2: int = if j2 < m { j2 } else { j2 + 1 };
                assert(r.iters@[j1] == qsnap[o1]);
                assert(r.iters@[j2] == qsnap[o2]);
            }
            assert forall|j: int| 0 <= j < r.iters@.len() implies (#[trigger] r.iters@[j]).0
                != p.0 by {
                let o: int = if j < m { j } else { j + 1 };
                assert(r.iters@[j] == qsnap[o]);
            }
            assert(p.1.remaining() == model0[p.0 as int]);
            assert forall|j: int| 0 <= j < r.iters@.len() implies beats(
                model0,
                p.0 as int,
                (#[trigger] r.iters@[j]).0 as int,
            ) by {
                assert(entry_le(p, r.iters@[j]));
                assert(r.iters@[j].1.remaining() == model0[r.iters@[j].0 as int]);
                assert(r.iters@[j].0 != p.0);
            }
            assert(r.current_wf());
            assert forall|i: int|
                0 <= i < model0.len() && !r.slot_live(i) implies (#[trigger] model0[i]).len()
                == 0 by {
                if model0[i].len() != 0 {
                    let j = choose|j: int|
                        0 <= j < qsnap.len() && (#[trigger] qsnap[j]).0 == i;
                    if j == m {
                        assert(p.0 == i);
                    } else {
                        let t: int = if j < m { j } else { j - 1 };
                        assert(r.iters@[t] == qsnap[j]);
                        assert(r.slot_live(i));
                    }
                }
            }
        }
    }
}

impl<I: StorageIterator> StorageIterator for MergeIterator<I> {
    closed spec fn inv(&self) -> bool {
        self.wf()
    }

    closed spec fn remaining(&self) -> Seq<(Seq<u8>, Seq<u8>)> {
        merge_output(self.model@)
    }

    fn is_valid(&self) -> (r: bool) {
        proof {
            if self.current is Some {
                self.lemma_current_best();
            } else {
                self.lemma_exhausted();
            }
        }
        self.current.is_some()
    }

    fn key(&self) -> (k: KeySlice<'_>) {
        match &self.current {
            Some(c) => {
                proof {
                    self.lemma_current_best();
                }
                c.1.key()
            },
            None => {
                proof {
                    self.lemma_exhausted();
                }
                unreached()
            },
        }
    }

    fn value(&self) -> (v: &[u8]) {
        match &self.current {
            Some(c) => {
                proof {
                    self.lemma_current_best();
                }
                c.1.value()
            },
            None => {
                proof {
                    self.lemma_exhausted();
                }
                unreached()
            },
        }
    }

    fn next(&mut self) -> (r: Result<(), IterationError>)
        ensures
            r is Err ==> final(self).remaining().len() == 0,
            old(self).remaining().len() == 0 ==> r is Ok && *final(self) == *old(self),
    {
        let ghost srcs0 = self.model@;
        let cur = self.current.take();
        match cur {
            None => {
                proof {
                    self.lemma_exhausted();
                    assert(*self =~= *old(self));
                }
                Ok(())
            },
            Some((ci, mut cs)) => {
                proof {
                    Self::lemma_current_best(*old(self));
                }
                let ghost k = cs.remaining()[0].0;
                let ghost target = drain(srcs0, k);
                let last_key = KeyVec::from_slice(cs.key());
                let res = cs.next();
                if let Err(e) = res {
                    self.fail_state();
                    return Err(e);
                }
                proof {
                    lemma_ascending_drop_first(srcs0[ci as int]);
                    lemma_drain_step(srcs0, k, ci as int);
                }
                self.model = Ghost(srcs0.update(ci as int, srcs0[ci as int].drop_first()));
                proof {
                    assert forall|ii: int|
                        0 <= ii < self.model@.len() implies crate::iterators::strictly_ascending(
                        #[trigger] self.model@[ii],
                    ) by {
                        if ii != ci as int {
                            assert(self.model@[ii] == srcs0[ii]);
                        }
                    }
                }
                let ghost qold = old(self).iters@;
                proof {
                    assert(self.iters@ == qold);
                    assert forall|j: int|
                        0 <= j < qold.len() implies !lex_lt(
                        (#[trigger] qold[j]).1.remaining()[0].0,
                        k,
                    ) && qold[j].0 != ci && qold[j].1.remaining() == self.model@[qold[j].0 as int]
                        by {
                        assert(beats(srcs0, ci as int, qold[j].0 as int));
                        let kj = qold[j].1.remaining()[0].0;
                        if lex_lt(k, kj) {
                            lemma_lex_lt_asymmetric(k, kj);
                        } else {
                            lemma_lex_lt_irreflexive(k);
                        }
                        assert(self.model@[qold[j].0 as int] == srcs0[qold[j].0 as int]);
                    }
                }
                if cs.is_valid() {
                    self.iters.push((ci, cs));
                    proof {
                        let last: int = self.iters@.len() - 1;
                        assert(self.iters@[last] == (ci, cs));
                        assert(self.iters@[last].1.remaining() == self.model@[ci as int]);
                        lemma_lex_lt_asymmetric(k, cs.remaining()[0].0);
                        assert forall|j: int| 0 <= j < last implies self.iters@[j] == qold[j] by {}
                        assert(self.queue_wf());
                        assert forall|ii: int|
                            0 <= ii < self.model@.len() && !self.slot_live(ii) implies (
                        #[trigger] self.model@[ii]).len() == 0 by {
                            if ii == ci as int {
                                assert(self.iters@[last].0 == ci);
                                assert(self.slot_live(ii));
                            } else if self.model@[ii].len() != 0 {
                                assert(srcs0[ii].len() != 0);
                                assert(old(self).slot_live(ii));
                                let j = choose|j: int|
                                    0 <= j < qold.len() && (#[trigger] qold[j]).0 == ii;
                                assert(self.iters@[j] == qold[j]);
                                assert(self.slot_live(ii));
                            }
                        }
                    }
                } else {
                    proof {
                        assert(self.queue_wf());
                        assert forall|ii: int|
                            0 <= ii < self.model@.len() && !self.slot_live(ii) implies (
                        #[trigger] self.model@[ii]).len() == 0 by {
                            if ii == ci as int {
                                assert(self.model@[ii] == cs.remaining());
                            } else if self.model@[ii].len() != 0 {
                                assert(srcs0[ii].len() != 0);
                                assert(old(self).slot_live(ii));
                                let j = choose|j: int|
                                    0 <= j < qold.len() && (#[trigger] qold[j]).0 == ii;
                                assert(self.slot_live(ii));
                            }
                        }
                    }
                }
                let mut done = false;
                while !done
                    invariant
                        srcs0 == old(self).model@,
                        self.model@.len() == srcs0.len(),
                        last_key@ == k,
                        target == drain(srcs0, k),
                        merge_output(srcs0).len() != 0,
                        merge_output(srcs0).drop_first() == merge_output(target),
                        drain(self.model@, k) == target,
                        all_ascending(self.model@),
                        self.queue_wf(),
                        forall|j1: int, j2: int|
                            0 <= j1 < j2 < self.iters@.len() ==> (#[trigger] self.iters@[j1]).0
                                != (#[trigger] self.iters@[j2]).0,
                        forall|j: int|
                            0 <= j < self.iters@.len() ==> !lex_lt(
                                (#[trigger] self.iters@[j]).1.remaining()[0].0,
                                k,
                            ),
                        forall|i: int|
                            0 <= i < self.model@.len() && !self.slot_live(i) ==> (
                            #[trigger] self.model@[i]).len() == 0,
                        !done ==> self.current is None,
                        done ==> self.wf(),
                        done ==> forall|i: int|
                            0 <= i < self.model@.len() && (#[trigger] self.model@[i]).len() != 0
                                ==> self.model@[i][0].0 != k,
                    decreases total_len(self.model@), (if done { 0int } else { 1int }),
                {
                    let ghost qpre = self.iters@;
                    let popped = Self::pop_min(&mut self.iters);
                    match popped {
                        None => {
                            self.current = None;
                            done = true;
                            proof {
                                assert(qpre.len() == 0);
                                assert forall|ii: int|
                                    0 <= ii < self.model@.len() implies (
                                #[trigger] self.model@[ii]).len() == 0 by {
                                    assert(!self.slot_live(ii));
                                }
                                assert(self.wf());
                            }
                        },
                        Some((i, mut s)) => {
                            let ghost porig: (usize, I) = (i, s);
                            let ghost m: int = choose|m: int|
                                0 <= m < qpre.len() && qpre[m] == porig && (forall|t: int|
                                    0 <= t < self.iters@.len() ==> self.iters@[t] == (if t < m {
                                        qpre[t]
                                    } else {
                                        qpre[t + 1]
                                    }));
                            proof {
                                assert(qpre[m] == porig);
                                assert(s.inv());
                                assert(s.remaining() == self.model@[i as int]);
                                assert(s.remaining().len() != 0);
                                assert(!lex_lt(s.remaining()[0].0, k));
                                assert forall|t: int|
                                    0 <= t < self.iters@.len() implies ((#[trigger] self.iters@[
                                    t]).0 != i && self.iters@[t].1.inv() && self.iters@[
                                    t].1.remaining() == self.model@[self.iters@[t].0 as int]
                                    && self.iters@[t].1.remaining().len() != 0 && !lex_lt(
                                    self.iters@[t].1.remaining()[0].0,
                                    k,
                                )) by {
                                    let o: int = if t < m {
                                        t
                                    } else {
                                        t + 1
                                    };
                                    assert(self.iters@[t] == qpre[o]);
                                }
                                assert forall|t1: int, t2: int|
                                    0 <= t1 < t2 < self.iters@.len() implies (
                                #[trigger] self.iters@[t1]).0 != (#[trigger] self.iters@[t2]).0 by {
                                    let o1: int = if t1 < m {
                                        t1
                                    } else {
                                        t1 + 1
                                    };
                                    let o2: int = if t2 < m {
                                        t2
                                    } else {
                                        t2 + 1
                                    };
                                    assert(self.iters@[t1] == qpre[o1]);
                                    assert(self.iters@[t2] == qpre[o2]);
                                }
                            }
                            let is_dup = key_eq(s.key(), last_key.as_key_slice());
                            if is_dup {
                                let ghost mpre = self.model@;
                                let ghost qmid = self.iters@;
                                let r2 = s.next();
                                if let Err(e) = r2 {
                                    self.fail_state();
                                    return Err(e);
                                }
                                proof {
                                    lemma_ascending_drop_first(mpre[i as int]);
                                    lemma_drain_step(mpre, k, i as int);
                                }
                                self.model = Ghost(
                                    mpre.update(i as int, mpre[i as int].drop_first()),
                                );
                                proof {
                                    assert forall|ii: int|
                                        0 <= ii < self.model@.len() implies (
                                    #[trigger] self.model@[ii]).len() <= mpre[ii].len() by {
                                        if ii != i as int {
                                            assert(self.model@[ii] == mpre[ii]);
                                        }
                                    }
                                    lemma_total_len_lt(self.model@, mpre, i as int);
                                    assert forall|ii: int|
                                        0 <= ii < self.model@.len() implies
                                        crate::iterators::strictly_ascending(
                                        #[trigger] self.model@[ii],
                                    ) by {
                                        if ii != i as int {
                                            assert(self.model@[ii] == mpre[ii]);
                                        }
                                    }
                                    assert forall|t: int|
                                        0 <= t < self.iters@.len() implies ((
                                    #[trigger] self.iters@[t]).1.inv() && (self.iters@[t].0 as int)
                                        < self.model@.len() && self.iters@[t].1.remaining()
                                        == self.model@[self.iters@[t].0 as int] && self.iters@[
                                    t].1.remaining().len() != 0) by {
                                        assert(self.iters@[t].0 != i);
                                        assert(self.model@[self.iters@[t].0 as int] == mpre[
                                            self.iters@[t].0 as int]);
                                    }
                                }
                                if s.is_valid() {
                                    self.iters.push((i, s));
                                    proof {
                                        let last: int = self.iters@.len() - 1;
                                        assert(self.iters@[last] == (i, s));
                                        assert forall|t: int|
                                            0 <= t < last implies self.iters@[t] == qmid[t] by {}
                                        assert(self.iters@[last].1.remaining() == self.model@[
                                            i as int]);
                                        lemma_lex_lt_asymmetric(k, self.model@[i as int][0].0);
                                        assert(self.queue_wf());
                                        assert forall|ii: int|
                                            0 <= ii < self.model@.len() && !self.slot_live(ii)
                                                implies (#[trigger] self.model@[ii]).len()
                                                == 0 by {
                                            if ii == i as int {
                                                assert(self.iters@[last].0 == i);
                                                assert(self.slot_live(ii));
                                            } else if self.model@[ii].len() != 0 {
                                                assert(mpre[ii].len() != 0);
                                                let j = choose|j: int|
                                                    0 <= j < qpre.len() && (#[trigger] qpre[j]).0
                                                        == ii;
                                                assert(j != m);
                                                let t: int = if j < m {
                                                    j
                                                } else {
                                                    j - 1
                                                };
                                                assert(qmid[t] == qpre[j]);
                                                assert(self.iters@[t] == qmid[t]);
                                                assert(self.slot_live(ii));
                                            }
                                        }
                                    }
                                } else {
                                    proof {
                                        assert forall|ii: int|
                                            0 <= ii < self.model@.len() && !self.slot_live(ii)
                                                implies (#[trigger] self.model@[ii]).len()
                                                == 0 by {
                                            if ii == i as int {
                                                assert(self.model@[ii] == s.remaining());
                                            } else if self.model@[ii].len() != 0 {
                                                assert(mpre[ii].len() != 0);
                                                let j = choose|j: int|
                                                    0 <= j < qpre.len() && (#[trigger] qpre[j]).0
                                                        == ii;
                                                assert(j != m);
                                                let t: int = if j < m {
                                                    j
                                                } else {
                                                    j - 1
                                                };
                                                assert(self.iters@[t] == qpre[j]);
                                                assert(self.slot_live(ii));
                                            }
                                        }
                                    }
                                }
                            } else {
                                self.current = Some((i, s));
                                done = true;
                                proof {
                                    let kc = s.remaining()[0].0;
                                    lemma_lex_lt_connected(kc, k);
                                    assert(lex_lt(k, kc));
                                    assert forall|t: int|
                                        0 <= t < self.iters@.len() implies beats(
                                        self.model@,
                                        i as int,
                                        (#[trigger] self.iters@[t]).0 as int,
                                    ) by {
                                        assert(entry_le((i, s), self.iters@[t]));
                                        assert(self.iters@[t].0 != i);
                                    }
                                    assert(self.current_wf());
                                    assert(self.queue_wf());
                                    assert forall|ii: int|
                                        0 <= ii < self.model@.len() && !self.slot_live(ii)
                                            implies (#[trigger] self.model@[ii]).len() == 0 by {
                                        if ii == i as int {
                                            assert(self.slot_live(ii));
                                        } else if self.model@[ii].len() != 0 {
                                            let j = choose|j: int|
                                                0 <= j < qpre.len() && (#[trigger] qpre[j]).0
                                                    == ii;
                                            assert(j != m);
                                            let t: int = if j < m {
                                                j
                                            } else {
                                                j - 1
                                            };
                                            assert(self.iters@[t] == qpre[j]);
                                            assert(self.slot_live(ii));
                                        }
                                    }
                                    assert(self.wf());
                                    assert forall|ii: int|
                                        0 <= ii < self.model@.len() && (
                                    #[trigger] self.model@[ii]).len() != 0 implies self.model@[
                                    ii][0].0 != k by {
                                        assert(self.slot_live(ii));
                                        if ii == i as int {
                                            lemma_lex_lt_irreflexive(k);
                                        } else {
                                            let t = choose|t: int|
                                                0 <= t < self.iters@.len() && (
                                                #[trigger] self.iters@[t]).0 == ii;
                                            let kt = self.iters@[t].1.remaining()[0].0;
                                            assert(entry_le((i, s), self.iters@[t]));
                                            if lex_lt(kc, kt) {
                                                lemma_lex_lt_transitive(k, kc, kt);
                                            }
                                            lemma_lex_lt_irreflexive(kt);
                                            if kt == k {
                                                assert(lex_lt(kt, kt));
                                            }
                                        }
                                    }
                                }
                            }
                        },
                    }
                }
                proof {
                    assert(drain(self.model@, k) =~= self.model@);
                    assert(self.model@ == target);
                }
                Ok(())
            },
        }
    }
}

} // verus!
