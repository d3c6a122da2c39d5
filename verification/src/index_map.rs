//! A sparse, ordered map from 32-bit indices to values.
//!
//! Entries are kept sorted by strictly ascending index, so serialization
//! is canonical regardless of insertion order. Deserialization takes a
//! caller-supplied bound and rejects any index at or above it, and any
//! index that appears twice.

use vstd::prelude::*;
use vstd::utf8::encode_utf8;

use crate::io::{readable, Error, Read, Write};
use crate::primitives::{dec_string, dec_varuint32, deserialize_string, enc_string, enc_varuint32,
    lemma_dec_varuint_shrinks, lemma_varuint32_round_trip, preserves_reader, reader_ok,
    serialize_string, Decoded, VarUint32};

verus! {

/// The keys of the entry sequence are strictly ascending.
pub open spec fn keys_sorted<V>(s: Seq<(u32, V)>) -> bool {
    forall|i: int, j: int| 0 <= i < j < s.len() ==> (#[trigger] s[i]).0 < (#[trigger] s[j]).0
}

/// Some entry carries the index `idx`.
pub open spec fn has_key<V>(s: Seq<(u32, V)>, idx: u32) -> bool {
    exists|k: int| 0 <= k < s.len() && (#[trigger] s[k]).0 == idx
}

/// The value the entry sequence holds at `idx`, if any: the first
/// entry with that key decides.
pub open spec fn spec_get<V>(s: Seq<(u32, V)>, idx: u32) -> Option<V>
    decreases s.len(),
{
    if s.len() == 0 {
        None
    } else if s[0].0 == idx {
        Some(s[0].1)
    } else {
        spec_get(s.skip(1), idx)
    }
}

/// `spec_get` finds the entry at position `i` when every earlier key
/// differs from `idx`.
proof fn lemma_spec_get_at<V>(s: Seq<(u32, V)>, idx: u32, i: int)
    requires
        0 <= i < s.len(),
        forall|k: int| 0 <= k < i ==> (#[trigger] s[k]).0 != idx,
        s[i].0 == idx,
    ensures
        spec_get(s, idx) == Some(s[i].1),
    decreases i,
{
    if i > 0 {
        let t = s.skip(1);
        assert(forall|k: int| 0 <= k < i - 1 ==> (#[trigger] t[k]).0 != idx);
        assert(t[i - 1] == s[i]);
        lemma_spec_get_at(t, idx, i - 1);
    }
}

/// `spec_get` finds nothing when no entry carries the key.
proof fn lemma_spec_get_absent<V>(s: Seq<(u32, V)>, idx: u32)
    requires
        !has_key(s, idx),
    ensures
        spec_get(s, idx) is None,
    decreases s.len(),
{
    if s.len() > 0 {
        let t = s.skip(1);
        assert(!has_key(t, idx)) by {
            if has_key(t, idx) {
                let k = choose|k: int| 0 <= k < t.len() && (#[trigger] t[k]).0 == idx;
                assert(s[k + 1] == t[k]);
            }
        }
        lemma_spec_get_absent(t, idx);
    }
}

/// Insert a pair into an entry sequence, keeping ascending key order and
/// replacing any prior entry with the same key.
pub open spec fn spec_insert<V>(s: Seq<(u32, V)>, idx: u32, value: V) -> Seq<(u32, V)>
    decreases s.len(),
{
    if s.len() == 0 {
        seq![(idx, value)]
    } else if s[0].0 < idx {
        seq![s[0]] + spec_insert(s.skip(1), idx, value)
    } else if s[0].0 == idx {
        seq![(idx, value)] + s.skip(1)
    } else {
        seq![(idx, value)] + s
    }
}

/// `spec_insert` is an update in place when the key is present at `i`,
/// and a positional insertion when it is absent, where `i` is the first
/// position whose key is not below `idx`.
proof fn lemma_spec_insert_split<V>(s: Seq<(u32, V)>, idx: u32, value: V, i: int)
    requires
        0 <= i <= s.len(),
        forall|k: int| 0 <= k < i ==> (#[trigger] s[k]).0 < idx,
        i < s.len() ==> s[i].0 >= idx,
    ensures
        i < s.len() && s[i].0 == idx ==> spec_insert(s, idx, value) == s.update(i, (idx, value)),
        (i == s.len() || s[i].0 > idx) ==> spec_insert(s, idx, value) == s.insert(i, (idx, value)),
    decreases i,
{
    if i == 0 {
        if s.len() == 0 {
            assert(spec_insert(s, idx, value) =~= s.insert(0, (idx, value)));
        } else if s[0].0 == idx {
            assert(seq![(idx, value)] + s.skip(1) =~= s.update(0, (idx, value)));
        } else {
            assert(seq![(idx, value)] + s =~= s.insert(0, (idx, value)));
        }
    } else {
        assert(s[0].0 < idx);
        let t = s.skip(1);
        assert(forall|k: int| 0 <= k < i - 1 ==> (#[trigger] t[k]).0 < idx);
        lemma_spec_insert_split(t, idx, value, i - 1);
        if i < s.len() && s[i].0 == idx {
            assert(seq![s[0]] + t.update(i - 1, (idx, value)) =~= s.update(i, (idx, value)));
        } else {
            assert(seq![s[0]] + t.insert(i - 1, (idx, value)) =~= s.insert(i, (idx, value)));
        }
    }
}

/// Every entry of an insertion result is the new pair or one of the old
/// entries.
proof fn lemma_spec_insert_elems<V>(s: Seq<(u32, V)>, idx: u32, value: V)
    ensures
        forall|j: int|
            0 <= j < spec_insert(s, idx, value).len() ==> ((#[trigger] spec_insert(s, idx, value)[j])
                == (idx, value) || exists|k: int|
                0 <= k < s.len() && spec_insert(s, idx, value)[j] == (#[trigger] s[k])),
    decreases s.len(),
{
    if s.len() == 0 {
    } else if s[0].0 < idx {
        lemma_spec_insert_elems(s.skip(1), idx, value);
        assert forall|j: int| 0 <= j < spec_insert(s, idx, value).len() implies ((
        #[trigger] spec_insert(s, idx, value)[j]) == (idx, value) || exists|k: int|
            0 <= k < s.len() && spec_insert(s, idx, value)[j] == (#[trigger] s[k])) by {
            let r = spec_insert(s, idx, value);
            if j == 0 {
                assert(r[0] == s[0]);
            } else {
                let t = s.skip(1);
                let rt = spec_insert(t, idx, value);
                assert(r[j] == rt[j - 1]);
                if rt[j - 1] != (idx, value) {
                    let k = choose|k: int| 0 <= k < t.len() && rt[j - 1] == (#[trigger] t[k]);
                    assert(s[k + 1] == t[k]);
                }
            }
        }
    } else {
        let r = spec_insert(s, idx, value);
        assert forall|j: int| 0 <= j < r.len() implies ((#[trigger] r[j]) == (idx, value)
            || exists|k: int| 0 <= k < s.len() && r[j] == (#[trigger] s[k])) by {
            if j > 0 {
                if s[0].0 == idx {
                    assert(r[j] == s.skip(1)[j - 1]);
                    assert(r[j] == s[j]);
                } else {
                    assert(r[j] == s[j - 1]);
                }
            }
        }
    }
}

/// A sparse, ordered map from `u32` indices to values of type `V`.
#[derive(Debug, Clone, PartialEq)]
pub struct IndexMap<V> {
    entries: Vec<(u32, V)>,
}

impl<V> IndexMap<V> {
    /// The entries, in ascending key order.
    pub closed spec fn entries_seq(&self) -> Seq<(u32, V)> {
        self.entries@
    }

    /// Well-formedness: keys strictly ascending.
    pub open spec fn wf(&self) -> bool {
        keys_sorted(self.entries_seq())
    }

    /// Create an empty map.
    pub fn new() -> (m: IndexMap<V>)
        ensures
            m.entries_seq() == Seq::<(u32, V)>::empty(),
            m.wf(),
    {
        let m = IndexMap { entries: Vec::new() };
        proof {
            assert(m.entries_seq() =~= Seq::<(u32, V)>::empty());
        }
        m
    }

    /// The number of entries.
    pub fn len(&self) -> (n: usize)
        ensures
            n == self.entries_seq().len(),
    {
        self.entries.len()
    }

    /// Borrow the entries, in ascending key order.
    pub fn entries(&self) -> (r: &Vec<(u32, V)>)
        ensures
            r@ == self.entries_seq(),
    {
        &self.entries
    }

    /// Whether an entry with this index is present.
    pub fn contains_key(&self, idx: u32) -> (r: bool)
        ensures
            r == has_key(self.entries_seq(), idx),
    {
        let mut i: usize = 0;
        while i < self.entries.len()
            invariant
                i <= self.entries@.len(),
                forall|k: int| 0 <= k < i ==> (#[trigger] self.entries@[k]).0 != idx,
            decreases self.entries@.len() - i,
        {
            if self.entries[i].0 == idx {
                return true;
            }
            i = i + 1;
        }
        false
    }

    /// Insert a value at an index, replacing and returning any prior
    /// value held there.
    pub fn insert(&mut self, idx: u32, value: V) -> (prev: Option<V>)
        requires
            old(self).wf(),
        ensures
            final(self).wf(),
            final(self).entries_seq() == spec_insert(old(self).entries_seq(), idx, value),
            prev == spec_get(old(self).entries_seq(), idx),
            prev is Some <==> has_key(old(self).entries_seq(), idx),
    {
        let ghost s0 = self.entries@;
        let mut i: usize = 0;
        while i < self.entries.len() && self.entries[i].0 < idx
            invariant
                i <= self.entries@.len(),
                self.entries@ == s0,
                forall|k: int| 0 <= k < i ==> (#[trigger] self.entries@[k]).0 < idx,
            decreases self.entries@.len() - i,
        {
            i = i + 1;
        }
        proof {
            lemma_spec_insert_split(s0, idx, value, i as int);
        }
        if i < self.entries.len() && self.entries[i].0 == idx {
            let prior = self.entries.remove(i);
            self.entries.insert(i, (idx, value));
            proof {
                assert(self.entries@ =~= s0.update(i as int, (idx, value)));
                assert(keys_sorted(self.entries@));
                lemma_spec_get_at(s0, idx, i as int);
            }
            Some(prior.1)
        } else {
            self.entries.insert(i, (idx, value));
            proof {
                assert(self.entries@ =~= s0.insert(i as int, (idx, value)));
                assert forall|a: int, b: int|
                    0 <= a < b < self.entries@.len() implies (#[trigger] self.entries@[a]).0 < (
                #[trigger] self.entries@[b]).0 by {
                    if a < i && b > i {
                        assert(self.entries@[a] == s0[a]);
                        assert(self.entries@[b] == s0[b - 1]);
                        if i < s0.len() {
                            assert(s0[b - 1].0 >= s0[i as int].0 || b - 1 == i);
                        }
                    }
                }
                if has_key(s0, idx) {
                    let k = choose|k: int| 0 <= k < s0.len() && (#[trigger] s0[k]).0 == idx;
                    assert(k >= i);
                    assert(s0[k].0 > idx || k == i);
                    assert(false);
                }
                lemma_spec_get_absent(s0, idx);
            }
            None
        }
    }
}

impl<V> Default for IndexMap<V> {
    /// An empty map.
    fn default() -> (m: IndexMap<V>)
        ensures
            m.entries_seq() == Seq::<(u32, V)>::empty(),
            m.wf(),
    {
        IndexMap::new()
    }
}

/// Map the values of an entry sequence through `f`, keeping the keys.
pub open spec fn pair_map<V, W>(s: Seq<(u32, V)>, f: spec_fn(V) -> W) -> Seq<(u32, W)> {
    s.map_values(|p: (u32, V)| (p.0, f(p.1)))
}

proof fn lemma_pair_map_insert<V, W>(s: Seq<(u32, V)>, idx: u32, value: V, f: spec_fn(V) -> W)
    ensures
        pair_map(spec_insert(s, idx, value), f) == spec_insert(pair_map(s, f), idx, f(value)),
    decreases s.len(),
{
    if s.len() == 0 {
        assert(pair_map(spec_insert(s, idx, value), f) =~= spec_insert(pair_map(s, f), idx, f(
            value,
        )));
    } else if s[0].0 < idx {
        lemma_pair_map_insert(s.skip(1), idx, value, f);
        assert(pair_map(s.skip(1), f) =~= pair_map(s, f).skip(1));
        assert(pair_map(seq![s[0]] + spec_insert(s.skip(1), idx, value), f) =~= seq![
            pair_map(s, f)[0],
        ] + pair_map(spec_insert(s.skip(1), idx, value), f));
        assert(pair_map(spec_insert(s, idx, value), f) =~= spec_insert(pair_map(s, f), idx, f(
            value,
        )));
    } else {
        assert(pair_map(s.skip(1), f) =~= pair_map(s, f).skip(1));
        assert(pair_map(spec_insert(s, idx, value), f) =~= spec_insert(pair_map(s, f), idx, f(
            value,
        )));
    }
}

proof fn lemma_pair_map_has_key<V, W>(s: Seq<(u32, V)>, idx: u32, f: spec_fn(V) -> W)
    ensures
        has_key(pair_map(s, f), idx) == has_key(s, idx),
{
    if has_key(s, idx) {
        let k = choose|k: int| 0 <= k < s.len() && (#[trigger] s[k]).0 == idx;
        assert(pair_map(s, f)[k].0 == idx);
    }
    if has_key(pair_map(s, f), idx) {
        let k = choose|k: int| 0 <= k < pair_map(s, f).len() && (#[trigger] pair_map(s, f)[k]).0
            == idx;
        assert(s[k].0 == idx);
    }
}

/// Encoding of map entries: each index as a varint, immediately followed
/// by the value's own encoding, in the order the entries stand.
pub open spec fn enc_entries<W>(s: Seq<(u32, W)>, enc_v: spec_fn(W) -> Seq<u8>) -> Seq<u8>
    decreases s.len(),
{
    if s.len() == 0 {
        Seq::empty()
    } else {
        enc_varuint32(s[0].0 as nat) + enc_v(s[0].1) + enc_entries(s.skip(1), enc_v)
    }
}

/// Encoding of a whole map: the entry count as a varint, then the
/// entries in ascending key order.
pub open spec fn enc_map<W>(s: Seq<(u32, W)>, enc_v: spec_fn(W) -> Seq<u8>) -> Seq<u8> {
    enc_varuint32(s.len()) + enc_entries(s, enc_v)
}

proof fn lemma_enc_entries_snoc<W>(s: Seq<(u32, W)>, p: (u32, W), enc_v: spec_fn(W) -> Seq<u8>)
    ensures
        enc_entries(s.push(p), enc_v) == enc_entries(s, enc_v) + enc_varuint32(p.0 as nat) + enc_v(
            p.1,
        ),
    decreases s.len(),
{
    if s.len() == 0 {
        assert(s.push(p)[0] == p);
        assert(s.push(p).skip(1) =~= Seq::<(u32, W)>::empty());
        assert(enc_entries(s, enc_v) == Seq::<u8>::empty());
        assert(enc_entries(s.push(p).skip(1), enc_v) == Seq::<u8>::empty());
        assert(enc_entries(s.push(p), enc_v) =~= enc_entries(s, enc_v) + enc_varuint32(p.0 as nat)
            + enc_v(p.1));
    } else {
        assert(s.push(p).skip(1) =~= s.skip(1).push(p));
        assert(s.push(p)[0] == s[0]);
        lemma_enc_entries_snoc(s.skip(1), p, enc_v);
        assert(enc_entries(s.push(p), enc_v) =~= enc_entries(s, enc_v) + enc_varuint32(p.0 as nat)
            + enc_v(p.1));
    }
}

/// Decode `k` entries against `bound`, extending the already-decoded
/// accumulator: each entry is an index (rejected at or above the bound,
/// or when already present) followed by a value.
pub open spec fn dec_map_entries<W>(
    s: Seq<u8>,
    bound: nat,
    k: nat,
    acc: Seq<(u32, W)>,
    dec_v: spec_fn(Seq<u8>, u32) -> Decoded<W>,
) -> Decoded<Seq<(u32, W)>>
    decreases k,
{
    if k == 0 {
        Decoded::Found { value: acc, rest: s }
    } else {
        match dec_varuint32(s) {
            Decoded::Found { value: idx, rest: s1 } => {
                if idx as nat >= bound {
                    Decoded::Fail { err: Error::InvalidData }
                } else if has_key(acc, idx) {
                    Decoded::Fail { err: Error::InvalidData }
                } else {
                    match dec_v(s1, idx) {
                        Decoded::Found { value, rest: s2 } => dec_map_entries(
                            s2,
                            bound,
                            (k - 1) as nat,
                            spec_insert(acc, idx, value),
                            dec_v,
                        ),
                        Decoded::Fail { err } => Decoded::Fail { err },
                    }
                }
            },
            Decoded::Fail { err } => Decoded::Fail { err },
        }
    }
}

/// Decode a whole map: an entry count, then that many entries, starting
/// from an empty accumulator.
pub open spec fn dec_map<W>(
    s: Seq<u8>,
    bound: nat,
    dec_v: spec_fn(Seq<u8>, u32) -> Decoded<W>,
) -> Decoded<Seq<(u32, W)>> {
    match dec_varuint32(s) {
        Decoded::Found { value: count, rest } => dec_map_entries(
            rest,
            bound,
            count as nat,
            Seq::empty(),
            dec_v,
        ),
        Decoded::Fail { err } => Decoded::Fail { err },
    }
}

/// Decoded map entries never leave a longer remainder than they began
/// with, provided the value decoder does not either.
pub proof fn lemma_dec_map_entries_shrinks<W>(
    s: Seq<u8>,
    bound: nat,
    k: nat,
    acc: Seq<(u32, W)>,
    dec_v: spec_fn(Seq<u8>, u32) -> Decoded<W>,
)
    requires
        forall|t: Seq<u8>, i: u32| (#[trigger] dec_v(t, i)) matches Decoded::Found { rest, .. }
            ==> rest.len() <= t.len(),
    ensures
        dec_map_entries(s, bound, k, acc, dec_v) matches Decoded::Found { rest, .. } ==> rest.len()
            <= s.len(),
    decreases k,
{
    if k > 0 {
        lemma_dec_varuint_shrinks(s, 5);
        match dec_varuint32(s) {
            Decoded::Found { value: idx, rest: s1 } => {
                if (idx as nat) < bound && !has_key(acc, idx) {
                    match dec_v(s1, idx) {
                        Decoded::Found { value, rest: s2 } => {
                            lemma_dec_map_entries_shrinks(
                                s2,
                                bound,
                                (k - 1) as nat,
                                spec_insert(acc, idx, value),
                                dec_v,
                            );
                        },
                        Decoded::Fail { .. } => {},
                    }
                }
            },
            Decoded::Fail { .. } => {},
        }
    }
}

/// A decoded map leaves a strictly shorter remainder.
pub proof fn lemma_dec_map_shrinks<W>(
    s: Seq<u8>,
    bound: nat,
    dec_v: spec_fn(Seq<u8>, u32) -> Decoded<W>,
)
    requires
        forall|t: Seq<u8>, i: u32| (#[trigger] dec_v(t, i)) matches Decoded::Found { rest, .. }
            ==> rest.len() <= t.len(),
    ensures
        dec_map(s, bound, dec_v) matches Decoded::Found { rest, .. } ==> rest.len() < s.len(),
{
    lemma_dec_varuint_shrinks(s, 5);
    match dec_varuint32(s) {
        Decoded::Found { value: count, rest } => {
            lemma_dec_map_entries_shrinks(
                rest,
                bound,
                count as nat,
                Seq::<(u32, W)>::empty(),
                dec_v,
            );
        },
        Decoded::Fail { .. } => {},
    }
}

/// The keys of the entry sequence all lie below the bound.
pub open spec fn keys_bounded<V>(s: Seq<(u32, V)>, bound: nat) -> bool {
    forall|k: int| 0 <= k < s.len() ==> (((#[trigger] s[k]).0) as nat) < bound
}

/// The decoder inverts the encoder on this value, whatever follows it
/// and whatever index it sits under.
pub open spec fn decodes_value<W>(
    w: W,
    enc_v: spec_fn(W) -> Seq<u8>,
    dec_v: spec_fn(Seq<u8>, u32) -> Decoded<W>,
) -> bool {
    forall|r: Seq<u8>, idx: u32| #[trigger] dec_v(enc_v(w) + r, idx) == (Decoded::Found {
        value: w,
        rest: r,
    })
}

proof fn lemma_entries_round_trip<W>(
    v: Seq<(u32, W)>,
    i: int,
    rest: Seq<u8>,
    bound: nat,
    enc_v: spec_fn(W) -> Seq<u8>,
    dec_v: spec_fn(Seq<u8>, u32) -> Decoded<W>,
)
    requires
        keys_sorted(v),
        keys_bounded(v, bound),
        0 <= i <= v.len(),
        forall|k: int| 0 <= k < v.len() ==> decodes_value((#[trigger] v[k]).1, enc_v, dec_v),
    ensures
        dec_map_entries(
            enc_entries(v.skip(i), enc_v) + rest,
            bound,
            (v.len() - i) as nat,
            v.take(i),
            dec_v,
        ) == (Decoded::Found { value: v, rest }),
    decreases v.len() - i,
{
    if i == v.len() {
        assert(v.skip(i) =~= Seq::<(u32, W)>::empty());
        assert(enc_entries(v.skip(i), enc_v) + rest =~= rest);
        assert(v.take(i) =~= v);
    } else {
        let e = v[i];
        let tail = enc_entries(v.skip(i + 1), enc_v) + rest;
        assert(v.skip(i)[0] == e);
        assert(v.skip(i).skip(1) =~= v.skip(i + 1));
        assert(enc_entries(v.skip(i), enc_v) + rest =~= enc_varuint32(e.0 as nat) + (enc_v(e.1)
            + tail));
        lemma_varuint32_round_trip(e.0, enc_v(e.1) + tail);
        assert(!has_key(v.take(i), e.0)) by {
            if has_key(v.take(i), e.0) {
                let k = choose|k: int|
                    0 <= k < v.take(i).len() && (#[trigger] v.take(i)[k]).0 == e.0;
                assert(v[k].0 == e.0);
                assert(v[k].0 < v[i].0);
            }
        }
        assert(decodes_value(e.1, enc_v, dec_v));
        assert(dec_v(enc_v(e.1) + tail, e.0) == (Decoded::Found { value: e.1, rest: tail }));
        assert(spec_insert(v.take(i), e.0, e.1) == v.take(i + 1)) by {
            assert(forall|k: int| 0 <= k < i ==> (#[trigger] v.take(i)[k]).0 < e.0);
            lemma_spec_insert_split(v.take(i), e.0, e.1, i);
            assert(v.take(i).insert(i, e) =~= v.take(i + 1));
        }
        lemma_entries_round_trip(v, i + 1, rest, bound, enc_v, dec_v);
    }
}

/// Decoding inverts encoding for maps: the canonical bytes of any
/// well-formed map whose keys lie below the bound decode back to it,
/// leaving the appended remainder untouched, provided the same holds of
/// each entry's value.
pub proof fn lemma_map_round_trip<W>(
    v: Seq<(u32, W)>,
    rest: Seq<u8>,
    bound: nat,
    enc_v: spec_fn(W) -> Seq<u8>,
    dec_v: spec_fn(Seq<u8>, u32) -> Decoded<W>,
)
    requires
        keys_sorted(v),
        keys_bounded(v, bound),
        v.len() <= u32::MAX,
        forall|k: int| 0 <= k < v.len() ==> decodes_value((#[trigger] v[k]).1, enc_v, dec_v),
    ensures
        dec_map(enc_map(v, enc_v) + rest, bound, dec_v) == (Decoded::Found { value: v, rest }),
{
    let entries = enc_entries(v, enc_v) + rest;
    assert(enc_map(v, enc_v) + rest =~= enc_varuint32((v.len() as u32) as nat) + entries);
    lemma_varuint32_round_trip(v.len() as u32, entries);
    assert(v.skip(0) =~= v);
    assert(v.take(0) =~= Seq::<(u32, W)>::empty());
    lemma_entries_round_trip(v, 0, rest, bound, enc_v, dec_v);
}

proof fn lemma_entries_bound_rejection<W>(
    v: Seq<(u32, W)>,
    i: int,
    rest: Seq<u8>,
    bound: nat,
    enc_v: spec_fn(W) -> Seq<u8>,
    dec_v: spec_fn(Seq<u8>, u32) -> Decoded<W>,
)
    requires
        keys_sorted(v),
        0 <= i <= v.len(),
        exists|k: int| i <= k < v.len() && (((#[trigger] v[k]).0) as nat) >= bound,
        forall|k: int| 0 <= k < v.len() ==> decodes_value((#[trigger] v[k]).1, enc_v, dec_v),
    ensures
        dec_map_entries(
            enc_entries(v.skip(i), enc_v) + rest,
            bound,
            (v.len() - i) as nat,
            v.take(i),
            dec_v,
        ) == (Decoded::Fail::<Seq<(u32, W)>> { err: Error::InvalidData }),
    decreases v.len() - i,
{
    let e = v[i];
    let tail = enc_entries(v.skip(i + 1), enc_v) + rest;
    assert(v.skip(i)[0] == e);
    assert(v.skip(i).skip(1) =~= v.skip(i + 1));
    assert(enc_entries(v.skip(i), enc_v) + rest =~= enc_varuint32(e.0 as nat) + (enc_v(e.1)
        + tail));
    lemma_varuint32_round_trip(e.0, enc_v(e.1) + tail);
    if (e.0 as nat) < bound {
        assert(!has_key(v.take(i), e.0)) by {
            if has_key(v.take(i), e.0) {
                let k = choose|k: int|
                    0 <= k < v.take(i).len() && (#[trigger] v.take(i)[k]).0 == e.0;
                assert(v[k].0 == e.0);
                assert(v[k].0 < v[i].0);
            }
        }
        assert(decodes_value(e.1, enc_v, dec_v));
        assert(dec_v(enc_v(e.1) + tail, e.0) == (Decoded::Found { value: e.1, rest: tail }));
        assert(spec_insert(v.take(i), e.0, e.1) == v.take(i + 1)) by {
            assert(forall|k: int| 0 <= k < i ==> (#[trigger] v.take(i)[k]).0 < e.0);
            lemma_spec_insert_split(v.take(i), e.0, e.1, i);
            assert(v.take(i).insert(i, e) =~= v.take(i + 1));
        }
        assert(exists|k: int| i + 1 <= k < v.len() && (((#[trigger] v[k]).0) as nat) >= bound) by {
            let k = choose|k: int| i <= k < v.len() && (((#[trigger] v[k]).0) as nat) >= bound;
            assert(k != i);
        }
        lemma_entries_bound_rejection(v, i + 1, rest, bound, enc_v, dec_v);
    }
}

/// Bound rejection: the encoding of a map holding any index at or above
/// the bound fails deserialization with the out-of-bounds error; it is
/// never silently clamped or dropped.
pub proof fn lemma_map_bound_rejection<W>(
    v: Seq<(u32, W)>,
    rest: Seq<u8>,
    bound: nat,
    enc_v: spec_fn(W) -> Seq<u8>,
    dec_v: spec_fn(Seq<u8>, u32) -> Decoded<W>,
)
    requires
        keys_sorted(v),
        v.len() <= u32::MAX,
        exists|k: int| 0 <= k < v.len() && (((#[trigger] v[k]).0) as nat) >= bound,
        forall|k: int| 0 <= k < v.len() ==> decodes_value((#[trigger] v[k]).1, enc_v, dec_v),
    ensures
        dec_map(enc_map(v, enc_v) + rest, bound, dec_v) == (Decoded::Fail::<Seq<(u32, W)>> {
            err: Error::InvalidData,
        }),
{
    let entries = enc_entries(v, enc_v) + rest;
    assert(enc_map(v, enc_v) + rest =~= enc_varuint32((v.len() as u32) as nat) + entries);
    lemma_varuint32_round_trip(v.len() as u32, entries);
    assert(v.skip(0) =~= v);
    assert(v.take(0) =~= Seq::<(u32, W)>::empty());
    lemma_entries_bound_rejection(v, 0, rest, bound, enc_v, dec_v);
}

/// Inserting a pair leaves exactly the old keys plus the new one.
proof fn lemma_spec_insert_has_key<V>(s: Seq<(u32, V)>, idx: u32, value: V, x: u32)
    ensures
        has_key(spec_insert(s, idx, value), x) <==> (x == idx || has_key(s, x)),
    decreases s.len(),
{
    let r = spec_insert(s, idx, value);
    if s.len() == 0 {
        assert(r[0] == (idx, value));
    } else if s[0].0 < idx {
        lemma_spec_insert_has_key(s.skip(1), idx, value, x);
        let rt = spec_insert(s.skip(1), idx, value);
        assert(r =~= seq![s[0]] + rt);
        if has_key(r, x) {
            let k = choose|k: int| 0 <= k < r.len() && (#[trigger] r[k]).0 == x;
            if k == 0 {
                assert(s[0].0 == x);
            } else {
                assert(rt[k - 1].0 == x);
            }
        }
        if x == s[0].0 {
            assert(r[0].0 == x);
        }
        if has_key(s, x) {
            let k = choose|k: int| 0 <= k < s.len() && (#[trigger] s[k]).0 == x;
            if k == 0 {
                assert(r[0].0 == x);
            } else {
                assert(s.skip(1)[k - 1] == s[k]);
                assert(has_key(s.skip(1), x));
                let k2 = choose|k2: int| 0 <= k2 < rt.len() && (#[trigger] rt[k2]).0 == x;
                assert(r[k2 + 1].0 == x);
            }
        }
        if x == idx {
            let k2 = choose|k2: int| 0 <= k2 < rt.len() && (#[trigger] rt[k2]).0 == x;
            assert(r[k2 + 1].0 == x);
        }
    } else if s[0].0 == idx {
        assert(r =~= seq![(idx, value)] + s.skip(1));
        if has_key(r, x) {
            let k = choose|k: int| 0 <= k < r.len() && (#[trigger] r[k]).0 == x;
            if k > 0 {
                assert(s[k] == s.skip(1)[k - 1]);
            }
        }
        if x == idx {
            assert(r[0].0 == x);
        }
        if has_key(s, x) && x != idx {
            let k = choose|k: int| 0 <= k < s.len() && (#[trigger] s[k]).0 == x;
            assert(k != 0);
            assert(r[k].0 == x);
        }
    } else {
        assert(r =~= seq![(idx, value)] + s);
        if has_key(r, x) {
            let k = choose|k: int| 0 <= k < r.len() && (#[trigger] r[k]).0 == x;
            if k > 0 {
                assert(s[k - 1].0 == x);
            }
        }
        if x == idx {
            assert(r[0].0 == x);
        }
        if has_key(s, x) {
            let k = choose|k: int| 0 <= k < s.len() && (#[trigger] s[k]).0 == x;
            assert(r[k + 1].0 == x);
        }
    }
}

proof fn lemma_entries_duplicate_rejection<W>(
    e: Seq<(u32, W)>,
    i: int,
    acc: Seq<(u32, W)>,
    rest: Seq<u8>,
    bound: nat,
    enc_v: spec_fn(W) -> Seq<u8>,
    dec_v: spec_fn(Seq<u8>, u32) -> Decoded<W>,
)
    requires
        0 <= i <= e.len(),
        forall|k: int| 0 <= k < e.len() ==> (((#[trigger] e[k]).0) as nat) < bound,
        forall|k: int| 0 <= k < e.len() ==> decodes_value((#[trigger] e[k]).1, enc_v, dec_v),
        forall|x: u32| #[trigger] has_key(acc, x) <==> has_key(e.take(i), x),
        exists|j: int| i <= j < e.len() && has_key(e.take(j), (#[trigger] e[j]).0),
    ensures
        dec_map_entries(
            enc_entries(e.skip(i), enc_v) + rest,
            bound,
            (e.len() - i) as nat,
            acc,
            dec_v,
        ) == (Decoded::Fail::<Seq<(u32, W)>> { err: Error::InvalidData }),
    decreases e.len() - i,
{
    let ent = e[i];
    let tail = enc_entries(e.skip(i + 1), enc_v) + rest;
    assert(e.skip(i)[0] == ent);
    assert(e.skip(i).skip(1) =~= e.skip(i + 1));
    assert(enc_entries(e.skip(i), enc_v) + rest =~= enc_varuint32(ent.0 as nat) + (enc_v(ent.1)
        + tail));
    lemma_varuint32_round_trip(ent.0, enc_v(ent.1) + tail);
    if !has_key(acc, ent.0) {
        assert(decodes_value(ent.1, enc_v, dec_v));
        assert(dec_v(enc_v(ent.1) + tail, ent.0) == (Decoded::Found { value: ent.1, rest: tail }));
        let acc2 = spec_insert(acc, ent.0, ent.1);
        assert forall|x: u32| #[trigger] has_key(acc2, x) <==> has_key(e.take(i + 1), x) by {
            lemma_spec_insert_has_key(acc, ent.0, ent.1, x);
            if x == ent.0 || has_key(e.take(i), x) {
                if x == ent.0 {
                    assert(e.take(i + 1)[i].0 == x);
                } else {
                    let k = choose|k: int|
                        0 <= k < e.take(i).len() && (#[trigger] e.take(i)[k]).0 == x;
                    assert(e.take(i + 1)[k].0 == x);
                }
            }
            if has_key(e.take(i + 1), x) {
                let k = choose|k: int|
                    0 <= k < e.take(i + 1).len() && (#[trigger] e.take(i + 1)[k]).0 == x;
                if k < i {
                    assert(e.take(i)[k].0 == x);
                }
            }
        }
        assert(exists|j: int| i + 1 <= j < e.len() && has_key(e.take(j), (#[trigger] e[j]).0)) by {
            let j = choose|j: int| i <= j < e.len() && has_key(e.take(j), (#[trigger] e[j]).0);
            assert(j != i);
        }
        lemma_entries_duplicate_rejection(e, i + 1, acc2, rest, bound, enc_v, dec_v);
    }
}

/// Duplicate rejection, over whole encodings: the encoding of an entry
/// sequence in which some index appears twice fails deserialization
/// with the duplicate-entry error; the later entry never silently
/// overwrites the earlier one.
pub proof fn lemma_map_duplicate_rejection<W>(
    e: Seq<(u32, W)>,
    rest: Seq<u8>,
    bound: nat,
    enc_v: spec_fn(W) -> Seq<u8>,
    dec_v: spec_fn(Seq<u8>, u32) -> Decoded<W>,
)
    requires
        e.len() <= u32::MAX,
        forall|k: int| 0 <= k < e.len() ==> (((#[trigger] e[k]).0) as nat) < bound,
        forall|k: int| 0 <= k < e.len() ==> decodes_value((#[trigger] e[k]).1, enc_v, dec_v),
        exists|i: int, j: int|
            0 <= i < j < e.len() && ((#[trigger] e[i]).0) == ((#[trigger] e[j]).0),
    ensures
        dec_map(enc_map(e, enc_v) + rest, bound, dec_v) == (Decoded::Fail::<Seq<(u32, W)>> {
            err: Error::InvalidData,
        }),
{
    let entries = enc_entries(e, enc_v) + rest;
    assert(enc_map(e, enc_v) + rest =~= enc_varuint32((e.len() as u32) as nat) + entries);
    lemma_varuint32_round_trip(e.len() as u32, entries);
    assert(e.skip(0) =~= e);
    assert(e.take(0) =~= Seq::<(u32, W)>::empty());
    assert(exists|j: int| 0 <= j < e.len() && has_key(e.take(j), (#[trigger] e[j]).0)) by {
        let (i, j) = choose|i: int, j: int|
            0 <= i < j < e.len() && ((#[trigger] e[i]).0) == ((#[trigger] e[j]).0);
        assert(e.take(j)[i].0 == e[j].0);
        assert(has_key(e.take(j), e[j].0));
    }
    lemma_entries_duplicate_rejection(e, 0, Seq::<(u32, W)>::empty(), rest, bound, enc_v, dec_v);
}

/// Duplicate rejection: an entry whose index was already decoded in the
/// same map fails deserialization, whatever value bytes follow it.
pub proof fn lemma_duplicate_index_rejected<W>(
    idx: u32,
    tail: Seq<u8>,
    bound: nat,
    k: nat,
    acc: Seq<(u32, W)>,
    dec_v: spec_fn(Seq<u8>, u32) -> Decoded<W>,
)
    requires
        k >= 1,
        (idx as nat) < bound,
        has_key(acc, idx),
    ensures
        dec_map_entries(enc_varuint32(idx as nat) + tail, bound, k, acc, dec_v)
            == (Decoded::Fail::<Seq<(u32, W)>> { err: Error::InvalidData }),
{
    lemma_varuint32_round_trip(idx, tail);
}

/// The value decoder of string-valued maps: a length-prefixed string;
/// the entry's own index plays no part.
pub open spec fn string_entry_decoder() -> spec_fn(Seq<u8>, u32) -> Decoded<Seq<char>> {
    |s: Seq<u8>, i: u32| dec_string(s)
}

/// The value encoder of string-valued maps.
pub open spec fn string_entry_encoder() -> spec_fn(Seq<char>) -> Seq<u8> {
    |s: Seq<char>| enc_string(s)
}

/// View of a string-valued map: its entries with each name abstracted
/// to its character sequence.
pub open spec fn name_map_view(m: IndexMap<String>) -> Seq<(u32, Seq<char>)> {
    pair_map(m.entries_seq(), |s: String| s@)
}

/// Whether a string-valued map can be serialized with 32-bit lengths.
pub open spec fn name_map_fits(v: Seq<(u32, Seq<char>)>) -> bool {
    &&& v.len() <= u32::MAX
    &&& forall|k: int| 0 <= k < v.len() ==> encode_utf8((#[trigger] v[k]).1).len() <= u32::MAX
}

impl IndexMap<String> {
    /// Write the entry count, then each `(index, name)` pair in
    /// ascending index order.
    pub fn serialize<W: Write>(&self, wtr: &mut W) -> (r: Result<(), Error>)
        ensures
            final(wtr).infallible() == old(wtr).infallible(),
            r is Ok ==> final(wtr).sink() == old(wtr).sink() + enc_map(
                name_map_view(*self),
                string_entry_encoder(),
            ),
            old(wtr).infallible() ==> (r is Ok <==> name_map_fits(name_map_view(*self))),
            old(wtr).infallible() && r is Err ==> r == Err::<(), Error>(Error::InvalidData),
    {
        let ghost v = name_map_view(*self);
        let ghost sink0 = wtr.sink();
        if self.entries.len() > u32::MAX as usize {
            return Err(Error::InvalidData);
        }
        let count = VarUint32(self.entries.len() as u32);
        match count.serialize(wtr) {
            Ok(_) => {},
            Err(e) => {
                return Err(e);
            },
        }
        let mut i: usize = 0;
        while i < self.entries.len()
            invariant
                i <= self.entries@.len(),
                v == name_map_view(*self),
                v.len() == self.entries@.len(),
                wtr.infallible() == old(wtr).infallible(),
                wtr.sink() == sink0 + enc_varuint32(v.len()) + enc_entries(
                    v.take(i as int),
                    string_entry_encoder(),
                ),
                old(wtr).infallible() ==> forall|k: int|
                    0 <= k < i ==> encode_utf8((#[trigger] v[k]).1).len() <= u32::MAX,
            decreases self.entries@.len() - i,
        {
            let ghost sink_i = wtr.sink();
            let idx = VarUint32(self.entries[i].0);
            match idx.serialize(wtr) {
                Ok(_) => {},
                Err(e) => {
                    return Err(e);
                },
            }
            match serialize_string(self.entries[i].1.as_str(), wtr) {
                Ok(_) => {},
                Err(e) => {
                    proof {
                        assert(v[i as int].1 == self.entries@[i as int].1@);
                    }
                    return Err(e);
                },
            }
            proof {
                assert(v[i as int] == (self.entries@[i as int].0, self.entries@[i as int].1@));
                lemma_enc_entries_snoc(v.take(i as int), v[i as int], string_entry_encoder());
                assert(v.take(i + 1) =~= v.take(i as int).push(v[i as int]));
                assert(wtr.sink() =~= sink_i + enc_varuint32(v[i as int].0 as nat)
                    + enc_string(v[i as int].1));
            }
            i = i + 1;
        }
        proof {
            assert(v.take(v.len() as int) =~= v);
        }
        Ok(())
    }

    /// Read an entry count, then that many `(index, name)` pairs,
    /// rejecting an index at or above `bound` and any repeated index.
    pub fn deserialize<R: Read>(bound: u64, rdr: &mut R) -> (r: Result<IndexMap<String>, Error>)
        ensures
            preserves_reader(old(rdr), final(rdr)),
            r matches Ok(m) ==> {
                &&& m.wf()
                &&& reader_ok(old(rdr))
                &&& reader_ok(final(rdr))
                &&& dec_map(readable(old(rdr)), bound as nat, string_entry_decoder())
                    == (Decoded::Found { value: name_map_view(m), rest: readable(final(rdr)) })
            },
            old(rdr).reliable() ==> (r matches Err(e) ==> dec_map(
                readable(old(rdr)),
                bound as nat,
                string_entry_decoder(),
            ) == (Decoded::Fail::<Seq<(u32, Seq<char>)>> { err: e })),
    {
        let ghost orig = readable(old(rdr));
        let count = match VarUint32::deserialize(rdr) {
            Ok(c) => c,
            Err(e) => {
                return Err(e);
            },
        };
        let ghost rest0 = readable(rdr);
        let mut map: IndexMap<String> = IndexMap::new();
        proof {
            assert(name_map_view(map) =~= Seq::<(u32, Seq<char>)>::empty());
        }
        let mut done: u32 = 0;
        while done < count.0
            invariant
                done <= count.0,
                map.wf(),
                preserves_reader(old(rdr), rdr),
                reader_ok(old(rdr)),
                reader_ok(rdr),
                dec_varuint32(orig) == (Decoded::Found { value: count.0, rest: rest0 }),
                orig == readable(old(rdr)),
                dec_map_entries(
                    readable(rdr),
                    bound as nat,
                    (count.0 - done) as nat,
                    name_map_view(map),
                    string_entry_decoder(),
                ) == dec_map_entries(
                    rest0,
                    bound as nat,
                    count.0 as nat,
                    Seq::<(u32, Seq<char>)>::empty(),
                    string_entry_decoder(),
                ),
            decreases count.0 - done,
        {
            let idx = match VarUint32::deserialize(rdr) {
                Ok(i) => i,
                Err(e) => {
                    return Err(e);
                },
            };
            if idx.0 as u64 >= bound {
                return Err(Error::InvalidData);
            }
            proof {
                lemma_pair_map_has_key(map.entries_seq(), idx.0, |s: String| s@);
            }
            if map.contains_key(idx.0) {
                return Err(Error::InvalidData);
            }
            let name = match deserialize_string(rdr) {
                Ok(n) => n,
                Err(e) => {
                    return Err(e);
                },
            };
            proof {
                lemma_pair_map_insert(map.entries_seq(), idx.0, name, |s: String| s@);
            }
            map.insert(idx.0, name);
            done = done + 1;
        }
        Ok(map)
    }
}

/// The value decoder of map-valued maps: an inner string-valued map,
/// bounded by a single bound shared by every entry.
pub open spec fn name_map_entry_decoder(inner_bound: nat) -> spec_fn(Seq<u8>, u32) -> Decoded<
    Seq<(u32, Seq<char>)>,
> {
    |s: Seq<u8>, i: u32| dec_map(s, inner_bound, string_entry_decoder())
}

/// The value encoder of map-valued maps.
pub open spec fn name_map_entry_encoder() -> spec_fn(Seq<(u32, Seq<char>)>) -> Seq<u8> {
    |v: Seq<(u32, Seq<char>)>| enc_map(v, string_entry_encoder())
}

/// View of a map of string-valued maps.
pub open spec fn local_map_view(m: IndexMap<IndexMap<String>>) -> Seq<
    (u32, Seq<(u32, Seq<char>)>),
> {
    pair_map(m.entries_seq(), |inner: IndexMap<String>| name_map_view(inner))
}

/// Every inner map of a map of maps is itself well-formed.
pub open spec fn inner_maps_wf(m: IndexMap<IndexMap<String>>) -> bool {
    forall|k: int| 0 <= k < m.entries_seq().len() ==> (#[trigger] m.entries_seq()[k]).1.wf()
}

/// Whether a map of string-valued maps can be serialized with 32-bit
/// lengths.
pub open spec fn local_map_fits(v: Seq<(u32, Seq<(u32, Seq<char>)>)>) -> bool {
    &&& v.len() <= u32::MAX
    &&& forall|k: int| 0 <= k < v.len() ==> name_map_fits((#[trigger] v[k]).1)
}

impl IndexMap<IndexMap<String>> {
    /// Write the entry count, then each `(index, inner map)` pair in
    /// ascending index order.
    pub fn serialize<W: Write>(&self, wtr: &mut W) -> (r: Result<(), Error>)
        ensures
            final(wtr).infallible() == old(wtr).infallible(),
            r is Ok ==> final(wtr).sink() == old(wtr).sink() + enc_map(
                local_map_view(*self),
                name_map_entry_encoder(),
            ),
            old(wtr).infallible() ==> (r is Ok <==> local_map_fits(local_map_view(*self))),
            old(wtr).infallible() && r is Err ==> r == Err::<(), Error>(Error::InvalidData),
    {
        let ghost v = local_map_view(*self);
        let ghost sink0 = wtr.sink();
        if self.entries.len() > u32::MAX as usize {
            return Err(Error::InvalidData);
        }
        let count = VarUint32(self.entries.len() as u32);
        match count.serialize(wtr) {
            Ok(_) => {},
            Err(e) => {
                return Err(e);
            },
        }
        let mut i: usize = 0;
        while i < self.entries.len()
            invariant
                i <= self.entries@.len(),
                v == local_map_view(*self),
                v.len() == self.entries@.len(),
                wtr.infallible() == old(wtr).infallible(),
                wtr.sink() == sink0 + enc_varuint32(v.len()) + enc_entries(
                    v.take(i as int),
                    name_map_entry_encoder(),
                ),
                old(wtr).infallible() ==> forall|k: int| 0 <= k < i ==> name_map_fits(
                    (#[trigger] v[k]).1,
                ),
            decreases self.entries@.len() - i,
        {
            let ghost sink_i = wtr.sink();
            let idx = VarUint32(self.entries[i].0);
            match idx.serialize(wtr) {
                Ok(_) => {},
                Err(e) => {
                    return Err(e);
                },
            }
            proof {
                assert(v[i as int] == (self.entries@[i as int].0, name_map_view(
                    self.entries@[i as int].1,
                )));
            }
            match self.entries[i].1.serialize(wtr) {
                Ok(_) => {},
                Err(e) => {
                    return Err(e);
                },
            }
            proof {
                lemma_enc_entries_snoc(v.take(i as int), v[i as int], name_map_entry_encoder());
                assert(v.take(i + 1) =~= v.take(i as int).push(v[i as int]));
                assert(wtr.sink() =~= sink_i + enc_varuint32(v[i as int].0 as nat) + enc_map(
                    v[i as int].1,
                    string_entry_encoder(),
                ));
            }
            i = i + 1;
        }
        proof {
            assert(v.take(v.len() as int) =~= v);
        }
        Ok(())
    }

    /// Read an entry count, then that many `(index, inner map)` pairs.
    /// Outer indices are rejected at or above `bound`; every inner map
    /// is decoded against the single `inner_bound`.
    pub fn deserialize_with<R: Read>(bound: u64, inner_bound: u64, rdr: &mut R) -> (r: Result<
        IndexMap<IndexMap<String>>,
        Error,
    >)
        ensures
            preserves_reader(old(rdr), final(rdr)),
            r matches Ok(m) ==> {
                &&& m.wf()
                &&& inner_maps_wf(m)
                &&& reader_ok(old(rdr))
                &&& reader_ok(final(rdr))
                &&& dec_map(
                    readable(old(rdr)),
                    bound as nat,
                    name_map_entry_decoder(inner_bound as nat),
                ) == (Decoded::Found { value: local_map_view(m), rest: readable(final(rdr)) })
            },
            old(rdr).reliable() ==> (r matches Err(e) ==> dec_map(
                readable(old(rdr)),
                bound as nat,
                name_map_entry_decoder(inner_bound as nat),
            ) == (Decoded::Fail::<Seq<(u32, Seq<(u32, Seq<char>)>)>> { err: e })),
    {
        let ghost orig = readable(old(rdr));
        let ghost dec_v = name_map_entry_decoder(inner_bound as nat);
        let count = match VarUint32::deserialize(rdr) {
            Ok(c) => c,
            Err(e) => {
                return Err(e);
            },
        };
        let ghost rest0 = readable(rdr);
        let mut map: IndexMap<IndexMap<String>> = IndexMap::new();
        proof {
            assert(local_map_view(map) =~= Seq::<(u32, Seq<(u32, Seq<char>)>)>::empty());
        }
        let mut done: u32 = 0;
        while done < count.0
            invariant
                done <= count.0,
                map.wf(),
                inner_maps_wf(map),
                preserves_reader(old(rdr), rdr),
                reader_ok(old(rdr)),
                reader_ok(rdr),
                dec_v == name_map_entry_decoder(inner_bound as nat),
                dec_varuint32(orig) == (Decoded::Found { value: count.0, rest: rest0 }),
                orig == readable(old(rdr)),
                dec_map_entries(
                    readable(rdr),
                    bound as nat,
                    (count.0 - done) as nat,
                    local_map_view(map),
                    dec_v,
                ) == dec_map_entries(
                    rest0,
                    bound as nat,
                    count.0 as nat,
                    Seq::<(u32, Seq<(u32, Seq<char>)>)>::empty(),
                    dec_v,
                ),
            decreases count.0 - done,
        {
            let idx = match VarUint32::deserialize(rdr) {
                Ok(i) => i,
                Err(e) => {
                    return Err(e);
                },
            };
            if idx.0 as u64 >= bound {
                return Err(Error::InvalidData);
            }
            proof {
                lemma_pair_map_has_key(
                    map.entries_seq(),
                    idx.0,
                    |inner: IndexMap<String>| name_map_view(inner),
                );
            }
            if map.contains_key(idx.0) {
                return Err(Error::InvalidData);
            }
            let inner = match IndexMap::<String>::deserialize(inner_bound, rdr) {
                Ok(n) => n,
                Err(e) => {
                    return Err(e);
                },
            };
            proof {
                lemma_pair_map_insert(
                    map.entries_seq(),
                    idx.0,
                    inner,
                    |inner: IndexMap<String>| name_map_view(inner),
                );
                lemma_spec_insert_elems(map.entries_seq(), idx.0, inner);
            }
            map.insert(idx.0, inner);
            done = done + 1;
        }
        Ok(map)
    }
}

} // verus!
