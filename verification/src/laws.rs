//! What holds of the store across its operations: reads give back writes,
//! the log stays intact under the operations, and a persisted image loads
//! back into a store that reads every key as the persisted one does.

use vstd::prelude::*;
use crate::format::{
    decode_value, encode_value, encoded_size, header_of, law_payload_flip_detected, lemma_decode_encode,
    lemma_decode_prefix,
    lemma_decoded_size, lemma_encoded_size, lemma_parse_entry_span, parse_entry_spec,
};
use crate::store::{
    delete_model, empty_model, insert_model, key_as_value, key_at, listing, listing_from,
    load_pairs, log_intact, lookup, pair_fits, pairs_fit, persist_image, reaches_entry, replay, value_as_key,
    walks_to_end, StoreModel,
};
use crate::error::DecodeError;
use crate::values::{KeyModel, ValueModel};

verus! {

/// Every live key of the model points inside its log.
pub open spec fn offsets_in_log(m: StoreModel) -> bool {
    forall|k: KeyModel| #[trigger] m.offsets.contains_key(k) ==> m.offsets[k] < m.bytes.len()
}

/// Bytes appended after a parsed entry do not change what parses there.
pub proof fn lemma_parse_entry_extend(d: Seq<u8>, x: Seq<u8>)
    requires
        parse_entry_spec(d) matches Ok(Some(_)),
    ensures
        parse_entry_spec(d + x) == parse_entry_spec(d),
{
    lemma_parse_entry_span(d);
    let e = d + x;
    assert(e.subrange(0, 8) =~= d.subrange(0, 8));
    assert(e.subrange(8, 12) =~= d.subrange(8, 12));
    assert(header_of(e) == header_of(d));
    let n = 8 + header_of(d).length;
    assert(e.subrange(0, n as int) =~= d.subrange(0, n as int));
}

/// An entry that parses decodes, read from its start to the end of the data.
pub proof fn lemma_parsed_decodes(d: Seq<u8>)
    requires
        parse_entry_spec(d) matches Ok(Some(_)),
    ensures
        parse_entry_spec(d) matches Ok(Some((v, u))) ==> decode_value(d) == Ok::<ValueModel, DecodeError>(v),
{
    lemma_parse_entry_span(d);
    let n = 8 + header_of(d).length;
    lemma_decode_prefix(d, n as int);
}

/// A read of a key right after writing it gives back the value written;
/// in particular, of two writes of one key the later one wins.
pub proof fn law_read_after_insert(m: StoreModel, k: KeyModel, v: ValueModel)
    requires
        encoded_size(v) <= usize::MAX,
    ensures
        lookup(insert_model(m, k, v), k) == Ok::<Option<ValueModel>, DecodeError>(Some(v)),
{
    let m2 = insert_model(m, k, v);
    lemma_decode_encode(v, Seq::empty());
    assert(m2.bytes.subrange(m.bytes.len() as int, m2.bytes.len() as int) =~= encode_value(v)
        + Seq::<u8>::empty());
}

/// Writing a key leaves every successful read of another key unchanged.
pub proof fn law_insert_keeps_other_reads(m: StoreModel, k: KeyModel, v: ValueModel, other: KeyModel)
    requires
        offsets_in_log(m),
        other != k,
        lookup(m, other) is Ok,
    ensures
        lookup(insert_model(m, k, v), other) == lookup(m, other),
{
    let m2 = insert_model(m, k, v);
    if m.offsets.contains_key(other) {
        let off = m.offsets[other] as int;
        let d = m.bytes.subrange(off, m.bytes.len() as int);
        let d2 = m2.bytes.subrange(off, m2.bytes.len() as int);
        assert(d2 =~= d + encode_value(v));
        assert(d2.subrange(0, d.len() as int) =~= d);
        assert(d2.subrange(0, 8) =~= d.subrange(0, 8));
        assert(d2.subrange(8, 12) =~= d.subrange(8, 12));
        assert(header_of(d2) == header_of(d));
        lemma_decode_prefix(d2, d.len() as int);
    }
}

/// After deleting a key, reads of it find nothing, and reads of every other
/// key are unchanged.
pub proof fn law_read_after_delete(m: StoreModel, k: KeyModel, other: KeyModel)
    ensures
        lookup(delete_model(m, k), k) == Ok::<Option<ValueModel>, DecodeError>(None),
        other != k ==> lookup(delete_model(m, k), other) == lookup(m, other),
{
}

/// Every pair that iteration yields from `pos` on has a live key, and a value
/// whose entry is no longer than the log from `pos` on.
pub proof fn lemma_listing_bounds(b: Seq<u8>, offs: Map<KeyModel, nat>, pos: nat)
    ensures
        forall|i: int|
            0 <= i < listing_from(b, offs, pos).len() ==> offs.contains_key(
                (#[trigger] listing_from(b, offs, pos)[i]).0,
            ) && encoded_size(listing_from(b, offs, pos)[i].1) + pos <= b.len(),
    decreases b.len() - pos,
{
    if pos < b.len() {
        let d = b.subrange(pos as int, b.len() as int);
        lemma_parse_entry_span(d);
        lemma_decoded_size(d);
        if let Ok(Some((v, used))) = parse_entry_spec(d) {
            lemma_listing_bounds(b, offs, pos + used);
            let rest = listing_from(b, offs, pos + used);
            let l = listing_from(b, offs, pos);
            match key_at(offs, pos) {
                Some(k0) => {
                    assert(l == seq![(k0, v)] + rest);
                    assert forall|i: int| 0 <= i < l.len() implies offs.contains_key((#[trigger] l[i]).0)
                        && encoded_size(l[i].1) + pos <= b.len() by {
                        if i > 0 {
                            assert(l[i] == rest[i - 1]);
                        }
                    }
                },
                None => {},
            }
        }
    }
}

/// Reaching an entry from `start` finds it at or after `start`, inside the log.
proof fn lemma_reach_bound(b: Seq<u8>, start: nat, off: nat)
    requires
        reaches_entry(b, start, off),
    ensures
        start <= off < b.len(),
    decreases b.len() - start,
{
    let d = b.subrange(start as int, b.len() as int);
    lemma_parse_entry_span(d);
    if let Ok(Some((v, used))) = parse_entry_spec(d) {
        if start != off {
            lemma_reach_bound(b, start + used, off);
        }
    }
}

/// Appending an entry keeps every entry reachable.
pub proof fn lemma_reach_extend(b: Seq<u8>, e: Seq<u8>, start: nat, off: nat)
    requires
        reaches_entry(b, start, off),
    ensures
        reaches_entry(b + e, start, off),
    decreases b.len() - start,
{
    let d = b.subrange(start as int, b.len() as int);
    let b2 = b + e;
    lemma_parse_entry_span(d);
    assert(b2.subrange(start as int, b2.len() as int) =~= d + e);
    lemma_parse_entry_extend(d, e);
    if let Ok(Some((v, used))) = parse_entry_spec(d) {
        if start != off {
            lemma_reach_extend(b, e, start + used, off);
        }
    }
}

/// An entry that parses still parses, alone, from the bytes it spans.
pub proof fn lemma_parse_entry_prefix(d: Seq<u8>)
    requires
        parse_entry_spec(d) matches Ok(Some(_)),
    ensures
        parse_entry_spec(d) matches Ok(Some((v, u))) ==> parse_entry_spec(d.subrange(0, u as int))
            == parse_entry_spec(d),
{
    lemma_parse_entry_span(d);
    if let Ok(Some((v, u))) = parse_entry_spec(d) {
        let c = d.subrange(0, u as int);
        assert(c.subrange(0, 8) =~= d.subrange(0, 8));
        assert(c.subrange(8, 12) =~= d.subrange(8, 12));
        assert(header_of(c) == header_of(d));
        assert(c.subrange(0, u as int) =~= c);
    }
}

/// A run of bytes that parses as exactly one entry.
pub open spec fn is_one_entry(c: Seq<u8>) -> bool {
    parse_entry_spec(c) matches Ok(Some((_, u))) && u == c.len()
}

/// Appending one entry to a log that parses to its end keeps it parsing to
/// its end, and the appended entry is reachable.
pub proof fn lemma_walk_extend(b: Seq<u8>, c: Seq<u8>, pos: nat)
    requires
        walks_to_end(b, pos),
        is_one_entry(c),
    ensures
        walks_to_end(b + c, pos),
        reaches_entry(b + c, pos, b.len()),
    decreases b.len() - pos,
{
    let b2 = b + c;
    if pos >= b.len() {
        assert(pos == b.len());
        assert(b2.subrange(pos as int, b2.len() as int) =~= c);
        assert(walks_to_end(b2, b2.len()));
        assert(walks_to_end(b2, pos));
    } else {
        let d = b.subrange(pos as int, b.len() as int);
        lemma_parse_entry_span(d);
        assert(b2.subrange(pos as int, b2.len() as int) =~= d + c);
        lemma_parse_entry_extend(d, c);
        if let Ok(Some((x, used))) = parse_entry_spec(d) {
            lemma_walk_extend(b, c, pos + used);
        }
    }
}

/// In a log that parses to its end, an entry reached after appending one
/// more entry is an old entry or the appended one.
pub proof fn lemma_reach_split(b: Seq<u8>, c: Seq<u8>, pos: nat, p: nat)
    requires
        walks_to_end(b, pos),
        is_one_entry(c),
        reaches_entry(b + c, pos, p),
    ensures
        reaches_entry(b, pos, p) || p == b.len(),
    decreases b.len() - pos,
{
    let b2 = b + c;
    if pos >= b.len() {
        assert(pos == b.len());
        assert(b2.subrange(pos as int, b2.len() as int) =~= c);
        if p != pos {
            let u = c.len();
            assert(!reaches_entry(b2, pos + u, p));
        }
    } else {
        let d = b.subrange(pos as int, b.len() as int);
        lemma_parse_entry_span(d);
        assert(b2.subrange(pos as int, b2.len() as int) =~= d + c);
        lemma_parse_entry_extend(d, c);
        if let Ok(Some((x, used))) = parse_entry_spec(d) {
            if p != pos {
                lemma_reach_split(b, c, pos + used, p);
            }
        }
    }
}

/// The empty store's log is intact.
pub proof fn law_log_intact_empty()
    ensures
        log_intact(empty_model()),
{
}

/// Writing keeps the log intact.
pub proof fn law_log_intact_insert(m: StoreModel, k: KeyModel, v: ValueModel)
    requires
        log_intact(m),
        encoded_size(v) <= usize::MAX,
    ensures
        log_intact(insert_model(m, k, v)),
{
    let m2 = insert_model(m, k, v);
    let e = encode_value(v);
    lemma_decode_encode(v, Seq::empty());
    assert(e + Seq::<u8>::empty() =~= e);
    lemma_walk_extend(m.bytes, e, 0);
    assert forall|k2: KeyModel| #[trigger] m2.offsets.contains_key(k2) implies reaches_entry(
        m2.bytes,
        0,
        m2.offsets[k2],
    ) by {
        if k2 != k {
            lemma_reach_extend(m.bytes, e, 0, m.offsets[k2]);
        }
    }
    assert forall|k1: KeyModel, k2: KeyModel|
        #[trigger] m2.offsets.contains_key(k1) && #[trigger] m2.offsets.contains_key(k2) && k1
            != k2 implies m2.offsets[k1] != m2.offsets[k2] by {
        if k1 == k {
            lemma_reach_bound(m.bytes, 0, m.offsets[k2]);
        } else if k2 == k {
            lemma_reach_bound(m.bytes, 0, m.offsets[k1]);
        }
    }
}

/// Deleting keeps the log intact.
pub proof fn law_log_intact_delete(m: StoreModel, k: KeyModel)
    requires
        log_intact(m),
    ensures
        log_intact(delete_model(m, k)),
{
}

/// Iterating from `pos` yields each live key reachable from `pos` exactly
/// once, each with the value that a read of it gives.
proof fn lemma_listing_from(b: Seq<u8>, offs: Map<KeyModel, nat>, pos: nat)
    requires
        forall|k1: KeyModel, k2: KeyModel|
            #[trigger] offs.contains_key(k1) && #[trigger] offs.contains_key(k2) && k1 != k2 ==> offs[k1]
                != offs[k2],
    ensures
        forall|i: int|
            0 <= i < listing_from(b, offs, pos).len() ==> {
                let (k, v) = #[trigger] listing_from(b, offs, pos)[i];
                &&& offs.contains_key(k)
                &&& pos <= offs[k]
                &&& reaches_entry(b, pos, offs[k])
                &&& decode_value(b.subrange(offs[k] as int, b.len() as int)) == Ok::<ValueModel, DecodeError>(v)
            },
        forall|i: int, j: int|
            0 <= i < j < listing_from(b, offs, pos).len() ==> offs[(#[trigger] listing_from(b, offs, pos)[i]).0]
                < offs[(#[trigger] listing_from(b, offs, pos)[j]).0],
        forall|k: KeyModel|
            #[trigger] offs.contains_key(k) && reaches_entry(b, pos, offs[k]) ==> exists|i: int|
                0 <= i < listing_from(b, offs, pos).len() && (#[trigger] listing_from(b, offs, pos)[i]).0
                    == k,
    decreases b.len() - pos,
{
    let l = listing_from(b, offs, pos);
    if pos >= b.len() {
        assert(l.len() == 0);
    } else {
        let d = b.subrange(pos as int, b.len() as int);
        lemma_parse_entry_span(d);
        match parse_entry_spec(d) {
            Ok(Some((v, used))) => {
                lemma_parsed_decodes(d);
                lemma_listing_from(b, offs, pos + used);
                let rest = listing_from(b, offs, pos + used);
                assert forall|i: int| 0 <= i < rest.len() implies reaches_entry(
                    b,
                    pos,
                    offs[(#[trigger] rest[i]).0],
                ) by {}
                match key_at(offs, pos) {
                    Some(k0) => {
                        assert(l == seq![(k0, v)] + rest);
                        assert(offs.contains_key(k0) && offs[k0] == pos);
                        assert forall|i: int| 0 <= i < l.len() implies {
                            let (k, x) = #[trigger] l[i];
                            &&& offs.contains_key(k)
                            &&& pos <= offs[k]
                            &&& reaches_entry(b, pos, offs[k])
                            &&& decode_value(b.subrange(offs[k] as int, b.len() as int)) == Ok::<
                                ValueModel,
                                DecodeError,
                            >(x)
                        } by {
                            if i > 0 {
                                assert(l[i] == rest[i - 1]);
                            }
                        }
                        assert forall|i: int, j: int| 0 <= i < j < l.len() implies offs[(#[trigger] l[i]).0]
                            < offs[(#[trigger] l[j]).0] by {
                            assert(l[j] == rest[j - 1]);
                            if i > 0 {
                                assert(l[i] == rest[i - 1]);
                            } else {
                                assert(offs[rest[j - 1].0] >= pos + used);
                            }
                        }
                        assert forall|k: KeyModel|
                            #[trigger] offs.contains_key(k) && reaches_entry(b, pos, offs[k]) implies exists|
                            i: int,
                        | 0 <= i < l.len() && (#[trigger] l[i]).0 == k by {
                            if offs[k] == pos {
                                assert(l[0].0 == k);
                            } else {
                                let i = choose|i: int| 0 <= i < rest.len() && (#[trigger] rest[i]).0 == k;
                                assert(l[i + 1] == rest[i]);
                            }
                        }
                    },
                    None => {
                        assert(l == rest);
                        assert forall|k: KeyModel|
                            #[trigger] offs.contains_key(k) && reaches_entry(b, pos, offs[k]) implies exists|
                            i: int,
                        | 0 <= i < l.len() && (#[trigger] l[i]).0 == k by {
                            assert(offs[k] != pos);
                        }
                    },
                }
            },
            _ => {
                assert(l.len() == 0);
            },
        }
    }
}

/// A persisted image loads back as exactly its pairs.
pub proof fn law_load_image(p: Seq<(KeyModel, ValueModel)>)
    requires
        pairs_fit(p),
    ensures
        load_pairs(persist_image(p)) == Ok::<Seq<(KeyModel, ValueModel)>, crate::error::KvFailure>(p),
    decreases p.len(),
{
    let b = persist_image(p);
    if p.len() == 0 {
        assert(p =~= Seq::<(KeyModel, ValueModel)>::empty());
    } else {
        let (k, v) = p[0];
        let ek = encode_value(key_as_value(k));
        let ev = encode_value(v);
        let r = persist_image(p.drop_first());
        assert(pair_fits(p[0]));
        assert forall|i: int| 0 <= i < p.drop_first().len() implies #[trigger] pair_fits(p.drop_first()[i]) by {
            assert(p.drop_first()[i] == p[i + 1]);
        }
        lemma_encoded_size(key_as_value(k));
        lemma_encoded_size(v);
        assert(b =~= ek + (ev + r));
        lemma_decode_encode(key_as_value(k), ev + r);
        assert(parse_entry_spec(b) == Ok::<Option<(ValueModel, nat)>, DecodeError>(
            Some((key_as_value(k), ek.len())),
        ));
        let b2 = b.subrange(ek.len() as int, b.len() as int);
        assert(b2 =~= ev + r);
        lemma_decode_encode(v, r);
        assert(parse_entry_spec(b2) == Ok::<Option<(ValueModel, nat)>, DecodeError>(
            Some((v, ev.len())),
        ));
        assert(b2.subrange(ev.len() as int, b2.len() as int) =~= r);
        law_load_image(p.drop_first());
        assert(b.len() > 0);
        assert(b2.len() > 0);
        assert(value_as_key(key_as_value(k)) == Some(k));
        assert(value_as_key(key_as_value(k)) == Some(k));
        assert(load_pairs(b2.subrange(ev.len() as int, b2.len() as int)) == Ok::<
            Seq<(KeyModel, ValueModel)>,
            crate::error::KvFailure,
        >(p.drop_first()));
        assert(load_pairs(b) == Ok::<Seq<(KeyModel, ValueModel)>, crate::error::KvFailure>(
            seq![(k, v)] + p.drop_first(),
        ));
        assert(seq![(k, v)] + p.drop_first() =~= p);
    }
}

/// No two keys of the map share an offset.
pub open spec fn offsets_distinct(offs: Map<KeyModel, nat>) -> bool {
    forall|k1: KeyModel, k2: KeyModel|
        #[trigger] offs.contains_key(k1) && #[trigger] offs.contains_key(k2) && k1 != k2 ==> offs[k1] != offs[k2]
}

/// Pointing a new key at a fresh offset `n` leaves the key found at every
/// other offset as it was, and finds the new key at `n`.
proof fn lemma_key_at_insert(offs: Map<KeyModel, nat>, k: KeyModel, n: nat, p: nat)
    requires
        !offs.contains_key(k),
        offsets_distinct(offs),
        forall|k2: KeyModel| #[trigger] offs.contains_key(k2) ==> offs[k2] != n,
    ensures
        p != n ==> key_at(offs.insert(k, n), p) == key_at(offs, p),
        key_at(offs.insert(k, n), n) == Some(k),
{
    let o2 = offs.insert(k, n);
    if p != n {
        if exists|k2: KeyModel| #[trigger] offs.contains_key(k2) && offs[k2] == p {
            let w = choose|k2: KeyModel| #[trigger] offs.contains_key(k2) && offs[k2] == p;
            assert(o2.contains_key(w) && o2[w] == p);
            let c1 = choose|k2: KeyModel| #[trigger] o2.contains_key(k2) && o2[k2] == p;
            assert(c1 != k);
            assert(offs.contains_key(c1) && offs[c1] == p);
        } else {
            assert forall|k2: KeyModel| #[trigger] o2.contains_key(k2) implies o2[k2] != p by {
                if k2 != k {
                    assert(offs.contains_key(k2));
                }
            }
        }
    }
    assert(o2.contains_key(k) && o2[k] == n);
    let c = choose|k2: KeyModel| #[trigger] o2.contains_key(k2) && o2[k2] == n;
    if c != k {
        assert(offs.contains_key(c));
    }
}

/// Appending the entry of a value for a new key to a log that parses to its
/// end adds that key and value at the end of what iteration yields.
proof fn lemma_listing_from_append(
    b: Seq<u8>,
    c: Seq<u8>,
    offs: Map<KeyModel, nat>,
    k: KeyModel,
    v: ValueModel,
    pos: nat,
)
    requires
        pos <= b.len(),
        walks_to_end(b, pos),
        parse_entry_spec(c) == Ok::<Option<(ValueModel, nat)>, DecodeError>(Some((v, c.len()))),
        !offs.contains_key(k),
        offsets_distinct(offs),
        forall|k2: KeyModel| #[trigger] offs.contains_key(k2) ==> offs[k2] < b.len(),
    ensures
        listing_from(b + c, offs.insert(k, b.len()), pos) == listing_from(b, offs, pos).push((k, v)),
    decreases b.len() - pos,
{
    let b2 = b + c;
    let o2 = offs.insert(k, b.len());
    lemma_parse_entry_span(c);
    lemma_key_at_insert(offs, k, b.len(), pos);
    if pos >= b.len() {
        assert(b2.subrange(pos as int, b2.len() as int) =~= c);
        assert(listing_from(b2, o2, pos + c.len()) =~= Seq::<(KeyModel, ValueModel)>::empty());
        assert(listing_from(b2, o2, pos) =~= seq![(k, v)]);
        assert(listing_from(b, offs, pos) =~= Seq::<(KeyModel, ValueModel)>::empty());
    } else {
        let d = b.subrange(pos as int, b.len() as int);
        lemma_parse_entry_span(d);
        assert(b2.subrange(pos as int, b2.len() as int) =~= d + c);
        lemma_parse_entry_extend(d, c);
        if let Ok(Some((x, used))) = parse_entry_spec(d) {
            lemma_listing_from_append(b, c, offs, k, v, pos + used);
            let rest = listing_from(b, offs, pos + used);
            match key_at(offs, pos) {
                Some(k0) => {
                    assert(seq![(k0, x)] + rest.push((k, v)) =~= (seq![(k0, x)] + rest).push((k, v)));
                },
                None => {},
            }
        }
    }
}

/// Writing a new key to an intact log adds it, with its value, at the end of
/// what iteration yields.
proof fn lemma_listing_insert(m: StoreModel, k: KeyModel, v: ValueModel)
    requires
        log_intact(m),
        !m.offsets.contains_key(k),
        encoded_size(v) <= usize::MAX,
    ensures
        listing(insert_model(m, k, v)) == listing(m).push((k, v)),
{
    let e = encode_value(v);
    lemma_decode_encode(v, Seq::empty());
    assert(e + Seq::<u8>::empty() =~= e);
    assert forall|k2: KeyModel| #[trigger] m.offsets.contains_key(k2) implies m.offsets[k2] < m.bytes.len() by {
        lemma_reach_bound(m.bytes, 0, m.offsets[k2]);
    }
    lemma_listing_from_append(m.bytes, e, m.offsets, k, v, 0);
}

/// The pairs without those under key `k`, in their order.
pub open spec fn without_key(l: Seq<(KeyModel, ValueModel)>, k: KeyModel) -> Seq<(KeyModel, ValueModel)>
    decreases l.len(),
{
    if l.len() == 0 {
        l
    } else if l[0].0 == k {
        without_key(l.drop_first(), k)
    } else {
        seq![l[0]] + without_key(l.drop_first(), k)
    }
}

/// Pointing a key, live or not, at a fresh offset `n`: at its old offset no
/// key is found any more, and every other offset finds what it found.
proof fn lemma_key_at_replace(offs: Map<KeyModel, nat>, k: KeyModel, n: nat, p: nat)
    requires
        offsets_distinct(offs),
        forall|k2: KeyModel| #[trigger] offs.contains_key(k2) ==> offs[k2] != n,
        p != n,
    ensures
        key_at(offs.insert(k, n), p) == if key_at(offs, p) == Some(k) {
            None::<KeyModel>
        } else {
            key_at(offs, p)
        },
{
    let o2 = offs.insert(k, n);
    if exists|k2: KeyModel| #[trigger] offs.contains_key(k2) && offs[k2] == p {
        let w = choose|k2: KeyModel| #[trigger] offs.contains_key(k2) && offs[k2] == p;
        if w == k {
            assert forall|k2: KeyModel| #[trigger] o2.contains_key(k2) implies o2[k2] != p by {
                if k2 != k {
                    assert(offs.contains_key(k2));
                }
            }
        } else {
            assert(o2.contains_key(w) && o2[w] == p);
            let c1 = choose|k2: KeyModel| #[trigger] o2.contains_key(k2) && o2[k2] == p;
            assert(c1 != k);
            assert(offs.contains_key(c1) && offs[c1] == p);
        }
    } else {
        assert forall|k2: KeyModel| #[trigger] o2.contains_key(k2) implies o2[k2] != p by {
            if k2 != k {
                assert(offs.contains_key(k2));
            }
        }
    }
}

/// Appending the entry of a value for a key, live or not, to a log that
/// parses to its end drops the key's old pair from what iteration yields and
/// adds the new pair at the end.
proof fn lemma_listing_from_overwrite(
    b: Seq<u8>,
    c: Seq<u8>,
    offs: Map<KeyModel, nat>,
    k: KeyModel,
    v: ValueModel,
    pos: nat,
)
    requires
        pos <= b.len(),
        walks_to_end(b, pos),
        parse_entry_spec(c) == Ok::<Option<(ValueModel, nat)>, DecodeError>(Some((v, c.len()))),
        offsets_distinct(offs),
        forall|k2: KeyModel| #[trigger] offs.contains_key(k2) ==> offs[k2] < b.len(),
    ensures
        listing_from(b + c, offs.insert(k, b.len()), pos) == without_key(listing_from(b, offs, pos), k).push(
            (k, v),
        ),
    decreases b.len() - pos,
{
    let b2 = b + c;
    let o2 = offs.insert(k, b.len());
    lemma_parse_entry_span(c);
    if pos >= b.len() {
        assert(o2.contains_key(k) && o2[k] == b.len());
        let w = choose|k2: KeyModel| #[trigger] o2.contains_key(k2) && o2[k2] == b.len();
        if w != k {
            assert(offs.contains_key(w));
        }
        assert(b2.subrange(pos as int, b2.len() as int) =~= c);
        assert(listing_from(b2, o2, pos + c.len()) =~= Seq::<(KeyModel, ValueModel)>::empty());
        assert(listing_from(b2, o2, pos) =~= seq![(k, v)]);
        assert(listing_from(b, offs, pos) =~= Seq::<(KeyModel, ValueModel)>::empty());
    } else {
        let d = b.subrange(pos as int, b.len() as int);
        lemma_parse_entry_span(d);
        assert(b2.subrange(pos as int, b2.len() as int) =~= d + c);
        lemma_parse_entry_extend(d, c);
        lemma_key_at_replace(offs, k, b.len(), pos);
        if let Ok(Some((x, used))) = parse_entry_spec(d) {
            lemma_listing_from_overwrite(b, c, offs, k, v, pos + used);
            let rest = listing_from(b, offs, pos + used);
            match key_at(offs, pos) {
                Some(k0) => {
                    let l = seq![(k0, x)] + rest;
                    assert(l.drop_first() =~= rest);
                    if k0 != k {
                        assert(seq![(k0, x)] + without_key(rest, k).push((k, v)) =~= (seq![(k0, x)]
                            + without_key(rest, k)).push((k, v)));
                    }
                },
                None => {},
            }
        }
    }
}

/// Writing a key, live or not, to an intact log drops its old pair from
/// what iteration yields and adds the new pair at the end.
pub proof fn lemma_listing_overwrite(m: StoreModel, k: KeyModel, v: ValueModel)
    requires
        log_intact(m),
        encoded_size(v) <= usize::MAX,
    ensures
        listing(insert_model(m, k, v)) == without_key(listing(m), k).push((k, v)),
{
    let e = encode_value(v);
    lemma_decode_encode(v, Seq::empty());
    assert(e + Seq::<u8>::empty() =~= e);
    assert forall|k2: KeyModel| #[trigger] m.offsets.contains_key(k2) implies m.offsets[k2] < m.bytes.len() by {
        lemma_reach_bound(m.bytes, 0, m.offsets[k2]);
    }
    lemma_listing_from_overwrite(m.bytes, e, m.offsets, k, v, 0);
}

/// Replaying pairs with distinct keys gives an intact log that iterates over
/// exactly those pairs, in their order.
proof fn lemma_listing_replay(p: Seq<(KeyModel, ValueModel)>)
    requires
        keys_distinct(p),
        forall|i: int| 0 <= i < p.len() ==> encoded_size(#[trigger] p[i].1) <= usize::MAX,
    ensures
        listing(replay(p)) == p,
        log_intact(replay(p)),
    decreases p.len(),
{
    if p.len() == 0 {
        assert(listing(replay(p)) =~= Seq::<(KeyModel, ValueModel)>::empty());
    } else {
        let q = p.drop_last();
        let (k, v) = p.last();
        assert forall|i: int, j: int| 0 <= i < j < q.len() implies (#[trigger] q[i]).0 != (#[trigger] q[j]).0 by {
            assert(q[i] == p[i] && q[j] == p[j]);
        }
        assert forall|i: int| 0 <= i < q.len() implies encoded_size(#[trigger] q[i].1) <= usize::MAX by {
            assert(q[i] == p[i]);
        }
        lemma_listing_replay(q);
        lemma_lookup_replay(q);
        assert(encoded_size(p[p.len() - 1].1) <= usize::MAX);
        assert forall|i: int| 0 <= i < q.len() implies (#[trigger] q[i]).0 != k by {
            assert(q[i] == p[i]);
            assert(p[i].0 != p[p.len() - 1].0);
        }
        assert(lookup(replay(q), k) == Ok::<Option<ValueModel>, DecodeError>(None));
        assert(!replay(q).offsets.contains_key(k));
        lemma_listing_insert(replay(q), k, v);
        law_log_intact_insert(replay(q), k, v);
        assert(q.push((k, v)) =~= p);
    }
}

/// Keys of a run of pairs are pairwise different.
pub open spec fn keys_distinct(p: Seq<(KeyModel, ValueModel)>) -> bool {
    forall|i: int, j: int| 0 <= i < j < p.len() ==> (#[trigger] p[i]).0 != (#[trigger] p[j]).0
}

/// Replaying pairs with distinct keys gives a store that reads each key of
/// the pairs as its value, and finds nothing under any other key.
proof fn lemma_lookup_replay(p: Seq<(KeyModel, ValueModel)>)
    requires
        keys_distinct(p),
        forall|i: int| 0 <= i < p.len() ==> encoded_size(#[trigger] p[i].1) <= usize::MAX,
    ensures
        offsets_in_log(replay(p)),
        forall|i: int|
            0 <= i < p.len() ==> lookup(replay(p), (#[trigger] p[i]).0) == Ok::<Option<ValueModel>, DecodeError>(
                Some(p[i].1),
            ),
        forall|k: KeyModel|
            (forall|i: int| 0 <= i < p.len() ==> (#[trigger] p[i]).0 != k) ==> lookup(replay(p), k)
                == Ok::<Option<ValueModel>, DecodeError>(None),
    decreases p.len(),
{
    if p.len() > 0 {
        let q = p.drop_last();
        let (k, v) = p.last();
        assert forall|i: int, j: int| 0 <= i < j < q.len() implies (#[trigger] q[i]).0 != (#[trigger] q[j]).0 by {
            assert(q[i] == p[i] && q[j] == p[j]);
        }
        assert forall|i: int| 0 <= i < q.len() implies encoded_size(#[trigger] q[i].1) <= usize::MAX by {
            assert(q[i] == p[i]);
        }
        lemma_lookup_replay(q);
        let r = replay(q);
        assert(replay(p) == insert_model(r, k, v));
        lemma_encoded_size(v);
        assert(encoded_size(p[p.len() - 1].1) <= usize::MAX);
        law_read_after_insert(r, k, v);
        assert forall|i: int| 0 <= i < p.len() implies lookup(replay(p), (#[trigger] p[i]).0) == Ok::<
            Option<ValueModel>,
            DecodeError,
        >(Some(p[i].1)) by {
            if i < p.len() - 1 {
                assert(q[i] == p[i]);
                assert(p[i].0 != p[p.len() - 1].0);
                law_insert_keeps_other_reads(r, k, v, q[i].0);
            }
        }
        assert forall|k2: KeyModel|
            (forall|i: int| 0 <= i < p.len() ==> (#[trigger] p[i]).0 != k2) implies lookup(replay(p), k2)
            == Ok::<Option<ValueModel>, DecodeError>(None) by {
            assert(p[p.len() - 1].0 != k2);
            assert forall|i: int| 0 <= i < q.len() implies (#[trigger] q[i]).0 != k2 by {
                assert(q[i] == p[i]);
            }
            law_insert_keeps_other_reads(r, k, v, k2);
        }
        assert forall|k2: KeyModel| #[trigger] replay(p).offsets.contains_key(k2) implies replay(p).offsets[k2]
            < replay(p).bytes.len() by {}
    }
}

/// Persisting a store with an intact log and loading the image back gives
/// exactly its live entries, and a store with an intact log that reads every
/// key as the persisted store does and iterates over the same entries in the
/// same order.
pub proof fn law_load_persisted(m: StoreModel)
    requires
        log_intact(m),
        pairs_fit(listing(m)),
    ensures
        load_pairs(persist_image(listing(m))) == Ok::<
            Seq<(KeyModel, ValueModel)>,
            crate::error::KvFailure,
        >(listing(m)),
        forall|k: KeyModel| #[trigger] lookup(replay(listing(m)), k) == lookup(m, k),
        listing(replay(listing(m))) == listing(m),
        log_intact(replay(listing(m))),
{
    let l = listing(m);
    law_load_image(l);
    lemma_listing_from(m.bytes, m.offsets, 0);
    assert forall|i: int| 0 <= i < l.len() implies encoded_size(#[trigger] l[i].1) <= usize::MAX by {
        assert(pair_fits(l[i]));
    }
    lemma_lookup_replay(l);
    lemma_listing_replay(l);
    assert forall|k: KeyModel| #[trigger] lookup(replay(l), k) == lookup(m, k) by {
        if m.offsets.contains_key(k) {
            let i = choose|i: int| 0 <= i < l.len() && (#[trigger] l[i]).0 == k;
            assert(lookup(replay(l), l[i].0) == Ok::<Option<ValueModel>, DecodeError>(Some(l[i].1)));
        } else {
            assert forall|i: int| 0 <= i < l.len() implies (#[trigger] l[i]).0 != k by {}
        }
    }
}

/// Over an intact log, iteration yields every live key exactly once, in
/// the order of their entries in the log, each with the value that a read
/// of it gives.
pub proof fn law_iteration(m: StoreModel)
    requires
        log_intact(m),
    ensures
        forall|i: int|
            0 <= i < listing(m).len() ==> lookup(m, (#[trigger] listing(m)[i]).0) == Ok::<
                Option<ValueModel>,
                DecodeError,
            >(Some(listing(m)[i].1)),
        forall|i: int, j: int|
            0 <= i < j < listing(m).len() ==> m.offsets[(#[trigger] listing(m)[i]).0] < m.offsets[(
            #[trigger] listing(m)[j]).0],
        forall|k: KeyModel|
            #[trigger] m.offsets.contains_key(k) ==> exists|i: int|
                0 <= i < listing(m).len() && (#[trigger] listing(m)[i]).0 == k,
        forall|i: int| 0 <= i < listing(m).len() ==> m.offsets.contains_key((#[trigger] listing(m)[i]).0),
{
    lemma_listing_from(m.bytes, m.offsets, 0);
}

/// Over an intact log every read succeeds: it finds the key's value, or
/// nothing for a key that is not live; and every live key points inside the log.
pub proof fn law_intact_reads_succeed(m: StoreModel)
    requires
        log_intact(m),
    ensures
        forall|k: KeyModel| #[trigger] lookup(m, k) is Ok,
        offsets_in_log(m),
{
    law_iteration(m);
    assert forall|k: KeyModel| #[trigger] m.offsets.contains_key(k) implies m.offsets[k] < m.bytes.len() by {
        lemma_reach_bound(m.bytes, 0, m.offsets[k]);
    }
    assert forall|k: KeyModel| #[trigger] lookup(m, k) is Ok by {
        if m.offsets.contains_key(k) {
            let i = choose|i: int| 0 <= i < listing(m).len() && (#[trigger] listing(m)[i]).0 == k;
            assert(lookup(m, listing(m)[i].0) is Ok);
        }
    }
}

/// The log after every bit of the byte at `off` is flipped, as
/// `test_corrupt_byte` does.
pub open spec fn flip_byte(m: StoreModel, off: int) -> StoreModel {
    StoreModel { bytes: m.bytes.update(off, m.bytes[off] ^ 0xffu8), offsets: m.offsets }
}

/// A damaged payload does not go unnoticed: when a key reads a value and a
/// byte of the payload of its entry is flipped, reading the key reports a
/// checksum mismatch.
pub proof fn law_corrupted_payload_detected(m: StoreModel, k: KeyModel, off: int)
    requires
        offsets_in_log(m),
        lookup(m, k) matches Ok(Some(_)),
        m.offsets[k] + 13 <= off < m.offsets[k] + 8 + header_of(
            m.bytes.subrange(m.offsets[k] as int, m.bytes.len() as int),
        ).length,
    ensures
        lookup(flip_byte(m, off), k) matches Err(DecodeError::ChecksumMismatch { .. }),
{
    let o = m.offsets[k] as int;
    let d = m.bytes.subrange(o, m.bytes.len() as int);
    let m2 = flip_byte(m, off);
    assert(m.offsets.contains_key(k));
    assert(decode_value(d) is Ok);
    assert(d.len() >= 8 + header_of(d).length);
    assert(m2.bytes.subrange(o, m2.bytes.len() as int) =~= d.update(off - o, d[off - o] ^ 0xffu8));
    law_payload_flip_detected(d, off - o);
}

} // verus!
