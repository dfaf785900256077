//! The store: an append-only byte log of encoded values and an index from
//! each live key to the offset of its latest entry.
//!
//! Inserting appends a new entry and points the key at it, so an overwrite
//! leaves the old entry in the log ("latest wins"); deleting drops the key
//! from the index only.

use vstd::prelude::*;
use crate::error::{reports, DecodeError, KvError, KvFailure, KvResult};
use crate::format::{
    decode_value, deserialize_borrowed, encode_value, encoded_size, lemma_decode_encode,
    lemma_decode_prefix, lemma_decoded_size, lemma_encoded_size, lemma_parse_entry_span,
    parse_entry, parse_entry_spec, serialize_value, HEADER_SIZE,
};
use crate::laws::{
    flip_byte, is_one_entry, law_insert_keeps_other_reads, law_load_persisted, law_log_intact_insert,
    law_read_after_insert,
    lemma_listing_bounds, lemma_parse_entry_prefix, lemma_parsed_decodes,
    lemma_reach_extend, lemma_reach_split, lemma_walk_extend, offsets_in_log,
};
use vstd::slice::slice_to_vec;
use crate::values::{BorrowedValue, Key, KeyModel, OwnedValue, ValueModel};

verus! {

/// The mathematical model of a store: its log and the offset of each live key.
pub struct StoreModel {
    pub bytes: Seq<u8>,
    pub offsets: Map<KeyModel, nat>,
}

/// The store with no entry.
pub open spec fn empty_model() -> StoreModel {
    StoreModel { bytes: Seq::empty(), offsets: Map::empty() }
}

/// The store after appending the entry of `v` and pointing `k` at it.
pub open spec fn insert_model(m: StoreModel, k: KeyModel, v: ValueModel) -> StoreModel {
    StoreModel { bytes: m.bytes + encode_value(v), offsets: m.offsets.insert(k, m.bytes.len()) }
}

/// The store after dropping `k` from the index.
pub open spec fn delete_model(m: StoreModel, k: KeyModel) -> StoreModel {
    StoreModel { bytes: m.bytes, offsets: m.offsets.remove(k) }
}

/// What a read of `k` gives: `Ok(None)` for a key that is not live, else the
/// decoded entry that its offset points at.
pub open spec fn lookup(m: StoreModel, k: KeyModel) -> Result<Option<ValueModel>, DecodeError> {
    if m.offsets.contains_key(k) {
        match decode_value(m.bytes.subrange(m.offsets[k] as int, m.bytes.len() as int)) {
            Ok(v) => Ok(Some(v)),
            Err(e) => Err(e),
        }
    } else {
        Ok(None)
    }
}

/// The store's answer to a read is the model's `lookup`.
pub open spec fn answers_lookup<'a>(
    r: KvResult<Option<BorrowedValue<'a>>>,
    l: Result<Option<ValueModel>, DecodeError>,
) -> bool {
    match r {
        Ok(None) => l == Ok::<Option<ValueModel>, DecodeError>(None),
        Ok(Some(v)) => l == Ok::<Option<ValueModel>, DecodeError>(Some(v@)),
        Err(KvError::Corrupted(e)) => l == Err::<Option<ValueModel>, DecodeError>(e),
        Err(_) => false,
    }
}

/// The same, for an owned answer.
pub open spec fn answers_lookup_owned(
    r: KvResult<Option<OwnedValue>>,
    l: Result<Option<ValueModel>, DecodeError>,
) -> bool {
    match r {
        Ok(None) => l == Ok::<Option<ValueModel>, DecodeError>(None),
        Ok(Some(v)) => l == Ok::<Option<ValueModel>, DecodeError>(Some(v@)),
        Err(KvError::Corrupted(e)) => l == Err::<Option<ValueModel>, DecodeError>(e),
        Err(_) => false,
    }
}

/// The live key whose latest entry starts at `pos`, if any.
pub open spec fn key_at(offsets: Map<KeyModel, nat>, pos: nat) -> Option<KeyModel> {
    if exists|k: KeyModel| #[trigger] offsets.contains_key(k) && offsets[k] == pos {
        Some(choose|k: KeyModel| #[trigger] offsets.contains_key(k) && offsets[k] == pos)
    } else {
        None
    }
}

/// What iteration yields from position `pos` of the log on: it parses
/// entry after entry, yields each entry that a live key points at with that
/// key, skips the others, and stops at the end of the log, at an entry that
/// runs past the end, or at an entry that does not decode.
pub open spec fn listing_from(bytes: Seq<u8>, offsets: Map<KeyModel, nat>, pos: nat) -> Seq<
    (KeyModel, ValueModel),
>
    decreases bytes.len() - pos,
{
    if pos >= bytes.len() {
        Seq::empty()
    } else {
        match parse_entry_spec(bytes.subrange(pos as int, bytes.len() as int)) {
            Ok(Some((v, used))) => {
                proof {
                    lemma_parse_entry_span(bytes.subrange(pos as int, bytes.len() as int));
                }
                let rest = listing_from(bytes, offsets, pos + used);
                match key_at(offsets, pos) {
                    Some(k) => seq![(k, v)] + rest,
                    None => rest,
                }
            },
            _ => Seq::empty(),
        }
    }
}

/// What iteration over a store yields: its live entries in log order.
pub open spec fn listing(m: StoreModel) -> Seq<(KeyModel, ValueModel)> {
    listing_from(m.bytes, m.offsets, 0)
}

/// Parsing entry after entry from `pos` ends exactly at the end of the log.
pub open spec fn walks_to_end(b: Seq<u8>, pos: nat) -> bool
    decreases b.len() - pos,
{
    if pos >= b.len() {
        pos == b.len()
    } else {
        match parse_entry_spec(b.subrange(pos as int, b.len() as int)) {
            Ok(Some((v, used))) => {
                proof {
                    lemma_parse_entry_span(b.subrange(pos as int, b.len() as int));
                }
                walks_to_end(b, pos + used)
            },
            _ => false,
        }
    }
}

/// Parsing entry after entry from `start` reaches an entry that starts at `off`.
pub open spec fn reaches_entry(b: Seq<u8>, start: nat, off: nat) -> bool
    decreases b.len() - start,
{
    if start >= b.len() {
        false
    } else {
        match parse_entry_spec(b.subrange(start as int, b.len() as int)) {
            Ok(Some((v, used))) => {
                proof {
                    lemma_parse_entry_span(b.subrange(start as int, b.len() as int));
                }
                start == off || reaches_entry(b, start + used, off)
            },
            _ => false,
        }
    }
}

/// A log that the store's operations built: it parses entry after entry to
/// its end, every live key points at one of those entries, and no two live
/// keys point at the same entry.
pub open spec fn log_intact(m: StoreModel) -> bool {
    &&& walks_to_end(m.bytes, 0)
    &&& forall|k: KeyModel| #[trigger] m.offsets.contains_key(k) ==> reaches_entry(m.bytes, 0, m.offsets[k])
    &&& forall|k1: KeyModel, k2: KeyModel|
        #[trigger] m.offsets.contains_key(k1) && #[trigger] m.offsets.contains_key(k2) && k1 != k2
            ==> m.offsets[k1] != m.offsets[k2]
}

/// The entry of every live key parses.
pub open spec fn all_entries_parse(m: StoreModel) -> bool {
    forall|k: KeyModel|
        #[trigger] m.offsets.contains_key(k) ==> parse_entry_spec(
            m.bytes.subrange(m.offsets[k] as int, m.bytes.len() as int),
        ) matches Ok(Some(_))
}

/// `e` is what compaction reports on reaching the live key `k` whose entry
/// does not parse: the decode error, or `UnexpectedEof` for an entry that
/// runs past the end of the log.
pub open spec fn compaction_failure(m: StoreModel, k: KeyModel, e: KvError) -> bool {
    &&& m.offsets.contains_key(k)
    &&& match parse_entry_spec(m.bytes.subrange(m.offsets[k] as int, m.bytes.len() as int)) {
        Err(d) => e is Corrupted && e->Corrupted_0 == d,
        Ok(None) => e is UnexpectedEof,
        Ok(Some(_)) => false,
    }
}

/// Every entry of the log is the latest entry of a live key.
pub open spec fn only_live_entries(m: StoreModel) -> bool {
    forall|p: nat|
        #[trigger] reaches_entry(m.bytes, 0, p) ==> exists|k: KeyModel|
            #[trigger] m.offsets.contains_key(k) && m.offsets[k] == p
}

/// The value under which a key is written in a persisted image.
pub open spec fn key_as_value(k: KeyModel) -> ValueModel {
    match k {
        KeyModel::Text(s) => ValueModel::Text(s),
        KeyModel::Integer(i) => ValueModel::Integer(i),
    }
}

/// The key that a value read from an image names: only text and integer
/// values name keys.
pub open spec fn value_as_key(v: ValueModel) -> Option<KeyModel> {
    match v {
        ValueModel::Text(s) => Some(KeyModel::Text(s)),
        ValueModel::Integer(i) => Some(KeyModel::Integer(i)),
        _ => None,
    }
}

/// A key whose entry, written as a value, fits in memory.
pub open spec fn key_fits(k: KeyModel) -> bool {
    encoded_size(key_as_value(k)) <= usize::MAX
}

/// A key/value pair whose key and value both have an entry that fits in memory.
pub open spec fn pair_fits(p: (KeyModel, ValueModel)) -> bool {
    key_fits(p.0) && encoded_size(p.1) <= usize::MAX
}

/// Every pair of the run fits in memory.
pub open spec fn pairs_fit(ps: Seq<(KeyModel, ValueModel)>) -> bool {
    forall|i: int| 0 <= i < ps.len() ==> #[trigger] pair_fits(ps[i])
}

/// The persisted image of key/value pairs: for each pair in turn, the entry
/// of its key followed by the entry of its value.
pub open spec fn persist_image(pairs: Seq<(KeyModel, ValueModel)>) -> Seq<u8>
    decreases pairs.len(),
{
    if pairs.len() == 0 {
        Seq::empty()
    } else {
        encode_value(key_as_value(pairs[0].0)) + encode_value(pairs[0].1) + persist_image(
            pairs.drop_first(),
        )
    }
}

/// Why an image that ends inside an entry is corrupted: the header itself is
/// incomplete, or the entry's length field reaches past the end.
pub open spec fn truncation(b: Seq<u8>) -> DecodeError {
    if b.len() < 13 {
        DecodeError::SliceTooShortForHeader
    } else {
        DecodeError::EntryTruncated
    }
}

/// The key/value pairs of an image, in order, or why it does not load: an
/// entry that does not decode or that the image cuts short (`Corrupted`), an
/// image that ends right after a key (`UnexpectedEof`), or a key entry that is
/// neither text nor integer.
pub open spec fn load_pairs(b: Seq<u8>) -> Result<Seq<(KeyModel, ValueModel)>, KvFailure>
    decreases b.len(),
{
    if b.len() == 0 {
        Ok(Seq::empty())
    } else {
        match parse_entry_spec(b) {
            Err(e) => Err(KvFailure::Corrupted(e)),
            Ok(None) => Err(KvFailure::Corrupted(truncation(b))),
            Ok(Some((kv, ku))) => {
                proof {
                    lemma_parse_entry_span(b);
                }
                let b2 = b.subrange(ku as int, b.len() as int);
                if b2.len() == 0 {
                    Err(KvFailure::UnexpectedEof)
                } else {
                    match parse_entry_spec(b2) {
                        Err(e) => Err(KvFailure::Corrupted(e)),
                        Ok(None) => Err(KvFailure::Corrupted(truncation(b2))),
                        Ok(Some((vv, vu))) => {
                            proof {
                                lemma_parse_entry_span(b2);
                            }
                            match value_as_key(kv) {
                                None => Err(KvFailure::InvalidKeyType),
                                Some(k) => match load_pairs(b2.subrange(vu as int, b2.len() as int)) {
                                    Ok(rest) => Ok(seq![(k, vv)] + rest),
                                    Err(f) => Err(f),
                                },
                            }
                        },
                    }
                }
            },
        }
    }
}

/// The store that inserting the pairs in order into an empty store builds.
pub open spec fn replay(pairs: Seq<(KeyModel, ValueModel)>) -> StoreModel
    decreases pairs.len(),
{
    if pairs.len() == 0 {
        empty_model()
    } else {
        insert_model(replay(pairs.drop_last()), pairs.last().0, pairs.last().1)
    }
}

/// `acc` followed by the outcome of loading the rest.
pub open spec fn prepend_pairs(
    acc: Seq<(KeyModel, ValueModel)>,
    r: Result<Seq<(KeyModel, ValueModel)>, KvFailure>,
) -> Result<Seq<(KeyModel, ValueModel)>, KvFailure> {
    match r {
        Ok(rest) => Ok(acc + rest),
        Err(f) => Err(f),
    }
}

/// The image of pairs followed by one more pair.
pub proof fn lemma_persist_image_push(p: Seq<(KeyModel, ValueModel)>, x: (KeyModel, ValueModel))
    ensures
        persist_image(p.push(x)) == persist_image(p) + encode_value(key_as_value(x.0)) + encode_value(x.1),
    decreases p.len(),
{
    if p.len() == 0 {
        let q = p.push(x);
        assert(q.drop_first() =~= Seq::<(KeyModel, ValueModel)>::empty());
        assert(q[0] == x);
        assert(persist_image(q.drop_first()) =~= Seq::<u8>::empty());
        assert(persist_image(p) =~= Seq::<u8>::empty());
        assert(persist_image(q) =~= persist_image(p) + encode_value(key_as_value(x.0)) + encode_value(x.1));
    } else {
        lemma_persist_image_push(p.drop_first(), x);
        assert(p.push(x).drop_first() =~= p.drop_first().push(x));
        assert(persist_image(p.push(x)) =~= persist_image(p) + encode_value(key_as_value(x.0))
            + encode_value(x.1));
    }
}

/// The image of two runs of pairs is the image of the first, then of the second.
pub proof fn lemma_persist_image_concat(a: Seq<(KeyModel, ValueModel)>, b: Seq<(KeyModel, ValueModel)>)
    ensures
        persist_image(a + b) == persist_image(a) + persist_image(b),
    decreases a.len(),
{
    if a.len() == 0 {
        assert(a + b =~= b);
        assert(persist_image(a) + persist_image(b) =~= persist_image(b));
    } else {
        lemma_persist_image_concat(a.drop_first(), b);
        assert((a + b).drop_first() =~= a.drop_first() + b);
        assert(persist_image(a + b) =~= persist_image(a) + persist_image(b));
    }
}

/// One index slot: a live key and the offset of its latest entry.
pub struct IndexEntry {
    key: Key,
    offset: usize,
}

impl IndexEntry {
    pub closed spec fn key_model(self) -> KeyModel {
        self.key@
    }

    pub closed spec fn offset_model(self) -> nat {
        self.offset as nat
    }
}

/// The index vector and the offset map agree: every slot is in the map,
/// every key of the map has a slot, no key has two slots, and no two keys
/// share an offset.
pub open spec fn index_agrees(idx: Seq<IndexEntry>, m: Map<KeyModel, nat>) -> bool {
    &&& forall|i: int|
        0 <= i < idx.len() ==> #[trigger] m.contains_key(idx[i].key_model()) && m[idx[i].key_model()]
            == idx[i].offset_model()
    &&& forall|k: KeyModel| #[trigger]
        m.contains_key(k) ==> exists|i: int| 0 <= i < idx.len() && #[trigger] idx[i].key_model() == k
    &&& forall|i: int, j: int|
        0 <= i < j < idx.len() ==> #[trigger] idx[i].key_model() != #[trigger] idx[j].key_model()
    &&& forall|k1: KeyModel, k2: KeyModel|
        #[trigger] m.contains_key(k1) && #[trigger] m.contains_key(k2) && k1 != k2 ==> m[k1] != m[k2]
}

/// The store.
pub struct KvStore {
    data: Vec<u8>,
    index: Vec<IndexEntry>,
    offsets: Ghost<Map<KeyModel, nat>>,
}

impl View for KvStore {
    type V = StoreModel;

    closed spec fn view(&self) -> StoreModel {
        StoreModel { bytes: self.data@, offsets: self.offsets@ }
    }
}

/// The decode error of an entry that the data cuts short.
fn truncation_error(rest: &[u8]) -> (e: DecodeError)
    ensures
        e == truncation(rest@),
{
    if rest.len() < HEADER_SIZE {
        DecodeError::SliceTooShortForHeader
    } else {
        DecodeError::EntryTruncated
    }
}

/// A copy of a key.
fn copy_key(k: &Key) -> (r: Key)
    ensures
        r@ == k@,
{
    match k {
        Key::Text(s) => Key::Text(s.clone()),
        Key::Integer(i) => Key::Integer(*i),
    }
}

/// Tests whether two keys are equal.
fn same_key(a: &Key, b: &Key) -> (r: bool)
    ensures
        r == (a@ == b@),
{
    match (a, b) {
        (Key::Text(x), Key::Text(y)) => *x == *y,
        (Key::Integer(x), Key::Integer(y)) => *x == *y,
        _ => false,
    }
}

impl KvStore {
    /// The store's validity: the index agrees with the offset map, and every
    /// offset lies inside the log.
    pub closed spec fn wf(&self) -> bool {
        &&& index_agrees(self.index@, self.offsets@)
        &&& forall|k: KeyModel| #[trigger]
            self.offsets@.contains_key(k) ==> self.offsets@[k] < self.data@.len()
                && key_fits(k)
    }

    /// Every live key of a valid store points inside its log.
    pub proof fn lemma_offsets_in_log(&self)
        requires
            self.wf(),
        ensures
            offsets_in_log(self@),
    {
    }

    /// Every live entry of a valid store fits in memory, its key written as a
    /// value and its value alike.
    pub proof fn lemma_listing_fits(&self)
        requires
            self.wf(),
        ensures
            pairs_fit(listing(self@)),
    {
        let l = listing(self@);
        lemma_listing_bounds(self.data@, self.offsets@, 0);
        assert(self.data@.len() == self.data.len());
        assert forall|i: int| 0 <= i < l.len() implies #[trigger] pair_fits(l[i]) by {
            assert(self.offsets@.contains_key(l[i].0));
        }
    }

    /// A store with an intact log survives persisting: its image loads back
    /// as exactly its live entries, into a store with an intact log that
    /// reads every key as this one does and iterates over the same entries
    /// in the same order.
    pub proof fn law_persisted_store_reloads(&self)
        requires
            self.wf(),
            log_intact(self@),
        ensures
            load_pairs(persist_image(listing(self@))) == Ok::<Seq<(KeyModel, ValueModel)>, KvFailure>(
                listing(self@),
            ),
            forall|k: KeyModel| #[trigger] lookup(replay(listing(self@)), k) == lookup(self@, k),
            listing(replay(listing(self@))) == listing(self@),
            log_intact(replay(listing(self@))),
    {
        self.lemma_listing_fits();
        law_load_persisted(self@);
    }

    /// An empty store.
    pub fn new() -> (s: Self)
        ensures
            s.wf(),
            s@ == empty_model(),
            log_intact(s@),
    {
        KvStore { data: Vec::new(), index: Vec::new(), offsets: Ghost(Map::empty()) }
    }

    /// The slot of `key` in the index, if it is live.
    fn find(&self, key: &Key) -> (r: Option<usize>)
        requires
            self.wf(),
        ensures
            r matches Some(i) ==> i < self.index@.len() && self.index@[i as int].key_model() == key@,
            r is None ==> !self@.offsets.contains_key(key@),
    {
        let mut i: usize = 0;
        while i < self.index.len()
            invariant
                self.wf(),
                i <= self.index@.len(),
                forall|j: int| 0 <= j < i ==> #[trigger] self.index@[j].key_model() != key@,
            decreases self.index@.len() - i,
        {
            if same_key(&self.index[i].key, key) {
                return Some(i);
            }
            i += 1;
        }
        None
    }

    /// Appends the entry of `value` to the log and points `key` at it: a read
    /// of `key` then gives `value`, and every read of another key that
    /// succeeded before gives what it gave.
    pub fn insert(&mut self, key: Key, value: OwnedValue)
        requires
            old(self).wf(),
            key_fits(key@),
            encoded_size(value@) <= usize::MAX,
        ensures
            final(self).wf(),
            final(self)@ == insert_model(old(self)@, key@, value@),
            log_intact(old(self)@) ==> log_intact(final(self)@),
            lookup(final(self)@, key@) == Ok::<Option<ValueModel>, DecodeError>(Some(value@)),
            forall|k: KeyModel|
                k != key@ && (#[trigger] lookup(old(self)@, k)) is Ok ==> lookup(final(self)@, k) == lookup(
                    old(self)@,
                    k,
                ),
    {
        proof {
            if log_intact(self@) {
                law_log_intact_insert(self@, key@, value@);
            }
        }
        let offset = self.data.len();
        proof {
            lemma_decode_encode(value@, Seq::empty());
        }
        serialize_value(&value, &mut self.data);
        let ghost k = key@;
        let ghost old_index = self.index@;
        let ghost new_map = self.offsets@.insert(k, offset as nat);
        let ghost mut slot: int = 0;
        match self.find(&key) {
            Some(i) => {
                proof {
                    slot = i as int;
                }
                self.index.set(i, IndexEntry { key, offset });
                proof {
                    assert forall|j: int| 0 <= j < self.index@.len() && j != i implies
                        #[trigger] self.index@[j].key_model() != k by {
                        if j < i {
                            assert(old_index[j].key_model() != old_index[i as int].key_model());
                        } else {
                            assert(old_index[i as int].key_model() != old_index[j].key_model());
                        }
                    }
                }
            },
            None => {
                proof {
                    slot = self.index@.len() as int;
                }
                self.index.push(IndexEntry { key, offset });
            },
        }
        self.offsets = Ghost(new_map);
        proof {
            let idx = self.index@;
            assert forall|k2: KeyModel| #[trigger] new_map.contains_key(k2) implies exists|j: int|
                0 <= j < idx.len() && #[trigger] idx[j].key_model() == k2 by {
                if k2 != k {
                    let j = choose|j: int| 0 <= j < old_index.len() && #[trigger] old_index[j].key_model() == k2;
                    assert(idx[j].key_model() == k2);
                } else {
                    assert(idx[slot].key_model() == k);
                }
            }
            assert(self@ =~= insert_model(old(self)@, k, value@));
            law_read_after_insert(old(self)@, k, value@);
            assert forall|k2: KeyModel|
                k2 != k && (#[trigger] lookup(old(self)@, k2)) is Ok implies lookup(self@, k2) == lookup(
                    old(self)@,
                    k2,
                ) by {
                law_insert_keeps_other_reads(old(self)@, k, value@, k2);
            }
        }
    }

    /// Reads the value of `key`, borrowing its text or bytes from the log:
    /// `Ok(None)` when the key is not live, and the decode error when its
    /// entry does not decode.
    pub fn get_borrowed(&self, key: &Key) -> (r: KvResult<Option<BorrowedValue<'_>>>)
        requires
            self.wf(),
        ensures
            answers_lookup(r, lookup(self@, key@)),
    {
        match self.find(key) {
            Some(i) => {
                let off = self.index[i].offset;
                let entry = &self.data.as_slice()[off..self.data.len()];
                match deserialize_borrowed(entry) {
                    Ok(value) => Ok(Some(value)),
                    Err(e) => Err(KvError::Corrupted(e)),
                }
            },
            None => Ok(None),
        }
    }

    /// Reads the value of `key` as an owned value.
    pub fn get_owned(&self, key: &Key) -> (r: KvResult<Option<OwnedValue>>)
        requires
            self.wf(),
        ensures
            answers_lookup_owned(r, lookup(self@, key@)),
    {
        match self.get_borrowed(key) {
            Ok(Some(borrowed)) => Ok(Some(borrowed.to_owned())),
            Ok(None) => Ok(None),
            Err(e) => Err(e),
        }
    }

    /// Drops `key` from the index; its entries stay in the log. Tells whether
    /// the key was live.
    pub fn delete(&mut self, key: &Key) -> (removed: bool)
        requires
            old(self).wf(),
        ensures
            final(self).wf(),
            final(self)@ == delete_model(old(self)@, key@),
            log_intact(old(self)@) ==> log_intact(final(self)@),
            removed == old(self)@.offsets.contains_key(key@),
    {
        let ghost k = key@;
        let ghost old_index = self.index@;
        match self.find(key) {
            Some(i) => {
                self.index.remove(i);
                self.offsets = Ghost(self.offsets@.remove(k));
                proof {
                    let idx = self.index@;
                    let m = self.offsets@;
                    assert forall|j: int| 0 <= j < idx.len() implies #[trigger] m.contains_key(
                        idx[j].key_model(),
                    ) && m[idx[j].key_model()] == idx[j].offset_model() by {
                        if j < i {
                            assert(idx[j] == old_index[j]);
                            assert(old_index[j].key_model() != old_index[i as int].key_model());
                        } else {
                            assert(idx[j] == old_index[j + 1]);
                            assert(old_index[i as int].key_model() != old_index[j + 1].key_model());
                        }
                    }
                    assert forall|k2: KeyModel| #[trigger] m.contains_key(k2) implies exists|j: int|
                        0 <= j < idx.len() && #[trigger] idx[j].key_model() == k2 by {
                        let j = choose|j: int|
                            0 <= j < old_index.len() && #[trigger] old_index[j].key_model() == k2;
                        if j < i {
                            assert(idx[j].key_model() == k2);
                        } else {
                            assert(j != i);
                            assert(idx[j - 1].key_model() == k2);
                        }
                    }
                    assert forall|a: int, b: int| 0 <= a < b < idx.len() implies #[trigger] idx[a].key_model()
                        != #[trigger] idx[b].key_model() by {
                        let oa = if a < i { a } else { a + 1 };
                        let ob = if b < i { b } else { b + 1 };
                        assert(idx[a] == old_index[oa]);
                        assert(idx[b] == old_index[ob]);
                        assert(old_index[oa].key_model() != old_index[ob].key_model());
                    }
                    assert(self@ =~= delete_model(old(self)@, k));
                }
                true
            },
            None => {
                proof {
                    assert(self@.offsets =~= self@.offsets.remove(k));
                }
                false
            },
        }
    }

    /// The number of bytes in the log.
    pub fn storage_len(&self) -> (n: usize)
        ensures
            n == self@.bytes.len(),
    {
        self.data.len()
    }

    /// The offset in the log of the latest entry of a live `key`.
    pub fn test_get_offset(&self, key: &Key) -> (off: usize)
        requires
            self.wf(),
            self@.offsets.contains_key(key@),
        ensures
            off == self@.offsets[key@],
    {
        let i = self.find(key).unwrap();
        self.index[i].offset
    }

    /// Flips every bit of the log byte at `offset`.
    pub fn test_corrupt_byte(&mut self, offset: usize)
        requires
            old(self).wf(),
            offset < old(self)@.bytes.len(),
        ensures
            final(self).wf(),
            final(self)@ == flip_byte(old(self)@, offset as int),
    {
        let b = self.data[offset];
        self.data.set(offset, b ^ 0xff);
    }

    /// The persisted image of the store: for each live entry in log order,
    /// the entry of its key (as a text or integer value) followed by the
    /// entry of its value. Every such pair fits in memory.
    pub fn persist_to_bytes(&self) -> (image: Vec<u8>)
        requires
            self.wf(),
        ensures
            image@ == persist_image(listing(self@)),
            pairs_fit(listing(self@)),
    {
        proof {
            self.lemma_listing_fits();
        }
        let mut it = self.iter();
        let mut image: Vec<u8> = Vec::new();
        let ghost mut emitted: Seq<(KeyModel, ValueModel)> = Seq::empty();
        proof {
            assert(emitted + it.remaining() =~= listing(self@));
        }
        loop
            invariant
                it.wf(),
                emitted + it.remaining() == listing(self@),
                image@ == persist_image(emitted),
                pairs_fit(listing(self@)),
            decreases it.remaining().len(),
        {
            let ghost before = it.remaining();
            match it.next() {
                Some(entry) => {
                    let key_value = match entry.key {
                        Key::Text(s) => OwnedValue::Text(s.clone()),
                        Key::Integer(i) => OwnedValue::Integer(*i),
                    };
                    let value_owned = entry.value.to_owned();
                    let ghost x = (entry.key@, entry.value@);
                    proof {
                        assert(key_value@ == key_as_value(x.0));
                        lemma_persist_image_push(emitted, x);
                        assert(listing(self@) =~= emitted.push(x) + it.remaining()) by {
                            assert(before =~= seq![x] + it.remaining());
                        }
                        assert(listing(self@)[emitted.len() as int] == x);
                        assert(pair_fits(x));
                    }
                    serialize_value(&key_value, &mut image);
                    serialize_value(&value_owned, &mut image);
                    proof {
                        emitted = emitted.push(x);
                    }
                },
                None => {
                    proof {
                        assert(emitted =~= listing(self@));
                    }
                    return image;
                },
            }
        }
    }

    /// Loads a store from a persisted image: inserts each key/value pair in
    /// order into an empty store. Fails with `Corrupted` on an entry that does
    /// not decode or that the image cuts short (an incomplete header, or a
    /// length field that reaches past the end), `UnexpectedEof` on an image
    /// that ends right after a key, and `InvalidKeyType` on a key entry that
    /// is neither text nor integer.
    pub fn load_from_bytes(bytes: &[u8]) -> (r: KvResult<KvStore>)
        ensures
            match (r, load_pairs(bytes@)) {
                (Ok(store), Ok(pairs)) => store.wf() && store@ == replay(pairs) && log_intact(store@),
                (Err(e), Err(f)) => reports(e, f),
                _ => false,
            },
    {
        let mut store = KvStore::new();
        let mut pos: usize = 0;
        let ghost mut acc: Seq<(KeyModel, ValueModel)> = Seq::empty();
        proof {
            assert(bytes@.subrange(0, bytes@.len() as int) =~= bytes@);
            assert(store@ =~= replay(acc));
            assert(load_pairs(bytes@) == prepend_pairs(acc, load_pairs(bytes@)));
        }
        while pos < bytes.len()
            invariant
                pos <= bytes@.len(),
                store.wf(),
                store@ == replay(acc),
                log_intact(store@),
                load_pairs(bytes@) == prepend_pairs(acc, load_pairs(bytes@.subrange(pos as int, bytes@.len() as int))),
            decreases bytes@.len() - pos,
        {
            let rest = &bytes[pos..bytes.len()];
            let (key_val, used_key) = match parse_entry(rest) {
                Ok(Some(pair)) => pair,
                Ok(None) => return Err(KvError::Corrupted(truncation_error(rest))),
                Err(e) => return Err(KvError::Corrupted(e)),
            };
            proof {
                lemma_parse_entry_span(rest@);
                lemma_decoded_size(rest@);
            }
            pos += used_key;
            if pos >= bytes.len() {
                proof {
                    assert(rest@.subrange(used_key as int, rest@.len() as int).len() == 0);
                }
                return Err(KvError::UnexpectedEof);
            }
            let rest2 = &bytes[pos..bytes.len()];
            proof {
                assert(rest2@ =~= rest@.subrange(used_key as int, rest@.len() as int));
            }
            let (val_val, used_val) = match parse_entry(rest2) {
                Ok(Some(pair)) => pair,
                Ok(None) => return Err(KvError::Corrupted(truncation_error(rest2))),
                Err(e) => return Err(KvError::Corrupted(e)),
            };
            proof {
                lemma_parse_entry_span(rest2@);
                lemma_decoded_size(rest2@);
            }
            pos += used_val;
            let key = match key_val {
                BorrowedValue::Text(s) => Key::Text(s.to_owned()),
                BorrowedValue::Integer(i) => Key::Integer(i),
                BorrowedValue::Bool(_) | BorrowedValue::Blob(_) => {
                    return Err(KvError::InvalidKeyType);
                },
            };
            let owned_val = val_val.to_owned();
            let ghost x = (key@, owned_val@);
            proof {
                assert(key_as_value(key@) == key_val@);
                assert(bytes@.subrange(pos as int, bytes@.len() as int) =~= rest2@.subrange(
                    used_val as int,
                    rest2@.len() as int,
                ));
                let tail = load_pairs(bytes@.subrange(pos as int, bytes@.len() as int));
                assert(load_pairs(rest@) == prepend_pairs(seq![x], tail));
                match tail {
                    Ok(t) => {
                        assert(acc + (seq![x] + t) =~= acc.push(x) + t);
                    },
                    Err(_) => {},
                }
                assert(replay(acc.push(x)).offsets =~= insert_model(replay(acc), x.0, x.1).offsets) by {
                    assert(acc.push(x).drop_last() =~= acc);
                }
            }
            store.insert(key, owned_val);
            proof {
                assert(acc.push(x).drop_last() =~= acc);
                acc = acc.push(x);
            }
        }
        proof {
            assert(bytes@.subrange(pos as int, bytes@.len() as int) =~= Seq::<u8>::empty());
            assert(acc + Seq::<(KeyModel, ValueModel)>::empty() =~= acc);
        }
        Ok(store)
    }

    /// Rebuilds the log from the latest entries of the live keys alone,
    /// dropping overwritten and deleted entries. Every read gives what it
    /// gave before. Fails, changing nothing, when the entry of a live key
    /// does not parse: with its decode error, or `UnexpectedEof` when it runs
    /// past the end of the log.
    pub fn compact(&mut self) -> (r: KvResult<()>)
        requires
            old(self).wf(),
        ensures
            final(self).wf(),
            r is Ok <==> all_entries_parse(old(self)@),
            match r {
                Ok(()) => {
                    &&& forall|k: KeyModel| #[trigger] lookup(final(self)@, k) == lookup(old(self)@, k)
                    &&& final(self)@.offsets.dom() == old(self)@.offsets.dom()
                    &&& log_intact(final(self)@)
                    &&& only_live_entries(final(self)@)
                },
                Err(e) => {
                    &&& final(self)@ == old(self)@
                    &&& exists|k: KeyModel| #[trigger] compaction_failure(old(self)@, k, e)
                },
            },
    {
        let ghost m = self@;
        let mut new_data: Vec<u8> = Vec::new();
        let mut new_index: Vec<IndexEntry> = Vec::new();
        let ghost mut new_map: Map<KeyModel, nat> = Map::empty();
        let mut i: usize = 0;
        proof {
            assert(new_data@ =~= Seq::<u8>::empty());
            assert(walks_to_end(new_data@, 0));
        }
        while i < self.index.len()
            invariant
                self.wf(),
                self@ == m,
                i <= self.index@.len(),
                index_agrees(new_index@, new_map),
                forall|k: KeyModel| #[trigger]
                    new_map.contains_key(k) <==> exists|j: int| 0 <= j < i && #[trigger] self.index@[j].key_model() == k,
                forall|k: KeyModel| #[trigger] new_map.contains_key(k) ==> new_map[k] < new_data@.len(),
                forall|k: KeyModel| #[trigger]
                    new_map.contains_key(k) ==> lookup(StoreModel { bytes: new_data@, offsets: new_map }, k)
                        == lookup(m, k),
                forall|j: int| 0 <= j < i ==> parse_entry_spec(
                    m.bytes.subrange(m.offsets[#[trigger] self.index@[j].key_model()] as int, m.bytes.len() as int),
                ) matches Ok(Some(_)),
                log_intact(StoreModel { bytes: new_data@, offsets: new_map }),
                only_live_entries(StoreModel { bytes: new_data@, offsets: new_map }),
            decreases self.index@.len() - i,
        {
            let offset = self.index[i].offset;
            let ghost k = self.index@[i as int].key_model();
            proof {
                assert(m.offsets.contains_key(k) && m.offsets[k] == offset);
            }
            let slice = &self.data.as_slice()[offset..self.data.len()];
            let used = match parse_entry(slice) {
                Ok(Some((_, u))) => u,
                Ok(None) => {
                    proof {
                        assert(compaction_failure(m, k, KvError::UnexpectedEof));
                    }
                    return Err(KvError::UnexpectedEof);
                },
                Err(e) => {
                    proof {
                        assert(compaction_failure(m, k, KvError::Corrupted(e)));
                    }
                    return Err(KvError::Corrupted(e));
                },
            };
            proof {
                lemma_parse_entry_span(slice@);
                lemma_parse_entry_prefix(slice@);
            }
            let new_offset = new_data.len();
            let ghost before = new_data@;
            let mut chunk = slice_to_vec(&slice[0..used]);
            let ghost c = chunk@;
            new_data.append(&mut chunk);
            let key = copy_key(&self.index[i].key);
            let ghost old_new_map = new_map;
            let ghost old_new_index = new_index@;
            new_index.push(IndexEntry { key, offset: new_offset });
            proof {
                new_map = new_map.insert(k, new_offset as nat);
                let nm = StoreModel { bytes: new_data@, offsets: new_map };
                let om = StoreModel { bytes: before, offsets: old_new_map };
                assert(new_data@ == before + c);
                assert(is_one_entry(c));
                assert(!old_new_map.contains_key(k)) by {
                    if old_new_map.contains_key(k) {
                        let j = choose|j: int| 0 <= j < i && #[trigger] self.index@[j].key_model() == k;
                        assert(self.index@[j].key_model() != self.index@[i as int].key_model());
                    }
                }
                // the index still agrees with the offset map
                let idx = new_index@;
                assert forall|j: int| 0 <= j < idx.len() implies #[trigger] new_map.contains_key(idx[j].key_model())
                    && new_map[idx[j].key_model()] == idx[j].offset_model() by {
                    if j < old_new_index.len() {
                        assert(idx[j] == old_new_index[j]);
                        assert(old_new_map.contains_key(idx[j].key_model()));
                    }
                }
                assert forall|k2: KeyModel| #[trigger] new_map.contains_key(k2) implies exists|j: int|
                    0 <= j < idx.len() && #[trigger] idx[j].key_model() == k2 by {
                    if k2 == k {
                        assert(idx[idx.len() - 1].key_model() == k);
                    } else {
                        let j = choose|j: int| 0 <= j < old_new_index.len() && #[trigger] old_new_index[j].key_model() == k2;
                        assert(idx[j] == old_new_index[j]);
                    }
                }
                assert forall|a: int, b: int| 0 <= a < b < idx.len() implies #[trigger] idx[a].key_model()
                    != #[trigger] idx[b].key_model() by {
                    assert(idx[a] == old_new_index[a]);
                    if b < old_new_index.len() {
                        assert(idx[b] == old_new_index[b]);
                    } else {
                        assert(old_new_map.contains_key(idx[a].key_model()));
                    }
                }
                assert forall|k1: KeyModel, k2: KeyModel|
                    #[trigger] new_map.contains_key(k1) && #[trigger] new_map.contains_key(k2) && k1 != k2 implies
                    new_map[k1] != new_map[k2] by {
                    if k1 != k && k2 != k {
                        assert(old_new_map.contains_key(k1) && old_new_map.contains_key(k2));
                    } else if k1 == k {
                        assert(old_new_map.contains_key(k2));
                    } else {
                        assert(old_new_map.contains_key(k1));
                    }
                }
                assert(index_agrees(new_index@, new_map));
                // the keys compacted so far
                assert forall|k2: KeyModel| #[trigger] new_map.contains_key(k2) <==> exists|j: int|
                    0 <= j < i + 1 && #[trigger] self.index@[j].key_model() == k2 by {
                    if new_map.contains_key(k2) && k2 != k {
                        assert(old_new_map.contains_key(k2));
                    }
                    if exists|j: int| 0 <= j < i + 1 && #[trigger] self.index@[j].key_model() == k2 {
                        if k2 != k {
                            let j = choose|j: int| 0 <= j < i + 1 && #[trigger] self.index@[j].key_model() == k2;
                            assert(j != i);
                            assert(old_new_map.contains_key(k2));
                        }
                    }
                }
                // reads are unchanged
                lemma_parsed_decodes(slice@);
                lemma_parsed_decodes(c);
                assert forall|k2: KeyModel| #[trigger] new_map.contains_key(k2) implies lookup(nm, k2) == lookup(m, k2) by {
                    if k2 == k {
                        assert(nm.bytes.subrange(new_offset as int, nm.bytes.len() as int) =~= c);
                    } else {
                        assert(old_new_map.contains_key(k2));
                        let off2 = old_new_map[k2] as int;
                        let d1 = before.subrange(off2, before.len() as int);
                        let d2 = nm.bytes.subrange(off2, nm.bytes.len() as int);
                        assert(lookup(om, k2) == lookup(m, k2));
                        assert(d2 =~= d1 + c);
                        assert(d2.subrange(0, d1.len() as int) =~= d1);
                        assert(d2.subrange(0, 8) =~= d1.subrange(0, 8));
                        assert(d2.subrange(8, 12) =~= d1.subrange(8, 12));
                        lemma_decode_prefix(d2, d1.len() as int);
                    }
                }
                // the log stays intact, with live entries only
                lemma_walk_extend(before, c, 0);
                assert forall|k2: KeyModel| #[trigger] new_map.contains_key(k2) implies reaches_entry(nm.bytes, 0, new_map[k2]) by {
                    if k2 != k {
                        assert(old_new_map.contains_key(k2));
                        lemma_reach_extend(before, c, 0, old_new_map[k2]);
                    }
                }
                assert(log_intact(nm));
                assert forall|p: nat| #[trigger] reaches_entry(nm.bytes, 0, p) implies exists|k2: KeyModel|
                    #[trigger] new_map.contains_key(k2) && new_map[k2] == p by {
                    lemma_reach_split(before, c, 0, p);
                    if p == before.len() {
                        assert(new_map.contains_key(k) && new_map[k] == p);
                    } else {
                        let k2 = choose|k2: KeyModel| #[trigger] old_new_map.contains_key(k2) && old_new_map[k2] == p;
                        assert(new_map.contains_key(k2) && new_map[k2] == p);
                    }
                }
                assert forall|j: int| 0 <= j < i + 1 implies parse_entry_spec(
                    m.bytes.subrange(m.offsets[#[trigger] self.index@[j].key_model()] as int, m.bytes.len() as int),
                ) matches Ok(Some(_)) by {}
            }
            i += 1;
        }
        proof {
            assert forall|k: KeyModel| #[trigger] m.offsets.contains_key(k) implies parse_entry_spec(
                m.bytes.subrange(m.offsets[k] as int, m.bytes.len() as int),
            ) matches Ok(Some(_)) by {
                let j = choose|j: int| 0 <= j < self.index@.len() && #[trigger] self.index@[j].key_model() == k;
            }
            assert(new_map.dom() =~= m.offsets.dom()) by {
                assert forall|k: KeyModel| new_map.contains_key(k) <==> m.offsets.contains_key(k) by {
                    if m.offsets.contains_key(k) {
                        let j = choose|j: int| 0 <= j < self.index@.len() && #[trigger] self.index@[j].key_model() == k;
                        assert(new_map.contains_key(k));
                    }
                    if new_map.contains_key(k) {
                        let j = choose|j: int| 0 <= j < i && #[trigger] self.index@[j].key_model() == k;
                        assert(m.offsets.contains_key(self.index@[j].key_model()));
                    }
                }
            }
        }
        self.data = new_data;
        self.index = new_index;
        self.offsets = Ghost(new_map);
        proof {
            assert forall|k: KeyModel| #[trigger] lookup(self@, k) == lookup(m, k) by {
                if !m.offsets.contains_key(k) {
                    assert(!new_map.contains_key(k));
                }
            }
        }
        Ok(())
    }

    /// An iterator over the live entries in log order.
    pub fn iter(&self) -> (it: StoreIter<'_>)
        requires
            self.wf(),
        ensures
            it.wf(),
            it.remaining() == listing(self@),
    {
        StoreIter { buf: self.data.as_slice(), pos: 0, index: &self.index, offsets: self.offsets }
    }

    /// The keys of the live entries, in log order.
    pub fn keys(&self) -> (keys: Vec<&Key>)
        requires
            self.wf(),
        ensures
            keys@.len() == listing(self@).len(),
            forall|i: int| 0 <= i < keys@.len() ==> #[trigger] keys@[i]@ == listing(self@)[i].0,
    {
        let mut it = self.iter();
        let mut keys: Vec<&Key> = Vec::new();
        loop
            invariant
                it.wf(),
                keys@.len() + it.remaining().len() == listing(self@).len(),
                forall|i: int| 0 <= i < keys@.len() ==> #[trigger] keys@[i]@ == listing(self@)[i].0,
                forall|i: int|
                    0 <= i < it.remaining().len() ==> #[trigger] it.remaining()[i] == listing(
                        self@,
                    )[keys@.len() + i],
            decreases it.remaining().len(),
        {
            match it.next() {
                Some(entry) => {
                    keys.push(entry.key);
                },
                None => {
                    return keys;
                },
            }
        }
    }

    /// The values of the live entries, in log order.
    pub fn values(&self) -> (values: Vec<BorrowedValue<'_>>)
        requires
            self.wf(),
        ensures
            values@.len() == listing(self@).len(),
            forall|i: int| 0 <= i < values@.len() ==> #[trigger] values@[i]@ == listing(self@)[i].1,
    {
        let mut it = self.iter();
        let mut values: Vec<BorrowedValue<'_>> = Vec::new();
        loop
            invariant
                it.wf(),
                values@.len() + it.remaining().len() == listing(self@).len(),
                forall|i: int| 0 <= i < values@.len() ==> #[trigger] values@[i]@ == listing(self@)[i].1,
                forall|i: int|
                    0 <= i < it.remaining().len() ==> #[trigger] it.remaining()[i] == listing(
                        self@,
                    )[values@.len() + i],
            decreases it.remaining().len(),
        {
            match it.next() {
                Some(entry) => {
                    values.push(entry.value);
                },
                None => {
                    return values;
                },
            }
        }
    }
}

/// An entry yielded by iteration: a live key and its value, both borrowed
/// from the store.
#[derive(Debug, PartialEq)]
pub struct BorrowedEntry<'a> {
    pub key: &'a Key,
    pub value: BorrowedValue<'a>,
}

/// Iteration over the live entries of a store, in log order.
pub struct StoreIter<'a> {
    buf: &'a [u8],
    pos: usize,
    index: &'a Vec<IndexEntry>,
    offsets: Ghost<Map<KeyModel, nat>>,
}

/// The live key whose latest entry starts at `off`, borrowed from the index.
fn key_at_offset<'a>(index: &'a Vec<IndexEntry>, offsets: Ghost<Map<KeyModel, nat>>, off: usize) -> (r:
    Option<&'a Key>)
    requires
        index_agrees(index@, offsets@),
    ensures
        r matches Some(k) ==> key_at(offsets@, off as nat) == Some(k@),
        r is None ==> key_at(offsets@, off as nat) is None,
{
    let mut j: usize = 0;
    while j < index.len()
        invariant
            index_agrees(index@, offsets@),
            j <= index@.len(),
            forall|jj: int| 0 <= jj < j ==> #[trigger] index@[jj].offset_model() != off,
        decreases index@.len() - j,
    {
        if index[j].offset == off {
            let entry: &'a IndexEntry = &index[j];
            proof {
                let k = entry.key_model();
                assert(index@[j as int] == *entry);
                assert(offsets@.contains_key(index@[j as int].key_model()));
                assert(offsets@.contains_key(k) && offsets@[k] == off);
                let c = choose|c: KeyModel| #[trigger] offsets@.contains_key(c) && offsets@[c] == off as nat;
                assert(c == k);
            }
            return Some(&entry.key);
        }
        j += 1;
    }
    proof {
        assert forall|k: KeyModel| #[trigger] offsets@.contains_key(k) implies offsets@[k] != off as nat by {
            let jj = choose|jj: int| 0 <= jj < index@.len() && #[trigger] index@[jj].key_model() == k;
            assert(index@[jj].offset_model() != off);
        }
    }
    None
}

impl<'a> StoreIter<'a> {
    /// The iterator's validity: its index agrees with its offset map.
    pub closed spec fn wf(&self) -> bool {
        &&& index_agrees(self.index@, self.offsets@)
        &&& self.pos <= self.buf@.len()
    }

    /// What the iterator has yet to yield.
    pub closed spec fn remaining(&self) -> Seq<(KeyModel, ValueModel)> {
        listing_from(self.buf@, self.offsets@, self.pos as nat)
    }

    /// The next live entry, or `None` once iteration has stopped; after
    /// `None`, every further call gives `None` again.
    pub fn next(&mut self) -> (r: Option<BorrowedEntry<'a>>)
        requires
            old(self).wf(),
        ensures
            final(self).wf(),
            match r {
                None => old(self).remaining().len() == 0 && final(self).remaining().len() == 0,
                Some(e) => {
                    &&& old(self).remaining().len() > 0
                    &&& (e.key@, e.value@) == old(self).remaining()[0]
                    &&& final(self).remaining() == old(self).remaining().drop_first()
                },
            },
    {
        let buf: &'a [u8] = self.buf;
        let index: &'a Vec<IndexEntry> = self.index;
        loop
            invariant
                self.buf == buf,
                self.index == index,
                self.offsets == old(self).offsets,
                self.wf(),
                self.remaining() == old(self).remaining(),
            decreases buf@.len() - self.pos,
        {
            if self.pos >= buf.len() {
                return None;
            }
            let slice = &buf[self.pos..buf.len()];
            let parsed = match parse_entry(slice) {
                Ok(p) => p,
                Err(_) => return None,
            };
            let (value, used) = match parsed {
                Some(p) => p,
                None => return None,
            };
            proof {
                lemma_parse_entry_span(slice@);
            }
            let current = self.pos;
            self.pos = current + used;
            match key_at_offset(index, self.offsets, current) {
                Some(key) => {
                    let entry = BorrowedEntry { key, value };
                    proof {
                        assert(old(self).remaining() == seq![(key@, value@)] + self.remaining());
                        assert(old(self).remaining().drop_first() =~= self.remaining());
                    }
                    return Some(entry);
                },
                None => {},
            }
        }
    }
}

} // verus!
