//! Notes kept in the store: each note is a blob under the integer key of its
//! id, encoded with `bincode`; the next free id is kept under the text key
//! `__meta_next_id`.

use vstd::prelude::*;
use crate::error::{reports, DecodeError, KvError, KvFailure, KvResult};
use crate::format::encoded_size;
use crate::laws::{
    lemma_listing_overwrite, without_key, law_insert_keeps_other_reads, law_intact_reads_succeed, law_load_persisted, law_log_intact_empty,
    law_log_intact_insert, law_read_after_delete, law_read_after_insert,
};
use crate::store::{
    delete_model, empty_model, insert_model, key_fits, listing, load_pairs, log_intact, lookup,
    pairs_fit, persist_image, replay, KvStore, StoreModel,
};
use vstd::bytes::spec_u64_to_le_bytes;
use vstd::multiset::Multiset;
use vstd::utf8::encode_utf8;
use crate::values::{BorrowedValue, Key, KeyModel, OwnedValue, ValueModel};

verus! {

/// A note.
pub struct Note {
    pub id: u64,
    pub title: String,
    pub body: String,
    pub tags: Vec<String>,
    pub updated_at: u64,
    pub image: Option<Vec<u8>>,
}

/// The model of a note: id, title, body, tags, update time, image.
pub type NoteModel = (u64, Seq<char>, Seq<char>, Seq<Seq<char>>, u64, Option<Seq<u8>>);

/// The model of the tags of a note.
pub open spec fn tags_model(tags: Seq<String>) -> Seq<Seq<char>> {
    tags.map_values(|t: String| t@)
}

/// The model of an optional image.
pub open spec fn image_model(image: Option<Vec<u8>>) -> Option<Seq<u8>> {
    match image {
        Some(v) => Some(v@),
        None => None,
    }
}

impl View for Note {
    type V = NoteModel;

    open spec fn view(&self) -> NoteModel {
        (self.id, self.title@, self.body@, tags_model(self.tags@), self.updated_at, image_model(self.image))
    }
}

/// bincode's encoding of a text: its UTF-8 length as a little-endian `u64`,
/// then its UTF-8 bytes.
pub open spec fn bincode_str(s: Seq<char>) -> Seq<u8> {
    spec_u64_to_le_bytes(encode_utf8(s).len() as u64) + encode_utf8(s)
}

/// bincode's encoding of the texts of a sequence, one after another.
pub open spec fn bincode_strs(ts: Seq<Seq<char>>) -> Seq<u8>
    decreases ts.len(),
{
    if ts.len() == 0 {
        Seq::empty()
    } else {
        bincode_str(ts[0]) + bincode_strs(ts.drop_first())
    }
}

/// What `bincode::serialize` gives for a note, written as the tuple of its
/// fields in order: the id and the time as little-endian `u64`s, the title
/// and body as texts, the tags as their number (a `u64`) and then each text,
/// and the image as a 0 byte when there is none, else a 1 byte, its length
/// (a `u64`) and its bytes. Opaque: proofs that need the layout reveal it.
#[verifier::opaque]
pub open spec fn bincode_note_bytes(note: NoteModel) -> Seq<u8> {
    spec_u64_to_le_bytes(note.0) + bincode_str(note.1) + bincode_str(note.2) + spec_u64_to_le_bytes(
        note.3.len() as u64,
    ) + bincode_strs(note.3) + spec_u64_to_le_bytes(note.4) + match note.5 {
        None => seq![0u8],
        Some(b) => seq![1u8] + spec_u64_to_le_bytes(b.len() as u64) + b,
    }
}

/// What `bincode::deserialize` gives for bytes read as a note, `None` when it
/// fails.
pub uninterp spec fn bincode_note_decode(bytes: Seq<u8>) -> Option<NoteModel>;

/// Calls `bincode::serialize` on the tuple of the note's fields, which
/// bincode encodes exactly as the note itself. Claimed: the result is the
/// layout `bincode_note_bytes` spells out (bincode's fixed-width,
/// little-endian encoding with `u64` lengths); `bincode::deserialize` gives
/// the note back from it (the round trip that bincode documents); and, being
/// a `Vec<u8>`, it holds at most `isize::MAX` bytes, as std documents for
/// every vector. The call cannot fail for these field types, so the
/// `expect` never fires.
#[verifier::external_body]
pub fn note_to_bytes(note: &Note) -> (bytes: Vec<u8>)
    ensures
        bytes@ == bincode_note_bytes(note@),
        bincode_note_decode(bytes@) == Some(note@),
        bytes@.len() <= isize::MAX,
{
    bincode::serialize(&(note.id, &note.title, &note.body, &note.tags, note.updated_at, &note.image))
        .expect("Failed to serialize note")
}

/// Calls `bincode::deserialize` for the tuple of a note's fields. Claimed:
/// it succeeds exactly when `bincode_note_decode` names a note, and then
/// gives that note.
#[verifier::external_body]
fn bincode_decode_note(bytes: &[u8]) -> (note: Option<Note>)
    ensures
        match note {
            Some(n) => bincode_note_decode(bytes@) == Some(n@),
            None => bincode_note_decode(bytes@) is None,
        },
{
    match bincode::deserialize::<(u64, String, String, Vec<String>, u64, Option<Vec<u8>>)>(bytes) {
        Ok((id, title, body, tags, updated_at, image)) => Some(
            Note { id, title, body, tags, updated_at, image },
        ),
        Err(_) => None,
    }
}

/// Calls `std::time::SystemTime::now` and `duration_since(UNIX_EPOCH)`, and
/// gives the whole seconds since the Unix epoch, or `None` when the clock is
/// set before the epoch (where `duration_since` fails). Nothing is claimed of
/// the value: it is the clock's.
#[verifier::external_body]
pub fn now_ts() -> Option<u64> {
    match std::time::SystemTime::now().duration_since(std::time::UNIX_EPOCH) {
        Ok(d) => Some(d.as_secs()),
        Err(_) => None,
    }
}

/// The time stamp that `create` and `update` write: the clock's seconds since
/// the Unix epoch, or 0 when the clock is set before the epoch.
fn current_time() -> u64 {
    match now_ts() {
        Some(t) => t,
        None => 0,
    }
}

/// Decodes a note blob; a blob that is not a note is `Corrupted(NoteDecodeFailed)`.
pub fn note_from_bytes(bytes: &[u8]) -> (r: Result<Note, KvError>)
    ensures
        match r {
            Ok(n) => bincode_note_decode(bytes@) == Some(n@),
            Err(e) => bincode_note_decode(bytes@) is None && e is Corrupted && e->Corrupted_0
                == DecodeError::NoteDecodeFailed,
        },
{
    match bincode_decode_note(bytes) {
        Some(n) => Ok(n),
        None => Err(KvError::Corrupted(DecodeError::NoteDecodeFailed)),
    }
}

/// The key under which the note `id` is stored.
pub open spec fn note_key(id: u64) -> KeyModel {
    KeyModel::Integer(id as i64)
}

/// The key under which the next free id is stored.
pub open spec fn meta_key() -> KeyModel {
    KeyModel::Text("__meta_next_id"@)
}

/// The meta key fits in memory: its text is fourteen ASCII characters.
proof fn lemma_meta_key_fits()
    ensures
        key_fits(meta_key()),
{
    reveal_strlit("__meta_next_id");
    assert(vstd::utf8::is_ascii_chars("__meta_next_id"@));
    vstd::utf8::is_ascii_chars_encode_utf8("__meta_next_id"@);
}

/// The next free id: 1 in a store without one, else the stored integer.
pub open spec fn next_id_model(m: StoreModel) -> Result<u64, KvFailure> {
    match lookup(m, meta_key()) {
        Err(e) => Err(KvFailure::Corrupted(e)),
        Ok(None) => Ok(1),
        Ok(Some(ValueModel::Integer(i))) => Ok(i as u64),
        Ok(Some(_)) => Err(KvFailure::InvalidKeyType),
    }
}

/// What reading the note `id` gives: nothing, the decoded note, or why not.
pub open spec fn note_read(m: StoreModel, id: u64) -> Result<Option<NoteModel>, KvFailure> {
    match lookup(m, note_key(id)) {
        Err(e) => Err(KvFailure::Corrupted(e)),
        Ok(None) => Ok(None),
        Ok(Some(ValueModel::Blob(b))) => match bincode_note_decode(b) {
            Some(n) => Ok(Some(n)),
            None => Err(KvFailure::Corrupted(DecodeError::NoteDecodeFailed)),
        },
        Ok(Some(_)) => Err(KvFailure::InvalidKeyType),
    }
}

/// A read of a note is the model's `note_read`.
pub open spec fn answers_note_read(r: KvResult<Option<Note>>, l: Result<Option<NoteModel>, KvFailure>) -> bool {
    match (r, l) {
        (Ok(None), Ok(None)) => true,
        (Ok(Some(n)), Ok(Some(x))) => n@ == x,
        (Err(e), Err(f)) => reports(e, f),
        _ => false,
    }
}

/// The note that `create` stores.
pub open spec fn new_note(id: u64, title: Seq<char>, body: Seq<char>, updated_at: u64) -> NoteModel {
    (id, title, body, Seq::empty(), updated_at, None)
}

/// The note `n` with `t` as its update time.
pub open spec fn with_time(n: NoteModel, t: u64) -> NoteModel {
    (n.0, n.1, n.2, n.3, t, n.5)
}

/// The note `n` with `image` attached.
pub open spec fn with_image(n: NoteModel, image: Seq<u8>) -> NoteModel {
    (n.0, n.1, n.2, n.3, n.4, Some(image))
}

/// Updating a note with a time replaces its time and nothing else: its id,
/// title, body, tags and image stay. Attaching an image replaces the image,
/// whatever image the note had, and nothing else.
pub proof fn law_update_and_attach_replace_one_field(n: NoteModel, t: u64, image: Seq<u8>)
    ensures
        with_time(n, t).4 == t,
        with_time(n, t).0 == n.0 && with_time(n, t).1 == n.1 && with_time(n, t).2 == n.2,
        with_time(n, t).3 == n.3 && with_time(n, t).5 == n.5,
        with_image(n, image).5 == Some(image),
        with_image(n, image).0 == n.0 && with_image(n, image).1 == n.1 && with_image(n, image).2 == n.2,
        with_image(n, image).3 == n.3 && with_image(n, image).4 == n.4,
{
}

/// The store after saving the note `n` under its id.
pub open spec fn save_note_model(m: StoreModel, n: NoteModel) -> StoreModel {
    insert_model(m, note_key(n.0), ValueModel::Blob(bincode_note_bytes(n)))
}

/// The store after creating the note `id` with the given title, body and
/// time in `m`: the note stored under its id, and the next free id moved on
/// by one.
pub open spec fn create_model(m: StoreModel, id: u64, title: Seq<char>, body: Seq<char>, t: u64) -> StoreModel {
    insert_model(
        save_note_model(m, new_note(id, title, body, t)),
        meta_key(),
        ValueModel::Integer((id + 1) as i64),
    )
}

/// What `note_to_bytes` shows of every note it encodes: bincode gives the
/// note back from its bytes, and their entry fits in memory.
pub open spec fn note_roundtrips(n: NoteModel) -> bool {
    &&& bincode_note_decode(bincode_note_bytes(n)) == Some(n)
    &&& encoded_size(ValueModel::Blob(bincode_note_bytes(n))) <= usize::MAX
}

/// The store after creating the notes `ns` (title, body, time) in order in a
/// new store, each under the next free id that the store holds then.
pub open spec fn created(ns: Seq<(Seq<char>, Seq<char>, u64)>) -> StoreModel
    decreases ns.len(),
{
    if ns.len() == 0 {
        empty_model()
    } else {
        let m = created(ns.drop_last());
        match next_id_model(m) {
            Ok(id) => create_model(m, id, ns.last().0, ns.last().1, ns.last().2),
            Err(_) => m,
        }
    }
}

/// In a new store, the k-th note created gets the id k: after creating `ns`
/// the next free id is one past their number, and each note reads back
/// under its id as it was created, none overwritten by a later one.
pub proof fn law_created_ids_count_up(ns: Seq<(Seq<char>, Seq<char>, u64)>)
    requires
        ns.len() + 1 < u64::MAX,
        forall|i: int|
            0 <= i < ns.len() ==> note_roundtrips(
                new_note((i + 1) as u64, (#[trigger] ns[i]).0, ns[i].1, ns[i].2),
            ),
    ensures
        log_intact(created(ns)),
        next_id_model(created(ns)) == Ok::<u64, KvFailure>((ns.len() + 1) as u64),
        forall|i: int|
            0 <= i < ns.len() ==> note_read(created(ns), (i + 1) as u64) == Ok::<
                Option<NoteModel>,
                KvFailure,
            >(Some(new_note((i + 1) as u64, (#[trigger] ns[i]).0, ns[i].1, ns[i].2))),
    decreases ns.len(),
{
    if ns.len() == 0 {
        law_log_intact_empty();
    } else {
        let q = ns.drop_last();
        assert forall|i: int| 0 <= i < q.len() implies note_roundtrips(
            new_note((i + 1) as u64, (#[trigger] q[i]).0, q[i].1, q[i].2),
        ) by {
            assert(q[i] == ns[i]);
        }
        law_created_ids_count_up(q);
        let m = created(q);
        let id: u64 = (q.len() + 1) as u64;
        let last = ns[q.len() as int];
        assert(last == ns.last());
        let n = new_note(id, last.0, last.1, last.2);
        assert(note_roundtrips(n));
        let v = ValueModel::Blob(bincode_note_bytes(n));
        let nxt = ValueModel::Integer((id + 1) as i64);
        let m1 = insert_model(m, note_key(id), v);
        let m2 = insert_model(m1, meta_key(), nxt);
        assert(created(ns) == m2);
        law_log_intact_insert(m, note_key(id), v);
        law_log_intact_insert(m1, meta_key(), nxt);
        law_intact_reads_succeed(m);
        law_intact_reads_succeed(m1);
        law_read_after_insert(m, note_key(id), v);
        assert(note_key(id) != meta_key());
        law_insert_keeps_other_reads(m1, meta_key(), nxt, note_key(id));
        law_read_after_insert(m1, meta_key(), nxt);
        let u = (id + 1) as u64;
        assert((u as i64) as u64 == u) by (bit_vector);
        assert forall|i: int| 0 <= i < ns.len() implies note_read(m2, (i + 1) as u64) == Ok::<
            Option<NoteModel>,
            KvFailure,
        >(Some(new_note((i + 1) as u64, (#[trigger] ns[i]).0, ns[i].1, ns[i].2))) by {
            if i < q.len() {
                let j: u64 = (i + 1) as u64;
                assert(q[i] == ns[i]);
                assert((j as i64) != (id as i64)) by (bit_vector)
                    requires
                        j < id,
                ;
                assert(note_read(m, j) is Ok);
                law_insert_keeps_other_reads(m, note_key(id), v, note_key(j));
                law_insert_keeps_other_reads(m1, meta_key(), nxt, note_key(j));
            }
        }
    }
}

/// The note that the `i`-th create (counting from 0) of `ns` makes in a new
/// store.
pub open spec fn created_note(ns: Seq<(Seq<char>, Seq<char>, u64)>, i: int) -> NoteModel {
    new_note((i + 1) as u64, ns[i].0, ns[i].1, ns[i].2)
}

/// The entries of the notes created from `ns`, in order.
pub open spec fn created_note_pairs(ns: Seq<(Seq<char>, Seq<char>, u64)>) -> Seq<(KeyModel, ValueModel)> {
    Seq::new(
        ns.len(),
        |i: int| (note_key((i + 1) as u64), ValueModel::Blob(bincode_note_bytes(created_note(ns, i)))),
    )
}

/// What iteration yields after creating `ns` in a new store: the notes in
/// order, then the next free id.
pub open spec fn created_listing(ns: Seq<(Seq<char>, Seq<char>, u64)>) -> Seq<(KeyModel, ValueModel)> {
    if ns.len() == 0 {
        Seq::empty()
    } else {
        created_note_pairs(ns).push((meta_key(), ValueModel::Integer((ns.len() + 1) as i64)))
    }
}

/// Pairs without key `k` lose nothing when the pairs under `k` are dropped.
proof fn lemma_without_absent_key(l: Seq<(KeyModel, ValueModel)>, k: KeyModel)
    requires
        forall|i: int| 0 <= i < l.len() ==> (#[trigger] l[i]).0 != k,
    ensures
        without_key(l, k) == l,
    decreases l.len(),
{
    if l.len() > 0 {
        assert forall|i: int| 0 <= i < l.drop_first().len() implies (#[trigger] l.drop_first()[i]).0 != k by {
            assert(l.drop_first()[i] == l[i + 1]);
        }
        lemma_without_absent_key(l.drop_first(), k);
        assert(l[0].0 != k);
        assert(seq![l[0]] + l.drop_first() =~= l);
    }
}

/// Dropping the pairs under a key from two runs one after the other.
proof fn lemma_without_key_concat(a: Seq<(KeyModel, ValueModel)>, b: Seq<(KeyModel, ValueModel)>, k: KeyModel)
    ensures
        without_key(a + b, k) == without_key(a, k) + without_key(b, k),
    decreases a.len(),
{
    if a.len() == 0 {
        assert(a + b =~= b);
        assert(without_key(a, k) + without_key(b, k) =~= without_key(b, k));
    } else {
        lemma_without_key_concat(a.drop_first(), b, k);
        assert((a + b).drop_first() =~= a.drop_first() + b);
        assert((a + b)[0] == a[0]);
        if a[0].0 != k {
            assert(seq![a[0]] + (without_key(a.drop_first(), k) + without_key(b, k)) =~= (seq![a[0]]
                + without_key(a.drop_first(), k)) + without_key(b, k));
        }
    }
}

/// Creating notes in a new store leaves iteration yielding the notes in
/// order and then the next free id.
proof fn lemma_created_listing(ns: Seq<(Seq<char>, Seq<char>, u64)>)
    requires
        ns.len() + 1 < u64::MAX,
        forall|i: int|
            0 <= i < ns.len() ==> note_roundtrips(
                new_note((i + 1) as u64, (#[trigger] ns[i]).0, ns[i].1, ns[i].2),
            ),
    ensures
        listing(created(ns)) == created_listing(ns),
    decreases ns.len(),
{
    if ns.len() == 0 {
        assert(listing(empty_model()) =~= Seq::<(KeyModel, ValueModel)>::empty());
    } else {
        let q = ns.drop_last();
        assert forall|i: int| 0 <= i < q.len() implies note_roundtrips(
            new_note((i + 1) as u64, (#[trigger] q[i]).0, q[i].1, q[i].2),
        ) by {
            assert(q[i] == ns[i]);
        }
        lemma_created_listing(q);
        law_created_ids_count_up(q);
        let m = created(q);
        let id: u64 = (q.len() + 1) as u64;
        let last = ns[q.len() as int];
        assert(last == ns.last());
        let n = new_note(id, last.0, last.1, last.2);
        assert(n == created_note(ns, q.len() as int));
        assert(note_roundtrips(n));
        let v = ValueModel::Blob(bincode_note_bytes(n));
        let nxt = ValueModel::Integer((id + 1) as i64);
        let m1 = insert_model(m, note_key(id), v);
        assert(created(ns) == insert_model(m1, meta_key(), nxt));
        let l = listing(m);
        let pq = created_note_pairs(q);
        let pn = created_note_pairs(ns);
        assert forall|i: int| 0 <= i < pq.len() implies #[trigger] pq[i] == pn[i] by {
            assert(q[i] == ns[i]);
        }
        assert forall|i: int| 0 <= i < l.len() implies (#[trigger] l[i]).0 != note_key(id) by {
            if i < pq.len() {
                let j: u64 = (i + 1) as u64;
                assert((j as i64) != (id as i64)) by (bit_vector)
                    requires
                        j < id,
                ;
            }
        }
        lemma_without_absent_key(l, note_key(id));
        lemma_listing_overwrite(m, note_key(id), v);
        law_log_intact_insert(m, note_key(id), v);
        lemma_listing_overwrite(m1, meta_key(), nxt);
        let nkv = (note_key(id), v);
        assert(pn =~= pq.push(nkv));
        if q.len() == 0 {
            assert(l.push(nkv) =~= seq![nkv]);
            assert(seq![nkv] =~= seq![nkv].drop_first().push(nkv)) by {
                assert(seq![nkv].drop_first() =~= Seq::<(KeyModel, ValueModel)>::empty());
            }
            assert(without_key(seq![nkv], meta_key()) == seq![nkv]) by {
                lemma_without_absent_key(seq![nkv], meta_key());
            }
            assert(pn =~= seq![nkv]);
        } else {
            let mp = (meta_key(), ValueModel::Integer((q.len() + 1) as i64));
            assert(l.push(nkv) =~= pq + (seq![mp] + seq![nkv]));
            lemma_without_key_concat(pq, seq![mp] + seq![nkv], meta_key());
            lemma_without_key_concat(seq![mp], seq![nkv], meta_key());
            assert forall|i: int| 0 <= i < pq.len() implies (#[trigger] pq[i]).0 != meta_key() by {}
            lemma_without_absent_key(pq, meta_key());
            lemma_without_absent_key(seq![nkv], meta_key());
            assert(seq![mp].drop_first() =~= Seq::<(KeyModel, ValueModel)>::empty());
            assert(without_key(Seq::<(KeyModel, ValueModel)>::empty(), meta_key()).len() == 0);
            assert(seq![mp][0].0 == meta_key());
            assert(without_key(seq![mp], meta_key()) == without_key(seq![mp].drop_first(), meta_key()));
            assert(without_key(seq![mp], meta_key()) =~= Seq::<(KeyModel, ValueModel)>::empty());
            assert(pq + (Seq::<(KeyModel, ValueModel)>::empty() + seq![nkv]) =~= pn);
        }
    }
}

/// The summaries of note entries, followed by entries that give none, are
/// the summaries of the notes.
proof fn lemma_metas_of_notes(p: Seq<(KeyModel, ValueModel)>, ns: Seq<NoteModel>, t: Seq<(KeyModel, ValueModel)>)
    requires
        p.len() == ns.len(),
        forall|i: int| 0 <= i < p.len() ==> #[trigger] p[i] == (note_key(ns[i].0), ValueModel::Blob(bincode_note_bytes(ns[i]))),
        forall|i: int| 0 <= i < ns.len() ==> bincode_note_decode(bincode_note_bytes(#[trigger] ns[i])) == Some(ns[i]),
        metas_of(t) == Ok::<Seq<MetaModel>, KvFailure>(Seq::empty()),
    ensures
        metas_of(p + t) == Ok::<Seq<MetaModel>, KvFailure>(ns.map_values(|n: NoteModel| meta_of(n))),
    decreases p.len(),
{
    if p.len() == 0 {
        assert(p + t =~= t);
        assert(ns.map_values(|n: NoteModel| meta_of(n)) =~= Seq::<MetaModel>::empty());
    } else {
        let p1 = p.drop_first();
        let n1 = ns.drop_first();
        assert forall|i: int| 0 <= i < p1.len() implies #[trigger] p1[i] == (note_key(n1[i].0), ValueModel::Blob(
            bincode_note_bytes(n1[i]),
        )) by {
            assert(p1[i] == p[i + 1] && n1[i] == ns[i + 1]);
        }
        assert forall|i: int| 0 <= i < n1.len() implies bincode_note_decode(bincode_note_bytes(#[trigger] n1[i]))
            == Some(n1[i]) by {
            assert(n1[i] == ns[i + 1]);
        }
        lemma_metas_of_notes(p1, n1, t);
        assert((p + t).drop_first() =~= p1 + t);
        assert((p + t)[0] == p[0]);
        assert(p[0] == (note_key(ns[0].0), ValueModel::Blob(bincode_note_bytes(ns[0]))));
        assert(seq![meta_of(ns[0])] + n1.map_values(|n: NoteModel| meta_of(n)) =~= ns.map_values(
            |n: NoteModel| meta_of(n),
        ));
    }
}

/// Summaries with strictly increasing ids are already in order of id.
proof fn lemma_sort_by_id_increasing(s: Seq<MetaModel>)
    requires
        forall|i: int, j: int| 0 <= i < j < s.len() ==> (#[trigger] s[i]).0 < (#[trigger] s[j]).0,
    ensures
        sort_by_id(s) == s,
    decreases s.len(),
{
    if s.len() > 0 {
        let q = s.drop_last();
        assert forall|i: int, j: int| 0 <= i < j < q.len() implies (#[trigger] q[i]).0 < (#[trigger] q[j]).0 by {
            assert(q[i] == s[i] && q[j] == s[j]);
        }
        lemma_sort_by_id_increasing(q);
        assert forall|k: int| 0 <= k < q.len() implies (#[trigger] q[k]).0 <= s.last().0 by {
            assert(q[k] == s[k]);
        }
        lemma_insert_by_id_at(q, s.last(), q.len() as int);
        assert(q.insert(q.len() as int, s.last()) =~= s);
    }
}

/// In a new store, listing the notes after creating `ns` gives their
/// summaries in order of creation: ids 1, 2, ..., one per note.
pub proof fn law_created_notes_list_in_order(ns: Seq<(Seq<char>, Seq<char>, u64)>)
    requires
        ns.len() + 1 < u64::MAX,
        forall|i: int|
            0 <= i < ns.len() ==> note_roundtrips(
                new_note((i + 1) as u64, (#[trigger] ns[i]).0, ns[i].1, ns[i].2),
            ),
    ensures
        list_meta_model(created(ns)) == Ok::<Seq<MetaModel>, KvFailure>(
            Seq::new(ns.len(), |i: int| meta_of(created_note(ns, i))),
        ),
{
    lemma_created_listing(ns);
    let notes = Seq::new(ns.len(), |i: int| created_note(ns, i));
    let want = Seq::new(ns.len(), |i: int| meta_of(created_note(ns, i)));
    assert(notes.map_values(|n: NoteModel| meta_of(n)) =~= want);
    let p = created_note_pairs(ns);
    assert forall|i: int| 0 <= i < ns.len() implies bincode_note_decode(bincode_note_bytes(#[trigger] notes[i]))
        == Some(notes[i]) by {
        assert(notes[i] == new_note((i + 1) as u64, ns[i].0, ns[i].1, ns[i].2));
    }
    if ns.len() == 0 {
        assert(metas_of(Seq::<(KeyModel, ValueModel)>::empty()) == Ok::<Seq<MetaModel>, KvFailure>(Seq::empty()));
        assert(want =~= Seq::<MetaModel>::empty());
    } else {
        let t = seq![(meta_key(), ValueModel::Integer((ns.len() + 1) as i64))];
        assert(t.drop_first() =~= Seq::<(KeyModel, ValueModel)>::empty());
        assert(metas_of(t) == Ok::<Seq<MetaModel>, KvFailure>(Seq::empty()));
        lemma_metas_of_notes(p, notes, t);
        assert(p + t =~= created_listing(ns));
    }
    assert forall|i: int, j: int| 0 <= i < j < want.len() implies (#[trigger] want[i]).0 < (#[trigger] want[j]).0 by {}
    lemma_sort_by_id_increasing(want);
}

/// The summary of a note that listing gives.
#[derive(Clone)]
pub struct NoteMeta {
    pub id: u64,
    pub title: String,
    pub updated_at: u64,
    pub tags: Vec<String>,
}

/// The model of a note summary: id, title, update time, tags.
pub type MetaModel = (u64, Seq<char>, u64, Seq<Seq<char>>);

impl View for NoteMeta {
    type V = MetaModel;

    open spec fn view(&self) -> MetaModel {
        (self.id, self.title@, self.updated_at, tags_model(self.tags@))
    }
}

/// The summary of a note.
pub open spec fn meta_of(n: NoteModel) -> MetaModel {
    (n.0, n.1, n.4, n.3)
}

/// The models of a run of summaries.
pub open spec fn metas_model(v: Seq<NoteMeta>) -> Seq<MetaModel> {
    v.map_values(|m: NoteMeta| m@)
}

/// The summaries of the notes among live entries, in log order: entries
/// under text keys are skipped; an entry under an integer key must be a
/// blob (else `InvalidKeyType`) that decodes as a note (else `Corrupted`).
pub open spec fn metas_of(l: Seq<(KeyModel, ValueModel)>) -> Result<Seq<MetaModel>, KvFailure>
    decreases l.len(),
{
    if l.len() == 0 {
        Ok(Seq::empty())
    } else {
        match l[0].0 {
            KeyModel::Text(_) => metas_of(l.drop_first()),
            KeyModel::Integer(_) => match l[0].1 {
                ValueModel::Blob(b) => match bincode_note_decode(b) {
                    None => Err(KvFailure::Corrupted(DecodeError::NoteDecodeFailed)),
                    Some(n) => match metas_of(l.drop_first()) {
                        Ok(rest) => Ok(seq![meta_of(n)] + rest),
                        Err(f) => Err(f),
                    },
                },
                _ => Err(KvFailure::InvalidKeyType),
            },
        }
    }
}

/// `done` followed by the outcome for the rest.
pub open spec fn prepend_metas(done: Seq<MetaModel>, r: Result<Seq<MetaModel>, KvFailure>) -> Result<
    Seq<MetaModel>,
    KvFailure,
> {
    match r {
        Ok(rest) => Ok(done + rest),
        Err(f) => Err(f),
    }
}

/// `x` inserted into `s` after every summary whose id is not greater.
pub open spec fn insert_by_id(s: Seq<MetaModel>, x: MetaModel) -> Seq<MetaModel>
    decreases s.len(),
{
    if s.len() == 0 {
        seq![x]
    } else if s[0].0 > x.0 {
        seq![x] + s
    } else {
        seq![s[0]] + insert_by_id(s.drop_first(), x)
    }
}

/// The summaries in order of id; summaries with equal ids keep their order.
pub open spec fn sort_by_id(s: Seq<MetaModel>) -> Seq<MetaModel>
    decreases s.len(),
{
    if s.len() == 0 {
        s
    } else {
        insert_by_id(sort_by_id(s.drop_last()), s.last())
    }
}

/// Summaries in non-decreasing order of id.
pub open spec fn sorted_by_id(s: Seq<MetaModel>) -> bool {
    forall|i: int, j: int| 0 <= i < j < s.len() ==> (#[trigger] s[i]).0 <= (#[trigger] s[j]).0
}

/// What listing the notes of a store gives: the summaries of its notes in
/// order of id, or why not.
pub open spec fn list_meta_model(m: StoreModel) -> Result<Seq<MetaModel>, KvFailure> {
    match metas_of(listing(m)) {
        Ok(s) => Ok(sort_by_id(s)),
        Err(f) => Err(f),
    }
}

/// Inserting at the first position whose id is greater is `insert_by_id`.
proof fn lemma_insert_by_id_at(s: Seq<MetaModel>, x: MetaModel, j: int)
    requires
        0 <= j <= s.len(),
        forall|k: int| 0 <= k < j ==> (#[trigger] s[k]).0 <= x.0,
        j < s.len() ==> s[j].0 > x.0,
    ensures
        insert_by_id(s, x) == s.insert(j, x),
    decreases s.len(),
{
    if s.len() == 0 {
        assert(s.insert(j, x) =~= seq![x]);
    } else if j == 0 {
        assert(s.insert(j, x) =~= seq![x] + s);
    } else {
        let t = s.drop_first();
        assert forall|k: int| 0 <= k < j - 1 implies (#[trigger] t[k]).0 <= x.0 by {
            assert(t[k] == s[k + 1]);
        }
        lemma_insert_by_id_at(t, x, j - 1);
        assert(s.insert(j, x) =~= seq![s[0]] + t.insert(j - 1, x));
    }
}

/// Inserting into sorted summaries keeps them sorted and adds one.
proof fn lemma_insert_by_id_sorted(s: Seq<MetaModel>, x: MetaModel)
    requires
        sorted_by_id(s),
    ensures
        sorted_by_id(insert_by_id(s, x)),
        insert_by_id(s, x).len() == s.len() + 1,
        insert_by_id(s, x).to_multiset() =~= s.to_multiset().insert(x),
    decreases s.len(),
{
    broadcast use vstd::seq_lib::group_to_multiset_ensures;
    let r = insert_by_id(s, x);
    if s.len() == 0 {
        assert(seq![x] =~= Seq::<MetaModel>::empty().push(x));
    } else if s[0].0 > x.0 {
        assert(r =~= seq![x] + s);
        assert forall|i: int, j: int| 0 <= i < j < r.len() implies (#[trigger] r[i]).0 <= (#[trigger] r[j]).0 by {
            if i > 0 {
                assert(r[i] == s[i - 1] && r[j] == s[j - 1]);
            } else {
                assert(r[j] == s[j - 1]);
                if j - 1 > 0 {
                    assert(s[0].0 <= s[j - 1].0);
                }
            }
        }
        vstd::seq_lib::lemma_multiset_commutative(seq![x], s);
        assert(seq![x].to_multiset() =~= Multiset::empty().insert(x)) by {
            assert(seq![x] =~= Seq::<MetaModel>::empty().push(x));
        }
    } else {
        let t = s.drop_first();
        assert(sorted_by_id(t)) by {
            assert forall|i: int, j: int| 0 <= i < j < t.len() implies (#[trigger] t[i]).0 <= (#[trigger] t[j]).0 by {
                assert(t[i] == s[i + 1] && t[j] == s[j + 1]);
            }
        }
        lemma_insert_by_id_sorted(t, x);
        let ti = insert_by_id(t, x);
        assert(r =~= seq![s[0]] + ti);
        assert forall|k: int| 0 <= k < ti.len() implies s[0].0 <= (#[trigger] ti[k]).0 by {
            assert(ti.to_multiset().contains(ti[k]));
            assert(t.to_multiset().insert(x).contains(ti[k]));
            if ti[k] != x {
                assert(t.to_multiset().contains(ti[k]));
                assert(t.contains(ti[k]));
                let m = choose|m: int| 0 <= m < t.len() && t[m] == ti[k];
                assert(s[m + 1] == t[m]);
            }
        }
        assert forall|i: int, j: int| 0 <= i < j < r.len() implies (#[trigger] r[i]).0 <= (#[trigger] r[j]).0 by {
            assert(r[j] == ti[j - 1]);
            if i > 0 {
                assert(r[i] == ti[i - 1]);
            }
        }
        vstd::seq_lib::lemma_multiset_commutative(seq![s[0]], ti);
        vstd::seq_lib::lemma_multiset_commutative(seq![s[0]], t);
        assert(s =~= seq![s[0]] + t);
    }
}

/// Sorting by id gives summaries in order of id, and the same summaries.
pub proof fn law_sort_by_id(s: Seq<MetaModel>)
    ensures
        sorted_by_id(sort_by_id(s)),
        sort_by_id(s).to_multiset() =~= s.to_multiset(),
    decreases s.len(),
{
    broadcast use vstd::seq_lib::group_to_multiset_ensures;
    if s.len() > 0 {
        law_sort_by_id(s.drop_last());
        lemma_insert_by_id_sorted(sort_by_id(s.drop_last()), s.last());
        assert(s =~= s.drop_last().push(s.last()));
    }
}

/// Saving the notes and opening the saved image gives back every note as
/// it was, the same summaries in the same order, and the same next free id.
pub proof fn law_notes_survive_save_and_open(m: StoreModel)
    requires
        log_intact(m),
        pairs_fit(listing(m)),
    ensures
        load_pairs(persist_image(listing(m))) == Ok::<Seq<(KeyModel, ValueModel)>, KvFailure>(listing(m)),
        forall|id: u64| #[trigger] note_read(replay(listing(m)), id) == note_read(m, id),
        list_meta_model(replay(listing(m))) == list_meta_model(m),
        next_id_model(replay(listing(m))) == next_id_model(m),
{
    law_load_persisted(m);
    assert forall|id: u64| #[trigger] note_read(replay(listing(m)), id) == note_read(m, id) by {
        assert(lookup(replay(listing(m)), note_key(id)) == lookup(m, note_key(id)));
    }
    assert(lookup(replay(listing(m)), meta_key()) == lookup(m, meta_key()));
}

/// The notes, kept in a store.
pub struct NoteStore {
    kv: KvStore,
}

impl View for NoteStore {
    type V = StoreModel;

    closed spec fn view(&self) -> StoreModel {
        self.kv@
    }
}

impl NoteStore {
    /// The validity of the underlying store.
    pub closed spec fn wf(&self) -> bool {
        self.kv.wf()
    }

    /// The notes kept in `kv`.
    pub fn from_store(kv: KvStore) -> (s: Self)
        requires
            kv.wf(),
        ensures
            s.wf(),
            s@ == kv@,
    {
        NoteStore { kv }
    }

    /// Opens the notes kept in a persisted store image: no image (no file)
    /// gives an empty store, an image gives the store it loads as.
    pub fn open(image: Option<&[u8]>) -> (r: KvResult<NoteStore>)
        ensures
            match image {
                None => r is Ok && r->Ok_0.wf() && r->Ok_0@ == empty_model(),
                Some(b) => match (r, load_pairs(b@)) {
                    (Ok(s), Ok(pairs)) => s.wf() && s@ == replay(pairs) && log_intact(s@),
                    (Err(e), Err(f)) => reports(e, f),
                    _ => false,
                },
            },
    {
        let kv = match image {
            None => KvStore::new(),
            Some(bytes) => match KvStore::load_from_bytes(bytes) {
                Ok(store) => store,
                Err(e) => return Err(e),
            },
        };
        Ok(NoteStore { kv })
    }

    /// Notes with an intact log survive saving: opening the saved image
    /// gives back every note as it was, the same summaries in the same
    /// order, and the same next free id.
    pub proof fn law_survives_save_and_open(&self)
        requires
            self.wf(),
            log_intact(self@),
        ensures
            load_pairs(persist_image(listing(self@))) == Ok::<Seq<(KeyModel, ValueModel)>, KvFailure>(
                listing(self@),
            ),
            forall|id: u64| #[trigger] note_read(replay(listing(self@)), id) == note_read(self@, id),
            list_meta_model(replay(listing(self@))) == list_meta_model(self@),
            next_id_model(replay(listing(self@))) == next_id_model(self@),
    {
        self.kv.lemma_listing_fits();
        law_notes_survive_save_and_open(self@);
    }

    /// The persisted image of the notes' store, to be saved.
    pub fn save(&self) -> (image: Vec<u8>)
        requires
            self.wf(),
        ensures
            image@ == persist_image(listing(self@)),
            pairs_fit(listing(self@)),
    {
        self.kv.persist_to_bytes()
    }

    /// The underlying store.
    pub fn store(&self) -> (kv: &KvStore)
        ensures
            kv@ == self@,
            self.wf() ==> kv.wf(),
    {
        &self.kv
    }

    /// Reads the note `id`: `Ok(None)` when there is none, `InvalidKeyType`
    /// when its value is not a blob, `Corrupted` when it does not decode.
    pub fn get(&self, id: u64) -> (r: KvResult<Option<Note>>)
        requires
            self.wf(),
        ensures
            answers_note_read(r, note_read(self@, id)),
    {
        let key = Key::Integer(id as i64);
        match self.kv.get_borrowed(&key) {
            Ok(Some(BorrowedValue::Blob(bytes))) => match note_from_bytes(bytes) {
                Ok(note) => Ok(Some(note)),
                Err(e) => Err(e),
            },
            Ok(Some(_)) => Err(KvError::InvalidKeyType),
            Ok(None) => Ok(None),
            Err(e) => Err(e),
        }
    }

    /// The id that the next `create` gives.
    pub fn next_id(&self) -> (r: KvResult<u64>)
        requires
            self.wf(),
        ensures
            match (r, next_id_model(self@)) {
                (Ok(id), Ok(x)) => id == x,
                (Err(e), Err(f)) => reports(e, f),
                _ => false,
            },
    {
        let meta_key = Key::Text("__meta_next_id".to_owned());
        match self.kv.get_owned(&meta_key) {
            Ok(Some(OwnedValue::Integer(i))) => Ok(i as u64),
            Ok(Some(_)) => Err(KvError::InvalidKeyType),
            Ok(None) => Ok(1),
            Err(e) => Err(e),
        }
    }

    /// Creates a note with the next free id, the given title and body, no
    /// tags, no image and `updated_at` as its time; stores it and moves the
    /// next free id on by one. Gives the new id. Fails, changing nothing,
    /// when the stored next id cannot be read.
    pub fn create_at(&mut self, title: String, body: String, updated_at: u64) -> (r: KvResult<u64>)
        requires
            old(self).wf(),
            next_id_model(old(self)@) != Ok::<u64, KvFailure>(u64::MAX),
        ensures
            final(self).wf(),
            match next_id_model(old(self)@) {
                Err(f) => r is Err && reports(r->Err_0, f) && final(self)@ == old(self)@,
                Ok(id) => {
                    &&& r == Ok::<u64, KvError>(id)
                    &&& final(self)@ == create_model(old(self)@, id, title@, body@, updated_at)
                    &&& note_roundtrips(new_note(id, title@, body@, updated_at))
                    &&& note_read(final(self)@, id) == Ok::<Option<NoteModel>, KvFailure>(
                        Some(new_note(id, title@, body@, updated_at)),
                    )
                    &&& next_id_model(final(self)@) == Ok::<u64, KvFailure>((id + 1) as u64)
                    &&& forall|j: u64|
                        j != id && (#[trigger] note_read(old(self)@, j)) is Ok ==> note_read(final(self)@, j)
                            == note_read(old(self)@, j)
                },
            },
    {
        let id = match self.next_id() {
            Ok(id) => id,
            Err(e) => return Err(e),
        };
        let note = Note { id, title, body, tags: Vec::new(), updated_at, image: None };
        let bytes = note_to_bytes(&note);
        let ghost n = note@;
        proof {
            assert(n == new_note(id, note.title@, note.body@, updated_at)) by {
                assert(tags_model(note.tags@) =~= Seq::<Seq<char>>::empty());
            }
            assert(encoded_size(ValueModel::Blob(bytes@)) <= usize::MAX);
        }
        let ghost before = self@;
        self.kv.insert(Key::Integer(#[verifier::truncate] (id as i64)), OwnedValue::Blob(bytes));
        let ghost middle = self@;
        proof {
            self.kv.lemma_offsets_in_log();
        }
        let next: i64 = #[verifier::truncate] ((id + 1) as i64);
        proof {
            lemma_meta_key_fits();
        }
        self.kv.insert(Key::Text("__meta_next_id".to_owned()), OwnedValue::Integer(next));
        proof {
            law_read_after_insert(before, note_key(id), ValueModel::Blob(bincode_note_bytes(n)));
            assert(note_key(id) != meta_key());
            law_insert_keeps_other_reads(middle, meta_key(), ValueModel::Integer(next), note_key(id));
            law_read_after_insert(middle, meta_key(), ValueModel::Integer(next));
            let u = (id + 1) as u64;
            assert((u as i64) as u64 == u) by (bit_vector);
            assert forall|j: u64| j != id && (#[trigger] note_read(before, j)) is Ok implies note_read(self@, j)
                == note_read(before, j) by {
                assert((j as i64) != (id as i64)) by (bit_vector)
                    requires
                        j != id,
                ;
                assert(lookup(middle, note_key(j)) == lookup(before, note_key(j)));
                assert(lookup(self@, note_key(j)) == lookup(middle, note_key(j)));
            }
        }
        Ok(id)
    }

    /// Creates a note as `create_at` does, with the current time (0 when the
    /// clock is set before the Unix epoch).
    pub fn create(&mut self, title: String, body: String) -> (r: KvResult<u64>)
        requires
            old(self).wf(),
            next_id_model(old(self)@) != Ok::<u64, KvFailure>(u64::MAX),
        ensures
            final(self).wf(),
            match next_id_model(old(self)@) {
                Err(f) => r is Err && reports(r->Err_0, f) && final(self)@ == old(self)@,
                Ok(id) => r == Ok::<u64, KvError>(id) && exists|t: u64|
                    #![trigger new_note(id, title@, body@, t)]
                    {
                        &&& final(self)@ == create_model(old(self)@, id, title@, body@, t)
                        &&& note_roundtrips(new_note(id, title@, body@, t))
                        &&& note_read(final(self)@, id) == Ok::<Option<NoteModel>, KvFailure>(
                            Some(new_note(id, title@, body@, t)),
                        )
                    } && next_id_model(final(self)@) == Ok::<u64, KvFailure>((id + 1) as u64) && forall|
                    j: u64,
                |
                    j != id && (#[trigger] note_read(old(self)@, j)) is Ok ==> note_read(final(self)@, j)
                        == note_read(old(self)@, j),
            },
    {
        let now = current_time();
        self.create_at(title, body, now)
    }

    /// Stores `note` under its id with `updated_at` as its time, replacing
    /// any note there.
    pub fn update_at(&mut self, note: Note, updated_at: u64) -> (r: KvResult<()>)
        requires
            old(self).wf(),
        ensures
            final(self).wf(),
            r is Ok,
            final(self)@ == save_note_model(old(self)@, with_time(note@, updated_at)),
            note_read(final(self)@, note.id) == Ok::<Option<NoteModel>, KvFailure>(
                Some(with_time(note@, updated_at)),
            ),
            note_read(final(self)@, note.id) == Ok::<Option<NoteModel>, KvFailure>(
                Some((note.id, note.title@, note.body@, tags_model(note.tags@), updated_at, image_model(note.image))),
            ),
            forall|j: u64|
                j != note.id && (#[trigger] note_read(old(self)@, j)) is Ok ==> note_read(final(self)@, j)
                    == note_read(old(self)@, j),
    {
        let mut note = note;
        note.updated_at = updated_at;
        let bytes = note_to_bytes(&note);
        let ghost before = self@;
        proof {
            assert(encoded_size(ValueModel::Blob(bytes@)) <= usize::MAX);
        }
        self.kv.insert(Key::Integer(note.id as i64), OwnedValue::Blob(bytes));
        proof {
            law_read_after_insert(before, note_key(note.id), ValueModel::Blob(bincode_note_bytes(note@)));
            assert forall|j: u64| j != note.id && (#[trigger] note_read(before, j)) is Ok implies note_read(
                self@,
                j,
            ) == note_read(before, j) by {
                let id = note.id;
                assert((j as i64) != (id as i64)) by (bit_vector)
                    requires
                        j != id,
                ;
                assert(lookup(self@, note_key(j)) == lookup(before, note_key(j)));
            }
        }
        Ok(())
    }

    /// Stores `note` as `update_at` does, with the current time (0 when the
    /// clock is set before the Unix epoch).
    pub fn update(&mut self, note: Note) -> (r: KvResult<()>)
        requires
            old(self).wf(),
        ensures
            final(self).wf(),
            r is Ok,
            exists|t: u64|
                #![trigger with_time(note@, t)]
                {
                    &&& final(self)@ == save_note_model(old(self)@, with_time(note@, t))
                    &&& note_read(final(self)@, note.id) == Ok::<Option<NoteModel>, KvFailure>(
                        Some(with_time(note@, t)),
                    )
                    &&& note_read(final(self)@, note.id) == Ok::<Option<NoteModel>, KvFailure>(
                        Some((note.id, note.title@, note.body@, tags_model(note.tags@), t, image_model(note.image))),
                    )
                },
            forall|j: u64|
                j != note.id && (#[trigger] note_read(old(self)@, j)) is Ok ==> note_read(final(self)@, j)
                    == note_read(old(self)@, j),
    {
        let now = current_time();
        self.update_at(note, now)
    }

    /// Removes the note `id`; afterwards reading it finds nothing.
    pub fn delete(&mut self, id: u64) -> (r: KvResult<()>)
        requires
            old(self).wf(),
        ensures
            final(self).wf(),
            r is Ok,
            final(self)@ == delete_model(old(self)@, note_key(id)),
            note_read(final(self)@, id) == Ok::<Option<NoteModel>, KvFailure>(None),
    {
        self.kv.delete(&Key::Integer(id as i64));
        proof {
            law_read_after_delete(old(self)@, note_key(id), note_key(id));
        }
        Ok(())
    }

    /// The summaries of all notes, in order of id (notes with equal ids keep
    /// their log order). Entries under text keys are not notes and are
    /// skipped; fails with `InvalidKeyType` on an integer key whose value is
    /// not a blob, and with `Corrupted` on a blob that is not a note.
    pub fn list_meta(&self) -> (r: KvResult<Vec<NoteMeta>>)
        requires
            self.wf(),
        ensures
            match (r, list_meta_model(self@)) {
                (Ok(v), Ok(s)) => metas_model(v@) == s && sorted_by_id(s),
                (Err(e), Err(f)) => reports(e, f),
                _ => false,
            },
    {
        let mut it = self.kv.iter();
        let mut metas: Vec<NoteMeta> = Vec::new();
        let ghost mut produced: Seq<MetaModel> = Seq::empty();
        proof {
            assert(metas_of(listing(self@)) == prepend_metas(produced, metas_of(it.remaining()))) by {
                match metas_of(it.remaining()) {
                    Ok(t) => {
                        assert(produced + t =~= t);
                    },
                    Err(_) => {},
                }
            }
            assert(metas_model(metas@) =~= sort_by_id(produced));
        }
        loop
            invariant
                it.wf(),
                metas_of(listing(self@)) == prepend_metas(produced, metas_of(it.remaining())),
                metas_model(metas@) == sort_by_id(produced),
            decreases it.remaining().len(),
        {
            let ghost rem = it.remaining();
            match it.next() {
                None => {
                    proof {
                        assert(rem.len() == 0);
                        assert(produced + Seq::<MetaModel>::empty() =~= produced);
                        law_sort_by_id(produced);
                    }
                    return Ok(metas);
                },
                Some(entry) => {
                    proof {
                        assert(rem.drop_first() == it.remaining());
                    }
                    match entry.key {
                        Key::Text(_) => {},
                        Key::Integer(_) => match entry.value {
                            BorrowedValue::Blob(bytes) => {
                                let note = match note_from_bytes(bytes) {
                                    Ok(n) => n,
                                    Err(e) => return Err(e),
                                };
                                let meta = NoteMeta {
                                    id: note.id,
                                    title: note.title,
                                    updated_at: note.updated_at,
                                    tags: note.tags,
                                };
                                let ghost x = meta@;
                                let mut j: usize = 0;
                                while j < metas.len() && metas[j].id <= meta.id
                                    invariant
                                        j <= metas@.len(),
                                        forall|k: int| 0 <= k < j ==> (#[trigger] metas@[k]).id <= meta.id,
                                    decreases metas@.len() - j,
                                {
                                    j += 1;
                                }
                                proof {
                                    let s = metas_model(metas@);
                                    assert forall|k: int| 0 <= k < j implies (#[trigger] s[k]).0 <= x.0 by {
                                        assert(s[k] == metas@[k]@);
                                    }
                                    if j < s.len() {
                                        assert(s[j as int] == metas@[j as int]@);
                                    }
                                    lemma_insert_by_id_at(s, x, j as int);
                                    assert(produced.push(x).drop_last() =~= produced);
                                    match metas_of(it.remaining()) {
                                        Ok(t) => {
                                            assert(produced + (seq![x] + t) =~= produced.push(x) + t);
                                        },
                                        Err(_) => {},
                                    }
                                }
                                let ghost before_metas = metas@;
                                metas.insert(j, meta);
                                proof {
                                    assert(metas_model(metas@) =~= metas_model(before_metas).insert(j as int, x));
                                    produced = produced.push(x);
                                }
                            },
                            _ => return Err(KvError::InvalidKeyType),
                        },
                    }
                },
            }
        }
    }

    /// Attaches `image` to the note `id` and stores it with the current
    /// time, under the id the note holds; reading it back then gives the note
    /// with the image. Does nothing when there is no note `id`, and fails,
    /// changing nothing, when it cannot be read.
    pub fn attach_image(&mut self, id: u64, image: Vec<u8>) -> (r: KvResult<()>)
        requires
            old(self).wf(),
        ensures
            final(self).wf(),
            match note_read(old(self)@, id) {
                Err(f) => r is Err && reports(r->Err_0, f) && final(self)@ == old(self)@,
                Ok(None) => r is Ok && final(self)@ == old(self)@,
                Ok(Some(n)) => r is Ok && exists|t: u64|
                    #![trigger with_time(with_image(n, image@), t)]
                    {
                        &&& final(self)@ == save_note_model(old(self)@, with_time(with_image(n, image@), t))
                        &&& note_read(final(self)@, n.0) == Ok::<Option<NoteModel>, KvFailure>(
                            Some(with_time(with_image(n, image@), t)),
                        )
                        &&& note_read(final(self)@, n.0) == Ok::<Option<NoteModel>, KvFailure>(
                            Some((n.0, n.1, n.2, n.3, t, Some(image@))),
                        )
                    },
            },
    {
        let mut note = match self.get(id) {
            Ok(Some(n)) => n,
            Ok(None) => return Ok(()),
            Err(e) => return Err(e),
        };
        let ghost read = note@;
        let ghost img = image@;
        note.image = Some(image);
        proof {
            assert(note@ == with_image(read, img));
        }
        let ghost attached = note@;
        let r = self.update(note);
        proof {
            let t = choose|t: u64|
                #![trigger with_time(attached, t)]
                {
                    &&& self@ == save_note_model(old(self)@, with_time(attached, t))
                    &&& note_read(self@, attached.0) == Ok::<Option<NoteModel>, KvFailure>(
                        Some(with_time(attached, t)),
                    )
                };
            assert(self@ == save_note_model(old(self)@, with_time(with_image(read, img), t)));
        }
        r
    }
}

} // verus!
