use vstd::prelude::*;
use vstd::bytes::*;
use crate::checksum::{fnv1a, fnv1a_checksum};
use crate::codec::{
    dec_doc, decode_document, doc_fits, enc_doc, encode_document,
};
use crate::error::{NVResult, NeuralVaultError};
use crate::models::{DocModel, NVDocument};

verus! {

/// Position in the storage log.
#[derive(Debug, Clone, Copy)]
pub struct StoragePosition {
    pub file_offset: u64,
    pub length: u32,
}

/// Model of a position: offset and payload length as mathematical integers.
pub struct PosModel {
    pub offset: int,
    pub length: int,
}

impl View for StoragePosition {
    type V = PosModel;

    open spec fn view(&self) -> PosModel {
        PosModel { offset: self.file_offset as int, length: self.length as int }
    }
}

/// One identifier with the position of its latest record.
#[derive(Debug, Clone)]
struct IndexEntry {
    id: String,
    pos: StoragePosition,
}

/// Model of the storage engine: the log bytes and the position index as an
/// ordered key/position list with unique keys.
pub struct StoreModel {
    pub log: Seq<u8>,
    pub index: Seq<(Seq<char>, PosModel)>,
}

/// The storage engine: an append-only log of records and the in-memory
/// position index over it.
pub struct FileManager {
    log: Vec<u8>,
    index: Vec<IndexEntry>,
}

impl View for FileManager {
    type V = StoreModel;

    closed spec fn view(&self) -> StoreModel {
        StoreModel {
            log: self.log@,
            index: Seq::new(self.index@.len(), |i: int| (self.index@[i].id@, self.index@[i].pos@)),
        }
    }
}

/// First position bound to an identifier in the index.
pub open spec fn index_lookup(index: Seq<(Seq<char>, PosModel)>, id: Seq<char>) -> Option<PosModel>
    decreases index.len(),
{
    if index.len() == 0 {
        None
    } else if index[0].0 == id {
        Some(index[0].1)
    } else {
        index_lookup(index.drop_first(), id)
    }
}

/// Index after binding an identifier: the first entry with that identifier
/// is replaced in place; a new identifier is appended at the end.
pub open spec fn index_upsert(
    index: Seq<(Seq<char>, PosModel)>,
    id: Seq<char>,
    pos: PosModel,
) -> Seq<(Seq<char>, PosModel)>
    decreases index.len(),
{
    if index.len() == 0 {
        seq![(id, pos)]
    } else if index[0].0 == id {
        seq![(id, pos)] + index.drop_first()
    } else {
        seq![index[0]] + index_upsert(index.drop_first(), id, pos)
    }
}

/// The four parts of a record: payload length, checksum over the payload,
/// the payload, and the tombstone byte.
pub open spec fn record_bytes(payload: Seq<u8>, tombstone: u8) -> Seq<u8> {
    spec_u32_to_le_bytes(payload.len() as u32) + spec_u64_to_le_bytes(fnv1a(payload)) + payload
        + seq![tombstone]
}

/// What a point-read at a position can see.
pub enum ReadOutcome {
    /// The record runs past the end of the log.
    OutOfBounds,
    /// The recomputed checksum disagrees with the stored one.
    Corrupt,
    /// The record's tombstone byte is set.
    Deleted,
    /// The payload does not decode to a document.
    Undecodable,
    /// A live, intact record holding this document.
    Good(DocModel),
}

/// Point-read of the record that starts at `off`: read its length header,
/// checksum, payload and tombstone, verify the checksum, honour the
/// tombstone, and decode the payload.
pub open spec fn read_at_spec(log: Seq<u8>, off: int) -> ReadOutcome {
    if off < 0 || off + 4 > log.len() {
        ReadOutcome::OutOfBounds
    } else {
        let len = spec_u32_from_le_bytes(log.subrange(off, off + 4)) as int;
        if off + 13 + len > log.len() {
            ReadOutcome::OutOfBounds
        } else {
            let stored = spec_u64_from_le_bytes(log.subrange(off + 4, off + 12));
            let payload = log.subrange(off + 12, off + 12 + len);
            let tombstone = log[off + 12 + len];
            if fnv1a(payload) != stored {
                ReadOutcome::Corrupt
            } else if tombstone == 1 {
                ReadOutcome::Deleted
            } else {
                match dec_doc(payload) {
                    Some(d) => ReadOutcome::Good(d),
                    None => ReadOutcome::Undecodable,
                }
            }
        }
    }
}

/// What a read by identifier sees: the index entry, then the point-read.
pub open spec fn read_spec(m: StoreModel, id: Seq<char>) -> ReadOutcome {
    match index_lookup(m.index, id) {
        None => ReadOutcome::Deleted,
        Some(pos) => read_at_spec(m.log, pos.offset),
    }
}

/// Whether a document can be appended: it encodes, its payload length fits
/// the four-byte length header, and the grown log still fits memory.
pub open spec fn can_append(m: StoreModel, d: DocModel) -> bool {
    doc_fits(d) && enc_doc(d).len() <= u32::MAX && m.log.len() + 13 + enc_doc(d).len()
        <= usize::MAX
}

/// The engine after an append: the record joins the end of the log and the
/// index binds the identifier to it.
pub open spec fn append_model(m: StoreModel, d: DocModel) -> StoreModel {
    StoreModel {
        log: m.log + record_bytes(enc_doc(d), 0),
        index: index_upsert(
            m.index,
            d.id,
            PosModel { offset: m.log.len() as int, length: enc_doc(d).len() as int },
        ),
    }
}

impl FileManager {
    /// Fresh engine over an empty log.
    pub fn new() -> (r: FileManager)
        ensures
            r@.log.len() == 0,
            r@.index.len() == 0,
    {
        FileManager { log: Vec::new(), index: Vec::new() }
    }

    /// Engine over previously persisted log bytes; the caller rebuilds the
    /// index before reading.
    pub fn from_log(log: Vec<u8>) -> (r: FileManager)
        ensures
            r@.log == log@,
            r@.index.len() == 0,
    {
        FileManager { log, index: Vec::new() }
    }

    /// Index of the first index entry bound to the identifier, if any.
    fn find_entry(&self, id: &String) -> (r: Option<usize>)
        ensures
            match r {
                Some(i) => i < self.index@.len() && self.index@[i as int].id@ == id@ && forall|
                    k: int,
                |
                    0 <= k < i ==> self.index@[k].id@ != id@,
                None => forall|k: int| 0 <= k < self.index@.len() ==> self.index@[k].id@ != id@,
            },
    {
        let mut i: usize = 0;
        while i < self.index.len()
            invariant
                i <= self.index@.len(),
                forall|k: int| 0 <= k < i ==> self.index@[k].id@ != id@,
            decreases self.index@.len() - i,
        {
            if self.index[i].id == *id {
                return Some(i);
            }
            i = i + 1;
        }
        None
    }

    /// Appends a document as a fresh live record at the end of the log and
    /// binds its identifier to that record.  Fails, leaving the engine
    /// unchanged, exactly when the document cannot be encoded or the log
    /// cannot grow by one record.
    pub fn append(&mut self, document: &NVDocument) -> (r: NVResult<StoragePosition>)
        ensures
            match r {
                Ok(pos) => can_append(old(self)@, document@) && final(self)@ == append_model(
                    old(self)@,
                    document@,
                ) && pos@.offset == old(self)@.log.len() && pos@.length == enc_doc(
                    document@,
                ).len(),
                Err(e) => !can_append(old(self)@, document@) && final(self)@ == old(self)@ && (
                e matches NeuralVaultError::SerializationError(_) || e
                    matches NeuralVaultError::StorageError(_)),
            },
    {
        let payload = match encode_document(document) {
            Some(p) => p,
            None => {
                return Err(
                    NeuralVaultError::SerializationError("document does not encode".to_owned()),
                );
            },
        };
        if payload.len() > 0xffff_ffff {
            return Err(NeuralVaultError::SerializationError("record too large".to_owned()));
        }
        if usize::MAX - self.log.len() < 13 || usize::MAX - self.log.len() - 13 < payload.len() {
            return Err(NeuralVaultError::StorageError("log is full".to_owned()));
        }
        let offset: usize = self.log.len();
        let checksum: u64 = fnv1a_checksum(payload.as_slice());
        let ghost old_log = self.log@;
        crate::codec::push_u32(&mut self.log, payload.len() as u32);
        crate::codec::push_u64(&mut self.log, checksum);
        crate::codec::push_bytes(&mut self.log, payload.as_slice());
        self.log.push(0u8);
        proof {
            assert(self.log@ =~= old_log + record_bytes(enc_doc(document@), 0));
        }
        let position = StoragePosition {
            file_offset: offset as u64,
            length: payload.len() as u32,
        };
        let ghost old_index = self@.index;
        match self.find_entry(&document.id) {
            Some(i) => {
                let id_copy = document.id.clone();
                self.index.set(i, IndexEntry { id: id_copy, pos: position });
                proof {
                    lemma_index_upsert_hit(old_index, document.id@, position@, i as int);
                    assert(self@.index =~= index_upsert(old_index, document@.id, position@));
                }
            },
            None => {
                let id_copy = document.id.clone();
                self.index.push(IndexEntry { id: id_copy, pos: position });
                proof {
                    lemma_index_upsert_miss(old_index, document.id@, position@);
                    assert(self@.index =~= index_upsert(old_index, document@.id, position@));
                }
            },
        }
        Ok(position)
    }

    /// Point-read of the record at a stored position.
    fn read_at(&self, position: StoragePosition) -> (r: NVResult<NVDocument>)
        ensures
            match r {
                Ok(d) => read_at_spec(self@.log, position@.offset) == ReadOutcome::Good(d@),
                Err(e) => match e {
                    NeuralVaultError::IoError(_) => read_at_spec(self@.log, position@.offset)
                        == ReadOutcome::OutOfBounds,
                    NeuralVaultError::StorageError(_) => read_at_spec(self@.log, position@.offset)
                        == ReadOutcome::Corrupt,
                    NeuralVaultError::DocumentNotFound(_) => read_at_spec(
                        self@.log,
                        position@.offset,
                    ) == ReadOutcome::Deleted,
                    NeuralVaultError::SerializationError(_) => read_at_spec(
                        self@.log,
                        position@.offset,
                    ) == ReadOutcome::Undecodable,
                    _ => false,
                },
            },
    {
        let log_len = self.log.len();
        if position.file_offset > usize::MAX as u64 {
            return Err(NeuralVaultError::IoError("offset beyond addressable memory".to_owned()));
        }
        let off = position.file_offset as usize;
        if off > log_len || log_len - off < 4 {
            return Err(NeuralVaultError::IoError("record header past end of log".to_owned()));
        }
        let len_slice = vstd::slice::slice_subrange(self.log.as_slice(), off, off + 4);
        let len = u32_from_le_bytes(len_slice) as usize;
        if log_len - off < 13 || log_len - off - 13 < len {
            return Err(NeuralVaultError::IoError("record body past end of log".to_owned()));
        }
        let sum_slice = vstd::slice::slice_subrange(self.log.as_slice(), off + 4, off + 12);
        let stored = u64_from_le_bytes(sum_slice);
        let payload = vstd::slice::slice_subrange(self.log.as_slice(), off + 12, off + 12 + len);
        let tombstone = self.log[off + 12 + len];
        let actual = fnv1a_checksum(payload);
        if actual != stored {
            return Err(
                NeuralVaultError::StorageError(
                    "checksum mismatch - data corruption detected".to_owned(),
                ),
            );
        }
        if tombstone == 1 {
            return Err(NeuralVaultError::DocumentNotFound("document has been deleted".to_owned()));
        }
        match decode_document(payload) {
            Some(d) => Ok(d),
            None => Err(NeuralVaultError::SerializationError("payload does not decode".to_owned())),
        }
    }

    /// Reads the live document bound to an identifier.  Fails not-found
    /// when the identifier is absent from the index or its record is
    /// tombstoned; surfaces corruption and truncation.
    pub fn read(&self, id: &String) -> (r: NVResult<NVDocument>)
        ensures
            match r {
                Ok(d) => read_spec(self@, id@) == ReadOutcome::Good(d@),
                Err(e) => match e {
                    NeuralVaultError::DocumentNotFound(_) => read_spec(self@, id@)
                        == ReadOutcome::Deleted || index_lookup(self@.index, id@) is None,
                    NeuralVaultError::IoError(_) => read_spec(self@, id@)
                        == ReadOutcome::OutOfBounds,
                    NeuralVaultError::StorageError(_) => read_spec(self@, id@)
                        == ReadOutcome::Corrupt,
                    NeuralVaultError::SerializationError(_) => read_spec(self@, id@)
                        == ReadOutcome::Undecodable,
                    _ => false,
                },
            },
    {
        match self.find_entry(id) {
            None => {
                proof {
                    lemma_index_lookup_miss(self@.index, id@);
                }
                Err(NeuralVaultError::DocumentNotFound(id.clone()))
            },
            Some(i) => {
                proof {
                    lemma_index_lookup_hit(self@.index, id@, i as int);
                }
                let position = self.index[i].pos;
                self.read_at(position)
            },
        }
    }

    /// Flips the tombstone byte of the identifier's record in place.  The
    /// identifier stays in the index, so a later read reports not-found.
    pub fn mark_deleted(&mut self, id: &String) -> (r: NVResult<()>)
        ensures
            match r {
                Ok(()) => ({
                    &&& index_lookup(old(self)@.index, id@) matches Some(pos)
                    &&& {
                        let toff = index_lookup(old(self)@.index, id@)->Some_0.offset + 12
                            + index_lookup(old(self)@.index, id@)->Some_0.length;
                        &&& 0 <= toff < old(self)@.log.len()
                        &&& final(self)@.log == old(self)@.log.update(toff, 1u8)
                        &&& final(self)@.index == old(self)@.index
                    }
                }),
                Err(e) => final(self)@ == old(self)@ && match e {
                    NeuralVaultError::DocumentNotFound(_) => index_lookup(old(self)@.index, id@)
                        is None,
                    NeuralVaultError::IoError(_) => index_lookup(old(self)@.index, id@)
                        matches Some(pos) && pos.offset + 12 + pos.length >= old(self)@.log.len(),
                    _ => false,
                },
            },
    {
        match self.find_entry(id) {
            None => {
                proof {
                    lemma_index_lookup_miss(self@.index, id@);
                }
                Err(NeuralVaultError::DocumentNotFound(id.clone()))
            },
            Some(i) => {
                proof {
                    lemma_index_lookup_hit(self@.index, id@, i as int);
                }
                let position = self.index[i].pos;
                let llen = self.log.len();
                if position.file_offset > usize::MAX as u64 {
                    return Err(
                        NeuralVaultError::IoError("offset beyond addressable memory".to_owned()),
                    );
                }
                let off = position.file_offset as usize;
                let len = position.length as usize;
                if off > llen || llen - off < 13 || llen - off - 13 < len {
                    return Err(
                        NeuralVaultError::IoError("tombstone byte past end of log".to_owned()),
                    );
                }
                let toff = off + 12 + len;
                self.log.set(toff, 1u8);
                Ok(())
            },
        }
    }
}

/// The models of a document vector.
pub open spec fn docs_of(docs: Seq<NVDocument>) -> Seq<DocModel> {
    Seq::new(docs.len(), |i: int| docs[i]@)
}

/// Splices already collected documents onto the rest of a log walk.
pub open spec fn compose_docs(prefix: Seq<DocModel>, rest: Option<Seq<DocModel>>) -> Option<
    Seq<DocModel>,
> {
    match rest {
        Some(rs) => Some(prefix + rs),
        None => None,
    }
}

/// What one index entry contributes to a collection scan: its document,
/// when the point-read succeeds, the collection matches and the document is
/// live.
pub open spec fn scan_contribution(log: Seq<u8>, pos: PosModel, coll: Seq<char>) -> Seq<DocModel> {
    match read_at_spec(log, pos.offset) {
        ReadOutcome::Good(d) => if d.collection == coll && !d.deleted {
            seq![d]
        } else {
            Seq::empty()
        },
        _ => Seq::empty(),
    }
}

/// Collection scan: point-read every index entry in order, keep matching
/// live documents, and skip entries that fail to read.
pub open spec fn scan_collection_spec(
    log: Seq<u8>,
    index: Seq<(Seq<char>, PosModel)>,
    coll: Seq<char>,
) -> Seq<DocModel>
    decreases index.len(),
{
    if index.len() == 0 {
        Seq::empty()
    } else {
        scan_contribution(log, index[0].1, coll) + scan_collection_spec(
            log,
            index.drop_first(),
            coll,
        )
    }
}

/// Scanning one more index entry appends that entry's contribution.
proof fn lemma_scan_collection_snoc(
    log: Seq<u8>,
    index: Seq<(Seq<char>, PosModel)>,
    coll: Seq<char>,
    i: int,
)
    requires
        0 <= i < index.len(),
    ensures
        scan_collection_spec(log, index.take(i + 1), coll) == scan_collection_spec(
            log,
            index.take(i),
            coll,
        ) + scan_contribution(log, index[i].1, coll),
    decreases i,
{
    if i == 0 {
        assert(index.take(0) =~= Seq::<(Seq<char>, PosModel)>::empty());
        let s0 = index.take(1);
        assert(s0.len() == 1 && s0[0] == index[0]);
        assert(s0.drop_first() =~= Seq::<(Seq<char>, PosModel)>::empty());
        assert(scan_collection_spec(log, index.take(1), coll) =~= scan_collection_spec(
            log,
            index.take(0),
            coll,
        ) + scan_contribution(log, index[0].1, coll));
    } else {
        lemma_scan_collection_snoc(log, index.drop_first(), coll, i - 1);
        assert(index.take(i + 1).drop_first() =~= index.drop_first().take(i));
        assert(index.take(i).drop_first() =~= index.drop_first().take(i - 1));
        assert(index.take(i + 1)[0] == index[0]);
        assert(index.take(i)[0] == index[0]);
        assert(index.drop_first()[i - 1] == index[i]);
        assert(scan_collection_spec(log, index.take(i + 1), coll) =~= scan_collection_spec(
            log,
            index.take(i),
            coll,
        ) + scan_contribution(log, index[i].1, coll));
    }
}

/// Walk of the physical log from `pos`: every record in order, keeping the
/// live, intact, decodable ones.  A record whose recomputed checksum
/// disagrees with its stored one is corrupt and silently skipped, like a
/// tombstoned one.  An incomplete trailing header ends the walk cleanly; a
/// record that runs past the end of the log is an error.
pub open spec fn scan_log_spec(log: Seq<u8>, pos: int) -> Option<Seq<DocModel>>
    decreases log.len() - pos,
{
    if pos < 0 || pos + 4 > log.len() {
        Some(Seq::empty())
    } else {
        let len = spec_u32_from_le_bytes(log.subrange(pos, pos + 4)) as int;
        let end = pos + 13 + len;
        if end > log.len() {
            None
        } else {
            let stored = spec_u64_from_le_bytes(log.subrange(pos + 4, pos + 12));
            let payload = log.subrange(pos + 12, pos + 12 + len);
            let tomb = log[end - 1];
            match scan_log_spec(log, end) {
                Some(rest) => if tomb == 0 && fnv1a(payload) == stored {
                    match dec_doc(payload) {
                        Some(d) => Some(seq![d] + rest),
                        None => Some(rest),
                    }
                } else {
                    Some(rest)
                },
                None => None,
            }
        }
    }
}

/// Index that a walk of the physical log builds: every live decodable
/// record binds its identifier to its offset and length, a later record
/// overwriting an earlier binding.
pub open spec fn rebuild_log_spec(
    log: Seq<u8>,
    pos: int,
    acc: Seq<(Seq<char>, PosModel)>,
) -> Option<Seq<(Seq<char>, PosModel)>>
    decreases log.len() - pos,
{
    if pos < 0 || pos + 4 > log.len() {
        Some(acc)
    } else {
        let len = spec_u32_from_le_bytes(log.subrange(pos, pos + 4)) as int;
        let end = pos + 13 + len;
        if end > log.len() {
            None
        } else {
            let payload = log.subrange(pos + 12, pos + 12 + len);
            let tomb = log[end - 1];
            let acc2 = if tomb == 0 {
                match dec_doc(payload) {
                    Some(d) => index_upsert(acc, d.id, PosModel { offset: pos, length: len }),
                    None => acc,
                }
            } else {
                acc
            };
            rebuild_log_spec(log, end, acc2)
        }
    }
}

/// The index that reconstruction derives from the log alone.
pub open spec fn rebuild_spec(log: Seq<u8>) -> Option<Seq<(Seq<char>, PosModel)>> {
    rebuild_log_spec(log, 0, Seq::empty())
}

/// Storage statistics: live index entries and total log bytes, garbage
/// included.
#[derive(Debug)]
pub struct StorageStats {
    pub document_count: usize,
    pub file_size_bytes: u64,
}

impl FileManager {
    /// All live documents of one collection, in index order; entries that
    /// fail to read are skipped, never a failure of the whole scan.
    pub fn scan_collection(&self, collection: &String) -> (r: NVResult<Vec<NVDocument>>)
        ensures
            r matches Ok(docs) && docs_of(docs@) == scan_collection_spec(
                self@.log,
                self@.index,
                collection@,
            ),
    {
        let ghost m = self@;
        let mut documents: Vec<NVDocument> = Vec::new();
        let mut i: usize = 0;
        proof {
            assert(m.index.take(0) =~= Seq::<(Seq<char>, PosModel)>::empty());
            assert(docs_of(documents@) =~= scan_collection_spec(m.log, m.index.take(0), collection@));
        }
        while i < self.index.len()
            invariant
                i <= self.index@.len(),
                self@ == m,
                docs_of(documents@) == scan_collection_spec(m.log, m.index.take(i as int), collection@),
            decreases self.index@.len() - i,
        {
            let position = self.index[i].pos;
            proof {
                assert(m.index[i as int].1 == position@);
                lemma_scan_collection_snoc(m.log, m.index, collection@, i as int);
            }
            match self.read_at(position) {
                Ok(doc) => {
                    if doc.collection == *collection && !doc.deleted {
                        let ghost before = documents@;
                        documents.push(doc);
                        proof {
                            assert(docs_of(documents@) =~= docs_of(before) + seq![doc@]);
                        }
                    }
                },
                Err(_) => {},
            }
            proof {
                assert(docs_of(documents@) =~= scan_collection_spec(
                    m.log,
                    m.index.take(i + 1),
                    collection@,
                ));
            }
            i = i + 1;
        }
        proof {
            assert(m.index.take(m.index.len() as int) =~= m.index);
        }
        Ok(documents)
    }

    /// Walks the whole log from its start and returns every live, intact,
    /// decodable document in physical order; corrupted records are silently
    /// skipped.  Fails only when a record runs past the end of the log; an
    /// incomplete trailing header ends the walk cleanly.
    pub fn scan_all(&self) -> (r: NVResult<Vec<NVDocument>>)
        ensures
            match r {
                Ok(docs) => scan_log_spec(self@.log, 0) == Some(docs_of(docs@)),
                Err(e) => scan_log_spec(self@.log, 0) is None && e
                    matches NeuralVaultError::IoError(_),
            },
    {
        let ghost log = self@.log;
        let mut documents: Vec<NVDocument> = Vec::new();
        let mut cur: usize = 0;
        let log_len = self.log.len();
        proof {
            assert(docs_of(documents@) =~= Seq::<DocModel>::empty());
        }
        loop
            invariant
                cur <= log_len,
                log_len == log.len(),
                self@.log == log,
                scan_log_spec(log, 0) == compose_docs(docs_of(documents@), scan_log_spec(log, cur as int)),
            decreases log.len() - cur,
        {
            if log_len - cur < 4 {
                proof {
                    assert(scan_log_spec(log, cur as int) == Some(Seq::<DocModel>::empty()));
                    assert(docs_of(documents@) + Seq::<DocModel>::empty() =~= docs_of(documents@));
                }
                return Ok(documents);
            }
            let len_slice = vstd::slice::slice_subrange(self.log.as_slice(), cur, cur + 4);
            let len = u32_from_le_bytes(len_slice) as usize;
            if log_len - cur < 13 || log_len - cur - 13 < len {
                return Err(NeuralVaultError::IoError("record runs past end of log".to_owned()));
            }
            let end = cur + 13 + len;
            let tomb = self.log[end - 1];
            if tomb == 0 {
                let sum_slice = vstd::slice::slice_subrange(self.log.as_slice(), cur + 4, cur + 12);
                let stored = u64_from_le_bytes(sum_slice);
                let payload = vstd::slice::slice_subrange(
                    self.log.as_slice(),
                    cur + 12,
                    cur + 12 + len,
                );
                let actual = fnv1a_checksum(payload);
                if actual == stored {
                    match decode_document(payload) {
                        Some(doc) => {
                            proof {
                                let pre = docs_of(documents@);
                                if let Some(rest) = scan_log_spec(log, end as int) {
                                    assert((pre + seq![doc@]) + rest =~= pre + (seq![doc@] + rest));
                                }
                                assert(docs_of(documents@.push(doc)) =~= pre + seq![doc@]);
                            }
                            documents.push(doc);
                        },
                        None => {},
                    }
                }
            }
            cur = end;
        }
    }

    /// Reconstructs the position index by walking the physical log:
    /// every live decodable record binds its identifier to its offset and
    /// length, later records overwriting earlier bindings, and tombstoned
    /// or undecodable records still advancing the walk.  The log and, on
    /// failure, the engine are unchanged.
    pub fn rebuild_index(&mut self) -> (r: NVResult<()>)
        ensures
            final(self)@.log == old(self)@.log,
            match r {
                Ok(()) => rebuild_spec(old(self)@.log) == Some(final(self)@.index),
                Err(e) => rebuild_spec(old(self)@.log) is None && final(self)@.index == old(
                    self,
                )@.index && e matches NeuralVaultError::IoError(_),
            },
    {
        let ghost log = self@.log;
        let mut fresh: Vec<IndexEntry> = Vec::new();
        let mut cur: usize = 0;
        let log_len = self.log.len();
        proof {
            assert(entries_model(fresh@) =~= Seq::<(Seq<char>, PosModel)>::empty());
        }
        loop
            invariant
                cur <= log_len,
                log_len == log.len(),
                self@.log == log,
                self@.index == old(self)@.index,
                rebuild_spec(log) == rebuild_log_spec(log, cur as int, entries_model(fresh@)),
            ensures
                cur <= log_len,
                log_len - cur < 4,
                self@.log == log,
                self@.index == old(self)@.index,
                rebuild_spec(log) == rebuild_log_spec(log, cur as int, entries_model(fresh@)),
            decreases log.len() - cur,
        {
            if log_len - cur < 4 {
                break;
            }
            let len_slice = vstd::slice::slice_subrange(self.log.as_slice(), cur, cur + 4);
            let len = u32_from_le_bytes(len_slice) as usize;
            if log_len - cur < 13 || log_len - cur - 13 < len {
                return Err(NeuralVaultError::IoError("record runs past end of log".to_owned()));
            }
            let end = cur + 13 + len;
            let tomb = self.log[end - 1];
            if tomb == 0 {
                let payload = vstd::slice::slice_subrange(
                    self.log.as_slice(),
                    cur + 12,
                    cur + 12 + len,
                );
                match decode_document(payload) {
                    Some(doc) => {
                        let position = StoragePosition {
                            file_offset: cur as u64,
                            length: len as u32,
                        };
                        let ghost before = entries_model(fresh@);
                        match find_in(&fresh, &doc.id) {
                            Some(j) => {
                                fresh.set(j, IndexEntry { id: doc.id, pos: position });
                                proof {
                                    lemma_index_upsert_hit(before, doc@.id, position@, j as int);
                                    assert(entries_model(fresh@) =~= index_upsert(
                                        before,
                                        doc@.id,
                                        position@,
                                    ));
                                }
                            },
                            None => {
                                fresh.push(IndexEntry { id: doc.id, pos: position });
                                proof {
                                    lemma_index_upsert_miss(before, doc@.id, position@);
                                    assert(entries_model(fresh@) =~= index_upsert(
                                        before,
                                        doc@.id,
                                        position@,
                                    ));
                                }
                            },
                        }
                    },
                    None => {},
                }
            }
            cur = end;
        }
        self.index = fresh;
        Ok(())
    }

    /// A copy of the raw log bytes, for persistence outside the engine.
    pub fn log_bytes(&self) -> (r: Vec<u8>)
        ensures
            r@ == self@.log,
    {
        vstd::slice::slice_to_vec(self.log.as_slice())
    }

    /// Current index size and total log size in bytes.
    pub fn statistics(&self) -> (r: StorageStats)
        ensures
            r.document_count == self@.index.len(),
            r.file_size_bytes == self@.log.len(),
    {
        StorageStats {
            document_count: self.index.len(),
            file_size_bytes: self.log.len() as u64,
        }
    }
}

/// The model of an index entry vector.
spec fn entries_model(entries: Seq<IndexEntry>) -> Seq<(Seq<char>, PosModel)> {
    Seq::new(entries.len(), |i: int| (entries[i].id@, entries[i].pos@))
}

/// Index of the first entry of the vector bound to the identifier, if any.
fn find_in(index: &Vec<IndexEntry>, id: &String) -> (r: Option<usize>)
    ensures
        match r {
            Some(i) => i < index@.len() && index@[i as int].id@ == id@ && forall|k: int|
                0 <= k < i ==> index@[k].id@ != id@,
            None => forall|k: int| 0 <= k < index@.len() ==> index@[k].id@ != id@,
        },
{
    let mut i: usize = 0;
    while i < index.len()
        invariant
            i <= index@.len(),
            forall|k: int| 0 <= k < i ==> index@[k].id@ != id@,
        decreases index@.len() - i,
    {
        if index[i].id == *id {
            return Some(i);
        }
        i = i + 1;
    }
    None
}

// ---------------------------------------------------------------------------
// Laws of the storage engine
// ---------------------------------------------------------------------------

/// Append-then-read: reading an identifier right after appending a document
/// with that identifier sees exactly that document.
pub proof fn lemma_read_after_append(m: StoreModel, d: DocModel)
    requires
        doc_fits(d),
        enc_doc(d).len() <= u32::MAX,
    ensures
        read_spec(append_model(m, d), d.id) == ReadOutcome::Good(d),
{
    let payload = enc_doc(d);
    let m2 = append_model(m, d);
    let off = m.log.len() as int;
    let pos = PosModel { offset: off, length: payload.len() as int };
    lemma_lookup_after_upsert(m.index, d.id, pos);
    lemma_auto_spec_u32_to_from_le_bytes();
    lemma_auto_spec_u64_to_from_le_bytes();
    assert(m2.log.subrange(off, off + 4) =~= spec_u32_to_le_bytes(payload.len() as u32));
    assert(m2.log.subrange(off + 4, off + 12) =~= spec_u64_to_le_bytes(fnv1a(payload)));
    assert(m2.log.subrange(off + 12, off + 12 + payload.len()) =~= payload);
    assert(m2.log[off + 12 + payload.len()] == 0u8);
    crate::codec::lemma_dec_enc_doc(d);
}

/// Soft-delete hides: flipping the tombstone byte of an identifier's intact
/// record makes a read of that identifier report it deleted, while the
/// identifier stays in the index and the rest of the log is untouched.
pub proof fn lemma_read_after_delete(m: StoreModel, id: Seq<char>)
    requires
        index_lookup(m.index, id) is Some,
        ({
            let pos = index_lookup(m.index, id)->Some_0;
            &&& 0 <= pos.offset
            &&& pos.offset + 13 + pos.length <= m.log.len()
            &&& 0 <= pos.length <= u32::MAX
            &&& spec_u32_from_le_bytes(m.log.subrange(pos.offset, pos.offset + 4)) == pos.length
            &&& fnv1a(m.log.subrange(pos.offset + 12, pos.offset + 12 + pos.length))
                == spec_u64_from_le_bytes(m.log.subrange(pos.offset + 4, pos.offset + 12))
        }),
    ensures
        ({
            let pos = index_lookup(m.index, id)->Some_0;
            let m2 = StoreModel {
                log: m.log.update(pos.offset + 12 + pos.length, 1u8),
                index: m.index,
            };
            read_spec(m2, id) == ReadOutcome::Deleted
        }),
{
    let pos = index_lookup(m.index, id)->Some_0;
    let m2 = StoreModel {
        log: m.log.update(pos.offset + 12 + pos.length, 1u8),
        index: m.index,
    };
    assert(m2.log.subrange(pos.offset, pos.offset + 4) =~= m.log.subrange(
        pos.offset,
        pos.offset + 4,
    ));
    assert(m2.log.subrange(pos.offset + 4, pos.offset + 12) =~= m.log.subrange(
        pos.offset + 4,
        pos.offset + 12,
    ));
    assert(m2.log.subrange(pos.offset + 12, pos.offset + 12 + pos.length) =~= m.log.subrange(
        pos.offset + 12,
        pos.offset + 12 + pos.length,
    ));
    assert(m2.log[pos.offset + 12 + pos.length] == 1u8);
}

/// Update creates a new latest record: appending twice for one identifier
/// leaves both records in the log, and a read resolves to the second.
pub proof fn lemma_two_appends_read_latest(m: StoreModel, d1: DocModel, d2: DocModel)
    requires
        doc_fits(d2),
        enc_doc(d2).len() <= u32::MAX,
        d1.id == d2.id,
    ensures
        append_model(append_model(m, d1), d2).log == m.log + record_bytes(enc_doc(d1), 0)
            + record_bytes(enc_doc(d2), 0),
        read_spec(append_model(append_model(m, d1), d2), d2.id) == ReadOutcome::Good(d2),
{
    lemma_read_after_append(append_model(m, d1), d2);
}

/// The walk of the physical log from `pos` lands exactly on the end of the
/// log: every record is complete and no partial trailing header remains.
/// Logs built only by appends have this shape.
pub open spec fn walk_to_end(log: Seq<u8>, pos: int) -> bool
    decreases log.len() - pos,
{
    if pos == log.len() {
        true
    } else if pos < 0 || pos + 4 > log.len() {
        false
    } else {
        let len = spec_u32_from_le_bytes(log.subrange(pos, pos + 4)) as int;
        let end = pos + 13 + len;
        end <= log.len() && walk_to_end(log, end)
    }
}

/// What one record built by `record_bytes` contributes to the walk's live
/// output: its document, when it is live and decodable; such a record's
/// stored checksum matches its payload by construction.
pub open spec fn record_contribution(payload: Seq<u8>, t: u8) -> Seq<DocModel> {
    if t == 0 {
        match dec_doc(payload) {
            Some(d) => seq![d],
            None => Seq::empty(),
        }
    } else {
        Seq::empty()
    }
}

/// Appending one record to a cleanly walked log extends the walk's live
/// output by exactly that record's contribution, and keeps the walk clean.
pub proof fn lemma_scan_after_append(log: Seq<u8>, pos: int, payload: Seq<u8>, t: u8)
    requires
        0 <= pos,
        walk_to_end(log, pos),
        payload.len() <= u32::MAX,
    ensures
        walk_to_end(log + record_bytes(payload, t), pos),
        scan_log_spec(log, pos) is Some,
        scan_log_spec(log + record_bytes(payload, t), pos) == Some(
            scan_log_spec(log, pos)->Some_0 + record_contribution(payload, t),
        ),
    decreases log.len() - pos,
{
    lemma_auto_spec_u32_to_from_le_bytes();
    lemma_auto_spec_u64_to_from_le_bytes();
    let log2 = log + record_bytes(payload, t);
    assert(record_bytes(payload, t).len() == 13 + payload.len());
    if pos == log.len() {
        assert(scan_log_spec(log, pos) == Some(Seq::<DocModel>::empty()));
        assert(log2.subrange(pos, pos + 4) =~= spec_u32_to_le_bytes(payload.len() as u32));
        assert(log2.subrange(pos + 4, pos + 12) =~= spec_u64_to_le_bytes(fnv1a(payload)));
        let end = pos + 13 + payload.len();
        assert(end == log2.len());
        assert(log2.subrange(pos + 12, pos + 12 + payload.len()) =~= payload);
        assert(log2[end - 1] == t);
        assert(scan_log_spec(log2, end) == Some(Seq::<DocModel>::empty()));
        assert(walk_to_end(log2, end));
        assert(Seq::<DocModel>::empty() + record_contribution(payload, t)
            =~= record_contribution(payload, t));
        if t == 0 {
            if let Some(d) = dec_doc(payload) {
                assert(seq![d] + Seq::<DocModel>::empty() =~= seq![d]);
            }
        }
    } else {
        let len = spec_u32_from_le_bytes(log.subrange(pos, pos + 4)) as int;
        let end = pos + 13 + len;
        assert(end <= log.len() && walk_to_end(log, end));
        assert(log2.subrange(pos, pos + 4) =~= log.subrange(pos, pos + 4));
        assert(log2.subrange(pos + 4, pos + 12) =~= log.subrange(pos + 4, pos + 12));
        assert(log2.subrange(pos + 12, pos + 12 + len) =~= log.subrange(pos + 12, pos + 12 + len));
        assert(log2[end - 1] == log[end - 1]);
        lemma_scan_after_append(log, end, payload, t);
        let head = log.subrange(pos + 12, pos + 12 + len);
        let rest1 = scan_log_spec(log, end)->Some_0;
        let c = record_contribution(payload, t);
        if log[end - 1] == 0 && fnv1a(head) == spec_u64_from_le_bytes(
            log.subrange(pos + 4, pos + 12),
        ) {
            if let Some(d) = dec_doc(head) {
                assert((seq![d] + rest1) + c =~= seq![d] + (rest1 + c));
            }
        }
    }
}

/// Soft-delete hides from the walk: before the tombstone flip the appended
/// document is the walk's last live entry; after the flip the walk visits
/// the same bytes yet excludes it, and the log keeps its length.
pub proof fn lemma_delete_hides_from_scan(m: StoreModel, d: DocModel)
    requires
        walk_to_end(m.log, 0),
        doc_fits(d),
        enc_doc(d).len() <= u32::MAX,
    ensures
        scan_log_spec(append_model(m, d).log, 0) == Some(
            scan_log_spec(m.log, 0)->Some_0 + seq![d],
        ),
        scan_log_spec(
            append_model(m, d).log.update((m.log.len() + 12 + enc_doc(d).len()) as int, 1u8),
            0,
        ) == scan_log_spec(m.log, 0),
        append_model(m, d).log.update((m.log.len() + 12 + enc_doc(d).len()) as int, 1u8).len()
            == append_model(m, d).log.len(),
{
    lemma_auto_spec_u32_to_from_le_bytes();
    lemma_auto_spec_u64_to_from_le_bytes();
    let payload = enc_doc(d);
    crate::codec::lemma_dec_enc_doc(d);
    lemma_scan_after_append(m.log, 0, payload, 0);
    assert(record_contribution(payload, 0) =~= seq![d]);
    lemma_scan_after_append(m.log, 0, payload, 1);
    assert(append_model(m, d).log.update((m.log.len() + 12 + payload.len()) as int, 1u8) =~= m.log
        + record_bytes(payload, 1));
    assert(record_contribution(payload, 1) =~= Seq::<DocModel>::empty());
    assert(scan_log_spec(m.log, 0)->Some_0 + Seq::<DocModel>::empty() =~= scan_log_spec(
        m.log,
        0,
    )->Some_0);
}

/// Update creates new trailing records: after two appends for one
/// identifier the walk's live output has grown by both documents — the
/// full history stays physically present — while a read resolves only the
/// most recent.
pub proof fn lemma_two_appends_keep_history(m: StoreModel, d1: DocModel, d2: DocModel)
    requires
        walk_to_end(m.log, 0),
        doc_fits(d1),
        doc_fits(d2),
        enc_doc(d1).len() <= u32::MAX,
        enc_doc(d2).len() <= u32::MAX,
        d1.id == d2.id,
    ensures
        scan_log_spec(append_model(append_model(m, d1), d2).log, 0) == Some(
            scan_log_spec(m.log, 0)->Some_0 + seq![d1] + seq![d2],
        ),
        read_spec(append_model(append_model(m, d1), d2), d2.id) == ReadOutcome::Good(d2),
{
    crate::codec::lemma_dec_enc_doc(d1);
    crate::codec::lemma_dec_enc_doc(d2);
    lemma_scan_after_append(m.log, 0, enc_doc(d1), 0);
    let m2 = append_model(m, d1);
    lemma_scan_after_append(m2.log, 0, enc_doc(d2), 0);
    assert(record_contribution(enc_doc(d1), 0) =~= seq![d1]);
    assert(record_contribution(enc_doc(d2), 0) =~= seq![d2]);
    lemma_read_after_append(m2, d2);
}

/// What one record does to an index under reconstruction: a live decodable
/// record binds its identifier to its place; any other record changes
/// nothing.
pub open spec fn index_after_record(
    acc: Seq<(Seq<char>, PosModel)>,
    payload: Seq<u8>,
    t: u8,
    off: int,
) -> Seq<(Seq<char>, PosModel)> {
    if t == 0 {
        match dec_doc(payload) {
            Some(d) => index_upsert(acc, d.id, PosModel { offset: off, length: payload.len() as int }),
            None => acc,
        }
    } else {
        acc
    }
}

/// Appending one record to a cleanly walked log makes reconstruction build
/// the old index and then apply that record's binding.
pub proof fn lemma_rebuild_after_append(
    log: Seq<u8>,
    pos: int,
    acc: Seq<(Seq<char>, PosModel)>,
    payload: Seq<u8>,
    t: u8,
)
    requires
        0 <= pos,
        walk_to_end(log, pos),
        payload.len() <= u32::MAX,
    ensures
        rebuild_log_spec(log, pos, acc) is Some,
        rebuild_log_spec(log + record_bytes(payload, t), pos, acc) == Some(
            index_after_record(
                rebuild_log_spec(log, pos, acc)->Some_0,
                payload,
                t,
                log.len() as int,
            ),
        ),
    decreases log.len() - pos,
{
    lemma_auto_spec_u32_to_from_le_bytes();
    lemma_auto_spec_u64_to_from_le_bytes();
    let log2 = log + record_bytes(payload, t);
    assert(record_bytes(payload, t).len() == 13 + payload.len());
    if pos == log.len() {
        assert(rebuild_log_spec(log, pos, acc) == Some(acc));
        assert(log2.subrange(pos, pos + 4) =~= spec_u32_to_le_bytes(payload.len() as u32));
        let end = pos + 13 + payload.len();
        assert(end == log2.len());
        assert(log2.subrange(pos + 12, pos + 12 + payload.len()) =~= payload);
        assert(log2[end - 1] == t);
        assert(rebuild_log_spec(log2, end as int, index_after_record(acc, payload, t, pos))
            == Some(index_after_record(acc, payload, t, pos)));
    } else {
        let len = spec_u32_from_le_bytes(log.subrange(pos, pos + 4)) as int;
        let end = pos + 13 + len;
        assert(end <= log.len() && walk_to_end(log, end));
        assert(log2.subrange(pos, pos + 4) =~= log.subrange(pos, pos + 4));
        assert(log2.subrange(pos + 12, pos + 12 + len) =~= log.subrange(pos + 12, pos + 12 + len));
        assert(log2[end - 1] == log[end - 1]);
        let head = log.subrange(pos + 12, pos + 12 + len);
        let acc2 = if log[end - 1] == 0 {
            match dec_doc(head) {
                Some(d) => index_upsert(acc, d.id, PosModel { offset: pos, length: len }),
                None => acc,
            }
        } else {
            acc
        };
        lemma_rebuild_after_append(log, end, acc2, payload, t);
    }
}

/// Update creates a new latest record and reconstruction honours it: after
/// two appends for one identifier over a cleanly walked log, rebuilding
/// binds the identifier to the second record, and the point-read there
/// sees the second document.
pub proof fn lemma_rebuild_resolves_latest(m: StoreModel, d1: DocModel, d2: DocModel)
    requires
        walk_to_end(m.log, 0),
        doc_fits(d1),
        doc_fits(d2),
        enc_doc(d1).len() <= u32::MAX,
        enc_doc(d2).len() <= u32::MAX,
        d1.id == d2.id,
    ensures
        ({
            let log3 = append_model(append_model(m, d1), d2).log;
            let off2 = m.log.len() + record_bytes(enc_doc(d1), 0).len();
            &&& rebuild_spec(log3) is Some
            &&& index_lookup(rebuild_spec(log3)->Some_0, d2.id) == Some(
                PosModel { offset: off2 as int, length: enc_doc(d2).len() as int },
            )
            &&& read_at_spec(log3, off2 as int) == ReadOutcome::Good(d2)
        }),
{
    crate::codec::lemma_dec_enc_doc(d1);
    crate::codec::lemma_dec_enc_doc(d2);
    let m2 = append_model(m, d1);
    let m3 = append_model(m2, d2);
    lemma_scan_after_append(m.log, 0, enc_doc(d1), 0);
    lemma_rebuild_after_append(m.log, 0, Seq::empty(), enc_doc(d1), 0);
    lemma_rebuild_after_append(m2.log, 0, Seq::empty(), enc_doc(d2), 0);
    let r1 = rebuild_spec(m.log)->Some_0;
    let idx2 = index_upsert(
        r1,
        d1.id,
        PosModel { offset: m.log.len() as int, length: enc_doc(d1).len() as int },
    );
    let idx3 = index_upsert(
        idx2,
        d2.id,
        PosModel { offset: m2.log.len() as int, length: enc_doc(d2).len() as int },
    );
    assert(rebuild_spec(m3.log) == Some(idx3));
    lemma_lookup_after_upsert(
        idx2,
        d2.id,
        PosModel { offset: m2.log.len() as int, length: enc_doc(d2).len() as int },
    );
    lemma_read_after_append(m2, d2);
    lemma_lookup_after_upsert(
        m2.index,
        d2.id,
        PosModel { offset: m2.log.len() as int, length: enc_doc(d2).len() as int },
    );
}

/// Checksum sensitivity: flipping any single payload byte of a stored
/// intact record makes the next point-read of it fail as corrupt, never
/// return a silently wrong value.
pub proof fn lemma_byte_flip_corrupts_read(log: Seq<u8>, off: int, len: int, j: int, b: u8)
    requires
        0 <= off,
        0 <= len <= u32::MAX,
        off + 13 + len <= log.len(),
        spec_u32_from_le_bytes(log.subrange(off, off + 4)) == len,
        spec_u64_from_le_bytes(log.subrange(off + 4, off + 12)) == fnv1a(
            log.subrange(off + 12, off + 12 + len),
        ),
        off + 12 <= j < off + 12 + len,
        b != log[j],
    ensures
        read_at_spec(log.update(j, b), off) == ReadOutcome::Corrupt,
{
    let log2 = log.update(j, b);
    assert(log2.subrange(off, off + 4) =~= log.subrange(off, off + 4));
    assert(log2.subrange(off + 4, off + 12) =~= log.subrange(off + 4, off + 12));
    let payload = log.subrange(off + 12, off + 12 + len);
    let payload2 = log2.subrange(off + 12, off + 12 + len);
    assert(payload2 == payload.update(j - off - 12, b)) by {
        assert(payload2 =~= payload.update(j - off - 12, b));
    }
    crate::checksum::lemma_checksum_byte_flip(payload, payload2, j - off - 12);
}

/// Rebuild idempotence: reconstruction leaves the log unchanged and derives
/// the index from the log alone, so a second reconstruction over the
/// unchanged log produces the identical index.
pub proof fn lemma_rebuild_idempotent(m: StoreModel)
    requires
        rebuild_spec(m.log) is Some,
    ensures
        ({
            let m1 = StoreModel { log: m.log, index: rebuild_spec(m.log)->Some_0 };
            rebuild_spec(m1.log) == Some(m1.index)
        }),
{
}

/// A linear index search that stops at `i` finds what the index lookup
/// names.
proof fn lemma_index_lookup_hit(index: Seq<(Seq<char>, PosModel)>, id: Seq<char>, i: int)
    requires
        0 <= i < index.len(),
        index[i].0 == id,
        forall|k: int| 0 <= k < i ==> index[k].0 != id,
    ensures
        index_lookup(index, id) == Some(index[i].1),
    decreases i,
{
    if i > 0 {
        lemma_index_lookup_hit(index.drop_first(), id, i - 1);
    }
}

/// A linear index search that finds nothing matches the index lookup.
proof fn lemma_index_lookup_miss(index: Seq<(Seq<char>, PosModel)>, id: Seq<char>)
    requires
        forall|k: int| 0 <= k < index.len() ==> index[k].0 != id,
    ensures
        index_lookup(index, id) is None,
    decreases index.len(),
{
    if index.len() > 0 {
        lemma_index_lookup_miss(index.drop_first(), id);
    }
}

/// Binding an identifier present at `i` (and nowhere earlier) rewrites
/// exactly that entry.
proof fn lemma_index_upsert_hit(
    index: Seq<(Seq<char>, PosModel)>,
    id: Seq<char>,
    pos: PosModel,
    i: int,
)
    requires
        0 <= i < index.len(),
        index[i].0 == id,
        forall|k: int| 0 <= k < i ==> index[k].0 != id,
    ensures
        index_upsert(index, id, pos) == index.update(i, (id, pos)),
    decreases i,
{
    if i == 0 {
        assert(index_upsert(index, id, pos) =~= index.update(0, (id, pos)));
    } else {
        lemma_index_upsert_hit(index.drop_first(), id, pos, i - 1);
        assert(index_upsert(index, id, pos) =~= index.update(i, (id, pos)));
    }
}

/// Binding an absent identifier appends the new entry.
proof fn lemma_index_upsert_miss(index: Seq<(Seq<char>, PosModel)>, id: Seq<char>, pos: PosModel)
    requires
        forall|k: int| 0 <= k < index.len() ==> index[k].0 != id,
    ensures
        index_upsert(index, id, pos) == index.push((id, pos)),
    decreases index.len(),
{
    if index.len() == 0 {
        assert(index_upsert(index, id, pos) =~= index.push((id, pos)));
    } else {
        lemma_index_upsert_miss(index.drop_first(), id, pos);
        assert(index_upsert(index, id, pos) =~= index.push((id, pos)));
    }
}

/// Looking an identifier up right after binding it finds the new position.
pub proof fn lemma_lookup_after_upsert(
    index: Seq<(Seq<char>, PosModel)>,
    id: Seq<char>,
    pos: PosModel,
)
    ensures
        index_lookup(index_upsert(index, id, pos), id) == Some(pos),
    decreases index.len(),
{
    if index.len() > 0 && index[0].0 != id {
        lemma_lookup_after_upsert(index.drop_first(), id, pos);
        assert((seq![index[0]] + index_upsert(index.drop_first(), id, pos)).drop_first()
            =~= index_upsert(index.drop_first(), id, pos));
    }
}

} // verus!
