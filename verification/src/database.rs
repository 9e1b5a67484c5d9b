use vstd::prelude::*;
use crate::error::{NVResult, NeuralVaultError};
use crate::models::{
    entries_of, set_entry, DatabaseConfig, DocModel, NVDocument, NVField, NVQuery, UpdateOperation,
    Val,
};
use crate::query::{filter_spec, str_cmp, QueryProcessor};
use crate::storage::{
    append_model, can_append, docs_of, index_lookup, read_spec, rebuild_spec,
    scan_collection_spec, scan_log_spec, FileManager, ReadOutcome, StoreModel,
};

verus! {

/// Model of the vault: the storage engine's model and the readiness flag.
pub struct VaultModel {
    pub store: StoreModel,
    pub initialized: bool,
}

/// Main database engine: storage, query evaluation and orchestration.
pub struct NeuralVault {
    config: DatabaseConfig,
    storage: FileManager,
    query_processor: QueryProcessor,
    initialized: bool,
}

impl View for NeuralVault {
    type V = VaultModel;

    closed spec fn view(&self) -> VaultModel {
        VaultModel { store: self.storage@, initialized: self.initialized }
    }
}

/// Relies on uuid::Uuid::new_v4 and its hyphenated text form: a fresh
/// random identifier, 36 characters long.  Nothing but the length is
/// assumed: collisions are improbable, not impossible.
#[verifier::external_body]
fn fresh_id() -> (r: String)
    ensures
        r@.len() == 36,
{
    uuid::Uuid::new_v4().to_string()
}

/// A document as the facade builds it before appending.
pub open spec fn mk_doc(
    id: Seq<char>,
    collection: Seq<char>,
    data: Seq<(Seq<char>, Val)>,
    t: i64,
) -> DocModel {
    DocModel { id, collection, data, created_at: t, updated_at: t, deleted: false }
}

/// The field map after every update operation is applied, first to last.
pub open spec fn set_entries(
    data: Seq<(Seq<char>, Val)>,
    ups: Seq<(Seq<char>, Val)>,
) -> Seq<(Seq<char>, Val)>
    decreases ups.len(),
{
    if ups.len() == 0 {
        data
    } else {
        set_entries(set_entry(data, ups[0].0, ups[0].1), ups.drop_first())
    }
}

/// The models of an update operation vector.
pub open spec fn ups_of(ups: Seq<UpdateOperation>) -> Seq<(Seq<char>, Val)> {
    Seq::new(ups.len(), |i: int| (ups[i].field@, ups[i].value@))
}

/// A document after the update operations: fields replaced or inserted,
/// and, when there was at least one operation, the update timestamp bumped.
pub open spec fn apply_updates(d: DocModel, ups: Seq<(Seq<char>, Val)>, t: i64) -> DocModel {
    DocModel {
        id: d.id,
        collection: d.collection,
        data: set_entries(d.data, ups),
        created_at: d.created_at,
        updated_at: if ups.len() > 0 {
            t
        } else {
            d.updated_at
        },
        deleted: d.deleted,
    }
}

/// The engine after updating a run of documents: each is updated in memory
/// and appended as a new trailing record, in order.  Nothing when some
/// rewritten document cannot be appended.
pub open spec fn update_batch(
    m: StoreModel,
    docs: Seq<DocModel>,
    ups: Seq<(Seq<char>, Val)>,
    ts: Seq<i64>,
) -> Option<StoreModel>
    decreases docs.len(),
{
    if docs.len() == 0 {
        Some(m)
    } else if can_append(m, apply_updates(docs[0], ups, ts[0])) {
        update_batch(
            append_model(m, apply_updates(docs[0], ups, ts[0])),
            docs.drop_first(),
            ups,
            ts.drop_first(),
        )
    } else {
        None
    }
}

/// One soft delete at the model level: the tombstone byte of the
/// identifier's record is set in place; nothing else moves.  Nothing when
/// the identifier is unknown or its record runs past the end of the log.
pub open spec fn kill_one(m: StoreModel, id: Seq<char>) -> Option<StoreModel> {
    match index_lookup(m.index, id) {
        Some(pos) => {
            let toff = pos.offset + 12 + pos.length;
            if 0 <= toff && toff < m.log.len() {
                Some(StoreModel { log: m.log.update(toff, 1u8), index: m.index })
            } else {
                None
            }
        },
        None => None,
    }
}

/// The engine after soft-deleting a run of identifiers, in order.
pub open spec fn kill_batch(m: StoreModel, ids: Seq<Seq<char>>) -> Option<StoreModel>
    decreases ids.len(),
{
    if ids.len() == 0 {
        Some(m)
    } else {
        match kill_one(m, ids[0]) {
            Some(m2) => kill_batch(m2, ids.drop_first()),
            None => None,
        }
    }
}

/// The identifiers of a run of documents.
pub open spec fn ids_of(docs: Seq<DocModel>) -> Seq<Seq<char>> {
    Seq::new(docs.len(), |i: int| docs[i].id)
}

/// Sorted insertion of a collection name, dropping duplicates.
pub open spec fn insert_name(s: Seq<char>, l: Seq<Seq<char>>) -> Seq<Seq<char>>
    decreases l.len(),
{
    if l.len() == 0 {
        seq![s]
    } else if str_cmp(s, l[0]) == 0 {
        l
    } else if str_cmp(s, l[0]) < 0 {
        seq![s] + l
    } else {
        seq![l[0]] + insert_name(s, l.drop_first())
    }
}

/// The distinct, sorted collection names of a run of documents.
pub open spec fn collections_of(docs: Seq<DocModel>) -> Seq<Seq<char>>
    decreases docs.len(),
{
    if docs.len() == 0 {
        Seq::empty()
    } else {
        insert_name(docs.last().collection, collections_of(docs.drop_last()))
    }
}

/// The models of a string vector.
pub open spec fn strs_of(names: Seq<String>) -> Seq<Seq<char>> {
    Seq::new(names.len(), |i: int| names[i]@)
}

/// Database statistics.
#[derive(Debug)]
pub struct DatabaseStats {
    pub total_documents: usize,
    pub total_collections: usize,
    pub storage_size_bytes: u64,
    pub collections: Vec<String>,
}

impl NeuralVault {
    /// A vault over an empty log, ready for use.
    pub fn new(config: DatabaseConfig) -> (r: NVResult<NeuralVault>)
        ensures
            r matches Ok(v) && v@.initialized && v@.store.log.len() == 0 && v@.store.index.len()
                == 0,
    {
        let storage = FileManager::new();
        let mut vault = NeuralVault {
            config,
            storage,
            query_processor: QueryProcessor::new(),
            initialized: true,
        };
        match vault.storage.rebuild_index() {
            Ok(()) => Ok(vault),
            Err(e) => Err(e),
        }
    }

    /// A vault over previously persisted log bytes; the position index is
    /// reconstructed from the log before the vault is handed out.
    pub fn from_log(config: DatabaseConfig, log: Vec<u8>) -> (r: NVResult<NeuralVault>)
        ensures
            match r {
                Ok(v) => v@.initialized && v@.store.log == log@ && rebuild_spec(log@) == Some(
                    v@.store.index,
                ),
                Err(e) => rebuild_spec(log@) is None && e matches NeuralVaultError::IoError(_),
            },
    {
        let storage = FileManager::from_log(log);
        let mut vault = NeuralVault {
            config,
            storage,
            query_processor: QueryProcessor::new(),
            initialized: true,
        };
        match vault.storage.rebuild_index() {
            Ok(()) => Ok(vault),
            Err(e) => Err(e),
        }
    }

    /// Fails exactly when the vault is not initialized.
    fn ensure_initialized(&self) -> (r: NVResult<()>)
        ensures
            r is Ok <==> self@.initialized,
            r matches Err(e) ==> e matches NeuralVaultError::NotInitialized,
    {
        if !self.initialized {
            return Err(NeuralVaultError::NotInitialized);
        }
        Ok(())
    }

    /// Creates a document: a fresh 36-character identifier is generated,
    /// the document is stamped with the present time and appended, and the
    /// identifier is returned.
    #[verifier::rlimit(100)]
    #[verifier::spinoff_prover]
    pub fn create(&mut self, collection: String, data: Vec<NVField>) -> (r: NVResult<String>)
        ensures
            match r {
                Ok(id) => old(self)@.initialized && id@.len() == 36 && (exists|t: i64|
                    final(self)@.store == append_model(
                        old(self)@.store,
                        mk_doc(id@, collection@, entries_of(data@), t),
                    )) && final(self)@.initialized == old(self)@.initialized,
                Err(e) => final(self)@ == old(self)@ && match e {
                    NeuralVaultError::NotInitialized => !old(self)@.initialized,
                    NeuralVaultError::SerializationError(_) => old(self)@.initialized && (exists|
                        idc: Seq<char>,
                        t: i64,
                    |
                        idc.len() == 36 && !can_append(
                            old(self)@.store,
                            mk_doc(idc, collection@, entries_of(data@), t),
                        )),
                    NeuralVaultError::StorageError(_) => old(self)@.initialized && (exists|
                        idc: Seq<char>,
                        t: i64,
                    |
                        idc.len() == 36 && !can_append(
                            old(self)@.store,
                            mk_doc(idc, collection@, entries_of(data@), t),
                        )),
                    _ => false,
                },
            },
    {
        match self.ensure_initialized() {
            Ok(()) => {},
            Err(e) => {
                return Err(e);
            },
        }
        let id = fresh_id();
        let id_copy = id.clone();
        let document = NVDocument::new(id_copy, collection, data);
        let ghost t = document@.created_at;
        match self.storage.append(&document) {
            Ok(_) => {
                proof {
                    assert(document@ == mk_doc(id@, collection@, entries_of(data@), t));
                    assert(self@.store == append_model(
                        old(self)@.store,
                        mk_doc(id@, collection@, entries_of(data@), t),
                    ));
                    assert(exists|t2: i64|
                        self@.store == append_model(
                            old(self)@.store,
                            mk_doc(id@, collection@, entries_of(data@), t2),
                        ));
                }
                Ok(id)
            },
            Err(e) => {
                proof {
                    assert(document@ == mk_doc(id@, collection@, entries_of(data@), t));
                    assert(id@.len() == 36 && !can_append(
                        old(self)@.store,
                        mk_doc(id@, collection@, entries_of(data@), t),
                    ));
                    assert(exists|idc: Seq<char>, t2: i64|
                        idc.len() == 36 && !can_append(
                            old(self)@.store,
                            mk_doc(idc, collection@, entries_of(data@), t2),
                        ));
                }
                Err(e)
            },
        }
    }

    /// Finds the documents of the query's collection that match it, in the
    /// evaluator's order, paginated.
    pub fn find(&self, query: NVQuery) -> (r: NVResult<Vec<NVDocument>>)
        ensures
            match r {
                Ok(out) => self@.initialized && docs_of(out@) == filter_spec(
                    scan_collection_spec(self@.store.log, self@.store.index, query@.collection),
                    query@,
                ),
                Err(e) => e matches NeuralVaultError::NotInitialized && !self@.initialized,
            },
    {
        match self.ensure_initialized() {
            Ok(()) => {},
            Err(e) => {
                return Err(e);
            },
        }
        let documents = match self.storage.scan_collection(&query.collection) {
            Ok(docs) => docs,
            Err(e) => {
                return Err(e);
            },
        };
        self.query_processor.filter(documents, &query)
    }

    /// Reads one live document by identifier.
    pub fn find_by_id(&self, id: &String) -> (r: NVResult<NVDocument>)
        ensures
            match r {
                Ok(d) => self@.initialized && read_spec(self@.store, id@) == ReadOutcome::Good(d@),
                Err(e) => match e {
                    NeuralVaultError::NotInitialized => !self@.initialized,
                    NeuralVaultError::DocumentNotFound(_) => read_spec(self@.store, id@)
                        == ReadOutcome::Deleted || index_lookup(self@.store.index, id@) is None,
                    NeuralVaultError::IoError(_) => read_spec(self@.store, id@)
                        == ReadOutcome::OutOfBounds,
                    NeuralVaultError::StorageError(_) => read_spec(self@.store, id@)
                        == ReadOutcome::Corrupt,
                    NeuralVaultError::SerializationError(_) => read_spec(self@.store, id@)
                        == ReadOutcome::Undecodable,
                    _ => false,
                },
            },
    {
        match self.ensure_initialized() {
            Ok(()) => {},
            Err(e) => {
                return Err(e);
            },
        }
        self.storage.read(id)
    }

    /// Applies the update operations to one document in memory, first to
    /// last, bumping its update timestamp when there is at least one.
    #[verifier::loop_isolation(false)]
    fn apply_to(doc: &mut NVDocument, updates: &Vec<UpdateOperation>)
        ensures
            exists|t: i64| final(doc)@ == apply_updates(old(doc)@, ups_of(updates@), t),
    {
        let ghost ups = ups_of(updates@);
        let ghost orig = doc@;
        let mut i: usize = 0;
        proof {
            assert(ups.skip(0) =~= ups);
        }
        while i < updates.len()
            invariant
                i <= updates@.len(),
                set_entries(orig.data, ups) == set_entries(doc@.data, ups.skip(i as int)),
                doc@.id == orig.id,
                doc@.collection == orig.collection,
                doc@.created_at == orig.created_at,
                doc@.deleted == orig.deleted,
                i == 0 ==> doc@.updated_at == orig.updated_at,
            decreases updates@.len() - i,
        {
            let ghost pre = ups.skip(i as int);
            let field = updates[i].field.clone();
            let value = updates[i].value.clone();
            doc.set(field, value);
            proof {
                assert(pre[0] == ups[i as int]);
                assert(ups[i as int] == (updates@[i as int].field@, updates@[i as int].value@));
                assert(pre.drop_first() =~= ups.skip(i + 1));
            }
            i = i + 1;
        }
        proof {
            assert(ups.skip(updates@.len() as int) =~= Seq::<(Seq<char>, Val)>::empty());
            if updates@.len() == 0 {
                assert(doc@ == apply_updates(orig, ups, orig.updated_at));
            } else {
                assert(doc@ == apply_updates(orig, ups, doc@.updated_at));
            }
        }
    }

    /// Updates every document that matches the query: each is rewritten in
    /// memory and appended as a new trailing record; the count of matched
    /// documents is returned.  On a storage failure part of the run may
    /// already be appended.
    #[verifier::loop_isolation(false)]
    pub fn update(&mut self, query: NVQuery, updates: Vec<UpdateOperation>) -> (r: NVResult<usize>)
        ensures
            ({
                let matched = filter_spec(
                    scan_collection_spec(
                        old(self)@.store.log,
                        old(self)@.store.index,
                        query@.collection,
                    ),
                    query@,
                );
                match r {
                    Ok(n) => old(self)@.initialized && n == matched.len() && (exists|ts: Seq<i64>|
                        Some(final(self)@.store) == update_batch(
                            old(self)@.store,
                            matched,
                            ups_of(updates@),
                            ts,
                        )) && final(self)@.initialized,
                    Err(e) => match e {
                        NeuralVaultError::NotInitialized => !old(self)@.initialized && final(self)@
                            == old(self)@,
                        _ => old(self)@.initialized && (exists|k: int, ts: Seq<i64>, t: i64|
                            0 <= k < matched.len() && Some(final(self)@.store) == update_batch(
                                old(self)@.store,
                                matched.take(k),
                                ups_of(updates@),
                                ts,
                            ) && !can_append(
                                final(self)@.store,
                                apply_updates(matched[k], ups_of(updates@), t),
                            )) && final(self)@.initialized,
                    },
                }
            }),
    {
        match self.ensure_initialized() {
            Ok(()) => {},
            Err(e) => {
                return Err(e);
            },
        }
        let documents = match self.find(query) {
            Ok(docs) => docs,
            Err(e) => {
                return Err(e);
            },
        };
        let ghost matched = docs_of(documents@);
        let count = documents.len();
        let mut i: usize = 0;
        let ghost mut ts: Seq<i64> = Seq::empty();
        proof {
            assert(matched.take(0) =~= Seq::<DocModel>::empty());
            assert(update_batch(old(self)@.store, matched.take(0), ups_of(updates@), ts)
                == Some(old(self)@.store));
        }
        while i < documents.len()
            invariant
                i <= documents@.len(),
                matched == docs_of(documents@),
                count == documents@.len(),
                ts.len() == i,
                self@.initialized == old(self)@.initialized,
                Some(self@.store) == update_batch(
                    old(self)@.store,
                    matched.take(i as int),
                    ups_of(updates@),
                    ts,
                ),
            decreases documents@.len() - i,
        {
            let mut doc = documents[i].clone();
            Self::apply_to(&mut doc, &updates);
            let ghost t = doc@.updated_at;
            let ghost pre_store = self@.store;
            match self.storage.append(&doc) {
                Ok(_) => {},
                Err(e) => {
                    proof {
                        assert(doc@ == apply_updates(matched[i as int], ups_of(updates@), t));
                        assert((i as int) < matched.len() && Some(self@.store) == update_batch(
                            old(self)@.store,
                            matched.take(i as int),
                            ups_of(updates@),
                            ts,
                        ) && !can_append(
                            self@.store,
                            apply_updates(matched[i as int], ups_of(updates@), t),
                        ));
                    }
                    return Err(e);
                },
            }
            proof {
                lemma_update_batch_snoc(old(self)@.store, matched, ups_of(updates@), ts.push(t), i as int);
                assert(ts.push(t).take(i as int) =~= ts);
                assert(doc@ == apply_updates(matched[i as int], ups_of(updates@), t));
                assert(can_append(pre_store, apply_updates(matched[i as int], ups_of(updates@), t)));
                ts = ts.push(t);
            }
            i = i + 1;
        }
        proof {
            assert(matched.take(matched.len() as int) =~= matched);
        }
        Ok(count)
    }

    /// Updates one document by identifier: it is read, rewritten in memory
    /// and appended as a new trailing record.
    pub fn update_by_id(&mut self, id: &String, updates: Vec<UpdateOperation>) -> (r: NVResult<()>)
        ensures
            match r {
                Ok(()) => old(self)@.initialized && final(self)@.initialized && (exists|
                    d: DocModel,
                    t: i64,
                |
                    read_spec(old(self)@.store, id@) == ReadOutcome::Good(d) && can_append(
                        old(self)@.store,
                        apply_updates(d, ups_of(updates@), t),
                    ) && final(self)@.store == append_model(
                        old(self)@.store,
                        apply_updates(d, ups_of(updates@), t),
                    )),
                Err(e) => final(self)@ == old(self)@ && match e {
                    NeuralVaultError::NotInitialized => !old(self)@.initialized,
                    NeuralVaultError::DocumentNotFound(_) => read_spec(old(self)@.store, id@)
                        == ReadOutcome::Deleted || index_lookup(old(self)@.store.index, id@)
                        is None,
                    NeuralVaultError::IoError(_) => read_spec(old(self)@.store, id@)
                        == ReadOutcome::OutOfBounds,
                    NeuralVaultError::StorageError(_) => read_spec(old(self)@.store, id@)
                        == ReadOutcome::Corrupt || (exists|d: DocModel, t: i64|
                        read_spec(old(self)@.store, id@) == ReadOutcome::Good(d) && !can_append(
                            old(self)@.store,
                            apply_updates(d, ups_of(updates@), t),
                        )),
                    NeuralVaultError::SerializationError(_) => read_spec(old(self)@.store, id@)
                        == ReadOutcome::Undecodable || (exists|d: DocModel, t: i64|
                        read_spec(old(self)@.store, id@) == ReadOutcome::Good(d) && !can_append(
                            old(self)@.store,
                            apply_updates(d, ups_of(updates@), t),
                        )),
                    _ => false,
                },
            },
    {
        match self.ensure_initialized() {
            Ok(()) => {},
            Err(e) => {
                return Err(e);
            },
        }
        let mut document = match self.storage.read(id) {
            Ok(d) => d,
            Err(e) => {
                return Err(e);
            },
        };
        let ghost d0 = document@;
        Self::apply_to(&mut document, &updates);
        let ghost tw = choose|t: i64| document@ == apply_updates(d0, ups_of(updates@), t);
        proof {
            assert(document@ == apply_updates(d0, ups_of(updates@), tw));
        }
        match self.storage.append(&document) {
            Ok(_) => {
                proof {
                    assert(read_spec(old(self)@.store, id@) == ReadOutcome::Good(d0) && can_append(
                        old(self)@.store,
                        apply_updates(d0, ups_of(updates@), tw),
                    ) && self@.store == append_model(
                        old(self)@.store,
                        apply_updates(d0, ups_of(updates@), tw),
                    ));
                }
                Ok(())
            },
            Err(e) => {
                proof {
                    assert(read_spec(old(self)@.store, id@) == ReadOutcome::Good(d0)
                        && !can_append(old(self)@.store, apply_updates(d0, ups_of(updates@), tw)));
                }
                Err(e)
            },
        }
    }

    /// Soft-deletes every document that matches the query and returns the
    /// count of matched documents.  On a failure part of the run may
    /// already be deleted.
    #[verifier::loop_isolation(false)]
    pub fn kill(&mut self, query: NVQuery) -> (r: NVResult<usize>)
        ensures
            ({
                let matched = filter_spec(
                    scan_collection_spec(
                        old(self)@.store.log,
                        old(self)@.store.index,
                        query@.collection,
                    ),
                    query@,
                );
                match r {
                    Ok(n) => old(self)@.initialized && n == matched.len() && Some(
                        final(self)@.store,
                    ) == kill_batch(old(self)@.store, ids_of(matched)) && final(self)@.initialized,
                    Err(e) => match e {
                        NeuralVaultError::NotInitialized => !old(self)@.initialized && final(self)@
                            == old(self)@,
                        _ => old(self)@.initialized && (exists|k: int|
                            0 <= k < matched.len() && Some(final(self)@.store) == kill_batch(
                                old(self)@.store,
                                ids_of(matched).take(k),
                            ) && kill_one(final(self)@.store, ids_of(matched)[k]) is None)
                            && final(self)@.initialized,
                    },
                }
            }),
    {
        match self.ensure_initialized() {
            Ok(()) => {},
            Err(e) => {
                return Err(e);
            },
        }
        let documents = match self.find(query) {
            Ok(docs) => docs,
            Err(e) => {
                proof {
                    assert(ids_of(docs_of(Seq::<NVDocument>::empty())).take(0) =~= Seq::<
                        Seq<char>,
                    >::empty());
                }
                return Err(e);
            },
        };
        let ghost matched = docs_of(documents@);
        let count = documents.len();
        let mut i: usize = 0;
        proof {
            assert(ids_of(matched).take(0) =~= Seq::<Seq<char>>::empty());
            assert(kill_batch(old(self)@.store, ids_of(matched).take(0)) == Some(
                old(self)@.store,
            ));
        }
        while i < documents.len()
            invariant
                i <= documents@.len(),
                matched == docs_of(documents@),
                count == documents@.len(),
                self@.initialized == old(self)@.initialized,
                Some(self@.store) == kill_batch(old(self)@.store, ids_of(matched).take(i as int)),
            decreases documents@.len() - i,
        {
            let ghost pre_store = self@.store;
            match self.delete_one(&documents[i].id) {
                Ok(_) => {},
                Err(e) => {
                    proof {
                        assert(ids_of(matched)[i as int] == matched[i as int].id);
                        assert(matched[i as int] == documents@[i as int]@);
                        assert((i as int) < matched.len() && Some(self@.store) == kill_batch(
                            old(self)@.store,
                            ids_of(matched).take(i as int),
                        ) && kill_one(self@.store, ids_of(matched)[i as int]) is None);
                    }
                    return Err(e);
                },
            }
            proof {
                assert(ids_of(matched)[i as int] == matched[i as int].id);
                assert(matched[i as int] == documents@[i as int]@);
                lemma_kill_batch_snoc(old(self)@.store, ids_of(matched), i as int);
            }
            i = i + 1;
        }
        proof {
            assert(ids_of(matched).take(matched.len() as int) =~= ids_of(matched));
        }
        Ok(count)
    }

    /// One soft delete, stated over the model-level kill: not-found exactly
    /// when the identifier has no index entry; an I/O error exactly when it
    /// has one whose record runs past the end of the log.
    fn delete_one(&mut self, id: &String) -> (r: NVResult<()>)
        ensures
            match r {
                Ok(u) => (Some(final(self)@.store) == kill_one(old(self)@.store, id@))
                    && final(self)@.initialized == old(self)@.initialized,
                Err(e) => final(self)@ == old(self)@ && match e {
                    NeuralVaultError::DocumentNotFound(_) => index_lookup(
                        old(self)@.store.index,
                        id@,
                    ) is None,
                    NeuralVaultError::IoError(_) => index_lookup(old(self)@.store.index, id@)
                        is Some && kill_one(old(self)@.store, id@) is None,
                    _ => false,
                },
            },
    {
        self.storage.mark_deleted(id)
    }

    /// Soft-deletes one document by identifier: the tombstone byte of its
    /// record is set in place; the identifier stays in the index.
    pub fn kill_by_id(&mut self, id: &String) -> (r: NVResult<()>)
        ensures
            match r {
                Ok(()) => old(self)@.initialized && Some(final(self)@.store) == kill_one(
                    old(self)@.store,
                    id@,
                ) && final(self)@.initialized,
                Err(e) => final(self)@ == old(self)@ && match e {
                    NeuralVaultError::NotInitialized => !old(self)@.initialized,
                    NeuralVaultError::DocumentNotFound(_) => index_lookup(
                        old(self)@.store.index,
                        id@,
                    ) is None,
                    NeuralVaultError::IoError(_) => index_lookup(old(self)@.store.index, id@)
                        is Some && kill_one(old(self)@.store, id@) is None,
                    _ => false,
                },
            },
    {
        match self.ensure_initialized() {
            Ok(()) => {},
            Err(e) => {
                return Err(e);
            },
        }
        self.delete_one(id)
    }

    /// Counts the live documents of one collection.
    pub fn count(&self, collection: &String) -> (r: NVResult<usize>)
        ensures
            match r {
                Ok(n) => self@.initialized && n == scan_collection_spec(
                    self@.store.log,
                    self@.store.index,
                    collection@,
                ).len(),
                Err(e) => e matches NeuralVaultError::NotInitialized && !self@.initialized,
            },
    {
        match self.ensure_initialized() {
            Ok(()) => {},
            Err(e) => {
                return Err(e);
            },
        }
        match self.storage.scan_collection(collection) {
            Ok(documents) => Ok(documents.len()),
            Err(e) => Err(e),
        }
    }

    /// The distinct collection names observed across a walk of the whole
    /// log, sorted; a collection whose records are all tombstoned or
    /// undecodable does not appear.
    pub fn collections(&self) -> (r: NVResult<Vec<String>>)
        ensures
            match r {
                Ok(names) => self@.initialized && scan_log_spec(self@.store.log, 0) is Some
                    && strs_of(names@) == collections_of(scan_log_spec(self@.store.log, 0)->Some_0),
                Err(e) => match e {
                    NeuralVaultError::NotInitialized => !self@.initialized,
                    NeuralVaultError::IoError(_) => scan_log_spec(self@.store.log, 0) is None,
                    _ => false,
                },
            },
    {
        match self.ensure_initialized() {
            Ok(()) => {},
            Err(e) => {
                return Err(e);
            },
        }
        let documents = match self.storage.scan_all() {
            Ok(docs) => docs,
            Err(e) => {
                return Err(e);
            },
        };
        let ghost all = docs_of(documents@);
        let mut names: Vec<String> = Vec::new();
        let mut i: usize = 0;
        proof {
            assert(all.take(0) =~= Seq::<DocModel>::empty());
            assert(strs_of(names@) =~= collections_of(all.take(0)));
        }
        while i < documents.len()
            invariant
                i <= documents@.len(),
                all == docs_of(documents@),
                strs_of(names@) == collections_of(all.take(i as int)),
            decreases documents@.len() - i,
        {
            let name = documents[i].collection.clone();
            let ghost before = strs_of(names@);
            proof {
                assert(all.take(i + 1).drop_last() =~= all.take(i as int));
                assert(all.take(i + 1).last() == all[i as int]);
            }
            match name_slot(&names, &name) {
                Some(place) => {
                    names.insert(place, name);
                    proof {
                        assert(strs_of(names@) =~= before.insert(
                            place as int,
                            all[i as int].collection,
                        ));
                    }
                },
                None => {
                    proof {
                        assert(strs_of(names@) =~= collections_of(all.take(i + 1)));
                    }
                },
            }
            i = i + 1;
        }
        proof {
            assert(all.take(all.len() as int) =~= all);
        }
        Ok(names)
    }

    /// A copy of the raw log bytes, for persistence outside the engine.
    pub fn log_bytes(&self) -> (r: Vec<u8>)
        ensures
            r@ == self@.store.log,
    {
        self.storage.log_bytes()
    }

    /// Database statistics: live document count, collection count and names,
    /// and total log bytes.
    pub fn stats(&self) -> (r: NVResult<DatabaseStats>)
        ensures
            match r {
                Ok(s) => self@.initialized && s.total_documents == self@.store.index.len()
                    && s.storage_size_bytes == self@.store.log.len() && scan_log_spec(
                    self@.store.log,
                    0,
                ) is Some && strs_of(s.collections@) == collections_of(
                    scan_log_spec(self@.store.log, 0)->Some_0,
                ) && s.total_collections == strs_of(s.collections@).len(),
                Err(e) => match e {
                    NeuralVaultError::NotInitialized => !self@.initialized,
                    NeuralVaultError::IoError(_) => scan_log_spec(self@.store.log, 0) is None,
                    _ => false,
                },
            },
    {
        match self.ensure_initialized() {
            Ok(()) => {},
            Err(e) => {
                return Err(e);
            },
        }
        let storage_stats = self.storage.statistics();
        let collections = match self.collections() {
            Ok(names) => names,
            Err(e) => {
                return Err(e);
            },
        };
        Ok(
            DatabaseStats {
                total_documents: storage_stats.document_count,
                total_collections: collections.len(),
                storage_size_bytes: storage_stats.file_size_bytes,
                collections,
            },
        )
    }
}

/// Updating one more document appends one more rewritten record, when it
/// can be appended at all.
proof fn lemma_update_batch_snoc(
    m: StoreModel,
    docs: Seq<DocModel>,
    ups: Seq<(Seq<char>, Val)>,
    ts: Seq<i64>,
    i: int,
)
    requires
        0 <= i < docs.len(),
        i < ts.len(),
    ensures
        update_batch(m, docs.take(i + 1), ups, ts) == match update_batch(
            m,
            docs.take(i),
            ups,
            ts.take(i),
        ) {
            Some(m2) => if can_append(m2, apply_updates(docs[i], ups, ts[i])) {
                Some(append_model(m2, apply_updates(docs[i], ups, ts[i])))
            } else {
                None
            },
            None => None,
        },
    decreases i,
{
    if i == 0 {
        assert(docs.take(0) =~= Seq::<DocModel>::empty());
        let s0 = docs.take(1);
        assert(s0.len() == 1 && s0[0] == docs[0]);
        assert(s0.drop_first() =~= Seq::<DocModel>::empty());
        assert(ts.take(0) =~= Seq::<i64>::empty());
        assert(update_batch(m, docs.take(0), ups, ts.take(0)) == Some(m));
        if can_append(m, apply_updates(docs[0], ups, ts[0])) {
            let m1 = append_model(m, apply_updates(docs[0], ups, ts[0]));
            assert(update_batch(m, s0, ups, ts) == update_batch(
                m1,
                s0.drop_first(),
                ups,
                ts.drop_first(),
            ));
            assert(update_batch(m1, s0.drop_first(), ups, ts.drop_first()) == Some(m1));
        }
    } else {
        if can_append(m, apply_updates(docs[0], ups, ts[0])) {
            let m2 = append_model(m, apply_updates(docs[0], ups, ts[0]));
            lemma_update_batch_snoc(m2, docs.drop_first(), ups, ts.drop_first(), i - 1);
        }
        assert(docs.take(i + 1).drop_first() =~= docs.drop_first().take(i));
        assert(docs.take(i).drop_first() =~= docs.drop_first().take(i - 1));
        assert(docs.take(i + 1)[0] == docs[0]);
        assert(docs.take(i)[0] == docs[0]);
        assert(docs.drop_first()[i - 1] == docs[i]);
        assert(ts.drop_first()[i - 1] == ts[i]);
        assert(ts.take(i)[0] == ts[0]);
        assert(ts.take(i).drop_first() =~= ts.drop_first().take(i - 1));
        assert(ts.drop_first().take(i - 1) =~= ts.take(i).drop_first());
    }
}

/// Soft-deleting one more identifier flips one more tombstone byte.
proof fn lemma_kill_batch_snoc(m: StoreModel, ids: Seq<Seq<char>>, i: int)
    requires
        0 <= i < ids.len(),
    ensures
        kill_batch(m, ids.take(i + 1)) == match kill_batch(m, ids.take(i)) {
            Some(m2) => kill_one(m2, ids[i]),
            None => None,
        },
    decreases i,
{
    if i == 0 {
        assert(ids.take(0) =~= Seq::<Seq<char>>::empty());
        let s0 = ids.take(1);
        assert(s0.len() == 1 && s0[0] == ids[0]);
        assert(s0.drop_first() =~= Seq::<Seq<char>>::empty());
        if let Some(m2) = kill_one(m, ids[0]) {
            assert(kill_batch(m2, s0.drop_first()) == Some(m2));
        }
    } else {
        if let Some(m2) = kill_one(m, ids[0]) {
            lemma_kill_batch_snoc(m2, ids.drop_first(), i - 1);
        }
        assert(ids.take(i + 1).drop_first() =~= ids.drop_first().take(i));
        assert(ids.take(i).drop_first() =~= ids.drop_first().take(i - 1));
        assert(ids.take(i + 1)[0] == ids[0]);
        assert(ids.take(i)[0] == ids[0]);
        assert(ids.drop_first()[i - 1] == ids[i]);
    }
}

/// Where a fresh name belongs in the sorted name list: its insertion slot,
/// or nothing when the name is already present.
#[verifier::loop_isolation(false)]
fn name_slot(names: &Vec<String>, name: &String) -> (r: Option<usize>)
    ensures
        match r {
            Some(place) => place <= names@.len() && insert_name(name@, strs_of(names@))
                == strs_of(names@).insert(place as int, name@),
            None => insert_name(name@, strs_of(names@)) == strs_of(names@),
        },
{
    let mut j: usize = 0;
    while j < names.len()
        invariant
            j <= names@.len(),
            forall|k: int| 0 <= k < j ==> str_cmp(name@, #[trigger] strs_of(names@)[k]) > 0,
        decreases names@.len() - j,
    {
        proof {
            assert(strs_of(names@)[j as int] == names@[j as int]@);
        }
        let c = crate::query::str_compare(&name, &names[j]);
        if c == 0 {
            proof {
                lemma_insert_name_dup(name@, strs_of(names@), j as int);
            }
            return None;
        }
        if c < 0 {
            proof {
                lemma_insert_name_at(name@, strs_of(names@), j as int);
            }
            return Some(j);
        }
        j = j + 1;
    }
    proof {
        lemma_insert_name_at(name@, strs_of(names@), names@.len() as int);
    }
    Some(names.len())
}

/// Inserting a duplicate name leaves the sorted list unchanged.
proof fn lemma_insert_name_dup(s: Seq<char>, l: Seq<Seq<char>>, j: int)
    requires
        0 <= j < l.len(),
        str_cmp(s, l[j]) == 0,
        forall|k: int| 0 <= k < j ==> str_cmp(s, #[trigger] l[k]) > 0,
    ensures
        insert_name(s, l) == l,
    decreases j,
{
    if j == 0 {
    } else {
        lemma_insert_name_dup(s, l.drop_first(), j - 1);
        assert(insert_name(s, l) =~= l);
    }
}

/// A name unlike the inserted one and absent from a list is still absent
/// after the insertion.
proof fn lemma_insert_name_keeps(s: Seq<char>, l: Seq<Seq<char>>, c: Seq<char>)
    requires
        s != c,
        forall|j: int| 0 <= j < l.len() ==> l[j] != c,
    ensures
        forall|j: int| 0 <= j < insert_name(s, l).len() ==> insert_name(s, l)[j] != c,
    decreases l.len(),
{
    if l.len() == 0 {
    } else if str_cmp(s, l[0]) == 0 {
    } else if str_cmp(s, l[0]) < 0 {
        assert forall|j: int|
            0 <= j < insert_name(s, l).len() implies insert_name(s, l)[j] != c by {
            if j > 0 {
                assert(insert_name(s, l)[j] == l[j - 1]);
            }
        }
    } else {
        assert forall|j: int|
            0 <= j < l.drop_first().len() implies l.drop_first()[j] != c by {
            assert(l.drop_first()[j] == l[j + 1]);
        }
        lemma_insert_name_keeps(s, l.drop_first(), c);
        assert forall|j: int|
            0 <= j < insert_name(s, l).len() implies insert_name(s, l)[j] != c by {
            if j > 0 {
                assert(insert_name(s, l)[j] == insert_name(s, l.drop_first())[j - 1]);
            } else {
                assert(insert_name(s, l)[0] == l[0]);
            }
        }
    }
}

/// Collections listing excludes fully-hidden groups: a collection name that
/// no document of the walk bears never appears in the listing; in
/// particular, a collection whose only records are tombstoned contributes
/// no document to the walk and so never appears.
pub proof fn lemma_collections_exclude(docs: Seq<DocModel>, c: Seq<char>)
    requires
        forall|i: int| 0 <= i < docs.len() ==> docs[i].collection != c,
    ensures
        forall|j: int|
            0 <= j < collections_of(docs).len() ==> collections_of(docs)[j] != c,
    decreases docs.len(),
{
    if docs.len() > 0 {
        assert forall|i: int|
            0 <= i < docs.drop_last().len() implies docs.drop_last()[i].collection != c by {
            assert(docs.drop_last()[i] == docs[i]);
        }
        lemma_collections_exclude(docs.drop_last(), c);
        assert(docs.last().collection != c);
        lemma_insert_name_keeps(docs.last().collection, collections_of(docs.drop_last()), c);
    }
}

/// Inserting before the first strictly larger name is the sorted insertion.
proof fn lemma_insert_name_at(s: Seq<char>, l: Seq<Seq<char>>, j: int)
    requires
        0 <= j <= l.len(),
        forall|k: int| 0 <= k < j ==> str_cmp(s, #[trigger] l[k]) > 0,
        j < l.len() ==> str_cmp(s, l[j]) < 0,
    ensures
        insert_name(s, l) == l.insert(j, s),
    decreases j,
{
    if j == 0 {
        assert(insert_name(s, l) =~= l.insert(0, s));
    } else {
        lemma_insert_name_at(s, l.drop_first(), j - 1);
        assert(l.drop_first().insert(j - 1, s) =~= l.insert(j, s).drop_first());
        assert(insert_name(s, l) =~= l.insert(j, s));
    }
}

} // verus!
