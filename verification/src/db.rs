//! The orchestrator: the public store handle and the multi-tree sequences
//! behind write, commit and branch.

use vstd::prelude::*;
use crate::backup_tree::{
    collect_backup, insert_all, open_backup_tree, remove_keys, seq_has_key, BackupKeyCache,
};
use crate::change_encoder::{
    ec_view, encoded_changes_wf, is_insert_bytes, remove_bytes, serialize_spec, Change,
    EncodedChanges,
};
use crate::db_key::{key_lt_spec, DbKey};
use crate::engine::{
    clone_db, db_id_floor, generate_id, ops_view, tree_get, tree_kvs, txn_apply_2, txn_apply_3,
    txn_apply_4,
};
use crate::meta_tree::{
    meta_bytes, meta_key, meta_key_bytes, open_meta_tree, push_opt_version, serialize_meta,
    GridDbMetadata,
};
use crate::staging::{
    copy_bytes, enc_ops, ins_ops, lemma_enc_ops_apply, lemma_ins_ops_apply, lemma_rm_ops_apply,
    lemma_single_insert_apply, opt_bytes_view, rm_ops, Staged,
};
use crate::version_change_tree::{
    open_version_change_tree, vc_bytes, vc_view, VersionChanges,
};
use crate::version_graph_tree::{
    find_path_between_versions, graph_edge, graph_parent, node_bytes, open_version_graph_tree,
    ver_key, VersionNode,
};
use crate::working_tree::{apply_encoded, binding, open_working_tree, reverse_of};
use crate::Version;

verus! {

/// Why a commit or branch was aborted.
#[derive(Clone, Copy, Debug, PartialEq, Eq, Structural)]
pub enum AbortReason {
    /// Failed to find a path from the one parent version to another.
    NoPathExists,
    /// Failed to find a path from a version node to the root ancestor (a
    /// missing link).
    NoPathExistsToRoot,
    /// Tried to reference version changes that do not exist in the change
    /// tree.
    MissingVersionChanges,
}

/// Why a store operation failed.
#[derive(Debug)]
pub enum TransactionError {
    /// The engine reported a storage failure.
    Storage(sled::Error),
    /// The operation was aborted for a structured reason.
    Abort(AbortReason),
    /// The trees hold bytes that decode as no record of the store's formats.
    Corruption,
}

impl TransactionError {
    /// The abort reason, when the failure is an abort.
    pub fn abort_reason(&self) -> (r: Option<AbortReason>)
        ensures
            match r {
                Some(a) => *self matches TransactionError::Abort(x) && x == a,
                None => !(*self is Abort),
            },
    {
        match self {
            TransactionError::Abort(a) => Some(*a),
            _ => None,
        }
    }
}

/// Whether two store values hold the same tree models, metadata record and
/// key cache.
pub open spec fn same_store_state<K: DbKey>(a: GridDb<K>, b: GridDb<K>) -> bool {
    &&& b.working() == a.working()
    &&& b.backup() == a.backup()
    &&& b.archive() == a.archive()
    &&& b.graph() == a.graph()
    &&& b.meta() == a.meta()
    &&& b.cache_keys() == a.cache_keys()
}

/// A versioned store of spatially keyed byte blobs: a mutable working tree, a
/// backup buffer of reverse changes, and a version graph with one archived
/// delta per committed version.
pub struct GridDb<K: DbKey> {
    db: sled::Db,
    meta_tree: sled::Tree,
    working_tree: sled::Tree,
    backup_tree: sled::Tree,
    version_change_tree: sled::Tree,
    version_graph_tree: sled::Tree,
    backup_key_cache: BackupKeyCache<K>,
    cached_meta: GridDbMetadata,
}

impl<K: DbKey> GridDb<K> {
    /// The working tree's contents.
    pub closed spec fn working(self) -> Map<Seq<u8>, Seq<u8>> {
        tree_kvs(self.working_tree)
    }

    /// The backup tree's contents.
    pub closed spec fn backup(self) -> Map<Seq<u8>, Seq<u8>> {
        tree_kvs(self.backup_tree)
    }

    /// The change archive's contents.
    pub closed spec fn archive(self) -> Map<Seq<u8>, Seq<u8>> {
        tree_kvs(self.version_change_tree)
    }

    /// The version graph's contents.
    pub closed spec fn graph(self) -> Map<Seq<u8>, Seq<u8>> {
        tree_kvs(self.version_graph_tree)
    }

    /// The cached metadata.
    pub closed spec fn meta(self) -> GridDbMetadata {
        self.cached_meta
    }

    /// The cached backup keys, in ascending key order.
    pub closed spec fn cache_keys(self) -> Seq<K> {
        self.backup_key_cache.keys@
    }

    /// The least id the engine can still allocate.
    pub closed spec fn id_floor(self) -> nat {
        db_id_floor(self.db)
    }

    /// The store's invariant: the cache is sorted and mirrors exactly the
    /// backup tree's keys, and the metadata tree holds the cached record.
    pub closed spec fn wf(self) -> bool {
        &&& self.backup_key_cache.wf()
        &&& forall|i: int|
            0 <= i < self.cache_keys().len() ==> self.backup().contains_key(
                (#[trigger] self.cache_keys()[i]).encode_spec(),
            )
        &&& forall|b: Seq<u8>|
            self.backup().contains_key(b) ==> exists|i: int|
                0 <= i < self.cache_keys().len() && (#[trigger] self.cache_keys()[i]).encode_spec()
                    == b
        &&& tree_kvs(self.meta_tree).contains_key(meta_key())
        &&& tree_kvs(self.meta_tree)[meta_key()] == meta_bytes(self.cached_meta)
    }

    /// Opens the store: opens the five trees, reads or initializes the
    /// metadata, and rebuilds the backup key cache by a full scan. Either a
    /// rootless record was freshly initialized under a newly drawn id, or the
    /// persisted record was read back and reopening consumed no id.
    pub fn open(db: &sled::Db, map_name: &str) -> (r: Result<Self, TransactionError>)
        ensures
            r matches Ok(g) ==> g.wf(),
            r matches Ok(g) ==> (g.meta().grandparent_version is None && g.meta().parent_version
                is None && (g.meta().working_version.number as nat) < g.id_floor()) || g.id_floor()
                == db_id_floor(*db),
    {
        let mut own_db = clone_db(db);
        let (meta_tree, cached_meta) = match open_meta_tree(&mut own_db, map_name) {
            Ok(x) => x,
            Err(e) => {
                return Err(e);
            },
        };
        let version_change_tree = match open_version_change_tree(&own_db, map_name) {
            Ok(t) => t,
            Err(e) => {
                return Err(TransactionError::Storage(e));
            },
        };
        let version_graph_tree = match open_version_graph_tree(&own_db, map_name) {
            Ok(t) => t,
            Err(e) => {
                return Err(TransactionError::Storage(e));
            },
        };
        let (backup_tree, backup_key_cache) = match open_backup_tree::<K>(map_name, &own_db) {
            Ok(x) => x,
            Err(e) => {
                return Err(e);
            },
        };
        let working_tree = match open_working_tree(map_name, &own_db) {
            Ok(t) => t,
            Err(e) => {
                return Err(TransactionError::Storage(e));
            },
        };
        let g = Self {
            db: own_db,
            meta_tree,
            working_tree,
            backup_tree,
            version_change_tree,
            version_graph_tree,
            backup_key_cache,
            cached_meta,
        };
        proof {
            assert forall|i: int| 0 <= i < g.cache_keys().len() implies g.backup().contains_key(
                (#[trigger] g.cache_keys()[i]).encode_spec(),
            ) by {
                assert(tree_kvs(g.backup_tree).contains_key(
                    (#[trigger] g.backup_key_cache.keys@[i]).encode_spec(),
                ));
            }
            assert forall|b: Seq<u8>| g.backup().contains_key(b) implies exists|i: int|
                0 <= i < g.cache_keys().len() && (#[trigger] g.cache_keys()[i]).encode_spec()
                    == b by {
                let w = choose|w: int|
                    0 <= w < g.backup_key_cache.keys@.len() && (#[trigger] g.backup_key_cache.keys@[w]).encode_spec() == b;
                assert(g.cache_keys()[w].encode_spec() == b);
            }
        }
        Ok(g)
    }

    /// The metadata as of the last completed operation.
    pub fn cached_meta(&self) -> (r: &GridDbMetadata)
        ensures
            *r == self.meta(),
    {
        &self.cached_meta
    }

    /// Reads the change stored at `key` in the working version.
    pub fn read_working_version(&self, key: K) -> (r: Result<Option<Change>, TransactionError>)
        requires
            key.wf(),
        ensures
            r matches Ok(o) ==> match o {
                Some(c) => self.working().contains_key(key.encode_spec()) && serialize_spec(c)
                    == self.working()[key.encode_spec()],
                None => !self.working().contains_key(key.encode_spec()),
            },
            r matches Err(e) ==> !(e is Abort),
            r matches Err(e) && e is Corruption ==> self.working().contains_key(key.encode_spec())
                && !crate::change_encoder::valid_change_bytes(self.working()[key.encode_spec()]),
    {
        let kb = key.as_sled_key();
        match tree_get(&self.working_tree, &kb) {
            Ok(Some(bytes)) => {
                match Change::deserialize(&bytes) {
                    Some(c) => Ok(Some(c)),
                    None => Err(TransactionError::Corruption),
                }
            },
            Ok(None) => Ok(None),
            Err(e) => Err(TransactionError::Storage(e)),
        }
    }

    /// Writes a batch to the working version and stores the reverse changes
    /// of previously untouched keys in the backup tree. Both trees' writes
    /// are computed first and applied in one engine transaction, so a failure
    /// leaves every tree exactly as it was; the cache learns the newly
    /// backed-up keys only after the transaction committed.
    pub fn write_working_version(&mut self, changes: EncodedChanges) -> (r: Result<
        (),
        TransactionError,
    >)
        requires
            old(self).wf(),
            encoded_changes_wf::<K>(ec_view(changes.changes@)),
        ensures
            r is Ok ==> {
                &&& final(self).wf()
                &&& final(self).working() == apply_encoded(
                    old(self).working(),
                    ec_view(changes.changes@),
                )
                &&& final(self).backup() == insert_all(
                    old(self).backup(),
                    reverse_of::<K>(
                        old(self).working(),
                        old(self).cache_keys(),
                        ec_view(changes.changes@),
                    ),
                )
                &&& forall|x: K|
                    seq_has_key(final(self).cache_keys(), x) <==> seq_has_key(
                        old(self).cache_keys(),
                        x,
                    ) || exists|a: int|
                        0 <= a < reverse_of::<K>(
                            old(self).working(),
                            old(self).cache_keys(),
                            ec_view(changes.changes@),
                        ).len() && x == K::decode_spec(
                            (#[trigger] reverse_of::<K>(
                                old(self).working(),
                                old(self).cache_keys(),
                                ec_view(changes.changes@),
                            )[a]).0,
                        )
                &&& final(self).meta() == old(self).meta()
                &&& final(self).archive() == old(self).archive()
                &&& final(self).graph() == old(self).graph()
                &&& final(self).id_floor() == old(self).id_floor()
            },
            r matches Err(e) ==> e is Storage,
            changes.changes@.len() == 0 ==> r is Ok,
            // a failure leaves the whole store as it was
            r is Err ==> {
                &&& final(self).wf()
                &&& same_store_state(*old(self), *final(self))
                &&& final(self).id_floor() == old(self).id_floor()
            },
    {
        let ghost m0 = self.working();
        let ghost b0 = self.backup();
        let ghost cks0 = self.cache_keys();
        let ghost ec = ec_view(changes.changes@);
        if changes.changes.len() == 0 {
            proof {
                assert(ec.len() == 0);
                lemma_empty_batch_is_noop::<K>(m0, cks0, b0, ec);
            }
            return Ok(());
        }
        let remove_buf = Change::serialize_remove();
        let mut rev: Vec<(Vec<u8>, Vec<u8>)> = Vec::new();
        let mut wops: Vec<(Vec<u8>, Option<Vec<u8>>)> = Vec::new();
        let mut bops: Vec<(Vec<u8>, Option<Vec<u8>>)> = Vec::new();
        let mut i0: usize = 0;
        while i0 < changes.changes.len()
            invariant
                old(self).wf(),
                *self == *old(self),
                encoded_changes_wf::<K>(ec),
                ec == ec_view(changes.changes@),
                cks0 == old(self).cache_keys(),
                m0 == old(self).working(),
                b0 == old(self).backup(),
                remove_buf@ == remove_bytes(),
                i0 <= changes.changes@.len(),
                ec_view(rev@) == reverse_of::<K>(m0, cks0, ec.subrange(0, i0 as int)),
                wops@.len() == i0,
                forall|j: int|
                    0 <= j < i0 ==> (#[trigger] crate::engine::op_view(wops@[j])) == (
                    ec[j].0,
                    if is_insert_bytes(ec[j].1) {
                        Some(ec[j].1)
                    } else {
                        None::<Seq<u8>>
                    },
                ),
                bops@.len() == rev@.len(),
                forall|a: int|
                    0 <= a < rev@.len() ==> (#[trigger] crate::engine::op_view(bops@[a])) == (
                    rev@[a].0@,
                    Some(rev@[a].1@),
                ),
                forall|a: int|
                    0 <= a < rev@.len() ==> exists|j: int|
                        0 <= j < i0 && (#[trigger] rev@[a]).0@ == ec[j].0,
                forall|a: int|
                    0 <= a < rev@.len() ==> !seq_has_key(
                        cks0,
                        K::decode_spec((#[trigger] rev@[a]).0@),
                    ),
            decreases changes.changes@.len() - i0,
        {
            let ghost pre_cs = ec.subrange(0, i0 as int);
            let ghost pre_rev = ec_view(rev@);
            let kb = &changes.changes[i0].0;
            let vb = &changes.changes[i0].1;
            proof {
                assert(ec[i0 as int] == (kb@, vb@));
                // earlier batch keys are strictly below this one, so the
                // batch's prefix leaves this key's binding untouched
                assert forall|j: int| 0 <= j < pre_cs.len() implies (#[trigger] pre_cs[j]).0
                    != kb@ by {
                    assert(crate::bytes::lex_lt((#[trigger] ec[j]).0, ec[i0 as int].0));
                    if ec[j].0 == kb@ {
                        crate::bytes::lemma_lex_lt_irrefl(kb@);
                    }
                }
                crate::working_tree::lemma_apply_untouched(m0, pre_cs, kb@);
            }
            let k = K::from_sled_key(kb);
            let is_insert = vb.len() >= 1 && vb[0] == 1;
            let prev = match tree_get(&self.working_tree, kb) {
                Ok(p) => p,
                Err(e) => {
                    return Err(TransactionError::Storage(e));
                },
            };
            if is_insert {
                wops.push((copy_bytes(kb), Some(copy_bytes(vb))));
            } else {
                wops.push((copy_bytes(kb), None));
            }
            proof {
                assert(is_insert == is_insert_bytes(vb@));
            }
            if !self.backup_key_cache.contains(&k) {
                let kb2 = copy_bytes(kb);
                let kb3 = copy_bytes(kb);
                match prev {
                    Some(old_v) => {
                        let vcopy = copy_bytes(&old_v);
                        rev.push((kb2, old_v));
                        bops.push((kb3, Some(vcopy)));
                    },
                    None => {
                        let rb = copy_bytes(&remove_buf);
                        let rb2 = copy_bytes(&remove_buf);
                        rev.push((kb2, rb));
                        bops.push((kb3, Some(rb2)));
                    },
                }
                proof {
                    assert(ec_view(rev@).drop_last() =~= pre_rev);
                    assert(ec.subrange(0, i0 + 1).drop_last() =~= pre_cs);
                    assert(ec.subrange(0, i0 + 1).last() == ec[i0 as int]);
                    assert(ec_view(rev@) == reverse_of::<K>(m0, cks0, ec.subrange(0, i0 + 1)));
                    assert forall|a: int| 0 <= a < rev@.len() implies exists|j: int|
                        0 <= j < i0 + 1 && (#[trigger] rev@[a]).0@ == ec[j].0 by {
                        if a < rev@.len() - 1 {
                            let j0 = choose|j0: int|
                                0 <= j0 < i0 && (#[trigger] rev@[a]).0@ == ec[j0].0;
                            assert(rev@[a].0@ == ec[j0].0);
                        } else {
                            assert(rev@[a].0@ == ec[i0 as int].0);
                        }
                    }
                }
            } else {
                proof {
                    assert(ec.subrange(0, i0 + 1).drop_last() =~= pre_cs);
                    assert(ec.subrange(0, i0 + 1).last() == ec[i0 as int]);
                    assert(ec_view(rev@) == reverse_of::<K>(m0, cks0, ec.subrange(0, i0 + 1)));
                }
            }
            i0 = i0 + 1;
        }
        proof {
            assert(ec.subrange(0, ec.len() as int) =~= ec);
            assert forall|a: int, b: int| 0 <= a < b < rev@.len() implies crate::bytes::lex_lt(
                (#[trigger] ec_view(rev@)[a]).0,
                (#[trigger] ec_view(rev@)[b]).0,
            ) by {
                crate::working_tree::lemma_reverse_order::<K>(m0, cks0, ec, rev@, a, b);
            }
            assert forall|a: int| 0 <= a < rev@.len() implies (#[trigger] ec_view(rev@)[a]).0.len()
                == 1 + K::width() by {
                let j = choose|j: int| 0 <= j < ec.len() && (#[trigger] rev@[a]).0@ == ec[j].0;
                assert(ec[j].0.len() == 1 + K::width());
            }
            assert(crate::working_tree::encoded_keys_wf::<K>(ec_view(rev@)));
            assert(ops_view(wops@) =~= enc_ops(ec));
            assert(ops_view(bops@) =~= ins_ops(ec_view(rev@)));
        }
        let ghost rv = reverse_of::<K>(m0, cks0, ec);
        match txn_apply_2(&mut self.working_tree, &wops, &mut self.backup_tree, &bops) {
            Ok(()) => {
            },
            Err(e) => {
                proof {
                    lemma_wf_from_models(*old(self), *self);
                }
                return Err(TransactionError::Storage(e));
            },
        }
        proof {
            lemma_enc_ops_apply(m0, ec);
            lemma_ins_ops_apply(b0, ec_view(rev@));
            assert(tree_kvs(self.working_tree) == apply_encoded(m0, ec));
            assert(tree_kvs(self.backup_tree) == insert_all(b0, rv));
        }
        // every tree write succeeded: the cache learns the new keys
        let mut i: usize = 0;
        while i < rev.len()
            invariant
                old(self).wf(),
                self.backup_key_cache.wf(),
                crate::working_tree::encoded_keys_wf::<K>(ec_view(rev@)),
                i <= rev@.len(),
                ec_view(rev@) == rv,
                forall|a: int|
                    0 <= a < rev@.len() ==> !seq_has_key(
                        cks0,
                        K::decode_spec((#[trigger] rev@[a]).0@),
                    ),
                cks0 == old(self).cache_keys(),
                self.db == old(self).db,
                self.meta_tree == old(self).meta_tree,
                self.version_change_tree == old(self).version_change_tree,
                self.version_graph_tree == old(self).version_graph_tree,
                self.cached_meta == old(self).cached_meta,
                tree_kvs(self.working_tree) == apply_encoded(m0, ec),
                tree_kvs(self.backup_tree) == insert_all(old(self).backup(), rv),
                forall|x: K|
                    self.backup_key_cache.has_key(x) <==> seq_has_key(cks0, x) || exists|a: int|
                        0 <= a < i && x == K::decode_spec((#[trigger] rv[a]).0),
            decreases rev@.len() - i,
        {
            let kb = &rev[i].0;
            proof {
                assert(ec_view(rev@)[i as int].0 == kb@);
                assert(rv[i as int].0 == kb@);
            }
            let k = K::from_sled_key(kb);
            proof {
                K::lemma_decode_encode(kb@);
                // this key is not yet in the cache: not in the old cache, and
                // distinct from the keys already added
                if self.backup_key_cache.has_key(k) {
                    assert(!seq_has_key(cks0, k));
                    let a = choose|a: int| 0 <= a < i && k == K::decode_spec((#[trigger] rv[a]).0);
                    assert(rv[a].0 == rev@[a].0@);
                    assert(crate::bytes::lex_lt(
                        (#[trigger] ec_view(rev@)[a]).0,
                        ec_view(rev@)[i as int].0,
                    ));
                    K::lemma_decode_encode(rev@[a].0@);
                    assert(rev@[a].0@ == kb@);
                    crate::bytes::lemma_lex_lt_irrefl(kb@);
                }
            }
            self.backup_key_cache.insert_key(k);
            i = i + 1;
        }
        proof {
            // the rebuilt cache mirrors the backup tree again
            lemma_insert_all_contains(old(self).backup(), rv);
            assert forall|i2: int|
                0 <= i2 < self.cache_keys().len() implies self.backup().contains_key(
                (#[trigger] self.cache_keys()[i2]).encode_spec(),
            ) by {
                let x = self.cache_keys()[i2];
                assert(self.backup_key_cache.has_key(x));
                if seq_has_key(cks0, x) {
                    let w = choose|w: int| 0 <= w < cks0.len() && cks0[w] == x;
                    assert(old(self).backup().contains_key(
                        (#[trigger] old(self).cache_keys()[w]).encode_spec(),
                    ));
                    assert(old(self).backup().contains_key(x.encode_spec()));
                    assert(insert_all(old(self).backup(), rv).contains_key(x.encode_spec()));
                } else {
                    let a = choose|a: int| 0 <= a < rv.len() && x == K::decode_spec((#[trigger] rv[a]).0);
                    assert((#[trigger] ec_view(rev@)[a]).0 == rev@[a].0@);
                    K::lemma_decode_encode(rev@[a].0@);
                    assert(rv[a].0 == rev@[a].0@);
                    assert(x.encode_spec() == rv[a].0);
                    assert(0 <= a < rv.len() && (#[trigger] rv[a]).0 == x.encode_spec());
                    assert(insert_all(old(self).backup(), rv).contains_key(x.encode_spec()));
                }
                assert(self.backup() == insert_all(old(self).backup(), rv));
            }
            assert forall|b: Seq<u8>| self.backup().contains_key(b) implies exists|i2: int|
                0 <= i2 < self.cache_keys().len() && (#[trigger] self.cache_keys()[i2]).encode_spec()
                    == b by {
                if old(self).backup().contains_key(b) {
                    let w = choose|w: int|
                        0 <= w < cks0.len() && (#[trigger] cks0[w]).encode_spec() == b;
                    assert(seq_has_key(cks0, cks0[w]));
                    assert(self.backup_key_cache.has_key(cks0[w]));
                    let w2 = choose|w2: int|
                        0 <= w2 < self.cache_keys().len() && self.cache_keys()[w2] == cks0[w];
                    assert(self.cache_keys()[w2].encode_spec() == b);
                } else {
                    let a = choose|a: int| 0 <= a < rv.len() && (#[trigger] rv[a]).0 == b;
                    let k2 = K::decode_spec(rv[a].0);
                    assert((#[trigger] ec_view(rev@)[a]).0 == rev@[a].0@);
                    K::lemma_decode_encode(rev@[a].0@);
                    assert(self.backup_key_cache.has_key(k2));
                    let w2 = choose|w2: int|
                        0 <= w2 < self.cache_keys().len() && self.cache_keys()[w2] == k2;
                    assert(self.cache_keys()[w2].encode_spec() == b);
                }
            }
        }
        Ok(())
    }
}

/// An empty batch moves nothing: the working tree keeps its contents, no
/// reverse change arises, and the backup tree and cache keep theirs.
pub proof fn lemma_empty_batch_is_noop<K: DbKey>(
    w: Map<Seq<u8>, Seq<u8>>,
    cks: Seq<K>,
    b: Map<Seq<u8>, Seq<u8>>,
    cs: Seq<(Seq<u8>, Seq<u8>)>,
)
    requires
        cs.len() == 0,
    ensures
        apply_encoded(w, cs) == w,
        reverse_of::<K>(w, cks, cs) == Seq::<(Seq<u8>, Seq<u8>)>::empty(),
        insert_all(b, reverse_of::<K>(w, cks, cs)) == b,
{
    assert(cs =~= Seq::<(Seq<u8>, Seq<u8>)>::empty());
}

/// What draining the backup yields: each cached key with the serialized
/// change the backup tree holds for it.
pub open spec fn drained<K: DbKey>(cache: Seq<K>, backup: Map<Seq<u8>, Seq<u8>>) -> Seq<
    (K, Seq<u8>),
> {
    cache.map(|i: int, k: K| (k, backup[k.encode_spec()]))
}

impl<K: DbKey> GridDb<K> {
    /// Commits the working version: archives the drained backup under the
    /// parent, links the working version into the graph, and opens a fresh
    /// working version under a newly generated id, applying all four trees'
    /// writes in one engine transaction. With an empty backup the store is
    /// left exactly as it was; a failure leaves every tree as it was, at the
    /// cost of at most one wasted id.
    pub fn commit_working_version(&mut self) -> (r: Result<(), TransactionError>)
        requires
            old(self).wf(),
        ensures
            old(self).cache_keys().len() == 0 ==> r is Ok && *final(self) == *old(self),
            r is Ok && old(self).cache_keys().len() > 0 ==> {
                &&& final(self).wf()
                &&& final(self).working() == old(self).working()
                &&& final(self).graph() == old(self).graph().insert(
                    ver_key(old(self).meta().working_version),
                    node_bytes(VersionNode { parent_version: old(self).meta().parent_version }),
                )
                &&& match old(self).meta().parent_version {
                    Some(p) => final(self).archive() == old(self).archive().insert(
                        ver_key(p),
                        vc_bytes(drained(old(self).cache_keys(), old(self).backup())),
                    ),
                    None => final(self).archive() == old(self).archive(),
                }
                &&& forall|b: Seq<u8>| !final(self).backup().contains_key(b)
                &&& final(self).cache_keys().len() == 0
                &&& final(self).meta().grandparent_version == old(self).meta().parent_version
                &&& final(self).meta().parent_version == Some(old(self).meta().working_version)
                &&& final(self).meta().working_version.number as nat >= old(self).id_floor()
                &&& final(self).id_floor() > final(self).meta().working_version.number as nat
                &&& final(self).meta().working_version.number > old(
                    self,
                ).meta().working_version.number
            },
            r matches Err(e) ==> !(e is Abort),
            // a failure leaves the whole store as it was; at most an id was
            // consumed
            r is Err ==> {
                &&& final(self).wf()
                &&& same_store_state(*old(self), *final(self))
                &&& final(self).id_floor() >= old(self).id_floor()
            },
    {
        if self.backup_key_cache.keys.len() == 0 {
            return Ok(());
        }
        let ghost cks0 = self.cache_keys();
        let ghost backup0 = self.backup();
        // queue the backup removals
        let mut bops: Vec<(Vec<u8>, Option<Vec<u8>>)> = Vec::new();
        let mut i: usize = 0;
        while i < self.backup_key_cache.keys.len()
            invariant
                old(self).wf(),
                *self == *old(self),
                cks0 == old(self).cache_keys(),
                i <= self.backup_key_cache.keys@.len(),
                bops@.len() == i,
                forall|j: int|
                    0 <= j < i ==> (#[trigger] crate::engine::op_view(bops@[j])) == (
                    cks0[j].encode_spec(),
                    None::<Seq<u8>>,
                ),
            decreases self.backup_key_cache.keys@.len() - i,
        {
            let kb = self.backup_key_cache.keys[i].as_sled_key();
            bops.push((kb, None));
            i = i + 1;
        }
        proof {
            assert(ops_view(bops@) =~= rm_ops::<K>(cks0));
        }
        // read the delta to archive when a parent exists
        let mut cops: Vec<(Vec<u8>, Option<Vec<u8>>)> = Vec::new();
        match self.cached_meta.parent_version {
            Some(parent) => {
                let vc = match collect_backup(&self.backup_tree, &self.backup_key_cache) {
                    Ok(vc) => vc,
                    Err(e) => {
                        return Err(e);
                    },
                };
                proof {
                    assert(vc_view(vc.changes@) =~= drained(cks0, backup0));
                }
                let blob = vc.serialize();
                cops.push((parent.into_sled_key(), Some(blob)));
                proof {
                    assert(crate::engine::op_view(cops@[0]) == (
                        ver_key(parent),
                        Some(vc_bytes(drained(cks0, backup0))),
                    ));
                }
            },
            None => {
            },
        }
        // the graph entry of the version being frozen
        let node = VersionNode { parent_version: self.cached_meta.parent_version };
        let gkey = self.cached_meta.working_version.into_sled_key();
        let mut nb: Vec<u8> = Vec::new();
        push_opt_version(&mut nb, &node.parent_version);
        let mut gops: Vec<(Vec<u8>, Option<Vec<u8>>)> = Vec::new();
        gops.push((gkey, Some(nb)));
        // the id of the fresh working version, drawn before anything is
        // written: a failure from here on wastes at most an id
        let id = match generate_id(&mut self.db) {
            Ok(id) => id,
            Err(e) => {
                proof {
                    lemma_wf_from_models(*old(self), *self);
                }
                return Err(TransactionError::Storage(e));
            },
        };
        if id <= self.cached_meta.working_version.number {
            // the engine's ids are monotonic and never reused, so an id at
            // or below the recorded working version means the record does
            // not come from this store's history
            proof {
                lemma_wf_from_models(*old(self), *self);
            }
            return Err(TransactionError::Corruption);
        }
        let new_meta = GridDbMetadata {
            grandparent_version: self.cached_meta.parent_version,
            parent_version: Some(self.cached_meta.working_version),
            working_version: Version::new(id),
        };
        let mb = serialize_meta(&new_meta);
        let mut mops: Vec<(Vec<u8>, Option<Vec<u8>>)> = Vec::new();
        mops.push((meta_key_bytes(), Some(mb)));
        let ghost archive0 = self.archive();
        let ghost graph0 = self.graph();
        match txn_apply_4(
            &mut self.backup_tree,
            &bops,
            &mut self.version_graph_tree,
            &gops,
            &mut self.version_change_tree,
            &cops,
            &mut self.meta_tree,
            &mops,
        ) {
            Ok(()) => {
            },
            Err(e) => {
                proof {
                    lemma_wf_from_models(*old(self), *self);
                }
                return Err(TransactionError::Storage(e));
            },
        }
        proof {
            lemma_rm_ops_apply::<K>(backup0, cks0);
            lemma_remove_keys_clears(backup0, cks0);
            assert(tree_kvs(self.backup_tree) == remove_keys(backup0, cks0));
            assert(crate::engine::op_view(gops@[0]) == (
                ver_key(old(self).meta().working_version),
                Some(node_bytes(node)),
            ));
            lemma_single_insert_apply(
                graph0,
                ops_view(gops@),
                ver_key(old(self).meta().working_version),
                node_bytes(node),
            );
            match old(self).meta().parent_version {
                Some(p) => {
                    lemma_single_insert_apply(
                        archive0,
                        ops_view(cops@),
                        ver_key(p),
                        vc_bytes(drained(cks0, backup0)),
                    );
                },
                None => {
                    assert(ops_view(cops@) =~= Seq::<(Seq<u8>, Option<Seq<u8>>)>::empty());
                },
            }
            assert(crate::engine::op_view(mops@[0]) == (meta_key(), Some(meta_bytes(new_meta))));
            lemma_single_insert_apply(
                tree_kvs(old(self).meta_tree),
                ops_view(mops@),
                meta_key(),
                meta_bytes(new_meta),
            );
        }
        self.backup_key_cache = BackupKeyCache::new();
        self.cached_meta = new_meta;
        Ok(())
    }
}

/// Entries with their keys in encoded form.
pub open spec fn enc_entries<K: DbKey>(es: Seq<(K, Seq<u8>)>) -> Seq<(Seq<u8>, Seq<u8>)> {
    es.map_values(|p: (K, Seq<u8>)| (p.0.encode_spec(), p.1))
}

/// Entries with their keys decoded.
pub open spec fn dec_entries<K: DbKey>(cs: Seq<(Seq<u8>, Seq<u8>)>) -> Seq<(K, Seq<u8>)> {
    cs.map_values(|p: (Seq<u8>, Seq<u8>)| (K::decode_spec(p.0), p.1))
}

/// What one replay hop does to the working and archive states, when the hop's
/// delta is there to consume: the delta archived under `next` is decoded and
/// applied, and the inverse delta, taken against an empty backup cache, is
/// archived under `prev`.
pub open spec fn replay_hop_spec<K: DbKey>(
    w: Map<Seq<u8>, Seq<u8>>,
    a: Map<Seq<u8>, Seq<u8>>,
    prev: Version,
    next: Version,
) -> Option<(Map<Seq<u8>, Seq<u8>>, Map<Seq<u8>, Seq<u8>>)> {
    if !a.contains_key(ver_key(next)) {
        None
    } else {
        match crate::version_change_tree::vc_parse::<K>(a[ver_key(next)]) {
            None => None,
            Some(es) => if !crate::version_change_tree::sorted_vc_entries(es) {
                None
            } else {
                let enc = enc_entries(es);
                let rv = reverse_of::<K>(w, Seq::<K>::empty(), enc);
                Some(
                    (
                        apply_encoded(w, enc),
                        a.remove(ver_key(next)).insert(ver_key(prev), vc_bytes(dec_entries::<K>(rv))),
                    ),
                )
            },
        }
    }
}

/// The working and archive states after replaying the first `n` hops of a
/// path, when every hop could be done.
pub open spec fn replay_path<K: DbKey>(
    w: Map<Seq<u8>, Seq<u8>>,
    a: Map<Seq<u8>, Seq<u8>>,
    path: Seq<Version>,
    n: int,
) -> Option<(Map<Seq<u8>, Seq<u8>>, Map<Seq<u8>, Seq<u8>>)>
    decreases n,
{
    if n <= 0 {
        Some((w, a))
    } else {
        match replay_path::<K>(w, a, path, n - 1) {
            None => None,
            Some(st) => replay_hop_spec::<K>(st.0, st.1, path[n - 1], path[n]),
        }
    }
}


/// The graph as the opening commit of a branch leaves it.
pub open spec fn branch_base_graph<K: DbKey>(s: GridDb<K>) -> Map<Seq<u8>, Seq<u8>> {
    if s.cache_keys().len() > 0 {
        s.graph().insert(
            ver_key(s.meta().working_version),
            node_bytes(VersionNode { parent_version: s.meta().parent_version }),
        )
    } else {
        s.graph()
    }
}

/// The archive as the opening commit of a branch leaves it.
pub open spec fn branch_base_archive<K: DbKey>(s: GridDb<K>) -> Map<Seq<u8>, Seq<u8>> {
    if s.cache_keys().len() > 0 {
        match s.meta().parent_version {
            Some(pv) => s.archive().insert(
                ver_key(pv),
                vc_bytes(drained(s.cache_keys(), s.backup())),
            ),
            None => s.archive(),
        }
    } else {
        s.archive()
    }
}

/// The parent version the opening commit of a branch leaves behind.
pub open spec fn branch_abort_parent<K: DbKey>(s: GridDb<K>) -> Option<Version> {
    if s.cache_keys().len() > 0 {
        Some(s.meta().working_version)
    } else {
        s.meta().parent_version
    }
}

/// The grandparent record the opening commit of a branch leaves behind.
pub open spec fn branch_base_grandparent<K: DbKey>(s: GridDb<K>) -> Option<Version> {
    if s.cache_keys().len() > 0 {
        s.meta().parent_version
    } else {
        s.meta().grandparent_version
    }
}

/// The store state the opening commit of a branch leaves behind: the working
/// tree untouched, the backup drained, the delta archived, the frozen version
/// linked, and the record rotated.
pub open spec fn branch_committed_state<K: DbKey>(pre: GridDb<K>, post: GridDb<K>) -> bool {
    &&& post.working() == pre.working()
    &&& forall|b: Seq<u8>| !post.backup().contains_key(b)
    &&& post.cache_keys().len() == 0
    &&& post.archive() == branch_base_archive(pre)
    &&& post.graph() == branch_base_graph(pre)
    &&& post.meta().parent_version == branch_abort_parent(pre)
    &&& post.meta().grandparent_version == branch_base_grandparent(pre)
    &&& (pre.cache_keys().len() == 0 ==> post.meta() == pre.meta())
    &&& (pre.cache_keys().len() > 0 ==> post.meta().working_version.number
        > pre.meta().working_version.number)
}

/// The parent a branch migrates from: the working version the commit froze,
/// or the already current parent when there was nothing to commit.
pub open spec fn branch_start<K: DbKey>(s: GridDb<K>) -> Version {
    if s.cache_keys().len() > 0 {
        s.meta().working_version
    } else {
        s.meta().parent_version.unwrap()
    }
}

/// What a completed branch migration did, witnessed by the traversed path:
/// starting from the committed parent, a chain of graph edges leads to the
/// target, replaying it hop by hop over the committed working and archive
/// states yields the final ones, and the new grandparent is the target's
/// graph parent.
pub open spec fn branch_migrated<K: DbKey>(
    pre: GridDb<K>,
    post: GridDb<K>,
    target: Version,
    p: Seq<Version>,
) -> bool {
    let g1 = branch_base_graph(pre);
    &&& p.len() >= 1
    &&& p[0] == branch_start(pre)
    &&& p.last() == target
    &&& forall|i: int|
        0 <= i < p.len() - 1 ==> graph_edge(g1, #[trigger] p[i], p[i + 1]) || graph_edge(
            g1,
            p[i + 1],
            p[i],
        )
    &&& graph_parent(g1, target) == post.meta().grandparent_version
    &&& Some((post.working(), post.archive())) == replay_path::<K>(
        pre.working(),
        branch_base_archive(pre),
        p,
        p.len() - 1,
    )
}

impl<K: DbKey> GridDb<K> {
    /// One hop of a branch migration, staged: consumes the delta archived
    /// under `next`, applies it to the staged working state against an empty
    /// backup cache so every entry contributes a reverse change, and stages
    /// the inverse delta under `prev`, keeping the state left behind
    /// reachable. Nothing touches the trees: the queued writes are applied
    /// atomically when the whole migration succeeded.
    #[verifier::rlimit(60)]
    fn replay_hop(&self, wstage: &mut Staged, astage: &mut Staged, prev: Version, next: Version) -> (r: Result<
        (),
        TransactionError,
    >)
        ensures
            r is Ok ==> Some(
                (
                    final(wstage).cur(tree_kvs(self.working_tree)),
                    final(astage).cur(tree_kvs(self.version_change_tree)),
                ),
            ) == replay_hop_spec::<K>(
                old(wstage).cur(tree_kvs(self.working_tree)),
                old(astage).cur(tree_kvs(self.version_change_tree)),
                prev,
                next,
            ),
    {
        let ghost wbase = tree_kvs(self.working_tree);
        let ghost abase = tree_kvs(self.version_change_tree);
        let ghost wcur0 = wstage.cur(wbase);
        let ghost acur0 = astage.cur(abase);
        let nk = next.into_sled_key();
        let blob = match astage.get(&self.version_change_tree, &nk) {
            Ok(Some(b)) => b,
            Ok(None) => {
                return Err(TransactionError::Abort(AbortReason::MissingVersionChanges));
            },
            Err(e) => {
                return Err(TransactionError::Storage(e));
            },
        };
        proof {
            assert(acur0.contains_key(ver_key(next)) && acur0[ver_key(next)] == blob@);
        }
        let vc = match VersionChanges::<K>::deserialize(&blob) {
            Some(vc) => vc,
            None => {
                return Err(TransactionError::Corruption);
            },
        };
        astage.set(nk, None);
        let ghost acur1 = astage.cur(abase);
        proof {
            assert(acur1 == acur0.remove(ver_key(next)));
        }
        let enc = vc.to_encoded();
        let ghost encv = ec_view(enc.changes@);
        let ghost es = vc_view(vc.changes@);
        let remove_buf = Change::serialize_remove();
        let mut rhops: Vec<(Vec<u8>, Vec<u8>)> = Vec::new();
        let ghost ast1 = *astage;
        let mut i: usize = 0;
        while i < enc.changes.len()
            invariant
                *astage == ast1,
                wbase == tree_kvs(self.working_tree),
                abase == tree_kvs(self.version_change_tree),
                encoded_changes_wf::<K>(encv),
                encv == ec_view(enc.changes@),
                remove_buf@ == remove_bytes(),
                i <= enc.changes@.len(),
                wstage.cur(wbase) == apply_encoded(wcur0, encv.subrange(0, i as int)),
                rhops@.len() == i,
                ec_view(rhops@) == reverse_of::<K>(
                    wcur0,
                    Seq::<K>::empty(),
                    encv.subrange(0, i as int),
                ),
                forall|a: int| 0 <= a < i ==> (#[trigger] rhops@[a]).0@ == encv[a].0,
            decreases enc.changes@.len() - i,
        {
            let ghost pre_cs = encv.subrange(0, i as int);
            let ghost pre_rev = ec_view(rhops@);
            let ghost wmid = wstage.cur(wbase);
            let kb = &enc.changes[i].0;
            let vb = &enc.changes[i].1;
            proof {
                assert(encv[i as int] == (kb@, vb@));
            }
            let prevv = match wstage.get(&self.working_tree, kb) {
                Ok(p) => p,
                Err(e) => {
                    return Err(TransactionError::Storage(e));
                },
            };
            proof {
                assert(wmid == apply_encoded(wcur0, pre_cs));
                assert(opt_bytes_view(prevv) == binding(wmid, kb@));
            }
            let kb2 = copy_bytes(kb);
            let kb3 = copy_bytes(kb);
            match prevv {
                Some(v) => {
                    proof {
                        assert(wmid.contains_key(kb@) && wmid[kb@] == v@);
                    }
                    rhops.push((kb2, v));
                },
                None => {
                    proof {
                        assert(!wmid.contains_key(kb@));
                    }
                    rhops.push((kb2, copy_bytes(&remove_buf)));
                },
            }
            let is_insert = vb.len() >= 1 && vb[0] == 1;
            if is_insert {
                wstage.set(kb3, Some(copy_bytes(vb)));
            } else {
                wstage.set(kb3, None);
            }
            proof {
                assert(is_insert == is_insert_bytes(vb@));
                assert(encv.subrange(0, i + 1).drop_last() =~= pre_cs);
                assert(encv.subrange(0, i + 1).last() == encv[i as int]);
                assert(!seq_has_key(Seq::<K>::empty(), K::decode_spec(kb@)));
                assert(ec_view(rhops@).drop_last() =~= pre_rev);
                assert(ec_view(rhops@) == reverse_of::<K>(
                    wcur0,
                    Seq::<K>::empty(),
                    encv.subrange(0, i + 1),
                ));
                assert(wstage.cur(wbase) == apply_encoded(wcur0, encv.subrange(0, i + 1)));
            }
            i = i + 1;
        }
        proof {
            assert(encv.subrange(0, encv.len() as int) =~= encv);
            assert forall|a: int| 0 <= a < rhops@.len() implies (#[trigger] ec_view(
                rhops@,
            )[a]).0.len() == 1 + K::width() by {
                assert(rhops@[a].0@ == encv[a].0);
                assert((#[trigger] encv[a]).0.len() == 1 + K::width());
            }
            assert forall|a: int, b: int| 0 <= a < b < rhops@.len() implies crate::bytes::lex_lt(
                (#[trigger] ec_view(rhops@)[a]).0,
                (#[trigger] ec_view(rhops@)[b]).0,
            ) by {
                assert(rhops@[a].0@ == encv[a].0 && rhops@[b].0@ == encv[b].0);
                assert(crate::bytes::lex_lt((#[trigger] encv[a]).0, (#[trigger] encv[b]).0));
            }
            assert(crate::working_tree::encoded_keys_wf::<K>(ec_view(rhops@)));
        }
        let revec = EncodedChanges { changes: rhops };
        let prev_changes = match VersionChanges::<K>::try_from_encoded(&revec) {
            Some(v) => v,
            None => {
                return Err(TransactionError::Corruption);
            },
        };
        let pb = prev_changes.serialize();
        let pk = prev.into_sled_key();
        astage.set(pk, Some(pb));
        proof {
            let rv = reverse_of::<K>(wcur0, Seq::<K>::empty(), encv);
            assert(ec_view(revec.changes@) == rv);
            assert(vc_view(prev_changes.changes@) =~= dec_entries::<K>(rv)) by {
                assert forall|i2: int| 0 <= i2 < prev_changes.changes@.len() implies vc_view(
                    prev_changes.changes@,
                )[i2] == dec_entries::<K>(rv)[i2] by {
                    let k2 = prev_changes.changes@[i2].0;
                    k2.lemma_round_trip();
                    assert(k2.encode_spec() == revec.changes@[i2].0@);
                    assert((#[trigger] ec_view(revec.changes@)[i2]).0 == revec.changes@[i2].0@);
                    assert(K::decode_spec(rv[i2].0) == k2);
                    assert(serialize_spec(prev_changes.changes@[i2].1) == revec.changes@[i2].1@);
                }
            }
            assert(ec_view(enc.changes@) =~= enc_entries(es));
            assert(wstage.cur(wbase) == apply_encoded(wcur0, encv));
            assert(pb@ == vc_bytes(vc_view(prev_changes.changes@)));
            assert(astage.cur(abase) == acur1.insert(ver_key(prev), pb@));
            assert(crate::version_change_tree::sorted_vc_entries(es)) by {
                assert forall|i2: int, j2: int| 0 <= i2 < j2 < es.len() implies key_lt_spec(
                    (#[trigger] es[i2]).0,
                    (#[trigger] es[j2]).0,
                ) by {
                    assert(es[i2].0 == vc.changes@[i2].0 && es[j2].0 == vc.changes@[j2].0);
                }
            }
            assert(acur0.contains_key(ver_key(next)));
            assert(crate::version_change_tree::vc_parse::<K>(acur0[ver_key(next)]) == Some(es));
            assert(Some((wstage.cur(wbase), astage.cur(abase))) == replay_hop_spec::<K>(
                wcur0,
                acur0,
                prev,
                next,
            ));
        }
        Ok(())
    }

    /// Commits, then migrates the working view to `new_parent_version`:
    /// walks the graph path from the old parent, checks that every hop's
    /// delta is archived, then consumes each delta, applies it to the working
    /// tree, and archives the inverse delta under the hop's predecessor, so
    /// the old state stays reachable. The whole migration is staged and
    /// applied in one engine transaction. A store whose working version has
    /// no parent is left as the commit left it; an abort or failure leaves
    /// every tree exactly as the opening commit left it.
    pub fn branch_from_version(&mut self, new_parent_version: Version) -> (r: Result<
        (),
        TransactionError,
    >)
        requires
            old(self).wf(),
        ensures
            r is Ok ==> final(self).wf(),
            old(self).cache_keys().len() == 0 && old(self).meta().parent_version is None ==> r
                is Ok && *final(self) == *old(self),
            r is Ok && !(old(self).cache_keys().len() == 0 && old(self).meta().parent_version
                is None) ==> {
                &&& final(self).meta().parent_version == Some(new_parent_version)
                &&& final(self).cache_keys().len() == 0
                &&& forall|b: Seq<u8>| !final(self).backup().contains_key(b)
                &&& final(self).id_floor() > final(self).meta().working_version.number as nat
            },
            // the migration itself: some graph path from the committed parent
            // to the target was replayed hop by hop over the working tree and
            // the archive, and the new grandparent is the target's graph
            // parent
            r is Ok && !(old(self).cache_keys().len() == 0 && old(self).meta().parent_version
                is None) ==> exists|p: Seq<Version>|
                #[trigger] branch_migrated(*old(self), *final(self), new_parent_version, p),
            // each abort reason names a condition the graph or archive
            // really exhibits
            r matches Err(TransactionError::Abort(reason)) && reason
                == AbortReason::NoPathExists ==> exists|ra: Version, rb: Version|
                #[trigger] crate::version_graph_tree::two_roots(
                    branch_base_graph(*old(self)),
                    ra,
                    rb,
                ),
            r matches Err(TransactionError::Abort(reason)) && reason
                == AbortReason::NoPathExistsToRoot ==> (exists|v: Version|
                #[trigger] crate::version_graph_tree::chain_breaks_at(
                    branch_base_graph(*old(self)),
                    branch_start(*old(self)),
                    v,
                )) || (exists|v: Version|
                #[trigger] crate::version_graph_tree::chain_breaks_at(
                    branch_base_graph(*old(self)),
                    new_parent_version,
                    v,
                )),
            r matches Err(TransactionError::Abort(reason)) && reason
                == AbortReason::MissingVersionChanges ==> exists|v: Version|
                #![auto]
                crate::version_graph_tree::graph_has(branch_base_graph(*old(self)), v)
                    && !branch_base_archive(*old(self)).contains_key(ver_key(v)),
            // a structured abort happens before any migration step: only the
            // opening commit has changed anything
            r matches Err(TransactionError::Abort(a)) ==> {
                &&& (a == AbortReason::NoPathExists || a == AbortReason::NoPathExistsToRoot || a
                    == AbortReason::MissingVersionChanges)
                &&& final(self).wf()
                &&& branch_committed_state(*old(self), *final(self))
            },
            // any failure leaves the store either as it was or exactly as the
            // opening commit left it: no partial migration survives
            r is Err ==> final(self).wf() && (same_store_state(*old(self), *final(self))
                || branch_committed_state(*old(self), *final(self))),
    {
        match self.commit_working_version() {
            Ok(()) => {
            },
            Err(e) => {
                return Err(e);
            },
        }
        let ghost s1 = *self;
        proof {
            // the commit leaves the cache empty either way, and the trees
            // are exactly the branch baseline
            assert(self.backup_key_cache.keys@.len() == 0);
            assert(s1.graph() == branch_base_graph(*old(self)));
            assert(s1.archive() == branch_base_archive(*old(self)));
            assert(s1.working() == old(self).working());
            assert(s1.meta().parent_version == branch_abort_parent(*old(self)));
            assert forall|b: Seq<u8>| !s1.backup().contains_key(b) by {
                if old(self).cache_keys().len() == 0 && s1.backup().contains_key(b) {
                    // with an empty cache the mirror invariant leaves the
                    // backup empty, and the commit changed nothing
                    assert(old(self).backup().contains_key(b));
                }
            }
            assert(s1.meta().grandparent_version == branch_base_grandparent(*old(self)));
            assert(branch_committed_state(*old(self), s1));
        }
        let old_parent = match self.cached_meta.parent_version {
            Some(p) => p,
            None => {
                return Ok(());
            },
        };
        proof {
            assert(old_parent == branch_start(*old(self)));
            assert(tree_kvs(self.version_graph_tree) == branch_base_graph(*old(self)));
        }
        let path = match find_path_between_versions(
            &self.version_graph_tree,
            old_parent,
            new_parent_version,
        ) {
            Ok(p) => p,
            Err(e) => {
                return Err(e);
            },
        };
        let plen: usize = path.path.len();
        // before touching anything, check that every hop's delta is archived
        let mut c: usize = 1;
        while c < plen
            invariant
                c >= 1,
                plen == path.path@.len(),
                forall|i: int|
                    0 <= i < path.path@.len() ==> crate::version_graph_tree::graph_has(
                        branch_base_graph(*old(self)),
                        #[trigger] path.path@[i],
                    ),
                *self == s1,
                s1.wf(),
                s1.backup_key_cache.keys@.len() == 0,
                old(self).cache_keys().len() > 0 || old(self).meta().parent_version is Some,
                s1.graph() == branch_base_graph(*old(self)),
                s1.archive() == branch_base_archive(*old(self)),
                s1.working() == old(self).working(),
                s1.meta().parent_version == branch_abort_parent(*old(self)),
                forall|b: Seq<u8>| !s1.backup().contains_key(b),
                branch_committed_state(*old(self), s1),
            decreases plen - c,
        {
            let kb = path.path[c].into_sled_key();
            match tree_get(&self.version_change_tree, &kb) {
                Ok(Some(_)) => {
                },
                Ok(None) => {
                    return Err(TransactionError::Abort(AbortReason::MissingVersionChanges));
                },
                Err(e) => {
                    return Err(TransactionError::Storage(e));
                },
            }
            c = c + 1;
        }
        // replay the path against stages: nothing touches the trees until
        // every hop succeeded
        let mut wstage = Staged::new();
        let mut astage = Staged::new();
        let mut w: usize = 0;
        while plen >= 1 && w < plen - 1
            invariant
                plen >= 1,
                w < plen,
                plen == path.path@.len(),
                old(self).cache_keys().len() > 0 || old(self).meta().parent_version is Some,
                s1.wf(),
                *self == s1,
                s1.backup_key_cache.keys@.len() == 0,
                branch_committed_state(*old(self), s1),
                Some(
                    (
                        wstage.cur(tree_kvs(self.working_tree)),
                        astage.cur(tree_kvs(self.version_change_tree)),
                    ),
                ) == replay_path::<K>(s1.working(), s1.archive(), path.path@, w as int),
            decreases plen - w,
        {
            let prev_version = path.path[w];
            let next_version = path.path[w + 1];
            let ghost wcur = wstage.cur(tree_kvs(self.working_tree));
            let ghost acur = astage.cur(tree_kvs(self.version_change_tree));
            match self.replay_hop(&mut wstage, &mut astage, prev_version, next_version) {
                Ok(()) => {
                },
                Err(e) => {
                    // every hop was checked before the replay began, so a
                    // missing delta here is an internal inconsistency, not a
                    // clean abort
                    match e {
                        TransactionError::Abort(_) => {
                            return Err(TransactionError::Corruption);
                        },
                        other => {
                            return Err(other);
                        },
                    }
                },
            }
            proof {
                assert(replay_path::<K>(s1.working(), s1.archive(), path.path@, w + 1) == Some(
                    (
                        wstage.cur(tree_kvs(self.working_tree)),
                        astage.cur(tree_kvs(self.version_change_tree)),
                    ),
                )) by {
                    assert(replay_path::<K>(s1.working(), s1.archive(), path.path@, w as int)
                        == Some((wcur, acur)));
                    assert(Some(
                        (
                            wstage.cur(tree_kvs(self.working_tree)),
                            astage.cur(tree_kvs(self.version_change_tree)),
                        ),
                    ) == replay_hop_spec::<K>(
                        wcur,
                        acur,
                        path.path@[w as int],
                        path.path@[w + 1],
                    ));
                }
            }
            w = w + 1;
        }
        let id = match generate_id(&mut self.db) {
            Ok(id) => id,
            Err(e) => {
                proof {
                    lemma_wf_from_models(s1, *self);
                    assert(branch_committed_state(*old(self), *self));
                }
                return Err(TransactionError::Storage(e));
            },
        };
        let new_meta = GridDbMetadata {
            grandparent_version: path.end_parent,
            parent_version: Some(new_parent_version),
            working_version: Version::new(id),
        };
        let mb = serialize_meta(&new_meta);
        let mut mops: Vec<(Vec<u8>, Option<Vec<u8>>)> = Vec::new();
        mops.push((meta_key_bytes(), Some(mb)));
        let ghost wfin = wstage.cur(tree_kvs(self.working_tree));
        let ghost afin = astage.cur(tree_kvs(self.version_change_tree));
        match txn_apply_3(
            &mut self.working_tree,
            &wstage.ops,
            &mut self.version_change_tree,
            &astage.ops,
            &mut self.meta_tree,
            &mops,
        ) {
            Ok(()) => {
            },
            Err(e) => {
                proof {
                    lemma_wf_from_models(s1, *self);
                }
                return Err(TransactionError::Storage(e));
            },
        }
        proof {
            assert(tree_kvs(self.working_tree) == wfin);
            assert(tree_kvs(self.version_change_tree) == afin);
            assert(crate::engine::op_view(mops@[0]) == (meta_key(), Some(meta_bytes(new_meta))));
            lemma_single_insert_apply(
                tree_kvs(s1.meta_tree),
                ops_view(mops@),
                meta_key(),
                meta_bytes(new_meta),
            );
        }
        self.cached_meta = new_meta;
        proof {
            assert(self.backup_key_cache.wf());
            assert(self.cache_keys().len() == 0);
            assert(tree_kvs(self.meta_tree).contains_key(meta_key()));
            assert(tree_kvs(self.meta_tree)[meta_key()] == meta_bytes(self.cached_meta));
            assert(self.backup() == s1.backup());
            assert forall|b: Seq<u8>| !self.backup().contains_key(b) by {
                if self.backup().contains_key(b) {
                    assert(s1.backup().contains_key(b));
                }
            }
            assert(self.wf());
            // the found path witnesses the migration clause
            let p = path.path@;
            let g1 = branch_base_graph(*old(self));
            assert(tree_kvs(s1.version_graph_tree) == g1);
            assert(p[0] == old_parent && old_parent == branch_start(*old(self)));
            assert(w as int == p.len() - 1);
            assert(Some((self.working(), self.archive())) == replay_path::<K>(
                old(self).working(),
                branch_base_archive(*old(self)),
                p,
                p.len() - 1,
            ));
            assert(graph_parent(g1, new_parent_version) == self.meta().grandparent_version);
            assert(branch_migrated(*old(self), *self, new_parent_version, p));
        }
        Ok(())
    }
}

/// What the backup reconstructs at one key over a working state: a backed-up
/// key reverts to its recorded change, every other key keeps its working
/// binding.
pub open spec fn restored(w: Map<Seq<u8>, Seq<u8>>, b: Map<Seq<u8>, Seq<u8>>, x: Seq<u8>) -> Option<
    Seq<u8>,
> {
    if b.contains_key(x) {
        if is_insert_bytes(b[x]) {
            Some(b[x])
        } else {
            None
        }
    } else {
        binding(w, x)
    }
}

/// Each reverse change of a batch carries a distinct batch key whose decoded
/// form the cache does not hold, bound to the starting state's binding for
/// it; and every such batch key has its reverse change.
proof fn lemma_reverse_entries<K: DbKey>(
    m0: Map<Seq<u8>, Seq<u8>>,
    cks: Seq<K>,
    cs: Seq<(Seq<u8>, Seq<u8>)>,
)
    requires
        forall|i: int, j: int|
            0 <= i < j < cs.len() ==> crate::bytes::lex_lt(
                (#[trigger] cs[i]).0,
                (#[trigger] cs[j]).0,
            ),
    ensures
        forall|a: int|
            #![trigger reverse_of::<K>(m0, cks, cs)[a]]
            0 <= a < reverse_of::<K>(m0, cks, cs).len() ==> exists|j: int|
                0 <= j < cs.len() && reverse_of::<K>(m0, cks, cs)[a].0 == (#[trigger] cs[j]).0,
        forall|a: int|
            #![trigger reverse_of::<K>(m0, cks, cs)[a]]
            0 <= a < reverse_of::<K>(m0, cks, cs).len() ==> !seq_has_key(
                cks,
                K::decode_spec(reverse_of::<K>(m0, cks, cs)[a].0),
            ),
        forall|a: int|
            #![trigger reverse_of::<K>(m0, cks, cs)[a]]
            0 <= a < reverse_of::<K>(m0, cks, cs).len() ==> reverse_of::<K>(m0, cks, cs)[a].1 == (
            if m0.contains_key(reverse_of::<K>(m0, cks, cs)[a].0) {
                m0[reverse_of::<K>(m0, cks, cs)[a].0]
            } else {
                remove_bytes()
            }),
        forall|a1: int, a2: int|
            #![trigger reverse_of::<K>(m0, cks, cs)[a1], reverse_of::<K>(m0, cks, cs)[a2]]
            0 <= a1 < a2 < reverse_of::<K>(m0, cks, cs).len() ==> reverse_of::<K>(m0, cks, cs)[a1].0
                != reverse_of::<K>(m0, cks, cs)[a2].0,
        forall|j: int|
            #![trigger cs[j]]
            0 <= j < cs.len() && !seq_has_key(cks, K::decode_spec(cs[j].0)) ==> exists|a: int|
                0 <= a < reverse_of::<K>(m0, cks, cs).len() && reverse_of::<K>(m0, cks, cs)[a].0
                    == cs[j].0,
    decreases cs.len(),
{
    if cs.len() > 0 {
        let drop = cs.drop_last();
        let pre = reverse_of::<K>(m0, cks, drop);
        let rv = reverse_of::<K>(m0, cks, cs);
        assert forall|i: int, j: int|
            0 <= i < j < drop.len() implies crate::bytes::lex_lt(
            (#[trigger] drop[i]).0,
            (#[trigger] drop[j]).0,
        ) by {
            assert(drop[i] == cs[i] && drop[j] == cs[j]);
        }
        lemma_reverse_entries::<K>(m0, cks, drop);
        // the prefix leaves the last key's binding untouched
        assert forall|j: int| 0 <= j < drop.len() implies (#[trigger] drop[j]).0
            != cs.last().0 by {
            assert(drop[j] == cs[j]);
            assert(crate::bytes::lex_lt(cs[j].0, cs[cs.len() - 1].0));
            if cs[j].0 == cs.last().0 {
                crate::bytes::lemma_lex_lt_irrefl(cs.last().0);
            }
        }
        crate::working_tree::lemma_apply_untouched(m0, drop, cs.last().0);
        let mcur = apply_encoded(m0, drop);
        if !seq_has_key(cks, K::decode_spec(cs.last().0)) {
            assert(rv == pre.push(
                (
                    cs.last().0,
                    if mcur.contains_key(cs.last().0) {
                        mcur[cs.last().0]
                    } else {
                        remove_bytes()
                    },
                ),
            ));
            assert(rv.last().0 == cs[cs.len() - 1].0);
            assert(rv.last().1 == (
            if m0.contains_key(rv.last().0) {
                m0[rv.last().0]
            } else {
                remove_bytes()
            }));
            // the new key differs from every earlier reverse key
            assert forall|a: int| 0 <= a < pre.len() implies (#[trigger] pre[a]).0
                != cs.last().0 by {
                let j = choose|j: int| 0 <= j < drop.len() && pre[a].0 == (#[trigger] drop[j]).0;
                assert(drop[j].0 != cs.last().0);
            }
        } else {
            assert(rv == pre);
        }
        assert forall|j: int|
            0 <= j < cs.len() && !seq_has_key(
                cks,
                K::decode_spec((#[trigger] cs[j]).0),
            ) implies exists|a: int| 0 <= a < rv.len() && rv[a].0 == cs[j].0 by {
            if j < cs.len() - 1 {
                assert(drop[j] == cs[j]);
                let a = choose|a: int| 0 <= a < pre.len() && pre[a].0 == (#[trigger] drop[j]).0;
                assert(rv[a] == pre[a]);
                assert(rv[a].0 == cs[j].0);
            } else {
                assert(cs[j] == cs.last());
                assert(rv[rv.len() - 1].0 == cs.last().0);
            }
        }
    }
}

/// A write preserves what the backup reconstructs. At every key, the state
/// the new backup reconstructs over the new working tree equals the state
/// the old backup reconstructs over the old one: the parent version's state
/// survives the write. The premises are the store's standing facts: the
/// batch's keys are of the codec's width and strictly ascending, the
/// backup's keys are exactly the cached keys' encodings, and the working
/// tree binds keys to insert-encoded values.
pub proof fn lemma_write_preserves_restored<K: DbKey>(
    w: Map<Seq<u8>, Seq<u8>>,
    cks: Seq<K>,
    b: Map<Seq<u8>, Seq<u8>>,
    cs: Seq<(Seq<u8>, Seq<u8>)>,
    x: Seq<u8>,
)
    requires
        crate::working_tree::encoded_keys_wf::<K>(cs),
        forall|i: int| 0 <= i < cks.len() ==> (#[trigger] cks[i]).wf(),
        forall|i: int| 0 <= i < cks.len() ==> b.contains_key((#[trigger] cks[i]).encode_spec()),
        forall|bb: Seq<u8>|
            b.contains_key(bb) ==> exists|i: int|
                0 <= i < cks.len() && (#[trigger] cks[i]).encode_spec() == bb,
        forall|bb: Seq<u8>| w.contains_key(bb) ==> is_insert_bytes(#[trigger] w[bb]),
    ensures
        restored(apply_encoded(w, cs), insert_all(b, reverse_of::<K>(w, cks, cs)), x) == restored(
            w,
            b,
            x,
        ),
{
    let rv = reverse_of::<K>(w, cks, cs);
    let w2 = apply_encoded(w, cs);
    let b2 = insert_all(b, rv);
    lemma_reverse_entries::<K>(w, cks, cs);
    lemma_enc_ops_apply(w, cs);
    lemma_ins_ops_apply(b, rv);
    if exists|j: int| 0 <= j < cs.len() && (#[trigger] cs[j]).0 == x {
        let j = choose|j: int| 0 <= j < cs.len() && (#[trigger] cs[j]).0 == x;
        assert forall|j2: int| j < j2 < enc_ops(cs).len() implies (#[trigger] enc_ops(cs)[j2]).0
            != x by {
            assert(enc_ops(cs)[j2].0 == cs[j2].0);
            assert(crate::bytes::lex_lt(cs[j].0, cs[j2].0));
            if cs[j2].0 == x {
                crate::bytes::lemma_lex_lt_irrefl(x);
            }
        }
        assert(enc_ops(cs)[j].0 == x);
        crate::staging::lemma_ops_binding_hit(w, enc_ops(cs), x, j);
        assert(cs[j].0.len() == 1 + K::width());
        K::lemma_decode_encode(x);
        let k = K::decode_spec(x);
        if seq_has_key(cks, k) {
            // the key stays backed up under its old delta, which decides the
            // reconstruction at x on both sides by its value alone
            let i = choose|i: int| 0 <= i < cks.len() && (#[trigger] cks[i]) == k;
            assert(cks[i].encode_spec() == x);
            assert(b.contains_key(x));
            assert forall|a: int| 0 <= a < ins_ops(rv).len() implies (#[trigger] ins_ops(
                rv,
            )[a]).0 != x by {
                assert(ins_ops(rv)[a].0 == rv[a].0);
                if rv[a].0 == x {
                    assert(!seq_has_key(cks, K::decode_spec(rv[a].0)));
                }
            }
            crate::staging::lemma_ops_binding_miss(b, ins_ops(rv), x);
            assert(b2.contains_key(x) && b2[x] == b[x]);
        } else {
            // the key moves into the backup carrying the old working
            // binding, which the reconstruction at x reads back
            let a = choose|a: int| 0 <= a < rv.len() && (#[trigger] rv[a]).0 == cs[j].0;
            assert(ins_ops(rv)[a].0 == x);
            assert forall|a2: int| a < a2 < ins_ops(rv).len() implies (#[trigger] ins_ops(
                rv,
            )[a2]).0 != x by {
                assert(ins_ops(rv)[a2].0 == rv[a2].0);
                assert(rv[a].0 != rv[a2].0);
            }
            crate::staging::lemma_ops_binding_hit(b, ins_ops(rv), x, a);
            assert(binding(b2, x) == Some(rv[a].1));
            assert(b2.contains_key(x) && b2[x] == rv[a].1);
            if b.contains_key(x) {
                let i = choose|i: int|
                    0 <= i < cks.len() && (#[trigger] cks[i]).encode_spec() == x;
                cks[i].lemma_round_trip();
                assert(K::decode_spec(x) == cks[i]);
                assert(seq_has_key(cks, k));
            }
            assert(!b.contains_key(x));
            assert(restored(w, b, x) == binding(w, x));
            if w.contains_key(x) {
                assert(rv[a].1 == w[x]);
                assert(is_insert_bytes(w[x]));
                assert(restored(w2, b2, x) == Some(w[x]));
            } else {
                assert(rv[a].1 == remove_bytes());
                assert(!is_insert_bytes(remove_bytes()));
                assert(restored(w2, b2, x) == None::<Seq<u8>>);
            }
        }
    } else {
        // neither the batch nor the reverse batch names x: both
        // reconstructions read the same entry or the same binding
        assert forall|j2: int| 0 <= j2 < enc_ops(cs).len() implies (#[trigger] enc_ops(cs)[j2]).0
            != x by {
            assert(enc_ops(cs)[j2].0 == cs[j2].0);
        }
        crate::staging::lemma_ops_binding_miss(w, enc_ops(cs), x);
        assert(binding(w2, x) == binding(w, x));
        assert forall|a: int| 0 <= a < ins_ops(rv).len() implies (#[trigger] ins_ops(rv)[a]).0
            != x by {
            assert(ins_ops(rv)[a].0 == rv[a].0);
            let j2 = choose|j2: int| 0 <= j2 < cs.len() && rv[a].0 == (#[trigger] cs[j2]).0;
            assert(cs[j2].0 != x);
        }
        crate::staging::lemma_ops_binding_miss(b, ins_ops(rv), x);
        assert(binding(b2, x) == binding(b, x));
        if b.contains_key(x) {
            assert(b2.contains_key(x) && b2[x] == b[x]);
        } else {
            assert(!b2.contains_key(x));
        }
    }
}

/// A store value with the same cache, record and backup and metadata tree
/// models as a well-formed one is well formed itself.
proof fn lemma_wf_from_models<K: DbKey>(a: GridDb<K>, b: GridDb<K>)
    requires
        a.wf(),
        b.backup_key_cache == a.backup_key_cache,
        b.cached_meta == a.cached_meta,
        tree_kvs(b.backup_tree) == tree_kvs(a.backup_tree),
        tree_kvs(b.meta_tree) == tree_kvs(a.meta_tree),
    ensures
        b.wf(),
{
    assert forall|i: int| 0 <= i < b.cache_keys().len() implies b.backup().contains_key(
        (#[trigger] b.cache_keys()[i]).encode_spec(),
    ) by {
        assert(a.backup().contains_key((#[trigger] a.cache_keys()[i]).encode_spec()));
    }
    assert forall|bb: Seq<u8>| b.backup().contains_key(bb) implies exists|i: int|
        0 <= i < b.cache_keys().len() && (#[trigger] b.cache_keys()[i]).encode_spec() == bb by {
        assert(a.backup().contains_key(bb));
        let w = choose|w: int|
            0 <= w < a.cache_keys().len() && (#[trigger] a.cache_keys()[w]).encode_spec() == bb;
        assert(b.cache_keys()[w].encode_spec() == bb);
    }
}

/// Removing every key the cache mirrors empties the backup map.
proof fn lemma_remove_keys_clears<K: DbKey>(m: Map<Seq<u8>, Seq<u8>>, ks: Seq<K>)
    requires
        forall|b: Seq<u8>|
            m.contains_key(b) ==> exists|i: int|
                0 <= i < ks.len() && (#[trigger] ks[i]).encode_spec() == b,
    ensures
        forall|b: Seq<u8>| !remove_keys(m, ks).contains_key(b),
{
    assert forall|b: Seq<u8>| !remove_keys(m, ks).contains_key(b) by {
        lemma_remove_keys_contains(m, ks, b);
        if remove_keys(m, ks).contains_key(b) {
            let i = choose|i: int| 0 <= i < ks.len() && (#[trigger] ks[i]).encode_spec() == b;
        }
    }
}

/// A key survives the removals exactly when none of the removed keys encodes
/// to it.
proof fn lemma_remove_keys_contains<K: DbKey>(m: Map<Seq<u8>, Seq<u8>>, ks: Seq<K>, b: Seq<u8>)
    ensures
        remove_keys(m, ks).contains_key(b) <==> m.contains_key(b) && !exists|i: int|
            0 <= i < ks.len() && (#[trigger] ks[i]).encode_spec() == b,
    decreases ks.len(),
{
    if ks.len() > 0 {
        lemma_remove_keys_contains(m, ks.drop_last(), b);
        assert(remove_keys(m, ks) == remove_keys(m, ks.drop_last()).remove(
            ks.last().encode_spec(),
        ));
        if exists|i: int| 0 <= i < ks.drop_last().len() && (#[trigger] ks.drop_last()[i]).encode_spec() == b {
            let i = choose|i: int|
                0 <= i < ks.drop_last().len() && (#[trigger] ks.drop_last()[i]).encode_spec() == b;
            assert(ks[i].encode_spec() == b);
        }
        if exists|i: int| 0 <= i < ks.len() && (#[trigger] ks[i]).encode_spec() == b {
            let i = choose|i: int| 0 <= i < ks.len() && (#[trigger] ks[i]).encode_spec() == b;
            if i < ks.len() - 1 {
                assert(ks.drop_last()[i].encode_spec() == b);
            } else {
                assert(ks[i] == ks.last());
            }
        }
    }
}

/// What a batch write leaves in a map: the old entries and every written
/// pair.
proof fn lemma_insert_all_contains(m: Map<Seq<u8>, Seq<u8>>, cs: Seq<(Seq<u8>, Seq<u8>)>)
    ensures
        forall|b: Seq<u8>|
            #![trigger insert_all(m, cs).contains_key(b)]
            insert_all(m, cs).contains_key(b) <==> m.contains_key(b) || exists|a: int|
                0 <= a < cs.len() && (#[trigger] cs[a]).0 == b,
    decreases cs.len(),
{
    if cs.len() > 0 {
        lemma_insert_all_contains(m, cs.drop_last());
        assert forall|b: Seq<u8>|
            insert_all(m, cs).contains_key(b) <==> m.contains_key(b) || exists|a: int|
                0 <= a < cs.len() && (#[trigger] cs[a]).0 == b by {
            if insert_all(m, cs).contains_key(b) {
                if b != cs.last().0 {
                    assert(insert_all(m, cs.drop_last()).contains_key(b));
                    if !m.contains_key(b) {
                        let a = choose|a: int|
                            0 <= a < cs.drop_last().len() && (#[trigger] cs.drop_last()[a]).0 == b;
                        assert(cs[a].0 == b);
                    }
                } else {
                    assert(cs[cs.len() - 1].0 == b);
                }
            }
            if m.contains_key(b) {
                assert(insert_all(m, cs.drop_last()).contains_key(b));
                assert(insert_all(m, cs) == insert_all(m, cs.drop_last()).insert(
                    cs.last().0,
                    cs.last().1,
                ));
                assert(insert_all(m, cs).contains_key(b));
            }
            if exists|a: int| 0 <= a < cs.len() && (#[trigger] cs[a]).0 == b {
                let a = choose|a: int| 0 <= a < cs.len() && (#[trigger] cs[a]).0 == b;
                if a < cs.len() - 1 {
                    assert(cs.drop_last()[a].0 == b);
                    assert(insert_all(m, cs.drop_last()).contains_key(b));
                    if b != cs.last().0 {
                        assert(insert_all(m, cs).contains_key(b));
                    }
                } else {
                    assert(cs[a] == cs.last());
                }
                assert(insert_all(m, cs) == insert_all(m, cs.drop_last()).insert(
                    cs.last().0,
                    cs.last().1,
                ));
                assert(insert_all(m, cs).contains_key(b));
            }
        }
    }
}

} // verus!
