//! The backup tree: a persistent buffer of reverse changes for the current
//! working version, mirrored by an in-memory sorted key cache.

use vstd::prelude::*;
use crate::change_encoder::{ec_view, serialize_spec, Change, EncodedChanges};
use crate::db::TransactionError;
use crate::db_key::{key_lt_spec, DbKey};
use crate::engine::{open_tree, tree_insert, tree_keys, tree_remove, tree_kvs};
use crate::version_change_tree::VersionChanges;

verus! {

/// The set of keys currently stored in the backup tree; equivalently, the
/// keys changed since the working version was opened. Held sorted in memory
/// because the engine offers no transactional iteration.
pub struct BackupKeyCache<K: DbKey> {
    pub keys: Vec<K>,
}

/// Whether a key sequence holds `k`.
pub open spec fn seq_has_key<K: DbKey>(ks: Seq<K>, k: K) -> bool {
    exists|i: int| 0 <= i < ks.len() && ks[i] == k
}

impl<K: DbKey> BackupKeyCache<K> {
    /// Keys are well formed and strictly ascending.
    pub open spec fn wf(self) -> bool {
        &&& forall|i: int| 0 <= i < self.keys@.len() ==> (#[trigger] self.keys@[i]).wf()
        &&& forall|i: int, j: int|
            0 <= i < j < self.keys@.len() ==> key_lt_spec(
                (#[trigger] self.keys@[i]),
                (#[trigger] self.keys@[j]),
            )
    }

    /// Whether the cache holds `k`.
    pub open spec fn has_key(self, k: K) -> bool {
        seq_has_key(self.keys@, k)
    }

    pub fn new() -> (r: Self)
        ensures
            r.wf(),
            r.keys@.len() == 0,
    {
        BackupKeyCache { keys: Vec::new() }
    }

    /// Whether the cache holds `k`.
    pub fn contains(&self, k: &K) -> (r: bool)
        requires
            self.wf(),
            k.wf(),
        ensures
            r == self.has_key(*k),
    {
        let mut i: usize = 0;
        while i < self.keys.len()
            invariant
                self.wf(),
                k.wf(),
                i <= self.keys@.len(),
                forall|j: int| 0 <= j < i ==> (#[trigger] self.keys@[j]) != *k,
            decreases self.keys@.len() - i,
        {
            if self.keys[i].key_eq(k) {
                return true;
            }
            i = i + 1;
        }
        false
    }

    /// Inserts a key the cache does not hold, keeping the order.
    pub fn insert_key(&mut self, k: K)
        requires
            old(self).wf(),
            k.wf(),
            !old(self).has_key(k),
        ensures
            final(self).wf(),
            forall|x: K| final(self).has_key(x) <==> old(self).has_key(x) || x == k,
            final(self).keys@.len() == old(self).keys@.len() + 1,
    {
        let ghost pre = self.keys@;
        let mut i: usize = 0;
        while i < self.keys.len() && self.keys[i].key_lt(&k)
            invariant
                self.wf(),
                self.keys@ == pre,
                k.wf(),
                i <= self.keys@.len(),
                forall|j: int| 0 <= j < i ==> key_lt_spec((#[trigger] self.keys@[j]), k),
            decreases self.keys@.len() - i,
        {
            i = i + 1;
        }
        proof {
            if i < pre.len() {
                assert(!key_lt_spec(pre[i as int], k));
                if pre[i as int].level_spec() == k.level_spec() && pre[i as int].morton_spec()
                    == k.morton_spec() {
                    pre[i as int].lemma_eq_by_parts(k);
                    assert(seq_has_key(pre, k));
                }
                assert(key_lt_spec(k, pre[i as int]));
            }
        }
        self.keys.insert(i, k);
        proof {
            let s2 = self.keys@;
            assert(s2 =~= pre.take(i as int) + seq![k] + pre.skip(i as int));
            assert forall|a: int, b: int| 0 <= a < b < s2.len() implies key_lt_spec(
                (#[trigger] s2[a]),
                (#[trigger] s2[b]),
            ) by {
                let ii = i as int;
                if a < ii && b == ii {
                    assert(s2[a] == pre[a]);
                } else if a == ii && b > ii {
                    assert(s2[b] == pre[b - 1]);
                    assert(key_lt_spec(k, pre[ii]));
                    if b - 1 > ii {
                        assert(key_lt_spec(pre[ii], pre[b - 1]));
                    }
                } else if a < ii && b > ii {
                    assert(s2[a] == pre[a] && s2[b] == pre[b - 1]);
                } else if a > ii && b > ii {
                    assert(s2[a] == pre[a - 1] && s2[b] == pre[b - 1]);
                }
            }
            assert forall|x: K| final(self).has_key(x) <==> old(self).has_key(x) || x == k by {
                if seq_has_key(s2, x) {
                    let w = choose|w: int| 0 <= w < s2.len() && s2[w] == x;
                    if w < i {
                        assert(pre[w] == x);
                    } else if w > i {
                        assert(pre[w - 1] == x);
                    }
                }
                if seq_has_key(pre, x) {
                    let w = choose|w: int| 0 <= w < pre.len() && pre[w] == x;
                    if w < i {
                        assert(s2[w] == x);
                    } else {
                        assert(s2[w + 1] == x);
                    }
                }
                assert(s2[i as int] == k);
            }
        }
    }
}

/// Opens the backup tree and rebuilds the key cache by one full scan: the
/// cache holds exactly the keys the tree holds.
pub fn open_backup_tree<K: DbKey>(map_name: &str, db: &sled::Db) -> (r: Result<
    (sled::Tree, BackupKeyCache<K>),
    TransactionError,
>)
    ensures
        r matches Ok((t, cache)) ==> {
            &&& cache.wf()
            &&& forall|i: int|
                0 <= i < cache.keys@.len() ==> tree_kvs(t).contains_key(
                    (#[trigger] cache.keys@[i]).encode_spec(),
                )
            &&& forall|b: Seq<u8>|
                tree_kvs(t).contains_key(b) ==> exists|i: int|
                    0 <= i < cache.keys@.len() && (#[trigger] cache.keys@[i]).encode_spec() == b
        },
{
    let tree = match open_tree(db, map_name, "-backup") {
        Ok(t) => t,
        Err(e) => {
            return Err(TransactionError::Storage(e));
        },
    };
    let key_bytes = match tree_keys(&tree) {
        Ok(ks) => ks,
        Err(e) => {
            return Err(TransactionError::Storage(e));
        },
    };
    let kw = K::key_width();
    let mut keys: Vec<K> = Vec::new();
    let mut i: usize = 0;
    while i < key_bytes.len()
        invariant
            kw as nat == 1 + K::width(),
            i <= key_bytes@.len(),
            keys@.len() == i,
            forall|j: int|
                0 <= j < key_bytes@.len() ==> tree_kvs(tree).contains_key(
                    (#[trigger] key_bytes@[j])@,
                ),
            forall|a: int, b: int|
                0 <= a < b < key_bytes@.len() ==> crate::bytes::lex_lt(
                    (#[trigger] key_bytes@[a])@,
                    (#[trigger] key_bytes@[b])@,
                ),
            forall|j: int|
                0 <= j < i ==> (#[trigger] keys@[j]).wf() && keys@[j].encode_spec()
                    == key_bytes@[j]@,
        decreases key_bytes@.len() - i,
    {
        if key_bytes[i].len() != kw {
            return Err(TransactionError::Corruption);
        }
        let k = K::from_sled_key(&key_bytes[i]);
        proof {
            K::lemma_decode_encode(key_bytes@[i as int]@);
        }
        keys.push(k);
        i = i + 1;
    }
    let cache = BackupKeyCache { keys };
    proof {
        assert forall|i2: int| 0 <= i2 < cache.keys@.len() implies tree_kvs(tree).contains_key(
            (#[trigger] cache.keys@[i2]).encode_spec(),
        ) by {
            assert(cache.keys@[i2].encode_spec() == key_bytes@[i2]@);
            assert(tree_kvs(tree).contains_key(key_bytes@[i2]@));
        }
        assert forall|a: int, b: int| 0 <= a < b < cache.keys@.len() implies key_lt_spec(
            (#[trigger] cache.keys@[a]),
            (#[trigger] cache.keys@[b]),
        ) by {
            cache.keys@[a].lemma_encode_order(cache.keys@[b]);
        }
        assert forall|b: Seq<u8>| tree_kvs(tree).contains_key(b) implies exists|i2: int|
            0 <= i2 < cache.keys@.len() && (#[trigger] cache.keys@[i2]).encode_spec() == b by {
            let w = choose|w: int| 0 <= w < key_bytes@.len() && (key_bytes@[w])@ == b;
            assert(cache.keys@[w].encode_spec() == b);
        }
    }
    Ok((tree, cache))
}

/// The map after writing every pair of a batch, in order.
pub open spec fn insert_all(m: Map<Seq<u8>, Seq<u8>>, cs: Seq<(Seq<u8>, Seq<u8>)>) -> Map<
    Seq<u8>,
    Seq<u8>,
>
    decreases cs.len(),
{
    if cs.len() == 0 {
        m
    } else {
        insert_all(m, cs.drop_last()).insert(cs.last().0, cs.last().1)
    }
}

/// Writes each pair of the batch verbatim. The caller updates the cache only
/// after everything else succeeded.
pub fn write_changes_to_backup_tree(txn: &mut sled::Tree, changes: &EncodedChanges) -> (r: Result<
    (),
    sled::Error,
>)
    ensures
        r is Ok ==> tree_kvs(*final(txn)) == insert_all(
            tree_kvs(*old(txn)),
            ec_view(changes.changes@),
        ),
        changes.changes@.len() == 0 ==> r is Ok,
{
    let mut i: usize = 0;
    while i < changes.changes.len()
        invariant
            i <= changes.changes@.len(),
            tree_kvs(*txn) == insert_all(
                tree_kvs(*old(txn)),
                ec_view(changes.changes@).subrange(0, i as int),
            ),
        decreases changes.changes@.len() - i,
    {
        let ghost pre = ec_view(changes.changes@).subrange(0, i as int);
        match tree_insert(txn, &changes.changes[i].0, &changes.changes[i].1) {
            Ok(_) => {
            },
            Err(e) => {
                return Err(e);
            },
        }
        proof {
            let cs = ec_view(changes.changes@).subrange(0, i + 1);
            assert(cs.drop_last() =~= pre);
            assert(cs.last() == ec_view(changes.changes@)[i as int]);
        }
        i = i + 1;
    }
    proof {
        assert(ec_view(changes.changes@).subrange(0, changes.changes@.len() as int) =~= ec_view(
            changes.changes@,
        ));
    }
    Ok(())
}

/// The map after removing the encoded form of every key, in order.
pub open spec fn remove_keys<K: DbKey>(m: Map<Seq<u8>, Seq<u8>>, ks: Seq<K>) -> Map<
    Seq<u8>,
    Seq<u8>,
>
    decreases ks.len(),
{
    if ks.len() == 0 {
        m
    } else {
        remove_keys(m, ks.drop_last()).remove(ks.last().encode_spec())
    }
}

/// Drains the backup into a delta: removes each cached key's entry and
/// decodes its change. A cached key whose entry is missing or unreadable is a
/// fatal inconsistency.
pub fn commit_backup<K: DbKey>(txn: &mut sled::Tree, keys: &BackupKeyCache<K>) -> (r: Result<
    VersionChanges<K>,
    TransactionError,
>)
    requires
        keys.wf(),
    ensures
        r matches Ok(vc) ==> {
            &&& tree_kvs(*final(txn)) == remove_keys(tree_kvs(*old(txn)), keys.keys@)
            &&& vc.wf()
            &&& vc.changes@.len() == keys.keys@.len()
            &&& forall|i: int|
                0 <= i < vc.changes@.len() ==> (#[trigger] vc.changes@[i]).0 == keys.keys@[i]
                    && tree_kvs(*old(txn)).contains_key(keys.keys@[i].encode_spec())
                    && serialize_spec(vc.changes@[i].1) == tree_kvs(*old(txn))[keys.keys@[
                    i
                ].encode_spec()]
        },
        r matches Err(e) ==> !(e is Abort),
        keys.keys@.len() == 0 ==> r is Ok,
        r matches Err(e) ==> e is Storage || exists|i: int|
            0 <= i < keys.keys@.len() && (!tree_kvs(*old(txn)).contains_key(
                (#[trigger] keys.keys@[i]).encode_spec(),
            ) || !crate::change_encoder::valid_change_bytes(
                tree_kvs(*old(txn))[keys.keys@[i].encode_spec()],
            )),
{
    let mut out: Vec<(K, Change)> = Vec::new();
    let mut i: usize = 0;
    while i < keys.keys.len()
        invariant
            keys.wf(),
            i <= keys.keys@.len(),
            out@.len() == i,
            tree_kvs(*txn) == remove_keys(tree_kvs(*old(txn)), keys.keys@.subrange(0, i as int)),
            forall|j: int, j2: int|
                0 <= j < j2 < keys.keys@.len() ==> key_lt_spec(
                    (#[trigger] keys.keys@[j]),
                    (#[trigger] keys.keys@[j2]),
                ),
            forall|j: int|
                0 <= j < i ==> (#[trigger] out@[j]).0 == keys.keys@[j] && tree_kvs(
                    *old(txn),
                ).contains_key(keys.keys@[j].encode_spec()) && serialize_spec(out@[j].1)
                    == tree_kvs(*old(txn))[keys.keys@[j].encode_spec()],
        decreases keys.keys@.len() - i,
    {
        let ghost pre = keys.keys@.subrange(0, i as int);
        let k = keys.keys[i];
        let kb = k.as_sled_key();
        proof {
            // the removed keys so far are all before this one, so this
            // key's entry is untouched in the running map
            assert forall|j: int| 0 <= j < pre.len() implies (#[trigger] pre[j]).encode_spec()
                != k.encode_spec() by {
                assert(key_lt_spec(keys.keys@[j], k));
                pre[j].lemma_encode_order(k);
                crate::bytes::lemma_lex_lt_irrefl(k.encode_spec());
            }
            lemma_remove_keys_other(tree_kvs(*old(txn)), pre, k);
        }
        let prev = match tree_remove(txn, &kb) {
            Ok(p) => p,
            Err(e) => {
                return Err(TransactionError::Storage(e));
            },
        };
        let vb = match prev {
            Some(v) => v,
            None => {
                proof {
                    assert(!tree_kvs(*old(txn)).contains_key(
                        (#[trigger] keys.keys@[i as int]).encode_spec(),
                    ));
                }
                return Err(TransactionError::Corruption);
            },
        };
        let c = match Change::deserialize(&vb) {
            Some(c) => c,
            None => {
                proof {
                    assert(tree_kvs(*old(txn)).contains_key(
                        (#[trigger] keys.keys@[i as int]).encode_spec(),
                    ) && !crate::change_encoder::valid_change_bytes(
                        tree_kvs(*old(txn))[keys.keys@[i as int].encode_spec()],
                    ));
                }
                return Err(TransactionError::Corruption);
            },
        };
        proof {
            let cs = keys.keys@.subrange(0, i + 1);
            assert(cs.drop_last() =~= pre);
            assert(cs.last() == k);
        }
        out.push((k, c));
        i = i + 1;
    }
    proof {
        assert(keys.keys@.subrange(0, keys.keys@.len() as int) =~= keys.keys@);
    }
    Ok(VersionChanges { changes: out })
}

/// Reads the delta the backup holds for every cached key, leaving the tree
/// untouched; a commit queues the removals and applies them in the same
/// transaction as the archive write.
pub(crate) fn collect_backup<K: DbKey>(t: &sled::Tree, keys: &BackupKeyCache<K>) -> (r: Result<
    VersionChanges<K>,
    TransactionError,
>)
    requires
        keys.wf(),
    ensures
        r matches Ok(vc) ==> {
            &&& vc.wf()
            &&& vc.changes@.len() == keys.keys@.len()
            &&& forall|i: int|
                0 <= i < vc.changes@.len() ==> (#[trigger] vc.changes@[i]).0 == keys.keys@[i]
                    && tree_kvs(*t).contains_key(keys.keys@[i].encode_spec()) && serialize_spec(
                    vc.changes@[i].1,
                ) == tree_kvs(*t)[keys.keys@[i].encode_spec()]
        },
        r matches Err(e) ==> !(e is Abort),
        keys.keys@.len() == 0 ==> r is Ok,
        r matches Err(e) ==> e is Storage || exists|i: int|
            0 <= i < keys.keys@.len() && (!tree_kvs(*t).contains_key(
                (#[trigger] keys.keys@[i]).encode_spec(),
            ) || !crate::change_encoder::valid_change_bytes(
                tree_kvs(*t)[keys.keys@[i].encode_spec()],
            )),
{
    let mut out: Vec<(K, Change)> = Vec::new();
    let mut i: usize = 0;
    while i < keys.keys.len()
        invariant
            keys.wf(),
            i <= keys.keys@.len(),
            out@.len() == i,
            forall|j: int|
                0 <= j < i ==> (#[trigger] out@[j]).0 == keys.keys@[j] && tree_kvs(
                    *t,
                ).contains_key(keys.keys@[j].encode_spec()) && serialize_spec(out@[j].1)
                    == tree_kvs(*t)[keys.keys@[j].encode_spec()],
        decreases keys.keys@.len() - i,
    {
        let k = keys.keys[i];
        let kb = k.as_sled_key();
        let vb = match crate::engine::tree_get(t, &kb) {
            Ok(Some(v)) => v,
            Ok(None) => {
                proof {
                    assert(!tree_kvs(*t).contains_key(
                        (#[trigger] keys.keys@[i as int]).encode_spec(),
                    ));
                }
                return Err(TransactionError::Corruption);
            },
            Err(e) => {
                return Err(TransactionError::Storage(e));
            },
        };
        let c = match Change::deserialize(&vb) {
            Some(c) => c,
            None => {
                proof {
                    assert(tree_kvs(*t).contains_key(
                        (#[trigger] keys.keys@[i as int]).encode_spec(),
                    ) && !crate::change_encoder::valid_change_bytes(
                        tree_kvs(*t)[keys.keys@[i as int].encode_spec()],
                    ));
                }
                return Err(TransactionError::Corruption);
            },
        };
        out.push((k, c));
        i = i + 1;
    }
    Ok(VersionChanges { changes: out })
}

/// In the map with some other keys removed, a key none of them equals keeps
/// its binding.
proof fn lemma_remove_keys_other<K: DbKey>(m: Map<Seq<u8>, Seq<u8>>, ks: Seq<K>, k: K)
    requires
        forall|j: int| 0 <= j < ks.len() ==> (#[trigger] ks[j]).encode_spec() != k.encode_spec(),
    ensures
        remove_keys(m, ks).contains_key(k.encode_spec()) == m.contains_key(k.encode_spec()),
        m.contains_key(k.encode_spec()) ==> remove_keys(m, ks)[k.encode_spec()]
            == m[k.encode_spec()],
    decreases ks.len(),
{
    if ks.len() > 0 {
        lemma_remove_keys_other(m, ks.drop_last(), k);
    }
}

/// Removes every backup entry named by the cache without archiving anything;
/// used when committing a working version that has no parent.
pub fn clear_backup<K: DbKey>(txn: &mut sled::Tree, keys: &BackupKeyCache<K>) -> (r: Result<
    (),
    sled::Error,
>)
    requires
        keys.wf(),
    ensures
        r is Ok ==> tree_kvs(*final(txn)) == remove_keys(tree_kvs(*old(txn)), keys.keys@),
{
    let mut i: usize = 0;
    while i < keys.keys.len()
        invariant
            keys.wf(),
            i <= keys.keys@.len(),
            tree_kvs(*txn) == remove_keys(tree_kvs(*old(txn)), keys.keys@.subrange(0, i as int)),
        decreases keys.keys@.len() - i,
    {
        let ghost pre = keys.keys@.subrange(0, i as int);
        let kb = keys.keys[i].as_sled_key();
        match tree_remove(txn, &kb) {
            Ok(_) => {
            },
            Err(e) => {
                return Err(e);
            },
        }
        proof {
            let cs = keys.keys@.subrange(0, i + 1);
            assert(cs.drop_last() =~= pre);
            assert(cs.last() == keys.keys@[i as int]);
        }
        i = i + 1;
    }
    proof {
        assert(keys.keys@.subrange(0, keys.keys@.len() as int) =~= keys.keys@);
    }
    Ok(())
}

} // verus!
