//! The storage engine boundary. The store's trees live in sled; each tree is
//! modeled by the map of byte keys to byte values it holds, and every engine
//! call the verified code makes goes through one wrapper here that states what
//! sled's documentation and source promise of it.
//!
//! The model reads each tree handle as the sole live handle of its tree.
//! sled hands out clones of one underlying tree for one name, so two open
//! stores on the same map name would alias one store behind two models:
//! keep one live store handle per map name, as the single-writer design
//! already demands.

use vstd::prelude::*;
use crate::bytes::lex_lt;

verus! {

#[verifier::external_type_specification]
#[verifier::external_body]
pub struct ExTree(sled::Tree);

#[verifier::external_type_specification]
#[verifier::external_body]
pub struct ExDb(sled::Db);

#[verifier::external_type_specification]
#[verifier::external_body]
pub struct ExError(sled::Error);

/// The entries a tree holds.
pub uninterp spec fn tree_kvs(t: sled::Tree) -> Map<Seq<u8>, Seq<u8>>;

/// A queued mutation of one tree, as the model sees it: bind the key, or
/// drop it.
pub open spec fn apply_op(m: Map<Seq<u8>, Seq<u8>>, op: (Seq<u8>, Option<Seq<u8>>)) -> Map<
    Seq<u8>,
    Seq<u8>,
> {
    match op.1 {
        Some(v) => m.insert(op.0, v),
        None => m.remove(op.0),
    }
}

/// Queued mutations applied in order.
pub open spec fn apply_ops(m: Map<Seq<u8>, Seq<u8>>, ops: Seq<(Seq<u8>, Option<Seq<u8>>)>) -> Map<
    Seq<u8>,
    Seq<u8>,
>
    decreases ops.len(),
{
    if ops.len() == 0 {
        m
    } else {
        apply_op(apply_ops(m, ops.drop_last()), ops.last())
    }
}

/// One queued mutation as the model sees it.
pub open spec fn op_view(p: (Vec<u8>, Option<Vec<u8>>)) -> (Seq<u8>, Option<Seq<u8>>) {
    (
        p.0@,
        match p.1 {
            Some(v) => Some(v@),
            None => None,
        },
    )
}

/// A list of queued mutations as the model sees it.
pub open spec fn ops_view(s: Seq<(Vec<u8>, Option<Vec<u8>>)>) -> Seq<(Seq<u8>, Option<Seq<u8>>)> {
    s.map_values(|p: (Vec<u8>, Option<Vec<u8>>)| op_view(p))
}

/// The least id the database's id generator can still give out.
pub uninterp spec fn db_id_floor(db: sled::Db) -> nat;

/// Relies on sled::Db::open_tree: opens or creates the named tree within the
/// database. Nothing is known of the contents of a freshly opened handle; the
/// callers rescan what they need.
#[verifier::external_body]
pub fn open_tree(db: &sled::Db, map_name: &str, suffix: &str) -> (r: Result<
    sled::Tree,
    sled::Error,
>)
{
    db.open_tree(format!("{}{}", map_name, suffix))
}

/// Relies on sled::Db::clone: the clone is a handle to the same database, so
/// its id generator is in the same state.
#[verifier::external_body]
pub fn clone_db(db: &sled::Db) -> (r: sled::Db)
    ensures
        db_id_floor(r) == db_id_floor(*db),
{
    db.clone()
}

/// Relies on sled::Tree::get: returns the value the tree holds at the key, if
/// any.
#[verifier::external_body]
pub fn tree_get(t: &sled::Tree, key: &Vec<u8>) -> (r: Result<Option<Vec<u8>>, sled::Error>)
    ensures
        r matches Ok(o) ==> match o {
            Some(v) => tree_kvs(*t).contains_key(key@) && tree_kvs(*t)[key@] == v@,
            None => !tree_kvs(*t).contains_key(key@),
        },
{
    match t.get(key.as_slice()) {
        Ok(Some(iv)) => Ok(Some(iv.as_ref().to_vec())),
        Ok(None) => Ok(None),
        Err(e) => Err(e),
    }
}

/// Relies on sled::Tree::insert: maps the key to the value and returns the
/// value it replaced, if any.
#[verifier::external_body]
pub fn tree_insert(t: &mut sled::Tree, key: &Vec<u8>, value: &Vec<u8>) -> (r: Result<
    Option<Vec<u8>>,
    sled::Error,
>)
    ensures
        r matches Ok(prev) ==> {
            &&& tree_kvs(*final(t)) == tree_kvs(*old(t)).insert(key@, value@)
            &&& match prev {
                Some(v) => tree_kvs(*old(t)).contains_key(key@) && tree_kvs(*old(t))[key@] == v@,
                None => !tree_kvs(*old(t)).contains_key(key@),
            }
        },
{
    match t.insert(key.as_slice(), value.as_slice()) {
        Ok(Some(iv)) => Ok(Some(iv.as_ref().to_vec())),
        Ok(None) => Ok(None),
        Err(e) => Err(e),
    }
}

/// Relies on sled::Tree::remove: unmaps the key and returns the value it held,
/// if any.
#[verifier::external_body]
pub fn tree_remove(t: &mut sled::Tree, key: &Vec<u8>) -> (r: Result<
    Option<Vec<u8>>,
    sled::Error,
>)
    ensures
        r matches Ok(prev) ==> {
            &&& tree_kvs(*final(t)) == tree_kvs(*old(t)).remove(key@)
            &&& match prev {
                Some(v) => tree_kvs(*old(t)).contains_key(key@) && tree_kvs(*old(t))[key@] == v@,
                None => !tree_kvs(*old(t)).contains_key(key@),
            }
        },
{
    match t.remove(key.as_slice()) {
        Ok(Some(iv)) => Ok(Some(iv.as_ref().to_vec())),
        Ok(None) => Ok(None),
        Err(e) => Err(e),
    }
}

/// Relies on sled::Tree::iter: yields every entry of the tree, in ascending
/// lexicographic key order.
#[verifier::external_body]
pub fn tree_keys(t: &sled::Tree) -> (r: Result<Vec<Vec<u8>>, sled::Error>)
    ensures
        r matches Ok(ks) ==> {
            &&& forall|i: int|
                0 <= i < ks@.len() ==> tree_kvs(*t).contains_key((#[trigger] ks@[i])@)
            &&& forall|k: Seq<u8>|
                tree_kvs(*t).contains_key(k) ==> exists|i: int|
                    0 <= i < ks@.len() && (#[trigger] ks@[i])@ == k
            &&& forall|i: int, j: int|
                0 <= i < j < ks@.len() ==> lex_lt((#[trigger] ks@[i])@, (#[trigger] ks@[j])@)
        },
{
    t.iter().keys().map(|k| k.map(|iv| iv.as_ref().to_vec())).collect()
}

/// Relies on sled::Db::generate_id: the id is monotonic and never given out
/// twice, also across restarts of the same database. The counter never moves
/// backwards, also when the call fails.
#[verifier::external_body]
pub fn generate_id(db: &mut sled::Db) -> (r: Result<u64, sled::Error>)
    ensures
        r matches Ok(id) ==> id as nat >= db_id_floor(*old(db)) && db_id_floor(*final(db)) == id
            as nat + 1,
        db_id_floor(*final(db)) >= db_id_floor(*old(db)),
{
    db.generate_id()
}

/// Relies on sled::Transactional for trees of one database: the closure's
/// writes are staged and applied atomically at commit, under a log peg that
/// makes the batch all-or-nothing on recovery; a failed transaction applies
/// nothing. Applies each queued mutation of each tree, in order, in one
/// transaction over both trees.
#[verifier::external_body]
pub fn txn_apply_2(
    t1: &mut sled::Tree,
    ops1: &Vec<(Vec<u8>, Option<Vec<u8>>)>,
    t2: &mut sled::Tree,
    ops2: &Vec<(Vec<u8>, Option<Vec<u8>>)>,
) -> (r: Result<(), sled::Error>)
    ensures
        r is Ok ==> tree_kvs(*final(t1)) == apply_ops(tree_kvs(*old(t1)), ops_view(ops1@))
            && tree_kvs(*final(t2)) == apply_ops(tree_kvs(*old(t2)), ops_view(ops2@)),
        r is Err ==> tree_kvs(*final(t1)) == tree_kvs(*old(t1)) && tree_kvs(*final(t2)) == tree_kvs(
            *old(t2),
        ),
{
    let r = sled::Transactional::transaction(&[&*t1, &*t2][..], |v: &Vec<sled::transaction::TransactionalTree>| {
        for (x, ops) in v.iter().zip([ops1, ops2]) {
            for (k, o) in ops.iter() {
                match o {
                    Some(val) => { x.insert(k.as_slice(), val.as_slice())?; },
                    None => { x.remove(k.as_slice())?; },
                }
            }
        }
        Ok(())
    });
    r.map_err(|e| match e { sled::transaction::TransactionError::Storage(s) => s, sled::transaction::TransactionError::Abort(a) => a })
}

/// Relies on sled::Transactional, as `txn_apply_2`, over three trees.
#[verifier::external_body]
pub fn txn_apply_3(
    t1: &mut sled::Tree,
    ops1: &Vec<(Vec<u8>, Option<Vec<u8>>)>,
    t2: &mut sled::Tree,
    ops2: &Vec<(Vec<u8>, Option<Vec<u8>>)>,
    t3: &mut sled::Tree,
    ops3: &Vec<(Vec<u8>, Option<Vec<u8>>)>,
) -> (r: Result<(), sled::Error>)
    ensures
        r is Ok ==> tree_kvs(*final(t1)) == apply_ops(tree_kvs(*old(t1)), ops_view(ops1@))
            && tree_kvs(*final(t2)) == apply_ops(tree_kvs(*old(t2)), ops_view(ops2@)) && tree_kvs(
            *final(t3),
        ) == apply_ops(tree_kvs(*old(t3)), ops_view(ops3@)),
        r is Err ==> tree_kvs(*final(t1)) == tree_kvs(*old(t1)) && tree_kvs(*final(t2)) == tree_kvs(
            *old(t2),
        ) && tree_kvs(*final(t3)) == tree_kvs(*old(t3)),
{
    let r = sled::Transactional::transaction(&[&*t1, &*t2, &*t3][..], |v: &Vec<sled::transaction::TransactionalTree>| {
        for (x, ops) in v.iter().zip([ops1, ops2, ops3]) {
            for (k, o) in ops.iter() {
                match o {
                    Some(val) => { x.insert(k.as_slice(), val.as_slice())?; },
                    None => { x.remove(k.as_slice())?; },
                }
            }
        }
        Ok(())
    });
    r.map_err(|e| match e { sled::transaction::TransactionError::Storage(s) => s, sled::transaction::TransactionError::Abort(a) => a })
}

/// Relies on sled::Transactional, as `txn_apply_2`, over four trees.
#[verifier::external_body]
pub fn txn_apply_4(
    t1: &mut sled::Tree,
    ops1: &Vec<(Vec<u8>, Option<Vec<u8>>)>,
    t2: &mut sled::Tree,
    ops2: &Vec<(Vec<u8>, Option<Vec<u8>>)>,
    t3: &mut sled::Tree,
    ops3: &Vec<(Vec<u8>, Option<Vec<u8>>)>,
    t4: &mut sled::Tree,
    ops4: &Vec<(Vec<u8>, Option<Vec<u8>>)>,
) -> (r: Result<(), sled::Error>)
    ensures
        r is Ok ==> tree_kvs(*final(t1)) == apply_ops(tree_kvs(*old(t1)), ops_view(ops1@))
            && tree_kvs(*final(t2)) == apply_ops(tree_kvs(*old(t2)), ops_view(ops2@)) && tree_kvs(
            *final(t3),
        ) == apply_ops(tree_kvs(*old(t3)), ops_view(ops3@)) && tree_kvs(*final(t4)) == apply_ops(
            tree_kvs(*old(t4)),
            ops_view(ops4@),
        ),
        r is Err ==> tree_kvs(*final(t1)) == tree_kvs(*old(t1)) && tree_kvs(*final(t2)) == tree_kvs(
            *old(t2),
        ) && tree_kvs(*final(t3)) == tree_kvs(*old(t3)) && tree_kvs(*final(t4)) == tree_kvs(
            *old(t4),
        ),
{
    let r = sled::Transactional::transaction(&[&*t1, &*t2, &*t3, &*t4][..], |v: &Vec<sled::transaction::TransactionalTree>| {
        for (x, ops) in v.iter().zip([ops1, ops2, ops3, ops4]) {
            for (k, o) in ops.iter() {
                match o {
                    Some(val) => { x.insert(k.as_slice(), val.as_slice())?; },
                    None => { x.remove(k.as_slice())?; },
                }
            }
        }
        Ok(())
    });
    r.map_err(|e| match e { sled::transaction::TransactionError::Storage(s) => s, sled::transaction::TransactionError::Abort(a) => a })
}

} // verus!
