//! The working tree: the authoritative byte-blob store of the current working
//! version. Applying a batch captures, for each key not yet backed up, the
//! reverse change that restores the prior state.

use vstd::prelude::*;
use crate::backup_tree::BackupKeyCache;
use crate::bytes::{lex_lt, push_bytes};
use crate::change_encoder::{
    ec_view, encoded_changes_wf, is_insert_bytes, remove_bytes, Change, EncodedChanges,
};
use crate::db_key::DbKey;
use crate::engine::{open_tree, tree_insert, tree_remove, tree_kvs};

verus! {

/// The keys of a batch are of the codec's width and strictly ascending; the
/// values may be anything.
pub open spec fn encoded_keys_wf<K: DbKey>(cs: Seq<(Seq<u8>, Seq<u8>)>) -> bool {
    &&& forall|i: int| 0 <= i < cs.len() ==> (#[trigger] cs[i]).0.len() == 1 + K::width()
    &&& forall|i: int, j: int|
        0 <= i < j < cs.len() ==> lex_lt((#[trigger] cs[i]).0, (#[trigger] cs[j]).0)
}

/// One mutation of the tree map: an insert binds the key, anything else
/// removes it.
pub open spec fn apply_step(m: Map<Seq<u8>, Seq<u8>>, c: (Seq<u8>, Seq<u8>)) -> Map<
    Seq<u8>,
    Seq<u8>,
> {
    if is_insert_bytes(c.1) {
        m.insert(c.0, c.1)
    } else {
        m.remove(c.0)
    }
}

/// The tree map after applying a batch in order.
pub open spec fn apply_encoded(m: Map<Seq<u8>, Seq<u8>>, cs: Seq<(Seq<u8>, Seq<u8>)>) -> Map<
    Seq<u8>,
    Seq<u8>,
>
    decreases cs.len(),
{
    if cs.len() == 0 {
        m
    } else {
        apply_step(apply_encoded(m, cs.drop_last()), cs.last())
    }
}

/// The reverse changes a batch leaves behind: for each key whose decoded form
/// the cache does not hold, the prior value, or the removal encoding when the
/// key was absent. Keys the cache holds contribute nothing, so the backup
/// keeps each key's oldest pre-working value.
pub open spec fn reverse_of<K: DbKey>(
    m0: Map<Seq<u8>, Seq<u8>>,
    cks: Seq<K>,
    cs: Seq<(Seq<u8>, Seq<u8>)>,
) -> Seq<(Seq<u8>, Seq<u8>)>
    decreases cs.len(),
{
    if cs.len() == 0 {
        Seq::empty()
    } else {
        let pre = reverse_of(m0, cks, cs.drop_last());
        let c = cs.last();
        let mcur = apply_encoded(m0, cs.drop_last());
        if crate::backup_tree::seq_has_key(cks, K::decode_spec(c.0)) {
            pre
        } else {
            pre.push(
                (
                    c.0,
                    if mcur.contains_key(c.0) {
                        mcur[c.0]
                    } else {
                        remove_bytes()
                    },
                ),
            )
        }
    }
}

pub fn open_working_tree(map_name: &str, db: &sled::Db) -> (r: Result<sled::Tree, sled::Error>) {
    open_tree(db, map_name, "-working")
}

/// Applies a batch to the working tree and returns the reverse changes that
/// undo it, skipping keys the backup cache already holds.
pub fn write_changes_to_working_tree<K: DbKey>(
    txn: &mut sled::Tree,
    backup_key_cache: &BackupKeyCache<K>,
    changes: &EncodedChanges,
) -> (r: Result<EncodedChanges, sled::Error>)
    requires
        encoded_changes_wf::<K>(ec_view(changes.changes@)),
        backup_key_cache.wf(),
    ensures
        r matches Ok(rev) ==> {
            &&& tree_kvs(*final(txn)) == apply_encoded(
                tree_kvs(*old(txn)),
                ec_view(changes.changes@),
            )
            &&& ec_view(rev.changes@) == reverse_of::<K>(
                tree_kvs(*old(txn)),
                backup_key_cache.keys@,
                ec_view(changes.changes@),
            )
            &&& encoded_keys_wf::<K>(ec_view(rev.changes@))
            &&& forall|a: int|
                0 <= a < rev.changes@.len() ==> !backup_key_cache.has_key(
                    K::decode_spec((#[trigger] rev.changes@[a]).0@),
                )
        },
        changes.changes@.len() == 0 ==> r is Ok,
{
    let ghost m0 = tree_kvs(*txn);
    let ghost ec = ec_view(changes.changes@);
    let ghost cks = backup_key_cache.keys@;
    let remove_buf = Change::serialize_remove();
    let mut rev: Vec<(Vec<u8>, Vec<u8>)> = Vec::new();
    let mut i: usize = 0;
    while i < changes.changes.len()
        invariant
            encoded_changes_wf::<K>(ec),
            backup_key_cache.wf(),
            ec == ec_view(changes.changes@),
            cks == backup_key_cache.keys@,
            remove_buf@ == remove_bytes(),
            i <= changes.changes@.len(),
            tree_kvs(*txn) == apply_encoded(m0, ec.subrange(0, i as int)),
            ec_view(rev@) == reverse_of::<K>(m0, cks, ec.subrange(0, i as int)),
            forall|a: int|
                0 <= a < rev@.len() ==> exists|j: int|
                    0 <= j < i && (#[trigger] rev@[a]).0@ == ec[j].0,
            forall|a: int|
                0 <= a < rev@.len() ==> !crate::backup_tree::seq_has_key(
                    cks,
                    K::decode_spec((#[trigger] rev@[a]).0@),
                ),
        decreases changes.changes@.len() - i,
    {
        let ghost pre_cs = ec.subrange(0, i as int);
        let ghost pre_rev = ec_view(rev@);
        let kb = &changes.changes[i].0;
        let vb = &changes.changes[i].1;
        proof {
            assert(ec[i as int] == (kb@, vb@));
        }
        let k = K::from_sled_key(kb);
        let is_insert = vb.len() >= 1 && vb[0] == 1;
        let prev = if is_insert {
            match tree_insert(txn, kb, vb) {
                Ok(p) => p,
                Err(e) => {
                    return Err(e);
                },
            }
        } else {
            match tree_remove(txn, kb) {
                Ok(p) => p,
                Err(e) => {
                    return Err(e);
                },
            }
        };
        proof {
            let cs2 = ec.subrange(0, i + 1);
            assert(cs2.drop_last() =~= pre_cs);
            assert(cs2.last() == ec[i as int]);
            assert(is_insert == is_insert_bytes(vb@));
        }
        if !backup_key_cache.contains(&k) {
            let kb2 = copy_bytes(kb);
            match prev {
                Some(old_v) => {
                    rev.push((kb2, old_v));
                },
                None => {
                    let rb = copy_bytes(&remove_buf);
                    rev.push((kb2, rb));
                },
            }
            proof {
                assert(ec_view(rev@).drop_last() =~= pre_rev);
                assert(ec_view(rev@) == reverse_of::<K>(m0, cks, ec.subrange(0, i + 1)));
                assert forall|a: int| 0 <= a < rev@.len() implies exists|j: int|
                    0 <= j < i + 1 && (#[trigger] rev@[a]).0@ == ec[j].0 by {
                    if a < rev@.len() - 1 {
                        let j0 = choose|j0: int| 0 <= j0 < i && pre_rev[a].0 == ec[j0].0;
                        assert(rev@[a].0@ == ec[j0].0);
                    } else {
                        assert(rev@[a].0@ == ec[i as int].0);
                    }
                }
            }
        }
        i = i + 1;
    }
    proof {
        assert(ec.subrange(0, ec.len() as int) =~= ec);
        assert forall|a: int, b: int| 0 <= a < b < rev@.len() implies lex_lt(
            (#[trigger] ec_view(rev@)[a]).0,
            (#[trigger] ec_view(rev@)[b]).0,
        ) by {
            lemma_reverse_order(m0, cks, ec, rev@, a, b);
        }
        assert forall|a: int| 0 <= a < rev@.len() implies (#[trigger] ec_view(rev@)[a]).0.len()
            == 1 + K::width() by {
            let j = choose|j: int| 0 <= j < ec.len() && (#[trigger] rev@[a]).0@ == ec[j].0;
            assert(ec[j].0.len() == 1 + K::width());
        }
    }
    Ok(EncodedChanges { changes: rev })
}

/// How a map binds a key: to a value, or not at all.
pub open spec fn binding(m: Map<Seq<u8>, Seq<u8>>, b: Seq<u8>) -> Option<Seq<u8>> {
    if m.contains_key(b) {
        Some(m[b])
    } else {
        None
    }
}

/// A batch leaves keys it does not name alone.
pub proof fn lemma_apply_untouched(m: Map<Seq<u8>, Seq<u8>>, cs: Seq<(Seq<u8>, Seq<u8>)>, b: Seq<
    u8,
>)
    requires
        forall|j: int| 0 <= j < cs.len() ==> (#[trigger] cs[j]).0 != b,
    ensures
        binding(apply_encoded(m, cs), b) == binding(m, b),
    decreases cs.len(),
{
    if cs.len() > 0 {
        lemma_apply_untouched(m, cs.drop_last(), b);
        assert(cs[cs.len() - 1] == cs.last());
    }
}

/// Applying a batch's reverse changes, taken against an empty backup cache,
/// over the batch's outcome reconstructs the starting state: every key the
/// batch named gets its old binding back, every other key is untouched. The
/// batch's keys must be distinct and the starting state must bind its keys to
/// insert-encoded values, as the working tree does.
pub proof fn lemma_reverse_restores<K: DbKey>(
    m: Map<Seq<u8>, Seq<u8>>,
    cs: Seq<(Seq<u8>, Seq<u8>)>,
    b: Seq<u8>,
)
    requires
        forall|i: int, j: int| 0 <= i < j < cs.len() ==> (#[trigger] cs[i]).0 != (#[trigger] cs[j]).0,
        forall|b2: Seq<u8>| m.contains_key(b2) ==> is_insert_bytes(#[trigger] m[b2]),
    ensures
        binding(
            apply_encoded(apply_encoded(m, cs), reverse_of::<K>(m, Seq::empty(), cs)),
            b,
        ) == binding(m, b),
    decreases cs.len(),
{
    let cks = Seq::<K>::empty();
    if cs.len() == 0 {
    } else {
        let drop = cs.drop_last();
        let pre = reverse_of::<K>(m, cks, drop);
        let rev = reverse_of::<K>(m, cks, cs);
        assert(!crate::backup_tree::seq_has_key(cks, K::decode_spec(cs.last().0)));
        let mcur = apply_encoded(m, drop);
        let x = (
            cs.last().0,
            if mcur.contains_key(cs.last().0) {
                mcur[cs.last().0]
            } else {
                remove_bytes()
            },
        );
        assert(rev == pre.push(x));
        assert(rev.drop_last() =~= pre);
        assert(rev.last() == x);
        let w2 = apply_encoded(m, cs);
        // the batch's last key was untouched before the batch's last step,
        // so the last reverse change carries the starting binding
        assert forall|j: int| 0 <= j < drop.len() implies (#[trigger] drop[j]).0
            != cs.last().0 by {
            assert(drop[j] == cs[j]);
            assert(cs[j].0 != cs[cs.len() - 1].0);
        }
        lemma_apply_untouched(m, drop, cs.last().0);
        assert(apply_encoded(w2, rev) == apply_step(apply_encoded(w2, pre), x));
        if b == cs.last().0 {
            // the final reverse step writes the starting binding back
            if m.contains_key(b) {
                assert(x.1 == m[b]);
                assert(is_insert_bytes(x.1));
            } else {
                assert(x.1 == remove_bytes());
                assert(!is_insert_bytes(x.1));
            }
        } else {
            lemma_reverse_restores::<K>(m, drop, b);
            // the earlier reverse steps behave over the two outcomes alike:
            // both agree on every key the shorter batch names or reverses
            lemma_apply_agrees(apply_encoded(m, drop), w2, pre, b, cs.last().0);
            assert(w2 == apply_step(apply_encoded(m, drop), cs.last()));
        }
    }
}

/// Two states that agree outside one key still agree outside it after the
/// same batch, provided the batch avoids that key.
proof fn lemma_apply_agrees(
    m1: Map<Seq<u8>, Seq<u8>>,
    m2: Map<Seq<u8>, Seq<u8>>,
    cs: Seq<(Seq<u8>, Seq<u8>)>,
    b: Seq<u8>,
    d: Seq<u8>,
)
    requires
        forall|b2: Seq<u8>| b2 != d ==> binding(m1, b2) == binding(m2, b2),
        b != d,
    ensures
        binding(apply_encoded(m1, cs), b) == binding(apply_encoded(m2, cs), b),
    decreases cs.len(),
{
    if cs.len() > 0 {
        lemma_apply_agrees(m1, m2, cs.drop_last(), b, d);
    }
}

/// Copies a byte vector.
fn copy_bytes(b: &Vec<u8>) -> (r: Vec<u8>)
    ensures
        r@ == b@,
{
    let mut out: Vec<u8> = Vec::new();
    push_bytes(&mut out, b);
    out
}

/// The reverse changes of a strictly ascending batch are strictly ascending:
/// each one keeps its batch key, and the batch keeps its order.
pub proof fn lemma_reverse_order<K: DbKey>(
    m0: Map<Seq<u8>, Seq<u8>>,
    cks: Seq<K>,
    cs: Seq<(Seq<u8>, Seq<u8>)>,
    rev: Seq<(Vec<u8>, Vec<u8>)>,
    a: int,
    b: int,
)
    requires
        ec_view(rev) == reverse_of::<K>(m0, cks, cs),
        forall|i: int, j: int|
            0 <= i < j < cs.len() ==> lex_lt((#[trigger] cs[i]).0, (#[trigger] cs[j]).0),
        0 <= a < b < rev.len(),
    ensures
        lex_lt(ec_view(rev)[a].0, ec_view(rev)[b].0),
    decreases cs.len(),
{
    if cs.len() > 0 {
        let pre = reverse_of::<K>(m0, cks, cs.drop_last());
        assert(ec_view(rev).len() == rev.len());
        assert(pre.len() <= rev.len());
        let prev_rev = rev.subrange(0, pre.len() as int);
        assert(ec_view(prev_rev) =~= pre) by {
            if crate::backup_tree::seq_has_key(cks, K::decode_spec(cs.last().0)) {
                assert(ec_view(rev) == pre);
            } else {
                assert(ec_view(rev).drop_last() == pre);
            }
            assert forall|w: int| 0 <= w < pre.len() implies ec_view(prev_rev)[w] == pre[w] by {
                assert(prev_rev[w] == rev[w]);
                assert(ec_view(rev)[w] == pre[w]);
            }
        }
        if b < pre.len() {
            lemma_reverse_order(m0, cks, cs.drop_last(), prev_rev, a, b);
            assert(ec_view(prev_rev)[a] == ec_view(rev)[a]);
            assert(ec_view(prev_rev)[b] == ec_view(rev)[b]);
            assert(lex_lt(ec_view(rev)[a].0, ec_view(rev)[b].0));
        } else {
            // b names the last reverse change, whose key is the batch's last
            assert(!crate::backup_tree::seq_has_key(cks, K::decode_spec(cs.last().0)));
            assert(ec_view(rev)[b] == pre.push(
                (
                    cs.last().0,
                    if apply_encoded(m0, cs.drop_last()).contains_key(cs.last().0) {
                        apply_encoded(m0, cs.drop_last())[cs.last().0]
                    } else {
                        remove_bytes()
                    },
                ),
            )[b]);
            assert(ec_view(rev)[b].0 == cs.last().0);
            assert(rev.len() == pre.len() + 1);
            assert(a < pre.len());
            lemma_reverse_key_source(m0, cks, cs.drop_last(), a);
            let j2 = choose|j2: int|
                0 <= j2 < cs.drop_last().len() && pre[a].0 == (#[trigger] cs.drop_last()[j2]).0;
            assert(cs[j2] == cs.drop_last()[j2]);
            assert(cs.last() == cs[cs.len() - 1]);
            assert(lex_lt(cs[j2].0, cs[cs.len() - 1].0));
            assert(ec_view(rev)[a] == pre[a]);
            assert(ec_view(rev)[a].0 == cs[j2].0);
            assert(lex_lt(ec_view(rev)[a].0, ec_view(rev)[b].0));
        }
    } else {
        assert(ec_view(rev).len() == rev.len());
        assert(false);
    }
}

/// Every reverse change's key is some batch key.
pub proof fn lemma_reverse_key_source<K: DbKey>(
    m0: Map<Seq<u8>, Seq<u8>>,
    cks: Seq<K>,
    cs: Seq<(Seq<u8>, Seq<u8>)>,
    a: int,
)
    requires
        0 <= a < reverse_of::<K>(m0, cks, cs).len(),
    ensures
        exists|j: int|
            0 <= j < cs.len() && reverse_of::<K>(m0, cks, cs)[a].0 == (#[trigger] cs[j]).0,
    decreases cs.len(),
{
    if cs.len() > 0 {
        let pre = reverse_of::<K>(m0, cks, cs.drop_last());
        if a < pre.len() {
            lemma_reverse_key_source(m0, cks, cs.drop_last(), a);
            let j = choose|j: int|
                0 <= j < cs.drop_last().len() && pre[a].0 == (#[trigger] cs.drop_last()[j]).0;
            assert(reverse_of::<K>(m0, cks, cs)[a] == pre[a]);
            assert(cs[j] == cs.drop_last()[j]);
        } else {
            assert(reverse_of::<K>(m0, cks, cs)[a].0 == cs.last().0);
            assert(cs[cs.len() - 1] == cs.last());
        }
    }
}

} // verus!
