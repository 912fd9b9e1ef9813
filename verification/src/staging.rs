//! Staged tree mutations. A multi-tree operation first computes its writes as
//! plain data, reading each tree through a stage that already reflects the
//! queued mutations, and then hands every tree's queue to one engine
//! transaction, so a failure anywhere leaves every tree as it was.

use vstd::prelude::*;
use crate::engine::{apply_op, apply_ops, ops_view, tree_get, tree_kvs};
use crate::working_tree::{apply_encoded, binding};
use crate::change_encoder::is_insert_bytes;
use crate::backup_tree::{insert_all, remove_keys};
use crate::db_key::DbKey;

verus! {

/// What an optional byte value denotes.
pub open spec fn opt_bytes_view(o: Option<Vec<u8>>) -> Option<Seq<u8>> {
    match o {
        Some(v) => Some(v@),
        None => None,
    }
}

/// The mutations queued against one tree, in order. Reading through the stage
/// sees the tree as the queued mutations would leave it.
pub struct Staged {
    pub ops: Vec<(Vec<u8>, Option<Vec<u8>>)>,
}

impl Staged {
    /// The map the queued mutations leave when applied over `base`.
    pub open spec fn cur(self, base: Map<Seq<u8>, Seq<u8>>) -> Map<Seq<u8>, Seq<u8>> {
        apply_ops(base, ops_view(self.ops@))
    }

    pub fn new() -> (r: Self)
        ensures
            r.ops@.len() == 0,
            forall|base: Map<Seq<u8>, Seq<u8>>| #[trigger] r.cur(base) == base,
    {
        let r = Staged { ops: Vec::new() };
        proof {
            assert forall|base: Map<Seq<u8>, Seq<u8>>| #[trigger] r.cur(base) == base by {
                assert(ops_view(r.ops@) =~= Seq::<(Seq<u8>, Option<Seq<u8>>)>::empty());
            }
        }
        r
    }

    /// Queues one mutation: the staged state binds `k` to `v`, or drops it.
    pub fn set(&mut self, k: Vec<u8>, v: Option<Vec<u8>>)
        ensures
            forall|base: Map<Seq<u8>, Seq<u8>>| #[trigger]
                final(self).cur(base) == apply_op(old(self).cur(base), (k@, opt_bytes_view(v))),
    {
        let ghost pre = self.ops@;
        self.ops.push((k, v));
        proof {
            assert forall|base: Map<Seq<u8>, Seq<u8>>| #[trigger]
                final(self).cur(base) == apply_op(
                old(self).cur(base),
                (k@, opt_bytes_view(v)),
            ) by {
                assert(ops_view(self.ops@).drop_last() =~= ops_view(pre));
                assert(self.ops@[self.ops@.len() - 1] == (k, v));
                assert(ops_view(self.ops@).last() == (k@, opt_bytes_view(v)));
            }
        }
    }

    /// Reads the staged state at `k`: the last queued mutation of `k`, or the
    /// tree's current value.
    pub fn get(&self, t: &sled::Tree, k: &Vec<u8>) -> (r: Result<Option<Vec<u8>>, sled::Error>)
        ensures
            r matches Ok(o) ==> opt_bytes_view(o) == binding(self.cur(tree_kvs(*t)), k@),
    {
        let mut i: usize = self.ops.len();
        while i > 0
            invariant
                i <= self.ops@.len(),
                forall|j: int| i <= j < self.ops@.len() ==> (#[trigger] self.ops@[j]).0@ != k@,
            decreases i,
        {
            i = i - 1;
            if bytes_eq(&self.ops[i].0, k) {
                let r = match &self.ops[i].1 {
                    Some(v) => Some(copy_bytes(v)),
                    None => None,
                };
                proof {
                    assert forall|j: int|
                        i < j < ops_view(self.ops@).len() implies (#[trigger] ops_view(
                        self.ops@,
                    )[j]).0 != k@ by {
                        assert(ops_view(self.ops@)[j].0 == self.ops@[j].0@);
                    }
                    assert(ops_view(self.ops@)[i as int].0 == k@);
                    lemma_ops_binding_hit(tree_kvs(*t), ops_view(self.ops@), k@, i as int);
                    assert(opt_bytes_view(r) == ops_view(self.ops@)[i as int].1);
                }
                return Ok(r);
            }
        }
        let r = match tree_get(t, k) {
            Ok(o) => o,
            Err(e) => {
                return Err(e);
            },
        };
        proof {
            assert forall|j: int|
                0 <= j < ops_view(self.ops@).len() implies (#[trigger] ops_view(self.ops@)[j]).0
                != k@ by {
                assert(ops_view(self.ops@)[j].0 == self.ops@[j].0@);
            }
            lemma_ops_binding_miss(tree_kvs(*t), ops_view(self.ops@), k@);
        }
        Ok(r)
    }
}

/// With no queued mutation of `k`, the staged state binds `k` as the tree
/// does.
pub proof fn lemma_ops_binding_miss(
    base: Map<Seq<u8>, Seq<u8>>,
    ops: Seq<(Seq<u8>, Option<Seq<u8>>)>,
    k: Seq<u8>,
)
    requires
        forall|j: int| 0 <= j < ops.len() ==> (#[trigger] ops[j]).0 != k,
    ensures
        binding(apply_ops(base, ops), k) == binding(base, k),
    decreases ops.len(),
{
    if ops.len() > 0 {
        lemma_ops_binding_miss(base, ops.drop_last(), k);
        assert(ops[ops.len() - 1] == ops.last());
    }
}

/// The last queued mutation of `k` decides the staged binding of `k`.
pub proof fn lemma_ops_binding_hit(
    base: Map<Seq<u8>, Seq<u8>>,
    ops: Seq<(Seq<u8>, Option<Seq<u8>>)>,
    k: Seq<u8>,
    i: int,
)
    requires
        0 <= i < ops.len(),
        ops[i].0 == k,
        forall|j: int| i < j < ops.len() ==> (#[trigger] ops[j]).0 != k,
    ensures
        binding(apply_ops(base, ops), k) == ops[i].1,
    decreases ops.len(),
{
    if i == ops.len() - 1 {
        assert(ops[i] == ops.last());
    } else {
        assert(ops.drop_last()[i] == ops[i]);
        assert forall|j: int| i < j < ops.drop_last().len() implies (#[trigger] ops.drop_last()[j]).0
            != k by {
            assert(ops.drop_last()[j] == ops[j]);
        }
        lemma_ops_binding_hit(base, ops.drop_last(), k, i);
        assert(ops[ops.len() - 1] == ops.last());
    }
}

/// Whether two byte vectors hold the same bytes.
pub fn bytes_eq(a: &Vec<u8>, b: &Vec<u8>) -> (r: bool)
    ensures
        r == (a@ == b@),
{
    if a.len() != b.len() {
        proof {
            assert(a@.len() != b@.len());
        }
        return false;
    }
    let mut i: usize = 0;
    while i < a.len()
        invariant
            a@.len() == b@.len(),
            i <= a@.len(),
            forall|j: int| 0 <= j < i ==> a@[j] == b@[j],
        decreases a@.len() - i,
    {
        if a[i] != b[i] {
            proof {
                assert(a@[i as int] != b@[i as int]);
            }
            return false;
        }
        i = i + 1;
    }
    proof {
        assert(a@ =~= b@);
    }
    true
}

/// Copies a byte vector.
pub fn copy_bytes(b: &Vec<u8>) -> (r: Vec<u8>)
    ensures
        r@ == b@,
{
    let mut out: Vec<u8> = Vec::new();
    crate::bytes::push_bytes(&mut out, b);
    out
}

/// An encoded batch as queued mutations: an insert binds the key, anything
/// else drops it.
pub open spec fn enc_ops(cs: Seq<(Seq<u8>, Seq<u8>)>) -> Seq<(Seq<u8>, Option<Seq<u8>>)> {
    cs.map_values(
        |c: (Seq<u8>, Seq<u8>)|
            (
                c.0,
                if is_insert_bytes(c.1) {
                    Some(c.1)
                } else {
                    None::<Seq<u8>>
                },
            ),
    )
}

/// Queuing an encoded batch does what applying the batch does.
pub proof fn lemma_enc_ops_apply(m: Map<Seq<u8>, Seq<u8>>, cs: Seq<(Seq<u8>, Seq<u8>)>)
    ensures
        apply_ops(m, enc_ops(cs)) == apply_encoded(m, cs),
    decreases cs.len(),
{
    if cs.len() > 0 {
        lemma_enc_ops_apply(m, cs.drop_last());
        assert(enc_ops(cs).drop_last() =~= enc_ops(cs.drop_last()));
        assert(cs[cs.len() - 1] == cs.last());
        assert(enc_ops(cs).last() == (
            cs.last().0,
            if is_insert_bytes(cs.last().1) {
                Some(cs.last().1)
            } else {
                None::<Seq<u8>>
            },
        ));
    }
}

/// Entries written verbatim, as queued mutations.
pub open spec fn ins_ops(cs: Seq<(Seq<u8>, Seq<u8>)>) -> Seq<(Seq<u8>, Option<Seq<u8>>)> {
    cs.map_values(|c: (Seq<u8>, Seq<u8>)| (c.0, Some(c.1)))
}

/// Queuing entries verbatim does what writing them does.
pub proof fn lemma_ins_ops_apply(m: Map<Seq<u8>, Seq<u8>>, cs: Seq<(Seq<u8>, Seq<u8>)>)
    ensures
        apply_ops(m, ins_ops(cs)) == insert_all(m, cs),
    decreases cs.len(),
{
    if cs.len() > 0 {
        lemma_ins_ops_apply(m, cs.drop_last());
        assert(ins_ops(cs).drop_last() =~= ins_ops(cs.drop_last()));
        assert(cs[cs.len() - 1] == cs.last());
        assert(ins_ops(cs).last() == (cs.last().0, Some(cs.last().1)));
    }
}

/// Key removals as queued mutations.
pub open spec fn rm_ops<K: DbKey>(ks: Seq<K>) -> Seq<(Seq<u8>, Option<Seq<u8>>)> {
    ks.map_values(|k: K| (k.encode_spec(), None::<Seq<u8>>))
}

/// Queuing the removals does what removing the keys does.
pub proof fn lemma_rm_ops_apply<K: DbKey>(m: Map<Seq<u8>, Seq<u8>>, ks: Seq<K>)
    ensures
        apply_ops(m, rm_ops::<K>(ks)) == remove_keys(m, ks),
    decreases ks.len(),
{
    if ks.len() > 0 {
        lemma_rm_ops_apply::<K>(m, ks.drop_last());
        assert(rm_ops::<K>(ks).drop_last() =~= rm_ops::<K>(ks.drop_last()));
        assert(ks[ks.len() - 1] == ks.last());
        assert(rm_ops::<K>(ks).last() == (ks.last().encode_spec(), None::<Seq<u8>>));
    }
}

/// One queued binding applied alone.
pub proof fn lemma_single_insert_apply(
    m: Map<Seq<u8>, Seq<u8>>,
    ops: Seq<(Seq<u8>, Option<Seq<u8>>)>,
    k: Seq<u8>,
    v: Seq<u8>,
)
    requires
        ops.len() == 1,
        ops[0] == (k, Some(v)),
    ensures
        apply_ops(m, ops) == m.insert(k, v),
{
    assert(ops.drop_last() =~= Seq::<(Seq<u8>, Option<Seq<u8>>)>::empty());
    assert(ops.last() == (k, Some(v)));
    assert(apply_ops(m, ops.drop_last()) == m);
    assert(apply_ops(m, ops) == apply_op(m, ops.last()));
    assert(apply_op(m, (k, Some(v))) == m.insert(k, v));
}

} // verus!
