//! Archived version changes: the delta from a version's parent to the
//! version, stored as one serialized blob per version.

use vstd::prelude::*;
use crate::bytes::{
    be_bytes, from_be, lemma_be_bytes_from_be, lemma_be_bytes_len, lemma_from_be_be_bytes,
    lemma_from_be_bound, lemma_pow256_widths, pow256, push_bytes, u128_to_be_bytes,
    be_bytes_to_u128,
};
use crate::change_encoder::{
    ec_view, encoded_changes_wf, serialize_spec, valid_change_bytes, Change, EncodedChanges,
};
use crate::db::TransactionError;
use crate::db_key::{key_lt_spec, DbKey};
use crate::engine::{open_tree, tree_insert, tree_remove, tree_kvs};
use crate::version_graph_tree::ver_key;
use crate::Version;

verus! {

/// The full set of changes made between a version's parent and the version,
/// in ascending key order.
pub struct VersionChanges<K: DbKey> {
    pub changes: Vec<(K, Change)>,
}

/// Entries as keys with serialized change bytes.
pub open spec fn vc_view<K: DbKey>(s: Seq<(K, Change)>) -> Seq<(K, Seq<u8>)> {
    s.map_values(|p: (K, Change)| (p.0, serialize_spec(p.1)))
}

/// One record of a serialized delta: the encoded key, the change's length,
/// the change's bytes.
pub open spec fn vc_record_bytes<K: DbKey>(k: K, cb: Seq<u8>) -> Seq<u8> {
    k.encode_spec() + be_bytes(cb.len(), 8) + cb
}

/// A serialized delta: its records in order.
pub open spec fn vc_bytes<K: DbKey>(entries: Seq<(K, Seq<u8>)>) -> Seq<u8>
    decreases entries.len(),
{
    if entries.len() == 0 {
        Seq::empty()
    } else {
        vc_record_bytes(entries[0].0, entries[0].1) + vc_bytes(entries.drop_first())
    }
}

/// The unique record decomposition of a delta blob: each record is
/// self-delimiting, so a blob decomposes in at most one way.
pub open spec fn vc_parse<K: DbKey>(b: Seq<u8>) -> Option<Seq<(K, Seq<u8>)>>
    decreases b.len(),
{
    let kw = 1 + K::width() as int;
    if b.len() == 0 {
        Some(Seq::empty())
    } else if b.len() < kw + 8 {
        None
    } else {
        let k = K::decode_spec(b.subrange(0, kw));
        let clen = from_be(b.subrange(kw, kw + 8)) as int;
        if b.len() < kw + 8 + clen {
            None
        } else {
            let cb = b.subrange(kw + 8, kw + 8 + clen);
            if !valid_change_bytes(cb) {
                None
            } else {
                match vc_parse::<K>(b.subrange(kw + 8 + clen, b.len() as int)) {
                    None => None,
                    Some(rest) => Some(seq![(k, cb)] + rest),
                }
            }
        }
    }
}

/// Whether entries are strictly ascending by key.
pub open spec fn sorted_vc_entries<K: DbKey>(es: Seq<(K, Seq<u8>)>) -> bool {
    forall|i: int, j: int|
        0 <= i < j < es.len() ==> key_lt_spec((#[trigger] es[i]).0, (#[trigger] es[j]).0)
}

/// Parsing a serialized delta returns exactly its entries.
pub proof fn lemma_vc_parse_round_trip<K: DbKey>(es: Seq<(K, Seq<u8>)>)
    requires
        forall|i: int| 0 <= i < es.len() ==> (#[trigger] es[i]).0.wf(),
        forall|i: int| 0 <= i < es.len() ==> valid_change_bytes((#[trigger] es[i]).1),
        forall|i: int| 0 <= i < es.len() ==> (#[trigger] es[i]).1.len() < pow256(8),
    ensures
        vc_parse::<K>(vc_bytes(es)) == Some(es),
    decreases es.len(),
{
    let kw = 1 + K::width() as int;
    if es.len() == 0 {
        assert(vc_bytes(es) =~= Seq::<u8>::empty());
        assert(vc_parse::<K>(vc_bytes(es)) == Some(Seq::<(K, Seq<u8>)>::empty()));
        assert(Seq::<(K, Seq<u8>)>::empty() =~= es);
    } else {
        let b = vc_bytes(es);
        let first = es[0];
        let rest = es.drop_first();
        assert(b == vc_record_bytes(first.0, first.1) + vc_bytes(rest));
        first.0.lemma_round_trip();
        lemma_be_bytes_len(first.1.len(), 8);
        let clen = first.1.len() as int;
        assert(b.len() == kw + 8 + clen + vc_bytes(rest).len());
        assert(b.subrange(0, kw) =~= first.0.encode_spec());
        assert(K::decode_spec(b.subrange(0, kw)) == first.0);
        assert(b.subrange(kw, kw + 8) =~= be_bytes(first.1.len(), 8));
        lemma_from_be_be_bytes(first.1.len(), 8);
        assert(from_be(b.subrange(kw, kw + 8)) == first.1.len());
        assert(b.subrange(kw + 8, kw + 8 + clen) =~= first.1);
        assert(valid_change_bytes(b.subrange(kw + 8, kw + 8 + clen)));
        assert(b.subrange(kw + 8 + clen, b.len() as int) =~= vc_bytes(rest));
        assert forall|i: int| 0 <= i < rest.len() implies (#[trigger] rest[i]).0.wf()
            && valid_change_bytes(rest[i].1) && rest[i].1.len() < pow256(8) by {
            assert(rest[i] == es[i + 1]);
        }
        lemma_vc_parse_round_trip::<K>(rest);
        assert(vc_parse::<K>(b) == Some(seq![(first.0, first.1)] + rest));
        assert(seq![(first.0, first.1)] + rest =~= es);
    }
}

/// Serialization appends record by record.
pub proof fn lemma_vc_bytes_push<K: DbKey>(entries: Seq<(K, Seq<u8>)>, x: (K, Seq<u8>))
    ensures
        vc_bytes(entries.push(x)) == vc_bytes(entries) + vc_record_bytes(x.0, x.1),
    decreases entries.len(),
{
    if entries.len() == 0 {
        reveal_with_fuel(vc_bytes, 3);
        assert(entries.push(x)[0] == x);
        assert(entries.push(x).drop_first() =~= Seq::<(K, Seq<u8>)>::empty());
        assert(vc_bytes(entries.push(x).drop_first()) == Seq::<u8>::empty());
        assert(vc_bytes(entries.push(x)) =~= vc_bytes(entries) + vc_record_bytes(x.0, x.1));
    } else {
        assert(entries.push(x)[0] == entries[0]);
        assert(entries.push(x).drop_first() =~= entries.drop_first().push(x));
        lemma_vc_bytes_push(entries.drop_first(), x);
        assert(vc_bytes(entries.push(x)) =~= vc_bytes(entries) + vc_record_bytes(x.0, x.1));
    }
}

impl<K: DbKey> VersionChanges<K> {
    /// Keys are well formed and strictly ascending.
    pub open spec fn wf(self) -> bool {
        &&& forall|i: int| 0 <= i < self.changes@.len() ==> (#[trigger] self.changes@[i]).0.wf()
        &&& forall|i: int, j: int|
            0 <= i < j < self.changes@.len() ==> key_lt_spec(
                (#[trigger] self.changes@[i]).0,
                (#[trigger] self.changes@[j]).0,
            )
    }

    pub fn new(changes: Vec<(K, Change)>) -> (r: Self)
        ensures
            r.changes == changes,
    {
        Self { changes }
    }

    /// Decodes a batch back to keyed changes. The batch's order is the key
    /// order, so the result is ascending.
    pub fn from_encoded(changes: &EncodedChanges) -> (r: Self)
        requires
            encoded_changes_wf::<K>(ec_view(changes.changes@)),
        ensures
            r.wf(),
            vc_view(r.changes@).len() == changes.changes@.len(),
            forall|i: int|
                0 <= i < changes.changes@.len() ==> (#[trigger] vc_view(r.changes@)[i]).0.encode_spec()
                    == changes.changes@[i].0@ && vc_view(r.changes@)[i].1 == changes.changes@[i].1@,
    {
        let mut out: Vec<(K, Change)> = Vec::new();
        let mut i: usize = 0;
        while i < changes.changes.len()
            invariant
                encoded_changes_wf::<K>(ec_view(changes.changes@)),
                i <= changes.changes@.len(),
                out@.len() == i,
                forall|j: int|
                    0 <= j < i ==> (#[trigger] out@[j]).0.wf() && out@[j].0.encode_spec()
                        == changes.changes@[j].0@ && serialize_spec(out@[j].1)
                        == changes.changes@[j].1@,
            decreases changes.changes@.len() - i,
        {
            let kb = &changes.changes[i].0;
            let vb = &changes.changes[i].1;
            proof {
                assert(ec_view(changes.changes@)[i as int].0 == kb@);
                assert(ec_view(changes.changes@)[i as int].1 == vb@);
            }
            let k = K::from_sled_key(kb);
            proof {
                K::lemma_decode_encode(kb@);
            }
            let c = match Change::deserialize(vb) {
                Some(c) => c,
                None => unreached(),
            };
            out.push((k, c));
            i = i + 1;
        }
        let r = Self { changes: out };
        proof {
            assert forall|a: int, b: int| 0 <= a < b < r.changes@.len() implies key_lt_spec(
                (#[trigger] r.changes@[a]).0,
                (#[trigger] r.changes@[b]).0,
            ) by {
                let ka = r.changes@[a].0;
                let kb2 = r.changes@[b].0;
                assert(crate::bytes::lex_lt(
                    ec_view(changes.changes@)[a].0,
                    ec_view(changes.changes@)[b].0,
                ));
                ka.lemma_encode_order(kb2);
            }
            assert(vc_view(r.changes@).len() == changes.changes@.len());
            assert forall|i2: int| 0 <= i2 < changes.changes@.len() implies (#[trigger] vc_view(
                r.changes@,
            )[i2]).0.encode_spec() == changes.changes@[i2].0@ && vc_view(r.changes@)[i2].1
                == changes.changes@[i2].1@ by {
                assert(vc_view(r.changes@)[i2] == (r.changes@[i2].0, serialize_spec(
                    r.changes@[i2].1,
                )));
            }
        }
        r
    }

    /// Encodes the delta as a batch: keys to their byte form, changes to
    /// their serialized form. Key order carries over to encoded-key order.
    pub fn to_encoded(&self) -> (r: EncodedChanges)
        requires
            self.wf(),
        ensures
            encoded_changes_wf::<K>(ec_view(r.changes@)),
            r.changes@.len() == self.changes@.len(),
            forall|i: int|
                0 <= i < self.changes@.len() ==> (#[trigger] r.changes@[i]).0@ == self.changes@[
                    i
                ].0.encode_spec() && r.changes@[i].1@ == serialize_spec(self.changes@[i].1),
    {
        let mut out: Vec<(Vec<u8>, Vec<u8>)> = Vec::new();
        let mut i: usize = 0;
        while i < self.changes.len()
            invariant
                self.wf(),
                i <= self.changes@.len(),
                out@.len() == i,
                forall|j: int|
                    0 <= j < i ==> (#[trigger] out@[j]).0@ == self.changes@[j].0.encode_spec()
                        && out@[j].1@ == serialize_spec(self.changes@[j].1),
            decreases self.changes@.len() - i,
        {
            let kb = self.changes[i].0.as_sled_key();
            let vb = self.changes[i].1.serialize();
            out.push((kb, vb));
            i = i + 1;
        }
        proof {
            assert forall|a: int, b: int| 0 <= a < b < out@.len() implies crate::bytes::lex_lt(
                (#[trigger] ec_view(out@)[a]).0,
                (#[trigger] ec_view(out@)[b]).0,
            ) by {
                self.changes@[a].0.lemma_encode_order(self.changes@[b].0);
            }
            assert forall|a: int| 0 <= a < out@.len() implies (#[trigger] ec_view(out@)[a]).0.len()
                == 1 + K::width() && valid_change_bytes(ec_view(out@)[a].1) by {
                self.changes@[a].0.lemma_round_trip();
            }
        }
        EncodedChanges { changes: out }
    }

    /// Decodes a batch whose keys are sorted but whose values may be
    /// anything; `None` when some value decodes as no change.
    pub fn try_from_encoded(changes: &EncodedChanges) -> (r: Option<Self>)
        requires
            crate::working_tree::encoded_keys_wf::<K>(ec_view(changes.changes@)),
        ensures
            r matches Some(vc) ==> {
                &&& vc.wf()
                &&& vc.changes@.len() == changes.changes@.len()
                &&& forall|i: int|
                    0 <= i < changes.changes@.len() ==> (#[trigger] vc.changes@[i]).0.encode_spec()
                        == changes.changes@[i].0@ && serialize_spec(vc.changes@[i].1)
                        == changes.changes@[i].1@
            },
            r is None ==> exists|i: int|
                0 <= i < changes.changes@.len() && !valid_change_bytes(
                    (#[trigger] changes.changes@[i]).1@,
                ),
    {
        let mut out: Vec<(K, Change)> = Vec::new();
        let mut i: usize = 0;
        while i < changes.changes.len()
            invariant
                crate::working_tree::encoded_keys_wf::<K>(ec_view(changes.changes@)),
                i <= changes.changes@.len(),
                out@.len() == i,
                forall|j: int|
                    0 <= j < i ==> (#[trigger] out@[j]).0.wf() && out@[j].0.encode_spec()
                        == changes.changes@[j].0@ && serialize_spec(out@[j].1)
                        == changes.changes@[j].1@,
            decreases changes.changes@.len() - i,
        {
            let kb = &changes.changes[i].0;
            let vb = &changes.changes[i].1;
            proof {
                assert(ec_view(changes.changes@)[i as int].0 == kb@);
                assert(ec_view(changes.changes@)[i as int].1 == vb@);
            }
            let k = K::from_sled_key(kb);
            proof {
                K::lemma_decode_encode(kb@);
            }
            let c = match Change::deserialize(vb) {
                Some(c) => c,
                None => {
                    return None;
                },
            };
            out.push((k, c));
            i = i + 1;
        }
        let r = Self { changes: out };
        proof {
            assert forall|a: int, b: int| 0 <= a < b < r.changes@.len() implies key_lt_spec(
                (#[trigger] r.changes@[a]).0,
                (#[trigger] r.changes@[b]).0,
            ) by {
                assert(crate::bytes::lex_lt(
                    ec_view(changes.changes@)[a].0,
                    ec_view(changes.changes@)[b].0,
                ));
                r.changes@[a].0.lemma_encode_order(r.changes@[b].0);
            }
        }
        Some(r)
    }

    /// Encodes the delta to its stable blob form.
    pub fn serialize(&self) -> (r: Vec<u8>)
        requires
            self.wf(),
        ensures
            r@ == vc_bytes(vc_view(self.changes@)),
    {
        let mut out: Vec<u8> = Vec::new();
        let mut i: usize = 0;
        while i < self.changes.len()
            invariant
                self.wf(),
                i <= self.changes@.len(),
                out@ == vc_bytes(vc_view(self.changes@).subrange(0, i as int)),
            decreases self.changes@.len() - i,
        {
            let ghost pre = vc_view(self.changes@).subrange(0, i as int);
            let kb = self.changes[i].0.as_sled_key();
            let cb = self.changes[i].1.serialize();
            let clen: usize = cb.len();
            proof {
                lemma_pow256_widths();
                assert((clen as u128 as nat) < pow256(8)) by {
                    assert(clen <= usize::MAX);
                }
            }
            let lb = u128_to_be_bytes(clen as u128, 8);
            push_bytes(&mut out, &kb);
            push_bytes(&mut out, &lb);
            push_bytes(&mut out, &cb);
            proof {
                let x = vc_view(self.changes@)[i as int];
                assert(x.0 == self.changes@[i as int].0 && x.1 == serialize_spec(
                    self.changes@[i as int].1,
                ));
                assert(out@ =~= vc_bytes(pre) + vc_record_bytes(x.0, x.1));
                lemma_vc_bytes_push(pre, x);
                assert(pre.push(x) =~= vc_view(self.changes@).subrange(0, i + 1));
            }
            i = i + 1;
        }
        proof {
            assert(vc_view(self.changes@).subrange(0, self.changes@.len() as int) =~= vc_view(
                self.changes@,
            ));
        }
        out
    }

    /// Decodes a delta blob. What comes back is well formed and re-encodes to
    /// exactly the given bytes.
    pub fn deserialize(b: &Vec<u8>) -> (r: Option<Self>)
        ensures
            r matches Some(vc) ==> vc.wf() && vc_bytes(vc_view(vc.changes@)) == b@ && vc_parse::<
                K,
            >(b@) == Some(vc_view(vc.changes@)),
            r is None ==> match vc_parse::<K>(b@) {
                None => true,
                Some(es) => !sorted_vc_entries(es),
            },
    {
        proof {
            lemma_pow256_widths();
        }
        let blen: usize = b.len();
        let kw = K::key_width();
        let mut acc: Vec<(K, Change)> = Vec::new();
        let mut pos: usize = 0;
        proof {
            assert(b@.subrange(0, blen as int) =~= b@);
            assert(vc_view(acc@) =~= Seq::<(K, Seq<u8>)>::empty());
        }
        while pos < blen
            invariant
                blen == b@.len(),
                pos <= blen,
                kw == 1 + K::width(),
                kw >= 1,
                vc_bytes(vc_view(acc@)) =~= b@.subrange(0, pos as int),
                vc_parse::<K>(b@.subrange(pos as int, blen as int)) is None ==> vc_parse::<K>(b@)
                    is None,
                vc_parse::<K>(b@.subrange(pos as int, blen as int)) matches Some(rest)
                    ==> vc_parse::<K>(b@) == Some(vc_view(acc@) + rest),
                forall|i: int| 0 <= i < acc@.len() ==> (#[trigger] acc@[i]).0.wf(),
                forall|i: int, j: int|
                    0 <= i < j < acc@.len() ==> key_lt_spec(
                        (#[trigger] acc@[i]).0,
                        (#[trigger] acc@[j]).0,
                    ),
            decreases blen - pos,
        {
            let ghost sub = b@.subrange(pos as int, blen as int);
            if blen - pos < kw {
                proof {
                    assert(sub.len() < kw + 8 && sub.len() > 0);
                    assert(vc_parse::<K>(sub) is None);
                }
                return None;
            }
            if blen - pos - kw < 8 {
                proof {
                    assert(sub.len() < kw + 8 && sub.len() > 0);
                    assert(vc_parse::<K>(sub) is None);
                }
                return None;
            }
            let mut kb: Vec<u8> = Vec::new();
            let mut t: usize = pos;
            while t < pos + kw
                invariant
                    pos + kw <= blen == b@.len(),
                    pos <= t <= pos + kw,
                    kb@ =~= b@.subrange(pos as int, t as int),
                decreases pos + kw - t,
            {
                kb.push(b[t]);
                t = t + 1;
            }
            let k = K::from_sled_key(&kb);
            proof {
                K::lemma_decode_encode(kb@);
            }
            let clen128 = be_bytes_to_u128(b, pos + kw, pos + kw + 8);
            proof {
                lemma_from_be_bound(b@.subrange(pos + kw, pos + kw + 8));
            }
            if clen128 > (blen - pos - kw - 8) as u128 {
                proof {
                    assert(sub.subrange(kw as int, kw as int + 8) =~= b@.subrange(
                        pos + kw,
                        pos + kw + 8,
                    ));
                    assert(from_be(sub.subrange(kw as int, kw as int + 8)) == clen128 as nat);
                    assert(sub.len() < kw + 8 + clen128 as int);
                    assert(vc_parse::<K>(sub) is None);
                }
                return None;
            }
            let clen: usize = clen128 as usize;
            let mut cb: Vec<u8> = Vec::new();
            let mut t2: usize = pos + kw + 8;
            while t2 < pos + kw + 8 + clen
                invariant
                    pos + kw + 8 + clen <= blen == b@.len(),
                    pos + kw + 8 <= t2 <= pos + kw + 8 + clen,
                    cb@ =~= b@.subrange(pos + kw + 8, t2 as int),
                decreases pos + kw + 8 + clen - t2,
            {
                cb.push(b[t2]);
                t2 = t2 + 1;
            }
            proof {
                assert(sub.subrange(0, kw as int) =~= kb@);
                assert(K::decode_spec(sub.subrange(0, kw as int)) == k);
                assert(sub.subrange(kw as int, kw as int + 8) =~= b@.subrange(
                    pos + kw,
                    pos + kw + 8,
                ));
                assert(from_be(sub.subrange(kw as int, kw as int + 8)) == clen as nat);
                assert(sub.len() >= kw + 8 + clen);
                assert(sub.subrange(kw + 8, kw + 8 + clen) =~= cb@);
                assert(sub.subrange(kw + 8 + clen, sub.len() as int) =~= b@.subrange(
                    pos + kw + 8 + clen,
                    blen as int,
                ));
            }
            let c = match Change::deserialize(&cb) {
                Some(c) => c,
                None => {
                    proof {
                        assert(vc_parse::<K>(sub) is None);
                    }
                    return None;
                },
            };
            if acc.len() > 0 {
                let last = acc.len() - 1;
                if !acc[last].0.key_lt(&k) {
                    proof {
                        if vc_parse::<K>(b@) is Some {
                            let es = vc_parse::<K>(b@).unwrap();
                            assert(!(vc_parse::<K>(sub) is None));
                            let rest = vc_parse::<K>(sub).unwrap();
                            assert(es == vc_view(acc@) + rest);
                            assert(rest[0] == (k, cb@));
                            let n = acc@.len() as int;
                            assert(es[n] == rest[0]);
                            assert(es[n - 1] == vc_view(acc@)[n - 1]);
                            assert(es[n - 1].0 == acc@[n - 1].0);
                            assert(!key_lt_spec(es[n - 1].0, es[n].0));
                            assert(!sorted_vc_entries(es));
                        }
                    }
                    return None;
                }
            }
            let ghost accpre = acc@;
            acc.push((k, c));
            proof {
                let x = vc_view(acc@).last();
                assert(acc@.drop_last() =~= accpre);
                assert(vc_view(acc@).drop_last() =~= vc_view(accpre));
                assert(vc_view(acc@) =~= vc_view(accpre).push((k, serialize_spec(c))));
                lemma_vc_bytes_push(vc_view(accpre), (k, serialize_spec(c)));
                lemma_be_bytes_from_be(b@.subrange(pos + kw, pos + kw + 8));
                assert(serialize_spec(c) == cb@);
                assert(cb@.len() == clen);
                assert(be_bytes(cb@.len(), 8) =~= b@.subrange(pos + kw, pos + kw + 8));
                assert(vc_record_bytes(k, serialize_spec(c)) =~= b@.subrange(
                    pos as int,
                    pos + kw + 8 + clen,
                ));
                assert(vc_bytes(vc_view(acc@)) =~= b@.subrange(0, pos + kw + 8 + clen));
                let subnew = b@.subrange(pos + kw + 8 + clen, blen as int);
                if vc_parse::<K>(subnew) is None {
                    assert(vc_parse::<K>(sub) is None);
                } else {
                    let restnew = vc_parse::<K>(subnew).unwrap();
                    assert(vc_parse::<K>(sub) == Some(seq![(k, cb@)] + restnew));
                    assert(vc_parse::<K>(b@) == Some(vc_view(accpre) + (seq![(k, cb@)] + restnew)));
                    assert(vc_view(accpre) + (seq![(k, cb@)] + restnew) =~= vc_view(acc@)
                        + restnew);
                }
                assert forall|i: int, j: int|
                    0 <= i < j < acc@.len() implies key_lt_spec(
                    (#[trigger] acc@[i]).0,
                    (#[trigger] acc@[j]).0,
                ) by {
                    if j == acc@.len() - 1 && i < j {
                        if i < accpre.len() - 1 {
                            assert(key_lt_spec(accpre[i].0, accpre[accpre.len() - 1].0));
                        }
                    }
                }
            }
            pos = pos + kw + 8 + clen;
        }
        proof {
            assert(b@.subrange(0, blen as int) =~= b@);
            assert(b@.subrange(pos as int, blen as int) =~= Seq::<u8>::empty());
            assert(vc_parse::<K>(b@.subrange(pos as int, blen as int)) == Some(
                Seq::<(K, Seq<u8>)>::empty(),
            ));
            assert(vc_view(acc@) + Seq::<(K, Seq<u8>)>::empty() =~= vc_view(acc@));
        }
        Some(Self { changes: acc })
    }
}

pub fn open_version_change_tree(db: &sled::Db, map_name: &str) -> (r: Result<
    sled::Tree,
    sled::Error,
>) {
    open_tree(db, map_name, "-version-changes")
}

/// Serializes the delta and stores it under the version, overwriting any
/// blob already there.
pub fn archive_version<K: DbKey>(
    tree: &mut sled::Tree,
    version: Version,
    changes: &VersionChanges<K>,
) -> (r: Result<(), sled::Error>)
    requires
        changes.wf(),
    ensures
        r is Ok ==> tree_kvs(*final(tree)) == tree_kvs(*old(tree)).insert(
            ver_key(version),
            vc_bytes(vc_view(changes.changes@)),
        ),
{
    let key = version.into_sled_key();
    let blob = changes.serialize();
    match tree_insert(tree, &key, &blob) {
        Ok(_) => Ok(()),
        Err(e) => Err(e),
    }
}

/// Removes and returns the delta stored under the version. The blob is read
/// and validated first, so an unreadable blob is reported with the entry
/// still in place.
pub fn remove_archived_version<K: DbKey>(tree: &mut sled::Tree, version: Version) -> (r: Result<
    Option<VersionChanges<K>>,
    TransactionError,
>)
    ensures
        r matches Ok(o) ==> tree_kvs(*final(tree)) == tree_kvs(*old(tree)).remove(
            ver_key(version),
        ) && match o {
            Some(vc) => {
                &&& tree_kvs(*old(tree)).contains_key(ver_key(version))
                &&& vc.wf()
                &&& vc_bytes(vc_view(vc.changes@)) == tree_kvs(*old(tree))[ver_key(version)]
                &&& vc_parse::<K>(tree_kvs(*old(tree))[ver_key(version)]) == Some(
                    vc_view(vc.changes@),
                )
            },
            None => !tree_kvs(*old(tree)).contains_key(ver_key(version)),
        },
        r matches Err(e) ==> !(e is Abort),
        r matches Err(e) && e is Corruption ==> {
            &&& tree_kvs(*final(tree)) == tree_kvs(*old(tree))
            &&& tree_kvs(*old(tree)).contains_key(ver_key(version))
            &&& match vc_parse::<K>(tree_kvs(*old(tree))[ver_key(version)]) {
                None => true,
                Some(es) => !sorted_vc_entries(es),
            }
        },
{
    let key = version.into_sled_key();
    let blob = match crate::engine::tree_get(tree, &key) {
        Ok(Some(blob)) => blob,
        Ok(None) => {
            proof {
                assert(tree_kvs(*tree) =~= tree_kvs(*tree).remove(ver_key(version)));
            }
            return Ok(None);
        },
        Err(e) => {
            return Err(TransactionError::Storage(e));
        },
    };
    let vc = match VersionChanges::<K>::deserialize(&blob) {
        Some(vc) => vc,
        None => {
            return Err(TransactionError::Corruption);
        },
    };
    match tree_remove(tree, &key) {
        Ok(_) => Ok(Some(vc)),
        Err(e) => Err(TransactionError::Storage(e)),
    }
}

} // verus!
