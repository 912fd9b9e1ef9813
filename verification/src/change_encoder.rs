//! Changes, their stable byte encoding, and the encoder that turns a batch of
//! keyed changes into the sorted, encoded form the trees consume.
//!
//! The same value format is used in the working tree and the backup tree, so
//! moving an entry between them never re-serializes it. A removal encodes to a
//! single fixed byte, so the "prior value was absent" reverse change can reuse
//! one precomputed buffer.

use vstd::prelude::*;
use crate::bytes::lex_lt;
use crate::db_key::{key_lt_spec, DbKey};

verus! {

/// One mutation of a key: give it a value, or remove it.
#[derive(Clone, Debug)]
pub enum Change {
    Insert(Vec<u8>),
    Remove,
}

/// Whether two changes hold the same content.
pub open spec fn change_eq(a: Change, b: Change) -> bool {
    match (a, b) {
        (Change::Insert(x), Change::Insert(y)) => x@ == y@,
        (Change::Remove, Change::Remove) => true,
        _ => false,
    }
}

impl PartialEq for Change {
    fn eq(&self, other: &Change) -> (r: bool) {
        match (self, other) {
            (Change::Insert(x), Change::Insert(y)) => {
                let same = x == y;
                proof {
                    if same {
                        assert(x@ =~= y@);
                    } else {
                        if x@ == y@ {
                            assert(forall|i: int| 0 <= i < x@.len() ==> x@[i] == y@[i]);
                            assert(false);
                        }
                    }
                }
                same
            },
            (Change::Remove, Change::Remove) => true,
            _ => false,
        }
    }
}

impl Eq for Change {

}

impl vstd::std_specs::cmp::PartialEqSpecImpl for Change {
    open spec fn obeys_eq_spec() -> bool {
        true
    }

    open spec fn eq_spec(&self, other: &Change) -> bool {
        change_eq(*self, *other)
    }
}

/// The byte encoding of a removal: a single tag byte.
pub open spec fn remove_bytes() -> Seq<u8> {
    seq![0u8]
}

/// The byte encoding of a change: a tag byte, then the payload for inserts.
pub open spec fn serialize_spec(c: Change) -> Seq<u8> {
    match c {
        Change::Insert(d) => seq![1u8] + d@,
        Change::Remove => remove_bytes(),
    }
}

/// Whether the bytes encode an insert.
pub open spec fn is_insert_bytes(b: Seq<u8>) -> bool {
    b.len() >= 1 && b[0] == 1
}

/// Whether the bytes encode a removal.
pub open spec fn is_remove_bytes(b: Seq<u8>) -> bool {
    b =~= remove_bytes()
}

/// Whether the bytes encode any change.
pub open spec fn valid_change_bytes(b: Seq<u8>) -> bool {
    is_remove_bytes(b) || is_insert_bytes(b)
}

/// The payload of encoded insert bytes.
pub open spec fn insert_payload(b: Seq<u8>) -> Seq<u8> {
    b.drop_first()
}

impl Change {
    /// The payload of an insert; removals carry none.
    pub fn get_insert_data(&self) -> (r: Option<&Vec<u8>>)
        ensures
            match r {
                Some(d) => self matches Change::Insert(x) && d@ == x@,
                None => self is Remove,
            },
    {
        match self {
            Change::Insert(data) => Some(data),
            Change::Remove => None,
        }
    }

    /// The payload of an insert.
    pub fn unwrap_insert(self) -> (r: Vec<u8>)
        requires
            self is Insert,
        ensures
            self matches Change::Insert(x) && r@ == x@,
    {
        match self {
            Change::Insert(x) => x,
            Change::Remove => unreached(),
        }
    }

    /// Applies `f` to the payload of an insert; leaves a removal alone.
    pub fn map<F: FnOnce(Vec<u8>) -> Vec<u8>>(self, f: F) -> (r: Change)
        requires
            self matches Change::Insert(x) ==> call_requires(f, (x,)),
        ensures
            self is Remove ==> r is Remove,
            self matches Change::Insert(x) ==> (r matches Change::Insert(y) && call_ensures(
                f,
                (x,),
                y,
            )),
    {
        match self {
            Change::Insert(x) => Change::Insert(f(x)),
            Change::Remove => Change::Remove,
        }
    }

    /// Encodes the change to its stable byte form.
    pub fn serialize(&self) -> (r: Vec<u8>)
        ensures
            r@ == serialize_spec(*self),
    {
        match self {
            Change::Remove => {
                let v: Vec<u8> = vec![0u8];
                proof {
                    assert(v@ =~= remove_bytes());
                }
                v
            },
            Change::Insert(d) => {
                let mut v: Vec<u8> = vec![1u8];
                v.extend_from_slice(d.as_slice());
                proof {
                    assert(v@ =~= seq![1u8] + d@);
                }
                v
            },
        }
    }

    /// The precomputed byte form of a removal, of its known fixed size.
    pub fn serialize_remove() -> (r: Vec<u8>)
        ensures
            r@ == remove_bytes(),
            r@.len() == 1,
    {
        let v: Vec<u8> = vec![0u8];
        proof {
            assert(v@ =~= remove_bytes());
        }
        v
    }

    /// Decodes a change from its byte form; `None` when the bytes encode no
    /// change.
    pub fn deserialize(b: &Vec<u8>) -> (r: Option<Change>)
        ensures
            r is Some <==> valid_change_bytes(b@),
            r matches Some(c) ==> serialize_spec(c) == b@,
            r matches Some(c) ==> (c is Remove <==> is_remove_bytes(b@)),
    {
        if b.len() == 1 && b[0] == 0 {
            proof {
                assert(b@ =~= remove_bytes());
            }
            Some(Change::Remove)
        } else if b.len() >= 1 && b[0] == 1 {
            let mut d: Vec<u8> = Vec::new();
            let mut i: usize = 1;
            while i < b.len()
                invariant
                    1 <= i <= b@.len(),
                    d@ =~= b@.subrange(1, i as int),
                decreases b@.len() - i,
            {
                d.push(b[i]);
                i = i + 1;
            }
            proof {
                assert(d@ =~= b@.drop_first());
                assert(seq![1u8] + d@ =~= b@);
            }
            Some(Change::Insert(d))
        } else {
            proof {
                assert(!valid_change_bytes(b@));
            }
            None
        }
    }
}

/// A batch of changes keyed by encoded key bytes, valid and in ascending
/// encoded-key order, ready to be applied to a tree.
#[derive(Clone, Debug)]
pub struct EncodedChanges {
    pub changes: Vec<(Vec<u8>, Vec<u8>)>,
}

/// The byte-level view of an encoded batch.
pub open spec fn ec_view(s: Seq<(Vec<u8>, Vec<u8>)>) -> Seq<(Seq<u8>, Seq<u8>)> {
    s.map_values(|p: (Vec<u8>, Vec<u8>)| (p.0@, p.1@))
}

/// What the trees require of a batch: keys of the key codec's width in
/// strictly ascending byte order, values that decode as changes.
pub open spec fn encoded_changes_wf<K: DbKey>(cs: Seq<(Seq<u8>, Seq<u8>)>) -> bool {
    &&& forall|i: int|
        0 <= i < cs.len() ==> (#[trigger] cs[i]).0.len() == 1 + K::width() && valid_change_bytes(
            cs[i].1,
        )
    &&& forall|i: int, j: int|
        0 <= i < j < cs.len() ==> lex_lt((#[trigger] cs[i]).0, (#[trigger] cs[j]).0)
}

impl EncodedChanges {
    pub fn new() -> (r: Self)
        ensures
            r.changes@.len() == 0,
    {
        EncodedChanges { changes: Vec::new() }
    }
}

impl Default for EncodedChanges {
    fn default() -> (r: Self)
        ensures
            r.changes@.len() == 0,
    {
        EncodedChanges { changes: Vec::new() }
    }
}

/// The map a keyed change sequence denotes: later entries win.
pub open spec fn map_of<K: DbKey>(s: Seq<(K, Change)>) -> Map<K, Seq<u8>>
    decreases s.len(),
{
    if s.len() == 0 {
        Map::empty()
    } else {
        map_of(s.drop_last()).insert(s.last().0, serialize_spec(s.last().1))
    }
}

/// Accumulates keyed changes, dropping duplicates in favor of the latest, and
/// encodes them in ascending encoded-key order.
pub struct ChangeEncoder<K: DbKey> {
    added_changes: Vec<(K, Change)>,
}

impl<K: DbKey> ChangeEncoder<K> {
    /// The accumulated entries, in key order.
    pub closed spec fn entries(self) -> Seq<(K, Change)> {
        self.added_changes@
    }

    /// The accumulated map.
    pub open spec fn map_view(self) -> Map<K, Seq<u8>> {
        map_of(self.entries())
    }

    /// Entries are well formed and strictly ascending by key.
    pub open spec fn wf(self) -> bool {
        &&& forall|i: int| 0 <= i < self.entries().len() ==> (#[trigger] self.entries()[i]).0.wf()
        &&& forall|i: int, j: int|
            0 <= i < j < self.entries().len() ==> key_lt_spec(
                (#[trigger] self.entries()[i]).0,
                (#[trigger] self.entries()[j]).0,
            )
    }

    pub fn new() -> (r: Self)
        ensures
            r.wf(),
            r.entries().len() == 0,
            r.map_view() == Map::<K, Seq<u8>>::empty(),
    {
        ChangeEncoder { added_changes: Vec::new() }
    }

    /// Records a change for a key, replacing any change already recorded for
    /// the same key.
    pub fn add_change(&mut self, key: K, change: Change)
        requires
            old(self).wf(),
            key.wf(),
        ensures
            final(self).wf(),
            final(self).map_view() == old(self).map_view().insert(key, serialize_spec(change)),
    {
        let ghost pre = self.entries();
        let mut i: usize = 0;
        while i < self.added_changes.len() && self.added_changes[i].0.key_lt(&key)
            invariant
                self.wf(),
                self.entries() == pre,
                self == old(self),
                key.wf(),
                i <= self.added_changes@.len(),
                forall|j: int| 0 <= j < i ==> key_lt_spec((#[trigger] self.entries()[j]).0, key),
            decreases self.added_changes@.len() - i,
        {
            i = i + 1;
        }
        let hit = i < self.added_changes.len() && self.added_changes[i].0.key_eq(&key);
        proof {
            if i < pre.len() && !hit {
                // `key` differs from every later entry: the scan stopped at an
                // entry at or past it in key order.
                assert forall|j: int| i <= j < pre.len() implies key_lt_spec(
                    key,
                    (#[trigger] pre[j]).0,
                ) by {
                    assert(!key_lt_spec(pre[i as int].0, key));
                    if pre[i as int].0.level_spec() == key.level_spec() && pre[i as int]
                        .0.morton_spec() == key.morton_spec() {
                        pre[i as int].0.lemma_eq_by_parts(key);
                    }
                    assert(key_lt_spec(key, pre[i as int].0));
                    if j > i {
                        assert(key_lt_spec(pre[i as int].0, pre[j].0));
                    }
                }
            }
        }
        if hit {
            proof {
                assert forall|j: int| 0 <= j < pre.len() && j != i implies (#[trigger] pre[j]).0
                    != key by {
                    if j < i {
                        assert(key_lt_spec(pre[j].0, key));
                    } else {
                        assert(key_lt_spec(pre[i as int].0, pre[j].0));
                        assert(pre[i as int].0 == key);
                    }
                }
                lemma_map_of_update(pre, i as int, (key, change));
            }
            self.added_changes[i] = (key, change);
            proof {
                assert(self.entries() =~= pre.update(i as int, (key, change)));
            }
        } else {
            proof {
                assert forall|j: int| 0 <= j < pre.len() implies (#[trigger] pre[j]).0 != key by {
                    if j < i {
                        assert(key_lt_spec(pre[j].0, key));
                    } else {
                        assert(key_lt_spec(key, pre[j].0));
                    }
                }
                lemma_map_of_insert_at(pre, i as int, (key, change));
            }
            self.added_changes.insert(i, (key, change));
            proof {
                assert(self.entries() =~= pre.take(i as int) + seq![(key, change)] + pre.skip(
                    i as int,
                ));
                let s2 = self.entries();
                assert forall|a: int, b: int| 0 <= a < b < s2.len() implies key_lt_spec(
                    (#[trigger] s2[a]).0,
                    (#[trigger] s2[b]).0,
                ) by {
                    let ii = i as int;
                    if a < ii && b == ii {
                        assert(s2[a] == pre[a]);
                        assert(key_lt_spec(pre[a].0, key));
                    } else if a == ii && b > ii {
                        assert(s2[b] == pre[b - 1]);
                        assert(key_lt_spec(key, pre[b - 1].0));
                    } else if a < ii && b > ii {
                        assert(s2[a] == pre[a] && s2[b] == pre[b - 1]);
                    } else if a > ii && b > ii {
                        assert(s2[a] == pre[a - 1] && s2[b] == pre[b - 1]);
                    }
                }
            }
        }
    }

    /// Encodes the accumulated changes: each key to its byte form, each change
    /// to its serialized form, in ascending encoded-key order.
    pub fn encode(self) -> (r: EncodedChanges)
        requires
            self.wf(),
        ensures
            encoded_changes_wf::<K>(ec_view(r.changes@)),
            r.changes@.len() == self.entries().len(),
            forall|i: int|
                0 <= i < self.entries().len() ==> (#[trigger] r.changes@[i]).0@ == self.entries()[
                    i
                ].0.encode_spec() && r.changes@[i].1@ == serialize_spec(self.entries()[i].1),
    {
        let mut out: Vec<(Vec<u8>, Vec<u8>)> = Vec::new();
        let mut i: usize = 0;
        while i < self.added_changes.len()
            invariant
                self.wf(),
                i <= self.entries().len(),
                out@.len() == i,
                forall|j: int|
                    0 <= j < i ==> (#[trigger] out@[j]).0@ == self.entries()[j].0.encode_spec()
                        && out@[j].1@ == serialize_spec(self.entries()[j].1),
            decreases self.added_changes@.len() - i,
        {
            let k = self.added_changes[i].0;
            let kb = k.as_sled_key();
            let vb = self.added_changes[i].1.serialize();
            out.push((kb, vb));
            i = i + 1;
        }
        proof {
            assert forall|a: int, b: int| 0 <= a < b < out@.len() implies lex_lt(
                ec_view(out@)[a].0,
                ec_view(out@)[b].0,
            ) by {
                let ka = self.entries()[a].0;
                let kb = self.entries()[b].0;
                ka.lemma_encode_order(kb);
            }
            assert forall|a: int| 0 <= a < out@.len() implies (#[trigger] ec_view(out@)[a]).0.len()
                == 1 + K::width() && valid_change_bytes(ec_view(out@)[a].1) by {
                self.entries()[a].0.lemma_round_trip();
                let c = self.entries()[a].1;
                assert(valid_change_bytes(serialize_spec(c)));
            }
        }
        EncodedChanges { changes: out }
    }
}

impl<K: DbKey> Default for ChangeEncoder<K> {
    fn default() -> (r: Self)
        ensures
            r.wf(),
            r.entries().len() == 0,
            r.map_view() == Map::<K, Seq<u8>>::empty(),
    {
        ChangeEncoder { added_changes: Vec::new() }
    }
}

/// Replacing the entry at a key's position updates the denoted map at that
/// key.
proof fn lemma_map_of_update<K: DbKey>(s: Seq<(K, Change)>, p: int, x: (K, Change))
    requires
        0 <= p < s.len(),
        s[p].0 == x.0,
        forall|i: int| 0 <= i < s.len() && i != p ==> (#[trigger] s[i]).0 != x.0,
    ensures
        map_of(s.update(p, x)) == map_of(s).insert(x.0, serialize_spec(x.1)),
    decreases s.len(),
{
    let s2 = s.update(p, x);
    if p == s.len() - 1 {
        assert(s2.drop_last() =~= s.drop_last());
        assert(s2.last() == x);
        assert(map_of(s).insert(x.0, serialize_spec(x.1)) =~= map_of(s.drop_last()).insert(
            x.0,
            serialize_spec(x.1),
        ));
    } else {
        assert(s2.drop_last() =~= s.drop_last().update(p, x));
        assert(s2.last() == s.last());
        lemma_map_of_update(s.drop_last(), p, x);
        assert(s.last().0 != x.0);
        assert(map_of(s2) =~= map_of(s).insert(x.0, serialize_spec(x.1)));
    }
}

/// Inserting an entry under a fresh key at any position adds it to the denoted
/// map.
proof fn lemma_map_of_insert_at<K: DbKey>(s: Seq<(K, Change)>, p: int, x: (K, Change))
    requires
        0 <= p <= s.len(),
        forall|i: int| 0 <= i < s.len() ==> (#[trigger] s[i]).0 != x.0,
    ensures
        map_of(s.take(p) + seq![x] + s.skip(p)) == map_of(s).insert(x.0, serialize_spec(x.1)),
    decreases s.len(),
{
    let s2 = s.take(p) + seq![x] + s.skip(p);
    if p == s.len() {
        assert(s2 =~= s.push(x));
        assert(s.push(x).drop_last() =~= s);
    } else {
        assert(s2.len() == s.len() + 1);
        assert(s2.last() == s.last());
        assert(s2.drop_last() =~= s.drop_last().take(p) + seq![x] + s.drop_last().skip(p));
        lemma_map_of_insert_at(s.drop_last(), p, x);
        assert(s.last().0 != x.0);
        assert(map_of(s2) =~= map_of(s).insert(x.0, serialize_spec(x.1)));
    }
}

} // verus!
