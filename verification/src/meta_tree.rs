//! The metadata record that pins the store's current place in the version
//! graph, and its single-key tree.

use vstd::prelude::*;
use crate::bytes::{
    be_bytes, from_be, lemma_be_bytes_from_be, lemma_be_bytes_len, lemma_from_be_be_bytes,
    lemma_from_be_bound, lemma_pow256_widths, u128_to_be_bytes, be_bytes_to_u128,
};
use crate::db::TransactionError;
use crate::engine::{open_tree, tree_get, tree_insert, tree_kvs};
use crate::Version;

verus! {

/// Where the store currently stands in the version graph. The grandparent is
/// cached purely to avoid a graph lookup when naming the parent's parent.
#[derive(Clone, Copy, Debug, PartialEq, Eq, Structural)]
pub struct GridDbMetadata {
    pub grandparent_version: Option<Version>,
    pub parent_version: Option<Version>,
    pub working_version: Version,
}

/// The single key under which the metadata record is stored.
pub open spec fn meta_key() -> Seq<u8> {
    // the ASCII bytes of "meta"
    seq![109u8, 101u8, 116u8, 97u8]
}

pub fn meta_key_bytes() -> (r: Vec<u8>)
    ensures
        r@ == meta_key(),
{
    let v: Vec<u8> = vec![109u8, 101u8, 116u8, 97u8];
    proof {
        assert(v@ =~= meta_key());
    }
    v
}

/// A present version is a one tag byte and its number; an absent one is a
/// zero tag byte and a zero number.
pub open spec fn opt_version_bytes(v: Option<Version>) -> Seq<u8> {
    match v {
        None => seq![0u8] + be_bytes(0, 8),
        Some(x) => seq![1u8] + be_bytes(x.number as nat, 8),
    }
}

/// Whether nine bytes are the encoding of some optional version.
pub open spec fn valid_opt_version_bytes(b: Seq<u8>) -> bool {
    b.len() == 9 && (b[0] == 1 || (b[0] == 0 && b =~= seq![0u8] + be_bytes(0, 8)))
}

/// The optional version nine valid bytes denote.
pub open spec fn decode_opt_version(b: Seq<u8>) -> Option<Version> {
    if b[0] == 0 {
        None
    } else {
        Some(Version { number: from_be(b.subrange(1, 9)) as u64 })
    }
}

/// The byte encoding of a metadata record: grandparent, parent, then the
/// working version's number.
pub open spec fn meta_bytes(m: GridDbMetadata) -> Seq<u8> {
    opt_version_bytes(m.grandparent_version) + opt_version_bytes(m.parent_version) + be_bytes(
        m.working_version.number as nat,
        8,
    )
}

/// Whether bytes are the encoding of some metadata record.
pub open spec fn valid_meta_bytes(b: Seq<u8>) -> bool {
    b.len() == 26 && valid_opt_version_bytes(b.subrange(0, 9)) && valid_opt_version_bytes(
        b.subrange(9, 18),
    )
}

/// The record valid bytes denote.
pub open spec fn decode_meta(b: Seq<u8>) -> GridDbMetadata {
    GridDbMetadata {
        grandparent_version: decode_opt_version(b.subrange(0, 9)),
        parent_version: decode_opt_version(b.subrange(9, 18)),
        working_version: Version { number: from_be(b.subrange(18, 26)) as u64 },
    }
}

/// Every record's encoding is valid and decodes to the record.
pub proof fn lemma_meta_bytes_valid(m: GridDbMetadata)
    ensures
        valid_meta_bytes(meta_bytes(m)),
        decode_meta(meta_bytes(m)) == m,
{
    lemma_pow256_widths();
    lemma_opt_version_bytes_valid(m.grandparent_version);
    lemma_opt_version_bytes_valid(m.parent_version);
    lemma_be_bytes_len(m.working_version.number as nat, 8);
    lemma_be_bytes_len(0, 8);
    let b = meta_bytes(m);
    assert(b.subrange(0, 9) =~= opt_version_bytes(m.grandparent_version));
    assert(b.subrange(9, 18) =~= opt_version_bytes(m.parent_version));
    assert(b.subrange(18, 26) =~= be_bytes(m.working_version.number as nat, 8));
    lemma_from_be_be_bytes(m.working_version.number as nat, 8);
}

pub proof fn lemma_opt_version_bytes_valid(v: Option<Version>)
    ensures
        valid_opt_version_bytes(opt_version_bytes(v)),
        decode_opt_version(opt_version_bytes(v)) == v,
        opt_version_bytes(v).len() == 9,
{
    lemma_pow256_widths();
    lemma_be_bytes_len(0, 8);
    match v {
        None => {
        },
        Some(x) => {
            lemma_be_bytes_len(x.number as nat, 8);
            let b = opt_version_bytes(v);
            assert(b.subrange(1, 9) =~= be_bytes(x.number as nat, 8));
            lemma_from_be_be_bytes(x.number as nat, 8);
        },
    }
}

pub(crate) fn push_opt_version(out: &mut Vec<u8>, v: &Option<Version>)
    ensures
        final(out)@ == old(out)@ + opt_version_bytes(*v),
{
    proof {
        lemma_pow256_widths();
    }
    match v {
        None => {
            out.push(0u8);
            let zeros = u128_to_be_bytes(0, 8);
            let mut i: usize = 0;
            while i < zeros.len()
                invariant
                    i <= zeros@.len(),
                    out@ =~= old(out)@ + seq![0u8] + zeros@.subrange(0, i as int),
                decreases zeros@.len() - i,
            {
                out.push(zeros[i]);
                i = i + 1;
            }
            proof {
                assert(zeros@.subrange(0, zeros@.len() as int) =~= zeros@);
                assert(out@ =~= old(out)@ + (seq![0u8] + be_bytes(0, 8)));
            }
        },
        Some(x) => {
            out.push(1u8);
            let nb = u128_to_be_bytes(x.number as u128, 8);
            let mut i: usize = 0;
            while i < nb.len()
                invariant
                    i <= nb@.len(),
                    nb@ == be_bytes(x.number as nat, 8),
                    out@ =~= old(out)@ + seq![1u8] + nb@.subrange(0, i as int),
                decreases nb@.len() - i,
            {
                out.push(nb[i]);
                i = i + 1;
            }
            proof {
                assert(nb@.subrange(0, nb@.len() as int) =~= nb@);
                assert(out@ =~= old(out)@ + (seq![1u8] + be_bytes(x.number as nat, 8)));
            }
        },
    }
}

/// Encodes a metadata record.
pub fn serialize_meta(m: &GridDbMetadata) -> (r: Vec<u8>)
    ensures
        r@ == meta_bytes(*m),
{
    proof {
        lemma_pow256_widths();
    }
    let mut out: Vec<u8> = Vec::new();
    push_opt_version(&mut out, &m.grandparent_version);
    push_opt_version(&mut out, &m.parent_version);
    let nb = u128_to_be_bytes(m.working_version.number as u128, 8);
    let mut i: usize = 0;
    while i < nb.len()
        invariant
            i <= nb@.len(),
            nb@ == be_bytes(m.working_version.number as nat, 8),
            out@ =~= opt_version_bytes(m.grandparent_version) + opt_version_bytes(
                m.parent_version,
            ) + nb@.subrange(0, i as int),
        decreases nb@.len() - i,
    {
        out.push(nb[i]);
        i = i + 1;
    }
    proof {
        assert(nb@.subrange(0, nb@.len() as int) =~= nb@);
        assert(out@ =~= meta_bytes(*m));
    }
    out
}

pub(crate) fn parse_opt_version(b: &Vec<u8>, start: usize) -> (r: Option<Option<Version>>)
    requires
        start + 9 <= b@.len(),
    ensures
        r matches Some(v) ==> valid_opt_version_bytes(b@.subrange(start as int, start as int + 9))
            && opt_version_bytes(v) == b@.subrange(start as int, start as int + 9),
        r is None ==> !valid_opt_version_bytes(b@.subrange(start as int, start as int + 9)),
{
    proof {
        lemma_pow256_widths();
    }
    let blen: usize = b.len();
    let ghost seg = b@.subrange(start as int, start as int + 9);
    let tag = b[start];
    let n = be_bytes_to_u128(b, start + 1, start + 9);
    proof {
        assert(b@.subrange(start + 1, start + 9) =~= seg.subrange(1, 9));
        lemma_from_be_bound(seg.subrange(1, 9));
        lemma_be_bytes_from_be(seg.subrange(1, 9));
    }
    if tag == 0 {
        if n == 0 {
            proof {
                assert(be_bytes(0, 8) =~= seg.subrange(1, 9));
                assert(opt_version_bytes(None) =~= seg);
            }
            Some(None)
        } else {
            proof {
                lemma_be_bytes_len(0, 8);
                if valid_opt_version_bytes(seg) {
                    assert(seg.subrange(1, 9) =~= be_bytes(0, 8));
                    lemma_from_be_be_bytes(0, 8);
                    assert(false);
                }
            }
            None
        }
    } else if tag == 1 {
        proof {
            assert(opt_version_bytes(Some(Version { number: from_be(seg.subrange(1, 9)) as u64 }))
                =~= seg);
        }
        Some(Some(Version { number: n as u64 }))
    } else {
        None
    }
}

/// Decodes a metadata record; `None` when the bytes encode no record.
pub fn parse_meta(b: &Vec<u8>) -> (r: Option<GridDbMetadata>)
    ensures
        r matches Some(m) ==> meta_bytes(m) == b@,
        r is None ==> !valid_meta_bytes(b@),
{
    if b.len() != 26 {
        return None;
    }
    proof {
        lemma_pow256_widths();
    }
    let gp = match parse_opt_version(b, 0) {
        Some(v) => v,
        None => {
            return None;
        },
    };
    let parent = match parse_opt_version(b, 9) {
        Some(v) => v,
        None => {
            return None;
        },
    };
    let n = be_bytes_to_u128(b, 18, 26);
    let m = GridDbMetadata {
        grandparent_version: gp,
        parent_version: parent,
        working_version: Version { number: n as u64 },
    };
    proof {
        lemma_from_be_bound(b@.subrange(18, 26));
        lemma_be_bytes_from_be(b@.subrange(18, 26));
        assert(meta_bytes(m) =~= b@);
    }
    Some(m)
}

/// Opens the metadata tree; reads the record, or creates the initial one with
/// a freshly generated working version and persists it.
pub fn open_meta_tree(db: &mut sled::Db, map_name: &str) -> (r: Result<
    (sled::Tree, GridDbMetadata),
    TransactionError,
>)
    ensures
        r matches Ok((t, m)) ==> {
            &&& tree_kvs(t).contains_key(meta_key())
            &&& tree_kvs(t)[meta_key()] == meta_bytes(m)
        },
        // either the record was freshly initialized, rootless and with its
        // working id below the generator's floor, or the record was read
        // from the tree and no id was consumed
        r matches Ok((t, m)) ==> (m.grandparent_version is None && m.parent_version is None && (
        m.working_version.number as nat) < crate::engine::db_id_floor(*final(db)))
            || crate::engine::db_id_floor(*final(db)) == crate::engine::db_id_floor(*old(db)),
{
    let tree = match open_tree(db, map_name, "-meta") {
        Ok(t) => t,
        Err(e) => {
            return Err(TransactionError::Storage(e));
        },
    };
    let mut tree = tree;
    let key = meta_key_bytes();
    match tree_get(&tree, &key) {
        Ok(Some(bytes)) => {
            match parse_meta(&bytes) {
                Some(m) => Ok((tree, m)),
                None => Err(TransactionError::Corruption),
            }
        },
        Ok(None) => {
            let id = match crate::engine::generate_id(db) {
                Ok(id) => id,
                Err(e) => {
                    return Err(TransactionError::Storage(e));
                },
            };
            let m = GridDbMetadata {
                grandparent_version: None,
                parent_version: None,
                working_version: Version { number: id },
            };
            let mb = serialize_meta(&m);
            match tree_insert(&mut tree, &key, &mb) {
                Ok(_) => Ok((tree, m)),
                Err(e) => Err(TransactionError::Storage(e)),
            }
        },
        Err(e) => Err(TransactionError::Storage(e)),
    }
}

/// Writes the metadata record under its single key.
pub fn write_meta(meta_tree: &mut sled::Tree, m: &GridDbMetadata) -> (r: Result<
    (),
    sled::Error,
>)
    ensures
        r is Ok ==> tree_kvs(*final(meta_tree)) == tree_kvs(*old(meta_tree)).insert(
            meta_key(),
            meta_bytes(*m),
        ),
{
    let key = meta_key_bytes();
    let mb = serialize_meta(m);
    match tree_insert(meta_tree, &key, &mb) {
        Ok(_) => Ok(()),
        Err(e) => Err(e),
    }
}

} // verus!
