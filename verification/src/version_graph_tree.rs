//! The version graph: a persistent map from a version to its parent, and the
//! path finding that branching replays along.

use vstd::prelude::*;
use crate::bytes::be_bytes;
use crate::db::{AbortReason, TransactionError};
use crate::engine::{open_tree, tree_get, tree_insert, tree_kvs};
use crate::meta_tree::{
    decode_opt_version, opt_version_bytes, parse_opt_version, push_opt_version,
    valid_opt_version_bytes,
};
use crate::Version;

verus! {

/// A node of the version graph: the version's parent, if it has one.
#[derive(Clone, Copy, Debug, PartialEq, Eq, Structural)]
pub struct VersionNode {
    pub parent_version: Option<Version>,
}

/// The versions to traverse when migrating the working view from the parent
/// `a` to the parent `b`, and the parent of `b` in the graph.
#[derive(Debug)]
pub struct Path {
    pub path: Vec<Version>,
    pub end_parent: Option<Version>,
}

/// The key under which a version's node or delta is stored.
pub open spec fn ver_key(v: Version) -> Seq<u8> {
    be_bytes(v.number as nat, 8)
}

/// The byte encoding of a graph node.
pub open spec fn node_bytes(n: VersionNode) -> Seq<u8> {
    opt_version_bytes(n.parent_version)
}

/// Whether the graph holds a well-formed node for the version.
pub open spec fn graph_has(g: Map<Seq<u8>, Seq<u8>>, v: Version) -> bool {
    g.contains_key(ver_key(v)) && valid_opt_version_bytes(g[ver_key(v)])
}

/// The parent the graph records for a version it holds.
pub open spec fn graph_parent(g: Map<Seq<u8>, Seq<u8>>, v: Version) -> Option<Version> {
    decode_opt_version(g[ver_key(v)])
}

/// Whether the graph records `p` as the parent of `c`.
pub open spec fn graph_edge(g: Map<Seq<u8>, Seq<u8>>, c: Version, p: Version) -> bool {
    graph_has(g, c) && graph_parent(g, c) == Some(p)
}

/// Whether a parent chain from `start` can run into a version the graph has
/// no node for: the start itself, or the recorded parent of some node.
pub open spec fn chain_breaks_at(g: Map<Seq<u8>, Seq<u8>>, start: Version, v: Version) -> bool {
    !g.contains_key(ver_key(v)) && (v == start || exists|c: Version| graph_edge(g, c, v))
}

/// Whether the graph holds two distinct roots.
pub open spec fn two_roots(g: Map<Seq<u8>, Seq<u8>>, ra: Version, rb: Version) -> bool {
    ra != rb && graph_has(g, ra) && graph_parent(g, ra) is None && graph_has(g, rb)
        && graph_parent(g, rb) is None
}

pub fn open_version_graph_tree(db: &sled::Db, map_name: &str) -> (r: Result<
    sled::Tree,
    sled::Error,
>) {
    open_tree(db, map_name, "-version-graph")
}

/// Records `node` as the graph entry of `child`.
pub fn link_version(graph: &mut sled::Tree, child: Version, node: VersionNode) -> (r: Result<
    (),
    sled::Error,
>)
    ensures
        r is Ok ==> tree_kvs(*final(graph)) == tree_kvs(*old(graph)).insert(
            ver_key(child),
            node_bytes(node),
        ),
{
    let key = child.into_sled_key();
    let mut nb: Vec<u8> = Vec::new();
    push_opt_version(&mut nb, &node.parent_version);
    match tree_insert(graph, &key, &nb) {
        Ok(_) => Ok(()),
        Err(e) => Err(e),
    }
}

/// Reads the graph entry of `v`; `None` when the graph has no node for it.
pub fn version_node(graph: &sled::Tree, v: Version) -> (r: Result<
    Option<VersionNode>,
    TransactionError,
>)
    ensures
        r matches Ok(o) ==> match o {
            Some(n) => graph_has(tree_kvs(*graph), v) && graph_parent(tree_kvs(*graph), v)
                == n.parent_version,
            None => !tree_kvs(*graph).contains_key(ver_key(v)),
        },
        r matches Err(e) ==> !(e is Abort),
        r matches Err(e) && e is Corruption ==> tree_kvs(*graph).contains_key(ver_key(v))
            && !valid_opt_version_bytes(tree_kvs(*graph)[ver_key(v)]),
{
    let key = v.into_sled_key();
    match tree_get(graph, &key) {
        Ok(Some(bytes)) => {
            if bytes.len() != 9 {
                return Err(TransactionError::Corruption);
            }
            proof {
                assert(bytes@.subrange(0, 9) =~= bytes@);
            }
            match parse_opt_version(&bytes, 0) {
                Some(p) => {
                    proof {
                        assert(bytes@.subrange(0, 9) =~= bytes@);
                        crate::meta_tree::lemma_opt_version_bytes_valid(p);
                    }
                    Ok(Some(VersionNode { parent_version: p }))
                },
                None => Err(TransactionError::Corruption),
            }
        },
        Ok(None) => Ok(None),
        Err(e) => Err(TransactionError::Storage(e)),
    }
}

/// The chain from `start` to the root, each node the recorded parent of the
/// one before; `None` when a node is missing before the root is reached.
fn walk_to_root(graph: &sled::Tree, start: Version) -> (r: Result<
    Option<Vec<Version>>,
    TransactionError,
>)
    ensures
        r matches Ok(Some(chain)) ==> {
            &&& chain@.len() >= 1
            &&& chain@[0] == start
            &&& forall|i: int|
                0 <= i < chain@.len() - 1 ==> graph_edge(
                    tree_kvs(*graph),
                    #[trigger] chain@[i],
                    chain@[i + 1],
                )
            &&& graph_has(tree_kvs(*graph), chain@.last())
            &&& graph_parent(tree_kvs(*graph), chain@.last()) is None
            &&& forall|i: int| 0 <= i < chain@.len() ==> graph_has(tree_kvs(*graph), #[trigger] chain@[i])
        },
        r matches Ok(o) && o is None ==> exists|v: Version|
            #[trigger] chain_breaks_at(tree_kvs(*graph), start, v),
        r matches Err(e) ==> !(e is Abort),
{
    let mut chain: Vec<Version> = Vec::new();
    let mut cur = start;
    let mut fuel: u64 = u64::MAX;
    while fuel > 0
        invariant
            chain@.len() == 0 ==> cur == start,
            chain@.len() >= 1 ==> chain@[0] == start,
            forall|i: int|
                0 <= i < chain@.len() - 1 ==> graph_edge(
                    tree_kvs(*graph),
                    #[trigger] chain@[i],
                    chain@[i + 1],
                ),
            chain@.len() >= 1 ==> graph_edge(tree_kvs(*graph), chain@.last(), cur),
            forall|i: int|
                0 <= i < chain@.len() ==> graph_has(tree_kvs(*graph), #[trigger] chain@[i]),
        decreases fuel,
    {
        let node = match version_node(graph, cur) {
            Ok(Some(n)) => n,
            Ok(None) => {
                proof {
                    if chain@.len() >= 1 {
                        assert(graph_edge(tree_kvs(*graph), chain@.last(), cur));
                    }
                    assert(chain_breaks_at(tree_kvs(*graph), start, cur));
                }
                return Ok(None);
            },
            Err(e) => {
                return Err(e);
            },
        };
        let ghost pre = chain@;
        chain.push(cur);
        proof {
            assert(chain@.last() == cur);
            assert forall|i: int| 0 <= i < chain@.len() - 1 implies graph_edge(
                tree_kvs(*graph),
                #[trigger] chain@[i],
                chain@[i + 1],
            ) by {
                if i < pre.len() - 1 {
                    assert(chain@[i] == pre[i] && chain@[i + 1] == pre[i + 1]);
                } else {
                    assert(chain@[i] == pre.last() && chain@[i + 1] == cur);
                }
            }
        }
        match node.parent_version {
            None => {
                return Ok(Some(chain));
            },
            Some(p) => {
                cur = p;
            },
        }
        fuel = fuel - 1;
    }
    // a parent chain this long cannot arise from single-parent links
    Err(TransactionError::Corruption)
}

/// Computes the ordered versions to traverse from parent `a` to parent `b`:
/// up the ancestor chain of `a` to the lowest common ancestor, then down to
/// `b`. Also carries the graph parent of `b`.
#[verifier::rlimit(60)]
pub fn find_path_between_versions(graph: &sled::Tree, a: Version, b: Version) -> (r: Result<
    Path,
    TransactionError,
>)
    ensures
        r matches Ok(p) ==> {
            &&& p.path@.len() >= 1
            &&& p.path@[0] == a
            &&& p.path@.last() == b
            &&& forall|i: int|
                0 <= i < p.path@.len() - 1 ==> graph_edge(
                    tree_kvs(*graph),
                    #[trigger] p.path@[i],
                    p.path@[i + 1],
                ) || graph_edge(tree_kvs(*graph), p.path@[i + 1], p.path@[i])
            &&& forall|i: int|
                0 <= i < p.path@.len() ==> graph_has(tree_kvs(*graph), #[trigger] p.path@[i])
            &&& graph_parent(tree_kvs(*graph), b) == p.end_parent
        },
        r matches Err(TransactionError::Abort(a)) ==> a == AbortReason::NoPathExists || a
            == AbortReason::NoPathExistsToRoot,
        r matches Err(TransactionError::Abort(reason)) && reason
            == AbortReason::NoPathExistsToRoot ==> (exists|v: Version|
            #[trigger] chain_breaks_at(tree_kvs(*graph), a, v)) || (exists|v: Version|
            #[trigger] chain_breaks_at(tree_kvs(*graph), b, v)),
        r matches Err(TransactionError::Abort(reason)) && reason == AbortReason::NoPathExists
            ==> exists|ra: Version, rb: Version| #[trigger] two_roots(tree_kvs(*graph), ra, rb),
{
    let chain_a = match walk_to_root(graph, a) {
        Ok(Some(c)) => c,
        Ok(None) => {
            return Err(TransactionError::Abort(AbortReason::NoPathExistsToRoot));
        },
        Err(e) => {
            return Err(e);
        },
    };
    let chain_b = match walk_to_root(graph, b) {
        Ok(Some(c)) => c,
        Ok(None) => {
            return Err(TransactionError::Abort(AbortReason::NoPathExistsToRoot));
        },
        Err(e) => {
            return Err(e);
        },
    };
    // lowest common ancestor: the first entry of a's chain that b's chain holds
    let mut ia: usize = 0;
    let mut jb: usize = 0;
    let mut found = false;
    while ia < chain_a.len() && !found
        invariant
            ia <= chain_a@.len(),
            found ==> ia < chain_a@.len() && jb < chain_b@.len() && chain_a@[ia as int]
                == chain_b@[jb as int],
            !found ==> forall|x: int, y: int|
                0 <= x < ia && 0 <= y < chain_b@.len() ==> (#[trigger] chain_a@[x]) != (
                #[trigger] chain_b@[y]),
        decreases chain_a@.len() - ia + (if found { 0int } else { 1int }),
    {
        let mut j: usize = 0;
        while j < chain_b.len() && !found
            invariant
                j <= chain_b@.len(),
                ia < chain_a@.len(),
                found ==> jb < chain_b@.len() && chain_a@[ia as int] == chain_b@[jb as int],
                !found ==> forall|x: int, y: int|
                    0 <= x < ia && 0 <= y < chain_b@.len() ==> (#[trigger] chain_a@[x]) != (
                    #[trigger] chain_b@[y]),
                !found ==> forall|y: int|
                    0 <= y < j ==> chain_a@[ia as int] != (#[trigger] chain_b@[y]),
            decreases chain_b@.len() - j + (if found { 0int } else { 1int }),
        {
            if chain_a[ia].number == chain_b[j].number {
                found = true;
                jb = j;
            } else {
                j = j + 1;
            }
        }
        if !found {
            ia = ia + 1;
        }
    }
    if !found {
        proof {
            let g = tree_kvs(*graph);
            let ra = chain_a@.last();
            let rb = chain_b@.last();
            assert(chain_a@[chain_a@.len() - 1] != chain_b@[chain_b@.len() - 1]);
            assert(two_roots(g, ra, rb));
        }
        return Err(TransactionError::Abort(AbortReason::NoPathExists));
    }
    // emit a's chain up to and including the ancestor, then b's chain from
    // just below it down to b
    let mut path: Vec<Version> = Vec::new();
    let la: usize = chain_a.len();
    let lb: usize = chain_b.len();
    let mut i: usize = 0;
    while i <= ia
        invariant
            ia < la,
            la == chain_a@.len(),
            i <= ia + 1,
            path@.len() == i,
            forall|u: int| 0 <= u < i ==> #[trigger] path@[u] == chain_a@[u],
        decreases ia + 1 - i,
    {
        path.push(chain_a[i]);
        i = i + 1;
    }
    let mut t: usize = jb;
    while t > 0
        invariant
            ia < la,
            la == chain_a@.len(),
            jb < lb,
            lb == chain_b@.len(),
            t <= jb,
            chain_a@[ia as int] == chain_b@[jb as int],
            path@.len() == ia + 1 + (jb - t),
            forall|u: int| 0 <= u <= ia ==> #[trigger] path@[u] == chain_a@[u],
            forall|u: int|
                ia + 1 <= u < path@.len() ==> #[trigger] path@[u] == chain_b@[jb - (u - ia - 1) - 1],
        decreases t,
    {
        t = t - 1;
        path.push(chain_b[t]);
    }
    let end_parent = if chain_b.len() >= 2 {
        Some(chain_b[1])
    } else {
        None
    };
    let ghost g = tree_kvs(*graph);
    proof {
        let pa = path@;
        let ca = chain_a@;
        let cb = chain_b@;
        assert(pa.len() == ia + 1 + jb);
        assert(pa[0] == ca[0]);
        if jb == 0 {
            assert(pa.last() == ca[ia as int]);
            assert(ca[ia as int] == cb[0]);
        } else {
            assert(pa.last() == cb[jb - (pa.len() - 1 - ia - 1) - 1]);
            assert(pa.last() == cb[0]);
        }
        assert(pa.last() == b);
        assert forall|i2: int| 0 <= i2 < pa.len() implies graph_has(g, #[trigger] pa[i2]) by {
            if i2 <= ia {
                assert(pa[i2] == ca[i2]);
            } else {
                assert(pa[i2] == cb[jb - (i2 - ia - 1) - 1]);
            }
        }
        assert forall|i2: int| 0 <= i2 < pa.len() - 1 implies graph_edge(
            g,
            #[trigger] pa[i2],
            pa[i2 + 1],
        ) || graph_edge(g, pa[i2 + 1], pa[i2]) by {
            if i2 < ia {
                assert(pa[i2] == ca[i2] && pa[i2 + 1] == ca[i2 + 1]);
                assert(graph_edge(g, ca[i2], ca[i2 + 1]));
            } else if i2 == ia {
                if jb > 0 {
                    assert(pa[i2] == ca[ia as int] && ca[ia as int] == cb[jb as int]);
                    assert(pa[i2 + 1] == cb[jb - 1]);
                    assert(graph_edge(g, cb[jb - 1], cb[jb as int]));
                }
            } else {
                let u1 = jb - (i2 - ia - 1) - 1;
                assert(pa[i2] == cb[u1] && pa[i2 + 1] == cb[u1 - 1]);
                assert(graph_edge(g, cb[u1 - 1], cb[u1]));
            }
        }
        // the parent of b as the graph records it
        if cb.len() >= 2 {
            assert(graph_edge(g, cb[0], cb[1]));
        } else {
            assert(cb.last() == cb[0]);
        }
    }
    Ok(Path { path, end_parent })
}

} // verus!
