//! The stored form of a shard: its nodes as plain tuples, encoded with
//! bincode.
use vstd::prelude::*;
use crate::trie::{wf_nodes, Trie, TrieNode};

verus! {

/// A node as stored: edges, terminal mark, locations, parent, edge byte.
pub type NodeParts = (Vec<(u8, usize)>, bool, Vec<String>, usize, u8);

/// The plain value of the stored parts.
pub type PartsView = Seq<(Seq<(u8, usize)>, bool, Seq<Seq<char>>, usize, u8)>;

/// The bytes bincode writes for a sequence of node parts.
pub uninterp spec fn bincode_of(parts: PartsView) -> Seq<u8>;

/// The node parts that bincode reads from some bytes, if it reads any.
pub uninterp spec fn bincode_parts(bytes: Seq<u8>) -> Option<PartsView>;

/// The nodes that parts stand for.
pub open spec fn nodes_of(p: Seq<NodeParts>) -> Seq<TrieNode> {
    p.map_values(|q: NodeParts| TrieNode { children: q.0, is_end: q.1, location: q.2, parent: q.3, byte: q.4 })
}

/// The value of stored parts, strings taken as their text.
pub open spec fn parts_view(p: Seq<NodeParts>) -> PartsView {
    p.map_values(|q: NodeParts| (q.0@, q.1, q.2@.map_values(|s: String| s@), q.3, q.4))
}

/// `p` holds the fields of `n`.
pub open spec fn same_node(p: NodeParts, n: TrieNode) -> bool {
    &&& p.0 == n.children
    &&& p.1 == n.is_end
    &&& p.2 == n.location
    &&& p.3 == n.parent
    &&& p.4 == n.byte
}

/// `p` holds the fields of `nodes`, node by node.
pub open spec fn same_as_parts(nodes: Seq<TrieNode>, p: Seq<NodeParts>) -> bool {
    &&& nodes.len() == p.len()
    &&& forall|i: int| 0 <= i < p.len() ==> same_node(#[trigger] p[i], nodes[i])
}

/// `r` is the shard read from `bytes`: the trie of the parts bincode reads
/// there when they form a well formed trie, else an empty shard.
pub open spec fn decoded_from(bytes: Seq<u8>, r: Trie) -> bool {
    &&& bincode_parts(bytes) is None ==> forall|k: Seq<u8>| #[trigger] r.locs(k) == Seq::<String>::empty()
    &&& bincode_parts(bytes) is Some ==> exists|p: Seq<NodeParts>|
        #[trigger] parts_view(p) == bincode_parts(bytes)->0 && if wf_nodes(nodes_of(p)) {
            r.nodes@ == nodes_of(p)
        } else {
            forall|k: Seq<u8>| #[trigger] r.locs(k) == Seq::<String>::empty()
        }
}

/// Two nodes agree but for which string values hold the location texts.
pub open spec fn same_text(a: TrieNode, z: TrieNode) -> bool {
    &&& a.children@ == z.children@
    &&& a.is_end == z.is_end
    &&& a.location@.map_values(|s: String| s@) == z.location@.map_values(|s: String| s@)
    &&& a.parent == z.parent
    &&& a.byte == z.byte
}

/// The arena shape reads edges, marks, parents, bytes and list lengths only.
pub proof fn lemma_wf_same_text(a: Seq<TrieNode>, z: Seq<TrieNode>)
    requires
        wf_nodes(a),
        a.len() == z.len(),
        forall|i: int| 0 <= i < a.len() ==> same_text(#[trigger] a[i], z[i]),
    ensures
        wf_nodes(z),
{
    assert forall|i: int| 0 <= i < z.len() implies ((#[trigger] z[i]).is_end <==> z[i].location@.len() > 0) by {
        assert(same_text(a[i], z[i]));
        assert(a[i].location@.map_values(|s: String| s@).len() == z[i].location@.map_values(|s: String| s@).len());
        assert(a[i].is_end <==> a[i].location@.len() > 0);
    }
    assert forall|i: int, j: int|
        0 <= i < z.len() && 0 <= j < z[i].children@.len() implies {
            let c = (#[trigger] z[i].children@[j]).1 as int;
            &&& i < c < z.len()
            &&& z[c].parent as int == i
            &&& z[c].byte == z[i].children@[j].0
        } by {
        assert(same_text(a[i], z[i]));
        assert(a[i].children@[j] == z[i].children@[j]);
        let c = z[i].children@[j].1 as int;
        assert(same_text(a[c], z[c]));
    }
    assert forall|i: int, j1: int, j2: int|
        0 <= i < z.len() && 0 <= j1 < j2 < z[i].children@.len()
            implies (#[trigger] z[i].children@[j1]).0 != (#[trigger] z[i].children@[j2]).0 by {
        assert(same_text(a[i], z[i]));
        assert(a[i].children@[j1] == z[i].children@[j1]);
        assert(a[i].children@[j2] == z[i].children@[j2]);
    }
}

/// A well formed shard, encoded and decoded again, comes back with the same
/// nodes, terminal marks, parents and location texts in the same order.
pub proof fn lemma_encode_decode_round_trip(t: Trie, p: Seq<NodeParts>, bytes: Seq<u8>, r: Trie)
    requires
        t.wf(),
        same_as_parts(t.nodes@, p),
        bincode_parts(bytes) == Some(parts_view(p)),
        decoded_from(bytes, r),
    ensures
        r.nodes@.len() == t.nodes@.len(),
        forall|i: int| 0 <= i < t.nodes@.len() ==> same_text(#[trigger] r.nodes@[i], t.nodes@[i]),
{
    let p2 = choose|p2: Seq<NodeParts>| #[trigger] parts_view(p2) == bincode_parts(bytes)->0 && if wf_nodes(nodes_of(p2)) {
        r.nodes@ == nodes_of(p2)
    } else {
        forall|k: Seq<u8>| #[trigger] r.locs(k) == Seq::<String>::empty()
    };
    assert(parts_view(p2) == parts_view(p));
    let z = nodes_of(p2);
    assert forall|i: int| 0 <= i < t.nodes@.len() implies same_text(#[trigger] t.nodes@[i], z[i]) by {
        assert(same_node(p[i], t.nodes@[i]));
        assert(parts_view(p2)[i] == parts_view(p)[i]);
    }
    lemma_wf_same_text(t.nodes@, z);
    assert forall|i: int| 0 <= i < t.nodes@.len() implies same_text(#[trigger] r.nodes@[i], t.nodes@[i]) by {
        assert(same_text(t.nodes@[i], z[i]));
    }
}

/// Relies on `bincode::serialize`: with bincode's default options the size
/// limit is infinite, so these parts (vectors, strings, integers, booleans)
/// always encode, to bytes that `bincode::deserialize` reads back as the same
/// value.
#[verifier::external_body]
fn bincode_encode(parts: &Vec<NodeParts>) -> (r: Option<Vec<u8>>)
    ensures
        r is Some,
        r matches Some(b) ==> b@ == bincode_of(parts_view(parts@)),
        r matches Some(b) ==> bincode_parts(b@) == Some(parts_view(parts@)),
{
    bincode::serialize(parts).ok()
}

/// Relies on `bincode::deserialize`: the parts it reads back, if it reads
/// any; its error is dropped.
#[verifier::external_body]
fn bincode_decode(bytes: &Vec<u8>) -> (r: Option<Vec<NodeParts>>)
    ensures
        r is Some <==> bincode_parts(bytes@) is Some,
        r matches Some(p) ==> parts_view(p@) == bincode_parts(bytes@)->0,
{
    bincode::deserialize(bytes.as_slice()).ok()
}

/// Splitting a trie into parts and building one from those parts gives back
/// the same nodes.
pub proof fn lemma_parts_round_trip(t: Trie, p: Seq<NodeParts>, u: Trie)
    requires
        same_as_parts(t.nodes@, p),
        same_as_parts(u.nodes@, p),
    ensures
        u.nodes@ == t.nodes@,
{
    assert forall|i: int| 0 <= i < t.nodes@.len() implies u.nodes@[i] == t.nodes@[i] by {
        assert(same_node(p[i], t.nodes@[i]));
        assert(same_node(p[i], u.nodes@[i]));
    }
    assert(u.nodes@ =~= t.nodes@);
}

impl Trie {
    /// The nodes as plain tuples, in arena order.
    pub fn into_parts(self) -> (r: Vec<NodeParts>)
        ensures
            same_as_parts(self.nodes@, r@),
    {
        let ghost all = self.nodes@;
        let mut nodes = self.nodes;
        let mut rev: Vec<NodeParts> = Vec::new();
        while nodes.len() > 0
            invariant
                nodes@ == all.subrange(0, nodes@.len() as int),
                rev@.len() + nodes@.len() == all.len(),
                forall|i: int| 0 <= i < rev@.len() ==> same_node(#[trigger] rev@[i], all[all.len() - 1 - i]),
            decreases nodes@.len(),
        {
            let n = nodes.pop().unwrap();
            rev.push((n.children, n.is_end, n.location, n.parent, n.byte));
        }
        let mut out: Vec<NodeParts> = Vec::new();
        while rev.len() > 0
            invariant
                out@.len() + rev@.len() == all.len(),
                forall|i: int| 0 <= i < rev@.len() ==> same_node(#[trigger] rev@[i], all[all.len() - 1 - i]),
                forall|i: int| 0 <= i < out@.len() ==> same_node(#[trigger] out@[i], all[i]),
            decreases rev@.len(),
        {
            let q = rev.pop().unwrap();
            out.push(q);
        }
        out
    }

    /// The trie whose nodes are `parts`, taken as they are.
    pub fn from_parts(parts: Vec<NodeParts>) -> (r: Trie)
        ensures
            same_as_parts(r.nodes@, parts@),
    {
        let ghost all = parts@;
        let mut parts = parts;
        let mut rev: Vec<TrieNode> = Vec::new();
        while parts.len() > 0
            invariant
                parts@ == all.subrange(0, parts@.len() as int),
                rev@.len() + parts@.len() == all.len(),
                forall|i: int| 0 <= i < rev@.len() ==> same_node(all[all.len() - 1 - i], #[trigger] rev@[i]),
            decreases parts@.len(),
        {
            let q = parts.pop().unwrap();
            rev.push(TrieNode { children: q.0, is_end: q.1, location: q.2, parent: q.3, byte: q.4 });
        }
        let mut nodes: Vec<TrieNode> = Vec::new();
        while rev.len() > 0
            invariant
                nodes@.len() + rev@.len() == all.len(),
                forall|i: int| 0 <= i < rev@.len() ==> same_node(all[all.len() - 1 - i], #[trigger] rev@[i]),
                forall|i: int| 0 <= i < nodes@.len() ==> same_node(all[i], #[trigger] nodes@[i]),
            decreases rev@.len(),
        {
            let n = rev.pop().unwrap();
            nodes.push(n);
        }
        Trie { nodes }
    }

    /// The stored form of this shard: bincode's bytes for its node parts.
    pub fn encode(self) -> (r: Vec<u8>)
        ensures
            exists|p: Seq<NodeParts>|
                same_as_parts(self.nodes@, p) && r@ == #[trigger] bincode_of(parts_view(p))
                    && bincode_parts(r@) == Some(parts_view(p)),
    {
        let parts = self.into_parts();
        match bincode_encode(&parts) {
            Some(b) => b,
            None => Vec::new(),
        }
    }

    /// The shard stored as `bytes`: what they decode to when that is a well
    /// formed trie, else an empty shard. Unreadable data is a miss, not an
    /// error.
    pub fn decode(bytes: &Vec<u8>) -> (r: Trie)
        ensures
            r.wf(),
            decoded_from(bytes@, r),
    {
        match bincode_decode(bytes) {
            Some(parts) => {
                let ghost p = parts@;
                let t = Trie::from_parts(parts);
                proof {
                    assert(t.nodes@ =~= nodes_of(p));
                }
                Trie::load_or_empty(Some(t))
            },
            None => Trie::load_or_empty(None),
        }
    }
}

} // verus!
