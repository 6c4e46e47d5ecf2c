//! A byte trie held as an arena of nodes. Node 0 is the root; every child
//! sits at a larger index than its parent and records its parent and the
//! byte of the edge that leads to it, so that each node has exactly one key.
use vstd::prelude::*;
use vstd::utf8::encode_utf8;

verus! {

/// One node of the arena.
pub struct TrieNode {
    /// Outgoing edges: the byte of the edge and the index of the child.
    pub children: Vec<(u8, usize)>,
    /// Whether a name ends at this node.
    pub is_end: bool,
    /// Full paths recorded for the name that ends here, in insertion order.
    pub location: Vec<String>,
    /// Index of the parent node (unused for the root).
    pub parent: usize,
    /// Byte of the edge from the parent (unused for the root).
    pub byte: u8,
}

/// The content of one shard: an arena of nodes whose root is node 0.
pub struct Trie {
    pub nodes: Vec<TrieNode>,
}

/// The child reached through byte `b`, looking at the edges `ch[i..]`.
pub open spec fn find_from(ch: Seq<(u8, usize)>, b: u8, i: int) -> Option<usize>
    decreases ch.len() - i,
{
    if i < 0 || i >= ch.len() {
        None
    } else if ch[i].0 == b {
        Some(ch[i].1)
    } else {
        find_from(ch, b, i + 1)
    }
}

/// The child of node `n` reached through byte `b`.
pub open spec fn child_of(nodes: Seq<TrieNode>, n: int, b: u8) -> Option<usize> {
    find_from(nodes[n].children@, b, 0)
}

/// The node reached from the root by following the bytes of `key`.
pub open spec fn lookup(nodes: Seq<TrieNode>, key: Seq<u8>) -> Option<usize>
    decreases key.len(),
{
    if key.len() == 0 {
        Some(0usize)
    } else {
        match lookup(nodes, key.drop_last()) {
            Some(p) => if p < nodes.len() {
                child_of(nodes, p as int, key.last())
            } else {
                None
            },
            None => None,
        }
    }
}

/// Locations recorded at node `n` itself.
pub open spec fn own_locs(nodes: Seq<TrieNode>, n: int) -> Seq<String> {
    if 0 <= n < nodes.len() && nodes[n].is_end {
        nodes[n].location@
    } else {
        Seq::empty()
    }
}

/// Every location recorded in the subtree of node `n`: its own first, then
/// each child's subtree in edge order.
pub open spec fn sub_locs(nodes: Seq<TrieNode>, n: int) -> Seq<String>
    decreases nodes.len() - n, 1int, 0int,
{
    if 0 <= n < nodes.len() {
        own_locs(nodes, n) + kids_locs(nodes, n, 0)
    } else {
        Seq::empty()
    }
}

/// The subtrees of the children of `n` behind the edges `j..`, in edge order.
pub open spec fn kids_locs(nodes: Seq<TrieNode>, n: int, j: int) -> Seq<String>
    decreases nodes.len() - n, 0int, nodes[n].children@.len() - j,
{
    if 0 <= n < nodes.len() && 0 <= j < nodes[n].children@.len() {
        let c = nodes[n].children@[j].1 as int;
        (if n < c < nodes.len() {
            sub_locs(nodes, c)
        } else {
            Seq::empty()
        }) + kids_locs(nodes, n, j + 1)
    } else {
        Seq::empty()
    }
}

/// What a prefix query over the arena returns: the subtree of the node of
/// `p`, or nothing when no name starts with `p`.
pub open spec fn query_of(nodes: Seq<TrieNode>, p: Seq<u8>) -> Seq<String> {
    match lookup(nodes, p) {
        Some(n) => sub_locs(nodes, n as int),
        None => Seq::empty(),
    }
}

/// `x` is recorded under some name that starts with `p`.
pub open spec fn under(nodes: Seq<TrieNode>, p: Seq<u8>, x: String) -> bool {
    exists|s: Seq<u8>| #[trigger] locs_in(nodes, p + s).contains(x)
}

/// The locations of a name, given the arena.
pub open spec fn locs_in(nodes: Seq<TrieNode>, key: Seq<u8>) -> Seq<String> {
    match lookup(nodes, key) {
        Some(m) => own_locs(nodes, m as int),
        None => Seq::empty(),
    }
}

/// The bytes under which a name is indexed: its UTF-8 encoding.
pub open spec fn key_of(s: Seq<char>) -> Seq<u8> {
    encode_utf8(s)
}

/// `s` without any entry equal to `loc`, order kept.
pub open spec fn without(s: Seq<String>, loc: String) -> Seq<String> {
    s.filter(|x: String| x@ != loc@)
}

/// `z` is `a` with `loc` recorded once more, last, under `key`, and every
/// other name as it was.
pub open spec fn insert_effect(a: Trie, z: Trie, key: Seq<u8>, loc: String) -> bool {
    forall|k: Seq<u8>| #[trigger] z.locs(k) == if k == key {
        a.locs(k).push(loc)
    } else {
        a.locs(k)
    }
}

/// `z` is `a` with every entry equal to `loc` dropped from `key`, and every
/// other name as it was.
pub open spec fn remove_effect(a: Trie, z: Trie, key: Seq<u8>, loc: String) -> bool {
    forall|k: Seq<u8>| #[trigger] z.locs(k) == if k == key {
        without(a.locs(k), loc)
    } else {
        a.locs(k)
    }
}

/// Two insertions into one shard, applied one after the other in either
/// order, both stay recorded: serialized updates lose nothing.
pub proof fn lemma_serialized_inserts_keep_both(
    t0: Trie,
    t1: Trie,
    t2: Trie,
    k1: Seq<u8>,
    l1: String,
    k2: Seq<u8>,
    l2: String,
)
    requires
        insert_effect(t0, t1, k1, l1),
        insert_effect(t1, t2, k2, l2),
    ensures
        t2.locs(k1).contains(l1),
        t2.locs(k2).contains(l2),
        t2.locs(k1).len() == t0.locs(k1).len() + 1 + (if k1 == k2 { 1int } else { 0int }),
{
    let s1 = t1.locs(k1);
    assert(s1 == t0.locs(k1).push(l1));
    assert(s1[s1.len() - 1] == l1);
    if k1 == k2 {
        assert(t2.locs(k1) == s1.push(l2));
        assert(t2.locs(k1)[s1.len() - 1] == l1);
    } else {
        assert(t2.locs(k1) == s1);
    }
    let s2 = t2.locs(k2);
    assert(s2 == t1.locs(k2).push(l2));
    assert(s2[s2.len() - 1] == l2);
}

/// After an insertion, a query for any prefix of the name finds the location.
pub proof fn lemma_insert_found_by_prefixes(a: Trie, z: Trie, key: Seq<u8>, loc: String, n: int)
    requires
        insert_effect(a, z, key, loc),
        0 <= n <= key.len(),
    ensures
        under(z.nodes@, key.subrange(0, n), loc),
{
    let p = key.subrange(0, n);
    let s = key.subrange(n, key.len() as int);
    assert(p + s =~= key);
    let l = z.locs(key);
    assert(l == a.locs(key).push(loc));
    assert(l[l.len() - 1] == loc);
    assert(locs_in(z.nodes@, p + s).contains(loc));
}

/// Removing a location from a name leaves it out of that name, and keeps
/// every other location recorded under the name.
pub proof fn lemma_remove_keeps_others(a: Trie, z: Trie, key: Seq<u8>, loc: String, other: String)
    requires
        remove_effect(a, z, key, loc),
        a.locs(key).contains(other),
        other@ != loc@,
    ensures
        !exists|i: int| 0 <= i < z.locs(key).len() && z.locs(key)[i]@ == loc@,
        z.locs(key).contains(other),
{
    let f = |x: String| x@ != loc@;
    assert(z.locs(key) == a.locs(key).filter(f));
    a.locs(key).lemma_filter_contains_rev(f, other);
    if exists|i: int| 0 <= i < z.locs(key).len() && z.locs(key)[i]@ == loc@ {
        let i = choose|i: int| 0 <= i < z.locs(key).len() && z.locs(key)[i]@ == loc@;
        a.locs(key).lemma_filter_pred(f, i);
    }
}

/// Arena shape: children lie after their parent and point back to it,
/// and no node has two edges with the same byte.
pub open spec fn wf_nodes(nodes: Seq<TrieNode>) -> bool {
    &&& nodes.len() >= 1
    &&& forall|i: int, j: int|
        0 <= i < nodes.len() && 0 <= j < nodes[i].children@.len() ==> {
            let c = (#[trigger] nodes[i].children@[j]).1 as int;
            &&& i < c < nodes.len()
            &&& nodes[c].parent as int == i
            &&& nodes[c].byte == nodes[i].children@[j].0
        }
    &&& forall|i: int| 0 <= i < nodes.len() ==> ((#[trigger] nodes[i]).is_end <==> nodes[i].location@.len() > 0)
    &&& forall|i: int, j1: int, j2: int|
        0 <= i < nodes.len() && 0 <= j1 < j2 < nodes[i].children@.len()
            ==> (#[trigger] nodes[i].children@[j1]).0 != (#[trigger] nodes[i].children@[j2]).0
}

pub proof fn lemma_find_some(ch: Seq<(u8, usize)>, b: u8, i: int)
    requires
        0 <= i,
        find_from(ch, b, i) is Some,
    ensures
        exists|j: int| i <= j < ch.len() && ch[j] == (b, find_from(ch, b, i)->0),
    decreases ch.len() - i,
{
    if ch[i].0 != b {
        lemma_find_some(ch, b, i + 1);
    } else {
        assert(ch[i] == (b, find_from(ch, b, i)->0));
    }
}

pub proof fn lemma_find_none(ch: Seq<(u8, usize)>, b: u8, i: int)
    requires
        0 <= i,
        find_from(ch, b, i) is None,
    ensures
        forall|j: int| i <= j < ch.len() ==> ch[j].0 != b,
    decreases ch.len() - i,
{
    if i < ch.len() {
        lemma_find_none(ch, b, i + 1);
    }
}

/// With distinct edge bytes, the edge at position `j` is the one found.
pub proof fn lemma_find_at(ch: Seq<(u8, usize)>, j: int, i: int)
    requires
        0 <= i <= j < ch.len(),
        forall|j1: int, j2: int| 0 <= j1 < j2 < ch.len() ==> ch[j1].0 != ch[j2].0,
    ensures
        find_from(ch, ch[j].0, i) == Some(ch[j].1),
    decreases j - i,
{
    if i < j {
        lemma_find_at(ch, j, i + 1);
    }
}

/// Appending an edge changes the search only where it found nothing.
pub proof fn lemma_find_push(ch: Seq<(u8, usize)>, e: (u8, usize), b: u8, i: int)
    requires
        0 <= i <= ch.len(),
    ensures
        find_from(ch.push(e), b, i) == (match find_from(ch, b, i) {
            Some(c) => Some(c),
            None => if e.0 == b { Some(e.1) } else { None },
        }),
    decreases ch.len() - i,
{
    if i < ch.len() {
        assert(ch.push(e)[i] == ch[i]);
        lemma_find_push(ch, e, b, i + 1);
    } else {
        assert(ch.push(e)[i] == e);
        assert(find_from(ch.push(e), b, i + 1) is None);
    }
}

impl TrieNode {
    fn empty_node(parent: usize, byte: u8) -> (r: TrieNode)
        ensures
            r.children@.len() == 0,
            !r.is_end,
            r.location@.len() == 0,
            r.parent == parent,
            r.byte == byte,
    {
        TrieNode { children: Vec::new(), is_end: false, location: Vec::new(), parent, byte }
    }

    /// Index of the child reached through byte `b`, if any.
    pub fn find_child(&self, b: u8) -> (r: Option<usize>)
        ensures
            r == find_from(self.children@, b, 0),
    {
        let mut i: usize = 0;
        while i < self.children.len()
            invariant
                i <= self.children@.len(),
                find_from(self.children@, b, 0) == find_from(self.children@, b, i as int),
            decreases self.children@.len() - i,
        {
            if self.children[i].0 == b {
                return Some(self.children[i].1);
            }
            i += 1;
        }
        None
    }
}

impl Trie {
    /// Append a fresh child of node `n` through byte `b`, which `n` lacks.
    fn add_child(&mut self, n: usize, b: u8) -> (r: usize)
        requires
            old(self).wf(),
            n < old(self).nodes@.len(),
            child_of(old(self).nodes@, n as int, b) is None,
            old(self).nodes@.len() < usize::MAX,
        ensures
            final(self).wf(),
            r == old(self).nodes@.len(),
            final(self).nodes@.len() == old(self).nodes@.len() + 1,
            child_of(final(self).nodes@, n as int, b) == Some(r),
            forall|k: Seq<u8>| #[trigger] locs_in(final(self).nodes@, k) == locs_in(old(self).nodes@, k),
            forall|k: Seq<u8>|
                lookup(old(self).nodes@, k) is Some ==> #[trigger] lookup(final(self).nodes@, k)
                    == lookup(old(self).nodes@, k),
            forall|k: Seq<u8>|
                lookup(old(self).nodes@, k) is None ==> (#[trigger] lookup(final(self).nodes@, k) is None
                    || lookup(final(self).nodes@, k) == Some(r)),
    {
        let r = self.nodes.len();
        self.nodes.push(TrieNode::empty_node(n, b));
        self.nodes[n].children.push((b, r));
        proof {
            let a = old(self).nodes@;
            let z = self.nodes@;
            lemma_find_none(a[n as int].children@, b, 0);
            lemma_find_push(a[n as int].children@, (b, r), b, 0);
            assert forall|i: int, j: int|
                0 <= i < z.len() && 0 <= j < z[i].children@.len() implies {
                    let c = (#[trigger] z[i].children@[j]).1 as int;
                    &&& i < c < z.len()
                    &&& z[c].parent as int == i
                    &&& z[c].byte == z[i].children@[j].0
                } by {
                if i < a.len() && i != n {
                    assert(z[i] == a[i]);
                    assert(a[i].children@[j] == z[i].children@[j]);
                } else if i == n && j < a[n as int].children@.len() {
                    assert(a[i].children@[j] == z[i].children@[j]);
                }
            }
            assert forall|i: int, j1: int, j2: int|
                0 <= i < z.len() && 0 <= j1 < j2 < z[i].children@.len()
                    implies (#[trigger] z[i].children@[j1]).0 != (#[trigger] z[i].children@[j2]).0 by {
                if i < a.len() && i != n {
                    assert(z[i] == a[i]);
                    assert(a[i].children@[j1] == z[i].children@[j1]);
                    assert(a[i].children@[j2] == z[i].children@[j2]);
                } else if i == n {
                    assert(a[i].children@[j1] == z[i].children@[j1]);
                    if j2 < a[n as int].children@.len() {
                        assert(a[i].children@[j2] == z[i].children@[j2]);
                    }
                }
            }
            assert forall|i: int| 0 <= i < z.len()
                implies ((#[trigger] z[i]).is_end <==> z[i].location@.len() > 0) by {
                if i < a.len() && i != n {
                    assert(z[i] == a[i]);
                }
            }
            assert forall|k: Seq<u8>| #[trigger] locs_in(z, k) == locs_in(a, k) by {
                lemma_add_child_key(a, z, n as int, b, k);
                lemma_lookup_in_range(a, k);
                if let Some(m) = lookup(a, k) {
                    if m != n {
                        assert(z[m as int] == a[m as int]);
                    }
                }
            }
            assert forall|k: Seq<u8>|
                lookup(a, k) is Some implies #[trigger] lookup(z, k) == lookup(a, k) by {
                lemma_add_child_key(a, z, n as int, b, k);
            }
            assert forall|k: Seq<u8>|
                lookup(a, k) is None implies (#[trigger] lookup(z, k) is None || lookup(z, k) == Some(r)) by {
                lemma_add_child_key(a, z, n as int, b, k);
            }
        }
        r
    }

    /// The node reached by following `key[start..]` from the root.
    fn walk(&self, key: &[u8], start: usize) -> (r: Option<usize>)
        requires
            self.wf(),
            start <= key@.len(),
        ensures
            r == lookup(self.nodes@, key@.subrange(start as int, key@.len() as int)),
            r matches Some(m) ==> m < self.nodes@.len(),
    {
        let mut cur: usize = 0;
        let mut i: usize = start;
        proof {
            assert(key@.subrange(start as int, start as int).len() == 0);
        }
        while i < key.len()
            invariant
                self.wf(),
                start <= i <= key@.len(),
                cur < self.nodes@.len(),
                lookup(self.nodes@, key@.subrange(start as int, i as int)) == Some(cur),
            decreases key@.len() - i,
        {
            let b = key[i];
            proof {
                assert(key@.subrange(start as int, i + 1).drop_last() =~= key@.subrange(start as int, i as int));
                lemma_lookup_in_range(self.nodes@, key@.subrange(start as int, i + 1));
            }
            match self.nodes[cur].find_child(b) {
                Some(c) => {
                    cur = c;
                },
                None => {
                    proof {
                        assert(key@.subrange(start as int, key@.len() as int).subrange(0, i + 1 - start)
                            =~= key@.subrange(start as int, i + 1));
                        lemma_lookup_prefix_none(
                            self.nodes@,
                            key@.subrange(start as int, i + 1),
                            key@.subrange(start as int, key@.len() as int),
                        );
                    }
                    return None;
                },
            }
            i += 1;
        }
        Some(cur)
    }

    /// Record `location` under the name `key[start..]`.
    fn insert_key(&mut self, key: &[u8], start: usize, location: String)
        requires
            old(self).wf(),
            start <= key@.len(),
            old(self).nodes@.len() + key@.len() < usize::MAX,
        ensures
            final(self).wf(),
            final(self).nodes@.len() <= old(self).nodes@.len() + (key@.len() - start),
            forall|k: Seq<u8>| #[trigger] lookup(final(self).nodes@, k) is Some
                <==> (lookup(old(self).nodes@, k) is Some || k.is_prefix_of(key@.subrange(start as int, key@.len() as int))),
            forall|k: Seq<u8>| lookup(old(self).nodes@, k) is Some
                ==> #[trigger] lookup(final(self).nodes@, k) == lookup(old(self).nodes@, k),
            forall|k: Seq<u8>| #[trigger] final(self).locs(k) == if k == key@.subrange(start as int, key@.len() as int) {
                old(self).locs(k).push(location)
            } else {
                old(self).locs(k)
            },
    {
        let ghost word = key@.subrange(start as int, key@.len() as int);
        let mut cur: usize = 0;
        let mut i: usize = start;
        proof {
            assert(key@.subrange(start as int, start as int).len() == 0);
        }
        while i < key.len()
            invariant
                self.wf(),
                start <= i <= key@.len(),
                cur < self.nodes@.len(),
                self.nodes@.len() <= old(self).nodes@.len() + (i - start),
                old(self).nodes@.len() + key@.len() < usize::MAX,
                lookup(self.nodes@, key@.subrange(start as int, i as int)) == Some(cur),
                forall|k: Seq<u8>| #[trigger] locs_in(self.nodes@, k) == locs_in(old(self).nodes@, k),
                forall|k: Seq<u8>| #[trigger] lookup(self.nodes@, k) is Some
                    <==> (lookup(old(self).nodes@, k) is Some || k.is_prefix_of(key@.subrange(start as int, i as int))),
                forall|k: Seq<u8>| lookup(old(self).nodes@, k) is Some
                    ==> #[trigger] lookup(self.nodes@, k) == lookup(old(self).nodes@, k),
            decreases key@.len() - i,
        {
            let b = key[i];
            proof {
                assert(key@.subrange(start as int, i + 1).drop_last() =~= key@.subrange(start as int, i as int));
            }
            let ghost before = self.nodes@;
            let ghost w = key@.subrange(start as int, i as int);
            let ghost w1 = key@.subrange(start as int, i + 1);
            let next = match self.nodes[cur].find_child(b) {
                Some(c) => c,
                None => self.add_child(cur, b),
            };
            proof {
                assert(w1 =~= w.push(b));
                assert(lookup(self.nodes@, w) == Some(cur));
                assert(lookup(self.nodes@, w1) == Some(next));
                assert forall|k: Seq<u8>| #[trigger] lookup(self.nodes@, k) is Some
                    <==> (lookup(old(self).nodes@, k) is Some || k.is_prefix_of(w1)) by {
                    lemma_prefix_push(k, w, b);
                    assert(lookup(before, k) is Some <==> (lookup(old(self).nodes@, k) is Some || k.is_prefix_of(w)));
                    if lookup(self.nodes@, k) == Some(next) {
                        lemma_lookup_injective(self.nodes@, k, w1);
                    }
                }
                assert forall|k: Seq<u8>| lookup(old(self).nodes@, k) is Some
                    implies #[trigger] lookup(self.nodes@, k) == lookup(old(self).nodes@, k) by {
                    assert(lookup(before, k) == lookup(old(self).nodes@, k));
                }
            }
            proof {
                assert(lookup(self.nodes@, key@.subrange(start as int, i as int)) == Some(cur));
                assert(lookup(self.nodes@, key@.subrange(start as int, i + 1)) == Some(next));
                lemma_lookup_in_range(self.nodes@, key@.subrange(start as int, i + 1));
            }
            cur = next;
            i += 1;
        }
        proof {
            assert(key@.subrange(start as int, i as int) == word);
        }
        let ghost mid = self.nodes@;
        self.nodes[cur].is_end = true;
        self.nodes[cur].location.push(location);
        proof {
            let z = self.nodes@;
            assert forall|k: Seq<u8>| #[trigger] lookup(z, k) == lookup(mid, k) by {
                assert forall|i: int| 0 <= i < mid.len() implies (#[trigger] mid[i]).children@ == z[i].children@ by {
                    if i != cur {
                        assert(z[i] == mid[i]);
                    }
                }
                lemma_lookup_frame(mid, z, k);
            }
            assert forall|k: Seq<u8>| #[trigger] locs_in(z, k) == if k == word {
                locs_in(old(self).nodes@, k).push(location)
            } else {
                locs_in(old(self).nodes@, k)
            } by {
                assert(locs_in(mid, k) == locs_in(old(self).nodes@, k));
                lemma_lookup_in_range(mid, k);
                if lookup(mid, k) == Some(cur) {
                    lemma_lookup_injective(mid, k, word);
                } else if k == word {
                } else if let Some(m) = lookup(mid, k) {
                    assert(z[m as int] == mid[m as int]);
                }
                if k == word && !mid[cur as int].is_end {
                    assert(z[cur as int].location@ =~= mid[cur as int].location@.push(location));
                }
            }
            assert forall|i: int| 0 <= i < z.len()
                implies ((#[trigger] z[i]).is_end <==> z[i].location@.len() > 0) by {
                if i != cur {
                    assert(z[i] == mid[i]);
                }
            }
            assert forall|i: int, j: int|
                0 <= i < z.len() && 0 <= j < z[i].children@.len() implies {
                    let c = (#[trigger] z[i].children@[j]).1 as int;
                    &&& i < c < z.len()
                    &&& z[c].parent as int == i
                    &&& z[c].byte == z[i].children@[j].0
                } by {
                assert(mid[i].children@[j] == z[i].children@[j]);
                let c = z[i].children@[j].1 as int;
                assert(mid[c].parent == z[c].parent && mid[c].byte == z[c].byte);
            }
            assert forall|i: int, j1: int, j2: int|
                0 <= i < z.len() && 0 <= j1 < j2 < z[i].children@.len()
                    implies (#[trigger] z[i].children@[j1]).0 != (#[trigger] z[i].children@[j2]).0 by {
                assert(mid[i].children@[j1] == z[i].children@[j1]);
                assert(mid[i].children@[j2] == z[i].children@[j2]);
            }
        }
    }

    /// Record that a file or directory called `word` lives at `location`.
    /// Repeated insertions of one pair keep repeated entries.
    pub fn insert(&mut self, word: String, location: String)
        requires
            old(self).wf(),
            old(self).nodes@.len() + key_of(word@).len() < usize::MAX,
        ensures
            final(self).wf(),
            insert_effect(*old(self), *final(self), key_of(word@), location),
            final(self).nodes@.len() <= old(self).nodes@.len() + key_of(word@).len(),
            forall|k: Seq<u8>| #[trigger] lookup(final(self).nodes@, k) is Some
                <==> (lookup(old(self).nodes@, k) is Some || k.is_prefix_of(key_of(word@))),
            forall|k: Seq<u8>| lookup(old(self).nodes@, k) is Some
                ==> #[trigger] lookup(final(self).nodes@, k) == lookup(old(self).nodes@, k),
    {
        let key = word.as_str().as_bytes();
        proof {
            assert(key@.subrange(0, key@.len() as int) =~= key@);
        }
        self.insert_key(key, 0, location);
    }

    /// Append to `out` every location in the subtree of node `n`.
    fn collect_into(&self, n: usize, out: &mut Vec<String>)
        requires
            self.wf(),
            n < self.nodes@.len(),
        ensures
            final(out)@ == old(out)@ + sub_locs(self.nodes@, n as int),
        decreases self.nodes@.len() - n,
    {
        let node = &self.nodes[n];
        if node.is_end {
            let mut k: usize = 0;
            while k < node.location.len()
                invariant
                    k <= node.location@.len(),
                    out@ == old(out)@ + node.location@.subrange(0, k as int),
                decreases node.location@.len() - k,
            {
                out.push(node.location[k].clone());
                proof {
                    assert(node.location@.subrange(0, k + 1) =~= node.location@.subrange(0, k as int).push(node.location@[k as int]));
                }
                k += 1;
            }
            proof {
                assert(node.location@.subrange(0, k as int) =~= node.location@);
            }
        } else {
            assert(out@ =~= old(out)@ + own_locs(self.nodes@, n as int));
        }
        let ghost mid = out@;
        let mut j: usize = 0;
        while j < node.children.len()
            invariant
                self.wf(),
                n < self.nodes@.len(),
                *node == self.nodes@[n as int],
                j <= node.children@.len(),
                mid == old(out)@ + own_locs(self.nodes@, n as int),
                out@ + kids_locs(self.nodes@, n as int, j as int) == old(out)@ + sub_locs(self.nodes@, n as int),
            decreases node.children@.len() - j,
        {
            let c = node.children[j].1;
            proof {
                assert(self.nodes@[n as int].children@[j as int] == node.children@[j as int]);
            }
            let ghost before = out@;
            self.collect_into(c, out);
            proof {
                assert(out@ + kids_locs(self.nodes@, n as int, j + 1) =~= before + kids_locs(self.nodes@, n as int, j as int));
            }
            j += 1;
        }
        proof {
            assert(out@ + kids_locs(self.nodes@, n as int, j as int) =~= out@);
        }
    }

    /// Every location recorded under a name that starts with `key[start..]`.
    fn query_from(&self, key: &[u8], start: usize) -> (r: Vec<String>)
        requires
            self.wf(),
            start <= key@.len(),
        ensures
            r@ == query_of(self.nodes@, key@.subrange(start as int, key@.len() as int)),
    {
        let mut out: Vec<String> = Vec::new();
        match self.walk(key, start) {
            Some(n) => {
                self.collect_into(n, &mut out);
                assert(out@ =~= sub_locs(self.nodes@, n as int));
            },
            None => {},
        }
        out
    }

    /// Every location recorded under a name that starts with `prefix`.
    pub fn collect_prefix(&self, prefix: String) -> (r: Vec<String>)
        requires
            self.wf(),
        ensures
            r@ == query_of(self.nodes@, key_of(prefix@)),
            forall|x: String| r@.contains(x) <==> under(self.nodes@, key_of(prefix@), x),
    {
        let key = prefix.as_str().as_bytes();
        proof {
            assert(key@.subrange(0, key@.len() as int) =~= key@);
        }
        let r = self.query_from(key, 0);
        proof {
            assert forall|x: String| r@.contains(x) <==> under(self.nodes@, key_of(prefix@), x) by {
                lemma_sub_exact(self.nodes@, key_of(prefix@), x);
            }
        }
        r
    }

    /// Prefix query on a shard. The shard is selected by the first byte of
    /// `prefix`, which its trie does not hold, so the walk starts from the
    /// second byte. An empty prefix selects no shard and gives nothing.
    pub fn starts_with(&self, prefix: String) -> (r: Vec<String>)
        requires
            self.wf(),
        ensures
            key_of(prefix@).len() == 0 ==> r@.len() == 0,
            key_of(prefix@).len() > 0 ==> r@ == query_of(self.nodes@, key_of(prefix@).drop_first()),
            key_of(prefix@).len() > 0 ==> forall|x: String|
                r@.contains(x) <==> under(self.nodes@, key_of(prefix@).drop_first(), x),
    {
        let key = prefix.as_str().as_bytes();
        if key.len() == 0 {
            return Vec::new();
        }
        proof {
            assert(key@.subrange(1, key@.len() as int) =~= key@.drop_first());
        }
        let r = self.query_from(key, 1);
        proof {
            assert forall|x: String| r@.contains(x) <==> under(self.nodes@, key_of(prefix@).drop_first(), x) by {
                lemma_sub_exact(self.nodes@, key_of(prefix@).drop_first(), x);
            }
        }
        r
    }

    /// Drop `location` from the name `key[start..]`; a missing name is left alone.
    fn remove_key(&mut self, key: &[u8], start: usize, location: &String)
        requires
            old(self).wf(),
            start <= key@.len(),
        ensures
            final(self).wf(),
            forall|k: Seq<u8>| #[trigger] final(self).locs(k) == if k == key@.subrange(start as int, key@.len() as int) {
                without(old(self).locs(k), *location)
            } else {
                old(self).locs(k)
            },
            final(self).nodes@.len() == old(self).nodes@.len(),
            forall|k: Seq<u8>| #[trigger] lookup(final(self).nodes@, k) == lookup(old(self).nodes@, k),
            lookup(old(self).nodes@, key@.subrange(start as int, key@.len() as int)) is None
                ==> *final(self) == *old(self),
    {
        let ghost word = key@.subrange(start as int, key@.len() as int);
        let ghost a = self.nodes@;
        let m = match self.walk(key, start) {
            Some(m) => m,
            None => {
                proof {
                    reveal(Seq::filter);
                    assert(without(Seq::<String>::empty(), *location) =~= Seq::<String>::empty());
                }
                return;
            },
        };
        let mut kept: Vec<String> = Vec::new();
        let mut i: usize = 0;
        while i < self.nodes[m].location.len()
            invariant
                self.nodes@ == a,
                m < a.len(),
                i <= a[m as int].location@.len(),
                kept@ == without(a[m as int].location@.subrange(0, i as int), *location),
            decreases a[m as int].location@.len() - i,
        {
            let here = self.nodes[m].location[i].clone();
            proof {
                reveal(Seq::filter);
                let s0 = a[m as int].location@.subrange(0, i + 1);
                assert(s0.drop_last() =~= a[m as int].location@.subrange(0, i as int));
                assert(s0.last() == here);
            }
            if !(here == *location) {
                kept.push(here);
            }
            i += 1;
        }
        proof {
            assert(a[m as int].location@.subrange(0, i as int) =~= a[m as int].location@);
            if !a[m as int].is_end {
                reveal(Seq::filter);
                assert(a[m as int].location@ =~= Seq::<String>::empty());
            }
        }
        let end = self.nodes[m].is_end && kept.len() > 0;
        self.nodes[m].is_end = end;
        self.nodes[m].location = kept;
        proof {
            let z = self.nodes@;
            if !end {
                reveal(Seq::filter);
                assert(without(Seq::<String>::empty(), *location) =~= Seq::<String>::empty());
            }
            assert forall|k: Seq<u8>| #[trigger] lookup(z, k) == lookup(a, k) by {
                assert forall|i: int| 0 <= i < a.len() implies (#[trigger] a[i]).children@ == z[i].children@ by {
                    if i != m {
                        assert(z[i] == a[i]);
                    }
                }
                lemma_lookup_frame(a, z, k);
            }
            assert forall|k: Seq<u8>| #[trigger] locs_in(z, k) == if k == word {
                without(locs_in(a, k), *location)
            } else {
                locs_in(a, k)
            } by {
                lemma_lookup_in_range(a, k);
                if lookup(a, k) == Some(m) {
                    lemma_lookup_injective(a, k, word);
                } else if let Some(q) = lookup(a, k) {
                    assert(z[q as int] == a[q as int]);
                }
            }
            assert forall|i: int| 0 <= i < z.len()
                implies ((#[trigger] z[i]).is_end <==> z[i].location@.len() > 0) by {
                if i != m {
                    assert(z[i] == a[i]);
                }
            }
            assert forall|i: int, j: int|
                0 <= i < z.len() && 0 <= j < z[i].children@.len() implies {
                    let c = (#[trigger] z[i].children@[j]).1 as int;
                    &&& i < c < z.len()
                    &&& z[c].parent as int == i
                    &&& z[c].byte == z[i].children@[j].0
                } by {
                assert(a[i].children@[j] == z[i].children@[j]);
                let c = z[i].children@[j].1 as int;
                assert(a[c].parent == z[c].parent && a[c].byte == z[c].byte);
            }
            assert forall|i: int, j1: int, j2: int|
                0 <= i < z.len() && 0 <= j1 < j2 < z[i].children@.len()
                    implies (#[trigger] z[i].children@[j1]).0 != (#[trigger] z[i].children@[j2]).0 by {
                assert(a[i].children@[j1] == z[i].children@[j1]);
                assert(a[i].children@[j2] == z[i].children@[j2]);
            }
        }
    }

    /// Drop every entry equal to `location` from the name `word`, clearing
    /// its terminal mark when none is left. A name that is not indexed is no
    /// error: nothing changes.
    pub fn remove(&mut self, word: String, location: String)
        requires
            old(self).wf(),
        ensures
            final(self).wf(),
            remove_effect(*old(self), *final(self), key_of(word@), location),
            final(self).nodes@.len() == old(self).nodes@.len(),
            forall|k: Seq<u8>| #[trigger] lookup(final(self).nodes@, k) == lookup(old(self).nodes@, k),
            lookup(old(self).nodes@, key_of(word@)) is None ==> *final(self) == *old(self),
    {
        let key = word.as_str().as_bytes();
        proof {
            assert(key@.subrange(0, key@.len() as int) =~= key@);
        }
        self.remove_key(key, 0, &location);
    }

    /// Record `location` for `word` in the shard that `word`'s first byte
    /// selects: the trie holds the name from its second byte on.
    pub fn insert_file(&mut self, word: String, location: String)
        requires
            old(self).wf(),
            key_of(word@).len() > 0,
            old(self).nodes@.len() + key_of(word@).len() < usize::MAX,
        ensures
            final(self).wf(),
            insert_effect(*old(self), *final(self), key_of(word@).drop_first(), location),
            final(self).nodes@.len() <= old(self).nodes@.len() + key_of(word@).drop_first().len(),
            forall|k: Seq<u8>| #[trigger] lookup(final(self).nodes@, k) is Some
                <==> (lookup(old(self).nodes@, k) is Some || k.is_prefix_of(key_of(word@).drop_first())),
            forall|k: Seq<u8>| lookup(old(self).nodes@, k) is Some
                ==> #[trigger] lookup(final(self).nodes@, k) == lookup(old(self).nodes@, k),
    {
        let key = word.as_str().as_bytes();
        proof {
            assert(key@.subrange(1, key@.len() as int) =~= key@.drop_first());
        }
        self.insert_key(key, 1, location);
    }

    /// Drop `location` for `word` from the shard that `word`'s first byte
    /// selects; a name that is not indexed leaves the shard as it was.
    pub fn remove_file(&mut self, word: String, location: String)
        requires
            old(self).wf(),
            key_of(word@).len() > 0,
        ensures
            final(self).wf(),
            remove_effect(*old(self), *final(self), key_of(word@).drop_first(), location),
            final(self).nodes@.len() == old(self).nodes@.len(),
            forall|k: Seq<u8>| #[trigger] lookup(final(self).nodes@, k) == lookup(old(self).nodes@, k),
            lookup(old(self).nodes@, key_of(word@).drop_first()) is None ==> *final(self) == *old(self),
    {
        let key = word.as_str().as_bytes();
        proof {
            assert(key@.subrange(1, key@.len() as int) =~= key@.drop_first());
        }
        self.remove_key(key, 1, &location);
    }

    /// Whether the arena has the shape every operation relies on; a shard
    /// read back from storage is checked with this before use.
    pub fn is_well_formed(&self) -> (r: bool)
        ensures
            r == self.wf(),
    {
        let len = self.nodes.len();
        if len == 0 {
            return false;
        }
        let mut i: usize = 0;
        while i < len
            invariant
                len == self.nodes@.len(),
                i <= len,
                forall|i0: int, j: int|
                    0 <= i0 < i && 0 <= j < self.nodes@[i0].children@.len() ==> {
                        let c = (#[trigger] self.nodes@[i0].children@[j]).1 as int;
                        &&& i0 < c < len
                        &&& self.nodes@[c].parent as int == i0
                        &&& self.nodes@[c].byte == self.nodes@[i0].children@[j].0
                    },
                forall|i0: int| 0 <= i0 < i
                    ==> ((#[trigger] self.nodes@[i0]).is_end <==> self.nodes@[i0].location@.len() > 0),
                forall|i0: int, j1: int, j2: int|
                    0 <= i0 < i && 0 <= j1 < j2 < self.nodes@[i0].children@.len()
                        ==> (#[trigger] self.nodes@[i0].children@[j1]).0 != (#[trigger] self.nodes@[i0].children@[j2]).0,
            decreases len - i,
        {
            let node = &self.nodes[i];
            if node.is_end != (node.location.len() > 0) {
                return false;
            }
            let n = node.children.len();
            let mut j: usize = 0;
            while j < n
                invariant
                    len == self.nodes@.len(),
                    i < len,
                    *node == self.nodes@[i as int],
                    n == node.children@.len(),
                    j <= n,
                    forall|j0: int| 0 <= j0 < j ==> {
                        let c = (#[trigger] node.children@[j0]).1 as int;
                        &&& i < c < len
                        &&& self.nodes@[c].parent as int == i
                        &&& self.nodes@[c].byte == node.children@[j0].0
                    },
                    forall|j1: int, j2: int| 0 <= j1 < j2 < j
                        ==> (#[trigger] node.children@[j1]).0 != (#[trigger] node.children@[j2]).0,
                decreases n - j,
            {
                let (b, c) = node.children[j];
                if c <= i || c >= len || self.nodes[c].parent != i || self.nodes[c].byte != b {
                    return false;
                }
                let mut j1: usize = 0;
                while j1 < j
                    invariant
                        len == self.nodes@.len(),
                        i < len,
                        *node == self.nodes@[i as int],
                        j < n,
                        n == node.children@.len(),
                        j1 <= j,
                        b == node.children@[j as int].0,
                        forall|j0: int| 0 <= j0 < j1 ==> (#[trigger] node.children@[j0]).0 != b,
                    decreases j - j1,
                {
                    if node.children[j1].0 == b {
                        proof {
                            assert(self.nodes@[i as int].children@[j1 as int].0
                                == self.nodes@[i as int].children@[j as int].0);
                        }
                        return false;
                    }
                    j1 += 1;
                }
                j += 1;
            }
            i += 1;
        }
        true
    }

    /// The shard to work on after reading one from storage: what was read
    /// when it came back and is well formed, else an empty shard.
    pub fn load_or_empty(loaded: Option<Trie>) -> (r: Trie)
        ensures
            r.wf(),
            loaded is Some && loaded->0.wf() ==> r == loaded->0,
            !(loaded is Some && loaded->0.wf()) ==> forall|k: Seq<u8>| #[trigger] r.locs(k) == Seq::<String>::empty(),
    {
        match loaded {
            Some(t) => {
                if t.is_well_formed() {
                    t
                } else {
                    Trie::new()
                }
            },
            None => Trie::new(),
        }
    }

    /// Whether nothing has been recorded in this trie: a lone root that
    /// ends no name.
    pub fn is_empty(&self) -> (r: bool)
        requires
            self.wf(),
        ensures
            r == (self.nodes@.len() == 1 && !self.nodes@[0].is_end),
            r ==> forall|k: Seq<u8>| #[trigger] self.locs(k) == Seq::<String>::empty(),
    {
        let r = self.nodes.len() == 1 && !self.nodes[0].is_end;
        proof {
            if r {
                assert forall|k: Seq<u8>| #[trigger] self.locs(k) == Seq::<String>::empty() by {
                    lemma_lookup_in_range(self.nodes@, k);
                }
            }
        }
        r
    }

    pub open spec fn wf(&self) -> bool {
        wf_nodes(self.nodes@)
    }

    /// The locations recorded for `key`, in insertion order.
    pub open spec fn locs(&self, key: Seq<u8>) -> Seq<String> {
        locs_in(self.nodes@, key)
    }

    /// An empty trie: a lone root.
    pub fn new() -> (r: Trie)
        ensures
            r.wf(),
            r.nodes@.len() == 1,
            r.nodes@[0].children@.len() == 0,
            !r.nodes@[0].is_end,
            r.nodes@[0].location@.len() == 0,
            forall|k: Seq<u8>| #[trigger] r.locs(k) == Seq::<String>::empty(),
            forall|k: Seq<u8>| #[trigger] lookup(r.nodes@, k) is Some <==> k.len() == 0,
    {
        let mut nodes: Vec<TrieNode> = Vec::new();
        nodes.push(TrieNode::empty_node(0, 0));
        let r = Trie { nodes };
        assert forall|k: Seq<u8>| #[trigger] r.locs(k) == Seq::<String>::empty() by {
            lemma_lookup_in_range(r.nodes@, k);
        }
        assert forall|k: Seq<u8>| #[trigger] lookup(r.nodes@, k) is Some <==> k.len() == 0 by {
            lemma_lookup_in_range(r.nodes@, k);
        }
        r
    }
}

/// A successful lookup lands inside a well-formed arena.
pub proof fn lemma_lookup_in_range(nodes: Seq<TrieNode>, key: Seq<u8>)
    requires
        wf_nodes(nodes),
    ensures
        lookup(nodes, key) matches Some(m) ==> m < nodes.len(),
        key.len() > 0 && lookup(nodes, key) is Some ==> lookup(nodes, key)->0 > 0,
    decreases key.len(),
{
    if key.len() > 0 {
        lemma_lookup_in_range(nodes, key.drop_last());
        if let Some(p) = lookup(nodes, key.drop_last()) {
            let ch = nodes[p as int].children@;
            if find_from(ch, key.last(), 0) is Some {
                lemma_find_some(ch, key.last(), 0);
                let j = choose|j: int| 0 <= j < ch.len() && ch[j] == (key.last(), find_from(ch, key.last(), 0)->0);
                assert(nodes[p as int].children@[j] == ch[j]);
            }
        }
    }
}

/// Each node is reached by one key at most.
pub proof fn lemma_lookup_injective(nodes: Seq<TrieNode>, k1: Seq<u8>, k2: Seq<u8>)
    requires
        wf_nodes(nodes),
        lookup(nodes, k1) is Some,
        lookup(nodes, k1) == lookup(nodes, k2),
    ensures
        k1 == k2,
    decreases k1.len(),
{
    lemma_lookup_in_range(nodes, k1);
    lemma_lookup_in_range(nodes, k2);
    if k1.len() == 0 || k2.len() == 0 {
        assert(k1 =~= k2);
    } else {
        let m = lookup(nodes, k1)->0;
        let p1 = lookup(nodes, k1.drop_last())->0;
        let p2 = lookup(nodes, k2.drop_last())->0;
        lemma_lookup_in_range(nodes, k1.drop_last());
        lemma_lookup_in_range(nodes, k2.drop_last());
        let ch1 = nodes[p1 as int].children@;
        let ch2 = nodes[p2 as int].children@;
        lemma_find_some(ch1, k1.last(), 0);
        lemma_find_some(ch2, k2.last(), 0);
        let j1 = choose|j: int| 0 <= j < ch1.len() && ch1[j] == (k1.last(), m);
        let j2 = choose|j: int| 0 <= j < ch2.len() && ch2[j] == (k2.last(), m);
        assert(nodes[p1 as int].children@[j1] == ch1[j1]);
        assert(nodes[p2 as int].children@[j2] == ch2[j2]);
        lemma_lookup_injective(nodes, k1.drop_last(), k2.drop_last());
        assert(k1 =~= k1.drop_last().push(k1.last()));
        assert(k2 =~= k2.drop_last().push(k2.last()));
    }
}

/// Once a key is missing, so is every key that extends it.
pub proof fn lemma_lookup_prefix_none(nodes: Seq<TrieNode>, p: Seq<u8>, k: Seq<u8>)
    requires
        p.len() <= k.len(),
        k.subrange(0, p.len() as int) == p,
        lookup(nodes, p) is None,
    ensures
        lookup(nodes, k) is None,
    decreases k.len(),
{
    if k.len() > p.len() {
        assert(k.drop_last().subrange(0, p.len() as int) =~= k.subrange(0, p.len() as int));
        lemma_lookup_prefix_none(nodes, p, k.drop_last());
    } else {
        assert(k =~= p);
    }
}

pub proof fn lemma_contains_add(a: Seq<String>, b: Seq<String>, x: String)
    ensures
        (a + b).contains(x) <==> (a.contains(x) || b.contains(x)),
{
    if (a + b).contains(x) {
        let i = choose|i: int| 0 <= i < (a + b).len() && (a + b)[i] == x;
        if i >= a.len() {
            assert(b[i - a.len()] == x);
        }
    }
    if a.contains(x) {
        let i = choose|i: int| 0 <= i < a.len() && a[i] == x;
        assert((a + b)[i] == x);
    }
    if b.contains(x) {
        let i = choose|i: int| 0 <= i < b.len() && b[i] == x;
        assert((a + b)[a.len() + i] == x);
    }
}

/// What the subtree of a node holds is recorded under names that extend its key.
pub proof fn lemma_sub_sound(nodes: Seq<TrieNode>, n: int, p: Seq<u8>, x: String)
    requires
        wf_nodes(nodes),
        0 <= n < nodes.len(),
        n <= usize::MAX,
        lookup(nodes, p) == Some(n as usize),
        sub_locs(nodes, n).contains(x),
    ensures
        under(nodes, p, x),
    decreases nodes.len() - n, 1int, 0int,
{
    lemma_contains_add(own_locs(nodes, n), kids_locs(nodes, n, 0), x);
    if own_locs(nodes, n).contains(x) {
        let k = p + Seq::<u8>::empty();
        assert(k =~= p);
        assert(lookup(nodes, k) == Some(n as usize));
        assert(locs_in(nodes, k) == own_locs(nodes, n));
        assert(locs_in(nodes, k).contains(x));
    } else {
        lemma_kids_sound(nodes, n, p, x, 0);
    }
}

pub proof fn lemma_kids_sound(nodes: Seq<TrieNode>, n: int, p: Seq<u8>, x: String, j: int)
    requires
        wf_nodes(nodes),
        0 <= n < nodes.len(),
        0 <= j,
        n <= usize::MAX,
        lookup(nodes, p) == Some(n as usize),
        kids_locs(nodes, n, j).contains(x),
    ensures
        under(nodes, p, x),
    decreases nodes.len() - n, 0int, nodes[n].children@.len() - j,
{
    let ch = nodes[n].children@;
    if j < ch.len() {
        let b = ch[j].0;
        let c = ch[j].1 as int;
        assert(nodes[n].children@[j] == ch[j]);
        lemma_contains_add(sub_locs(nodes, c), kids_locs(nodes, n, j + 1), x);
        if sub_locs(nodes, c).contains(x) {
            assert forall|j1: int, j2: int| 0 <= j1 < j2 < ch.len() implies ch[j1].0 != ch[j2].0 by {
                assert(nodes[n].children@[j1] == ch[j1]);
                assert(nodes[n].children@[j2] == ch[j2]);
            }
            lemma_find_at(ch, j, 0);
            assert(p.push(b).drop_last() =~= p);
            lemma_sub_sound(nodes, c, p.push(b), x);
            let s = choose|s: Seq<u8>| #[trigger] locs_in(nodes, p.push(b) + s).contains(x);
            assert(p.push(b) + s =~= p + (seq![b] + s));
            assert(locs_in(nodes, p + (seq![b] + s)).contains(x));
        } else {
            lemma_kids_sound(nodes, n, p, x, j + 1);
        }
    }
}

/// The subtree of child `j` of `n` lies within the children's part from `i` on.
pub proof fn lemma_kids_has(nodes: Seq<TrieNode>, n: int, j: int, i: int, x: String)
    requires
        wf_nodes(nodes),
        0 <= n < nodes.len(),
        0 <= i <= j < nodes[n].children@.len(),
        sub_locs(nodes, nodes[n].children@[j].1 as int).contains(x),
    ensures
        kids_locs(nodes, n, i).contains(x),
    decreases j - i,
{
    let c = nodes[n].children@[i].1 as int;
    lemma_contains_add(sub_locs(nodes, c), kids_locs(nodes, n, i + 1), x);
    if i < j {
        lemma_kids_has(nodes, n, j, i + 1, x);
    }
}

/// The subtree of a node reached by an extension of `p` lies within the
/// subtree of the node of `p`.
pub proof fn lemma_sub_mono(nodes: Seq<TrieNode>, p: Seq<u8>, k: Seq<u8>, x: String)
    requires
        wf_nodes(nodes),
        p.len() <= k.len(),
        k.subrange(0, p.len() as int) == p,
        lookup(nodes, p) is Some,
        lookup(nodes, k) is Some,
        sub_locs(nodes, lookup(nodes, k)->0 as int).contains(x),
    ensures
        sub_locs(nodes, lookup(nodes, p)->0 as int).contains(x),
    decreases k.len(),
{
    if k.len() == p.len() {
        assert(k =~= p);
    } else {
        let k0 = k.drop_last();
        assert(k0.subrange(0, p.len() as int) =~= k.subrange(0, p.len() as int));
        lemma_lookup_in_range(nodes, k0);
        lemma_lookup_in_range(nodes, k);
        let q = lookup(nodes, k0)->0 as int;
        let m = lookup(nodes, k)->0;
        let ch = nodes[q].children@;
        lemma_find_some(ch, k.last(), 0);
        let j = choose|j: int| 0 <= j < ch.len() && ch[j] == (k.last(), m);
        assert(nodes[q].children@[j] == ch[j]);
        lemma_kids_has(nodes, q, j, 0, x);
        lemma_contains_add(own_locs(nodes, q), kids_locs(nodes, q, 0), x);
        lemma_sub_mono(nodes, p, k0, x);
    }
}

/// The subtree of the node of `p` holds exactly what is recorded under the
/// names that start with `p`.
pub proof fn lemma_sub_exact(nodes: Seq<TrieNode>, p: Seq<u8>, x: String)
    requires
        wf_nodes(nodes),
    ensures
        under(nodes, p, x) <==> match lookup(nodes, p) {
            Some(n) => sub_locs(nodes, n as int).contains(x),
            None => false,
        },
{
    lemma_lookup_in_range(nodes, p);
    if under(nodes, p, x) {
        let s = choose|s: Seq<u8>| #[trigger] locs_in(nodes, p + s).contains(x);
        let k = p + s;
        assert(k.subrange(0, p.len() as int) =~= p);
        lemma_lookup_in_range(nodes, k);
        if lookup(nodes, p) is None {
            lemma_lookup_prefix_none(nodes, p, k);
        } else {
            let m = lookup(nodes, k)->0 as int;
            lemma_contains_add(own_locs(nodes, m), kids_locs(nodes, m, 0), x);
            lemma_sub_mono(nodes, p, k, x);
        }
    }
    if let Some(n) = lookup(nodes, p) {
        if sub_locs(nodes, n as int).contains(x) {
            lemma_sub_sound(nodes, n as int, p, x);
        }
    }
}

/// The prefixes of `w.push(b)` are those of `w` and `w.push(b)` itself.
pub proof fn lemma_prefix_push(k: Seq<u8>, w: Seq<u8>, b: u8)
    ensures
        k.is_prefix_of(w.push(b)) <==> (k.is_prefix_of(w) || k == w.push(b)),
{
    if k.is_prefix_of(w.push(b)) && k.len() <= w.len() {
        assert(k =~= w.subrange(0, k.len() as int));
    }
    if k.is_prefix_of(w.push(b)) && k.len() > w.len() {
        assert(k =~= w.push(b));
    }
    if k.is_prefix_of(w) {
        assert(w.push(b).subrange(0, k.len() as int) =~= w.subrange(0, k.len() as int));
    }
    if k == w.push(b) {
        assert(k =~= w.push(b).subrange(0, k.len() as int));
    }
}

/// Lookups read the edges only.
pub proof fn lemma_lookup_frame(a: Seq<TrieNode>, b: Seq<TrieNode>, k: Seq<u8>)
    requires
        a.len() == b.len(),
        forall|i: int| 0 <= i < a.len() ==> (#[trigger] a[i]).children@ == b[i].children@,
    ensures
        lookup(a, k) == lookup(b, k),
    decreases k.len(),
{
    if k.len() > 0 {
        lemma_lookup_frame(a, b, k.drop_last());
    }
}

/// The effect on one key of adding a fresh child `b` below node `n`.
pub proof fn lemma_add_child_key(
    a: Seq<TrieNode>,
    z: Seq<TrieNode>,
    n: int,
    b: u8,
    k: Seq<u8>,
)
    requires
        wf_nodes(a),
        0 <= n < a.len() < usize::MAX,
        child_of(a, n, b) is None,
        z.len() == a.len() + 1,
        z[a.len() as int].children@.len() == 0,
        z[n].children@ == a[n].children@.push((b, a.len() as usize)),
        forall|i: int| 0 <= i < a.len() && i != n ==> z[i] == a[i],
    ensures
        lookup(a, k) is Some ==> lookup(z, k) == lookup(a, k),
        lookup(a, k) is None ==> (lookup(z, k) is None || lookup(z, k) == Some(a.len() as usize)),
    decreases k.len(),
{
    lemma_lookup_in_range(a, k);
    if k.len() > 0 {
        let k0 = k.drop_last();
        lemma_add_child_key(a, z, n, b, k0);
        lemma_lookup_in_range(a, k0);
        match lookup(a, k0) {
            Some(p) => {
                if p as int == n {
                    lemma_find_push(a[n].children@, (b, a.len() as usize), k.last(), 0);
                } else {
                    assert(z[p as int] == a[p as int]);
                }
            },
            None => {
                if lookup(z, k0) is Some {
                    assert(find_from(z[a.len() as int].children@, k.last(), 0) is None);
                }
            },
        }
    }
}

} // verus!
