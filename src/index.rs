//! Building a volume's shards from a scan, and answering a search over the
//! shards of all volumes.
use vstd::prelude::*;
use crate::paths::{base_name, extension_of, file_name, parent_dir, string_of, FileResult};
use crate::trie::{insert_effect, key_of, query_of, Trie};

verus! {

/// The shard a name belongs to: its first byte. An empty name has none.
pub fn shard_key(name: &str) -> (r: Option<u8>)
    ensures
        r == (if key_of(name@).len() == 0 { None::<u8> } else { Some(key_of(name@)[0]) }),
{
    let b = name.as_bytes();
    if b.len() == 0 {
        None
    } else {
        Some(b[0])
    }
}

/// The file name of the shard for byte `b`: its decimal value and `.data`.
pub open spec fn shard_file_spec(b: u8) -> Seq<char> {
    decimal(b as nat) + seq!['.', 'd', 'a', 't', 'a']
}

/// The decimal digits of `n`, without leading zeros (`0` for zero).
pub open spec fn decimal(n: nat) -> Seq<char>
    decreases n,
{
    if n < 10 {
        seq![digit(n)]
    } else {
        decimal(n / 10).push(digit(n % 10))
    }
}

pub open spec fn digit(d: nat) -> char {
    if d == 0 { '0' } else if d == 1 { '1' } else if d == 2 { '2' } else if d == 3 { '3' }
    else if d == 4 { '4' } else if d == 5 { '5' } else if d == 6 { '6' } else if d == 7 { '7' }
    else if d == 8 { '8' } else { '9' }
}

proof fn lemma_decimal_u8(b: u8)
    ensures
        b < 10 ==> decimal(b as nat) == seq![digit(b as nat)],
        10 <= b < 100 ==> decimal(b as nat) == seq![digit((b / 10) as nat), digit((b % 10) as nat)],
        100 <= b ==> decimal(b as nat) == seq![
            digit((b / 100) as nat),
            digit(((b / 10) % 10) as nat),
            digit((b % 10) as nat),
        ],
{
    let n = b as nat;
    if 10 <= b {
        assert(decimal(n) == decimal(n / 10).push(digit(n % 10)));
        assert(n % 10 == (b % 10) as nat);
        if b < 100 {
            assert(n / 10 < 10);
            assert(decimal(n / 10) == seq![digit(n / 10)]);
            assert(decimal(n) =~= seq![digit((b / 10) as nat), digit((b % 10) as nat)]);
        } else {
            let m = n / 10;
            assert(10 <= m < 100);
            assert(decimal(m) == decimal(m / 10).push(digit(m % 10)));
            assert(m / 10 == (b / 100) as nat);
            assert(m % 10 == ((b / 10) % 10) as nat);
            assert(decimal(m / 10) == seq![digit(m / 10)]);
            assert(decimal(n) =~= seq![
                digit((b / 100) as nat),
                digit(((b / 10) % 10) as nat),
                digit((b % 10) as nat),
            ]);
        }
    }
}

fn digit_char(d: u8) -> (r: char)
    requires
        d < 10,
    ensures
        r == digit(d as nat),
{
    if d == 0 { '0' } else if d == 1 { '1' } else if d == 2 { '2' } else if d == 3 { '3' }
    else if d == 4 { '4' } else if d == 5 { '5' } else if d == 6 { '6' } else if d == 7 { '7' }
    else if d == 8 { '8' } else { '9' }
}

/// The file that holds the shard of byte `b` inside a volume's shard directory.
pub fn shard_file_name(b: u8) -> (r: String)
    ensures
        r@ == shard_file_spec(b),
{
    let mut c: Vec<char> = Vec::new();
    if b >= 100 {
        c.push(digit_char(b / 100));
        c.push(digit_char((b / 10) % 10));
    } else if b >= 10 {
        c.push(digit_char(b / 10));
    }
    c.push(digit_char(b % 10));
    c.push('.');
    c.push('d');
    c.push('a');
    c.push('t');
    c.push('a');
    proof {
        lemma_decimal_u8(b);
        assert(c@ =~= shard_file_spec(b));
    }
    let n = c.len();
    string_of(&c, 0, n)
}

/// Whether a volume still needs its initial scan.
pub enum BuildPlan {
    /// The shard directory already holds entries: take it as built.
    Reuse,
    /// Scan the volume and write its shards.
    Scan,
}

/// A volume whose shard directory holds entries is taken as indexed and is
/// not scanned again; it is neither merged nor checked.
pub fn plan_build(dir_has_entries: bool) -> (r: BuildPlan)
    ensures
        r is Reuse <==> dir_has_entries,
{
    if dir_has_entries {
        BuildPlan::Reuse
    } else {
        BuildPlan::Scan
    }
}

/// The shards of one volume during its initial scan: one trie per first
/// byte of a name, holding the names from their second byte on.
pub struct IndexBuilder {
    pub shards: Vec<Trie>,
}

impl IndexBuilder {
    pub open spec fn wf(&self) -> bool {
        &&& self.shards@.len() == 256
        &&& forall|b: int| 0 <= b < 256 ==> (#[trigger] self.shards@[b]).wf()
    }

    /// 256 empty shards.
    pub fn new() -> (r: IndexBuilder)
        ensures
            r.wf(),
            forall|b: int, k: Seq<u8>| 0 <= b < 256 ==> #[trigger] r.shards@[b].locs(k) == Seq::<String>::empty(),
            forall|b: int| 0 <= b < 256 ==> (#[trigger] r.shards@[b]).nodes@.len() == 1 && !r.shards@[b].nodes@[0].is_end,
    {
        let mut shards: Vec<Trie> = Vec::new();
        let mut i: usize = 0;
        while i < 256
            invariant
                i <= 256,
                shards@.len() == i,
                forall|b: int| 0 <= b < i ==> (#[trigger] shards@[b]).wf(),
                forall|b: int, k: Seq<u8>| 0 <= b < i ==> #[trigger] shards@[b].locs(k) == Seq::<String>::empty(),
                forall|b: int| 0 <= b < i ==> (#[trigger] shards@[b]).nodes@.len() == 1 && !shards@[b].nodes@[0].is_end,
            decreases 256 - i,
        {
            shards.push(Trie::new());
            i += 1;
        }
        IndexBuilder { shards }
    }

    /// Record a scanned entry under its final component, in the shard of that
    /// name's first byte. Nothing is recorded, and `false` comes back, when the
    /// name is empty or the shard cannot grow any further.
    pub fn add_entry(&mut self, path: String) -> (added: bool)
        requires
            old(self).wf(),
        ensures
            final(self).wf(),
            ({
                let key = key_of(base_name(path@));
                &&& added == (key.len() > 0 && old(self).shards@[key[0] as int].nodes@.len() + key.len() < usize::MAX)
                &&& added ==> insert_effect(
                    old(self).shards@[key[0] as int],
                    final(self).shards@[key[0] as int],
                    key.drop_first(),
                    path,
                )
                &&& forall|b: int| 0 <= b < 256 && (!added || b != key[0] as int)
                    ==> #[trigger] final(self).shards@[b] == old(self).shards@[b]
            }),
    {
        let name = file_name(path.as_str());
        let key = name.as_str().as_bytes();
        if key.len() == 0 {
            return false;
        }
        let b = key[0] as usize;
        let size = self.shards[b].nodes.len();
        if size >= usize::MAX - key.len() {
            return false;
        }
        self.shards[b].insert_file(name, path);
        true
    }
}

/// The shard part of a search: nothing for an empty query, else the
/// locations under the query's remaining bytes.
pub open spec fn shard_hits(t: Trie, q: Seq<u8>) -> Seq<String> {
    if q.len() == 0 {
        Seq::empty()
    } else {
        query_of(t.nodes@, q.drop_first())
    }
}

/// The locations a search finds over several volumes' shards, volume by volume.
pub open spec fn hits(shards: Seq<Trie>, q: Seq<u8>) -> Seq<String>
    decreases shards.len(),
{
    if shards.len() == 0 {
        Seq::empty()
    } else {
        hits(shards.drop_last(), q) + shard_hits(shards.last(), q)
    }
}

/// `r` is what a search shows for location `p`.
pub open spec fn describes(r: FileResult, p: String) -> bool {
    &&& r.path == p
    &&& r.name@ == base_name(p@)
    &&& r.location@ == parent_dir(p@)
    &&& r.file_type@ == extension_of(base_name(p@))
}

/// Search the shards that the query's first byte selects, one per volume,
/// and describe every location found. An empty query finds nothing.
pub fn search_files(shards: &Vec<Trie>, query: String) -> (r: Vec<FileResult>)
    requires
        forall|i: int| 0 <= i < shards@.len() ==> (#[trigger] shards@[i]).wf(),
    ensures
        r@.len() == hits(shards@, key_of(query@)).len(),
        forall|i: int| 0 <= i < r@.len() ==> describes(#[trigger] r@[i], hits(shards@, key_of(query@))[i]),
{
    let ghost q = key_of(query@);
    let mut results: Vec<FileResult> = Vec::new();
    let mut v: usize = 0;
    while v < shards.len()
        invariant
            q == key_of(query@),
            v <= shards@.len(),
            forall|i: int| 0 <= i < shards@.len() ==> (#[trigger] shards@[i]).wf(),
            results@.len() == hits(shards@.subrange(0, v as int), q).len(),
            forall|i: int| 0 <= i < results@.len()
                ==> describes(#[trigger] results@[i], hits(shards@.subrange(0, v as int), q)[i]),
        decreases shards@.len() - v,
    {
        let found = shards[v].starts_with(query.clone());
        let ghost before = hits(shards@.subrange(0, v as int), q);
        proof {
            assert(shards@.subrange(0, v + 1).drop_last() =~= shards@.subrange(0, v as int));
            if q.len() == 0 {
                assert(found@ =~= Seq::<String>::empty());
            }
            assert(found@ == shard_hits(shards@[v as int], q));
        }
        let ghost base = results@.len();
        let mut k: usize = 0;
        while k < found.len()
            invariant
                k <= found@.len(),
                base == before.len(),
                results@.len() == base + k,
                forall|i: int| 0 <= i < base ==> describes(#[trigger] results@[i], before[i]),
                forall|i: int| base <= i < results@.len() ==> describes(#[trigger] results@[i], found@[i - base]),
            decreases found@.len() - k,
        {
            results.push(FileResult::get_file_result(found[k].clone()));
            k += 1;
        }
        proof {
            let after = hits(shards@.subrange(0, v + 1), q);
            assert(after == before + found@);
            assert forall|i: int| 0 <= i < results@.len() implies describes(#[trigger] results@[i], after[i]) by {
                if i < base {
                    assert(after[i] == before[i]);
                } else {
                    assert(after[i] == found@[i - base]);
                }
            }
        }
        v += 1;
    }
    proof {
        assert(shards@.subrange(0, v as int) =~= shards@);
    }
    results
}

} // verus!
