//! Which paths the index leaves out, and what a change event does to it.
use vstd::prelude::*;
use crate::paths::{base_name, chars_of, file_name};

verus! {

/// `pat` occurs in `s` as a contiguous run.
pub open spec fn is_infix(pat: Seq<char>, s: Seq<char>) -> bool {
    exists|k: int| 0 <= k && k + pat.len() <= s.len() && #[trigger] s.subrange(k, k + pat.len()) == pat
}

/// A path is left out when it contains one of `contains` or starts with one
/// of `prefixes`.
pub open spec fn ignored(contains: Seq<String>, prefixes: Seq<String>, p: Seq<char>) -> bool {
    (exists|i: int| 0 <= i < contains.len() && is_infix(#[trigger] contains[i]@, p))
    || (exists|i: int| 0 <= i < prefixes.len() && (#[trigger] prefixes[i]@).is_prefix_of(p))
}

/// The paths that neither the scan nor the change handling index: noise
/// directories and the index's own files, as two lists of patterns.
pub struct IgnoreRules {
    /// A path that contains one of these is left out.
    pub contains: Vec<String>,
    /// A path that starts with one of these is left out.
    pub prefixes: Vec<String>,
}

fn matches_at(s: &Vec<char>, pat: &Vec<char>, k: usize) -> (r: bool)
    requires
        k + pat@.len() <= s@.len(),
    ensures
        r == (s@.subrange(k as int, k + pat@.len()) == pat@),
{
    let n = s.len();
    let mut j: usize = 0;
    while j < pat.len()
        invariant
            n == s@.len(),
            k + pat@.len() <= s@.len(),
            j <= pat@.len(),
            forall|j0: int| 0 <= j0 < j ==> s@[k + j0] == pat@[j0],
        decreases pat@.len() - j,
    {
        if s[k + j] != pat[j] {
            proof {
                assert(s@.subrange(k as int, k + pat@.len())[j as int] != pat@[j as int]);
            }
            return false;
        }
        j += 1;
    }
    proof {
        assert(s@.subrange(k as int, k + pat@.len()) =~= pat@);
    }
    true
}

/// Whether `pat` occurs in `s`.
pub fn contains_chars(s: &Vec<char>, pat: &Vec<char>) -> (r: bool)
    ensures
        r == is_infix(pat@, s@),
{
    if pat.len() > s.len() {
        return false;
    }
    let last = s.len() - pat.len();
    let mut k: usize = 0;
    loop
        invariant
            last + pat@.len() == s@.len(),
            k <= last,
            forall|k0: int| 0 <= k0 < k ==> #[trigger] s@.subrange(k0, k0 + pat@.len()) != pat@,
        decreases last - k,
    {
        if matches_at(s, pat, k) {
            return true;
        }
        if k == last {
            return false;
        }
        k += 1;
    }
}

/// The texts of a list of strings.
pub open spec fn texts(v: Seq<String>) -> Seq<Seq<char>> {
    v.map_values(|s: String| s@)
}

impl IgnoreRules {
    /// The one set of patterns that both the initial scan and the change
    /// handling use: system and profile directories, package caches, version
    /// control, build output, hidden and special entries, and the index's
    /// own shard files.
    pub fn standard() -> (r: IgnoreRules)
        ensures
            texts(r.contains@) == seq![
                "AppData"@, "ProgramData"@, "Windows"@, "Windows.old"@, "Program Files"@,
                "node_modules"@, "\\target\\debug"@, ".git"@, "$"@, ".data"@,
            ],
            texts(r.prefixes@) == seq!["System"@, ".\\"@, "./"@],
    {
        let contains = vec![
            "AppData".to_owned(), "ProgramData".to_owned(), "Windows".to_owned(),
            "Windows.old".to_owned(), "Program Files".to_owned(), "node_modules".to_owned(),
            "\\target\\debug".to_owned(), ".git".to_owned(), "$".to_owned(), ".data".to_owned(),
        ];
        let prefixes = vec!["System".to_owned(), ".\\".to_owned(), "./".to_owned()];
        let r = IgnoreRules { contains, prefixes };
        assert(texts(r.contains@) =~= seq![
            "AppData"@, "ProgramData"@, "Windows"@, "Windows.old"@, "Program Files"@,
            "node_modules"@, "\\target\\debug"@, ".git"@, "$"@, ".data"@,
        ]);
        assert(texts(r.prefixes@) =~= seq!["System"@, ".\\"@, "./"@]);
        r
    }

    pub open spec fn ignores(&self, p: Seq<char>) -> bool {
        ignored(self.contains@, self.prefixes@, p)
    }

    /// Whether `path` is left out of the index.
    pub fn is_ignored(&self, path: &str) -> (r: bool)
        ensures
            r == self.ignores(path@),
    {
        let s = chars_of(path);
        let mut i: usize = 0;
        while i < self.contains.len()
            invariant
                s@ == path@,
                i <= self.contains@.len(),
                forall|i0: int| 0 <= i0 < i ==> !is_infix(#[trigger] self.contains@[i0]@, path@),
            decreases self.contains@.len() - i,
        {
            let pat = chars_of(self.contains[i].as_str());
            if contains_chars(&s, &pat) {
                return true;
            }
            i += 1;
        }
        let mut i: usize = 0;
        while i < self.prefixes.len()
            invariant
                s@ == path@,
                i <= self.prefixes@.len(),
                forall|i0: int| 0 <= i0 < self.contains@.len() ==> !is_infix(#[trigger] self.contains@[i0]@, path@),
                forall|i0: int| 0 <= i0 < i ==> !(#[trigger] self.prefixes@[i0]@).is_prefix_of(path@),
            decreases self.prefixes@.len() - i,
        {
            let pat = chars_of(self.prefixes[i].as_str());
            if pat.len() <= s.len() && matches_at(&s, &pat, 0) {
                return true;
            }
            i += 1;
        }
        false
    }
}

/// A filesystem change, as far as the index cares.
pub enum ChangeKind {
    Create,
    Remove,
    /// The old name of a renamed entry.
    RenameFrom,
    /// The new name of a renamed entry.
    RenameTo,
    /// A change of content only.
    Modify,
    Other,
}

/// One entry to add to or drop from a volume's index.
pub struct IndexChange {
    /// The volume: the first character of the path.
    pub volume: char,
    /// The name to index: the path's final component.
    pub name: String,
    /// The full path.
    pub location: String,
}

/// What an event asks of the index.
pub enum IndexAction {
    Insert(IndexChange),
    Remove(IndexChange),
    Skip,
}

/// Some path of the event is left out.
pub open spec fn any_ignored(rules: IgnoreRules, paths: Seq<String>) -> bool {
    exists|i: int| 0 <= i < paths.len() && rules.ignores(#[trigger] paths[i]@)
}

/// The event names a path, none is left out, the first one has a name, and
/// the kind is one that changes the index.
pub open spec fn acts_on(kind: ChangeKind, paths: Seq<String>, rules: IgnoreRules) -> bool {
    &&& paths.len() > 0
    &&& !any_ignored(rules, paths)
    &&& base_name(paths[0]@).len() > 0
    &&& !(kind is Modify)
    &&& !(kind is Other)
}

/// The entry that a path stands for.
pub open spec fn change_for(c: IndexChange, p: String) -> bool {
    &&& p@.len() > 0
    &&& c.volume == p@[0]
    &&& c.name@ == base_name(p@)
    &&& c.location == p
}

/// Decide what a change event does to the index: creations and the new half
/// of a rename insert the first path, removals and the old half of a rename
/// remove it, anything else, or an event that touches a left-out path, does
/// nothing.
pub fn handle_event(kind: ChangeKind, paths: &Vec<String>, rules: &IgnoreRules) -> (r: IndexAction)
    ensures
        !acts_on(kind, paths@, *rules) ==> r is Skip,
        acts_on(kind, paths@, *rules) && (kind is Create || kind is RenameTo)
            ==> r is Insert && change_for(r->Insert_0, paths@[0]),
        acts_on(kind, paths@, *rules) && (kind is Remove || kind is RenameFrom)
            ==> r is Remove && change_for(r->Remove_0, paths@[0]),
{
    let mut i: usize = 0;
    while i < paths.len()
        invariant
            i <= paths@.len(),
            forall|i0: int| 0 <= i0 < i ==> !rules.ignores(#[trigger] paths@[i0]@),
        decreases paths@.len() - i,
    {
        if rules.is_ignored(paths[i].as_str()) {
            return IndexAction::Skip;
        }
        i += 1;
    }
    if paths.len() == 0 {
        return IndexAction::Skip;
    }
    let inserting = match kind {
        ChangeKind::Create => true,
        ChangeKind::RenameTo => true,
        ChangeKind::Remove => false,
        ChangeKind::RenameFrom => false,
        _ => {
            return IndexAction::Skip;
        },
    };
    let path = &paths[0];
    let name = file_name(path.as_str());
    let chars = chars_of(path.as_str());
    let name_chars = chars_of(name.as_str());
    if name_chars.len() == 0 || chars.len() == 0 {
        proof {
            if chars@.len() == 0 {
                assert(base_name(path@) =~= Seq::<char>::empty());
            }
        }
        return IndexAction::Skip;
    }
    let change = IndexChange { volume: chars[0], name, location: path.clone() };
    if inserting {
        IndexAction::Insert(change)
    } else {
        IndexAction::Remove(change)
    }
}

} // verus!
