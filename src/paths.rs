//! Splitting a recorded location into the parts shown for a search hit.
//! Both `\` and `/` separate directories.
use vstd::prelude::*;

verus! {

pub open spec fn is_sep(c: char) -> bool {
    c == '\\' || c == '/'
}

/// Index of the last directory separator of `s`, or -1 when there is none.
pub open spec fn last_sep(s: Seq<char>) -> int
    decreases s.len(),
{
    if s.len() == 0 {
        -1
    } else if is_sep(s.last()) {
        s.len() - 1
    } else {
        last_sep(s.drop_last())
    }
}

/// Index of the last `.` of `s`, or -1 when there is none.
pub open spec fn last_dot(s: Seq<char>) -> int
    decreases s.len(),
{
    if s.len() == 0 {
        -1
    } else if s.last() == '.' {
        s.len() - 1
    } else {
        last_dot(s.drop_last())
    }
}

/// Length of `s` once its trailing separators are dropped.
pub open spec fn trimmed_len(s: Seq<char>) -> int
    decreases s.len(),
{
    if s.len() > 0 && is_sep(s.last()) {
        trimmed_len(s.drop_last())
    } else {
        s.len() as int
    }
}

/// `s` without its trailing separators.
pub open spec fn trim_seps(s: Seq<char>) -> Seq<char> {
    s.subrange(0, trimmed_len(s))
}

/// A bare drive prefix such as `C:`.
pub open spec fn is_drive(s: Seq<char>) -> bool {
    s.len() == 2 && s[1] == ':'
}

/// The final component of a path: what follows its last separator, once
/// trailing separators are dropped; empty for a root or a bare drive.
pub open spec fn base_name(s: Seq<char>) -> Seq<char> {
    let t = trim_seps(s);
    if is_drive(t) {
        Seq::empty()
    } else {
        t.subrange(last_sep(t) + 1, t.len() as int)
    }
}

/// The directory that holds the final component: what precedes the last
/// separator, without trailing separators, except that a root (`/`) or a
/// drive root (`C:\`) keeps its separator. Empty when there is no
/// separator, or for a root or a bare drive.
pub open spec fn parent_dir(s: Seq<char>) -> Seq<char> {
    let t = trim_seps(s);
    let i = last_sep(t);
    if i < 0 || is_drive(t) {
        Seq::empty()
    } else {
        let h = trim_seps(t.subrange(0, i));
        if h.len() == 0 {
            t.subrange(0, 1)
        } else if is_drive(h) {
            t.subrange(0, 3)
        } else {
            h
        }
    }
}

/// What follows the last `.` of a name, unless that dot opens the name.
pub open spec fn extension_of(name: Seq<char>) -> Seq<char> {
    if last_dot(name) > 0 {
        name.subrange(last_dot(name) + 1, name.len() as int)
    } else {
        Seq::empty()
    }
}

/// Relies on std's `str::chars`: the characters of `s`, in order.
#[verifier::external_body]
pub(crate) fn chars_of(s: &str) -> (r: Vec<char>)
    ensures
        r@ == s@,
{
    s.chars().collect()
}

/// Relies on std's `FromIterator<char>` for `String`: the string made of
/// the characters `c[from..to]`, in order.
#[verifier::external_body]
pub(crate) fn string_of(c: &Vec<char>, from: usize, to: usize) -> (r: String)
    requires
        from <= to <= c@.len(),
    ensures
        r@ == c@.subrange(from as int, to as int),
{
    String::from_iter(c[from..to].iter())
}

proof fn lemma_last_sep_range(s: Seq<char>)
    ensures
        -1 <= last_sep(s) < s.len(),
        last_sep(s) >= 0 ==> is_sep(s[last_sep(s)]),
    decreases s.len(),
{
    if s.len() > 0 && !is_sep(s.last()) {
        lemma_last_sep_range(s.drop_last());
    }
}

proof fn lemma_last_dot_range(s: Seq<char>)
    ensures
        -1 <= last_dot(s) < s.len(),
    decreases s.len(),
{
    if s.len() > 0 && s.last() != '.' {
        lemma_last_dot_range(s.drop_last());
    }
}

proof fn lemma_trimmed_range(s: Seq<char>)
    ensures
        0 <= trimmed_len(s) <= s.len(),
    decreases s.len(),
{
    if s.len() > 0 && is_sep(s.last()) {
        lemma_trimmed_range(s.drop_last());
    }
}

/// Position of the last separator in `c[..n]`, if any.
pub fn find_last_sep(c: &Vec<char>, n: usize) -> (r: Option<usize>)
    requires
        n <= c@.len(),
    ensures
        r == (if last_sep(c@.subrange(0, n as int)) >= 0 {
            Some(last_sep(c@.subrange(0, n as int)) as usize)
        } else {
            None::<usize>
        }),
{
    let mut i: usize = n;
    while i > 0
        invariant
            i <= n <= c@.len(),
            last_sep(c@.subrange(0, n as int)) == last_sep(c@.subrange(0, i as int)),
        decreases i,
    {
        proof {
            assert(c@.subrange(0, i as int).drop_last() =~= c@.subrange(0, i - 1));
        }
        if c[i - 1] == '\\' || c[i - 1] == '/' {
            return Some(i - 1);
        }
        i -= 1;
    }
    None
}

/// Length of `c[..n]` once its trailing separators are dropped.
pub fn trim_len(c: &Vec<char>, n: usize) -> (r: usize)
    requires
        n <= c@.len(),
    ensures
        r == trimmed_len(c@.subrange(0, n as int)),
{
    let mut i: usize = n;
    while i > 0 && (c[i - 1] == '\\' || c[i - 1] == '/')
        invariant
            i <= n <= c@.len(),
            trimmed_len(c@.subrange(0, n as int)) == trimmed_len(c@.subrange(0, i as int)),
        decreases i,
    {
        proof {
            assert(c@.subrange(0, i as int).drop_last() =~= c@.subrange(0, i - 1));
        }
        i -= 1;
    }
    i
}

/// Where the final component of `c` lies, `c[r.0..r.1]`, and where its
/// directory ends, `c[..r.2]`.
pub fn split_path(c: &Vec<char>) -> (r: (usize, usize, usize))
    ensures
        r.0 <= r.1 <= c@.len(),
        r.2 <= c@.len(),
        c@.subrange(r.0 as int, r.1 as int) == base_name(c@),
        c@.subrange(0, r.2 as int) == parent_dir(c@),
{
    let n = c.len();
    proof {
        assert(c@.subrange(0, n as int) =~= c@);
        lemma_trimmed_range(c@);
    }
    let tl = trim_len(c, n);
    let ghost t = c@.subrange(0, tl as int);
    proof {
        lemma_last_sep_range(t);
    }
    if tl == 2 && c[1] == ':' {
        assert(c@.subrange(0, 0) =~= Seq::<char>::empty());
        return (0, 0, 0);
    }
    match find_last_sep(c, tl) {
        None => {
            assert(c@.subrange(0, 0) =~= Seq::<char>::empty());
            assert(t.subrange(0, tl as int) =~= c@.subrange(0, tl as int));
            (0, tl, 0)
        },
        Some(i) => {
            proof {
                assert(t.subrange(i + 1, tl as int) =~= c@.subrange(i + 1, tl as int));
                assert(t.subrange(0, i as int) =~= c@.subrange(0, i as int));
                lemma_trimmed_range(c@.subrange(0, i as int));
            }
            let hl = trim_len(c, i);
            let ghost h = c@.subrange(0, i as int).subrange(0, hl as int);
            proof {
                assert(h =~= c@.subrange(0, hl as int));
            }
            let p = if hl == 0 {
                assert(t.subrange(0, 1) =~= c@.subrange(0, 1));
                1
            } else if hl == 2 && c[1] == ':' {
                assert(t.subrange(0, 3) =~= c@.subrange(0, 3));
                3
            } else {
                hl
            };
            (i + 1, tl, p)
        },
    }
}

/// Position of the last `.` in `c`, if any.
pub fn find_last_dot(c: &[char]) -> (r: Option<usize>)
    ensures
        r == (if last_dot(c@) >= 0 { Some(last_dot(c@) as usize) } else { None::<usize> }),
{
    let mut i: usize = c.len();
    proof {
        assert(c@.subrange(0, i as int) =~= c@);
    }
    while i > 0
        invariant
            i <= c@.len(),
            last_dot(c@) == last_dot(c@.subrange(0, i as int)),
        decreases i,
    {
        proof {
            assert(c@.subrange(0, i as int).drop_last() =~= c@.subrange(0, i - 1));
        }
        if c[i - 1] == '.' {
            return Some(i - 1);
        }
        i -= 1;
    }
    None
}

/// The final component of `path`.
pub fn file_name(path: &str) -> (r: String)
    ensures
        r@ == base_name(path@),
{
    let c = chars_of(path);
    let (a, b, _) = split_path(&c);
    string_of(&c, a, b)
}

/// What a search shows for a recorded location.
pub struct FileResult {
    /// The final component.
    pub name: String,
    /// The location itself.
    pub path: String,
    /// The directory holding it.
    pub location: String,
    /// Its extension, without the dot; empty when it has none.
    pub file_type: String,
}

impl FileResult {
    /// Split a recorded location into name, directory and extension.
    pub fn get_file_result(path: String) -> (r: FileResult)
        ensures
            r.name@ == base_name(path@),
            r.path == path,
            r.location@ == parent_dir(path@),
            r.file_type@ == extension_of(base_name(path@)),
    {
        let c = chars_of(path.as_str());
        let (a, b, e) = split_path(&c);
        let name = string_of(&c, a, b);
        let location = string_of(&c, 0, e);
        let name_chars = chars_of(name.as_str());
        proof {
            lemma_last_dot_range(name_chars@);
        }
        let file_type = match find_last_dot(name_chars.as_slice()) {
            Some(d) => if d > 0 {
                string_of(&name_chars, d + 1, name_chars.len())
            } else {
                String::new()
            },
            None => String::new(),
        };
        FileResult { name, path, location, file_type }
    }
}

} // verus!
