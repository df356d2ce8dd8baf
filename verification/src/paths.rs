//! File paths as `/`-separated text: parent directory, file name and stem,
//! joining, and the part below a root.

use vstd::prelude::*;

use crate::text::{chars_of, slice_of, starts_with, string_of, trim_end_char, trim_end_matches};

verus! {

/// The last index of `c` in the first `k` chars of `s`, or -1.
pub open spec fn last_index_before(s: Seq<char>, c: char, k: int) -> int
    decreases k,
{
    if k <= 0 || k > s.len() {
        -1
    } else if s[k - 1] == c {
        k - 1
    } else {
        last_index_before(s, c, k - 1)
    }
}

/// The last index of `c` in `s`, or -1.
pub open spec fn last_index(s: Seq<char>, c: char) -> int {
    last_index_before(s, c, s.len() as int)
}

pub proof fn lemma_last_index_before(s: Seq<char>, c: char, k: int)
    requires
        0 <= k <= s.len(),
    ensures
        -1 <= last_index_before(s, c, k) < k,
        last_index_before(s, c, k) >= 0 ==> s[last_index_before(s, c, k)] == c,
        forall|j: int| last_index_before(s, c, k) < j < k ==> s[j] != c,
    decreases k,
{
    if k > 0 && s[k - 1] != c {
        lemma_last_index_before(s, c, k - 1);
    }
}

/// The last index of `c` in `s`.
pub fn find_last(s: &Vec<char>, c: char) -> (res: Option<usize>)
    ensures
        res matches Some(i) ==> last_index(s@, c) == i as int,
        res is None ==> last_index(s@, c) == -1,
{
    let mut k = s.len();
    while k > 0
        invariant
            k <= s.len(),
            last_index(s@, c) == last_index_before(s@, c, k as int),
        decreases k,
    {
        if s[k - 1] == c {
            return Some(k - 1);
        }
        k = k - 1;
    }
    None
}

/// `/`
pub open spec fn slash() -> Seq<char> {
    seq!['/']
}

/// The parent directory, as `Path::parent` gives it for a plain path:
/// everything before the last `/` (trailing ones ignored), `""` for a bare
/// name, `/` below the root, and none for the root or an empty path.
pub open spec fn parent_of(path: Seq<char>) -> Option<Seq<char>> {
    let t = trim_end_char(path, '/');
    if t.len() == 0 {
        None
    } else {
        let i = last_index(t, '/');
        if i < 0 {
            Some(Seq::empty())
        } else {
            let p = trim_end_char(t.take(i), '/');
            if p.len() == 0 {
                Some(slash())
            } else {
                Some(p)
            }
        }
    }
}

/// The last component of a path, as `Path::file_name` gives it for a plain
/// path: none for an empty path, the root, or a final `..`.
pub open spec fn file_name_of(path: Seq<char>) -> Option<Seq<char>> {
    let t = trim_end_char(path, '/');
    let name = t.skip(last_index(t, '/') + 1);
    if name.len() == 0 || name == seq!['.', '.'] {
        None
    } else {
        Some(name)
    }
}

/// A file name without its extension: what stands before the last `.`,
/// unless that `.` starts the name.
pub open spec fn stem_of_name(name: Seq<char>) -> Seq<char> {
    let i = last_index(name, '.');
    if i <= 0 {
        name
    } else {
        name.take(i)
    }
}

/// `base` joined with `rel`, as `Path::join` gives it: an absolute `rel`
/// replaces `base`, and a `/` goes between where `base` does not end in one.
pub open spec fn join_of(base: Seq<char>, rel: Seq<char>) -> Seq<char> {
    if rel.len() > 0 && rel[0] == '/' {
        rel
    } else if base.len() == 0 || base.last() == '/' {
        base + rel
    } else {
        base + slash() + rel
    }
}

/// `absolute` below `root`, or `absolute` itself where it is not below it.
pub open spec fn relative_of(root: Seq<char>, absolute: Seq<char>) -> Seq<char> {
    let r = trim_end_char(root, '/');
    if root.len() == 0 {
        absolute
    } else if absolute == r || absolute == root {
        Seq::empty()
    } else if (r + slash()).is_prefix_of(absolute) {
        trim_start_slashes(absolute.skip(r.len() + 1 as int))
    } else {
        absolute
    }
}

/// `s` without leading `/`.
pub open spec fn trim_start_slashes(s: Seq<char>) -> Seq<char>
    decreases s.len(),
{
    if s.len() > 0 && s[0] == '/' {
        trim_start_slashes(s.drop_first())
    } else {
        s
    }
}

fn trim_start_slash(s: &Vec<char>) -> (res: Vec<char>)
    ensures
        res@ == trim_start_slashes(s@),
{
    let mut i: usize = 0;
    assert(s@.skip(0) =~= s@);
    while i < s.len() && s[i] == '/'
        invariant
            i <= s.len(),
            trim_start_slashes(s@) == trim_start_slashes(s@.skip(i as int)),
        decreases s.len() - i,
    {
        assert(s@.skip(i as int).drop_first() =~= s@.skip(i + 1));
        i = i + 1;
    }
    if i < s.len() {
        assert(s@.skip(i as int)[0] == s@[i as int]);
    }
    slice_of(s, i, s.len())
}

/// The parent directory of `path`.
pub fn parent(path: &str) -> (res: Option<String>)
    ensures
        res matches Some(p) ==> parent_of(path@) == Some(p@),
        res is None ==> parent_of(path@) is None,
{
    let chars = chars_of(path);
    let t = trim_end_matches(&chars, '/');
    if t.len() == 0 {
        return None;
    }
    proof {
        lemma_last_index_before(t@, '/', t@.len() as int);
    }
    match find_last(&t, '/') {
        None => {
            let e: Vec<char> = Vec::new();
            assert(e@ =~= Seq::<char>::empty());
            Some(string_of(e.as_slice()))
        },
        Some(i) => {
            let head = slice_of(&t, 0, i);
            assert(head@ =~= t@.take(i as int));
            let p = trim_end_matches(&head, '/');
            if p.len() == 0 {
                let s = vec!['/'];
                assert(s@ =~= slash());
                Some(string_of(s.as_slice()))
            } else {
                Some(string_of(p.as_slice()))
            }
        },
    }
}

/// The last component of `path`.
pub fn file_name(path: &str) -> (res: Option<String>)
    ensures
        res matches Some(n) ==> file_name_of(path@) == Some(n@),
        res is None ==> file_name_of(path@) is None,
{
    let chars = chars_of(path);
    let t = trim_end_matches(&chars, '/');
    proof {
        lemma_last_index_before(t@, '/', t@.len() as int);
    }
    let start = match find_last(&t, '/') {
        Some(i) => i + 1,
        None => 0,
    };
    proof {
        lemma_last_index_before(t@, '/', t@.len() as int);
    }
    let name = slice_of(&t, start, t.len());
    assert(name@ =~= t@.skip(last_index(t@, '/') + 1));
    let dots = vec!['.', '.'];
    assert(dots@ =~= seq!['.', '.']);
    if name.len() == 0 || crate::text::seq_eq(&name, &dots) {
        None
    } else {
        Some(string_of(name.as_slice()))
    }
}

/// The stem of a file name.
pub fn stem_of(name: &Vec<char>) -> (res: Vec<char>)
    ensures
        res@ == stem_of_name(name@),
{
    proof {
        lemma_last_index_before(name@, '.', name@.len() as int);
    }
    match find_last(name, '.') {
        Some(i) => {
            if i == 0 {
                slice_of(name, 0, name.len())
            } else {
                let r = slice_of(name, 0, i);
                assert(r@ =~= name@.take(i as int));
                r
            }
        },
        None => {
            let r = slice_of(name, 0, name.len());
            assert(r@ =~= name@);
            r
        },
    }
}

/// `base` joined with `rel`.
pub fn join(base: &str, rel: &str) -> (res: String)
    ensures
        res@ == join_of(base@, rel@),
{
    let b = chars_of(base);
    let r = chars_of(rel);
    if r.len() > 0 && r[0] == '/' {
        return string_of(r.as_slice());
    }
    let mut out = slice_of(&b, 0, b.len());
    assert(out@ =~= b@);
    if !(b.len() == 0 || b[b.len() - 1] == '/') {
        out.push('/');
    }
    let ghost before = out@;
    let mut i: usize = 0;
    while i < r.len()
        invariant
            i <= r.len(),
            out@ == before + r@.take(i as int),
        decreases r.len() - i,
    {
        out.push(r[i]);
        i = i + 1;
        assert(out@ =~= before + r@.take(i as int));
    }
    assert(r@.take(r.len() as int) =~= r@);
    assert(out@ =~= join_of(base@, rel@));
    string_of(out.as_slice())
}

/// `absolute` below `root`, or `absolute` itself where it is not below it.
pub fn relative(root: &str, absolute: &str) -> (res: String)
    ensures
        res@ == relative_of(root@, absolute@),
{
    let rc = chars_of(root);
    let ac = chars_of(absolute);
    if rc.len() == 0 {
        return string_of(ac.as_slice());
    }
    let r = trim_end_matches(&rc, '/');
    if crate::text::seq_eq(&ac, &r) || crate::text::seq_eq(&ac, &rc) {
        let e: Vec<char> = Vec::new();
        assert(e@ =~= Seq::<char>::empty());
        return string_of(e.as_slice());
    }
    let mut pre = slice_of(&r, 0, r.len());
    pre.push('/');
    assert(pre@ =~= r@ + slash());
    if starts_with(&ac, &pre) {
        let rest = slice_of(&ac, pre.len(), ac.len());
        assert(rest@ =~= ac@.skip(r@.len() + 1 as int));
        let t = trim_start_slash(&rest);
        string_of(t.as_slice())
    } else {
        string_of(ac.as_slice())
    }
}

} // verus!
