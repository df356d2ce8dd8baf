//! Text as sequences of chars: trimming, prefix tests, splitting on `::`
//! and joining with it. Every operation is stated over `Seq<char>`.

use vstd::prelude::*;

verus! {

/// Unicode `White_Space`, the property `char::is_whitespace` tests.
pub open spec fn is_ws(c: char) -> bool {
    ||| ('\u{9}' <= c && c <= '\u{d}')
    ||| c == ' '
    ||| c == '\u{85}'
    ||| c == '\u{a0}'
    ||| c == '\u{1680}'
    ||| ('\u{2000}' <= c && c <= '\u{200a}')
    ||| c == '\u{2028}'
    ||| c == '\u{2029}'
    ||| c == '\u{202f}'
    ||| c == '\u{205f}'
    ||| c == '\u{3000}'
}

/// `s` without its leading whitespace.
pub open spec fn trim_start_seq(s: Seq<char>) -> Seq<char>
    decreases s.len(),
{
    if s.len() > 0 && is_ws(s[0]) {
        trim_start_seq(s.drop_first())
    } else {
        s
    }
}

/// `s` without its trailing whitespace.
pub open spec fn trim_end_seq(s: Seq<char>) -> Seq<char>
    decreases s.len(),
{
    if s.len() > 0 && is_ws(s.last()) {
        trim_end_seq(s.drop_last())
    } else {
        s
    }
}

/// `s` without leading and trailing whitespace, as `str::trim` gives it.
pub open spec fn trim_seq(s: Seq<char>) -> Seq<char> {
    trim_end_seq(trim_start_seq(s))
}

/// `s` without every trailing `c`, as `str::trim_end_matches(c)` gives it.
pub open spec fn trim_end_char(s: Seq<char>, c: char) -> Seq<char>
    decreases s.len(),
{
    if s.len() > 0 && s.last() == c {
        trim_end_char(s.drop_last(), c)
    } else {
        s
    }
}

/// `s` without every trailing copy of `pat`, as `str::trim_end_matches(pat)`.
pub open spec fn trim_end_pat(s: Seq<char>, pat: Seq<char>) -> Seq<char>
    decreases s.len(),
{
    if pat.len() > 0 && pat.is_suffix_of(s) {
        trim_end_pat(s.take(s.len() - pat.len()), pat)
    } else {
        s
    }
}

/// The text after `prefix`, where `s` starts with it.
pub open spec fn strip_prefix_seq(s: Seq<char>, prefix: Seq<char>) -> Option<Seq<char>> {
    if prefix.is_prefix_of(s) {
        Some(s.skip(prefix.len() as int))
    } else {
        None
    }
}

/// Whether `pat` occurs in `s` at position `i`.
pub open spec fn occurs_at(s: Seq<char>, pat: Seq<char>, i: int) -> bool {
    &&& 0 <= i
    &&& i + pat.len() <= s.len()
    &&& s.subrange(i, i + pat.len()) == pat
}

/// The first position at or after `i` where `pat` occurs, or -1.
pub open spec fn find_from(s: Seq<char>, pat: Seq<char>, i: int) -> int
    decreases s.len() + 1 - i,
{
    if i < 0 || i + pat.len() > s.len() {
        -1
    } else if occurs_at(s, pat, i) {
        i
    } else {
        find_from(s, pat, i + 1)
    }
}

/// What `find_from` finds is an occurrence, and the first one from `i` on.
pub proof fn lemma_find_from(s: Seq<char>, pat: Seq<char>, i: int)
    requires
        0 <= i,
    ensures
        find_from(s, pat, i) >= -1,
        find_from(s, pat, i) >= 0 ==> occurs_at(s, pat, find_from(s, pat, i)) && i <= find_from(
            s,
            pat,
            i,
        ),
        forall|j: int|
            i <= j && (find_from(s, pat, i) < 0 || j < find_from(s, pat, i)) ==> !occurs_at(
                s,
                pat,
                j,
            ),
    decreases s.len() + 1 - i,
{
    if i + pat.len() > s.len() {
    } else if occurs_at(s, pat, i) {
    } else {
        lemma_find_from(s, pat, i + 1);
    }
}

/// The separator of path segments.
pub open spec fn colons() -> Seq<char> {
    seq![':', ':']
}

/// The pieces of `s` between the occurrences of `pat`, left to right, as
/// `str::split(pat)` gives them for a non-empty pattern. Never empty.
pub open spec fn split_seq(s: Seq<char>, pat: Seq<char>) -> Seq<Seq<char>>
    decreases s.len(),
{
    let i = find_from(s, pat, 0);
    if pat.len() == 0 || i < 0 {
        seq![s]
    } else {
        proof {
            lemma_find_from(s, pat, 0);
        }
        seq![s.take(i)] + split_seq(s.skip(i + pat.len()), pat)
    }
}

/// A split has at least one piece; the first is what stands before the
/// first occurrence.
pub proof fn lemma_split_first(s: Seq<char>, pat: Seq<char>)
    ensures
        split_seq(s, pat).len() >= 1,
        pat.len() > 0 && find_from(s, pat, 0) >= 0 ==> split_seq(s, pat)[0] == s.take(
            find_from(s, pat, 0),
        ),
        pat.len() == 0 || find_from(s, pat, 0) < 0 ==> split_seq(s, pat) == seq![s],
{
}

/// The pieces of `s` between the occurrences of `::`, as `str::split("::")`.
pub open spec fn split_colons(s: Seq<char>) -> Seq<Seq<char>> {
    split_seq(s, colons())
}

/// A line of `str::lines`: without its `\n`, and then without a `\r` before it.
pub open spec fn strip_line_end(piece: Seq<char>) -> Seq<char> {
    if piece.len() > 0 && piece.last() == '\n' {
        let p = piece.drop_last();
        if p.len() > 0 && p.last() == '\r' {
            p.drop_last()
        } else {
            p
        }
    } else {
        piece
    }
}

/// The lines of `s`, as `str::lines` gives them: split after each `\n`, a
/// final empty piece dropped, each line without its line ending.
pub open spec fn lines_seq(s: Seq<char>) -> Seq<Seq<char>>
    decreases s.len(),
{
    if s.len() == 0 {
        Seq::empty()
    } else {
        let i = find_from(s, seq!['\n'], 0);
        if i < 0 {
            seq![s]
        } else {
            proof {
                lemma_find_from(s, seq!['\n'], 0);
            }
            seq![strip_line_end(s.take(i + 1))] + lines_seq(s.skip(i + 1))
        }
    }
}

/// The pieces joined with `::` between them, as `[T]::join("::")` gives it.
pub open spec fn join_colons(parts: Seq<Seq<char>>) -> Seq<char>
    decreases parts.len(),
{
    if parts.len() == 0 {
        Seq::empty()
    } else if parts.len() == 1 {
        parts[0]
    } else {
        join_colons(parts.drop_last()) + colons() + parts.last()
    }
}

/// The chars of a string, in order.
#[verifier::external_body]
pub fn chars_of(s: &str) -> (res: Vec<char>)
    ensures
        res@ == s@,
{
    s.chars().collect()
}

/// The string made of `chars`.
#[verifier::external_body]
pub fn string_of(chars: &[char]) -> (res: String)
    ensures
        res@ == chars@,
{
    chars.iter().collect()
}

/// Whether `c` is Unicode whitespace.
pub fn is_whitespace(c: char) -> (res: bool)
    ensures
        res == is_ws(c),
{
    ('\u{9}' <= c && c <= '\u{d}') || c == ' ' || c == '\u{85}' || c == '\u{a0}' || c == '\u{1680}'
        || ('\u{2000}' <= c && c <= '\u{200a}') || c == '\u{2028}' || c == '\u{2029}' || c
        == '\u{202f}' || c == '\u{205f}' || c == '\u{3000}'
}

/// A copy of `s[from..to]`.
pub fn slice_of(s: &Vec<char>, from: usize, to: usize) -> (res: Vec<char>)
    requires
        from <= to <= s.len(),
    ensures
        res@ == s@.subrange(from as int, to as int),
{
    let mut res: Vec<char> = Vec::new();
    let mut i = from;
    while i < to
        invariant
            from <= i <= to <= s.len(),
            res@ == s@.subrange(from as int, i as int),
        decreases to - i,
    {
        res.push(s[i]);
        i = i + 1;
        assert(res@ =~= s@.subrange(from as int, i as int));
    }
    res
}

/// Whether two char sequences are equal.
pub fn seq_eq(a: &Vec<char>, b: &Vec<char>) -> (res: bool)
    ensures
        res == (a@ == b@),
{
    if a.len() != b.len() {
        return false;
    }
    let mut i: usize = 0;
    while i < a.len()
        invariant
            a.len() == b.len(),
            i <= a.len(),
            forall|j: int| 0 <= j < i ==> a@[j] == b@[j],
        decreases a.len() - i,
    {
        if a[i] != b[i] {
            return false;
        }
        i = i + 1;
    }
    assert(a@ =~= b@);
    true
}

/// Whether `s` starts with `p`.
pub fn starts_with(s: &Vec<char>, p: &Vec<char>) -> (res: bool)
    ensures
        res == p@.is_prefix_of(s@),
{
    if p.len() > s.len() {
        return false;
    }
    let mut i: usize = 0;
    while i < p.len()
        invariant
            p.len() <= s.len(),
            i <= p.len(),
            forall|j: int| 0 <= j < i ==> p@[j] == s@[j],
        decreases p.len() - i,
    {
        if p[i] != s[i] {
            return false;
        }
        i = i + 1;
    }
    true
}

/// Whether `s` ends with `p`.
pub fn ends_with(s: &Vec<char>, p: &Vec<char>) -> (res: bool)
    ensures
        res == p@.is_suffix_of(s@),
{
    if p.len() > s.len() {
        return false;
    }
    let off = s.len() - p.len();
    let mut i: usize = 0;
    while i < p.len()
        invariant
            p.len() <= s.len(),
            off == s.len() - p.len(),
            i <= p.len(),
            forall|j: int| 0 <= j < i ==> p@[j] == s@[off + j],
        decreases p.len() - i,
    {
        if p[i] != s[off + i] {
            return false;
        }
        i = i + 1;
    }
    true
}

/// `s` without its prefix `p`, where it has one.
pub fn strip_prefix(s: &Vec<char>, p: &Vec<char>) -> (res: Option<Vec<char>>)
    ensures
        res matches Some(r) ==> strip_prefix_seq(s@, p@) == Some(r@),
        res is None ==> strip_prefix_seq(s@, p@) is None,
{
    if starts_with(s, p) {
        Some(slice_of(s, p.len(), s.len()))
    } else {
        None
    }
}

/// `s` without leading whitespace.
pub fn trim_start(s: &Vec<char>) -> (res: Vec<char>)
    ensures
        res@ == trim_start_seq(s@),
{
    let mut i: usize = 0;
    assert(s@.skip(0) =~= s@);
    while i < s.len() && is_whitespace(s[i])
        invariant
            i <= s.len(),
            trim_start_seq(s@) == trim_start_seq(s@.skip(i as int)),
        decreases s.len() - i,
    {
        assert(s@.skip(i as int).drop_first() =~= s@.skip(i + 1));
        i = i + 1;
    }
    if i == s.len() {
        assert(s@.skip(i as int).len() == 0);
    } else {
        assert(s@.skip(i as int)[0] == s@[i as int]);
    }
    slice_of(s, i, s.len())
}

/// `s` without trailing whitespace.
pub fn trim_end(s: &Vec<char>) -> (res: Vec<char>)
    ensures
        res@ == trim_end_seq(s@),
{
    let mut j: usize = s.len();
    assert(s@.take(j as int) =~= s@);
    while j > 0 && is_whitespace(s[j - 1])
        invariant
            j <= s.len(),
            trim_end_seq(s@) == trim_end_seq(s@.take(j as int)),
        decreases j,
    {
        assert(s@.take(j as int).drop_last() =~= s@.take(j - 1));
        j = j - 1;
    }
    if j > 0 {
        assert(s@.take(j as int).last() == s@[j - 1]);
    }
    assert(s@.take(j as int) =~= s@.subrange(0, j as int));
    slice_of(s, 0, j)
}

/// `s` without leading and trailing whitespace.
pub fn trim(s: &Vec<char>) -> (res: Vec<char>)
    ensures
        res@ == trim_seq(s@),
{
    let t = trim_start(s);
    trim_end(&t)
}

/// `s` without every trailing `c`.
pub fn trim_end_matches(s: &Vec<char>, c: char) -> (res: Vec<char>)
    ensures
        res@ == trim_end_char(s@, c),
{
    let mut j: usize = s.len();
    assert(s@.take(j as int) =~= s@);
    while j > 0 && s[j - 1] == c
        invariant
            j <= s.len(),
            trim_end_char(s@, c) == trim_end_char(s@.take(j as int), c),
        decreases j,
    {
        assert(s@.take(j as int).drop_last() =~= s@.take(j - 1));
        j = j - 1;
    }
    if j > 0 {
        assert(s@.take(j as int).last() == s@[j - 1]);
    }
    assert(s@.take(j as int) =~= s@.subrange(0, j as int));
    slice_of(s, 0, j)
}

/// Whether `pat` occurs in `s` at `i`.
pub fn occurs(s: &Vec<char>, pat: &Vec<char>, i: usize) -> (res: bool)
    ensures
        res == occurs_at(s@, pat@, i as int),
{
    if i > s.len() || pat.len() > s.len() - i {
        return false;
    }
    let mut k: usize = 0;
    while k < pat.len()
        invariant
            i + pat.len() <= s.len(),
            k <= pat.len(),
            forall|j: int| 0 <= j < k ==> pat@[j] == s@[i + j],
        decreases pat.len() - k,
    {
        if pat[k] != s[i + k] {
            assert(s@.subrange(i as int, i + pat.len())[k as int] != pat@[k as int]);
            return false;
        }
        k = k + 1;
    }
    assert(s@.subrange(i as int, i + pat.len()) =~= pat@);
    true
}

/// The first position at or after `from` where `pat` occurs.
pub fn find(s: &Vec<char>, pat: &Vec<char>, from: usize) -> (res: Option<usize>)
    ensures
        res matches Some(i) ==> find_from(s@, pat@, from as int) == i as int && occurs_at(
            s@,
            pat@,
            i as int,
        ),
        res is None ==> find_from(s@, pat@, from as int) == -1,
{
    proof {
        lemma_find_from(s@, pat@, from as int);
    }
    if pat.len() > s.len() || from > s.len() - pat.len() {
        return None;
    }
    let last = s.len() - pat.len();
    let mut i = from;
    while i <= last
        invariant
            from <= i <= last + 1,
            last + pat.len() == s.len(),
            find_from(s@, pat@, from as int) == find_from(s@, pat@, i as int),
        decreases last + 1 - i,
    {
        if occurs(s, pat, i) {
            return Some(i);
        }
        if i == last {
            assert(find_from(s@, pat@, i + 1) == -1);
            return None;
        }
        i = i + 1;
    }
    None
}

/// The pieces of `s` between the occurrences of `pat`.
pub fn split_on(s: &Vec<char>, pat: &Vec<char>) -> (res: Vec<Vec<char>>)
    requires
        pat.len() > 0,
    ensures
        res@.map_values(|v: Vec<char>| v@) == split_seq(s@, pat@),
    decreases s.len(),
{
    match find(s, pat, 0) {
        None => {
            let mut res: Vec<Vec<char>> = Vec::new();
            res.push(slice_of(s, 0, s.len()));
            assert(s@.subrange(0, s@.len() as int) =~= s@);
            assert(res@.map_values(|v: Vec<char>| v@) =~= split_seq(s@, pat@));
            res
        },
        Some(i) => {
            let head = slice_of(s, 0, i);
            let rest = slice_of(s, i + pat.len(), s.len());
            let tail = split_on(&rest, pat);
            let mut res: Vec<Vec<char>> = Vec::new();
            res.push(head);
            let mut k: usize = 0;
            while k < tail.len()
                invariant
                    res@.len() == k + 1,
                    i + pat.len() <= s.len(),
                    res@[0]@ == s@.subrange(0, i as int),
                    forall|j: int| 0 <= j < k ==> res@[j + 1]@ == tail@[j]@,
                    k <= tail.len(),
                decreases tail.len() - k,
            {
                res.push(tail[k].clone());
                k = k + 1;
            }
            assert(s@.take(i as int) =~= s@.subrange(0, i as int));
            assert(s@.skip(i + pat.len()) =~= s@.subrange(i + pat.len(), s@.len() as int));
            assert(res@.map_values(|v: Vec<char>| v@) =~= split_seq(s@, pat@));
            res
        },
    }
}

/// The pieces of `s` between the occurrences of `::`.
pub fn split_on_colons(s: &Vec<char>) -> (res: Vec<Vec<char>>)
    ensures
        res@.map_values(|v: Vec<char>| v@) == split_colons(s@),
{
    let pat = vec![':', ':'];
    assert(pat@ =~= colons());
    split_on(s, &pat)
}

/// The lines of `s`, as `str::lines` gives them.
pub fn lines(s: &Vec<char>) -> (res: Vec<Vec<char>>)
    ensures
        res@.map_values(|v: Vec<char>| v@) == lines_seq(s@),
    decreases s.len(),
{
    let mut res: Vec<Vec<char>> = Vec::new();
    if s.len() == 0 {
        assert(res@.map_values(|v: Vec<char>| v@) =~= lines_seq(s@));
        return res;
    }
    let nl = vec!['\n'];
    assert(nl@ =~= seq!['\n']);
    match find(s, &nl, 0) {
        None => {
            res.push(slice_of(s, 0, s.len()));
            assert(s@.subrange(0, s@.len() as int) =~= s@);
            assert(res@.map_values(|v: Vec<char>| v@) =~= lines_seq(s@));
            res
        },
        Some(i) => {
            let mut end = i;
            if end > 0 && s[end - 1] == '\r' {
                end = end - 1;
            }
            let head = slice_of(s, 0, end);
            assert(head@ =~= strip_line_end(s@.take(i + 1)));
            let rest = slice_of(s, i + 1, s.len());
            let tail = lines(&rest);
            res.push(head);
            let mut k: usize = 0;
            while k < tail.len()
                invariant
                    res@.len() == k + 1,
                    res@[0]@ == strip_line_end(s@.take(i + 1)),
                    forall|j: int| 0 <= j < k ==> res@[j + 1]@ == tail@[j]@,
                    k <= tail.len(),
                decreases tail.len() - k,
            {
                res.push(tail[k].clone());
                k = k + 1;
            }
            assert(s@.skip(i + 1) =~= s@.subrange(i + 1, s@.len() as int));
            assert(res@.map_values(|v: Vec<char>| v@) =~= lines_seq(s@));
            res
        },
    }
}

/// `s` without every trailing copy of `pat`.
pub fn trim_end_matches_pat(s: &Vec<char>, pat: &Vec<char>) -> (res: Vec<char>)
    ensures
        res@ == trim_end_pat(s@, pat@),
    decreases s.len(),
{
    if pat.len() > 0 && ends_with(s, pat) {
        let cut = slice_of(s, 0, s.len() - pat.len());
        assert(cut@ =~= s@.take(s@.len() - pat@.len()));
        trim_end_matches_pat(&cut, pat)
    } else {
        slice_of(s, 0, s.len())
    }
}

/// The first position of `c` in `s`.
pub fn find_char(s: &Vec<char>, c: char) -> (res: Option<usize>)
    ensures
        res matches Some(i) ==> i < s.len() && s@[i as int] == c && forall|j: int|
            0 <= j < i ==> s@[j] != c,
        res is None ==> forall|j: int| 0 <= j < s.len() ==> s@[j] != c,
{
    let mut i: usize = 0;
    while i < s.len()
        invariant
            i <= s.len(),
            forall|j: int| 0 <= j < i ==> s@[j] != c,
        decreases s.len() - i,
    {
        if s[i] == c {
            return Some(i);
        }
        i = i + 1;
    }
    None
}

/// The pieces joined with `::`.
pub fn join_on_colons(parts: &Vec<Vec<char>>) -> (res: Vec<char>)
    ensures
        res@ == join_colons(parts@.map_values(|v: Vec<char>| v@)),
{
    let ghost views = parts@.map_values(|v: Vec<char>| v@);
    let mut res: Vec<char> = Vec::new();
    let mut k: usize = 0;
    while k < parts.len()
        invariant
            k <= parts.len(),
            views == parts@.map_values(|v: Vec<char>| v@),
            res@ == join_colons(views.take(k as int)),
        decreases parts.len() - k,
    {
        let ghost start = res@;
        if k > 0 {
            res.push(':');
            res.push(':');
        }
        let piece = &parts[k];
        let mut m: usize = 0;
        let ghost before = res@;
        while m < piece.len()
            invariant
                m <= piece.len(),
                res@ == before + piece@.take(m as int),
            decreases piece.len() - m,
        {
            res.push(piece[m]);
            m = m + 1;
            assert(res@ =~= before + piece@.take(m as int));
        }
        assert(piece@.take(m as int) =~= piece@);
        assert(views.take(k + 1).drop_last() =~= views.take(k as int));
        assert(views.take(k + 1).last() == piece@);
        if k == 0 {
            assert(res@ =~= join_colons(views.take(1)));
        } else {
            assert(before =~= start + colons());
        }
        k = k + 1;
    }
    assert(views.take(parts.len() as int) =~= views);
    res
}

} // verus!
