//! Paths read off token streams the parser leaves unparsed: macro input and
//! attribute arguments.

use vstd::prelude::*;

use crate::text::{chars_of, join_colons, join_on_colons, string_of};

verus! {

/// One token of an unparsed token stream.
#[derive(Debug)]
pub enum Token {
    /// An identifier and the line it stands on.
    Ident { name: String, line: usize },
    /// A punctuation character; `joint` where the next token follows it
    /// without space.
    Punct { ch: char, joint: bool },
    /// A delimited group and the tokens inside it.
    Group(Vec<Token>),
    /// A literal.
    Literal,
}

/// Whether the `i`-th token is a `'`, the tick before a lifetime's name.
pub open spec fn is_tick(ts: Seq<Token>, i: int) -> bool {
    0 <= i < ts.len() && (ts[i] matches Token::Punct { ch, .. } && ch == '\'')
}

/// Whether a `::` starts at the `k`-th token: a `:` joint to the next, then
/// a `:`.
pub open spec fn is_separator(ts: Seq<Token>, k: int) -> bool {
    &&& 0 <= k
    &&& k + 1 < ts.len()
    &&& ts[k] matches Token::Punct { ch, joint } && ch == ':' && joint
    &&& ts[k + 1] matches Token::Punct { ch, .. } && ch == ':'
}

/// Whether the `k`-th token is an identifier.
pub open spec fn is_ident(ts: Seq<Token>, k: int) -> bool {
    0 <= k < ts.len() && ts[k] is Ident
}

/// The name of an identifier token.
pub open spec fn name_of(t: Token) -> Seq<char> {
    match t {
        Token::Ident { name, .. } => name@,
        _ => Seq::empty(),
    }
}

/// Whether the path going on from the `k`-th token continues: `::` and
/// then an identifier.
pub open spec fn continues(ts: Seq<Token>, k: int) -> bool {
    is_separator(ts, k + 1) && is_ident(ts, k + 3)
}

/// The identifiers of the path starting at the `k`-th token, joined by
/// `::` runs.
pub open spec fn run_of(ts: Seq<Token>, k: int) -> Seq<Seq<char>>
    decreases ts.len() - k,
{
    if continues(ts, k) && k >= 0 {
        seq![name_of(ts[k])] + run_of(ts, k + 3)
    } else {
        seq![name_of(ts[k])]
    }
}

/// The position of the last identifier of the path starting at `k`.
pub open spec fn run_end(ts: Seq<Token>, k: int) -> int
    decreases ts.len() - k,
{
    if continues(ts, k) && k >= 0 {
        run_end(ts, k + 3)
    } else {
        k
    }
}

/// A path ends at or after its start, before the end of the tokens.
pub proof fn lemma_run_end(ts: Seq<Token>, k: int)
    requires
        0 <= k < ts.len(),
    ensures
        k <= run_end(ts, k) < ts.len(),
    decreases ts.len() - k,
{
    if continues(ts, k) {
        lemma_run_end(ts, k + 3);
    }
}

/// The paths from the `i`-th token on, each with the line of its first
/// identifier: a run of identifiers joined by `::` is one path, a group is
/// read inside, an identifier after a `'` names a lifetime, and every other
/// token is skipped.
pub open spec fn scan(ts: Seq<Token>, i: int) -> Seq<(Seq<char>, usize)>
    decreases ts, ts.len() - i,
{
    if i < 0 || i >= ts.len() {
        Seq::empty()
    } else {
        match ts[i] {
            Token::Group(g) => {
                proof {
                    assert(decreases_to!(ts => ts[i]));
                }
                scan(g@, 0) + scan(ts, i + 1)
            },
            Token::Ident { name, line } => {
                if is_tick(ts, i - 1) {
                    scan(ts, i + 1)
                } else {
                    proof {
                        lemma_run_end(ts, i);
                    }
                    seq![(join_colons(run_of(ts, i)), line)] + scan(ts, run_end(ts, i) + 1)
                }
            },
            _ => scan(ts, i + 1),
        }
    }
}

/// The paths of a token stream.
pub open spec fn token_paths_of(ts: Seq<Token>) -> Seq<(Seq<char>, usize)> {
    scan(ts, 0)
}

/// The views of a list of paths with lines.
pub open spec fn path_views(v: Seq<(String, usize)>) -> Seq<(Seq<char>, usize)> {
    v.map_values(|p: (String, usize)| (p.0@, p.1))
}

/// Whether a `::` starts at the `k`-th token.
fn separator_at(ts: &Vec<Token>, k: usize) -> (res: bool)
    ensures
        res == is_separator(ts@, k as int),
{
    if k >= ts.len() || ts.len() - k < 2 {
        return false;
    }
    let first = match &ts[k] {
        Token::Punct { ch, joint } => *ch == ':' && *joint,
        _ => false,
    };
    let second = match &ts[k + 1] {
        Token::Punct { ch, .. } => *ch == ':',
        _ => false,
    };
    first && second
}

/// Whether the `k`-th token is an identifier.
fn ident_at(ts: &Vec<Token>, k: usize) -> (res: bool)
    ensures
        res == is_ident(ts@, k as int),
{
    if k >= ts.len() {
        return false;
    }
    match &ts[k] {
        Token::Ident { .. } => true,
        _ => false,
    }
}

/// Read the paths off a token stream: runs of identifiers joined by `::`, at
/// any nesting of brackets, each with the line of its first identifier;
/// the name after a lifetime's tick and every other token are skipped.
pub fn token_paths(ts: &Vec<Token>) -> (res: Vec<(String, usize)>)
    ensures
        path_views(res@) == token_paths_of(ts@),
    decreases ts@,
{
    let mut out: Vec<(String, usize)> = Vec::new();
    let mut i: usize = 0;
    while i < ts.len()
        invariant
            i <= ts@.len(),
            path_views(out@) + scan(ts@, i as int) == scan(ts@, 0),
        decreases ts.len() - i,
    {
        let ghost before = path_views(out@);
        match &ts[i] {
            Token::Group(g) => {
                proof {
                    assert(decreases_to!(ts@ => ts@[i as int]));
                    assert(decreases_to!(ts@[i as int] => *g));
                }
                let inner = token_paths(g);
                let mut k: usize = 0;
                while k < inner.len()
                    invariant
                        k <= inner@.len(),
                        path_views(out@) == before + path_views(inner@).take(k as int),
                    decreases inner.len() - k,
                {
                    let (p, l) = &inner[k];
                    let ghost mid = out@;
                    out.push((p.clone(), *l));
                    proof {
                        assert(path_views(out@) =~= path_views(mid).push((p@, *l)));
                        assert(path_views(inner@).take(k + 1) =~= path_views(inner@).take(k as int).push(
                            path_views(inner@)[k as int],
                        ));
                    }
                    k = k + 1;
                }
                assert(path_views(inner@).take(inner@.len() as int) =~= path_views(inner@));
                assert(scan(ts@, i as int) == scan(g@, 0) + scan(ts@, i + 1));
                assert(path_views(out@) + scan(ts@, i + 1) =~= before + scan(ts@, i as int));
                i = i + 1;
            },
            Token::Ident { name, line } => {
                let after_tick = i > 0 && match &ts[i - 1] {
                    Token::Punct { ch, .. } => *ch == '\'',
                    _ => false,
                };
                if after_tick {
                    assert(scan(ts@, i as int) == scan(ts@, i + 1));
                    i = i + 1;
                } else {
                    let mut parts: Vec<Vec<char>> = Vec::new();
                    parts.push(chars_of(name.as_str()));
                    let mut end: usize = i;
                    proof {
                        lemma_run_end(ts@, i as int);
                        assert(parts@.map_values(|v: Vec<char>| v@) =~= seq![name_of(ts@[i as int])]);
                        assert(run_of(ts@, i as int) =~= seq![name_of(ts@[i as int])] + run_of(ts@, i as int).skip(1));
                    }
                    while ts.len() - end > 3 && separator_at(ts, end + 1) && ident_at(ts, end + 3)
                        invariant
                            i <= end < ts@.len(),
                            is_ident(ts@, end as int),
                            parts@.map_values(|v: Vec<char>| v@) + run_of(ts@, end as int).skip(1) == run_of(ts@, i as int),
                            run_end(ts@, end as int) == run_end(ts@, i as int),
                        decreases ts.len() - end,
                    {
                        let ghost pv = parts@.map_values(|v: Vec<char>| v@);
                        let next_name = match &ts[end + 3] {
                            Token::Ident { name, .. } => chars_of(name.as_str()),
                            _ => Vec::new(),
                        };
                        proof {
                            assert(continues(ts@, end as int));
                            assert(run_of(ts@, end as int) == seq![name_of(ts@[end as int])] + run_of(ts@, end + 3));
                            assert(run_of(ts@, end as int).skip(1) =~= run_of(ts@, end + 3));
                            assert(next_name@ == name_of(ts@[end + 3]));
                            assert(run_of(ts@, end + 3) =~= seq![name_of(ts@[end + 3])] + run_of(ts@, end + 3).skip(1)) by {
                                if continues(ts@, end + 3) {
                                } else {
                                }
                            }
                        }
                        parts.push(next_name);
                        proof {
                            assert(parts@.map_values(|v: Vec<char>| v@) =~= pv.push(name_of(ts@[end + 3])));
                        }
                        end = end + 3;
                    }
                    proof {
                        assert(!continues(ts@, end as int));
                        assert(run_of(ts@, end as int).skip(1) =~= Seq::<Seq<char>>::empty());
                        assert(parts@.map_values(|v: Vec<char>| v@) =~= run_of(ts@, i as int));
                        assert(run_end(ts@, end as int) == end);
                    }
                    let path = string_of(join_on_colons(&parts).as_slice());
                    let ghost mid = out@;
                    out.push((path, *line));
                    proof {
                        assert(path_views(out@) =~= path_views(mid).push((join_colons(run_of(ts@, i as int)), *line)));
                        assert(scan(ts@, i as int) == seq![(join_colons(run_of(ts@, i as int)), *line)] + scan(
                            ts@,
                            end + 1,
                        ));
                        assert(path_views(out@) + scan(ts@, end + 1) =~= before + scan(ts@, i as int));
                    }
                    i = end + 1;
                }
            },
            _ => {
                assert(scan(ts@, i as int) == scan(ts@, i + 1));
                i = i + 1;
            },
        }
    }
    assert(path_views(out@) =~= scan(ts@, 0));
    out
}

} // verus!
