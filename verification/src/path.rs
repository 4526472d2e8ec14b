//! Walking a file path: the names to look up one after another from the root, and
//! which of them is the last, which is opened with the caller's flags while the
//! others are opened as directories.
use vstd::prelude::*;
use vstd::std_specs::iter::IteratorSpec;
use crate::buffer::push_char;

verus! {

/// The names of `s` between the separators `/`, in order, empty ones included.
pub open spec fn split_path(s: Seq<char>) -> Seq<Seq<char>>
    decreases s.len(),
{
    if s.len() == 0 {
        seq![Seq::<char>::empty()]
    } else {
        let rest = split_path(s.drop_last());
        if s.last() == '/' {
            rest.push(Seq::<char>::empty())
        } else {
            rest.update(rest.len() - 1, rest.last().push(s.last()))
        }
    }
}

/// A path has at least one name.
pub proof fn lemma_split_path_len(s: Seq<char>)
    ensures
        split_path(s).len() >= 1,
    decreases s.len(),
{
    if s.len() > 0 {
        lemma_split_path_len(s.drop_last());
    }
}

/// The lookups that find `path`: every name with whether it is the last one, but a
/// leading empty name (of a path that starts at the root) is skipped.
pub open spec fn path_lookups(path: Seq<char>) -> Seq<(Seq<char>, bool)> {
    let names = split_path(path);
    let all = Seq::new(names.len(), |i: int| (names[i], i == names.len() - 1));
    if names[0].len() == 0 {
        all.drop_first()
    } else {
        all
    }
}

/// The contents of lookups.
pub open spec fn lookups_view(s: Seq<(String, bool)>) -> Seq<(Seq<char>, bool)> {
    s.map_values(|p: (String, bool)| (p.0@, p.1))
}

/// The lookups that find `path`, in order: each name, and whether it is the last.
pub fn find_lookups(path: &str) -> (r: Vec<(String, bool)>)
    ensures
        lookups_view(r@) == path_lookups(path@),
{
    broadcast use vstd::string::axiom_spec_iter;
    let mut names: Vec<String> = Vec::new();
    let mut current = String::new();
    for c in it: path.chars()
        invariant
            it.seq() == path@,
            names@.map_values(|s: String| s@).push(current@) == split_path(it.seq().take(it.index() as int)),
    {
        proof {
            let t = it.seq().take(it.index() + 1);
            assert(t.drop_last() =~= it.seq().take(it.index() as int));
            assert(t.last() == c);
            lemma_split_path_len(it.seq().take(it.index() as int));
        }
        if c == '/' {
            let ghost before = names@;
            names.push(current);
            current = String::new();
            proof {
                assert(names@.map_values(|s: String| s@) =~= before.map_values(|s: String| s@).push(
                    names@[names@.len() - 1]@,
                ));
            }
        } else {
            let ghost cur = current@;
            push_char(&mut current, c);
            proof {
                assert(names@.map_values(|s: String| s@).push(current@) =~= names@.map_values(|s: String| s@).push(
                    cur,
                ).update(names@.len() as int, cur.push(c)));
            }
        }
    }
    proof {
        assert(path@.take(path@.len() as int) =~= path@);
    }
    let ghost before = names@;
    names.push(current);
    let ghost nv = names@.map_values(|s: String| s@);
    proof {
        assert(nv =~= before.map_values(|s: String| s@).push(names@[names@.len() - 1]@));
        assert(nv == split_path(path@));
    }
    let n = names.len();
    let first: usize = if names[0].as_str().is_empty() {
        1
    } else {
        0
    };
    let mut out: Vec<(String, bool)> = Vec::new();
    let mut i = first;
    while i < n
        invariant
            n == names@.len(),
            nv == names@.map_values(|s: String| s@),
            nv == split_path(path@),
            n >= 1,
            first == (if nv[0].len() == 0 { 1usize } else { 0usize }),
            first <= i <= n,
            lookups_view(out@) == Seq::new(n as nat, |k: int| (nv[k], k == n - 1)).subrange(first as int, i as int),
        decreases n - i,
    {
        let name = names[i].clone();
        let ghost old_out = out@;
        out.push((name, i == n - 1));
        proof {
            assert(lookups_view(out@) =~= lookups_view(old_out).push((nv[i as int], i == n - 1)));
            assert(lookups_view(out@) =~= Seq::new(n as nat, |k: int| (nv[k], k == n - 1)).subrange(
                first as int,
                i + 1,
            ));
        }
        i = i + 1;
    }
    proof {
        let all = Seq::new(n as nat, |k: int| (nv[k], k == n - 1));
        assert(all.subrange(first as int, n as int) =~= if first == 1 {
            all.drop_first()
        } else {
            all
        });
    }
    out
}

} // verus!
