use vstd::prelude::*;

verus! {

/// The pieces of `s` between occurrences of `sep`, empty ones included
/// (`"/a//b"` split on `/` has the pieces `""`, `"a"`, `""`, `"b"`).
pub open spec fn split_on(s: Seq<char>, sep: char) -> Seq<Seq<char>>
    decreases s.len(),
{
    if s.len() == 0 {
        seq![Seq::empty()]
    } else {
        let p = split_on(s.drop_last(), sep);
        if s.last() == sep {
            p.push(Seq::empty())
        } else {
            p.update(p.len() - 1, p.last().push(s.last()))
        }
    }
}

/// The `/`-separated pieces of a path.
pub open spec fn pieces(s: Seq<char>) -> Seq<Seq<char>> {
    split_on(s, '/')
}

/// A piece that names something: neither empty, nor `.`, nor `..`.
pub open spec fn is_component(p: Seq<char>) -> bool {
    p.len() > 0 && p != seq!['.'] && p != seq!['.', '.']
}

/// The name components of a path: the root marker, empty pieces, `.` and `..`
/// are dropped, the rest kept in order.
pub open spec fn components(s: Seq<char>) -> Seq<Seq<char>> {
    pieces(s).filter(|p: Seq<char>| is_component(p))
}

/// A path is absolute when it starts at the root.
pub open spec fn is_absolute(s: Seq<char>) -> bool {
    s.len() > 0 && s[0] == '/'
}

/// The text of a sequence of strings.
pub open spec fn texts(v: Seq<String>) -> Seq<Seq<char>> {
    v.map_values(|s: String| s@)
}

/// `path` with `segment` added as a last component, with a `/` between them
/// unless `path` already ends with one.
pub open spec fn joined(path: Seq<char>, segment: Seq<char>) -> Seq<char> {
    if path.len() > 0 && path.last() == '/' {
        path + segment
    } else {
        path.push('/') + segment
    }
}

fn piece_is_component(p: &String) -> (r: bool)
    ensures
        r == is_component(p@),
{
    let p = p.as_str();
    let n = p.unicode_len();
    if n == 0 {
        false
    } else if n == 1 {
        let c = p.get_char(0);
        proof {
            if c == '.' {
                assert(p@ =~= seq!['.']);
            }
        }
        assert(p@.len() != seq!['.', '.'].len());
        c != '.'
    } else if n == 2 {
        let c0 = p.get_char(0);
        let c1 = p.get_char(1);
        proof {
            if c0 == '.' && c1 == '.' {
                assert(p@ =~= seq!['.', '.']);
            }
        }
        assert(p@.len() != seq!['.'].len());
        !(c0 == '.' && c1 == '.')
    } else {
        assert(p@.len() != seq!['.'].len());
        assert(p@.len() != seq!['.', '.'].len());
        true
    }
}

/// The pieces of `s` between occurrences of `sep`, in order.
pub fn split_pieces(s: &str, sep: char) -> (r: Vec<String>)
    ensures
        texts(r@) == split_on(s@, sep),
{
    let n = s.unicode_len();
    let mut out: Vec<String> = Vec::new();
    let mut start: usize = 0;
    let mut i: usize = 0;
    assert(s@.subrange(0, 0) =~= Seq::<char>::empty());
    assert(texts(out@).push(s@.subrange(0, 0)) =~= seq![Seq::<char>::empty()]);
    while i < n
        invariant
            n == s@.len(),
            0 <= start <= i <= n,
            split_on(s@.subrange(0, i as int), sep) == texts(out@).push(
                s@.subrange(start as int, i as int),
            ),
        decreases n - i,
    {
        let c = s.get_char(i);
        assert(s@.subrange(0, i + 1).drop_last() =~= s@.subrange(0, i as int));
        assert(s@.subrange(0, i + 1).last() == c);
        if c == sep {
            let piece = s.substring_char(start, i);
            let ghost before = texts(out@);
            out.push(String::from_str(piece));
            assert(texts(out@) =~= before.push(piece@));
            start = i + 1;
            assert(s@.subrange(start as int, i + 1) =~= Seq::<char>::empty());
        } else {
            assert(s@.subrange(start as int, i + 1) =~= s@.subrange(start as int, i as int).push(
                c,
            ));
            assert(texts(out@).push(s@.subrange(start as int, i as int)).update(
                texts(out@).len() as int,
                s@.subrange(start as int, i + 1),
            ) =~= texts(out@).push(s@.subrange(start as int, i + 1)));
        }
        i = i + 1;
    }
    let piece = s.substring_char(start, n);
    let ghost before = texts(out@);
    out.push(String::from_str(piece));
    assert(texts(out@) =~= before.push(piece@));
    assert(s@.subrange(0, n as int) =~= s@);
    out
}

/// The name components of `path`, in order.
pub fn split_components(path: &str) -> (r: Vec<String>)
    ensures
        texts(r@) == components(path@),
{
    let all = split_pieces(path, '/');
    let ghost keep = |p: Seq<char>| is_component(p);
    let mut out: Vec<String> = Vec::new();
    let mut i: usize = 0;
    assert(texts(all@).subrange(0, 0) =~= Seq::<Seq<char>>::empty());
    assert(texts(out@) =~= texts(all@).subrange(0, 0).filter(keep)) by {
        reveal(Seq::filter);
    }
    while i < all.len()
        invariant
            i <= all@.len(),
            texts(out@) == texts(all@).subrange(0, i as int).filter(keep),
            keep == (|p: Seq<char>| is_component(p)),
        decreases all@.len() - i,
    {
        let ghost before = texts(out@);
        assert(texts(all@).subrange(0, i + 1) =~= texts(all@).subrange(0, i as int).push(
            all@[i as int]@,
        ));
        proof {
            texts(all@).subrange(0, i as int).lemma_filter_push(all@[i as int]@, keep);
        }
        if piece_is_component(&all[i]) {
            out.push(all[i].clone());
            assert(texts(out@) =~= before.push(all@[i as int]@));
        }
        i = i + 1;
    }
    assert(texts(all@).subrange(0, all@.len() as int) =~= texts(all@));
    out
}

} // verus!
