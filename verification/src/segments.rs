//! Splitting strings into segments at a separator character, and
//! joining them back. These are the building blocks both of the path
//! normalizer (separator `/`) and of the backing-store text format
//! (separator `\n`).

use vstd::prelude::*;

verus! {

/// The sequence of views of a sequence of strings.
pub open spec fn views_of(v: Seq<String>) -> Seq<Seq<char>> {
    Seq::new(v.len(), |i: int| v[i]@)
}

/// Split `s` at every occurrence of `sep`. The result always has at
/// least one element; a separator at the start, at the end, or doubled
/// produces an empty segment, as in `"a//b/".split('/')`.
pub open spec fn split_on(s: Seq<char>, sep: char) -> Seq<Seq<char>>
    decreases s.len(),
{
    if s.len() == 0 {
        seq![Seq::<char>::empty()]
    } else if s[0] == sep {
        seq![Seq::<char>::empty()] + split_on(s.drop_first(), sep)
    } else {
        let rest = split_on(s.drop_first(), sep);
        seq![seq![s[0]] + rest[0]] + rest.drop_first()
    }
}

/// Join `parts` with a single `sep` between consecutive elements.
pub open spec fn join_with(parts: Seq<Seq<char>>, sep: char) -> Seq<char>
    decreases parts.len(),
{
    if parts.len() == 0 {
        Seq::<char>::empty()
    } else if parts.len() == 1 {
        parts[0]
    } else {
        join_with(parts.drop_last(), sep) + seq![sep] + parts.last()
    }
}

pub proof fn lemma_split_on_len(s: Seq<char>, sep: char)
    ensures
        split_on(s, sep).len() >= 1,
    decreases s.len(),
{
    if s.len() == 0 {
    } else {
        lemma_split_on_len(s.drop_first(), sep);
    }
}

/// How splitting reacts to one more character at the end: a separator
/// opens a fresh empty segment, any other character extends the last
/// segment.
pub proof fn lemma_split_on_push(s: Seq<char>, sep: char, c: char)
    ensures
        c == sep ==> split_on(s.push(c), sep) == split_on(s, sep).push(Seq::<char>::empty()),
        c != sep ==> split_on(s.push(c), sep) == split_on(s, sep).drop_last().push(
            split_on(s, sep).last().push(c),
        ),
    decreases s.len(),
{
    lemma_split_on_len(s, sep);
    if s.len() == 0 {
        let t = s.push(c);
        assert(split_on(Seq::<char>::empty(), sep) =~~= seq![Seq::<char>::empty()]);
        assert(t.len() == 1 && t[0] == c);
        assert(t.drop_first() =~= Seq::<char>::empty());
        assert(s =~= Seq::<char>::empty());
        if c == sep {
            assert(split_on(t, sep) =~~= seq![Seq::<char>::empty()] + split_on(
                t.drop_first(),
                sep,
            ));
            assert(split_on(t, sep) =~~= split_on(s, sep).push(Seq::<char>::empty()));
        } else {
            assert(split_on(t, sep) =~~= seq![seq![c] + split_on(t.drop_first(), sep)[0]]
                + split_on(t.drop_first(), sep).drop_first());
            assert(split_on(t, sep) =~~= split_on(s, sep).drop_last().push(
                split_on(s, sep).last().push(c),
            ));
        }
    } else {
        let t = s.push(c);
        assert(t[0] == s[0]);
        assert(t.drop_first() =~= s.drop_first().push(c));
        lemma_split_on_push(s.drop_first(), sep, c);
        lemma_split_on_len(s.drop_first(), sep);
        if c == sep {
            if s[0] == sep {
                assert(split_on(t, sep) =~~= split_on(s, sep).push(Seq::<char>::empty()));
            } else {
                assert(split_on(t, sep) =~~= split_on(s, sep).push(Seq::<char>::empty()));
            }
        } else {
            if s[0] == sep {
                assert(split_on(t, sep) =~~= split_on(s, sep).drop_last().push(
                    split_on(s, sep).last().push(c),
                ));
            } else {
                assert(split_on(t, sep) =~~= split_on(s, sep).drop_last().push(
                    split_on(s, sep).last().push(c),
                ));
            }
        }
    }
}

/// Splitting produces segments that never contain the separator.
pub proof fn lemma_split_on_sep_free(s: Seq<char>, sep: char)
    ensures
        forall|i: int|
            0 <= i < split_on(s, sep).len() ==> !(#[trigger] split_on(s, sep)[i]).contains(sep),
    decreases s.len(),
{
    if s.len() == 0 {
        assert(!split_on(s, sep)[0].contains(sep));
    } else {
        lemma_split_on_sep_free(s.drop_first(), sep);
        lemma_split_on_len(s.drop_first(), sep);
        let rest = split_on(s.drop_first(), sep);
        if s[0] == sep {
            assert forall|i: int| 0 <= i < split_on(s, sep).len() implies !(
            #[trigger] split_on(s, sep)[i]).contains(sep) by {
                if i == 0 {
                    assert(!Seq::<char>::empty().contains(sep));
                } else {
                    assert(split_on(s, sep)[i] == rest[i - 1]);
                }
            }
        } else {
            assert forall|i: int| 0 <= i < split_on(s, sep).len() implies !(
            #[trigger] split_on(s, sep)[i]).contains(sep) by {
                if i == 0 {
                    let head = seq![s[0]] + rest[0];
                    assert(!rest[0].contains(sep));
                    assert forall|j: int| 0 <= j < head.len() implies head[j] != sep by {
                        if j == 0 {
                        } else {
                            assert(head[j] == rest[0][j - 1]);
                            assert(rest[0][j - 1] != sep);
                        }
                    }
                } else {
                    assert(split_on(s, sep)[i] == rest.drop_first()[i - 1]);
                    assert(rest.drop_first()[i - 1] == rest[i]);
                }
            }
        }
    }
}

/// A separator-free string splits into exactly itself.
pub proof fn lemma_split_on_sep_free_single(x: Seq<char>, sep: char)
    requires
        !x.contains(sep),
    ensures
        split_on(x, sep) == seq![x],
    decreases x.len(),
{
    if x.len() == 0 {
        assert(split_on(x, sep) =~~= seq![x]);
    } else {
        assert(x[0] != sep);
        assert(!x.drop_first().contains(sep)) by {
            if x.drop_first().contains(sep) {
                let i = choose|i: int| 0 <= i < x.drop_first().len() && x.drop_first()[i] == sep;
                assert(x[i + 1] == sep);
            }
        }
        lemma_split_on_sep_free_single(x.drop_first(), sep);
        assert(split_on(x, sep) =~~= seq![x]);
    }
}

/// Appending a separator and a separator-free string appends one
/// segment to the split.
pub proof fn lemma_split_on_append(u: Seq<char>, x: Seq<char>, sep: char)
    requires
        !x.contains(sep),
    ensures
        split_on(u + seq![sep] + x, sep) == split_on(u, sep).push(x),
    decreases u.len(),
{
    lemma_split_on_len(u, sep);
    let t = u + seq![sep] + x;
    if u.len() == 0 {
        assert(t[0] == sep);
        assert(t.drop_first() =~= x);
        lemma_split_on_sep_free_single(x, sep);
        assert(split_on(t, sep) =~~= split_on(u, sep).push(x));
    } else {
        assert(t[0] == u[0]);
        assert(t.drop_first() =~= u.drop_first() + seq![sep] + x);
        lemma_split_on_append(u.drop_first(), x, sep);
        lemma_split_on_len(u.drop_first(), sep);
        assert(split_on(t, sep) =~~= split_on(u, sep).push(x));
    }
}

/// Splitting a joined sequence of separator-free segments gives the
/// segments back.
pub proof fn lemma_join_split_roundtrip(parts: Seq<Seq<char>>, sep: char)
    requires
        parts.len() >= 1,
        forall|i: int| 0 <= i < parts.len() ==> !(#[trigger] parts[i]).contains(sep),
    ensures
        split_on(join_with(parts, sep), sep) == parts,
    decreases parts.len(),
{
    if parts.len() == 1 {
        lemma_split_on_sep_free_single(parts[0], sep);
        assert(split_on(join_with(parts, sep), sep) =~~= parts);
    } else {
        lemma_join_split_roundtrip(parts.drop_last(), sep);
        lemma_split_on_append(join_with(parts.drop_last(), sep), parts.last(), sep);
        assert(split_on(join_with(parts, sep), sep) =~~= parts);
    }
}

/// Splits `s` at every `sep`, as executable code.
pub fn split_exec(s: &str, sep: char) -> (parts: Vec<String>)
    ensures
        views_of(parts@) == split_on(s@, sep),
{
    let n = s.unicode_len();
    let mut parts: Vec<String> = Vec::new();
    let mut start: usize = 0;
    let mut i: usize = 0;
    proof {
        assert(s@.subrange(0, 0) =~= Seq::<char>::empty());
        assert(s@.take(0) =~= Seq::<char>::empty());
        assert(views_of(parts@).push(s@.subrange(0, 0)) =~~= split_on(s@.take(0), sep));
    }
    while i < n
        invariant
            start <= i <= n,
            n == s@.len(),
            views_of(parts@).push(s@.subrange(start as int, i as int)) == split_on(
                s@.take(i as int),
                sep,
            ),
        decreases n - i,
    {
        proof {
            assert(s@.take(i + 1) =~= s@.take(i as int).push(s@[i as int]));
            lemma_split_on_push(s@.take(i as int), sep, s@[i as int]);
        }
        if s.get_char(i) == sep {
            let seg = s.substring_char(start, i).to_owned();
            let ghost old_parts = parts@;
            parts.push(seg);
            proof {
                assert(views_of(parts@) =~~= views_of(old_parts).push(
                    s@.subrange(start as int, i as int),
                ));
                assert(s@.subrange(i + 1, i + 1) =~= Seq::<char>::empty());
                assert(views_of(parts@).push(s@.subrange(i + 1, i + 1)) =~~= split_on(
                    s@.take(i + 1),
                    sep,
                ));
            }
            start = i + 1;
        } else {
            proof {
                assert(s@.subrange(start as int, i as int).push(s@[i as int]) =~= s@.subrange(
                    start as int,
                    i + 1,
                ));
                assert(views_of(parts@).push(s@.subrange(start as int, i as int)).drop_last()
                    =~~= views_of(parts@));
                assert(views_of(parts@).push(s@.subrange(start as int, i + 1)) =~~= split_on(
                    s@.take(i + 1),
                    sep,
                ));
            }
        }
        i += 1;
    }
    let seg = s.substring_char(start, n).to_owned();
    let ghost old_parts = parts@;
    parts.push(seg);
    proof {
        assert(s@.take(n as int) =~= s@);
        assert(views_of(parts@) =~~= views_of(old_parts).push(s@.subrange(start as int, n as int)));
    }
    parts
}

/// Joins `parts` with the single-character separator `sep_str`, as
/// executable code.
pub fn join_exec(parts: &Vec<String>, sep_str: &str) -> (r: String)
    requires
        sep_str@.len() == 1,
    ensures
        r@ == join_with(views_of(parts@), sep_str@[0]),
{
    let ghost sep = sep_str@[0];
    let mut r = String::new();
    let mut i: usize = 0;
    proof {
        assert(views_of(parts@).take(0) =~~= Seq::<Seq<char>>::empty());
    }
    while i < parts.len()
        invariant
            i <= parts.len(),
            sep_str@.len() == 1,
            sep == sep_str@[0],
            r@ == join_with(views_of(parts@).take(i as int), sep),
        decreases parts.len() - i,
    {
        proof {
            assert(views_of(parts@).take(i + 1).drop_last() =~~= views_of(parts@).take(i as int));
            assert(views_of(parts@).take(i + 1).last() == parts@[i as int]@);
        }
        if i > 0 {
            r.append(sep_str);
            proof {
                assert(sep_str@ =~= seq![sep]);
            }
        } else {
            proof {
                assert(join_with(views_of(parts@).take(1), sep) == views_of(parts@).take(1)[0]);
                assert(r@ + parts@[0]@ =~= parts@[0]@);
            }
        }
        r.append(parts[i].as_str());
        i += 1;
    }
    proof {
        assert(views_of(parts@).take(parts@.len() as int) =~~= views_of(parts@));
    }
    r
}

} // verus!
