//! The path normalizer: a pure transformation from an arbitrary path
//! string to a canonical absolute path string. No filesystem access:
//! the home directory (for `~` forms) and the current directory (for
//! relative forms) are taken as arguments.

use vstd::prelude::*;

use crate::segments::{
    join_exec, join_with, lemma_join_split_roundtrip, lemma_split_on_len,
    lemma_split_on_sep_free, split_exec, split_on, views_of,
};

verus! {

/// A segment that survives reduction: non-empty, not `.`, not `..`.
pub open spec fn seg_normal(s: Seq<char>) -> bool {
    &&& s.len() > 0
    &&& !(s.len() == 1 && s[0] == '.')
    &&& !(s.len() == 2 && s[0] == '.' && s[1] == '.')
}

/// Left-to-right reduction of a segment sequence: empty segments and
/// `.` are dropped; `..` is dropped and deletes the nearest still
/// retained segment to its left, if there is one.
pub open spec fn reduce(parts: Seq<Seq<char>>) -> Seq<Seq<char>>
    decreases parts.len(),
{
    if parts.len() == 0 {
        Seq::<Seq<char>>::empty()
    } else {
        let acc = reduce(parts.drop_last());
        let l = parts.last();
        if l.len() == 0 || (l.len() == 1 && l[0] == '.') {
            acc
        } else if l.len() == 2 && l[0] == '.' && l[1] == '.' {
            if acc.len() > 0 {
                acc.drop_last()
            } else {
                acc
            }
        } else {
            acc.push(l)
        }
    }
}

/// Whether `raw` is a `~` form: its first segment starts with `~`.
pub open spec fn tilde_first(raw: Seq<char>) -> bool {
    raw.len() > 0 && raw[0] == '~'
}

/// What normalization returns: split at `/`; replace a `~` first
/// segment by the segments of `home`, or prepend the segments of `cwd`
/// if the path is relative; reduce; join back behind a single leading
/// `/`.
pub open spec fn spec_normalize(raw: Seq<char>, home: Seq<char>, cwd: Seq<char>) -> Seq<char> {
    let parts = split_on(raw, '/');
    let combined = if parts[0].len() > 0 && parts[0][0] == '~' {
        split_on(home, '/') + parts.drop_first()
    } else if parts[0].len() > 0 {
        split_on(cwd, '/') + parts
    } else {
        parts
    };
    seq!['/'] + join_with(reduce(combined), '/')
}

/// How one raw string relates to its normalized form: a `~` form is
/// normalized against some home directory (whichever the environment
/// supplied for its first segment); every other form ignores the home
/// directory.
pub open spec fn norm_rel(raw: Seq<char>, cwd: Seq<char>, out: Seq<char>) -> bool {
    if tilde_first(raw) {
        exists|h: Seq<char>| out == spec_normalize(raw, h, cwd)
    } else {
        out == spec_normalize(raw, Seq::<char>::empty(), cwd)
    }
}

/// Every segment that reduction retains is normal and comes from the
/// input.
pub proof fn lemma_reduce_elems(parts: Seq<Seq<char>>)
    ensures
        forall|i: int|
            0 <= i < reduce(parts).len() ==> seg_normal(#[trigger] reduce(parts)[i])
                && parts.contains(reduce(parts)[i]),
    decreases parts.len(),
{
    if parts.len() == 0 {
    } else {
        lemma_reduce_elems(parts.drop_last());
        let acc = reduce(parts.drop_last());
        assert forall|i: int| 0 <= i < reduce(parts).len() implies seg_normal(
            #[trigger] reduce(parts)[i],
        ) && parts.contains(reduce(parts)[i]) by {
            assert forall|e: Seq<char>| parts.drop_last().contains(e) implies parts.contains(
                e,
            ) by {
                let j = choose|j: int|
                    0 <= j < parts.drop_last().len() && parts.drop_last()[j] == e;
                assert(parts[j] == e);
            }
            let l = parts.last();
            if l.len() == 0 || (l.len() == 1 && l[0] == '.') {
            } else if l.len() == 2 && l[0] == '.' && l[1] == '.' {
                if acc.len() > 0 {
                    assert(reduce(parts)[i] == acc[i]);
                }
            } else {
                if i < acc.len() {
                    assert(reduce(parts)[i] == acc[i]);
                } else {
                    assert(reduce(parts)[i] == l);
                    assert(parts[parts.len() - 1] == l);
                }
            }
        }
    }
}

/// Reduction leaves a sequence of normal segments unchanged.
pub proof fn lemma_reduce_normal_id(parts: Seq<Seq<char>>)
    requires
        forall|i: int| 0 <= i < parts.len() ==> seg_normal(#[trigger] parts[i]),
    ensures
        reduce(parts) == parts,
    decreases parts.len(),
{
    if parts.len() == 0 {
        assert(reduce(parts) =~~= parts);
    } else {
        lemma_reduce_normal_id(parts.drop_last());
        assert(seg_normal(parts.last()));
        assert(reduce(parts) =~~= parts);
    }
}

/// A leading empty segment makes no difference to reduction.
pub proof fn lemma_reduce_prepend_empty(parts: Seq<Seq<char>>)
    ensures
        reduce(seq![Seq::<char>::empty()] + parts) == reduce(parts),
    decreases parts.len(),
{
    let t = seq![Seq::<char>::empty()] + parts;
    if parts.len() == 0 {
        assert(reduce(Seq::<Seq<char>>::empty()) =~~= Seq::<Seq<char>>::empty());
        assert(t.drop_last() =~~= Seq::<Seq<char>>::empty());
        assert(t.last().len() == 0);
        assert(reduce(t) =~~= reduce(parts));
    } else {
        lemma_reduce_prepend_empty(parts.drop_last());
        assert(t.drop_last() =~~= seq![Seq::<char>::empty()] + parts.drop_last());
        assert(t.last() == parts.last());
    }
}

/// Reduces a segment list, as executable code.
fn reduce_exec(parts: &Vec<String>) -> (r: Vec<String>)
    ensures
        views_of(r@) == reduce(views_of(parts@)),
{
    let mut out: Vec<String> = Vec::new();
    let mut i: usize = 0;
    proof {
        assert(views_of(parts@).take(0) =~~= Seq::<Seq<char>>::empty());
        assert(views_of(out@) =~~= reduce(views_of(parts@).take(0)));
    }
    while i < parts.len()
        invariant
            i <= parts.len(),
            views_of(out@) == reduce(views_of(parts@).take(i as int)),
        decreases parts.len() - i,
    {
        proof {
            assert(views_of(parts@).take(i + 1).drop_last() =~~= views_of(parts@).take(i as int));
            assert(views_of(parts@).take(i + 1).last() == parts@[i as int]@);
        }
        let seg = &parts[i];
        let n = seg.as_str().unicode_len();
        if n == 0 || (n == 1 && seg.as_str().get_char(0) == '.') {
            // dropped: empty segment or `.`
        } else if n == 2 && seg.as_str().get_char(0) == '.' && seg.as_str().get_char(1) == '.' {
            if out.len() > 0 {
                let ghost old_out = out@;
                out.pop();
                proof {
                    assert(views_of(out@) =~~= views_of(old_out).drop_last());
                }
            }
        } else {
            let ghost old_out = out@;
            out.push(seg.clone());
            proof {
                assert(views_of(out@) =~~= views_of(old_out).push(parts@[i as int]@));
            }
        }
        i += 1;
    }
    proof {
        assert(views_of(parts@).take(parts@.len() as int) =~~= views_of(parts@));
    }
    out
}

/// Normalizes `raw` against the given home directory (used only for
/// `~` forms, where it stands for the expansion of the first segment)
/// and current directory (used only for relative forms). Total: never
/// fails, never panics; degenerate inputs resolve to the root `/`.
pub fn normalize(raw: &str, home: &str, cwd: &str) -> (r: String)
    ensures
        r@ == spec_normalize(raw@, home@, cwd@),
{
    let parts = split_exec(raw, '/');
    proof {
        lemma_split_on_len(raw@, '/');
        assert(parts@[0]@ == split_on(raw@, '/')[0]);
    }
    let first_len = parts[0].as_str().unicode_len();
    let combined: Vec<String>;
    if first_len > 0 && parts[0].as_str().get_char(0) == '~' {
        let mut c = split_exec(home, '/');
        let mut i: usize = 1;
        proof {
            assert(views_of(c@) =~~= split_on(home@, '/') + views_of(parts@).subrange(1, 1));
        }
        while i < parts.len()
            invariant
                1 <= i <= parts.len(),
                views_of(c@) == split_on(home@, '/') + views_of(parts@).subrange(1, i as int),
            decreases parts.len() - i,
        {
            let ghost old_c = c@;
            c.push(parts[i].clone());
            proof {
                assert(views_of(c@) =~~= views_of(old_c).push(parts@[i as int]@));
                assert(views_of(c@) =~~= split_on(home@, '/') + views_of(parts@).subrange(
                    1,
                    i + 1,
                ));
            }
            i += 1;
        }
        combined = c;
        proof {
            assert(views_of(parts@).subrange(1, parts@.len() as int) =~~= split_on(
                raw@,
                '/',
            ).drop_first());
        }
    } else if first_len > 0 {
        let mut c = split_exec(cwd, '/');
        let mut i: usize = 0;
        proof {
            assert(views_of(c@) =~~= split_on(cwd@, '/') + views_of(parts@).subrange(0, 0));
        }
        while i < parts.len()
            invariant
                i <= parts.len(),
                views_of(c@) == split_on(cwd@, '/') + views_of(parts@).subrange(0, i as int),
            decreases parts.len() - i,
        {
            let ghost old_c = c@;
            c.push(parts[i].clone());
            proof {
                assert(views_of(c@) =~~= views_of(old_c).push(parts@[i as int]@));
                assert(views_of(c@) =~~= split_on(cwd@, '/') + views_of(parts@).subrange(
                    0,
                    i + 1,
                ));
            }
            i += 1;
        }
        combined = c;
        proof {
            assert(views_of(parts@).subrange(0, parts@.len() as int) =~~= split_on(raw@, '/'));
        }
    } else {
        combined = parts;
    }
    let red = reduce_exec(&combined);
    proof {
        reveal_strlit("/");
        assert("/"@ =~= seq!['/']);
    }
    let joined = join_exec(&red, "/");
    let r = String::from_str("/").concat(joined.as_str());
    proof {
        assert(r@ =~= seq!['/'] + join_with(views_of(red@), '/'));
    }
    r
}

/// Normalization is idempotent: a normalized path, run through the
/// normalizer again under any home and current directory, comes back
/// unchanged. In particular the normalizer's results are exactly the
/// canonical path strings.
pub proof fn lemma_normalize_idempotent(
    raw: Seq<char>,
    home: Seq<char>,
    cwd: Seq<char>,
    home2: Seq<char>,
    cwd2: Seq<char>,
)
    ensures
        spec_normalize(spec_normalize(raw, home, cwd), home2, cwd2) == spec_normalize(
            raw,
            home,
            cwd,
        ),
{
    let parts = split_on(raw, '/');
    lemma_split_on_len(raw, '/');
    let combined = if parts[0].len() > 0 && parts[0][0] == '~' {
        split_on(home, '/') + parts.drop_first()
    } else if parts[0].len() > 0 {
        split_on(cwd, '/') + parts
    } else {
        parts
    };
    lemma_split_on_sep_free(raw, '/');
    lemma_split_on_sep_free(home, '/');
    lemma_split_on_sep_free(cwd, '/');
    lemma_split_on_len(home, '/');
    lemma_split_on_len(cwd, '/');
    assert forall|i: int| 0 <= i < combined.len() implies !(#[trigger] combined[i]).contains(
        '/',
    ) by {
        if parts[0].len() > 0 && parts[0][0] == '~' {
            if i < split_on(home, '/').len() {
                assert(combined[i] == split_on(home, '/')[i]);
            } else {
                assert(combined[i] == parts[i - split_on(home, '/').len() + 1]);
            }
        } else if parts[0].len() > 0 {
            if i < split_on(cwd, '/').len() {
                assert(combined[i] == split_on(cwd, '/')[i]);
            } else {
                assert(combined[i] == parts[i - split_on(cwd, '/').len()]);
            }
        }
    }
    let red = reduce(combined);
    lemma_reduce_elems(combined);
    assert forall|i: int| 0 <= i < red.len() implies !(#[trigger] red[i]).contains('/') by {
        let j = choose|j: int| 0 <= j < combined.len() && combined[j] == red[i];
    }
    let r = spec_normalize(raw, home, cwd);
    assert(r == seq!['/'] + join_with(red, '/'));
    assert(r[0] == '/');
    assert(r.drop_first() =~= join_with(red, '/'));
    let parts2 = split_on(r, '/');
    assert(parts2 == seq![Seq::<char>::empty()] + split_on(join_with(red, '/'), '/'));
    assert(parts2[0].len() == 0);
    if red.len() == 0 {
        assert(join_with(red, '/') =~= Seq::<char>::empty());
        assert(split_on(Seq::<char>::empty(), '/') =~~= seq![Seq::<char>::empty()]);
        let p2 = seq![Seq::<char>::empty(), Seq::<char>::empty()];
        assert(parts2 =~~= p2);
        assert(p2.drop_last() =~= seq![Seq::<char>::empty()]);
        assert(reduce(Seq::<Seq<char>>::empty()) =~~= Seq::<Seq<char>>::empty());
        assert(seq![Seq::<char>::empty()].drop_last() =~= Seq::<Seq<char>>::empty());
        assert(reduce(seq![Seq::<char>::empty()]) =~~= Seq::<Seq<char>>::empty());
        assert(reduce(p2) =~~= red);
        assert(spec_normalize(r, home2, cwd2) =~= r);
    } else {
        lemma_join_split_roundtrip(red, '/');
        assert(parts2 =~~= seq![Seq::<char>::empty()] + red);
        lemma_reduce_prepend_empty(red);
        lemma_reduce_normal_id(red);
        assert(spec_normalize(r, home2, cwd2) == seq!['/'] + join_with(red, '/'));
    }
}

/// Relies on `expanduser::expanduser`: expands a leading `~` or
/// `~user` to the named user's home directory, read from the
/// environment or the user database. `None` on failure (unknown user,
/// no home directory, non-UTF-8 home path). The value depends on the
/// environment, so nothing is promised of it.
#[verifier::external_body]
pub(crate) fn home_of(first_seg: &str) -> Option<String> {
    match expanduser::expanduser(first_seg) {
        Ok(p) => match p.to_str() {
            Some(t) => Some(t.to_owned()),
            None => None,
        },
        Err(_) => None,
    }
}

} // verus!

