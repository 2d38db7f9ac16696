//! The selection store: an ordered sequence of unique canonical path
//! strings, together with the text format of its backing store. All
//! file reading and writing is left to the caller; this module works
//! on plain values.

use vstd::prelude::*;

use crate::norm::{home_of, norm_rel, normalize, spec_normalize, tilde_first};
use crate::segments::{join_exec, join_with, lemma_split_on_len, split_exec, split_on, views_of};

verus! {

/// The one error the store can raise of itself: a `~name` form whose
/// home directory could not be resolved.
#[derive(Debug, PartialEq, Eq, Structural)]
pub enum SelectError {
    UnknownHomeUser,
}

/// Keeps the non-empty elements, in order.
pub open spec fn keep_nonempty(s: Seq<Seq<char>>) -> Seq<Seq<char>>
    decreases s.len(),
{
    if s.len() == 0 {
        Seq::<Seq<char>>::empty()
    } else {
        let acc = keep_nonempty(s.drop_last());
        if s.last().len() > 0 {
            acc.push(s.last())
        } else {
            acc
        }
    }
}

/// Keeps, of every group of equal elements, only the earliest one;
/// the order of survivors is the order of their first occurrences.
pub open spec fn dedup_first(s: Seq<Seq<char>>) -> Seq<Seq<char>>
    decreases s.len(),
{
    if s.len() == 0 {
        Seq::<Seq<char>>::empty()
    } else {
        let acc = dedup_first(s.drop_last());
        if s.drop_last().contains(s.last()) {
            acc
        } else {
            acc.push(s.last())
        }
    }
}

/// Keeps the elements that occur nowhere in `targets`, in order.
pub open spec fn remove_all(s: Seq<Seq<char>>, targets: Seq<Seq<char>>) -> Seq<Seq<char>>
    decreases s.len(),
{
    if s.len() == 0 {
        Seq::<Seq<char>>::empty()
    } else {
        let acc = remove_all(s.drop_last(), targets);
        if targets.contains(s.last()) {
            acc
        } else {
            acc.push(s.last())
        }
    }
}

/// How a batch of raw path strings relates to its normalized form:
/// empty strings are dropped, and each survivor is normalized against
/// `cwd` and, for `~` forms, against whatever home directory the
/// environment supplied.
pub open spec fn norms_match(raws: Seq<Seq<char>>, cwd: Seq<char>, norms: Seq<Seq<char>>) -> bool {
    &&& norms.len() == keep_nonempty(raws).len()
    &&& forall|i: int|
        0 <= i < norms.len() ==> norm_rel(#[trigger] keep_nonempty(raws)[i], cwd, norms[i])
}

proof fn lemma_contains_last_split<A>(s: Seq<A>, x: A)
    requires
        s.len() > 0,
    ensures
        s.contains(x) <==> (s.drop_last().contains(x) || s.last() == x),
{
    if s.contains(x) {
        let i = choose|i: int| 0 <= i < s.len() && s[i] == x;
        if i < s.len() - 1 {
            assert(s.drop_last()[i] == x);
        }
    }
    if s.drop_last().contains(x) {
        let i = choose|i: int| 0 <= i < s.drop_last().len() && s.drop_last()[i] == x;
        assert(s[i] == x);
    }
    if s.last() == x {
        assert(s[s.len() - 1] == x);
    }
}

/// Deduplication changes membership in nothing: a value is in the
/// deduplicated sequence exactly when it was in the original.
pub proof fn lemma_dedup_first_contains(s: Seq<Seq<char>>, x: Seq<char>)
    ensures
        dedup_first(s).contains(x) <==> s.contains(x),
    decreases s.len(),
{
    if s.len() == 0 {
        assert(!s.contains(x));
        assert(!dedup_first(s).contains(x));
    } else {
        lemma_dedup_first_contains(s.drop_last(), x);
        lemma_contains_last_split(s, x);
        let acc = dedup_first(s.drop_last());
        if s.drop_last().contains(s.last()) {
            if x == s.last() {
                lemma_dedup_first_contains(s.drop_last(), s.last());
            }
        } else {
            lemma_contains_last_split(acc.push(s.last()), x);
            assert(acc.push(s.last()).drop_last() =~~= acc);
        }
    }
}

/// The selection list holds no duplicates: deduplication by first
/// occurrence leaves all elements pairwise distinct.
pub proof fn lemma_dedup_first_distinct(s: Seq<Seq<char>>)
    ensures
        forall|i: int, j: int|
            0 <= i < j < dedup_first(s).len() ==> dedup_first(s)[i] != dedup_first(s)[j],
    decreases s.len(),
{
    if s.len() == 0 {
    } else {
        lemma_dedup_first_distinct(s.drop_last());
        let acc = dedup_first(s.drop_last());
        if !s.drop_last().contains(s.last()) {
            lemma_dedup_first_contains(s.drop_last(), s.last());
            assert forall|i: int, j: int| 0 <= i < j < dedup_first(s).len() implies dedup_first(
                s,
            )[i] != dedup_first(s)[j] by {
                if j == acc.len() {
                    assert(dedup_first(s)[i] == acc[i]);
                    assert(acc.contains(acc[i]));
                }
            }
        }
    }
}

/// Whether some element of `v` has the view `x@`.
fn contains_string(v: &Vec<String>, x: &String) -> (r: bool)
    ensures
        r == views_of(v@).contains(x@),
{
    let mut i: usize = 0;
    while i < v.len()
        invariant
            i <= v.len(),
            forall|j: int| 0 <= j < i ==> views_of(v@)[j] != x@,
        decreases v.len() - i,
    {
        if v[i].eq(x) {
            proof {
                assert(views_of(v@)[i as int] == x@);
            }
            return true;
        }
        i += 1;
    }
    proof {
        if views_of(v@).contains(x@) {
            let j = choose|j: int| 0 <= j < views_of(v@).len() && views_of(v@)[j] == x@;
        }
    }
    false
}

/// Drops the empty strings of `raws` and normalizes each survivor
/// against `cwd`, expanding a leading `~` through the environment's
/// home-directory lookup. Fails, leaving nothing done, exactly when
/// such a lookup fails; a batch without `~` forms always succeeds.
pub fn normalize_batch(raws: &Vec<String>, cwd: &str) -> (r: Result<Vec<String>, SelectError>)
    ensures
        r matches Ok(norms) ==> norms_match(views_of(raws@), cwd@, views_of(norms@)),
        r is Err ==> exists|i: int|
            0 <= i < raws@.len() && #[trigger] tilde_first(raws@[i]@),
        (forall|i: int| 0 <= i < raws@.len() ==> !(#[trigger] tilde_first(raws@[i]@))) ==> r is Ok,
{
    let mut norms: Vec<String> = Vec::new();
    let mut i: usize = 0;
    proof {
        assert(views_of(raws@).take(0) =~~= Seq::<Seq<char>>::empty());
        assert(keep_nonempty(views_of(raws@).take(0)) =~~= Seq::<Seq<char>>::empty());
    }
    while i < raws.len()
        invariant
            i <= raws.len(),
            norms_match(views_of(raws@).take(i as int), cwd@, views_of(norms@)),
        decreases raws.len() - i,
    {
        proof {
            assert(views_of(raws@).take(i + 1).drop_last() =~~= views_of(raws@).take(i as int));
            assert(views_of(raws@).take(i + 1).last() == raws@[i as int]@);
        }
        let raw = &raws[i];
        let n = raw.as_str().unicode_len();
        if n == 0 {
            // empty items are filtered out
        } else {
            let normalized: String;
            if raw.as_str().get_char(0) == '~' {
                let parts = split_exec(raw.as_str(), '/');
                proof {
                    lemma_split_on_len(raw@, '/');
                    assert(parts@[0]@ == split_on(raw@, '/')[0]);
                }
                match home_of(parts[0].as_str()) {
                    Some(h) => {
                        normalized = normalize(raw.as_str(), h.as_str(), cwd);
                        proof {
                            assert(norm_rel(raw@, cwd@, normalized@)) by {
                                assert(normalized@ == spec_normalize(raw@, h@, cwd@));
                            }
                        }
                    },
                    None => {
                        proof {
                            assert(tilde_first(raws@[i as int]@));
                        }
                        return Err(SelectError::UnknownHomeUser);
                    },
                }
            } else {
                proof {
                    reveal_strlit("");
                    assert(""@ =~= Seq::<char>::empty());
                }
                normalized = normalize(raw.as_str(), "", cwd);
                proof {
                    assert(norm_rel(raw@, cwd@, normalized@));
                }
            }
            let ghost old_norms = norms@;
            norms.push(normalized);
            proof {
                assert(views_of(norms@) =~~= views_of(old_norms).push(normalized@));
                let kept = keep_nonempty(views_of(raws@).take(i + 1));
                assert(kept =~~= keep_nonempty(views_of(raws@).take(i as int)).push(
                    raws@[i as int]@,
                ));
                assert forall|k: int| 0 <= k < views_of(norms@).len() implies norm_rel(
                    #[trigger] kept[k],
                    cwd@,
                    views_of(norms@)[k],
                ) by {
                    if k < views_of(old_norms).len() {
                        assert(kept[k] == keep_nonempty(views_of(raws@).take(i as int))[k]);
                        assert(views_of(norms@)[k] == views_of(old_norms)[k]);
                    }
                }
            }
        }
        i += 1;
    }
    proof {
        assert(views_of(raws@).take(raws@.len() as int) =~~= views_of(raws@));
    }
    Ok(norms)
}

/// Appends `more` to `existing` and deduplicates, keeping of every
/// group of equal strings only its first occurrence.
fn merge_dedup(existing: &Vec<String>, more: &Vec<String>) -> (r: Vec<String>)
    ensures
        views_of(r@) == dedup_first(views_of(existing@) + views_of(more@)),
{
    let ghost a = views_of(existing@);
    let mut out: Vec<String> = Vec::new();
    let mut i: usize = 0;
    proof {
        assert(a.take(0) =~~= Seq::<Seq<char>>::empty());
        assert(views_of(out@) =~~= dedup_first(a.take(0)));
    }
    while i < existing.len()
        invariant
            i <= existing.len(),
            a == views_of(existing@),
            views_of(out@) == dedup_first(a.take(i as int)),
        decreases existing.len() - i,
    {
        proof {
            assert(a.take(i + 1).drop_last() =~~= a.take(i as int));
            assert(a.take(i + 1).last() == existing@[i as int]@);
            lemma_dedup_first_contains(a.take(i as int), existing@[i as int]@);
        }
        if !contains_string(&out, &existing[i]) {
            let ghost old_out = out@;
            out.push(existing[i].clone());
            proof {
                assert(views_of(out@) =~~= views_of(old_out).push(existing@[i as int]@));
            }
        }
        i += 1;
    }
    proof {
        assert(a.take(existing@.len() as int) =~~= a);
    }
    let mut j: usize = 0;
    proof {
        assert(views_of(more@).take(0) =~~= Seq::<Seq<char>>::empty());
        assert(a + views_of(more@).take(0) =~~= a);
    }
    while j < more.len()
        invariant
            j <= more.len(),
            a == views_of(existing@),
            views_of(out@) == dedup_first(a + views_of(more@).take(j as int)),
        decreases more.len() - j,
    {
        proof {
            assert((a + views_of(more@).take(j + 1)).drop_last() =~~= a + views_of(more@).take(
                j as int,
            ));
            assert((a + views_of(more@).take(j + 1)).last() == more@[j as int]@);
            lemma_dedup_first_contains(a + views_of(more@).take(j as int), more@[j as int]@);
        }
        if !contains_string(&out, &more[j]) {
            let ghost old_out = out@;
            out.push(more[j].clone());
            proof {
                assert(views_of(out@) =~~= views_of(old_out).push(more@[j as int]@));
            }
        }
        j += 1;
    }
    proof {
        assert(a + views_of(more@).take(more@.len() as int) =~~= views_of(existing@) + views_of(
            more@,
        ));
    }
    out
}

/// Keeps the elements of `existing` that occur nowhere in `targets`.
fn filter_not_in(existing: &Vec<String>, targets: &Vec<String>) -> (r: Vec<String>)
    ensures
        views_of(r@) == remove_all(views_of(existing@), views_of(targets@)),
{
    let ghost a = views_of(existing@);
    let mut out: Vec<String> = Vec::new();
    let mut i: usize = 0;
    proof {
        assert(a.take(0) =~~= Seq::<Seq<char>>::empty());
        assert(views_of(out@) =~~= remove_all(a.take(0), views_of(targets@)));
    }
    while i < existing.len()
        invariant
            i <= existing.len(),
            a == views_of(existing@),
            views_of(out@) == remove_all(a.take(i as int), views_of(targets@)),
        decreases existing.len() - i,
    {
        proof {
            assert(a.take(i + 1).drop_last() =~~= a.take(i as int));
            assert(a.take(i + 1).last() == existing@[i as int]@);
        }
        if !contains_string(targets, &existing[i]) {
            let ghost old_out = out@;
            out.push(existing[i].clone());
            proof {
                assert(views_of(out@) =~~= views_of(old_out).push(existing@[i as int]@));
            }
        }
        i += 1;
    }
    proof {
        assert(a.take(existing@.len() as int) =~~= a);
    }
    out
}

/// The location of the backing store: a fast memory-backed directory
/// when the system has one, a generic temporary directory otherwise.
pub open spec fn spec_store_path(shm_is_dir: bool) -> Seq<char> {
    if shm_is_dir {
        "/dev/shm/xfiles"@
    } else {
        "/tmp/xfiles"@
    }
}

/// An ordered selection of canonical path strings, with the location
/// of the text file that persists it. Reading and writing that file
/// is the caller's business; `load` and `render_items` translate
/// between the file's text and the list.
pub struct Selection {
    path: String,
    items: Vec<String>,
}

impl Selection {
    /// The backing store's filesystem path.
    pub closed spec fn spec_path(&self) -> Seq<char> {
        self.path@
    }

    /// The stored path strings, in order.
    pub closed spec fn spec_items(&self) -> Seq<Seq<char>> {
        views_of(self.items@)
    }

    /// An empty selection. `shm_is_dir` says whether the preferred
    /// fast directory exists on this system.
    pub fn new(shm_is_dir: bool) -> (s: Selection)
        ensures
            s.spec_path() == spec_store_path(shm_is_dir),
            s.spec_items().len() == 0,
    {
        let path = if shm_is_dir {
            String::from_str("/dev/shm/xfiles")
        } else {
            String::from_str("/tmp/xfiles")
        };
        let s = Selection { path, items: Vec::new() };
        proof {
            assert(s.spec_items() =~~= Seq::<Seq<char>>::empty());
        }
        s
    }

    /// A selection read back from the backing store's text: one item
    /// per line, blank lines skipped. Absent backing text is the
    /// empty string, giving the empty selection.
    pub fn load(shm_is_dir: bool, text: &str) -> (s: Selection)
        ensures
            s.spec_path() == spec_store_path(shm_is_dir),
            s.spec_items() == keep_nonempty(split_on(text@, '\n')),
    {
        let items = parse_items(text);
        let mut s = Selection::new(shm_is_dir);
        s.items = items;
        s
    }

    /// The text to persist: the items joined by single newlines.
    pub fn render(&self) -> (r: String)
        ensures
            r@ == join_with(self.spec_items(), '\n'),
    {
        render_items(&self.items)
    }

    /// Normalizes the non-empty strings of `raws` and appends them,
    /// then deduplicates keeping first occurrences. Fails, changing
    /// nothing, exactly when a `~name` lookup fails; without `~`
    /// forms it always succeeds.
    pub fn add(&mut self, raws: &Vec<String>, cwd: &str) -> (r: Result<(), SelectError>)
        ensures
            final(self).spec_path() == old(self).spec_path(),
            r is Err ==> *final(self) == *old(self),
            r is Err ==> exists|i: int|
                0 <= i < raws@.len() && #[trigger] tilde_first(raws@[i]@),
            (forall|i: int| 0 <= i < raws@.len() ==> !(#[trigger] tilde_first(raws@[i]@)))
                ==> r is Ok,
            r is Ok ==> exists|norms: Seq<Seq<char>>|
                norms_match(views_of(raws@), cwd@, norms) && final(self).spec_items()
                    == dedup_first(old(self).spec_items() + norms),
    {
        let norms = match normalize_batch(raws, cwd) {
            Ok(v) => v,
            Err(e) => {
                return Err(e);
            },
        };
        let merged = merge_dedup(&self.items, &norms);
        self.items = merged;
        proof {
            assert(norms_match(views_of(raws@), cwd@, views_of(norms@)));
            assert(final(self).spec_items() == dedup_first(
                old(self).spec_items() + views_of(norms@),
            ));
        }
        Ok(())
    }

    /// Normalizes the non-empty strings of `raws` and removes every
    /// stored item equal to one of them; the other items keep their
    /// order. Fails, changing nothing, exactly when a `~name` lookup
    /// fails; without `~` forms it always succeeds.
    pub fn remove(&mut self, raws: &Vec<String>, cwd: &str) -> (r: Result<(), SelectError>)
        ensures
            final(self).spec_path() == old(self).spec_path(),
            r is Err ==> *final(self) == *old(self),
            r is Err ==> exists|i: int|
                0 <= i < raws@.len() && #[trigger] tilde_first(raws@[i]@),
            (forall|i: int| 0 <= i < raws@.len() ==> !(#[trigger] tilde_first(raws@[i]@)))
                ==> r is Ok,
            r is Ok ==> exists|norms: Seq<Seq<char>>|
                norms_match(views_of(raws@), cwd@, norms) && final(self).spec_items()
                    == remove_all(old(self).spec_items(), norms),
    {
        let norms = match normalize_batch(raws, cwd) {
            Ok(v) => v,
            Err(e) => {
                return Err(e);
            },
        };
        let kept = filter_not_in(&self.items, &norms);
        self.items = kept;
        proof {
            assert(norms_match(views_of(raws@), cwd@, views_of(norms@)));
            assert(final(self).spec_items() == remove_all(
                old(self).spec_items(),
                views_of(norms@),
            ));
        }
        Ok(())
    }

    /// Empties the selection.
    pub fn clear(&mut self)
        ensures
            final(self).spec_path() == old(self).spec_path(),
            final(self).spec_items().len() == 0,
    {
        self.items = Vec::new();
        proof {
            assert(final(self).spec_items() =~~= Seq::<Seq<char>>::empty());
        }
    }

    /// The stored items, in order, for display.
    pub fn show(&self) -> (r: Vec<String>)
        ensures
            views_of(r@) == self.spec_items(),
    {
        let mut out: Vec<String> = Vec::new();
        let mut i: usize = 0;
        proof {
            assert(views_of(out@) =~~= self.spec_items().take(0));
        }
        while i < self.items.len()
            invariant
                i <= self.items.len(),
                views_of(out@) == self.spec_items().take(i as int),
        decreases self.items.len() - i,
        {
            let ghost old_out = out@;
            out.push(self.items[i].clone());
            proof {
                assert(views_of(out@) =~~= views_of(old_out).push(self.items@[i as int]@));
                assert(views_of(out@) =~~= self.spec_items().take(i + 1));
            }
            i += 1;
        }
        proof {
            assert(self.spec_items().take(self.items@.len() as int) =~~= self.spec_items());
        }
        out
    }

    /// The backing store's filesystem path, for display.
    pub fn show_path(&self) -> (r: String)
        ensures
            r@ == self.spec_path(),
    {
        self.path.clone()
    }
}

/// The items encoded in the backing store's text: one per line, blank
/// lines skipped.
pub fn parse_items(text: &str) -> (items: Vec<String>)
    ensures
        views_of(items@) == keep_nonempty(split_on(text@, '\n')),
{
    let lines = split_exec(text, '\n');
    let mut out: Vec<String> = Vec::new();
    let mut i: usize = 0;
    proof {
        assert(views_of(lines@).take(0) =~~= Seq::<Seq<char>>::empty());
        assert(views_of(out@) =~~= keep_nonempty(views_of(lines@).take(0)));
    }
    while i < lines.len()
        invariant
            i <= lines.len(),
            views_of(lines@) == split_on(text@, '\n'),
            views_of(out@) == keep_nonempty(views_of(lines@).take(i as int)),
        decreases lines.len() - i,
    {
        proof {
            assert(views_of(lines@).take(i + 1).drop_last() =~~= views_of(lines@).take(i as int));
            assert(views_of(lines@).take(i + 1).last() == lines@[i as int]@);
        }
        if lines[i].as_str().unicode_len() > 0 {
            let ghost old_out = out@;
            out.push(lines[i].clone());
            proof {
                assert(views_of(out@) =~~= views_of(old_out).push(lines@[i as int]@));
            }
        }
        i += 1;
    }
    proof {
        assert(views_of(lines@).take(lines@.len() as int) =~~= views_of(lines@));
    }
    out
}

/// The backing store's text for a list of items: the items joined by
/// single newlines.
pub fn render_items(items: &Vec<String>) -> (r: String)
    ensures
        r@ == join_with(views_of(items@), '\n'),
{
    proof {
        reveal_strlit("\n");
        assert("\n"@ =~= seq!['\n']);
    }
    join_exec(items, "\n")
}

} // verus!
