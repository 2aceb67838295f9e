//! The ordered `PATH` list: splitting a colon-separated string into entries,
//! joining entries back, and toggling one entry's membership.

use vstd::prelude::*;

use crate::strings::{split_char, lemma_split_no_sep, lemma_split_first_sep};

verus! {

/// The components of `s` split on ':'.  Splitting the empty string gives a
/// single empty component, matching how a shell reads `PATH=""`.
pub open spec fn split_colon(s: Seq<char>) -> Seq<Seq<char>> {
    split_char(s, ':')
}

/// The components joined with a ':' between each pair.
pub open spec fn join_colon(l: Seq<Seq<char>>) -> Seq<char>
    decreases l.len(),
{
    if l.len() == 0 {
        Seq::empty()
    } else if l.len() == 1 {
        l[0]
    } else {
        l[0] + seq![':'] + join_colon(l.drop_first())
    }
}

/// `l` with every occurrence of `x` removed, other entries kept in order.
pub open spec fn remove_all(l: Seq<Seq<char>>, x: Seq<char>) -> Seq<Seq<char>>
    decreases l.len(),
{
    if l.len() == 0 {
        Seq::empty()
    } else if l[0] == x {
        remove_all(l.drop_first(), x)
    } else {
        seq![l[0]] + remove_all(l.drop_first(), x)
    }
}

/// What one toggle does to the list: drop a present entry everywhere, or put
/// an absent one in front.
pub open spec fn toggle_spec(l: Seq<Seq<char>>, d: Seq<char>) -> Seq<Seq<char>> {
    if l.contains(d) {
        remove_all(l, d)
    } else {
        seq![d] + l
    }
}

pub proof fn lemma_join_push(l: Seq<Seq<char>>, x: Seq<char>)
    ensures
        join_colon(l.push(x)) == if l.len() == 0 {
            x
        } else {
            join_colon(l) + seq![':'] + x
        },
    decreases l.len(),
{
    if l.len() == 0 {
        assert(l.push(x)[0] == x);
        assert(join_colon(l.push(x)) == x);
    } else {
        let p = l.push(x);
        assert(p.len() >= 2);
        assert(p[0] == l[0]);
        assert(p.drop_first() =~= l.drop_first().push(x));
        lemma_join_push(l.drop_first(), x);
        if l.len() == 1 {
            assert(l.drop_first().len() == 0);
            assert(join_colon(p) == l[0] + seq![':'] + x);
        } else {
            assert(join_colon(p) == l[0] + seq![':'] + (join_colon(l.drop_first()) + seq![':'] + x));
            assert(l[0] + seq![':'] + (join_colon(l.drop_first()) + seq![':'] + x) =~= (l[0]
                + seq![':'] + join_colon(l.drop_first())) + seq![':'] + x);
        }
    }
}

/// Splitting undoes joining, for any nonempty list of colon-free entries.
/// This is what ties the in-memory list to the text between the quotes of the
/// rewritten `export PATH="..."` line: the line's colon-separated components
/// are exactly the list's entries, in order.
pub proof fn lemma_split_join_roundtrip(l: Seq<Seq<char>>)
    requires
        l.len() >= 1,
        forall|i: int| 0 <= i < l.len() ==> !(#[trigger] l[i]).contains(':'),
    ensures
        split_colon(join_colon(l)) == l,
    decreases l.len(),
{
    if l.len() == 1 {
        lemma_split_no_sep(l[0], ':');
        assert(seq![l[0]] =~= l);
    } else {
        let s = join_colon(l);
        let rest = join_colon(l.drop_first());
        let n0 = l[0].len() as int;
        assert(s == l[0] + seq![':'] + rest);
        assert(s.len() == n0 + 1 + rest.len());
        assert(forall|j: int| 0 <= j < n0 ==> s[j] == l[0][j]);
        assert(s[n0] == ':');
        assert(forall|j: int| 0 <= j < n0 ==> s[j] != ':') by {
            assert(forall|j: int| 0 <= j < n0 ==> s[j] == l[0][j]);
        }
        lemma_split_first_sep(s, ':', n0);
        assert(s.take(n0) =~= l[0]);
        assert(s.skip(n0 + 1) =~= rest);
        assert(forall|i: int|
            0 <= i < l.drop_first().len() ==> l.drop_first()[i] == l[i + 1]);
        lemma_split_join_roundtrip(l.drop_first());
        assert(split_colon(s) =~= seq![l[0]] + l.drop_first());
        assert(seq![l[0]] + l.drop_first() =~= l);
    }
}

/// Removal is complete: the removed entry is gone from the result.
pub proof fn lemma_remove_all_not_contains(l: Seq<Seq<char>>, x: Seq<char>)
    ensures
        !remove_all(l, x).contains(x),
    decreases l.len(),
{
    if l.len() > 0 {
        lemma_remove_all_not_contains(l.drop_first(), x);
    }
}

/// Removing an entry that is not present changes nothing.
pub proof fn lemma_remove_all_id(l: Seq<Seq<char>>, x: Seq<char>)
    requires
        !l.contains(x),
    ensures
        remove_all(l, x) == l,
    decreases l.len(),
{
    if l.len() > 0 {
        assert(l[0] != x);
        assert(!l.drop_first().contains(x)) by {
            assert(forall|i: int|
                0 <= i < l.drop_first().len() ==> l.drop_first()[i] == l[i + 1]);
        }
        lemma_remove_all_id(l.drop_first(), x);
        assert(seq![l[0]] + l.drop_first() =~= l);
    } else {
        assert(remove_all(l, x) =~= l);
    }
}

pub proof fn lemma_remove_all_append(a: Seq<Seq<char>>, b: Seq<Seq<char>>, x: Seq<char>)
    ensures
        remove_all(a + b, x) == remove_all(a, x) + remove_all(b, x),
    decreases a.len(),
{
    if a.len() == 0 {
        assert(a + b =~= b);
        assert(remove_all(a, x) + remove_all(b, x) =~= remove_all(b, x));
    } else {
        assert((a + b)[0] == a[0]);
        assert((a + b).drop_first() =~= a.drop_first() + b);
        lemma_remove_all_append(a.drop_first(), b, x);
        if a[0] == x {
        } else {
            assert(seq![a[0]] + (remove_all(a.drop_first(), x) + remove_all(b, x)) =~= (seq![a[0]]
                + remove_all(a.drop_first(), x)) + remove_all(b, x));
        }
    }
}

/// Removal is exact: entries other than the removed one are untouched.
pub proof fn lemma_remove_all_keeps_others(l: Seq<Seq<char>>, x: Seq<char>, y: Seq<char>)
    requires
        y != x,
    ensures
        remove_all(l, x).contains(y) <==> l.contains(y),
    decreases l.len(),
{
    if l.len() > 0 {
        lemma_remove_all_keeps_others(l.drop_first(), x, y);
        assert(forall|i: int|
            0 <= i < l.drop_first().len() ==> l.drop_first()[i] == l[i + 1]);
        if l.contains(y) {
            let w = choose|i: int| 0 <= i < l.len() && l[i] == y;
            if w > 0 {
                assert(l.drop_first()[w - 1] == y);
            }
            if l[0] == x {
                assert(remove_all(l, x).contains(y));
            } else {
                let r = remove_all(l.drop_first(), x);
                if l[0] == y {
                    assert((seq![l[0]] + r)[0] == y);
                } else {
                    assert(r.contains(y));
                    let v = choose|i: int| 0 <= i < r.len() && r[i] == y;
                    assert((seq![l[0]] + r)[v + 1] == y);
                }
                assert(remove_all(l, x).contains(y));
            }
        } else {
            if remove_all(l, x).contains(y) {
                if l[0] == x {
                    assert(l.drop_first().contains(y));
                    let v = choose|i: int| 0 <= i < l.drop_first().len() && l.drop_first()[i] == y;
                    assert(l[v + 1] == y);
                } else {
                    let r = remove_all(l.drop_first(), x);
                    let v = choose|i: int|
                        0 <= i < (seq![l[0]] + r).len() && (seq![l[0]] + r)[i] == y;
                    if v == 0 {
                        assert(l[0] == y);
                    } else {
                        assert(r[v - 1] == y);
                        assert(l.drop_first().contains(y));
                        let u = choose|i: int|
                            0 <= i < l.drop_first().len() && l.drop_first()[i] == y;
                        assert(l[u + 1] == y);
                    }
                }
                assert(false);
            }
        }
    }
}

/// Every entry that survives a removal was already in the list.
pub proof fn lemma_remove_all_subset(l: Seq<Seq<char>>, x: Seq<char>)
    ensures
        forall|i: int|
            0 <= i < remove_all(l, x).len() ==> l.contains(#[trigger] remove_all(l, x)[i]),
    decreases l.len(),
{
    if l.len() > 0 {
        lemma_remove_all_subset(l.drop_first(), x);
        assert(forall|i: int|
            0 <= i < l.drop_first().len() ==> l.drop_first()[i] == l[i + 1]);
        assert forall|i: int|
            0 <= i < remove_all(l, x).len() implies l.contains(#[trigger] remove_all(l, x)[i]) by {
            let d = l.drop_first();
            if l[0] == x {
                assert(remove_all(l, x)[i] == remove_all(d, x)[i]);
                assert(d.contains(remove_all(d, x)[i]));
                let w = choose|k: int| 0 <= k < d.len() && d[k] == remove_all(d, x)[i];
                assert(l[w + 1] == remove_all(d, x)[i]);
            } else {
                if i == 0 {
                    assert(remove_all(l, x)[0] == l[0]);
                } else {
                    assert(remove_all(l, x)[i] == remove_all(d, x)[i - 1]);
                    assert(d.contains(remove_all(d, x)[i - 1]));
                    let w = choose|k: int| 0 <= k < d.len() && d[k] == remove_all(d, x)[i - 1];
                    assert(l[w + 1] == remove_all(d, x)[i - 1]);
                }
            }
        }
    }
}

/// A freshly added directory heads the joined `PATH` value: after toggling
/// an absent, colon-free directory into a list of colon-free entries, it is
/// the first colon-separated component of the value the export line holds.
pub proof fn lemma_added_first_component(l: Seq<Seq<char>>, d: Seq<char>)
    requires
        !l.contains(d),
        !d.contains(':'),
        forall|i: int| 0 <= i < l.len() ==> !(#[trigger] l[i]).contains(':'),
    ensures
        split_colon(join_colon(toggle_spec(l, d)))[0] == d,
{
    let t = seq![d] + l;
    assert(toggle_spec(l, d) == t);
    assert(forall|i: int| 0 <= i < t.len() ==> !(#[trigger] t[i]).contains(':')) by {
        assert(t[0] == d);
        assert(forall|i: int| 1 <= i < t.len() ==> t[i] == l[i - 1]);
    }
    lemma_split_join_roundtrip(t);
    assert(t[0] == d);
}

/// A removed directory is gone from the joined `PATH` value: after toggling
/// a present directory out of a list of colon-free entries, it is not among
/// the colon-separated components of the value the export line holds.  (The
/// one exception is toggling the empty entry out of a list of empty entries:
/// the empty joined value still reads back as one empty component.)
pub proof fn lemma_removed_not_component(l: Seq<Seq<char>>, d: Seq<char>)
    requires
        l.contains(d),
        forall|i: int| 0 <= i < l.len() ==> !(#[trigger] l[i]).contains(':'),
        remove_all(l, d).len() >= 1 || d.len() > 0,
    ensures
        !split_colon(join_colon(toggle_spec(l, d))).contains(d),
{
    let t = remove_all(l, d);
    assert(toggle_spec(l, d) == t);
    lemma_remove_all_not_contains(l, d);
    if t.len() >= 1 {
        lemma_remove_all_subset(l, d);
        assert(forall|i: int| 0 <= i < t.len() ==> !(#[trigger] t[i]).contains(':')) by {
            assert(forall|i: int| 0 <= i < t.len() ==> l.contains(#[trigger] t[i]));
        }
        lemma_split_join_roundtrip(t);
    } else {
        assert(t =~= Seq::<Seq<char>>::empty());
        assert(join_colon(t) == Seq::<char>::empty());
        assert(split_colon(join_colon(t)) =~= seq![Seq::<char>::empty()]) by {
            assert(!Seq::<char>::empty().contains(':'));
            crate::strings::lemma_split_no_sep(Seq::<char>::empty(), ':');
        }
        if split_colon(join_colon(t)).contains(d) {
            let w = choose|i: int|
                0 <= i < split_colon(join_colon(t)).len() && split_colon(join_colon(t))[i] == d;
            assert(d == Seq::<char>::empty());
        }
    }
}

/// Toggling the same directory twice restores the list.  This holds whenever
/// the directory is absent, and also when it is present exactly once, at the
/// front; a directory sitting elsewhere in the list would come back at the
/// front instead of its old place.
pub proof fn lemma_toggle_twice(l: Seq<Seq<char>>, d: Seq<char>)
    requires
        !l.contains(d) || l == seq![d] + remove_all(l, d),
    ensures
        toggle_spec(toggle_spec(l, d), d) == l,
{
    if !l.contains(d) {
        let t = seq![d] + l;
        assert(t[0] == d);
        assert(t.contains(d));
        lemma_remove_all_append(seq![d], l, d);
        assert(seq![d].drop_first() =~= Seq::<Seq<char>>::empty());
        assert(remove_all(Seq::<Seq<char>>::empty(), d) == Seq::<Seq<char>>::empty());
        assert(remove_all(seq![d], d) =~= Seq::<Seq<char>>::empty());
        lemma_remove_all_id(l, d);
        assert(remove_all(t, d) =~= l);
    } else {
        assert(l[0] == d);
        assert(l.contains(d));
        let t = remove_all(l, d);
        lemma_remove_all_not_contains(l, d);
        assert(toggle_spec(t, d) == seq![d] + t);
    }
}

pub(crate) proof fn lemma_deep_view_push(v0: Vec<String>, v1: Vec<String>, x: String)
    requires
        v1@ == v0@.push(x),
    ensures
        v1.deep_view() == v0.deep_view().push(x@),
{
    assert(v1.deep_view() =~= v0.deep_view().push(x@));
}

pub(crate) proof fn lemma_deep_view_insert_front(v0: Vec<String>, v1: Vec<String>, x: String)
    requires
        v1@ == v0@.insert(0, x),
    ensures
        v1.deep_view() == seq![x@] + v0.deep_view(),
{
    assert(v1.deep_view() =~= seq![x@] + v0.deep_view());
}

/// Split a `PATH` environment string on ':' into its entries.
pub fn parse_path_env(path_env: &str) -> (r: Vec<String>)
    ensures
        r.deep_view() == split_colon(path_env@),
{
    let n: usize = path_env.unicode_len();
    let mut r: Vec<String> = Vec::new();
    let mut start: usize = 0;
    let mut i: usize = 0;
    proof {
        assert(path_env@.subrange(0, n as int) =~= path_env@);
        assert(r.deep_view() =~= Seq::<Seq<char>>::empty());
        assert(Seq::<Seq<char>>::empty() + split_colon(path_env@) =~= split_colon(path_env@));
    }
    while i < n
        invariant
            n == path_env@.len(),
            start <= i <= n,
            split_colon(path_env@) == r.deep_view() + split_colon(
                path_env@.subrange(start as int, n as int),
            ),
            forall|j: int| start <= j < i ==> path_env@[j] != ':',
        decreases n - i,
    {
        let c = path_env.get_char(i);
        if c == ':' {
            let seg = path_env.substring_char(start, i);
            let owned: String = seg.to_owned();
            let ghost x = owned;
            let ghost r0 = r;
            r.push(owned);
            proof {
                let ghost suffix = path_env@.subrange(start as int, n as int);
                assert(forall|k: int| 0 <= k < suffix.len() ==> suffix[k] == path_env@[start + k]);
                assert(suffix[i - start] == ':');
                lemma_split_first_sep(suffix, ':', i - start);
                assert(suffix.take(i - start) =~= path_env@.subrange(start as int, i as int));
                assert(suffix.skip(i - start + 1) =~= path_env@.subrange(i + 1, n as int));
                lemma_deep_view_push(r0, r, x);
                assert(r.deep_view() =~= r0.deep_view() + seq![x@]);
                assert(r0.deep_view() + (seq![x@] + split_colon(
                    path_env@.subrange(i + 1, n as int),
                )) =~= (r0.deep_view() + seq![x@]) + split_colon(
                    path_env@.subrange(i + 1, n as int),
                ));
            }
            start = i + 1;
        }
        i = i + 1;
    }
    let seg = path_env.substring_char(start, n);
    let owned: String = seg.to_owned();
    let ghost x = owned;
    let ghost r0 = r;
    r.push(owned);
    proof {
        let ghost suffix = path_env@.subrange(start as int, n as int);
        assert(forall|k: int| 0 <= k < suffix.len() ==> suffix[k] == path_env@[start + k]);
        assert(!suffix.contains(':'));
        lemma_split_no_sep(suffix, ':');
        lemma_deep_view_push(r0, r, x);
        assert(r.deep_view() =~= r0.deep_view() + seq![x@]);
    }
    r
}

/// Join the entries with ':' into a single `PATH` value.
pub fn join_paths(paths: &Vec<String>) -> (r: String)
    ensures
        r@ == join_colon(paths.deep_view()),
{
    let mut r = String::new();
    let n: usize = paths.len();
    let mut i: usize = 0;
    while i < n
        invariant
            n == paths@.len(),
            i <= n,
            r@ == join_colon(paths.deep_view().take(i as int)),
        decreases n - i,
    {
        if i > 0 {
            r.append(":");
            proof {
                reveal_strlit(":");
                assert(":"@ =~= seq![':']);
            }
        }
        r.append(paths[i].as_str());
        proof {
            let d = paths.deep_view();
            lemma_join_push(d.take(i as int), d[i as int]);
            assert(d.take(i + 1) =~= d.take(i as int).push(d[i as int]));
            if i == 0 {
                assert(r@ =~= join_colon(d.take(1)));
            } else {
                assert(r@ =~= join_colon(d.take(i as int)) + seq![':'] + d[i as int]);
            }
        }
        i = i + 1;
    }
    proof {
        assert(paths.deep_view().take(n as int) =~= paths.deep_view());
    }
    r
}

/// Membership test against the entries' character sequences.
pub fn list_contains(paths: &Vec<String>, x: &str) -> (r: bool)
    ensures
        r == paths.deep_view().contains(x@),
{
    let xs: String = x.to_owned();
    let n: usize = paths.len();
    let mut i: usize = 0;
    while i < n
        invariant
            n == paths@.len(),
            i <= n,
            xs@ == x@,
            forall|k: int| 0 <= k < i ==> paths.deep_view()[k] != x@,
        decreases n - i,
    {
        if paths[i].eq(&xs) {
            assert(paths.deep_view()[i as int] == x@);
            assert(paths.deep_view().contains(x@));
            return true;
        }
        i = i + 1;
    }
    assert(!paths.deep_view().contains(x@));
    false
}

/// Remove every occurrence of `arg` from the list, keeping the rest in order.
pub fn path_remove(arg: &str, path_array: &mut Vec<String>)
    ensures
        final (path_array).deep_view() == remove_all(old(path_array).deep_view(), arg@),
{
    let xs: String = arg.to_owned();
    let n: usize = path_array.len();
    let mut out: Vec<String> = Vec::new();
    let mut i: usize = 0;
    while i < n
        invariant
            *path_array == *old(path_array),
            n == path_array@.len(),
            i <= n,
            xs@ == arg@,
            out.deep_view() == remove_all(path_array.deep_view().take(i as int), arg@),
        decreases n - i,
    {
        let ghost out0 = out;
        let keep = !path_array[i].eq(&xs);
        if keep {
            out.push(path_array[i].clone());
        }
        proof {
            let d = path_array.deep_view();
            let e = seq![d[i as int]];
            lemma_remove_all_append(d.take(i as int), e, arg@);
            assert(d.take(i + 1) =~= d.take(i as int) + e);
            assert(e.drop_first() =~= Seq::<Seq<char>>::empty());
            assert(remove_all(Seq::<Seq<char>>::empty(), arg@) == Seq::<Seq<char>>::empty());
            if keep {
                assert(remove_all(e, arg@) =~= e);
                lemma_deep_view_push(out0, out, path_array@[i as int]);
                assert(out.deep_view() =~= out0.deep_view() + e);
            } else {
                assert(remove_all(e, arg@) =~= Seq::<Seq<char>>::empty());
                assert(out.deep_view() =~= out0.deep_view() + remove_all(e, arg@));
            }
        }
        i = i + 1;
    }
    proof {
        assert(path_array.deep_view().take(n as int) =~= path_array.deep_view());
    }
    *path_array = out;
}

/// Remove every occurrence of `arg`, then put it at the front, where the
/// shell searches first.
pub fn path_prepend(arg: &str, path_array: &mut Vec<String>)
    ensures
        final (path_array).deep_view() == seq![arg@] + remove_all(
            old(path_array).deep_view(),
            arg@,
        ),
{
    path_remove(arg, path_array);
    let owned: String = arg.to_owned();
    let ghost x = owned;
    let ghost v0 = *path_array;
    path_array.insert(0, owned);
    proof {
        lemma_deep_view_insert_front(v0, *path_array, x);
    }
}

/// Which way a toggle went.
#[derive(Clone, Copy, PartialEq, Eq, Structural, Debug)]
pub enum ToggleAction {
    Added,
    Removed,
}

/// Toggle `arg`'s membership in the list: remove every occurrence if it is
/// present, otherwise put it at the front.
pub fn toggle(arg: &str, path_array: &mut Vec<String>) -> (action: ToggleAction)
    ensures
        final (path_array).deep_view() == toggle_spec(old(path_array).deep_view(), arg@),
        action == ToggleAction::Removed <==> old(path_array).deep_view().contains(arg@),
{
    if list_contains(&*path_array, arg) {
        path_remove(arg, path_array);
        ToggleAction::Removed
    } else {
        path_prepend(arg, path_array);
        proof {
            lemma_remove_all_id(old(path_array).deep_view(), arg@);
        }
        ToggleAction::Added
    }
}

} // verus!
