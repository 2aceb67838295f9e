//! Character-level string helpers: prefix and substring tests.

use vstd::prelude::*;

verus! {

/// True when `sub` occurs contiguously in `s`, starting at some index.
pub open spec fn contains_seq(s: Seq<char>, sub: Seq<char>) -> bool {
    exists|i: int| 0 <= i && i + sub.len() <= s.len() && #[trigger] s.subrange(i, i + sub.len()) == sub
}

/// The components of `s` split on the separator `c`.  Splitting the empty
/// string gives a single empty component.
pub open spec fn split_char(s: Seq<char>, c: char) -> Seq<Seq<char>>
    decreases s.len(),
{
    if s.len() == 0 {
        seq![Seq::<char>::empty()]
    } else if s[0] == c {
        seq![Seq::<char>::empty()] + split_char(s.drop_first(), c)
    } else {
        let rest = split_char(s.drop_first(), c);
        seq![seq![s[0]] + rest[0]] + rest.drop_first()
    }
}

pub proof fn lemma_split_char_len(s: Seq<char>, c: char)
    ensures
        split_char(s, c).len() >= 1,
    decreases s.len(),
{
    if s.len() > 0 {
        lemma_split_char_len(s.drop_first(), c);
    }
}

/// Splitting a separator-free string gives that string as the only component.
pub proof fn lemma_split_no_sep(s: Seq<char>, c: char)
    requires
        !s.contains(c),
    ensures
        split_char(s, c) == seq![s],
    decreases s.len(),
{
    if s.len() == 0 {
        assert(split_char(s, c) =~~= seq![s]);
    } else {
        assert(s[0] != c);
        assert(!s.drop_first().contains(c)) by {
            assert(forall|i: int| 0 <= i < s.drop_first().len() ==> s.drop_first()[i] == s[i + 1]);
        }
        lemma_split_no_sep(s.drop_first(), c);
        lemma_split_char_len(s.drop_first(), c);
        assert(split_char(s, c) =~~= seq![s]);
    }
}

/// Splitting at the first separator: the part before it is the first
/// component, the rest of the components come from the part after it.
pub proof fn lemma_split_first_sep(s: Seq<char>, c: char, i: int)
    requires
        0 <= i < s.len(),
        s[i] == c,
        forall|j: int| 0 <= j < i ==> s[j] != c,
    ensures
        split_char(s, c) == seq![s.take(i)] + split_char(s.skip(i + 1), c),
    decreases i,
{
    if i == 0 {
        assert(s.take(0) =~= Seq::<char>::empty());
        assert(s.skip(1) =~= s.drop_first());
        assert(split_char(s, c) =~= seq![s.take(0)] + split_char(s.skip(1), c));
    } else {
        let d = s.drop_first();
        assert(forall|j: int| 0 <= j < d.len() ==> d[j] == s[j + 1]);
        lemma_split_first_sep(d, c, i - 1);
        lemma_split_char_len(d.skip(i), c);
        assert(d.take(i - 1) =~= s.subrange(1, i));
        assert(d.skip(i) =~= s.skip(i + 1));
        assert(seq![s[0]] + s.subrange(1, i) =~= s.take(i));
        assert(split_char(s, c) =~= seq![s.take(i)] + split_char(s.skip(i + 1), c));
    }
}

/// Charwise prefix test.
pub fn str_starts_with(s: &str, prefix: &str) -> (r: bool)
    ensures
        r == prefix@.is_prefix_of(s@),
{
    let n: usize = s.unicode_len();
    let m: usize = prefix.unicode_len();
    if m > n {
        return false;
    }
    let mut j: usize = 0;
    while j < m
        invariant
            m <= n,
            n == s@.len(),
            m == prefix@.len(),
            j <= m,
            forall|k: int| 0 <= k < j ==> s@[k] == prefix@[k],
        decreases m - j,
    {
        if s.get_char(j) != prefix.get_char(j) {
            assert(!prefix@.is_prefix_of(s@)) by {
                assert(s@.subrange(0, m as int)[j as int] == s@[j as int]);
            }
            return false;
        }
        j = j + 1;
    }
    assert(prefix@ =~= s@.subrange(0, m as int));
    true
}

/// Charwise match of `sub` against `s` at offset `at`.
fn matches_at(s: &str, sub: &str, at: usize) -> (r: bool)
    requires
        at + sub@.len() <= s@.len(),
        s@.len() <= usize::MAX,
    ensures
        r == (s@.subrange(at as int, at + sub@.len()) == sub@),
{
    let m: usize = sub.unicode_len();
    let mut j: usize = 0;
    while j < m
        invariant
            at + m <= s@.len(),
            s@.len() <= usize::MAX,
            m == sub@.len(),
            j <= m,
            forall|k: int| 0 <= k < j ==> s@[at + k] == sub@[k],
        decreases m - j,
    {
        if s.get_char(at + j) != sub.get_char(j) {
            assert(s@.subrange(at as int, at + m) != sub@) by {
                assert(s@.subrange(at as int, at + m)[j as int] == s@[at + j]);
            }
            return false;
        }
        j = j + 1;
    }
    assert(s@.subrange(at as int, at + m) =~= sub@);
    true
}

/// Naive substring search, proved against `contains_seq`.
pub fn str_contains(s: &str, sub: &str) -> (r: bool)
    ensures
        r == contains_seq(s@, sub@),
{
    let n: usize = s.unicode_len();
    let m: usize = sub.unicode_len();
    if m > n {
        return false;
    }
    let mut i: usize = 0;
    loop
        invariant
            m <= n,
            n == s@.len(),
            m == sub@.len(),
            i <= n - m,
            forall|k: int| 0 <= k < i ==> #[trigger] s@.subrange(k, k + sub@.len()) != sub@,
        decreases n - m - i,
    {
        if matches_at(s, sub, i) {
            return true;
        }
        if i >= n - m {
            assert(forall|k: int|
                0 <= k && k + sub@.len() <= s@.len() ==> #[trigger] s@.subrange(
                    k,
                    k + sub@.len(),
                ) != sub@);
            return false;
        }
        i = i + 1;
    }
}

} // verus!
