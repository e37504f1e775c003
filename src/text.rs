//! Character-level helpers shared by the naming rules.
use vstd::prelude::*;

verus! {

/// Whether `m` occurs in `s` starting at index `i`.
pub open spec fn occurs_at(s: Seq<char>, m: Seq<char>, i: int) -> bool {
    0 <= i && i + m.len() <= s.len() && s.subrange(i, i + m.len()) == m
}

/// Whether `m` occurs anywhere in `s`.
pub open spec fn contains_seq(s: Seq<char>, m: Seq<char>) -> bool {
    exists|i: int| occurs_at(s, m, i)
}

/// `s` with every occurrence of the non-empty `m` removed, scanning from the left and
/// never letting two removed occurrences overlap.
pub open spec fn remove_all(s: Seq<char>, m: Seq<char>) -> Seq<char>
    decreases s.len(),
{
    if m.len() == 0 || s.len() < m.len() {
        s
    } else if s.subrange(0, m.len() as int) == m {
        remove_all(s.subrange(m.len() as int, s.len() as int), m)
    } else {
        seq![s[0]] + remove_all(s.subrange(1, s.len() as int), m)
    }
}

/// Index of the last occurrence of `c` in `s`.
pub open spec fn last_index_of(s: Seq<char>, c: char) -> Option<int>
    decreases s.len(),
{
    if s.len() == 0 {
        None
    } else if s.last() == c {
        Some(s.len() - 1)
    } else {
        last_index_of(s.drop_last(), c)
    }
}

/// The index that `last_index_of` gives lies inside the sequence and holds the character.
pub proof fn lemma_last_index_of_bounds(s: Seq<char>, c: char)
    ensures
        last_index_of(s, c) matches Some(p) ==> 0 <= p < s.len() && s[p] == c,
    decreases s.len(),
{
    if s.len() > 0 && s.last() != c {
        lemma_last_index_of_bounds(s.drop_last(), c);
    }
}

/// The characters of a string slice.
pub fn chars_of(s: &str) -> (r: Vec<char>)
    ensures
        r@ == s@,
{
    let n = s.unicode_len();
    let mut r: Vec<char> = Vec::new();
    let mut i: usize = 0;
    while i < n
        invariant
            n == s@.len(),
            i <= n,
            r@ == s@.subrange(0, i as int),
        decreases n - i,
    {
        r.push(s.get_char(i));
        assert(r@ =~= s@.subrange(0, i + 1));
        i += 1;
    }
    assert(s@.subrange(0, n as int) =~= s@);
    r
}

/// A string made of the given characters. Relies on `String: FromIterator<&char>`
/// (`collect`): the string holds the characters in order.
#[verifier::external_body]
pub(crate) fn string_of(cs: &[char]) -> (r: String)
    ensures
        r@ == cs@,
{
    cs.iter().collect()
}

/// Whether `m` occurs in `s` at index `i`.
pub fn occurs_at_exec(s: &[char], m: &[char], i: usize) -> (r: bool)
    ensures
        r == occurs_at(s@, m@, i as int),
{
    if m.len() > s.len() || i > s.len() - m.len() {
        return false;
    }
    let mut j: usize = 0;
    while j < m.len()
        invariant
            i + m@.len() <= s@.len(),
            s@.len() <= usize::MAX,
            j <= m@.len(),
            forall|k: int| 0 <= k < j ==> s@[i + k] == m@[k],
        decreases m.len() - j,
    {
        if s[i + j] != m[j] {
            assert(s@.subrange(i as int, i + m@.len())[j as int] != m@[j as int]);
            return false;
        }
        j += 1;
    }
    assert(s@.subrange(i as int, i + m@.len()) =~= m@);
    true
}

/// Whether `m` occurs anywhere in `s`.
pub fn contains_exec(s: &[char], m: &[char]) -> (r: bool)
    ensures
        r == contains_seq(s@, m@),
{
    if m.len() > s.len() {
        assert forall|i: int| !occurs_at(s@, m@, i) by {}
        return false;
    }
    let mut i: usize = 0;
    while i <= s.len() - m.len()
        invariant
            m@.len() <= s@.len(),
            i <= s@.len() - m@.len() + 1,
            forall|k: int| 0 <= k < i ==> !occurs_at(s@, m@, k),
        decreases s.len() - i + 1,
    {
        if occurs_at_exec(s, m, i) {
            return true;
        }
        if i == s.len() - m.len() {
            assert forall|k: int| !occurs_at(s@, m@, k) by {}
            return false;
        }
        i += 1;
    }
    assert forall|k: int| !occurs_at(s@, m@, k) by {}
    false
}

proof fn lemma_remove_all_step(s: Seq<char>, m: Seq<char>, i: int)
    requires
        m.len() > 0,
        0 <= i <= s.len(),
    ensures
        s.subrange(i, s.len() as int).len() >= m.len() && occurs_at(s, m, i) ==> remove_all(
            s.subrange(i, s.len() as int),
            m,
        ) == remove_all(s.subrange(i + m.len(), s.len() as int), m),
        s.subrange(i, s.len() as int).len() >= m.len() && !occurs_at(s, m, i) ==> remove_all(
            s.subrange(i, s.len() as int),
            m,
        ) == seq![s[i]] + remove_all(s.subrange(i + 1, s.len() as int), m),
{
    let t = s.subrange(i, s.len() as int);
    if t.len() >= m.len() {
        assert(t.subrange(0, m.len() as int) =~= s.subrange(i, i + m.len()));
        assert(t.subrange(m.len() as int, t.len() as int) =~= s.subrange(
            i + m.len(),
            s.len() as int,
        ));
        assert(t.subrange(1, t.len() as int) =~= s.subrange(i + 1, s.len() as int));
    }
}

/// `s` with every occurrence of the non-empty `m` removed.
pub fn remove_all_exec(s: &[char], m: &[char]) -> (r: Vec<char>)
    requires
        m@.len() > 0,
    ensures
        r@ == remove_all(s@, m@),
{
    let mut out: Vec<char> = Vec::new();
    let mut i: usize = 0;
    assert(s@.subrange(0, s@.len() as int) =~= s@);
    assert(out@ + remove_all(s@, m@) =~= remove_all(s@, m@));
    while i < s.len()
        invariant
            m@.len() > 0,
            i <= s@.len(),
            out@ + remove_all(s@.subrange(i as int, s@.len() as int), m@) == remove_all(s@, m@),
        decreases s.len() - i,
    {
        proof {
            lemma_remove_all_step(s@, m@, i as int);
        }
        if s.len() - i >= m.len() && occurs_at_exec(s, m, i) {
            i += m.len();
        } else if s.len() - i < m.len() {
            let ghost rest = s@.subrange(i as int, s@.len() as int);
            proof {
                assert(remove_all(rest, m@) == rest);
                assert(rest.subrange(1, rest.len() as int) =~= s@.subrange(
                    i + 1,
                    s@.len() as int,
                ));
                assert(remove_all(s@.subrange(i + 1, s@.len() as int), m@) == s@.subrange(
                    i + 1,
                    s@.len() as int,
                ));
                assert(rest =~= seq![s@[i as int]] + s@.subrange(i + 1, s@.len() as int));
                assert(out@ + rest =~= out@.push(s@[i as int]) + s@.subrange(
                    i + 1,
                    s@.len() as int,
                ));
            }
            out.push(s[i]);
            i += 1;
        } else {
            let ghost tail = remove_all(s@.subrange(i + 1, s@.len() as int), m@);
            assert(out@ + (seq![s@[i as int]] + tail) =~= out@.push(s@[i as int]) + tail);
            out.push(s[i]);
            i += 1;
        }
    }
    assert(s@.subrange(i as int, s@.len() as int) =~= Seq::<char>::empty());
    assert(out@ + Seq::<char>::empty() =~= out@);
    out
}

/// Index of the last occurrence of `c` in `s`.
pub fn last_index_of_exec(s: &[char], c: char) -> (r: Option<usize>)
    ensures
        r matches Some(p) ==> last_index_of(s@, c) == Some(p as int),
        r is None ==> last_index_of(s@, c) is None,
{
    let mut n: usize = s.len();
    assert(s@.subrange(0, s@.len() as int) =~= s@);
    while n > 0
        invariant
            n <= s@.len(),
            last_index_of(s@, c) == last_index_of(s@.subrange(0, n as int), c),
        decreases n,
    {
        assert(s@.subrange(0, n as int).drop_last() =~= s@.subrange(0, n - 1));
        if s[n - 1] == c {
            return Some(n - 1);
        }
        n -= 1;
    }
    None
}

} // verus!
