//! Canonical form of a list of names: strictly increasing in code-point
//! lexicographic order, which is the order `String` itself sorts by.

use vstd::prelude::*;
use vstd::string::*;

verus! {

/// The texts held by a list of strings, in order.
pub open spec fn texts(v: Seq<String>) -> Seq<Seq<char>> {
    Seq::new(v.len(), |i: int| v[i]@)
}

/// `a` and `b` hold the same characters at every position before `k`.
pub open spec fn agree_before(a: Seq<char>, b: Seq<char>, k: int) -> bool {
    &&& 0 <= k <= a.len()
    &&& k <= b.len()
    &&& forall|i: int| 0 <= i < k ==> a[i] == b[i]
}

/// `a` sorts before `b` and the first `k` characters are their common prefix.
pub open spec fn less_at(a: Seq<char>, b: Seq<char>, k: int) -> bool {
    &&& agree_before(a, b, k)
    &&& k < b.len()
    &&& (k == a.len() || (a[k] as u32) < (b[k] as u32))
}

/// Strict lexicographic order by code point.
pub open spec fn lex_lt(a: Seq<char>, b: Seq<char>) -> bool {
    exists|k: int| less_at(a, b, k)
}

/// Every element sorts strictly before every later one.
pub open spec fn strictly_sorted(s: Seq<Seq<char>>) -> bool {
    forall|i: int, j: int| 0 <= i < j < s.len() ==> lex_lt(#[trigger] s[i], #[trigger] s[j])
}

/// The two lists have the same elements, order and multiplicity aside.
pub open spec fn same_members(a: Seq<Seq<char>>, b: Seq<Seq<char>>) -> bool {
    forall|s: Seq<char>| a.contains(s) <==> b.contains(s)
}

/// Nothing sorts before itself.
pub proof fn lemma_lex_lt_irreflexive(a: Seq<char>)
    ensures
        !lex_lt(a, a),
{
}

/// The order is transitive.
pub proof fn lemma_lex_lt_transitive(a: Seq<char>, b: Seq<char>, c: Seq<char>)
    requires
        lex_lt(a, b),
        lex_lt(b, c),
    ensures
        lex_lt(a, c),
{
    let k1 = choose|k: int| less_at(a, b, k);
    let k2 = choose|k: int| less_at(b, c, k);
    if k1 <= k2 {
        assert(less_at(a, c, k1));
    } else {
        assert(less_at(a, c, k2));
    }
}

/// A strictly sorted list holds no text twice.
pub proof fn lemma_sorted_no_duplicates(s: Seq<Seq<char>>)
    requires
        strictly_sorted(s),
    ensures
        forall|i: int, j: int| 0 <= i < s.len() && 0 <= j < s.len() && i != j ==> s[i] != s[j],
{
    assert forall|i: int, j: int| 0 <= i < s.len() && 0 <= j < s.len() && i != j implies s[i]
        != s[j] by {
        lemma_lex_lt_irreflexive(s[i]);
        if i < j {
            assert(lex_lt(s[i], s[j]));
        } else {
            assert(lex_lt(s[j], s[i]));
        }
    }
}

/// Dropping the last element of a strictly sorted list leaves a strictly
/// sorted list that holds everything but that element.
pub proof fn lemma_sorted_drop_last(s: Seq<Seq<char>>)
    requires
        strictly_sorted(s),
        s.len() > 0,
    ensures
        strictly_sorted(s.drop_last()),
        forall|x: Seq<char>| #[trigger] s.drop_last().contains(x) <==> s.contains(x) && x != s.last(),
{
    let d = s.drop_last();
    assert forall|i: int, j: int| 0 <= i < j < d.len() implies lex_lt(
        #[trigger] d[i],
        #[trigger] d[j],
    ) by {
        assert(d[i] == s[i] && d[j] == s[j]);
    }
    assert forall|x: Seq<char>| #[trigger] d.contains(x) <==> s.contains(x) && x != s.last() by {
        if d.contains(x) {
            let k = choose|k: int| 0 <= k < d.len() && d[k] == x;
            assert(s[k] == x);
            assert(lex_lt(s[k], s[s.len() - 1]));
            lemma_before_excludes(x, s.last());
        }
        if s.contains(x) && x != s.last() {
            let k = choose|k: int| 0 <= k < s.len() && s[k] == x;
            assert(d[k] == x);
        }
    }
}

/// The canonical form is unique: two strictly sorted lists with the same
/// elements are the same list.
pub proof fn law_canonical_form_is_unique(a: Seq<Seq<char>>, b: Seq<Seq<char>>)
    requires
        strictly_sorted(a),
        strictly_sorted(b),
        same_members(a, b),
    ensures
        a == b,
    decreases a.len(),
{
    if a.len() == 0 {
        if b.len() > 0 {
            assert(b.contains(b[0]));
            assert(a.contains(b[0]));
        }
        assert(a =~= b);
    } else {
        let la = a.last();
        assert(a[a.len() - 1] == la);
        assert(a.contains(la));
        assert(b.contains(la));
        let j = choose|j: int| 0 <= j < b.len() && b[j] == la;
        let lb = b.last();
        assert(b[b.len() - 1] == lb);
        assert(b.contains(lb));
        assert(a.contains(lb));
        let i = choose|i: int| 0 <= i < a.len() && a[i] == lb;
        if j < b.len() - 1 {
            assert(lex_lt(b[j], b[b.len() - 1]));
            lemma_before_excludes(la, lb);
            if i < a.len() - 1 {
                assert(lex_lt(a[i], a[a.len() - 1]));
            }
            assert(false);
        }
        assert(la == lb);
        lemma_sorted_drop_last(a);
        lemma_sorted_drop_last(b);
        let a2 = a.drop_last();
        let b2 = b.drop_last();
        assert forall|x: Seq<char>| a2.contains(x) <==> b2.contains(x) by {
            assert(a2.contains(x) <==> a.contains(x) && x != la);
            assert(b2.contains(x) <==> b.contains(x) && x != lb);
        }
        law_canonical_form_is_unique(a2, b2);
        assert(a =~= a2.push(la));
        assert(b =~= b2.push(lb));
    }
}

/// A list holds `s` after a push exactly if it held it before or `s` was pushed.
pub proof fn lemma_texts_push(v: Seq<String>, x: String, s: Seq<char>)
    ensures
        texts(v.push(x)).contains(s) <==> texts(v).contains(s) || s == x@,
{
    let a = texts(v);
    let b = texts(v.push(x));
    assert(b =~= a.push(x@));
    if b.contains(s) {
        let k = choose|k: int| 0 <= k < b.len() && b[k] == s;
        if k < a.len() {
            assert(a[k] == s);
        }
    }
    if a.contains(s) {
        let k = choose|k: int| 0 <= k < a.len() && a[k] == s;
        assert(b[k] == s);
    }
    assert(b[a.len() as int] == x@);
}

/// A concatenation holds what either part holds.
pub proof fn lemma_contains_concat(a: Seq<Seq<char>>, b: Seq<Seq<char>>, s: Seq<char>)
    ensures
        (a + b).contains(s) <==> a.contains(s) || b.contains(s),
{
    let c = a + b;
    if c.contains(s) {
        let k = choose|k: int| 0 <= k < c.len() && c[k] == s;
        if k < a.len() {
            assert(a[k] == s);
        } else {
            assert(b[k - a.len()] == s);
        }
    }
    if a.contains(s) {
        let k = choose|k: int| 0 <= k < a.len() && a[k] == s;
        assert(c[k] == s);
    }
    if b.contains(s) {
        let k = choose|k: int| 0 <= k < b.len() && b[k] == s;
        assert(c[a.len() + k] == s);
    }
}

/// How one text stands to another.
#[derive(Clone, Copy, Debug, PartialEq, Eq)]
pub enum Standing {
    Before,
    Same,
    After,
}

/// Compares two strings by code point, character by character.
pub fn compare(a: &str, b: &str) -> (r: Standing)
    ensures
        r == Standing::Before <==> lex_lt(a@, b@),
        r == Standing::Same <==> a@ == b@,
        r == Standing::After <==> lex_lt(b@, a@),
{
    let la: usize = a.unicode_len();
    let lb: usize = b.unicode_len();
    let mut i: usize = 0;
    while i < la && i < lb
        invariant
            la == a@.len(),
            lb == b@.len(),
            agree_before(a@, b@, i as int),
        decreases la - i,
    {
        let ca: char = a.get_char(i);
        let cb: char = b.get_char(i);
        if ca < cb {
            proof {
                assert(less_at(a@, b@, i as int));
                lemma_before_excludes(a@, b@);
            }
            return Standing::Before;
        }
        if cb < ca {
            proof {
                assert(agree_before(b@, a@, i as int));
                assert(less_at(b@, a@, i as int));
                lemma_before_excludes(b@, a@);
            }
            return Standing::After;
        }
        i += 1;
    }
    if la < lb {
        proof {
            assert(less_at(a@, b@, i as int));
            lemma_before_excludes(a@, b@);
        }
        Standing::Before
    } else if lb < la {
        proof {
            assert(agree_before(b@, a@, i as int));
            assert(less_at(b@, a@, i as int));
            lemma_before_excludes(b@, a@);
        }
        Standing::After
    } else {
        proof {
            assert(a@ =~= b@);
            lemma_lex_lt_irreflexive(a@);
        }
        Standing::Same
    }
}

/// What sorts before another text is neither equal to it nor after it.
pub proof fn lemma_before_excludes(a: Seq<char>, b: Seq<char>)
    requires
        lex_lt(a, b),
    ensures
        a != b,
        !lex_lt(b, a),
{
    lemma_lex_lt_irreflexive(a);
    if lex_lt(b, a) {
        lemma_lex_lt_transitive(a, b, a);
    }
}

/// Finds where `x` belongs in a strictly sorted list: the first position whose
/// text does not sort before `x`, and whether `x` already stands there.
pub fn locate(sorted: &Vec<String>, x: &str) -> (r: (usize, bool))
    requires
        strictly_sorted(texts(sorted@)),
    ensures
        r.0 <= sorted.len(),
        forall|j: int| 0 <= j < r.0 ==> lex_lt(#[trigger] sorted[j]@, x@),
        r.1 ==> r.0 < sorted.len() && sorted[r.0 as int]@ == x@,
        !r.1 ==> forall|j: int| r.0 <= j < sorted.len() ==> lex_lt(x@, #[trigger] sorted[j]@),
        r.1 <==> texts(sorted@).contains(x@),
{
    let mut j: usize = 0;
    while j < sorted.len()
        invariant
            j <= sorted.len(),
            strictly_sorted(texts(sorted@)),
            forall|k: int| 0 <= k < j ==> lex_lt(#[trigger] sorted[k]@, x@),
        decreases sorted.len() - j,
    {
        let standing = compare(sorted[j].as_str(), x);
        match standing {
            Standing::Before => {},
            Standing::Same => {
                assert(texts(sorted@)[j as int] == x@);
                return (j, true);
            },
            Standing::After => {
                proof {
                    lemma_absent_when_between(sorted@, x@, j as int);
                }
                return (j, false);
            },
        }
        j += 1;
    }
    proof {
        lemma_absent_when_between(sorted@, x@, j as int);
    }
    (j, false)
}

/// If everything before position `at` sorts before `x` and the text at `at`,
/// if there is one, sorts after it, then `x` sorts before everything from
/// `at` on and is not in the list.
pub proof fn lemma_absent_when_between(sorted: Seq<String>, x: Seq<char>, at: int)
    requires
        strictly_sorted(texts(sorted)),
        0 <= at <= sorted.len(),
        forall|k: int| 0 <= k < at ==> lex_lt(#[trigger] sorted[k]@, x),
        at < sorted.len() ==> lex_lt(x, sorted[at]@),
    ensures
        forall|j: int| at <= j < sorted.len() ==> lex_lt(x, #[trigger] sorted[j]@),
        !texts(sorted).contains(x),
{
    let t = texts(sorted);
    assert forall|j: int| at <= j < sorted.len() implies lex_lt(x, #[trigger] sorted[j]@) by {
        if j > at {
            assert(lex_lt(t[at], t[j]));
            lemma_lex_lt_transitive(x, sorted[at]@, sorted[j]@);
        }
    }
    assert forall|j: int| 0 <= j < t.len() implies t[j] != x by {
        lemma_lex_lt_irreflexive(x);
        assert(t[j] == sorted[j]@);
    }
}

/// The canonical form of a list of names: the same names, each once, in
/// strictly increasing order.
pub fn canonicalize(names: &Vec<String>) -> (out: Vec<String>)
    ensures
        strictly_sorted(texts(out@)),
        same_members(texts(out@), texts(names@)),
{
    let mut out: Vec<String> = Vec::new();
    let mut i: usize = 0;
    while i < names.len()
        invariant
            i <= names.len(),
            strictly_sorted(texts(out@)),
            same_members(texts(out@), texts(names@.take(i as int))),
        decreases names.len() - i,
    {
        let ghost before = out@;
        let ghost seen = texts(names@.take(i as int));
        let ghost next = texts(names@.take(i as int + 1));
        let ghost x = names[i as int]@;
        let (pos, found) = locate(&out, names[i].as_str());
        if !found {
            out.insert(pos, names[i].clone());
        }
        proof {
            assert(next =~= seen.push(x));
            assert forall|s: Seq<char>| next.contains(s) <==> (seen.contains(s) || s == x) by {
                if next.contains(s) {
                    let k = choose|k: int| 0 <= k < next.len() && next[k] == s;
                    if k < seen.len() {
                        assert(seen[k] == s);
                    }
                }
                if seen.contains(s) {
                    let k = choose|k: int| 0 <= k < seen.len() && seen[k] == s;
                    assert(next[k] == s);
                }
                assert(next[seen.len() as int] == x);
            }
            if !found {
                let old_t = texts(before);
                let new_t = texts(out@);
                assert(new_t =~= old_t.insert(pos as int, x));
                assert forall|a: int, b: int| 0 <= a < b < new_t.len() implies lex_lt(
                    #[trigger] new_t[a],
                    #[trigger] new_t[b],
                ) by {
                    let oa = if a < pos { a } else { a - 1 };
                    let ob = if b < pos { b } else { b - 1 };
                    if a == pos {
                        assert(new_t[b] == before[ob]@);
                    } else if b == pos {
                        assert(new_t[a] == before[oa]@);
                    } else {
                        assert(new_t[a] == old_t[oa]);
                        assert(new_t[b] == old_t[ob]);
                    }
                }
                assert forall|s: Seq<char>| new_t.contains(s) <==> (old_t.contains(s) || s
                    == x) by {
                    if new_t.contains(s) {
                        let k = choose|k: int| 0 <= k < new_t.len() && new_t[k] == s;
                        if k < pos {
                            assert(old_t[k] == s);
                        } else if k > pos {
                            assert(old_t[k - 1] == s);
                        }
                    }
                    if old_t.contains(s) {
                        let k = choose|k: int| 0 <= k < old_t.len() && old_t[k] == s;
                        if k < pos {
                            assert(new_t[k] == s);
                        } else {
                            assert(new_t[k + 1] == s);
                        }
                    }
                    assert(new_t[pos as int] == x);
                }
            }
        }
        i += 1;
    }
    assert(names@.take(i as int) =~= names@);
    out
}

} // verus!
