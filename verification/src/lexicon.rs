//! Lexicographic order on terms and sorted term tables searched by
//! bisection.

use vstd::prelude::*;
use crate::text::{chars_eq, views};

verus! {

/// Lexicographic order on character sequences by code point (the order of
/// `String`'s `Ord`, since UTF-8 preserves code point order): a proper prefix
/// comes first.
pub open spec fn lex_lt(a: Seq<char>, b: Seq<char>) -> bool
    decreases a.len(),
{
    if a.len() == 0 {
        b.len() > 0
    } else if b.len() == 0 {
        false
    } else if a[0] != b[0] {
        (a[0] as u32) < (b[0] as u32)
    } else {
        lex_lt(a.drop_first(), b.drop_first())
    }
}

pub proof fn lemma_lex_irreflexive(a: Seq<char>)
    ensures
        !lex_lt(a, a),
    decreases a.len(),
{
    if a.len() > 0 {
        lemma_lex_irreflexive(a.drop_first());
    }
}

pub proof fn lemma_lex_asymmetric(a: Seq<char>, b: Seq<char>)
    ensures
        !(lex_lt(a, b) && lex_lt(b, a)),
    decreases a.len(),
{
    if a.len() > 0 && b.len() > 0 && a[0] == b[0] {
        lemma_lex_asymmetric(a.drop_first(), b.drop_first());
    }
}

pub proof fn lemma_lex_transitive(a: Seq<char>, b: Seq<char>, c: Seq<char>)
    requires
        lex_lt(a, b),
        lex_lt(b, c),
    ensures
        lex_lt(a, c),
    decreases a.len(),
{
    if a.len() > 0 && b.len() > 0 && c.len() > 0 {
        if a[0] == b[0] && b[0] == c[0] {
            lemma_lex_transitive(a.drop_first(), b.drop_first(), c.drop_first());
        }
    }
}

pub proof fn lemma_lex_total(a: Seq<char>, b: Seq<char>)
    ensures
        a == b || lex_lt(a, b) || lex_lt(b, a),
    decreases a.len(),
{
    if a.len() == 0 {
        if b.len() == 0 {
            assert(a =~= b);
        }
    } else if b.len() > 0 {
        if a[0] == b[0] {
            lemma_lex_total(a.drop_first(), b.drop_first());
            if a.drop_first() == b.drop_first() {
                assert(a.drop_first().len() == b.drop_first().len());
                assert(a.len() == b.len());
                assert forall|i: int| 0 <= i < a.len() implies a[i] == b[i] by {
                    if i > 0 {
                        assert(a[i] == a.drop_first()[i - 1]);
                        assert(b[i] == b.drop_first()[i - 1]);
                    }
                }
                assert(a =~= b);
            }
        } else {
            let ua = a[0] as u32;
            let ub = b[0] as u32;
            vstd::utf8::char_u32_cast(a[0], ua);
            vstd::utf8::char_u32_cast(b[0], ub);
            assert(ua != ub);
        }
    }
}

/// Whether `a` comes before `b` in lexicographic order.
pub fn lex_less(a: &[char], b: &[char]) -> (r: bool)
    ensures
        r == lex_lt(a@, b@),
{
    let mut i: usize = 0;
    assert(a@.skip(0) =~= a@);
    assert(b@.skip(0) =~= b@);
    while i < a.len() && i < b.len() && a[i] == b[i]
        invariant
            i <= a@.len(),
            i <= b@.len(),
            lex_lt(a@, b@) == lex_lt(a@.skip(i as int), b@.skip(i as int)),
        decreases a@.len() - i,
    {
        proof {
            assert(a@.skip(i as int).drop_first() =~= a@.skip(i + 1));
            assert(b@.skip(i as int).drop_first() =~= b@.skip(i + 1));
        }
        i = i + 1;
    }
    if i == a.len() {
        i < b.len()
    } else if i == b.len() {
        false
    } else {
        (a[i] as u32) < (b[i] as u32)
    }
}

/// The sequence is strictly increasing in lexicographic order.
pub open spec fn lex_sorted(s: Seq<Seq<char>>) -> bool {
    forall|i: int, j: int| 0 <= i < j < s.len() ==> lex_lt(#[trigger] s[i], #[trigger] s[j])
}

/// Bisection for `key` in a lexicographically sorted table: `(true, p)` when
/// `keys[p]` is `key`; `(false, p)` when `key` is absent, `p` being where it
/// would be inserted.
pub fn find_key(keys: &Vec<Vec<char>>, key: &[char]) -> (r: (bool, usize))
    requires
        lex_sorted(views(keys@)),
    ensures
        r.1 <= keys@.len(),
        r.0 ==> r.1 < keys@.len() && keys@[r.1 as int]@ == key@,
        !r.0 ==> (forall|i: int| 0 <= i < r.1 ==> lex_lt(#[trigger] keys@[i]@, key@)) && (forall|
            i: int,
        | r.1 <= i < keys@.len() ==> lex_lt(key@, #[trigger] keys@[i]@)),
        !r.0 ==> !views(keys@).contains(key@),
{
    let ghost kv = views(keys@);
    let mut lo: usize = 0;
    let mut hi: usize = keys.len();
    while lo < hi
        invariant
            kv == views(keys@),
            lex_sorted(kv),
            lo <= hi <= keys@.len(),
            forall|i: int| 0 <= i < lo ==> lex_lt(#[trigger] keys@[i]@, key@),
            forall|i: int| hi <= i < keys@.len() ==> lex_lt(key@, #[trigger] keys@[i]@),
        decreases hi - lo,
    {
        let mid = lo + (hi - lo) / 2;
        proof {
            assert(kv[mid as int] == keys@[mid as int]@);
        }
        if chars_eq(&keys[mid], key) {
            return (true, mid);
        }
        if lex_less(&keys[mid], key) {
            assert forall|i: int| 0 <= i < mid + 1 implies lex_lt(#[trigger] keys@[i]@, key@) by {
                if i < mid {
                    assert(kv[i] == keys@[i]@);
                    assert(lex_lt(kv[i], kv[mid as int]));
                    lemma_lex_transitive(keys@[i]@, keys@[mid as int]@, key@);
                }
            }
            lo = mid + 1;
        } else {
            proof {
                lemma_lex_total(keys@[mid as int]@, key@);
            }
            assert forall|i: int| mid <= i < keys@.len() implies lex_lt(key@, #[trigger] keys@[i]@) by {
                if i > mid {
                    assert(kv[i] == keys@[i]@);
                    assert(lex_lt(kv[mid as int], kv[i]));
                    lemma_lex_transitive(key@, keys@[mid as int]@, keys@[i]@);
                }
            }
            hi = mid;
        }
    }
    assert forall|i: int| 0 <= i < kv.len() implies kv[i] != key@ by {
        assert(kv[i] == keys@[i]@);
        if i < lo {
            assert(lex_lt(kv[i], key@));
        } else {
            assert(lex_lt(key@, kv[i]));
        }
        lemma_lex_irreflexive(key@);
    }
    (false, lo)
}

} // verus!
