//! Term statistics of a document collection, the integer part of TF-IDF:
//! document frequencies, the ranked vocabulary and per-document term counts.

use vstd::prelude::*;
use crate::lexicon::{find_key, lemma_lex_asymmetric, lemma_lex_irreflexive, lex_lt, lex_sorted};
use crate::text::{copy_range, views};

verus! {

/// The character sequences of a vector of documents' terms.
pub open spec fn nested_views(v: Seq<Vec<Vec<char>>>) -> Seq<Seq<Seq<char>>> {
    v.map_values(|d: Vec<Vec<char>>| views(d@))
}

/// How many times `t` occurs in `s`.
pub open spec fn count_of(s: Seq<Seq<char>>, t: Seq<char>) -> nat
    decreases s.len(),
{
    if s.len() == 0 {
        0
    } else {
        count_of(s.drop_last(), t) + if s.last() == t {
            1nat
        } else {
            0nat
        }
    }
}

/// The number of documents whose terms include `t`.
pub open spec fn doc_freq(dts: Seq<Seq<Seq<char>>>, t: Seq<char>) -> nat
    decreases dts.len(),
{
    if dts.len() == 0 {
        0
    } else {
        doc_freq(dts.drop_last(), t) + if dts.last().contains(t) {
            1nat
        } else {
            0nat
        }
    }
}

pub proof fn lemma_doc_freq_le(dts: Seq<Seq<Seq<char>>>, t: Seq<char>)
    ensures
        doc_freq(dts, t) <= dts.len(),
    decreases dts.len(),
{
    if dts.len() > 0 {
        lemma_doc_freq_le(dts.drop_last(), t);
    }
}

pub proof fn lemma_doc_freq_take(dts: Seq<Seq<Seq<char>>>, d: int, t: Seq<char>)
    requires
        0 <= d < dts.len(),
    ensures
        doc_freq(dts.take(d + 1), t) == doc_freq(dts.take(d), t) + if dts[d].contains(t) {
            1nat
        } else {
            0nat
        },
{
    assert(dts.take(d + 1).drop_last() =~= dts.take(d));
    assert(dts.take(d + 1).last() == dts[d]);
}

/// The table of every term of the processed documents (sorted), with its
/// document frequency so far and one past the last document it was counted in.
spec fn df_table(
    dtv: Seq<Seq<Seq<char>>>,
    d: int,
    seen: Seq<Seq<char>>,
    keys: Seq<Seq<char>>,
    vals: Seq<(usize, usize)>,
) -> bool {
    &&& keys.len() == vals.len()
    &&& lex_sorted(keys)
    &&& forall|t: Seq<char>|
        #![trigger keys.contains(t)]
        #![trigger doc_freq(dtv.take(d), t)]
        keys.contains(t) <==> (doc_freq(dtv.take(d), t) > 0 || seen.contains(t))
    &&& forall|r: int|
        0 <= r < keys.len() ==> {
            &&& (#[trigger] vals[r]).0 == doc_freq(dtv.take(d), keys[r]) + if seen.contains(
                keys[r],
            ) {
                1nat
            } else {
                0nat
            }
            &&& vals[r].1 <= d + 1
            &&& (vals[r].1 == d + 1 <==> seen.contains(keys[r]))
        }
}

proof fn lemma_views_insert(v: Seq<Vec<char>>, p: int, x: Vec<char>)
    requires
        0 <= p <= v.len(),
    ensures
        views(v.insert(p, x)) == views(v).insert(p, x@),
{
    assert(views(v.insert(p, x)) =~= views(v).insert(p, x@));
}

/// The sorted terms of a collection and their document frequencies: a term
/// is listed when some document holds it, and then with the number of
/// documents that hold it.
pub fn document_frequencies(dts: &Vec<Vec<Vec<char>>>) -> (r: (Vec<Vec<char>>, Vec<usize>))
    ensures
        lex_sorted(views(r.0@)),
        r.0@.len() == r.1@.len(),
        forall|t: Seq<char>|
            #![trigger views(r.0@).contains(t)]
            #![trigger doc_freq(nested_views(dts@), t)]
            views(r.0@).contains(t) <==> doc_freq(nested_views(dts@), t) > 0,
        forall|i: int|
            0 <= i < r.1@.len() ==> #[trigger] r.1@[i] == doc_freq(
                nested_views(dts@),
                r.0@[i]@,
            ),
{
    let ghost dtv = nested_views(dts@);
    let mut keys: Vec<Vec<char>> = Vec::new();
    let mut vals: Vec<(usize, usize)> = Vec::new();
    let mut d: usize = 0;
    assert(df_table(dtv, 0, seq![], views(keys@), vals@)) by {
        assert(dtv.take(0) =~= Seq::<Seq<Seq<char>>>::empty());
    }
    while d < dts.len()
        invariant
            dtv == nested_views(dts@),
            d <= dts@.len(),
            df_table(dtv, d as int, seq![], views(keys@), vals@),
            forall|r: int| 0 <= r < vals@.len() ==> (#[trigger] vals@[r]).1 <= d,
        decreases dts@.len() - d,
    {
        let doc = &dts[d];
        let d1 = d + 1;
        let ghost dv = dtv[d as int];
        assert(dv == views(doc@));
        let mut m: usize = 0;
        assert(dv.take(0) =~= Seq::<Seq<char>>::empty());
        while m < doc.len()
            invariant
                dtv == nested_views(dts@),
                d < dts@.len(),
                d1 == d + 1,
                dv == dtv[d as int],
                dv == views(doc@),
                m <= doc@.len(),
                df_table(dtv, d as int, dv.take(m as int), views(keys@), vals@),
            decreases doc@.len() - m,
        {
            let t = &doc[m];
            let ghost tv = t@;
            let ghost seen = dv.take(m as int);
            let ghost seen2 = dv.take(m + 1);
            proof {
                assert(dv[m as int] == tv);
                assert(seen2 =~= seen.push(tv));
                assert forall|x: Seq<char>| seen2.contains(x) <==> (seen.contains(x) || x == tv) by {
                    if seen2.contains(x) {
                        let j = choose|j: int| 0 <= j < seen2.len() && seen2[j] == x;
                        if j < m {
                            assert(seen[j] == x);
                        }
                    }
                    if seen.contains(x) {
                        let j = choose|j: int| 0 <= j < seen.len() && seen[j] == x;
                        assert(seen2[j] == x);
                    }
                    if x == tv {
                        assert(seen2[m as int] == x);
                    }
                }
                lemma_doc_freq_le(dtv.take(d as int), tv);
            }
            let (found, p) = find_key(&keys, t);
            let ghost kv = views(keys@);
            let ghost vv = vals@;
            if found {
                proof {
                    assert(kv[p as int] == tv);
                    assert forall|r: int| 0 <= r < kv.len() && r != p implies kv[r] != tv by {
                        if r < p {
                            assert(lex_lt(kv[r], kv[p as int]));
                        } else {
                            assert(lex_lt(kv[p as int], kv[r]));
                        }
                        lemma_lex_irreflexive(tv);
                    }
                }
                if vals[p].1 != d1 {
                    let c = vals[p].0;
                    vals.set(p, (c + 1, d1));
                }
                proof {
                    assert forall|r: int| 0 <= r < kv.len() implies {
                        &&& (#[trigger] vals@[r]).0 == doc_freq(dtv.take(d as int), kv[r]) + if seen2.contains(kv[r]) {
                            1nat
                        } else {
                            0nat
                        }
                        &&& vals@[r].1 <= d + 1
                        &&& (vals@[r].1 == d + 1 <==> seen2.contains(kv[r]))
                    } by {
                        if r != p {
                            assert(kv[r] != tv);
                        }
                    }
                    assert forall|x: Seq<char>| kv.contains(x) <==> (doc_freq(dtv.take(d as int), x) > 0 || seen2.contains(x)) by {
                        if x == tv {
                            assert(kv[p as int] == x);
                        }
                    }
                }
            } else {
                let k = copy_range(t, 0, t.len());
                proof {
                    assert(t@.subrange(0, t@.len() as int) =~= t@);
                    assert(!kv.contains(tv));
                    assert(doc_freq(dtv.take(d as int), tv) == 0);
                    assert(!seen.contains(tv));
                }
                let ghost ko = keys@;
                keys.insert(p, k);
                vals.insert(p, (1, d1));
                proof {
                    lemma_views_insert(ko, p as int, k);
                    let nk = views(keys@);
                    assert(nk == kv.insert(p as int, tv));
                    assert forall|i: int| 0 <= i < kv.len() implies #[trigger] kv[i] == ko[i]@ by {}
                    assert forall|i: int, j: int| 0 <= i < j < nk.len() implies lex_lt(#[trigger] nk[i], #[trigger] nk[j]) by {
                        if j < p {
                            assert(lex_lt(kv[i], kv[j]));
                        } else if j == p {
                            assert(lex_lt(ko[i]@, tv));
                        } else if i == p {
                            assert(lex_lt(tv, ko[j - 1]@));
                        } else if i < p {
                            assert(lex_lt(kv[i], kv[j - 1]));
                        } else {
                            assert(lex_lt(kv[i - 1], kv[j - 1]));
                        }
                    }
                    assert forall|x: Seq<char>| nk.contains(x) <==> (kv.contains(x) || x == tv) by {
                        if nk.contains(x) {
                            let j = choose|j: int| 0 <= j < nk.len() && nk[j] == x;
                            if j < p {
                                assert(kv[j] == x);
                            } else if j > p {
                                assert(kv[j - 1] == x);
                            }
                        }
                        if kv.contains(x) {
                            let j = choose|j: int| 0 <= j < kv.len() && kv[j] == x;
                            if j < p {
                                assert(nk[j] == x);
                            } else {
                                assert(nk[j + 1] == x);
                            }
                        }
                        if x == tv {
                            assert(nk[p as int] == x);
                        }
                    }
                    assert forall|x: Seq<char>| nk.contains(x) <==> (doc_freq(dtv.take(d as int), x) > 0 || seen2.contains(x)) by {
                        assert(kv.contains(x) <==> (doc_freq(dtv.take(d as int), x) > 0 || seen.contains(x)));
                    }
                    assert forall|r: int| 0 <= r < nk.len() implies {
                        &&& (#[trigger] vals@[r]).0 == doc_freq(dtv.take(d as int), nk[r]) + if seen2.contains(nk[r]) {
                            1nat
                        } else {
                            0nat
                        }
                        &&& vals@[r].1 <= d + 1
                        &&& (vals@[r].1 == d + 1 <==> seen2.contains(nk[r]))
                    } by {
                        if r < p {
                            assert(lex_lt(ko[r]@, tv));
                            lemma_lex_irreflexive(tv);
                            assert(vals@[r] == vv[r]);
                        } else if r > p {
                            assert(lex_lt(tv, ko[r - 1]@));
                            lemma_lex_irreflexive(tv);
                            assert(vals@[r] == vv[r - 1]);
                        }
                    }
                }
            }
            m = m + 1;
        }
        proof {
            assert(dv.take(doc@.len() as int) =~= dv);
            assert forall|x: Seq<char>| #[trigger] doc_freq(dtv.take(d + 1), x) == doc_freq(dtv.take(d as int), x) + if dv.contains(x) {
                1nat
            } else {
                0nat
            } by {
                lemma_doc_freq_take(dtv, d as int, x);
            }
        }
        d = d + 1;
    }
    assert(dtv.take(dts@.len() as int) =~= dtv);
    let mut dfs: Vec<usize> = Vec::new();
    let mut i: usize = 0;
    while i < vals.len()
        invariant
            i <= vals@.len(),
            dfs@.len() == i,
            forall|j: int| 0 <= j < i ==> dfs@[j] == vals@[j].0,
        decreases vals@.len() - i,
    {
        dfs.push(vals[i].0);
        i = i + 1;
    }
    proof {
        let kv = views(keys@);
        assert forall|j: int| 0 <= j < dfs@.len() implies #[trigger] dfs@[j] == doc_freq(dtv, keys@[j]@) by {
            assert(kv[j] == keys@[j]@);
            assert(vals@[j].0 == doc_freq(dtv.take(dts@.len() as int), kv[j]));
        }
        assert forall|t: Seq<char>| kv.contains(t) <==> doc_freq(dtv, t) > 0 by {
            assert(kv.contains(t) <==> doc_freq(dtv.take(dts@.len() as int), t) > 0);
        }
    }
    (keys, dfs)
}

/// Row `i` of a table with document frequencies `dfs` comes before row `j`:
/// higher frequency first, then table order.
pub open spec fn row_before(dfs: Seq<usize>, i: int, j: int) -> bool {
    dfs[i] > dfs[j] || (dfs[i] == dfs[j] && i < j)
}

/// `sel` lists row `x`.
pub open spec fn has_row(sel: Seq<usize>, x: int) -> bool {
    exists|a: int| 0 <= a < sel.len() && sel[a] == x
}

/// The rows listed when the scan has reached frequency `f` and row `r`.
spec fn emitted(dfs: Seq<usize>, f: int, r: int, x: int) -> bool {
    dfs[x] > f || (dfs[x] == f && x < r)
}

/// The rows of a table, ranked by decreasing frequency and then by row,
/// at most `cap` of them: the first `cap` rows of that ranking.
fn rank_rows(dfs: &Vec<usize>, n: usize, cap: usize) -> (sel: Vec<usize>)
    requires
        forall|i: int| 0 <= i < dfs@.len() ==> 1 <= #[trigger] dfs@[i] <= n,
    ensures
        sel@.len() <= cap,
        forall|a: int| 0 <= a < sel@.len() ==> (#[trigger] sel@[a]) < dfs@.len(),
        forall|a: int, b: int|
            0 <= a < b < sel@.len() ==> row_before(dfs@, #[trigger] sel@[a] as int, #[trigger] sel@[b] as int),
        forall|x: int|
            #![trigger has_row(sel@, x)]
            0 <= x < dfs@.len() && !has_row(sel@, x) ==> sel@.len() == cap && forall|a: int|
                0 <= a < sel@.len() ==> row_before(dfs@, #[trigger] sel@[a] as int, x),
{
    let mut sel: Vec<usize> = Vec::new();
    let mut f: usize = n;
    while f > 0
        invariant
            forall|i: int| 0 <= i < dfs@.len() ==> 1 <= #[trigger] dfs@[i] <= n,
            f <= n,
            sel@.len() <= cap,
            forall|a: int| 0 <= a < sel@.len() ==> (#[trigger] sel@[a]) < dfs@.len(),
            forall|a: int| 0 <= a < sel@.len() ==> emitted(dfs@, f as int, 0, #[trigger] sel@[a] as int),
            forall|a: int, b: int|
                0 <= a < b < sel@.len() ==> row_before(dfs@, #[trigger] sel@[a] as int, #[trigger] sel@[b] as int),
            forall|x: int|
#![trigger dfs@[x]]
                0 <= x < dfs@.len() && emitted(dfs@, f as int, 0, x) && !has_row(sel@, x) ==> sel@.len() == cap && forall|a: int|
                    0 <= a < sel@.len() ==> row_before(dfs@, #[trigger] sel@[a] as int, x),
        decreases f,
    {
        let mut r: usize = 0;
        while r < dfs.len()
            invariant
                forall|i: int| 0 <= i < dfs@.len() ==> 1 <= #[trigger] dfs@[i] <= n,
                0 < f <= n,
                r <= dfs@.len(),
                sel@.len() <= cap,
                forall|a: int| 0 <= a < sel@.len() ==> (#[trigger] sel@[a]) < dfs@.len(),
                forall|a: int| 0 <= a < sel@.len() ==> emitted(dfs@, f as int, r as int, #[trigger] sel@[a] as int),
                forall|a: int, b: int|
                    0 <= a < b < sel@.len() ==> row_before(dfs@, #[trigger] sel@[a] as int, #[trigger] sel@[b] as int),
                forall|x: int|
#![trigger dfs@[x]]
                    0 <= x < dfs@.len() && emitted(dfs@, f as int, r as int, x) && !has_row(sel@, x) ==> sel@.len() == cap && forall|a: int|
                        0 <= a < sel@.len() ==> row_before(dfs@, #[trigger] sel@[a] as int, x),
            decreases dfs@.len() - r,
        {
            let ghost old_sel = sel@;
            if dfs[r] == f && sel.len() < cap {
                sel.push(r);
                proof {
                    assert forall|a: int, b: int| 0 <= a < b < sel@.len() implies row_before(dfs@, #[trigger] sel@[a] as int, #[trigger] sel@[b] as int) by {
                        if b == old_sel.len() {
                            assert(emitted(dfs@, f as int, r as int, old_sel[a] as int));
                        } else {
                            assert(sel@[a] == old_sel[a] && sel@[b] == old_sel[b]);
                        }
                    }
                    assert forall|x: int| #![trigger dfs@[x]] 0 <= x < dfs@.len() && emitted(dfs@, f as int, r + 1, x) && !has_row(sel@, x) implies sel@.len() == cap && forall|a: int| 0 <= a < sel@.len() ==> row_before(dfs@, #[trigger] sel@[a] as int, x) by {
                        if x == r {
                            assert(sel@[old_sel.len() as int] == r);
                        } else {
                            if has_row(old_sel, x) {
                                let j = choose|j: int| 0 <= j < old_sel.len() && old_sel[j] == x;
                                assert(sel@[j] == old_sel[j]);
                            }
                        }
                    }
                }
            } else {
                proof {
                    assert forall|x: int| #![trigger dfs@[x]] 0 <= x < dfs@.len() && emitted(dfs@, f as int, r + 1, x) && !has_row(sel@, x) implies sel@.len() == cap && forall|a: int| 0 <= a < sel@.len() ==> row_before(dfs@, #[trigger] sel@[a] as int, x) by {
                        if x == r && dfs@[r as int] == f {
                            assert forall|a: int| 0 <= a < sel@.len() implies row_before(dfs@, #[trigger] sel@[a] as int, x) by {
                                assert(emitted(dfs@, f as int, r as int, sel@[a] as int));
                            }
                        }
                    }
                }
            }
            r = r + 1;
        }
        proof {
            assert forall|x: int| #![trigger dfs@[x]] 0 <= x < dfs@.len() implies emitted(dfs@, f as int, dfs@.len() as int, x) == emitted(dfs@, f - 1, 0, x) by {}
        }
        f = f - 1;
    }
    proof {
        assert forall|x: int|
            #![trigger has_row(sel@, x)]
            0 <= x < dfs@.len() && !has_row(sel@, x) implies sel@.len() == cap && forall|a: int|
                0 <= a < sel@.len() ==> row_before(dfs@, #[trigger] sel@[a] as int, x) by {
            assert(emitted(dfs@, f as int, 0, x));
        }
    }
    sel
}

pub proof fn lemma_count_of_take(s: Seq<Seq<char>>, m: int, t: Seq<char>)
    requires
        0 <= m < s.len(),
    ensures
        count_of(s.take(m + 1), t) == count_of(s.take(m), t) + if s[m] == t {
            1nat
        } else {
            0nat
        },
{
    assert(s.take(m + 1).drop_last() =~= s.take(m));
    assert(s.take(m + 1).last() == s[m]);
}

pub proof fn lemma_count_of_le(s: Seq<Seq<char>>, t: Seq<char>)
    ensures
        count_of(s, t) <= s.len(),
    decreases s.len(),
{
    if s.len() > 0 {
        lemma_count_of_le(s.drop_last(), t);
    }
}

/// A term occurs in a sequence exactly when its count there is positive.
pub proof fn lemma_count_of_pos(s: Seq<Seq<char>>, t: Seq<char>)
    ensures
        count_of(s, t) > 0 <==> s.contains(t),
    decreases s.len(),
{
    if s.len() > 0 {
        lemma_count_of_pos(s.drop_last(), t);
        if s.drop_last().contains(t) {
            let j = choose|j: int| 0 <= j < s.drop_last().len() && s.drop_last()[j] == t;
            assert(s[j] == t);
        }
        if s.contains(t) {
            let j = choose|j: int| 0 <= j < s.len() && s[j] == t;
            if j < s.len() - 1 {
                assert(s.drop_last()[j] == t);
            }
        }
    }
}

proof fn lemma_take_push_contains(s: Seq<Seq<char>>, m: int)
    requires
        0 <= m < s.len(),
    ensures
        forall|x: Seq<char>| #[trigger] s.take(m + 1).contains(x) <==> (s.take(m).contains(x) || x == s[m]),
{
    assert forall|x: Seq<char>| #[trigger] s.take(m + 1).contains(x) <==> (s.take(m).contains(x) || x == s[m]) by {
        if s.take(m + 1).contains(x) {
            let j = choose|j: int| 0 <= j < m + 1 && #[trigger] s.take(m + 1)[j] == x;
            if j < m {
                assert(s.take(m)[j] == x);
            }
        }
        if s.take(m).contains(x) {
            let j = choose|j: int| 0 <= j < m && #[trigger] s.take(m)[j] == x;
            assert(s.take(m + 1)[j] == x);
        }
        if x == s[m] {
            assert(s.take(m + 1)[m] == x);
        }
    }
}

/// The distinct terms of a document, sorted, with their number of occurrences.
pub fn count_terms(doc: &Vec<Vec<char>>) -> (r: (Vec<Vec<char>>, Vec<usize>))
    ensures
        lex_sorted(views(r.0@)),
        r.0@.len() == r.1@.len(),
        forall|t: Seq<char>| #[trigger] views(r.0@).contains(t) <==> views(doc@).contains(t),
        forall|i: int| 0 <= i < r.1@.len() ==> #[trigger] r.1@[i] == count_of(views(doc@), r.0@[i]@),
{
    let ghost dv = views(doc@);
    let mut keys: Vec<Vec<char>> = Vec::new();
    let mut cnts: Vec<usize> = Vec::new();
    let mut m: usize = 0;
    assert(dv.take(0) =~= Seq::<Seq<char>>::empty());
    while m < doc.len()
        invariant
            dv == views(doc@),
            m <= doc@.len(),
            keys@.len() == cnts@.len(),
            lex_sorted(views(keys@)),
            forall|t: Seq<char>| #[trigger] views(keys@).contains(t) <==> dv.take(m as int).contains(t),
            forall|i: int| 0 <= i < cnts@.len() ==> #[trigger] cnts@[i] == count_of(dv.take(m as int), keys@[i]@),
        decreases doc@.len() - m,
    {
        let t = &doc[m];
        let ghost tv = t@;
        proof {
            assert(dv[m as int] == tv);
            lemma_take_push_contains(dv, m as int);
            assert forall|x: Seq<char>| #[trigger] count_of(dv.take(m + 1), x) == count_of(dv.take(m as int), x) + if dv[m as int] == x {
                1nat
            } else {
                0nat
            } by {
                lemma_count_of_take(dv, m as int, x);
            }
            lemma_count_of_le(dv.take(m as int), tv);
        }
        let (found, p) = find_key(&keys, t);
        let ghost kv = views(keys@);
        let ghost co = cnts@;
        if found {
            proof {
                assert(kv[p as int] == tv);
                assert forall|r: int| 0 <= r < kv.len() && r != p implies kv[r] != tv by {
                    if r < p {
                        assert(lex_lt(kv[r], kv[p as int]));
                    } else {
                        assert(lex_lt(kv[p as int], kv[r]));
                    }
                    lemma_lex_irreflexive(tv);
                }
            }
            let c = cnts[p];
            cnts.set(p, c + 1);
            proof {
                assert forall|i: int| 0 <= i < cnts@.len() implies #[trigger] cnts@[i] == count_of(dv.take(m + 1), keys@[i]@) by {
                    assert(kv[i] == keys@[i]@);
                    if i != p {
                        assert(kv[i] != tv);
                    }
                }
                assert forall|x: Seq<char>| #[trigger] views(keys@).contains(x) <==> dv.take(m + 1).contains(x) by {
                    if x == tv {
                        assert(kv[p as int] == x);
                    }
                }
            }
        } else {
            let k = copy_range(t, 0, t.len());
            proof {
                assert(t@.subrange(0, t@.len() as int) =~= t@);
            }
            let ghost ko = keys@;
            keys.insert(p, k);
            cnts.insert(p, 1);
            proof {
                lemma_views_insert(ko, p as int, k);
                let nk = views(keys@);
                assert forall|i: int| 0 <= i < kv.len() implies #[trigger] kv[i] == ko[i]@ by {}
                assert forall|i: int, j: int| 0 <= i < j < nk.len() implies lex_lt(#[trigger] nk[i], #[trigger] nk[j]) by {
                    if j < p {
                        assert(lex_lt(kv[i], kv[j]));
                    } else if j == p {
                        assert(lex_lt(ko[i]@, tv));
                    } else if i == p {
                        assert(lex_lt(tv, ko[j - 1]@));
                    } else if i < p {
                        assert(lex_lt(kv[i], kv[j - 1]));
                    } else {
                        assert(lex_lt(kv[i - 1], kv[j - 1]));
                    }
                }
                assert forall|x: Seq<char>| #[trigger] nk.contains(x) <==> dv.take(m + 1).contains(x) by {
                    if nk.contains(x) {
                        let j = choose|j: int| 0 <= j < nk.len() && nk[j] == x;
                        if j < p {
                            assert(kv[j] == x);
                        } else if j > p {
                            assert(kv[j - 1] == x);
                        }
                    }
                    if kv.contains(x) {
                        let j = choose|j: int| 0 <= j < kv.len() && kv[j] == x;
                        if j < p {
                            assert(nk[j] == x);
                        } else {
                            assert(nk[j + 1] == x);
                        }
                    }
                    if x == tv {
                        assert(nk[p as int] == x);
                    }
                }
                assert(!dv.take(m as int).contains(tv));
                lemma_count_of_pos(dv.take(m as int), tv);
                assert forall|i: int| 0 <= i < cnts@.len() implies #[trigger] cnts@[i] == count_of(dv.take(m + 1), keys@[i]@) by {
                    assert(nk[i] == keys@[i]@);
                    if i < p {
                        assert(lex_lt(ko[i]@, tv));
                        lemma_lex_irreflexive(tv);
                        assert(cnts@[i] == co[i]);
                    } else if i > p {
                        assert(lex_lt(tv, ko[i - 1]@));
                        lemma_lex_irreflexive(tv);
                        assert(cnts@[i] == co[i - 1]);
                    }
                }
            }
        }
        m = m + 1;
    }
    assert(dv.take(doc@.len() as int) =~= dv);
    (keys, cnts)
}

/// The most terms that the vocabulary keeps.
pub const VOCABULARY_LIMIT: usize = 10000;

/// Term `a` ranks before term `b`: a higher document frequency first, then
/// lexicographic order.
pub open spec fn ranks_before(dts: Seq<Seq<Seq<char>>>, a: Seq<char>, b: Seq<char>) -> bool {
    doc_freq(dts, a) > doc_freq(dts, b) || (doc_freq(dts, a) == doc_freq(dts, b) && lex_lt(a, b))
}

/// `v` is the vocabulary of the collection: the terms that occur in it,
/// ranked, the first `cap` of them.
pub open spec fn is_vocabulary(dts: Seq<Seq<Seq<char>>>, v: Seq<Seq<char>>, cap: nat) -> bool {
    &&& v.len() <= cap
    &&& forall|i: int| 0 <= i < v.len() ==> doc_freq(dts, #[trigger] v[i]) > 0
    &&& forall|i: int, j: int|
        0 <= i < j < v.len() ==> ranks_before(dts, #[trigger] v[i], #[trigger] v[j])
    &&& forall|t: Seq<char>|
        #![trigger v.contains(t)]
        doc_freq(dts, t) > 0 && !v.contains(t) ==> v.len() == cap && forall|i: int|
            0 <= i < v.len() ==> ranks_before(dts, #[trigger] v[i], t)
}

/// The (vocabulary index, count) entries of a document: one for each
/// vocabulary term that the document holds, with its number of occurrences.
pub open spec fn counts_match(dt: Seq<Seq<char>>, v: Seq<Seq<char>>, tc: Seq<(usize, usize)>) -> bool {
    &&& forall|e: int|
        0 <= e < tc.len() ==> (#[trigger] tc[e]).0 < v.len() && tc[e].1 == count_of(
            dt,
            v[tc[e].0 as int],
        ) && tc[e].1 > 0
    &&& forall|e1: int, e2: int|
        0 <= e1 < e2 < tc.len() ==> (#[trigger] tc[e1]).0 != (#[trigger] tc[e2]).0
    &&& forall|i: int|
        0 <= i < v.len() && #[trigger] count_of(dt, v[i]) > 0 ==> exists|e: int|
            0 <= e < tc.len() && #[trigger] tc[e].0 == i
}

/// Term statistics of a collection of documents given by their terms.
pub struct CorpusCounts {
    pub vocabulary: Vec<Vec<char>>,
    pub doc_freq: Vec<usize>,
    pub term_counts: Vec<Vec<(usize, usize)>>,
    pub term_totals: Vec<usize>,
}

/// The statistics are those of the documents' terms `dts`.
pub open spec fn counts_of(dts: Seq<Seq<Seq<char>>>, c: CorpusCounts) -> bool {
    let v = views(c.vocabulary@);
    &&& is_vocabulary(dts, v, VOCABULARY_LIMIT as nat)
    &&& c.doc_freq@.len() == v.len()
    &&& forall|i: int| 0 <= i < v.len() ==> #[trigger] c.doc_freq@[i] == doc_freq(dts, v[i])
    &&& c.term_counts@.len() == dts.len()
    &&& forall|d: int| 0 <= d < dts.len() ==> counts_match(dts[d], v, #[trigger] c.term_counts@[d]@)
    &&& c.term_totals@.len() == dts.len()
    &&& forall|d: int| 0 <= d < dts.len() ==> #[trigger] c.term_totals@[d] == dts[d].len()
}

/// Vocabulary, document frequencies and per-document term counts of a
/// collection of documents given by their terms. The vocabulary holds the
/// terms by decreasing document frequency, then in lexicographic order, at
/// most `VOCABULARY_LIMIT` of them.
pub fn corpus_counts(dts: &Vec<Vec<Vec<char>>>) -> (r: CorpusCounts)
    ensures
        counts_of(nested_views(dts@), r),
{
    let ghost dtv = nested_views(dts@);
    let (keys, dfs) = document_frequencies(dts);
    let ghost kv = views(keys@);
    proof {
        assert forall|i: int| 0 <= i < dfs@.len() implies 1 <= #[trigger] dfs@[i] <= dts@.len() by {
            assert(kv[i] == keys@[i]@);
            assert(kv.contains(kv[i]));
            lemma_doc_freq_le(dtv, kv[i]);
        }
    }
    let sel = rank_rows(&dfs, dts.len(), VOCABULARY_LIMIT);
    // vocabulary and its frequencies; where each table row went
    let mut vocab: Vec<Vec<char>> = Vec::new();
    let mut vdf: Vec<usize> = Vec::new();
    let mut slot: Vec<Option<usize>> = Vec::new();
    let mut x: usize = 0;
    while x < keys.len()
        invariant
            x <= keys@.len(),
            slot@.len() == x,
            forall|y: int| 0 <= y < x ==> #[trigger] slot@[y] == None::<usize>,
        decreases keys@.len() - x,
    {
        slot.push(None);
        x = x + 1;
    }
    let mut a: usize = 0;
    while a < sel.len()
        invariant
            keys@.len() == dfs@.len(),
            slot@.len() == keys@.len(),
            forall|q: int| 0 <= q < sel@.len() ==> (#[trigger] sel@[q]) < dfs@.len(),
            forall|q1: int, q2: int|
                0 <= q1 < q2 < sel@.len() ==> row_before(dfs@, #[trigger] sel@[q1] as int, #[trigger] sel@[q2] as int),
            a <= sel@.len(),
            vocab@.len() == a,
            vdf@.len() == a,
            forall|q: int| 0 <= q < a ==> (#[trigger] vocab@[q])@ == keys@[sel@[q] as int]@,
            forall|q: int| 0 <= q < a ==> #[trigger] vdf@[q] == dfs@[sel@[q] as int],
            forall|y: int| 0 <= y < slot@.len() ==> match #[trigger] slot@[y] {
                Some(q) => q < a && sel@[q as int] == y,
                None => forall|q: int| 0 <= q < a ==> sel@[q] != y,
            },
        decreases sel@.len() - a,
    {
        let row = sel[a];
        let w = copy_range(&keys[row], 0, keys[row].len());
        proof {
            assert(keys@[row as int]@.subrange(0, keys@[row as int]@.len() as int) =~= keys@[row as int]@);
            assert forall|q: int| 0 <= q < a implies sel@[q] != row by {
                assert(row_before(dfs@, sel@[q] as int, sel@[a as int] as int));
            }
        }
        vocab.push(w);
        vdf.push(dfs[row]);
        slot.set(row, Some(a));
        a = a + 1;
    }
    let ghost vv = views(vocab@);
    proof {
        assert forall|q: int| 0 <= q < vv.len() implies #[trigger] vv[q] == kv[sel@[q] as int] by {
            assert(vv[q] == vocab@[q]@);
        }
        // ranking over terms matches ranking over rows
        assert forall|i: int, j: int| 0 <= i < j < vv.len() implies ranks_before(dtv, #[trigger] vv[i], #[trigger] vv[j]) by {
            let ri = sel@[i] as int;
            let rj = sel@[j] as int;
            assert(row_before(dfs@, ri, rj));
            assert(dfs@[ri] == doc_freq(dtv, keys@[ri]@));
            assert(dfs@[rj] == doc_freq(dtv, keys@[rj]@));
            assert(kv[ri] == keys@[ri]@ && kv[rj] == keys@[rj]@);
            if dfs@[ri] == dfs@[rj] {
                assert(ri < rj);
                assert(lex_lt(kv[ri], kv[rj]));
            }
        }
        assert forall|i: int| 0 <= i < vv.len() implies doc_freq(dtv, #[trigger] vv[i]) > 0 by {
            let ri = sel@[i] as int;
            assert(kv[ri] == keys@[ri]@);
            assert(kv.contains(kv[ri]));
        }
        assert forall|t: Seq<char>|
            #![trigger vv.contains(t)]
            doc_freq(dtv, t) > 0 && !vv.contains(t) implies vv.len() == VOCABULARY_LIMIT as nat && forall|i: int|
                0 <= i < vv.len() ==> ranks_before(dtv, #[trigger] vv[i], t) by {
            assert(kv.contains(t));
            let xr = choose|xr: int| 0 <= xr < kv.len() && kv[xr] == t;
            assert(kv[xr] == keys@[xr]@);
            if has_row(sel@, xr) {
                let q = choose|q: int| 0 <= q < sel@.len() && sel@[q] == xr;
                assert(vv[q] == t);
            }
            assert forall|i: int| 0 <= i < vv.len() implies ranks_before(dtv, #[trigger] vv[i], t) by {
                let ri = sel@[i] as int;
                assert(row_before(dfs@, ri, xr));
                assert(kv[ri] == keys@[ri]@);
                assert(dfs@[ri] == doc_freq(dtv, keys@[ri]@));
                assert(dfs@[xr] == doc_freq(dtv, keys@[xr]@));
                if dfs@[ri] == dfs@[xr] {
                    assert(lex_lt(kv[ri], kv[xr]));
                }
            }
        }
        assert forall|i: int| 0 <= i < vv.len() implies #[trigger] vdf@[i] == doc_freq(dtv, vv[i]) by {
            let ri = sel@[i] as int;
            assert(kv[ri] == keys@[ri]@);
        }
    }
    // per-document counts
    let mut tcs: Vec<Vec<(usize, usize)>> = Vec::new();
    let mut totals: Vec<usize> = Vec::new();
    let mut d: usize = 0;
    while d < dts.len()
        invariant
            dtv == nested_views(dts@),
            kv == views(keys@),
            vv == views(vocab@),
            lex_sorted(kv),
            forall|t: Seq<char>|
                #![trigger kv.contains(t)]
                #![trigger doc_freq(dtv, t)]
                kv.contains(t) <==> doc_freq(dtv, t) > 0,
            slot@.len() == keys@.len(),
            forall|q: int| 0 <= q < vv.len() ==> #[trigger] vv[q] == kv[sel@[q] as int],
            forall|q: int| 0 <= q < sel@.len() ==> (#[trigger] sel@[q]) < dfs@.len(),
            forall|q1: int, q2: int|
                0 <= q1 < q2 < sel@.len() ==> row_before(dfs@, #[trigger] sel@[q1] as int, #[trigger] sel@[q2] as int),
            keys@.len() == dfs@.len(),
            vocab@.len() == sel@.len(),
            forall|y: int| 0 <= y < slot@.len() ==> match #[trigger] slot@[y] {
                Some(q) => q < sel@.len() && sel@[q as int] == y,
                None => forall|q: int| 0 <= q < sel@.len() ==> sel@[q] != y,
            },
            d <= dts@.len(),
            tcs@.len() == d,
            totals@.len() == d,
            forall|e: int| 0 <= e < d ==> counts_match(dtv[e], vv, #[trigger] tcs@[e]@),
            forall|e: int| 0 <= e < d ==> #[trigger] totals@[e] == dtv[e].len(),
        decreases dts@.len() - d,
    {
        let doc = &dts[d];
        let ghost dv = dtv[d as int];
        assert(dv == views(doc@));
        let (ck, cc) = count_terms(doc);
        let ghost ckv = views(ck@);
        let mut tc: Vec<(usize, usize)> = Vec::new();
        let mut e: usize = 0;
        while e < ck.len()
            invariant
                dtv == nested_views(dts@),
                kv == views(keys@),
                vv == views(vocab@),
                lex_sorted(kv),
                forall|t: Seq<char>|
                    #![trigger kv.contains(t)]
                    #![trigger doc_freq(dtv, t)]
                    kv.contains(t) <==> doc_freq(dtv, t) > 0,
                slot@.len() == keys@.len(),
                forall|q: int| 0 <= q < vv.len() ==> #[trigger] vv[q] == kv[sel@[q] as int],
                forall|q: int| 0 <= q < sel@.len() ==> (#[trigger] sel@[q]) < dfs@.len(),
                forall|q1: int, q2: int|
                    0 <= q1 < q2 < sel@.len() ==> row_before(dfs@, #[trigger] sel@[q1] as int, #[trigger] sel@[q2] as int),
                keys@.len() == dfs@.len(),
                vocab@.len() == sel@.len(),
                forall|y: int| 0 <= y < slot@.len() ==> match #[trigger] slot@[y] {
                    Some(q) => q < sel@.len() && sel@[q as int] == y,
                    None => forall|q: int| 0 <= q < sel@.len() ==> sel@[q] != y,
                },
                d < dts@.len(),
                dv == dtv[d as int],
                ckv == views(ck@),
                lex_sorted(ckv),
                ck@.len() == cc@.len(),
                forall|t: Seq<char>| #[trigger] ckv.contains(t) <==> dv.contains(t),
                forall|i: int| 0 <= i < cc@.len() ==> #[trigger] cc@[i] == count_of(dv, ck@[i]@),
                e <= ck@.len(),
                forall|q: int|
                    0 <= q < tc@.len() ==> (#[trigger] tc@[q]).0 < vv.len() && tc@[q].1 == count_of(
                        dv,
                        vv[tc@[q].0 as int],
                    ) && tc@[q].1 > 0 && ckv.take(e as int).contains(vv[tc@[q].0 as int]),
                forall|q1: int, q2: int|
                    0 <= q1 < q2 < tc@.len() ==> (#[trigger] tc@[q1]).0 != (#[trigger] tc@[q2]).0,
                forall|i: int|
                    0 <= i < vv.len() && #[trigger] ckv.take(e as int).contains(vv[i]) ==> exists|q: int|
                        0 <= q < tc@.len() && #[trigger] tc@[q].0 == i,
            decreases ck@.len() - e,
        {
            let term = &ck[e];
            let ghost tv = term@;
            proof {
                assert(ckv[e as int] == tv);
                assert(ckv.contains(tv));
                assert(dv.contains(tv));
                let j = choose|j: int| 0 <= j < dv.len() && dv[j] == tv;
                assert(dtv[d as int].contains(tv));
                assert(doc_freq(dtv, tv) > 0) by {
                    lemma_doc_freq_contains(dtv, d as int, tv);
                }
                lemma_take_push_contains(ckv, e as int);
            }
            let (found, row) = find_key(&keys, term);
            proof {
                assert(kv.contains(tv));
                assert(found);
            }
            let ghost before = tc@;
            match slot[row] {
                Some(q) => {
                    let c = cc[e];
                    proof {
                        assert(vv[q as int] == kv[row as int]);
                        assert(kv[row as int] == keys@[row as int]@);
                        lemma_count_of_pos(dv, tv);
                        assert forall|q2: int| 0 <= q2 < before.len() implies before[q2].0 != q by {
                            if before[q2].0 == q {
                                assert(ckv.take(e as int).contains(tv));
                                let j2 = choose|j2: int| 0 <= j2 < e && #[trigger] ckv.take(e as int)[j2] == tv;
                                assert(lex_lt(ckv[j2], ckv[e as int]));
                                lemma_lex_irreflexive(tv);
                            }
                        }
                    }
                    tc.push((q, c));
                    proof {
                        assert forall|i: int|
                            0 <= i < vv.len() && #[trigger] ckv.take(e + 1).contains(vv[i]) implies exists|q3: int|
                                0 <= q3 < tc@.len() && #[trigger] tc@[q3].0 == i by {
                            if ckv.take(e as int).contains(vv[i]) {
                                let q3 = choose|q3: int| 0 <= q3 < before.len() && #[trigger] before[q3].0 == i;
                                assert(tc@[q3] == before[q3]);
                            } else {
                                assert(vv[i] == tv);
                                assert(vv[q as int] == tv);
                                assert(kv[sel@[i] as int] == kv[sel@[q as int] as int]);
                                lemma_sorted_distinct(kv, sel@[i] as int, sel@[q as int] as int);
                                lemma_rows_distinct(dfs@, sel@, i, q as int);
                                assert(tc@[before.len() as int].0 == i);
                            }
                        }
                    }
                },
                None => {
                    proof {
                        assert forall|i: int|
                            0 <= i < vv.len() && #[trigger] ckv.take(e + 1).contains(vv[i]) implies exists|q3: int|
                                0 <= q3 < tc@.len() && #[trigger] tc@[q3].0 == i by {
                            if ckv.take(e as int).contains(vv[i]) {
                            } else {
                                assert(vv[i] == tv);
                                assert(kv[sel@[i] as int] == tv);
                                assert(kv[row as int] == keys@[row as int]@);
                                lemma_sorted_distinct(kv, sel@[i] as int, row as int);
                                assert(sel@[i] == row);
                            }
                        }
                    }
                },
            }
            e = e + 1;
        }
        proof {
            assert(ckv.take(ck@.len() as int) =~= ckv);
            assert forall|i: int|
                0 <= i < vv.len() && #[trigger] count_of(dv, vv[i]) > 0 implies exists|q: int|
                    0 <= q < tc@.len() && #[trigger] tc@[q].0 == i by {
                lemma_count_of_pos(dv, vv[i]);
                assert(ckv.contains(vv[i]));
            }
        }
        tcs.push(tc);
        totals.push(doc.len());
        proof {
            assert(views(doc@).len() == doc@.len());
        }
        d = d + 1;
    }
    CorpusCounts { vocabulary: vocab, doc_freq: vdf, term_counts: tcs, term_totals: totals }
}

pub proof fn lemma_doc_freq_contains(dts: Seq<Seq<Seq<char>>>, d: int, t: Seq<char>)
    requires
        0 <= d < dts.len(),
        dts[d].contains(t),
    ensures
        doc_freq(dts, t) > 0,
    decreases dts.len(),
{
    if d < dts.len() - 1 {
        lemma_doc_freq_contains(dts.drop_last(), d, t);
    }
}

/// In a strictly sorted sequence, equal entries sit at the same position.
pub proof fn lemma_sorted_distinct(s: Seq<Seq<char>>, i: int, j: int)
    requires
        lex_sorted(s),
        0 <= i < s.len(),
        0 <= j < s.len(),
        s[i] == s[j],
    ensures
        i == j,
{
    if i < j {
        assert(lex_lt(s[i], s[j]));
        lemma_lex_irreflexive(s[i]);
    } else if j < i {
        assert(lex_lt(s[j], s[i]));
        lemma_lex_irreflexive(s[i]);
    }
}

proof fn lemma_rows_distinct(dfs: Seq<usize>, sel: Seq<usize>, i: int, q: int)
    requires
        0 <= i < sel.len(),
        0 <= q < sel.len(),
        sel[i] == sel[q],
        forall|q1: int, q2: int|
            0 <= q1 < q2 < sel.len() ==> row_before(dfs, #[trigger] sel[q1] as int, #[trigger] sel[q2] as int),
    ensures
        i == q,
{
    if i < q {
        assert(row_before(dfs, sel[i] as int, sel[q] as int));
    } else if q < i {
        assert(row_before(dfs, sel[q] as int, sel[i] as int));
    }
}

} // verus!
