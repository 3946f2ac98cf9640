use vstd::prelude::*;
use crate::text::{spec_words, str_chars};

verus! {

/// The views of a sequence of strings.
pub open spec fn str_views(ss: Seq<String>) -> Seq<Seq<char>> {
    ss.map_values(|s: String| s@)
}

/// Lexicographic order on character sequences by code point.
pub open spec fn spec_lex_less(a: Seq<char>, b: Seq<char>) -> bool
    decreases a.len(),
{
    if a.len() == 0 {
        b.len() > 0
    } else if b.len() == 0 {
        false
    } else if (a[0] as u32) < (b[0] as u32) {
        true
    } else if (a[0] as u32) > (b[0] as u32) {
        false
    } else {
        spec_lex_less(a.drop_first(), b.drop_first())
    }
}

/// Specificity order used for the alias list: more words first, then longer
/// aliases first, then lexicographic.
pub open spec fn spec_alias_before(a: Seq<char>, b: Seq<char>) -> bool {
    let wa = spec_words(a).len();
    let wb = spec_words(b).len();
    if wa != wb {
        wa > wb
    } else if a.len() != b.len() {
        a.len() > b.len()
    } else {
        spec_lex_less(a, b)
    }
}

pub proof fn lemma_lex_trichotomy(a: Seq<char>, b: Seq<char>)
    ensures
        a == b || spec_lex_less(a, b) || spec_lex_less(b, a),
    decreases a.len(),
{
    if a.len() == 0 {
        if b.len() == 0 {
            assert(a =~= b);
        }
    } else if b.len() == 0 {
    } else if a[0] == b[0] {
        lemma_lex_trichotomy(a.drop_first(), b.drop_first());
        if a.drop_first() == b.drop_first() {
            assert(a =~= seq![a[0]] + a.drop_first());
            assert(b =~= seq![b[0]] + b.drop_first());
        }
    } else {
        vstd::utf8::char_u32_cast(a[0], a[0] as u32);
        vstd::utf8::char_u32_cast(b[0], b[0] as u32);
        assert((a[0] as u32) != (b[0] as u32));
    }
}

pub proof fn lemma_lex_asymmetric(a: Seq<char>, b: Seq<char>)
    ensures
        !(spec_lex_less(a, b) && spec_lex_less(b, a)),
    decreases a.len(),
{
    if a.len() > 0 && b.len() > 0 && (a[0] as u32) == (b[0] as u32) {
        lemma_lex_asymmetric(a.drop_first(), b.drop_first());
    }
}

pub proof fn lemma_lex_transitive(a: Seq<char>, b: Seq<char>, c: Seq<char>)
    requires
        spec_lex_less(a, b),
        spec_lex_less(b, c),
    ensures
        spec_lex_less(a, c),
    decreases a.len(),
{
    if a.len() == 0 {
    } else if (a[0] as u32) == (b[0] as u32) && (b[0] as u32) == (c[0] as u32) {
        lemma_lex_transitive(a.drop_first(), b.drop_first(), c.drop_first());
    }
}

pub proof fn lemma_alias_before_trichotomy(a: Seq<char>, b: Seq<char>)
    ensures
        a == b || spec_alias_before(a, b) || spec_alias_before(b, a),
{
    lemma_lex_trichotomy(a, b);
}

pub proof fn lemma_alias_before_asymmetric(a: Seq<char>, b: Seq<char>)
    ensures
        !(spec_alias_before(a, b) && spec_alias_before(b, a)),
{
    lemma_lex_asymmetric(a, b);
}

pub proof fn lemma_alias_before_transitive(a: Seq<char>, b: Seq<char>, c: Seq<char>)
    requires
        spec_alias_before(a, b),
        spec_alias_before(b, c),
    ensures
        spec_alias_before(a, c),
{
    if spec_words(a).len() == spec_words(b).len() && spec_words(b).len() == spec_words(c).len()
        && a.len() == b.len() && b.len() == c.len() {
        lemma_lex_transitive(a, b, c);
    }
}

/// A strictly sorted alias list: earlier entries come strictly before later
/// ones in the specificity order (so entries are also pairwise distinct).
pub open spec fn strictly_sorted(ss: Seq<Seq<char>>) -> bool {
    forall|i: int, j: int|
        0 <= i < j < ss.len() ==> spec_alias_before(ss[i], ss[j])
}

/// Two strictly sorted lists with the same members are the same list.
pub proof fn lemma_sorted_unique_equal(s1: Seq<Seq<char>>, s2: Seq<Seq<char>>)
    requires
        strictly_sorted(s1),
        strictly_sorted(s2),
        forall|x: Seq<char>| s1.contains(x) <==> s2.contains(x),
    ensures
        s1 =~= s2,
    decreases s1.len(),
{
    if s1.len() == 0 {
        if s2.len() > 0 {
            assert(s2.contains(s2[0]));
            assert(false);
        }
    } else {
        assert(s1.contains(s1[0]));
        assert(s2.contains(s2[0]));
        let i = choose|i: int| 0 <= i < s2.len() && s2[i] == s1[0];
        let j = choose|j: int| 0 <= j < s1.len() && s1[j] == s2[0];
        lemma_alias_before_asymmetric(s1[0], s2[0]);
        if i > 0 {
            assert(spec_alias_before(s2[0], s2[i]));
        }
        if j > 0 {
            assert(spec_alias_before(s1[0], s1[j]));
        }
        assert(s1[0] == s2[0]);
        let t1 = s1.drop_first();
        let t2 = s2.drop_first();
        assert forall|x: Seq<char>| t1.contains(x) implies t2.contains(x) by {
            let k = choose|k: int| 0 <= k < t1.len() && t1[k] == x;
            assert(s1[k + 1] == x);
            assert(s1.contains(x));
            assert(s2.contains(x));
            let l = choose|l: int| 0 <= l < s2.len() && s2[l] == x;
            lemma_alias_before_asymmetric(s1[0], x);
            assert(spec_alias_before(s1[0], x));
            if l == 0 {
                assert(false);
            }
            assert(t2[l - 1] == x);
        }
        assert forall|x: Seq<char>| t2.contains(x) implies t1.contains(x) by {
            let k = choose|k: int| 0 <= k < t2.len() && t2[k] == x;
            assert(s2[k + 1] == x);
            assert(s2.contains(x));
            assert(s1.contains(x));
            let l = choose|l: int| 0 <= l < s1.len() && s1[l] == x;
            lemma_alias_before_asymmetric(s2[0], x);
            assert(spec_alias_before(s2[0], x));
            if l == 0 {
                assert(false);
            }
            assert(t1[l - 1] == x);
        }
        lemma_sorted_unique_equal(t1, t2);
        assert(s1.len() == s2.len());
        assert forall|i: int| 0 <= i < s1.len() implies s1[i] == s2[i] by {
            if i > 0 {
                assert(s1[i] == t1[i - 1]);
                assert(s2[i] == t2[i - 1]);
            }
        }
        assert(s1 =~= s2);
    }
}


/// Strictly ascending identifier lists with the same members are the same
/// list.
pub proof fn lemma_lex_sorted_unique_equal(s1: Seq<Seq<char>>, s2: Seq<Seq<char>>)
    requires
        forall|i: int, j: int| 0 <= i < j < s1.len() ==> spec_lex_less(s1[i], s1[j]),
        forall|i: int, j: int| 0 <= i < j < s2.len() ==> spec_lex_less(s2[i], s2[j]),
        forall|x: Seq<char>| s1.contains(x) <==> s2.contains(x),
    ensures
        s1 =~= s2,
    decreases s1.len(),
{
    if s1.len() == 0 {
        if s2.len() > 0 {
            assert(s2.contains(s2[0]));
            assert(false);
        }
    } else {
        assert(s1.contains(s1[0]));
        assert(s2.contains(s2[0]));
        let i = choose|i: int| 0 <= i < s2.len() && s2[i] == s1[0];
        let j = choose|j: int| 0 <= j < s1.len() && s1[j] == s2[0];
        lemma_lex_asymmetric(s1[0], s2[0]);
        if i > 0 {
            assert(spec_lex_less(s2[0], s2[i]));
        }
        if j > 0 {
            assert(spec_lex_less(s1[0], s1[j]));
        }
        assert(s1[0] == s2[0]);
        let t1 = s1.drop_first();
        let t2 = s2.drop_first();
        assert forall|x: Seq<char>| t1.contains(x) implies t2.contains(x) by {
            let k = choose|k: int| 0 <= k < t1.len() && t1[k] == x;
            assert(s1[k + 1] == x);
            assert(s1.contains(x));
            assert(s2.contains(x));
            let l = choose|l: int| 0 <= l < s2.len() && s2[l] == x;
            lemma_lex_asymmetric(s1[0], x);
            assert(spec_lex_less(s1[0], x));
            if l == 0 {
                assert(false);
            }
            assert(t2[l - 1] == x);
        }
        assert forall|x: Seq<char>| t2.contains(x) implies t1.contains(x) by {
            let k = choose|k: int| 0 <= k < t2.len() && t2[k] == x;
            assert(s2[k + 1] == x);
            assert(s2.contains(x));
            assert(s1.contains(x));
            let l = choose|l: int| 0 <= l < s1.len() && s1[l] == x;
            lemma_lex_asymmetric(s2[0], x);
            assert(spec_lex_less(s2[0], x));
            if l == 0 {
                assert(false);
            }
            assert(t1[l - 1] == x);
        }
        assert forall|a: int, b: int| 0 <= a < b < t1.len() implies spec_lex_less(
            t1[a],
            t1[b],
        ) by {
            assert(t1[a] == s1[a + 1]);
            assert(t1[b] == s1[b + 1]);
        }
        assert forall|a: int, b: int| 0 <= a < b < t2.len() implies spec_lex_less(
            t2[a],
            t2[b],
        ) by {
            assert(t2[a] == s2[a + 1]);
            assert(t2[b] == s2[b + 1]);
        }
        lemma_lex_sorted_unique_equal(t1, t2);
        assert(s1.len() == s2.len());
        assert forall|m: int| 0 <= m < s1.len() implies s1[m] == s2[m] by {
            if m > 0 {
                assert(s1[m] == t1[m - 1]);
                assert(s2[m] == t2[m - 1]);
            }
        }
        assert(s1 =~= s2);
    }
}

// ---------------------------------------------------------------------------
// Executable comparisons
// ---------------------------------------------------------------------------

pub fn lex_less_chars(a: &Vec<char>, b: &Vec<char>) -> (r: bool)
    ensures
        r == spec_lex_less(a@, b@),
{
    let n = a.len();
    let m = b.len();
    let mut i: usize = 0;
    proof {
        assert(a@.skip(0) =~= a@);
        assert(b@.skip(0) =~= b@);
    }
    while i < n && i < m
        invariant
            i <= n,
            i <= m,
            n == a.len(),
            m == b.len(),
            spec_lex_less(a@, b@) == spec_lex_less(a@.skip(i as int), b@.skip(i as int)),
        decreases n - i,
    {
        let ca = a[i] as u32;
        let cb = b[i] as u32;
        if ca < cb {
            return true;
        }
        if ca > cb {
            return false;
        }
        proof {
            assert(a@.skip(i as int).drop_first() =~= a@.skip(i + 1));
            assert(b@.skip(i as int).drop_first() =~= b@.skip(i + 1));
            vstd::utf8::char_u32_cast(a@[i as int], ca);
            vstd::utf8::char_u32_cast(b@[i as int], cb);
            assert(a@[i as int] == b@[i as int]);
        }
        i = i + 1;
    }
    proof {
        if i >= n {
            assert(a@.skip(i as int).len() == 0);
        } else {
            assert(b@.skip(i as int).len() == 0);
        }
    }
    i >= n && m > n
}

/// Number of space-separated words.
pub fn word_count(s: &Vec<char>) -> (r: usize)
    ensures
        r == spec_words(s@).len(),
{
    let ws = super::text::split_words(s);
    proof {
        assert(super::text::seq_views(ws@).len() == ws@.len());
    }
    ws.len()
}

pub fn alias_before(a: &String, b: &String) -> (r: bool)
    ensures
        r == spec_alias_before(a@, b@),
{
    let ac = str_chars(a.as_str());
    let bc = str_chars(b.as_str());
    let wa = word_count(&ac);
    let wb = word_count(&bc);
    if wa != wb {
        wa > wb
    } else if ac.len() != bc.len() {
        ac.len() > bc.len()
    } else {
        lex_less_chars(&ac, &bc)
    }
}

/// Insert a fresh alias into a strictly sorted list, keeping it sorted.
pub fn insert_sorted(v: &mut Vec<String>, x: String)
    requires
        strictly_sorted(str_views(old(v)@)),
        !str_views(old(v)@).contains(x@),
    ensures
        strictly_sorted(str_views(final(v)@)),
        final(v)@.len() == old(v)@.len() + 1,
        forall|y: Seq<char>|
            str_views(final(v)@).contains(y) <==> (str_views(old(v)@).contains(y) || y == x@),
{
    let n = v.len();
    let mut idx: usize = 0;
    while idx < n && !alias_before(&x, &v[idx])
        invariant
            idx <= n,
            n == v.len(),
            v@ == old(v)@,
            forall|k: int| 0 <= k < idx ==> spec_alias_before(str_views(v@)[k], x@),
        decreases n - idx,
    {
        proof {
            lemma_alias_before_trichotomy(x@, v@[idx as int]@);
            if v@[idx as int]@ == x@ {
                assert(str_views(v@)[idx as int] == x@);
                assert(str_views(v@).contains(x@));
                assert(false);
            }
        }
        idx = idx + 1;
    }
    let ghost old_v = v@;
    let ghost gidx = idx as int;
    v.insert(idx, x);
    proof {
        let nv = str_views(v@);
        let ov = str_views(old_v);
        assert forall|i: int, j: int| 0 <= i < j < nv.len() implies spec_alias_before(
            nv[i],
            nv[j],
        ) by {
            if i < gidx && j == gidx {
                assert(nv[i] == ov[i]);
                assert(nv[j] == x@);
            } else if i == gidx && j > gidx {
                assert(nv[i] == x@);
                assert(nv[j] == ov[j - 1]);
                if gidx < ov.len() {
                    assert(spec_alias_before(x@, ov[gidx]));
                    if j - 1 > gidx {
                        lemma_alias_before_transitive(x@, ov[gidx], ov[j - 1]);
                    }
                }
            } else if i < gidx && j > gidx {
                assert(nv[i] == ov[i]);
                assert(nv[j] == ov[j - 1]);
                if i == j - 1 {
                    assert(spec_alias_before(ov[i], x@));
                    assert(spec_alias_before(x@, ov[gidx]));
                } else {
                    assert(spec_alias_before(ov[i], ov[j - 1]));
                }
            } else if i < gidx && j < gidx {
                assert(nv[i] == ov[i]);
                assert(nv[j] == ov[j]);
            } else {
                assert(nv[i] == ov[i - 1]);
                assert(nv[j] == ov[j - 1]);
            }
        }
        assert forall|y: Seq<char>| nv.contains(y) implies (ov.contains(y) || y == x@) by {
            let k = choose|k: int| 0 <= k < nv.len() && nv[k] == y;
            if k < gidx {
                assert(ov[k] == y);
            } else if k > gidx {
                assert(ov[k - 1] == y);
            }
        }
        assert forall|y: Seq<char>| ov.contains(y) || y == x@ implies nv.contains(y) by {
            if y == x@ {
                assert(nv[gidx] == y);
            } else {
                let k = choose|k: int| 0 <= k < ov.len() && ov[k] == y;
                if k < gidx {
                    assert(nv[k] == y);
                } else {
                    assert(nv[k + 1] == y);
                }
            }
        }
    }
}

} // verus!
