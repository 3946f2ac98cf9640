use vstd::prelude::*;
use crate::catalog::{
    BlockCatalog, AliasEntry, entry_keys, spec_lookup, spec_maps_to, lex_sorted, spec_collect,
    spec_dedup_append, spec_match_blocks, spec_alias_matched, spec_token_present,
    spec_fuzzy_hit_words, lemma_lookup_at, lemma_lookup_absent,
};
use crate::order::{str_views, lemma_sorted_unique_equal, lemma_lex_sorted_unique_equal};
use crate::text::{spec_normalize, occurs_at};
use crate::lev::{spec_lev, spec_similar_enough};

verus! {

// ---------------------------------------------------------------------------
// How deduplicated collection behaves
// ---------------------------------------------------------------------------

/// The seen-set of an accumulator tracks exactly what its output holds.
pub open spec fn acc_consistent(acc: (Seq<Seq<char>>, Set<Seq<char>>)) -> bool {
    forall|x: Seq<char>| acc.1.contains(x) <==> acc.0.contains(x)
}

/// Appending identifiers with deduplication keeps the accumulator
/// consistent and adds exactly the members of `ids`.
pub proof fn lemma_dedup_append_contains(acc: (Seq<Seq<char>>, Set<Seq<char>>), ids: Seq<Seq<char>>)
    requires
        acc_consistent(acc),
    ensures
        acc_consistent(spec_dedup_append(acc, ids)),
        forall|x: Seq<char>|
            #[trigger] spec_dedup_append(acc, ids).0.contains(x) <==> (acc.0.contains(x)
                || ids.contains(x)),
    decreases ids.len(),
{
    if ids.len() == 0 {
        assert forall|x: Seq<char>|
            #[trigger] spec_dedup_append(acc, ids).0.contains(x) <==> (acc.0.contains(x)
                || ids.contains(x)) by {
            if ids.contains(x) {
                let k = choose|k: int| 0 <= k < ids.len() && ids[k] == x;
                assert(false);
            }
        }
    } else {
        let first = ids[0];
        let rest = ids.drop_first();
        if acc.1.contains(first) {
            assert(spec_dedup_append(acc, ids) == spec_dedup_append(acc, rest));
            lemma_dedup_append_contains(acc, rest);
            assert forall|x: Seq<char>|
                #[trigger] spec_dedup_append(acc, ids).0.contains(x) <==> (acc.0.contains(x)
                    || ids.contains(x)) by {
                assert(spec_dedup_append(acc, rest).0.contains(x) <==> (acc.0.contains(x)
                    || rest.contains(x)));
                if x == first {
                    assert(acc.0.contains(first));
                    assert(ids[0] == first);
                    assert(ids.contains(first));
                }
                if ids.contains(x) && x != first {
                    let k = choose|k: int| 0 <= k < ids.len() && ids[k] == x;
                    assert(rest[k - 1] == x);
                    assert(rest.contains(x));
                }
                if rest.contains(x) {
                    let k = choose|k: int| 0 <= k < rest.len() && rest[k] == x;
                    assert(ids[k + 1] == x);
                    assert(ids.contains(x));
                }
            }
        } else {
            let pushed = acc.0.push(first);
            let seen = acc.1.insert(first);
            assert(spec_dedup_append(acc, ids) == spec_dedup_append((pushed, seen), rest));
            assert forall|x: Seq<char>| seen.contains(x) <==> pushed.contains(x) by {
                if x == first {
                    assert(pushed[pushed.len() - 1] == first);
                    assert(pushed.contains(first));
                } else {
                    if pushed.contains(x) {
                        let k = choose|k: int| 0 <= k < pushed.len() && pushed[k] == x;
                        assert(acc.0[k] == x);
                        assert(acc.0.contains(x));
                    }
                    if acc.0.contains(x) {
                        let k = choose|k: int| 0 <= k < acc.0.len() && acc.0[k] == x;
                        assert(pushed[k] == x);
                    }
                }
            }
            lemma_dedup_append_contains((pushed, seen), rest);
            assert forall|x: Seq<char>|
                #[trigger] spec_dedup_append(acc, ids).0.contains(x) <==> (acc.0.contains(x)
                    || ids.contains(x)) by {
                assert(spec_dedup_append(acc, ids).0 == spec_dedup_append(
                    (pushed, seen),
                    rest,
                ).0);
                assert(spec_dedup_append((pushed, seen), rest).0.contains(x) <==> (
                pushed.contains(x) || rest.contains(x)));
                if x == first {
                    assert(pushed.contains(first)) by {
                        assert(pushed[pushed.len() - 1] == first);
                    }
                    assert(ids.contains(first)) by {
                        assert(ids[0] == first);
                    }
                }
                if pushed.contains(x) && x != first {
                    let k = choose|k: int| 0 <= k < pushed.len() && pushed[k] == x;
                    assert(acc.0[k] == x);
                    assert(acc.0.contains(x));
                }
                if acc.0.contains(x) {
                    let k = choose|k: int| 0 <= k < acc.0.len() && acc.0[k] == x;
                    assert(pushed[k] == x);
                    assert(pushed.contains(x));
                }
                if ids.contains(x) && x != first {
                    let k = choose|k: int| 0 <= k < ids.len() && ids[k] == x;
                    assert(rest[k - 1] == x);
                    assert(rest.contains(x));
                }
                if rest.contains(x) {
                    let k = choose|k: int| 0 <= k < rest.len() && rest[k] == x;
                    assert(ids[k + 1] == x);
                    assert(ids.contains(x));
                }
            }
        }
    }
}

/// What the alias walk collects, from position `k` on: everything already
/// in the accumulator, plus the identifiers of every matched alias at or
/// after `k`.
pub proof fn lemma_collect_contains(
    es: Seq<AliasEntry>,
    sorted: Seq<Seq<char>>,
    text: Seq<char>,
    thr: u32,
    k: int,
    acc: (Seq<Seq<char>>, Set<Seq<char>>),
)
    requires
        0 <= k,
        acc_consistent(acc),
    ensures
        forall|b: Seq<char>|
            #[trigger] spec_collect(es, sorted, text, thr, k, acc).0.contains(b) <==> (
            acc.0.contains(b) || exists|k2: int|
                k <= k2 < sorted.len() && spec_alias_matched(text, #[trigger] sorted[k2], thr)
                    && spec_lookup(es, sorted[k2]).contains(b)),
    decreases sorted.len() - k,
{
    if k >= sorted.len() {
        assert forall|b: Seq<char>|
            #[trigger] spec_collect(es, sorted, text, thr, k, acc).0.contains(b) <==> (
        acc.0.contains(b) || exists|k2: int|
            k <= k2 < sorted.len() && spec_alias_matched(text, #[trigger] sorted[k2], thr)
                && spec_lookup(es, sorted[k2]).contains(b)) by {}
    } else {
        if spec_alias_matched(text, sorted[k], thr) {
            let ids = spec_lookup(es, sorted[k]);
            let next = spec_dedup_append(acc, ids);
            lemma_dedup_append_contains(acc, ids);
            lemma_collect_contains(es, sorted, text, thr, k + 1, next);
            assert(spec_collect(es, sorted, text, thr, k, acc) == spec_collect(
                es,
                sorted,
                text,
                thr,
                k + 1,
                next,
            ));
            assert forall|b: Seq<char>|
                #[trigger] spec_collect(es, sorted, text, thr, k, acc).0.contains(b) <==> (
            acc.0.contains(b) || exists|k2: int|
                k <= k2 < sorted.len() && spec_alias_matched(text, #[trigger] sorted[k2], thr)
                    && spec_lookup(es, sorted[k2]).contains(b)) by {
                assert(spec_collect(es, sorted, text, thr, k + 1, next).0.contains(b) <==> (
                next.0.contains(b) || exists|k2: int|
                    k + 1 <= k2 < sorted.len() && spec_alias_matched(
                        text,
                        #[trigger] sorted[k2],
                        thr,
                    ) && spec_lookup(es, sorted[k2]).contains(b)));
                assert(next.0.contains(b) <==> (acc.0.contains(b) || ids.contains(b)));
                if spec_collect(es, sorted, text, thr, k + 1, next).0.contains(b) {
                    if !acc.0.contains(b) {
                        if next.0.contains(b) {
                            assert(ids.contains(b));
                            assert(spec_alias_matched(text, sorted[k], thr));
                        }
                    }
                }
                if acc.0.contains(b) {
                    assert(next.0.contains(b));
                }
                if exists|k2: int|
                    k <= k2 < sorted.len() && spec_alias_matched(
                        text,
                        #[trigger] sorted[k2],
                        thr,
                    ) && spec_lookup(es, sorted[k2]).contains(b) {
                    let k2 = choose|k2: int|
                        k <= k2 < sorted.len() && spec_alias_matched(
                            text,
                            #[trigger] sorted[k2],
                            thr,
                        ) && spec_lookup(es, sorted[k2]).contains(b);
                    if k2 == k {
                        assert(next.0.contains(b));
                    }
                }
            }
        } else {
            lemma_collect_contains(es, sorted, text, thr, k + 1, acc);
            assert(spec_collect(es, sorted, text, thr, k, acc) == spec_collect(
                es,
                sorted,
                text,
                thr,
                k + 1,
                acc,
            ));
            assert forall|b: Seq<char>|
                #[trigger] spec_collect(es, sorted, text, thr, k, acc).0.contains(b) <==> (
            acc.0.contains(b) || exists|k2: int|
                k <= k2 < sorted.len() && spec_alias_matched(text, #[trigger] sorted[k2], thr)
                    && spec_lookup(es, sorted[k2]).contains(b)) by {
                assert(spec_collect(es, sorted, text, thr, k + 1, acc).0.contains(b) <==> (
                acc.0.contains(b) || exists|k2: int|
                    k + 1 <= k2 < sorted.len() && spec_alias_matched(
                        text,
                        #[trigger] sorted[k2],
                        thr,
                    ) && spec_lookup(es, sorted[k2]).contains(b)));
                if exists|k2: int|
                    k <= k2 < sorted.len() && spec_alias_matched(
                        text,
                        #[trigger] sorted[k2],
                        thr,
                    ) && spec_lookup(es, sorted[k2]).contains(b) {
                    let k2 = choose|k2: int|
                        k <= k2 < sorted.len() && spec_alias_matched(
                            text,
                            #[trigger] sorted[k2],
                            thr,
                        ) && spec_lookup(es, sorted[k2]).contains(b);
                    assert(k2 != k);
                }
            }
        }
    }
}

// ---------------------------------------------------------------------------
// Exact matches always contribute their identifiers
// ---------------------------------------------------------------------------

/// If the normalized text contains a catalog alias as a whole token, every
/// identifier of that alias is in the match result, even with fuzzy
/// matching disabled.
pub proof fn lemma_exact_match_precedence(
    cat: BlockCatalog,
    text: Seq<char>,
    alias: Seq<char>,
    block: Seq<char>,
    thr: u32,
)
    requires
        cat.wf(),
        alias.len() > 0,
        str_views(cat.sorted_aliases@).contains(alias),
        spec_token_present(spec_normalize(text), alias),
        cat.maps(alias, block),
    ensures
        spec_match_blocks(cat, text, thr).contains(block),
{
    let norm = spec_normalize(text);
    let padded = seq![' '] + norm + seq![' '];
    let token = seq![' '] + alias + seq![' '];
    let i = choose|i: int| occurs_at(padded, token, i);
    assert(padded.len() >= token.len());
    assert(norm.len() > 0);
    let sorted = str_views(cat.sorted_aliases@);
    let k = choose|k: int| 0 <= k < sorted.len() && sorted[k] == alias;
    let acc: (Seq<Seq<char>>, Set<Seq<char>>) = (Seq::empty(), Set::empty());
    assert(acc_consistent(acc)) by {
        assert forall|x: Seq<char>| !acc.0.contains(x) by {
            if acc.0.contains(x) {
                let l = choose|l: int| 0 <= l < acc.0.len() && acc.0[l] == x;
            }
        }
    }
    lemma_collect_contains(cat.entries@, sorted, norm, thr, 0, acc);
    assert(spec_alias_matched(norm, sorted[k], thr));
    assert(spec_lookup(cat.entries@, sorted[k]).contains(block));
    assert(spec_collect(cat.entries@, sorted, norm, thr, 0, acc).0.contains(block));
}

// ---------------------------------------------------------------------------
// Matching is a function of the catalog's contents
// ---------------------------------------------------------------------------

/// Two well-formed catalogs that hold the same aliases and the same
/// mappings look every alias up to the same identifier list.
proof fn lemma_lookup_agrees(es1: Seq<AliasEntry>, es2: Seq<AliasEntry>, a: Seq<char>)
    requires
        forall|i: int, j: int|
            0 <= i < j < es1.len() ==> entry_keys(es1)[i] != entry_keys(es1)[j],
        forall|i: int, j: int|
            0 <= i < j < es2.len() ==> entry_keys(es2)[i] != entry_keys(es2)[j],
        forall|i: int| 0 <= i < es1.len() ==> lex_sorted(str_views(#[trigger] es1[i].blocks@)),
        forall|i: int| 0 <= i < es2.len() ==> lex_sorted(str_views(#[trigger] es2[i].blocks@)),
        entry_keys(es1).contains(a) <==> entry_keys(es2).contains(a),
        forall|b: Seq<char>| spec_maps_to(es1, a, b) <==> spec_maps_to(es2, a, b),
    ensures
        spec_lookup(es1, a) == spec_lookup(es2, a),
{
    if entry_keys(es1).contains(a) {
        let i = choose|i: int| 0 <= i < entry_keys(es1).len() && entry_keys(es1)[i] == a;
        let j = choose|j: int| 0 <= j < entry_keys(es2).len() && entry_keys(es2)[j] == a;
        assert(es1[i].alias@ == a);
        assert(es2[j].alias@ == a);
        lemma_lookup_at(es1, i);
        lemma_lookup_at(es2, j);
        assert forall|b: Seq<char>|
            str_views(es1[i].blocks@).contains(b) <==> str_views(es2[j].blocks@).contains(
            b,
        ) by {
            assert(spec_lookup(es1, a) == str_views(es1[i].blocks@));
            assert(spec_lookup(es2, a) == str_views(es2[j].blocks@));
            assert(spec_maps_to(es1, a, b) <==> spec_maps_to(es2, a, b));
        }
        lemma_lex_sorted_unique_equal(str_views(es1[i].blocks@), str_views(es2[j].blocks@));
    } else {
        assert forall|i: int| 0 <= i < es1.len() implies entry_keys(es1)[i] != a by {
            if entry_keys(es1)[i] == a {
                assert(entry_keys(es1).contains(a));
            }
        }
        assert forall|j: int| 0 <= j < es2.len() implies entry_keys(es2)[j] != a by {
            if entry_keys(es2)[j] == a {
                assert(entry_keys(es2).contains(a));
            }
        }
        lemma_lookup_absent(es1, a);
        lemma_lookup_absent(es2, a);
    }
}

proof fn lemma_collect_agrees(
    es1: Seq<AliasEntry>,
    es2: Seq<AliasEntry>,
    sorted: Seq<Seq<char>>,
    text: Seq<char>,
    thr: u32,
    k: int,
    acc: (Seq<Seq<char>>, Set<Seq<char>>),
)
    requires
        forall|a: Seq<char>| spec_lookup(es1, a) == spec_lookup(es2, a),
    ensures
        spec_collect(es1, sorted, text, thr, k, acc) == spec_collect(
            es2,
            sorted,
            text,
            thr,
            k,
            acc,
        ),
    decreases sorted.len() - k,
{
    if k < 0 || k >= sorted.len() {
    } else {
        assert(spec_lookup(es1, sorted[k]) == spec_lookup(es2, sorted[k]));
        if spec_alias_matched(text, sorted[k], thr) {
            let next = spec_dedup_append(acc, spec_lookup(es1, sorted[k]));
            lemma_collect_agrees(es1, es2, sorted, text, thr, k + 1, next);
        } else {
            lemma_collect_agrees(es1, es2, sorted, text, thr, k + 1, acc);
        }
    }
}

/// Catalog matching is deterministic: any two well-formed catalogs that
/// hold the same aliases with the same mappings resolve every text, at
/// every threshold, to the same ordered identifier sequence. In
/// particular, two catalogs built from the same source table and
/// configuration match identically.
pub proof fn lemma_matching_deterministic(
    c1: BlockCatalog,
    c2: BlockCatalog,
    text: Seq<char>,
    thr: u32,
)
    requires
        c1.wf(),
        c2.wf(),
        forall|a: Seq<char>, b: Seq<char>| c1.maps(a, b) <==> c2.maps(a, b),
    ensures
        spec_match_blocks(c1, text, thr) == spec_match_blocks(c2, text, thr),
{
    // the alias key sets agree: a key always carries at least one mapping
    assert forall|a: Seq<char>|
        entry_keys(c1.entries@).contains(a) <==> entry_keys(c2.entries@).contains(a) by {
        lemma_keys_from_maps(c1, c2, a);
        lemma_keys_from_maps(c2, c1, a);
    }
    assert forall|a: Seq<char>|
        spec_lookup(c1.entries@, a) == spec_lookup(c2.entries@, a) by {
        assert forall|b: Seq<char>|
            spec_maps_to(c1.entries@, a, b) <==> spec_maps_to(c2.entries@, a, b) by {
            assert(c1.maps(a, b) <==> c2.maps(a, b));
        }
        lemma_lookup_agrees(c1.entries@, c2.entries@, a);
    }
    assert forall|x: Seq<char>|
        str_views(c1.sorted_aliases@).contains(x) <==> str_views(c2.sorted_aliases@).contains(
            x,
        ) by {
        assert(str_views(c1.sorted_aliases@).contains(x) <==> entry_keys(
            c1.entries@,
        ).contains(x));
        assert(str_views(c2.sorted_aliases@).contains(x) <==> entry_keys(
            c2.entries@,
        ).contains(x));
        assert(entry_keys(c1.entries@).contains(x) <==> entry_keys(c2.entries@).contains(x));
    }
    lemma_sorted_unique_equal(str_views(c1.sorted_aliases@), str_views(c2.sorted_aliases@));
    let norm = spec_normalize(text);
    if norm.len() > 0 {
        lemma_collect_agrees(
            c1.entries@,
            c2.entries@,
            str_views(c1.sorted_aliases@),
            norm,
            thr,
            0,
            (Seq::empty(), Set::empty()),
        );
        assert(str_views(c1.sorted_aliases@) == str_views(c2.sorted_aliases@));
    }
}

/// A key held by one catalog is mapped, so the other catalog maps it too
/// and, being well-formed, holds the key.
proof fn lemma_keys_from_maps(c1: BlockCatalog, c2: BlockCatalog, a: Seq<char>)
    requires
        c1.wf(),
        c2.wf(),
        forall|b: Seq<char>| c1.maps(a, b) ==> c2.maps(a, b),
    ensures
        entry_keys(c1.entries@).contains(a) ==> entry_keys(c2.entries@).contains(a),
{
    if entry_keys(c1.entries@).contains(a) {
        let i = choose|i: int|
            0 <= i < entry_keys(c1.entries@).len() && entry_keys(c1.entries@)[i] == a;
        assert(c1.entries@[i].alias@ == a);
        lemma_lookup_at(c1.entries@, i);
        let blocks = str_views(c1.entries@[i].blocks@);
        assert(blocks.len() > 0);
        let b = blocks[0];
        assert(blocks.contains(b));
        assert(c1.maps(a, b));
        assert(c2.maps(a, b));
        assert(spec_lookup(c2.entries@, a).contains(b));
        if !entry_keys(c2.entries@).contains(a) {
            assert forall|j: int| 0 <= j < c2.entries@.len() implies entry_keys(
                c2.entries@,
            )[j] != a by {
                if entry_keys(c2.entries@)[j] == a {
                    assert(entry_keys(c2.entries@).contains(a));
                }
            }
            lemma_lookup_absent(c2.entries@, a);
            assert(false);
        }
    }
}

// ---------------------------------------------------------------------------
// The fuzzy gate
// ---------------------------------------------------------------------------

/// An alias shorter than five characters is never fuzzy-matched, whatever
/// the words, the threshold, or how similar a candidate is.
pub proof fn lemma_short_alias_never_fuzzy(words: Seq<Seq<char>>, alias: Seq<char>, thr: u32)
    requires
        alias.len() < 5,
    ensures
        !spec_fuzzy_hit_words(words, alias, thr),
{
}

/// The similarity gate is inclusive at the threshold: a candidate whose
/// similarity equals the threshold exactly passes, and one strictly below
/// it does not. With `m` the longer length and `d` the edit distance, the
/// similarity is `(m - d) / m` against a threshold of `thr / 1000`.
pub proof fn lemma_similarity_gate_boundary(a: Seq<char>, b: Seq<char>, thr: u32)
    ensures
        ({
            let m: nat = if a.len() >= b.len() {
                a.len()
            } else {
                b.len()
            };
            let d = spec_lev(a, b);
            &&& (1000 * (m - d) == (thr as nat) * m ==> spec_similar_enough(a, b, thr))
            &&& (1000 * (m - d) < (thr as nat) * m ==> !spec_similar_enough(a, b, thr))
        }),
{
}

} // verus!
