use vstd::prelude::*;

verus! {

/// Edit distance between two character sequences: the least number of
/// single-character insertions, deletions and substitutions turning one
/// into the other.
pub open spec fn spec_lev(a: Seq<char>, b: Seq<char>) -> nat
    decreases a.len(), b.len(),
{
    if a.len() == 0 {
        b.len()
    } else if b.len() == 0 {
        a.len()
    } else {
        let cost: nat = if a.last() == b.last() {
            0
        } else {
            1
        };
        let del = spec_lev(a.drop_last(), b) + 1;
        let ins = spec_lev(a, b.drop_last()) + 1;
        let sub = spec_lev(a.drop_last(), b.drop_last()) + cost;
        min3(del, ins, sub)
    }
}

pub open spec fn min3(x: nat, y: nat, z: nat) -> nat {
    if x <= y && x <= z {
        x
    } else if y <= z {
        y
    } else {
        z
    }
}

pub proof fn lemma_lev_le_max(a: Seq<char>, b: Seq<char>)
    ensures
        spec_lev(a, b) <= if a.len() >= b.len() {
            a.len()
        } else {
            b.len()
        },
    decreases a.len(), b.len(),
{
    if a.len() == 0 || b.len() == 0 {
    } else {
        lemma_lev_le_max(a.drop_last(), b.drop_last());
    }
}

pub fn levenshtein(a: &Vec<char>, b: &Vec<char>) -> (d: usize)
    ensures
        d == spec_lev(a@, b@),
{
    let n = a.len();
    let m = b.len();
    let mut prev: Vec<u128> = Vec::new();
    let mut j0: usize = 0;
    proof {
        assert(b@.subrange(0, 0) =~= Seq::<char>::empty());
    }
    prev.push(0);
    while j0 < m
        invariant
            j0 <= m,
            m == b.len(),
            prev@.len() == j0 + 1,
            forall|j: int|
                0 <= j <= j0 ==> prev@[j] == spec_lev(
                    Seq::<char>::empty(),
                    b@.subrange(0, j),
                ),
        decreases m - j0,
    {
        proof {
            assert(b@.subrange(0, j0 + 1).len() == j0 + 1);
        }
        prev.push((j0 as u128) + 1);
        j0 = j0 + 1;
    }
    let mut i: usize = 0;
    while i < n
        invariant
            i <= n,
            n == a.len(),
            m == b.len(),
            prev@.len() == m + 1,
            forall|j: int|
                0 <= j <= m ==> prev@[j] == spec_lev(
                    a@.subrange(0, i as int),
                    b@.subrange(0, j),
                ),
        decreases n - i,
    {
        let mut cur: Vec<u128> = Vec::new();
        proof {
            assert(a@.subrange(0, i + 1).drop_last() =~= a@.subrange(0, i as int));
            assert(b@.subrange(0, 0) =~= Seq::<char>::empty());
            assert(a@.subrange(0, i + 1).len() == i + 1);
        }
        cur.push((i as u128) + 1);
        let mut j: usize = 0;
        while j < m
            invariant
                j <= m,
                i < n,
                n == a.len(),
                m == b.len(),
                prev@.len() == m + 1,
                forall|k: int|
                    0 <= k <= m ==> prev@[k] == spec_lev(
                        a@.subrange(0, i as int),
                        b@.subrange(0, k),
                    ),
                cur@.len() == j + 1,
                forall|k: int|
                    0 <= k <= j ==> cur@[k] == spec_lev(
                        a@.subrange(0, i + 1),
                        b@.subrange(0, k),
                    ),
            decreases m - j,
        {
            let ghost ap = a@.subrange(0, i + 1);
            let ghost bp = b@.subrange(0, j + 1);
            proof {
                assert(ap.last() == a@[i as int]);
                assert(bp.last() == b@[j as int]);
                assert(ap.drop_last() =~= a@.subrange(0, i as int));
                assert(bp.drop_last() =~= b@.subrange(0, j as int));
                assert(ap.len() > 0 && bp.len() > 0);
                lemma_lev_le_max(ap.drop_last(), bp);
                lemma_lev_le_max(ap, bp.drop_last());
                lemma_lev_le_max(ap.drop_last(), bp.drop_last());
            }
            let cost: u128 = if a[i] == b[j] {
                0
            } else {
                1
            };
            let del = prev[j + 1] + 1;
            let ins = cur[j] + 1;
            let sub = prev[j] + cost;
            let mut v = del;
            if ins < v {
                v = ins;
            }
            if sub < v {
                v = sub;
            }
            proof {
                assert(v == spec_lev(ap, bp));
            }
            cur.push(v);
            j = j + 1;
        }
        prev = cur;
        i = i + 1;
    }
    proof {
        assert(a@.subrange(0, n as int) =~= a@);
        assert(b@.subrange(0, m as int) =~= b@);
        lemma_lev_le_max(a@, b@);
    }
    let out = prev[m];
    out as usize
}

/// The normalized-similarity gate: similarity is `1 - d / max_len`, and the
/// candidate passes when similarity is at least `threshold_permille / 1000`,
/// with the comparison done exactly (no rounding).
pub open spec fn spec_similar_enough(a: Seq<char>, b: Seq<char>, threshold_permille: u32) -> bool {
    let m: nat = if a.len() >= b.len() {
        a.len()
    } else {
        b.len()
    };
    1000 * (m - spec_lev(a, b)) >= (threshold_permille as nat) * m
}

pub fn similar_enough(a: &Vec<char>, b: &Vec<char>, threshold_permille: u32) -> (r: bool)
    ensures
        r == spec_similar_enough(a@, b@, threshold_permille),
{
    let d = levenshtein(a, b);
    let m = if a.len() >= b.len() {
        a.len()
    } else {
        b.len()
    };
    proof {
        lemma_lev_le_max(a@, b@);
    }
    let lhs: u128 = 1000 * ((m - d) as u128);
    proof {
        assert((threshold_permille as int) * (m as int) < 0x1_0000_0000_0000_0000_0000_0000int)
            by (nonlinear_arith)
            requires
                (threshold_permille as int) < 0x1_0000_0000int,
                (m as int) < 0x1_0000_0000_0000_0000int,
        ;
    }
    let rhs: u128 = (threshold_permille as u128) * (m as u128);
    lhs >= rhs
}

} // verus!
