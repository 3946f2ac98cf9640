use vstd::prelude::*;

verus! {

// ---------------------------------------------------------------------------
// Character classes and single-character maps
// ---------------------------------------------------------------------------

/// Lowercase mapping for the letters this tool meets: ASCII `A`-`Z` and the
/// Cyrillic capitals; everything else is left alone.
pub open spec fn spec_lower(c: char) -> char {
    let u = c as u32;
    if 0x41 <= u && u <= 0x5a {
        (u + 32) as char
    } else if 0x410 <= u && u <= 0x42f {
        (u + 32) as char
    } else if u == 0x401 {
        '\u{0451}'
    } else {
        c
    }
}

/// The look-alike substitutions applied after lowercasing: `ё` and `э`
/// both fold to `е`.
pub open spec fn spec_subst(c: char) -> char {
    if c == '\u{0451}' || c == '\u{044d}' {
        '\u{0435}'
    } else {
        c
    }
}

/// Characters that survive normalization: ASCII lowercase letters, digits,
/// underscore, and lowercase Cyrillic letters.
pub open spec fn is_word_char(c: char) -> bool {
    let u = c as u32;
    (0x61 <= u && u <= 0x7a)  // a-z
    || (0x30 <= u && u <= 0x39)  // 0-9
    || u == 0x5f  // _
    || (0x430 <= u && u <= 0x44f)  // Cyrillic lowercase
    || u == 0x451  // ё
}

/// Whitespace as the normalizer sees it.
pub open spec fn is_space_char(c: char) -> bool {
    c == ' ' || c == '\t' || c == '\n' || c == '\r'
}

/// One normalization step for a single character: lowercase, fold
/// look-alikes, and blank out anything that is not a word character.
pub open spec fn spec_clean_char(c: char) -> char {
    let l = spec_subst(spec_lower(c));
    if is_word_char(l) {
        l
    } else {
        ' '
    }
}

pub fn lower_char(c: char) -> (r: char)
    ensures
        r == spec_lower(c),
{
    let u = c as u32;
    if (0x41 <= u && u <= 0x5a) || (0x410 <= u && u <= 0x42f) {
        char_from_codepoint(u + 32)
    } else if u == 0x401 {
        '\u{0451}'
    } else {
        c
    }
}

pub fn clean_char(c: char) -> (r: char)
    ensures
        r == spec_clean_char(c),
{
    let l0 = lower_char(c);
    let l = if l0 == '\u{0451}' || l0 == '\u{044d}' {
        '\u{0435}'
    } else {
        l0
    };
    let u = l as u32;
    if (0x61 <= u && u <= 0x7a) || (0x30 <= u && u <= 0x39) || u == 0x5f || (0x430 <= u && u
        <= 0x44f) || u == 0x451 {
        l
    } else {
        ' '
    }
}

/// Relies on char::from_u32: for a valid scalar value it returns the
/// character with exactly that code point.
#[verifier::external_body]
fn char_from_codepoint(u: u32) -> (r: char)
    requires
        u < 0xd800 || (0xe000 <= u && u <= 0x10ffff),
    ensures
        r as u32 == u,
{
    char::from_u32(u).unwrap_or(' ')
}

// ---------------------------------------------------------------------------
// Conversions between strings and character vectors
// ---------------------------------------------------------------------------

pub fn str_chars(s: &str) -> (r: Vec<char>)
    ensures
        r@ == s@,
{
    let mut r: Vec<char> = Vec::new();
    for c in it: s.chars()
        invariant
            r@ =~= it.seq().subrange(0, it.index() as int),
    {
        r.push(c);
    }
    proof {
        assert(r@ =~= s@);
    }
    r
}

/// Relies on String::from_iter (through Iterator::collect): collecting
/// characters yields the string with exactly those characters in order.
#[verifier::external_body]
pub(crate) fn chars_to_string(v: &Vec<char>) -> (r: String)
    ensures
        r@ == v@,
{
    v.iter().collect()
}

// ---------------------------------------------------------------------------
// Word splitting and joining
// ---------------------------------------------------------------------------

/// Split into maximal runs of non-space characters, left to right; `cur` is
/// the word accumulated so far.
pub open spec fn spec_words_acc(s: Seq<char>, cur: Seq<char>) -> Seq<Seq<char>>
    decreases s.len(),
{
    if s.len() == 0 {
        if cur.len() == 0 {
            Seq::empty()
        } else {
            seq![cur]
        }
    } else if s[0] == ' ' {
        if cur.len() == 0 {
            spec_words_acc(s.drop_first(), Seq::empty())
        } else {
            seq![cur] + spec_words_acc(s.drop_first(), Seq::empty())
        }
    } else {
        spec_words_acc(s.drop_first(), cur.push(s[0]))
    }
}

/// The space-separated words of `s`.
pub open spec fn spec_words(s: Seq<char>) -> Seq<Seq<char>> {
    spec_words_acc(s, Seq::empty())
}

/// Join words with single spaces.
pub open spec fn spec_join(ws: Seq<Seq<char>>) -> Seq<char>
    decreases ws.len(),
{
    if ws.len() == 0 {
        Seq::empty()
    } else if ws.len() == 1 {
        ws[0]
    } else {
        ws[0] + seq![' '] + spec_join(ws.drop_first())
    }
}

pub proof fn lemma_join_push(ws: Seq<Seq<char>>, w: Seq<char>)
    ensures
        ws.len() == 0 ==> spec_join(ws.push(w)) == w,
        ws.len() > 0 ==> spec_join(ws.push(w)) == spec_join(ws) + seq![' '] + w,
    decreases ws.len(),
{
    if ws.len() == 0 {
        assert(ws.push(w)[0] == w);
        assert(spec_join(ws.push(w)) == w);
    } else if ws.len() == 1 {
        assert(ws.push(w).drop_first() =~= seq![w]);
        assert(spec_join(ws.push(w)) == ws.push(w)[0] + seq![' '] + spec_join(seq![w]));
        assert(ws.push(w)[0] == ws[0]);
        assert(spec_join(seq![w]) == w);
    } else {
        lemma_join_push(ws.drop_first(), w);
        assert(ws.push(w).drop_first() =~= ws.drop_first().push(w));
        assert(spec_join(ws.push(w)) == ws[0] + seq![' '] + spec_join(ws.drop_first().push(w)));
    }
}

/// The views of a sequence of character vectors.
pub open spec fn seq_views(ws: Seq<Vec<char>>) -> Seq<Seq<char>> {
    ws.map_values(|w: Vec<char>| w@)
}

pub fn split_words(s: &Vec<char>) -> (r: Vec<Vec<char>>)
    ensures
        seq_views(r@) == spec_words(s@),
{
    let mut out: Vec<Vec<char>> = Vec::new();
    let mut cur: Vec<char> = Vec::new();
    let n = s.len();
    let mut i: usize = 0;
    proof {
        assert(s@.skip(0) =~= s@);
        assert(seq_views(out@) + spec_words_acc(s@, cur@) =~= spec_words_acc(s@, cur@));
    }
    while i < n
        invariant
            i <= n,
            n == s.len(),
            spec_words(s@) == seq_views(out@) + spec_words_acc(s@.skip(i as int), cur@),
        decreases n - i,
    {
        proof {
            assert(s@.skip(i as int).drop_first() =~= s@.skip(i + 1));
            assert(s@.skip(i as int)[0] == s@[i as int]);
        }
        let c = s[i];
        if c == ' ' {
            proof {
                if cur@.len() == 0 {
                    assert(cur@ =~= Seq::<char>::empty());
                }
            }
            if cur.len() > 0 {
                let ghost old_out = seq_views(out@);
                let ghost w = cur@;
                let ghost rest = spec_words_acc(s@.skip(i + 1), Seq::<char>::empty());
                out.push(cur);
                cur = Vec::new();
                proof {
                    assert(seq_views(out@) =~= old_out.push(w));
                    assert(old_out + (seq![w] + rest) =~= old_out.push(w) + rest);
                }
            }
        } else {
            cur.push(c);
        }
        i = i + 1;
    }
    if cur.len() > 0 {
        let ghost old_out = seq_views(out@);
        let ghost w = cur@;
        out.push(cur);
        proof {
            assert(seq_views(out@) =~= old_out.push(w));
        }
    }
    proof {
        assert(s@.skip(n as int) =~= Seq::<char>::empty());
    }
    out
}

pub fn join_words(ws: &Vec<Vec<char>>) -> (r: Vec<char>)
    ensures
        r@ == spec_join(seq_views(ws@)),
{
    let mut out: Vec<char> = Vec::new();
    let n = ws.len();
    let mut i: usize = 0;
    while i < n
        invariant
            i <= n,
            n == ws.len(),
            out@ == spec_join(seq_views(ws@).subrange(0, i as int)),
        decreases n - i,
    {
        proof {
            assert(seq_views(ws@).subrange(0, i + 1) =~= seq_views(ws@).subrange(
                0,
                i as int,
            ).push(ws@[i as int]@));
            lemma_join_push(seq_views(ws@).subrange(0, i as int), ws@[i as int]@);
        }
        if i > 0 {
            out.push(' ');
        }
        let w = &ws[i];
        let m = w.len();
        let mut j: usize = 0;
        while j < m
            invariant
                j <= m,
                m == w.len(),
                i < n,
                n == ws.len(),
                w == ws@[i as int],
                i > 0 ==> out@ == spec_join(seq_views(ws@).subrange(0, i as int)) + seq![' ']
                    + w@.subrange(0, j as int),
                i == 0 ==> out@ == w@.subrange(0, j as int),
            decreases m - j,
        {
            proof {
                assert(w@.subrange(0, j + 1) =~= w@.subrange(0, j as int).push(w@[j as int]));
            }
            out.push(w[j]);
            j = j + 1;
        }
        proof {
            assert(w@.subrange(0, m as int) =~= w@);
            if i == 0 {
                assert(seq_views(ws@).subrange(0, 1) =~= Seq::<Seq<char>>::empty().push(
                    ws@[0int]@,
                ));
                lemma_join_push(Seq::<Seq<char>>::empty(), ws@[0int]@);
                assert(seq_views(ws@).subrange(0, 0) =~= Seq::<Seq<char>>::empty());
            }
        }
        i = i + 1;
    }
    proof {
        assert(seq_views(ws@).subrange(0, n as int) =~= seq_views(ws@));
    }
    out
}

// ---------------------------------------------------------------------------
// Normalization
// ---------------------------------------------------------------------------

/// The character-wise part of normalization.
pub open spec fn spec_clean(s: Seq<char>) -> Seq<char> {
    s.map_values(|c: char| spec_clean_char(c))
}

/// Canonical form of free text: lowercase, look-alikes folded, punctuation
/// blanked, whitespace collapsed to single spaces with no leading or
/// trailing space.
pub open spec fn spec_normalize(s: Seq<char>) -> Seq<char> {
    spec_join(spec_words(spec_clean(s)))
}

pub fn clean_chars(s: &Vec<char>) -> (r: Vec<char>)
    ensures
        r@ == spec_clean(s@),
{
    let mut out: Vec<char> = Vec::new();
    let n = s.len();
    let mut i: usize = 0;
    while i < n
        invariant
            i <= n,
            n == s.len(),
            out@ =~= spec_clean(s@.subrange(0, i as int)),
        decreases n - i,
    {
        out.push(clean_char(s[i]));
        proof {
            assert(spec_clean(s@.subrange(0, i + 1)) =~= spec_clean(
                s@.subrange(0, i as int),
            ).push(spec_clean_char(s@[i as int])));
        }
        i = i + 1;
    }
    proof {
        assert(s@.subrange(0, n as int) =~= s@);
    }
    out
}

pub fn normalize_chars(s: &Vec<char>) -> (r: Vec<char>)
    ensures
        r@ == spec_normalize(s@),
{
    let cleaned = clean_chars(s);
    let words = split_words(&cleaned);
    join_words(&words)
}

/// Canonicalize raw text for matching; see `spec_normalize`.
pub fn normalize_text(text: &str) -> (r: String)
    ensures
        r@ == spec_normalize(text@),
{
    let cs = str_chars(text);
    let normalized = normalize_chars(&cs);
    chars_to_string(&normalized)
}

// ---------------------------------------------------------------------------
// Substring and prefix searching
// ---------------------------------------------------------------------------

/// `t` occurs in `s` at position `i`.
pub open spec fn occurs_at(s: Seq<char>, t: Seq<char>, i: int) -> bool {
    0 <= i && i + t.len() <= s.len() && s.subrange(i, i + t.len()) == t
}

/// `t` occurs somewhere in `s`.
pub open spec fn spec_contains_seq(s: Seq<char>, t: Seq<char>) -> bool {
    exists|i: int| occurs_at(s, t, i)
}

/// `p` is a prefix of `s`.
pub open spec fn is_prefix_of(s: Seq<char>, p: Seq<char>) -> bool {
    p.len() <= s.len() && s.subrange(0, p.len() as int) == p
}

fn match_at(s: &Vec<char>, t: &Vec<char>, i: usize) -> (r: bool)
    requires
        i + t@.len() <= s@.len(),
    ensures
        r == occurs_at(s@, t@, i as int),
{
    let m = t.len();
    let mut j: usize = 0;
    while j < m
        invariant
            j <= m,
            m == t.len(),
            i + m <= s.len(),
            s@.subrange(i as int, i + j) =~= t@.subrange(0, j as int),
        decreases m - j,
    {
        if s[i + j] != t[j] {
            proof {
                assert(s@.subrange(i as int, i + m)[j as int] == s@[i + j]);
                assert(t@.subrange(i as int - i, i + m - i) == t@) by {
                    assert(t@.subrange(0, m as int) =~= t@);
                }
            }
            return false;
        }
        proof {
            assert(s@.subrange(i as int, i + j + 1) =~= s@.subrange(i as int, i + j).push(
                s@[i + j],
            ));
            assert(t@.subrange(0, j + 1) =~= t@.subrange(0, j as int).push(t@[j as int]));
        }
        j = j + 1;
    }
    proof {
        assert(s@.subrange(i as int, i + m) =~= t@.subrange(0, m as int));
        assert(t@.subrange(0, m as int) =~= t@);
    }
    true
}

pub fn contains_seq(s: &Vec<char>, t: &Vec<char>) -> (r: bool)
    ensures
        r == spec_contains_seq(s@, t@),
{
    let n = s.len();
    let m = t.len();
    if m > n {
        proof {
            assert(forall|i: int| !occurs_at(s@, t@, i));
        }
        return false;
    }
    if m == 0 {
        proof {
            assert(s@.subrange(0, 0) =~= t@);
            assert(occurs_at(s@, t@, 0));
        }
        return true;
    }
    let last = n - m;
    let mut i: usize = 0;
    while i <= last
        invariant
            i <= last + 1,
            last == n - m,
            n == s.len(),
            m == t.len(),
            m <= n,
            forall|k: int| 0 <= k < i ==> !occurs_at(s@, t@, k),
        decreases last + 1 - i,
    {
        if match_at(s, t, i) {
            return true;
        }
        i = i + 1;
    }
    proof {
        assert(forall|k: int| occurs_at(s@, t@, k) ==> 0 <= k && k + m <= n);
    }
    false
}

pub fn starts_with_seq(s: &Vec<char>, p: &Vec<char>) -> (r: bool)
    ensures
        r == is_prefix_of(s@, p@),
{
    if p.len() > s.len() {
        return false;
    }
    match_at(s, p, 0)
}

// ---------------------------------------------------------------------------
// String equality and copying
// ---------------------------------------------------------------------------

pub fn chars_eq(a: &Vec<char>, b: &Vec<char>) -> (r: bool)
    ensures
        r == (a@ == b@),
{
    let n = a.len();
    if n != b.len() {
        return false;
    }
    let mut i: usize = 0;
    while i < n
        invariant
            i <= n,
            n == a.len(),
            n == b.len(),
            forall|k: int| 0 <= k < i ==> a@[k] == b@[k],
        decreases n - i,
    {
        if a[i] != b[i] {
            return false;
        }
        i = i + 1;
    }
    proof {
        assert(a@ =~= b@);
    }
    true
}

pub fn string_eq(a: &String, b: &String) -> (r: bool)
    ensures
        r == (a@ == b@),
{
    let ac = str_chars(a.as_str());
    let bc = str_chars(b.as_str());
    chars_eq(&ac, &bc)
}

pub fn clone_string(s: &String) -> (r: String)
    ensures
        r@ == s@,
{
    let c = str_chars(s.as_str());
    chars_to_string(&c)
}

// ---------------------------------------------------------------------------
// Trimming
// ---------------------------------------------------------------------------

/// Drop leading and trailing whitespace.
pub open spec fn spec_trim(s: Seq<char>) -> Seq<char>
    decreases s.len(),
{
    if s.len() == 0 {
        s
    } else if is_space_char(s[0]) {
        spec_trim(s.drop_first())
    } else if is_space_char(s.last()) {
        spec_trim(s.drop_last())
    } else {
        s
    }
}

pub fn trim_chars(s: &Vec<char>) -> (r: Vec<char>)
    ensures
        r@ == spec_trim(s@),
{
    let mut lo: usize = 0;
    let mut hi: usize = s.len();
    proof {
        assert(s@.subrange(0, s@.len() as int) =~= s@);
    }
    while lo < hi && is_space(s[lo])
        invariant
            lo <= hi,
            hi <= s.len(),
            hi == s.len(),
            spec_trim(s@) == spec_trim(s@.subrange(lo as int, hi as int)),
        decreases hi - lo,
    {
        proof {
            assert(s@.subrange(lo as int, hi as int).drop_first() =~= s@.subrange(
                lo + 1,
                hi as int,
            ));
        }
        lo = lo + 1;
    }
    while lo < hi && is_space(s[hi - 1])
        invariant
            lo <= hi,
            hi <= s.len(),
            spec_trim(s@) == spec_trim(s@.subrange(lo as int, hi as int)),
            lo < hi ==> !is_space_char(s@[lo as int]),
        decreases hi - lo,
    {
        proof {
            assert(s@.subrange(lo as int, hi as int).drop_last() =~= s@.subrange(
                lo as int,
                hi - 1,
            ));
        }
        hi = hi - 1;
    }
    let mut out: Vec<char> = Vec::new();
    let mut i: usize = lo;
    while i < hi
        invariant
            lo <= i <= hi,
            hi <= s.len(),
            out@ =~= s@.subrange(lo as int, i as int),
        decreases hi - i,
    {
        proof {
            assert(s@.subrange(lo as int, i + 1) =~= s@.subrange(lo as int, i as int).push(
                s@[i as int],
            ));
        }
        out.push(s[i]);
        i = i + 1;
    }
    proof {
        let t = s@.subrange(lo as int, hi as int);
        if lo < hi {
            assert(!is_space_char(t[0]));
            assert(!is_space_char(t.last()));
            assert(spec_trim(t) == t);
        } else {
            assert(t =~= Seq::<char>::empty());
        }
    }
    out
}

pub fn is_space(c: char) -> (r: bool)
    ensures
        r == is_space_char(c),
{
    c == ' ' || c == '\t' || c == '\n' || c == '\r'
}

} // verus!
