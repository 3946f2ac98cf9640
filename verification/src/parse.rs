use vstd::prelude::*;
use crate::text::{is_space_char, is_space, str_chars, chars_to_string};
use crate::catalog::mc_prefix;

verus! {

// ---------------------------------------------------------------------------
// Character classes and runs
// ---------------------------------------------------------------------------

pub open spec fn is_digit(c: char) -> bool {
    0x30 <= (c as u32) && (c as u32) <= 0x39
}

/// Characters allowed in a dimension identifier's path.
pub open spec fn is_dim_char(c: char) -> bool {
    let u = c as u32;
    (0x61 <= u && u <= 0x7a) || (0x30 <= u && u <= 0x39) || u == 0x5f || u == 0x2e || u == 0x2f
        || u == 0x2d
}

pub fn is_digit_exec(c: char) -> (r: bool)
    ensures
        r == is_digit(c),
{
    let u = c as u32;
    0x30 <= u && u <= 0x39
}

pub fn is_dim_char_exec(c: char) -> (r: bool)
    ensures
        r == is_dim_char(c),
{
    let u = c as u32;
    (0x61 <= u && u <= 0x7a) || (0x30 <= u && u <= 0x39) || u == 0x5f || u == 0x2e || u == 0x2f
        || u == 0x2d
}

/// The end of the maximal digit run starting at `i`.
pub open spec fn digit_run_end(s: Seq<char>, i: int) -> int
    decreases s.len() - i,
{
    if i < 0 || i >= s.len() || !is_digit(s[i]) {
        i
    } else {
        digit_run_end(s, i + 1)
    }
}

pub open spec fn dim_run_end(s: Seq<char>, i: int) -> int
    decreases s.len() - i,
{
    if i < 0 || i >= s.len() || !is_dim_char(s[i]) {
        i
    } else {
        dim_run_end(s, i + 1)
    }
}

pub open spec fn space_run_end(s: Seq<char>, i: int) -> int
    decreases s.len() - i,
{
    if i < 0 || i >= s.len() || !is_space_char(s[i]) {
        i
    } else {
        space_run_end(s, i + 1)
    }
}

/// The position of the first `]` at or after `i`, or the length if none.
pub open spec fn close_bracket_from(s: Seq<char>, i: int) -> int
    decreases s.len() - i,
{
    if i < 0 {
        close_bracket_from(s, 0)
    } else if i >= s.len() {
        s.len() as int
    } else if s[i] == ']' {
        i
    } else {
        close_bracket_from(s, i + 1)
    }
}

fn digit_run_end_exec(s: &Vec<char>, i: usize) -> (r: usize)
    requires
        i <= s@.len(),
    ensures
        r == digit_run_end(s@, i as int),
        i <= r <= s@.len(),
{
    let n = s.len();
    let mut j: usize = i;
    while j < n && is_digit_exec(s[j])
        invariant
            i <= j <= n,
            n == s@.len(),
            digit_run_end(s@, i as int) == digit_run_end(s@, j as int),
        decreases n - j,
    {
        j = j + 1;
    }
    j
}

fn dim_run_end_exec(s: &Vec<char>, i: usize) -> (r: usize)
    requires
        i <= s@.len(),
    ensures
        r == dim_run_end(s@, i as int),
        i <= r <= s@.len(),
{
    let n = s.len();
    let mut j: usize = i;
    while j < n && is_dim_char_exec(s[j])
        invariant
            i <= j <= n,
            n == s@.len(),
            dim_run_end(s@, i as int) == dim_run_end(s@, j as int),
        decreases n - j,
    {
        j = j + 1;
    }
    j
}

fn space_run_end_exec(s: &Vec<char>, i: usize) -> (r: usize)
    requires
        i <= s@.len(),
    ensures
        r == space_run_end(s@, i as int),
        i <= r <= s@.len(),
{
    let n = s.len();
    let mut j: usize = i;
    while j < n && is_space(s[j])
        invariant
            i <= j <= n,
            n == s@.len(),
            space_run_end(s@, i as int) == space_run_end(s@, j as int),
        decreases n - j,
    {
        j = j + 1;
    }
    j
}

fn close_bracket_from_exec(s: &Vec<char>, i: usize) -> (r: usize)
    requires
        i <= s@.len(),
    ensures
        r == close_bracket_from(s@, i as int),
        i <= r <= s@.len(),
{
    let n = s.len();
    let mut j: usize = i;
    while j < n && s[j] != ']'
        invariant
            i <= j <= n,
            n == s@.len(),
            close_bracket_from(s@, i as int) == close_bracket_from(s@, j as int),
        decreases n - j,
    {
        j = j + 1;
    }
    j
}

// ---------------------------------------------------------------------------
// Number tokens and their floors
// ---------------------------------------------------------------------------

/// A decimal number token inside a text: an optional minus sign, an integer
/// digit run, and an optional fractional digit run.
pub ghost struct NumberToken {
    pub neg: bool,
    pub int_start: int,
    pub int_end: int,
    pub frac_start: int,
    pub frac_end: int,
}

pub open spec fn token_end(t: NumberToken) -> int {
    if t.frac_end > t.int_end {
        t.frac_end
    } else {
        t.int_end
    }
}

/// The number token starting exactly at `i`, if the text has one there.
pub open spec fn spec_number_at(s: Seq<char>, i: int) -> Option<NumberToken> {
    if 0 <= i < s.len() && is_digit(s[i]) {
        Some(spec_token_body(s, false, i))
    } else if 0 <= i && i + 1 < s.len() && s[i] == '-' && is_digit(s[i + 1]) {
        Some(spec_token_body(s, true, i + 1))
    } else {
        None
    }
}

pub open spec fn spec_token_body(s: Seq<char>, neg: bool, int_start: int) -> NumberToken {
    let ie = digit_run_end(s, int_start);
    if ie < s.len() && s[ie] == '.' && ie + 1 < s.len() && is_digit(s[ie + 1]) {
        NumberToken {
            neg,
            int_start,
            int_end: ie,
            frac_start: ie + 1,
            frac_end: digit_run_end(s, ie + 1),
        }
    } else {
        NumberToken { neg, int_start, int_end: ie, frac_start: ie, frac_end: ie }
    }
}

/// The first number token at or after position `i`.
pub open spec fn spec_first_number_from(s: Seq<char>, i: int) -> Option<NumberToken>
    decreases s.len() - i,
{
    if i < 0 {
        spec_first_number_from(s, 0)
    } else if i >= s.len() {
        None
    } else if spec_number_at(s, i) is Some {
        spec_number_at(s, i)
    } else {
        spec_first_number_from(s, i + 1)
    }
}

/// The numeric value of a digit run.
pub open spec fn digits_val(s: Seq<char>, from: int, to: int) -> nat
    decreases to - from,
{
    if from >= to {
        0
    } else {
        (digits_val(s, from, to - 1) * 10 + ((s[to - 1] as u32) - 0x30)) as nat
    }
}

proof fn lemma_digits_val_step(s: Seq<char>, from: int, to: int)
    requires
        from < to,
    ensures
        digits_val(s, from, to) == (digits_val(s, from, to - 1) * 10 + ((s[to - 1] as u32)
            - 0x30)) as nat,
{
}

pub open spec fn frac_nonzero(s: Seq<char>, t: NumberToken) -> bool {
    exists|k: int| t.frac_start <= k < t.frac_end && #[trigger] s[k] != '0'
}

/// The floor of the decimal number a token denotes, as an unbounded
/// integer.
pub open spec fn spec_token_floor(s: Seq<char>, t: NumberToken) -> int {
    let v = digits_val(s, t.int_start, t.int_end) as int;
    if !t.neg {
        v
    } else if frac_nonzero(s, t) {
        -v - 1
    } else {
        -v
    }
}

pub open spec fn clamp_i64(x: int) -> i64 {
    if x < i64::MIN {
        i64::MIN
    } else if x > i64::MAX {
        i64::MAX
    } else {
        x as i64
    }
}

/// The floor of the first number at or after `i`, clamped to `i64`, with
/// the position just past the token.
pub open spec fn spec_scan_result(s: Seq<char>, i: int) -> Option<(i64, int)> {
    match spec_first_number_from(s, i) {
        Some(t) => Some((clamp_i64(spec_token_floor(s, t)), token_end(t))),
        None => None,
    }
}

/// Accumulate the digits `s[from..to]` into a value capped at `2^63`.
fn digits_val_capped(s: &Vec<char>, from: usize, to: usize) -> (r: u128)
    requires
        from <= to <= s@.len(),
        forall|k: int| from <= k < to ==> is_digit(#[trigger] s@[k]),
    ensures
        digits_val(s@, from as int, to as int) < 0x8000_0000_0000_0000 ==> r == digits_val(
            s@,
            from as int,
            to as int,
        ),
        digits_val(s@, from as int, to as int) >= 0x8000_0000_0000_0000 ==> r
            == 0x8000_0000_0000_0000,
{
    let cap: u128 = 0x8000_0000_0000_0000;
    let mut acc: u128 = 0;
    let mut k: usize = from;
    while k < to
        invariant
            from <= k <= to,
            to <= s@.len(),
            forall|l: int| from <= l < to ==> is_digit(#[trigger] s@[l]),
            digits_val(s@, from as int, k as int) < 0x8000_0000_0000_0000 ==> acc == digits_val(
                s@,
                from as int,
                k as int,
            ),
            digits_val(s@, from as int, k as int) >= 0x8000_0000_0000_0000 ==> acc
                == 0x8000_0000_0000_0000,
            acc <= 0x8000_0000_0000_0000,
        decreases to - k,
    {
        let d = (s[k] as u32) - 0x30;
        let next = acc * 10 + (d as u128);
        proof {
            let dv = digits_val(s@, from as int, k as int);
            let dv2 = digits_val(s@, from as int, k + 1);
            lemma_digits_val_step(s@, from as int, k + 1);
            assert(is_digit(s@[k as int]));
            assert((s@[k as int] as u32) >= 0x30);
            assert(dv2 == (dv * 10 + ((s@[k as int] as u32) - 0x30)) as nat);
            assert(dv <= dv * 10) by (nonlinear_arith);
            if dv >= 0x8000_0000_0000_0000 {
                assert(dv2 >= dv);
            }
        }
        if next >= cap {
            acc = cap;
        } else {
            acc = next;
        }
        k = k + 1;
    }
    acc
}

/// Find the first number token at or after `start` and return its floor,
/// clamped to `i64`, with the index just past the token; see
/// `spec_scan_result`.
pub fn scan_number(s: &Vec<char>, start: usize) -> (r: Option<(i64, usize)>)
    requires
        start <= s@.len(),
    ensures
        match r {
            Some((v, end)) => spec_scan_result(s@, start as int) == Some((v, end as int)),
            None => spec_scan_result(s@, start as int) is None,
        },
{
    let n = s.len();
    let mut i: usize = start;
    while i < n
        invariant
            start <= i <= n,
            n == s@.len(),
            spec_first_number_from(s@, start as int) == spec_first_number_from(s@, i as int),
        decreases n - i,
    {
        let neg = if is_digit_exec(s[i]) {
            Some(false)
        } else if s[i] == '-' && i + 1 < n && is_digit_exec(s[i + 1]) {
            Some(true)
        } else {
            None
        };
        match neg {
            Some(is_neg) => {
                let int_start = if is_neg {
                    i + 1
                } else {
                    i
                };
                let ie = digit_run_end_exec(s, int_start);
                let has_frac = ie < n && s[ie] == '.' && ie + 1 < n && is_digit_exec(
                    s[ie + 1],
                );
                let (fs, fe) = if has_frac {
                    let fe = digit_run_end_exec(s, ie + 1);
                    (ie + 1, fe)
                } else {
                    (ie, ie)
                };
                let ghost tok = spec_number_at(s@, i as int)->0;
                proof {
                    assert(tok == spec_token_body(
                        s@,
                        is_neg,
                        int_start as int,
                    ));
                    assert forall|k: int|
                        int_start <= k < ie implies is_digit(#[trigger] s@[k]) by {
                        lemma_digit_run(s@, int_start as int, k);
                    }
                    assert forall|k: int| fs <= k < fe implies is_digit(#[trigger] s@[k]) by {
                        if has_frac {
                            lemma_digit_run(s@, ie + 1, k);
                        }
                    }
                }
                let v = digits_val_capped(s, int_start, ie);
                let floored: i64 = if !is_neg {
                    if v >= 0x8000_0000_0000_0000 {
                        i64::MAX
                    } else {
                        v as i64
                    }
                } else {
                    let mut any_nonzero = false;
                    let mut k: usize = fs;
                    while k < fe
                        invariant
                            fs <= k <= fe,
                            fe <= n,
                            n == s@.len(),
                            any_nonzero == (exists|l: int|
                                fs <= l < k && #[trigger] s@[l] != '0'),
                        decreases fe - k,
                    {
                        if s[k] != '0' {
                            any_nonzero = true;
                        }
                        k = k + 1;
                    }
                    if v >= 0x8000_0000_0000_0000 {
                        i64::MIN
                    } else if any_nonzero {
                        (-(v as i64)) - 1
                    } else {
                        -(v as i64)
                    }
                };
                let end = if has_frac {
                    fe
                } else {
                    ie
                };
                proof {
                    assert(floored == clamp_i64(spec_token_floor(s@, tok)));
                    assert(end == token_end(tok));
                }
                return Some((floored, end));
            },
            None => {
                i = i + 1;
            },
        }
    }
    None
}

proof fn lemma_digit_run(s: Seq<char>, i: int, k: int)
    requires
        0 <= i,
        i <= k < digit_run_end(s, i),
    ensures
        is_digit(s[k]),
    decreases k - i,
{
    if k > i {
        lemma_digit_run(s, i + 1, k);
    }
}

// ---------------------------------------------------------------------------
// Bracketed coordinate groups
// ---------------------------------------------------------------------------

/// The first bracketed group `[...]` with non-empty content at or after
/// `i`: the content's bounds, excluding the brackets.
pub open spec fn spec_first_bracket(s: Seq<char>, i: int) -> Option<(int, int)>
    decreases s.len() - i,
{
    if i < 0 {
        spec_first_bracket(s, 0)
    } else if i >= s.len() {
        None
    } else if s[i] == '[' && {
        let j = close_bracket_from(s, i + 1);
        j < s.len() && j > i + 1
    } {
        Some((i + 1, close_bracket_from(s, i + 1)))
    } else {
        spec_first_bracket(s, i + 1)
    }
}

/// Find the first non-empty bracketed group; see `spec_first_bracket`.
pub fn find_bracket(s: &Vec<char>, start: usize) -> (r: Option<(usize, usize)>)
    requires
        start <= s@.len(),
    ensures
        match r {
            Some((lo, hi)) => spec_first_bracket(s@, start as int) == Some((
                lo as int,
                hi as int,
            )) && start < lo <= hi <= s@.len(),
            None => spec_first_bracket(s@, start as int) is None,
        },
{
    let n = s.len();
    let mut i: usize = start;
    while i < n
        invariant
            start <= i <= n,
            n == s@.len(),
            spec_first_bracket(s@, start as int) == spec_first_bracket(s@, i as int),
        decreases n - i,
    {
        if s[i] == '[' {
            let j = close_bracket_from_exec(s, i + 1);
            if j < n && j > i + 1 {
                return Some((i + 1, j));
            }
        }
        i = i + 1;
    }
    None
}

// ---------------------------------------------------------------------------
// Position triplets
// ---------------------------------------------------------------------------

/// The floors of the first three numbers of a text, if it has three.
pub open spec fn spec_triplet(s: Seq<char>) -> Option<(i64, i64, i64)> {
    match spec_scan_result(s, 0) {
        None => None,
        Some((x, e1)) => match spec_scan_result(s, e1) {
            None => None,
            Some((y, e2)) => match spec_scan_result(s, e2) {
                None => None,
                Some((z, _e3)) => Some((x, y, z)),
            },
        },
    }
}

/// Parse the floors of the first three numbers; see `spec_triplet`.
pub fn parse_triplet(s: &Vec<char>) -> (r: Option<(i64, i64, i64)>)
    ensures
        r == spec_triplet(s@),
{
    match scan_number(s, 0) {
        None => None,
        Some((x, e1)) => {
            proof {
                lemma_scan_end_bound(s@, 0);
            }
            match scan_number(s, e1) {
                None => None,
                Some((y, e2)) => {
                    proof {
                        lemma_scan_end_bound(s@, e1 as int);
                    }
                    match scan_number(s, e2) {
                        None => None,
                        Some((z, _e3)) => Some((x, y, z)),
                    }
                },
            }
        },
    }
}

proof fn lemma_digit_run_bound(s: Seq<char>, i: int)
    requires
        0 <= i <= s.len(),
    ensures
        i <= digit_run_end(s, i) <= s.len(),
    decreases s.len() - i,
{
    if i < s.len() && is_digit(s[i]) {
        lemma_digit_run_bound(s, i + 1);
    }
}

/// A found token ends within the text.
proof fn lemma_scan_end_bound(s: Seq<char>, i: int)
    requires
        0 <= i <= s.len(),
        spec_first_number_from(s, i) is Some,
    ensures
        ({
            let t = spec_first_number_from(s, i)->0;
            0 <= token_end(t) <= s.len()
        }),
    decreases s.len() - i,
{
    if spec_number_at(s, i) is Some {
        let int_start: int = if 0 <= i < s.len() && is_digit(s[i]) {
            i
        } else {
            i + 1
        };
        lemma_digit_run_bound(s, int_start);
        let ie = digit_run_end(s, int_start);
        if ie < s.len() && s[ie] == '.' && ie + 1 < s.len() && is_digit(s[ie + 1]) {
            lemma_digit_run_bound(s, ie + 1);
        }
    } else {
        lemma_scan_end_bound(s, i + 1);
    }
}

/// The coordinate triplet in the first bracketed group of a query
/// response.
pub open spec fn spec_pos_from_response(s: Seq<char>) -> Option<(i64, i64, i64)> {
    match spec_first_bracket(s, 0) {
        None => None,
        Some((lo, hi)) => spec_triplet(s.subrange(lo, hi)),
    }
}

/// Extract the position triplet from a position query response; see
/// `spec_pos_from_response`.
pub fn parse_pos_from_response(response: &str) -> (r: Option<(i64, i64, i64)>)
    ensures
        r == spec_pos_from_response(response@),
{
    let sc = str_chars(response);
    match find_bracket(&sc, 0) {
        None => None,
        Some((lo, hi)) => {
            let mut inner: Vec<char> = Vec::new();
            let mut k: usize = lo;
            while k < hi
                invariant
                    lo <= k <= hi,
                    hi <= sc@.len(),
                    sc@ == response@,
                    inner@ =~= sc@.subrange(lo as int, k as int),
                decreases hi - k,
            {
                proof {
                    assert(sc@.subrange(lo as int, k + 1) =~= sc@.subrange(
                        lo as int,
                        k as int,
                    ).push(sc@[k as int]));
                }
                inner.push(sc[k]);
                k = k + 1;
            }
            parse_triplet(&inner)
        },
    }
}

/// The floor of the first number anywhere in the response, for the
/// single-coordinate fallback queries.
pub fn parse_first_floor(response: &str) -> (r: Option<i64>)
    ensures
        match r {
            Some(v) => spec_scan_result(response@, 0) matches Some((w, _)) && v == w,
            None => spec_scan_result(response@, 0) is None,
        },
{
    let sc = str_chars(response);
    match scan_number(&sc, 0) {
        None => None,
        Some((v, _end)) => Some(v),
    }
}

// ---------------------------------------------------------------------------
// Dimension identifiers
// ---------------------------------------------------------------------------

/// The first dimension identifier `minecraft:<path>` at or after `i`: its
/// bounds, with the path run maximal.
pub open spec fn spec_first_dim(s: Seq<char>, i: int) -> Option<(int, int)>
    decreases s.len() - i,
{
    if i < 0 {
        spec_first_dim(s, 0)
    } else if i >= s.len() {
        None
    } else if i + 10 < s.len() && s.subrange(i, i + 10) == mc_prefix() && is_dim_char(
        s[i + 10],
    ) {
        Some((i, dim_run_end(s, i + 10)))
    } else {
        spec_first_dim(s, i + 1)
    }
}

/// The first dimension identifier in a query response.
pub open spec fn spec_dimension_from_response(s: Seq<char>) -> Option<Seq<char>> {
    match spec_first_dim(s, 0) {
        None => None,
        Some((lo, hi)) => Some(s.subrange(lo, hi)),
    }
}

/// Extract the first dimension identifier; see
/// `spec_dimension_from_response`.
pub fn parse_dimension_from_response(response: &str) -> (r: Option<String>)
    ensures
        match r {
            Some(d) => spec_dimension_from_response(response@) == Some(d@),
            None => spec_dimension_from_response(response@) is None,
        },
{
    let sc = str_chars(response);
    let pfx = mc_prefix_exec();
    let n = sc.len();
    let mut i: usize = 0;
    while i < n
        invariant
            i <= n,
            n == sc@.len(),
            sc@ == response@,
            pfx@ == mc_prefix(),
            spec_first_dim(sc@, 0) == spec_first_dim(sc@, i as int),
        decreases n - i,
    {
        if n - i > 10 && matches_at(&sc, &pfx, i) && is_dim_char_exec(sc[i + 10]) {
            let hi = dim_run_end_exec(&sc, i + 10);
            let mut out: Vec<char> = Vec::new();
            let mut k: usize = i;
            while k < hi
                invariant
                    i <= k <= hi,
                    hi <= sc@.len(),
                    out@ =~= sc@.subrange(i as int, k as int),
                decreases hi - k,
            {
                proof {
                    assert(sc@.subrange(i as int, k + 1) =~= sc@.subrange(
                        i as int,
                        k as int,
                    ).push(sc@[k as int]));
                }
                out.push(sc[k]);
                k = k + 1;
            }
            return Some(chars_to_string(&out));
        }
        i = i + 1;
    }
    None
}

fn mc_prefix_exec() -> (r: Vec<char>)
    ensures
        r@ == mc_prefix(),
{
    let r = vec!['m', 'i', 'n', 'e', 'c', 'r', 'a', 'f', 't', ':'];
    proof {
        assert(r@ =~= mc_prefix());
    }
    r
}

/// Whether `t` occurs in `s` at exactly position `i`.
fn matches_at(s: &Vec<char>, t: &Vec<char>, i: usize) -> (r: bool)
    requires
        i + t@.len() <= s@.len(),
    ensures
        r == (s@.subrange(i as int, i + t@.len()) == t@),
{
    let n = s.len();
    let m = t.len();
    let mut j: usize = 0;
    while j < m
        invariant
            j <= m,
            m == t@.len(),
            n == s@.len(),
            i + m <= n,
            forall|k: int| 0 <= k < j ==> s@[i + k] == t@[k],
        decreases m - j,
    {
        if s[i + j] != t[j] {
            proof {
                assert(s@.subrange(i as int, i + m)[j as int] == s@[i + j]);
            }
            return false;
        }
        j = j + 1;
    }
    proof {
        assert(s@.subrange(i as int, i + m) =~= t@);
    }
    true
}


// ---------------------------------------------------------------------------
// Patterns inside full entity data blobs
// ---------------------------------------------------------------------------

/// The literal `Pos:`.
pub open spec fn pos_label() -> Seq<char> {
    seq!['P', 'o', 's', ':']
}

/// The literal `Dimension:`.
pub open spec fn dimension_label() -> Seq<char> {
    seq!['D', 'i', 'm', 'e', 'n', 's', 'i', 'o', 'n', ':']
}

/// The first `Pos:` label followed by optional whitespace and a non-empty
/// bracketed group, at or after `i`: the group content's bounds.
pub open spec fn spec_first_pos_group(s: Seq<char>, i: int) -> Option<(int, int)>
    decreases s.len() - i,
{
    if i < 0 {
        spec_first_pos_group(s, 0)
    } else if i >= s.len() {
        None
    } else if i + 4 <= s.len() && s.subrange(i, i + 4) == pos_label() && {
        let k = space_run_end(s, i + 4);
        k < s.len() && s[k] == '[' && {
            let j = close_bracket_from(s, k + 1);
            j < s.len() && j > k + 1
        }
    } {
        let k = space_run_end(s, i + 4);
        Some((k + 1, close_bracket_from(s, k + 1)))
    } else {
        spec_first_pos_group(s, i + 1)
    }
}

/// The coordinate triplet after the first well-formed `Pos:` label of an
/// entity data blob.
pub open spec fn spec_pos_from_nbt(s: Seq<char>) -> Option<(i64, i64, i64)> {
    match spec_first_pos_group(s, 0) {
        None => None,
        Some((lo, hi)) => spec_triplet(s.subrange(lo, hi)),
    }
}

/// Extract the position triplet from a full entity data blob; see
/// `spec_pos_from_nbt`.
pub fn parse_pos_from_nbt_response(response: &str) -> (r: Option<(i64, i64, i64)>)
    ensures
        r == spec_pos_from_nbt(response@),
{
    let sc = str_chars(response);
    let lbl = vec!['P', 'o', 's', ':'];
    proof {
        assert(lbl@ =~= pos_label());
    }
    let n = sc.len();
    let mut i: usize = 0;
    while i < n
        invariant
            i <= n,
            n == sc@.len(),
            sc@ == response@,
            lbl@ == pos_label(),
            spec_first_pos_group(sc@, 0) == spec_first_pos_group(sc@, i as int),
        decreases n - i,
    {
        if n - i >= 4 && matches_at(&sc, &lbl, i) {
            let k = space_run_end_exec(&sc, i + 4);
            if k < n && sc[k] == '[' {
                let j = close_bracket_from_exec(&sc, k + 1);
                if j < n && j > k + 1 {
                    let mut inner: Vec<char> = Vec::new();
                    let mut c: usize = k + 1;
                    while c < j
                        invariant
                            k + 1 <= c <= j,
                            j <= sc@.len(),
                            inner@ =~= sc@.subrange(k + 1, c as int),
                        decreases j - c,
                    {
                        proof {
                            assert(sc@.subrange(k + 1, c + 1) =~= sc@.subrange(
                                k + 1,
                                c as int,
                            ).push(sc@[c as int]));
                        }
                        inner.push(sc[c]);
                        c = c + 1;
                    }
                    return parse_triplet(&inner);
                }
            }
        }
        i = i + 1;
    }
    None
}

/// The first `Dimension:` label followed by optional whitespace and a
/// quoted dimension identifier, at or after `i`: the identifier's bounds.
pub open spec fn spec_first_dim_nbt(s: Seq<char>, i: int) -> Option<(int, int)>
    decreases s.len() - i,
{
    if i < 0 {
        spec_first_dim_nbt(s, 0)
    } else if i >= s.len() {
        None
    } else if i + 10 <= s.len() && s.subrange(i, i + 10) == dimension_label() && {
        let k = space_run_end(s, i + 10);
        k < s.len() && s[k] == '"' && k + 11 < s.len() && s.subrange(k + 1, k + 11)
            == mc_prefix() && is_dim_char(s[k + 11]) && {
            let e = dim_run_end(s, k + 11);
            e < s.len() && s[e] == '"'
        }
    } {
        let k = space_run_end(s, i + 10);
        Some((k + 1, dim_run_end(s, k + 11)))
    } else {
        spec_first_dim_nbt(s, i + 1)
    }
}

/// The quoted dimension identifier after the first well-formed
/// `Dimension:` label of an entity data blob.
pub open spec fn spec_dimension_from_nbt(s: Seq<char>) -> Option<Seq<char>> {
    match spec_first_dim_nbt(s, 0) {
        None => None,
        Some((lo, hi)) => Some(s.subrange(lo, hi)),
    }
}

/// Extract the dimension identifier from a full entity data blob; see
/// `spec_dimension_from_nbt`.
pub fn parse_dimension_from_nbt(response: &str) -> (r: Option<String>)
    ensures
        match r {
            Some(d) => spec_dimension_from_nbt(response@) == Some(d@),
            None => spec_dimension_from_nbt(response@) is None,
        },
{
    let sc = str_chars(response);
    let lbl = vec!['D', 'i', 'm', 'e', 'n', 's', 'i', 'o', 'n', ':'];
    proof {
        assert(lbl@ =~= dimension_label());
    }
    let pfx = mc_prefix_exec();
    let n = sc.len();
    let mut i: usize = 0;
    while i < n
        invariant
            i <= n,
            n == sc@.len(),
            sc@ == response@,
            lbl@ == dimension_label(),
            pfx@ == mc_prefix(),
            spec_first_dim_nbt(sc@, 0) == spec_first_dim_nbt(sc@, i as int),
        decreases n - i,
    {
        if n - i >= 10 && matches_at(&sc, &lbl, i) {
            let k = space_run_end_exec(&sc, i + 10);
            if k < n && sc[k] == '"' && n - k > 11 && matches_at(&sc, &pfx, k + 1)
                && is_dim_char_exec(sc[k + 11]) {
                let e = dim_run_end_exec(&sc, k + 11);
                if e < n && sc[e] == '"' {
                    let mut out: Vec<char> = Vec::new();
                    let mut c: usize = k + 1;
                    while c < e
                        invariant
                            k + 1 <= c <= e,
                            e <= sc@.len(),
                            out@ =~= sc@.subrange(k + 1, c as int),
                        decreases e - c,
                    {
                        proof {
                            assert(sc@.subrange(k + 1, c + 1) =~= sc@.subrange(
                                k + 1,
                                c as int,
                            ).push(sc@[c as int]));
                        }
                        out.push(sc[c]);
                        c = c + 1;
                    }
                    return Some(chars_to_string(&out));
                }
            }
        }
        i = i + 1;
    }
    None
}

} // verus!
