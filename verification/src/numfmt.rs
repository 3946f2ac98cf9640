use vstd::prelude::*;

verus! {

/// The decimal digit character for `d`.
pub open spec fn digit_char(d: nat) -> char {
    ((0x30 + d % 10) as u32) as char
}

/// Decimal rendering of a nonnegative integer, most significant digit first.
pub open spec fn spec_udec(n: nat) -> Seq<char>
    decreases n,
{
    if n < 10 {
        seq![digit_char(n)]
    } else {
        spec_udec(n / 10).push(digit_char(n % 10))
    }
}

/// Decimal rendering of an integer, with a leading minus sign if negative.
pub open spec fn spec_dec(n: int) -> Seq<char> {
    if n >= 0 {
        spec_udec(n as nat)
    } else {
        seq!['-'] + spec_udec((-n) as nat)
    }
}

fn digit_to_char(d: u64) -> (r: char)
    requires
        d < 10,
    ensures
        r == digit_char(d as nat),
{
    match d {
        0 => '0',
        1 => '1',
        2 => '2',
        3 => '3',
        4 => '4',
        5 => '5',
        6 => '6',
        7 => '7',
        8 => '8',
        _ => '9',
    }
}

proof fn lemma_reverse_push(t: Seq<char>, d: char)
    ensures
        t.push(d).reverse() =~= seq![d] + t.reverse(),
{
}

pub fn u64_to_chars(x: u64) -> (r: Vec<char>)
    ensures
        r@ == spec_udec(x as nat),
{
    let mut tmp: Vec<char> = Vec::new();
    let mut v: u64 = x;
    proof {
        assert(tmp@.reverse() =~= Seq::<char>::empty());
        assert(spec_udec(v as nat) + tmp@.reverse() =~= spec_udec(v as nat));
    }
    while v >= 10
        invariant
            spec_udec(x as nat) == spec_udec(v as nat) + tmp@.reverse(),
        decreases v,
    {
        let d = v % 10;
        let ghost old_tmp = tmp@;
        tmp.push(digit_to_char(d));
        proof {
            lemma_reverse_push(old_tmp, digit_char(d as nat));
            assert(spec_udec(v as nat) =~= spec_udec((v / 10) as nat).push(
                digit_char((v % 10) as nat),
            ));
            assert(spec_udec((v / 10) as nat).push(digit_char(d as nat)) + old_tmp.reverse()
                =~= spec_udec((v / 10) as nat) + (seq![digit_char(d as nat)]
                + old_tmp.reverse()));
        }
        v = v / 10;
    }
    let ghost old_tmp = tmp@;
    tmp.push(digit_to_char(v));
    proof {
        lemma_reverse_push(old_tmp, digit_char(v as nat));
        assert(spec_udec(v as nat) + old_tmp.reverse() =~= seq![digit_char(v as nat)]
            + old_tmp.reverse());
    }
    let n = tmp.len();
    let mut out: Vec<char> = Vec::new();
    let mut i: usize = 0;
    while i < n
        invariant
            i <= n,
            n == tmp.len(),
            out@ =~= tmp@.reverse().subrange(0, i as int),
        decreases n - i,
    {
        proof {
            assert(tmp@.reverse()[i as int] == tmp@[n - 1 - i]);
            assert(tmp@.reverse().subrange(0, i + 1) =~= tmp@.reverse().subrange(
                0,
                i as int,
            ).push(tmp@.reverse()[i as int]));
        }
        out.push(tmp[n - 1 - i]);
        i = i + 1;
    }
    proof {
        assert(tmp@.reverse().subrange(0, n as int) =~= tmp@.reverse());
    }
    out
}

pub fn i64_to_chars(x: i64) -> (r: Vec<char>)
    ensures
        r@ == spec_dec(x as int),
{
    if x >= 0 {
        u64_to_chars(x as u64)
    } else {
        let mag: u64 = ((-(x as i128)) as u64);
        let digits = u64_to_chars(mag);
        let mut out: Vec<char> = Vec::new();
        out.push('-');
        let n = digits.len();
        let mut i: usize = 0;
        while i < n
            invariant
                i <= n,
                n == digits.len(),
                out@ =~= seq!['-'] + digits@.subrange(0, i as int),
            decreases n - i,
        {
            proof {
                assert(digits@.subrange(0, i + 1) =~= digits@.subrange(0, i as int).push(
                    digits@[i as int],
                ));
            }
            out.push(digits[i]);
            i = i + 1;
        }
        proof {
            assert(digits@.subrange(0, n as int) =~= digits@);
        }
        out
    }
}

pub fn i32_to_chars(x: i32) -> (r: Vec<char>)
    ensures
        r@ == spec_dec(x as int),
{
    i64_to_chars(x as i64)
}

} // verus!
