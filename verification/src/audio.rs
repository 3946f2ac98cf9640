use vstd::prelude::*;

verus! {

/// Sum of a window of samples.
pub open spec fn spec_sum(s: Seq<i64>, from: int, to: int) -> int
    decreases to - from,
{
    if from >= to {
        0
    } else {
        spec_sum(s, from, to - 1) + s[to - 1]
    }
}

/// Division truncating toward zero, as integer division of samples does.
pub open spec fn spec_tdiv(a: int, b: int) -> int {
    if a >= 0 {
        a / b
    } else {
        -((-a) / b)
    }
}

/// The number of chunks a frame of `n` interleaved samples yields.
pub open spec fn spec_chunk_count(n: int, ch: int) -> int {
    (n + ch - 1) / ch
}

/// The average of chunk `i`: its samples summed and divided, truncating
/// toward zero; the last chunk may be short.
pub open spec fn spec_chunk_avg(s: Seq<i64>, ch: int, i: int) -> int {
    let from = i * ch;
    let to = if from + ch <= s.len() {
        from + ch
    } else {
        s.len() as int
    };
    spec_tdiv(spec_sum(s, from, to), to - from)
}

proof fn lemma_tdiv_bound(a: int, b: int, bound: int)
    requires
        b >= 1,
        bound >= 0,
        -(b * bound) <= a <= b * bound,
    ensures
        -bound <= spec_tdiv(a, b) <= bound,
{
    if a >= 0 {
        assert(a / b <= bound) by (nonlinear_arith)
            requires
                b >= 1,
                bound >= 0,
                a >= 0,
                a <= b * bound,
        ;
        assert(a / b >= 0) by (nonlinear_arith)
            requires
                b >= 1,
                a >= 0,
        ;
    } else {
        assert((-a) / b <= bound) by (nonlinear_arith)
            requires
                b >= 1,
                bound >= 0,
                -a >= 0,
                -a <= b * bound,
        ;
        assert((-a) / b >= 0) by (nonlinear_arith)
            requires
                b >= 1,
                -a >= 0,
        ;
    }
}

fn tdiv_exec(a: i128, b: i128) -> (r: i128)
    requires
        b >= 1,
        a > i128::MIN,
    ensures
        r == spec_tdiv(a as int, b as int),
{
    match a.checked_div(b) {
        Some(q) => q,
        None => {
            proof {
                assert(false);
            }
            0
        },
    }
}

/// Average the interleaved frame into one value per chunk of `channels`
/// samples; see `spec_chunk_avg`.
fn chunk_avgs(ints: &Vec<i64>, channels: usize, bound: i64) -> (r: Vec<i64>)
    requires
        channels >= 2,
        1 <= bound <= 0x1_0000_0000,
        forall|k: int| 0 <= k < ints@.len() ==> -bound <= #[trigger] ints@[k] <= bound,
    ensures
        r@.len() == spec_chunk_count(ints@.len() as int, channels as int),
        forall|i: int|
            0 <= i < r@.len() ==> #[trigger] r@[i] == spec_chunk_avg(
                ints@,
                channels as int,
                i,
            ) && -bound <= r@[i] <= bound,
{
    let n = ints.len();
    let mut out: Vec<i64> = Vec::new();
    let mut pos: usize = 0;
    proof {
        let ni = n as int;
        let ci = channels as int;
        if ni > 0 {
            assert((ni + ci - 1) / ci > 0) by (nonlinear_arith)
                requires
                    ni >= 1,
                    ci >= 2,
            ;
        }
        if ni == 0 {
            assert((ni + ci - 1) / ci == 0) by (nonlinear_arith)
                requires
                    ni == 0,
                    ci >= 2,
            ;
        }
        assert(0int % ci == 0) by (nonlinear_arith)
            requires
                ci >= 2,
        ;
        assert(out@.len() == 0);
        assert(out@.len() * channels == 0) by (nonlinear_arith)
            requires
                out@.len() == 0,
        ;
    }
    while pos < n
        invariant
            channels >= 2,
            1 <= bound <= 0x1_0000_0000,
            n == ints@.len(),
            forall|k: int| 0 <= k < ints@.len() ==> -bound <= #[trigger] ints@[k] <= bound,
            pos == out@.len() * channels,
            pos <= n || out@.len() == spec_chunk_count(n as int, channels as int),
            pos < n ==> out@.len() < spec_chunk_count(n as int, channels as int),
            forall|i: int|
                0 <= i < out@.len() ==> #[trigger] out@[i] == spec_chunk_avg(
                    ints@,
                    channels as int,
                    i,
                ) && -bound <= out@[i] <= bound,
            pos % channels == 0,
            pos >= n ==> out@.len() == spec_chunk_count(n as int, channels as int),
        decreases n - pos,
    {
        let remaining = n - pos;
        let to = if remaining > channels {
            pos + channels
        } else {
            n
        };
        let mut acc: i128 = 0;
        let mut j: usize = pos;
        while j < to
            invariant
                pos <= j <= to,
                to <= n,
                n == ints@.len(),
                1 <= bound <= 0x1_0000_0000,
                forall|k: int| 0 <= k < ints@.len() ==> -bound <= #[trigger] ints@[k] <= bound,
                acc == spec_sum(ints@, pos as int, j as int),
                -(((j - pos) as int) * bound) <= acc <= ((j - pos) as int) * bound,
            decreases to - j,
        {
            proof {
                assert(-bound <= ints@[j as int] <= bound);
                assert(((j + 1 - pos) as int) * bound == ((j - pos) as int) * bound + bound)
                    by (nonlinear_arith);
                assert(((j - pos) as int) * bound <= 0x1_0000_0000_0000_0000_0000_0000int)
                    by (nonlinear_arith)
                    requires
                        0 < bound <= 0x1_0000_0000,
                        0 <= ((j - pos) as int) <= 0x1_0000_0000_0000_0000int,
                ;
            }
            acc = acc + (ints[j] as i128);
            j = j + 1;
        }
        let cnt = to - pos;
        proof {
            assert(((to - pos) as int) * bound <= 0x1_0000_0000_0000_0000_0000_0000int)
                by (nonlinear_arith)
                requires
                    0 < bound <= 0x1_0000_0000,
                    0 <= ((to - pos) as int) <= 0x1_0000_0000_0000_0000int,
            ;
        }
        let avg128 = tdiv_exec(acc, cnt as i128);
        proof {
            lemma_tdiv_bound(acc as int, cnt as int, bound as int);
        }
        let avg: i64 = avg128 as i64;
        let ghost k = out@.len() as int;
        proof {
            assert(k * channels == pos);
            assert((k + 1) * channels == k * channels + channels) by (nonlinear_arith);
            assert(spec_chunk_avg(ints@, channels as int, k) == spec_tdiv(
                spec_sum(ints@, pos as int, to as int),
                (to - pos) as int,
            ));
            let ni = n as int;
            let ci = channels as int;
            let pi = pos as int;
            if to == n {
                // last (possibly short) chunk: the count is exactly k + 1
                assert((ni + ci - 1) / ci == k + 1) by (nonlinear_arith)
                    requires
                        ci >= 2,
                        k * ci == pi,
                        pi < ni,
                        ni <= pi + ci,
                ;
            } else {
                assert((ni + ci - 1) / ci > k + 1) by (nonlinear_arith)
                    requires
                        ci >= 2,
                        k * ci == pi,
                        pi + ci < ni,
                ;
            }
        }
        out.push(avg);
        pos = to;
        proof {
            if to < n {
                assert(pos == out@.len() * channels);
                assert(pos % channels == 0) by (nonlinear_arith)
                    requires
                        pos == out@.len() * channels,
                        channels >= 2,
                ;
            }
        }
        if to == n {
            break ;
        }
    }
    proof {
        if n == 0 {
            assert(spec_chunk_count(0, channels as int) == 0) by (nonlinear_arith)
                requires
                    channels >= 2,
            ;
        }
    }
    out
}

/// Interleaved signed 8-bit samples to mono 16-bit: channels averaged
/// (truncating), then scaled into the 16-bit range.
pub fn to_mono_i8(data: &[i8], channels: usize) -> (r: Vec<i16>)
    ensures
        channels <= 1 ==> r@.len() == data@.len() && forall|i: int|
            0 <= i < r@.len() ==> #[trigger] r@[i] as int == data@[i] as int * 256,
        channels > 1 ==> r@.len() == spec_chunk_count(data@.len() as int, channels as int)
            && forall|i: int|
            0 <= i < r@.len() ==> #[trigger] r@[i] as int == spec_chunk_avg(
                data@.map_values(|v: i8| v as i64),
                channels as int,
                i,
            ) * 256,
{
    let n = data.len();
    if channels <= 1 {
        let mut out: Vec<i16> = Vec::new();
        let mut i: usize = 0;
        while i < n
            invariant
                i <= n,
                n == data@.len(),
                out@.len() == i,
                forall|k: int|
                    0 <= k < i ==> #[trigger] out@[k] as int == data@[k] as int * 256,
            decreases n - i,
        {
            out.push((data[i] as i16) * 256);
            i = i + 1;
        }
        return out;
    }
    let mut ints: Vec<i64> = Vec::new();
    let mut i: usize = 0;
    while i < n
        invariant
            i <= n,
            n == data@.len(),
            ints@ =~= data@.map_values(|v: i8| v as i64).subrange(0, i as int),
        decreases n - i,
    {
        proof {
            let m = data@.map_values(|v: i8| v as i64);
            assert(m.subrange(0, i + 1) =~= m.subrange(0, i as int).push(m[i as int]));
        }
        ints.push(data[i] as i64);
        i = i + 1;
    }
    proof {
        let m = data@.map_values(|v: i8| v as i64);
        assert(m.subrange(0, n as int) =~= m);
    }
    proof {
        assert forall|k: int|
            0 <= k < ints@.len() implies -(128 as i64) <= #[trigger] ints@[k] <= (
        128 as i64) by {
            assert(ints@[k] == data@.map_values(|v: i8| v as i64)[k]);
        }
    }
    let avgs = chunk_avgs(&ints, channels, 128);
    let mut out: Vec<i16> = Vec::new();
    let m = avgs.len();
    let mut k: usize = 0;
    while k < m
        invariant
            k <= m,
            m == avgs@.len(),
            out@.len() == k,
            forall|j: int| 0 <= j < m ==> -128 <= #[trigger] avgs@[j] <= 128,
            forall|j: int|
                0 <= j < m ==> #[trigger] avgs@[j] == spec_chunk_avg(
                    data@.map_values(|v: i8| v as i64),
                    channels as int,
                    j,
                ),
            forall|j: int|
                0 <= j < k ==> #[trigger] out@[j] as int == avgs@[j] as int * 256,
        decreases m - k,
    {
        proof {
            let d = data@.map_values(|v: i8| v as i64);
            lemma_avg_range(d, channels as int, k as int, i8::MIN as int, i8::MAX as int);
        }
        out.push((avgs[k] as i16) * 256);
        k = k + 1;
    }
    out
}

/// Interleaved unsigned 8-bit samples to mono 16-bit: averaged, re-centred
/// around zero, and scaled.
pub fn to_mono_u8(data: &[u8], channels: usize) -> (r: Vec<i16>)
    ensures
        channels <= 1 ==> r@.len() == data@.len() && forall|i: int|
            0 <= i < r@.len() ==> #[trigger] r@[i] as int == (data@[i] as int - 128) * 256,
        channels > 1 ==> r@.len() == spec_chunk_count(data@.len() as int, channels as int)
            && forall|i: int|
            0 <= i < r@.len() ==> #[trigger] r@[i] as int == (spec_chunk_avg(
                data@.map_values(|v: u8| v as i64),
                channels as int,
                i,
            ) - 128) * 256,
{
    let n = data.len();
    if channels <= 1 {
        let mut out: Vec<i16> = Vec::new();
        let mut i: usize = 0;
        while i < n
            invariant
                i <= n,
                n == data@.len(),
                out@.len() == i,
                forall|k: int|
                    0 <= k < i ==> #[trigger] out@[k] as int == (data@[k] as int - 128) * 256,
            decreases n - i,
        {
            out.push(((data[i] as i32 - 128) * 256) as i16);
            i = i + 1;
        }
        return out;
    }
    let mut ints: Vec<i64> = Vec::new();
    let mut i: usize = 0;
    while i < n
        invariant
            i <= n,
            n == data@.len(),
            ints@ =~= data@.map_values(|v: u8| v as i64).subrange(0, i as int),
        decreases n - i,
    {
        proof {
            let m = data@.map_values(|v: u8| v as i64);
            assert(m.subrange(0, i + 1) =~= m.subrange(0, i as int).push(m[i as int]));
        }
        ints.push(data[i] as i64);
        i = i + 1;
    }
    proof {
        let m = data@.map_values(|v: u8| v as i64);
        assert(m.subrange(0, n as int) =~= m);
    }
    proof {
        assert forall|k: int|
            0 <= k < ints@.len() implies -(255 as i64) <= #[trigger] ints@[k] <= (
        255 as i64) by {
            assert(ints@[k] == data@.map_values(|v: u8| v as i64)[k]);
        }
    }
    let avgs = chunk_avgs(&ints, channels, 255);
    let mut out: Vec<i16> = Vec::new();
    let m = avgs.len();
    let mut k: usize = 0;
    while k < m
        invariant
            k <= m,
            m == avgs@.len(),
            out@.len() == k,
            forall|j: int| 0 <= j < m ==> -255 <= #[trigger] avgs@[j] <= 255,
            forall|j: int|
                0 <= j < m ==> #[trigger] avgs@[j] == spec_chunk_avg(
                    data@.map_values(|v: u8| v as i64),
                    channels as int,
                    j,
                ),
            forall|j: int|
                0 <= j < k ==> #[trigger] out@[j] as int == (avgs@[j] as int - 128) * 256,
        decreases m - k,
    {
        proof {
            let d = data@.map_values(|v: u8| v as i64);
            lemma_avg_range(d, channels as int, k as int, 0, 255);
        }
        out.push((((avgs[k] as i32) - 128) * 256) as i16);
        k = k + 1;
    }
    out
}

/// Interleaved signed 16-bit samples to mono: channels averaged.
pub fn to_mono_i16(data: &[i16], channels: usize) -> (r: Vec<i16>)
    ensures
        channels <= 1 ==> r@ == data@,
        channels > 1 ==> r@.len() == spec_chunk_count(data@.len() as int, channels as int)
            && forall|i: int|
            0 <= i < r@.len() ==> #[trigger] r@[i] as int == spec_chunk_avg(
                data@.map_values(|v: i16| v as i64),
                channels as int,
                i,
            ),
{
    let n = data.len();
    if channels <= 1 {
        let mut out: Vec<i16> = Vec::new();
        let mut i: usize = 0;
        while i < n
            invariant
                i <= n,
                n == data@.len(),
                out@ =~= data@.subrange(0, i as int),
            decreases n - i,
        {
            proof {
                assert(data@.subrange(0, i + 1) =~= data@.subrange(0, i as int).push(
                    data@[i as int],
                ));
            }
            out.push(data[i]);
            i = i + 1;
        }
        proof {
            assert(data@.subrange(0, n as int) =~= data@);
        }
        return out;
    }
    let mut ints: Vec<i64> = Vec::new();
    let mut i: usize = 0;
    while i < n
        invariant
            i <= n,
            n == data@.len(),
            ints@ =~= data@.map_values(|v: i16| v as i64).subrange(0, i as int),
        decreases n - i,
    {
        proof {
            let m = data@.map_values(|v: i16| v as i64);
            assert(m.subrange(0, i + 1) =~= m.subrange(0, i as int).push(m[i as int]));
        }
        ints.push(data[i] as i64);
        i = i + 1;
    }
    proof {
        let m = data@.map_values(|v: i16| v as i64);
        assert(m.subrange(0, n as int) =~= m);
    }
    proof {
        assert forall|k: int|
            0 <= k < ints@.len() implies -(32768 as i64) <= #[trigger] ints@[k] <= (
        32768 as i64) by {
            assert(ints@[k] == data@.map_values(|v: i16| v as i64)[k]);
        }
    }
    let avgs = chunk_avgs(&ints, channels, 32768);
    let mut out: Vec<i16> = Vec::new();
    let m = avgs.len();
    let mut k: usize = 0;
    while k < m
        invariant
            k <= m,
            m == avgs@.len(),
            out@.len() == k,
            forall|j: int| 0 <= j < m ==> -32768 <= #[trigger] avgs@[j] <= 32768,
            forall|j: int|
                0 <= j < m ==> #[trigger] avgs@[j] == spec_chunk_avg(
                    data@.map_values(|v: i16| v as i64),
                    channels as int,
                    j,
                ),
            forall|j: int| 0 <= j < k ==> #[trigger] out@[j] as int == avgs@[j] as int,
        decreases m - k,
    {
        proof {
            let d = data@.map_values(|v: i16| v as i64);
            lemma_avg_range(d, channels as int, k as int, i16::MIN as int, i16::MAX as int);
        }
        let a = avgs[k];
        out.push(a as i16);
        k = k + 1;
    }
    out
}

/// The truncated average of samples in `[lo, hi]` stays in `[lo, hi]`.
proof fn lemma_avg_range(d: Seq<i64>, ch: int, i: int, lo: int, hi: int)
    requires
        ch >= 2,
        lo <= 0 <= hi,
        forall|k: int| 0 <= k < d.len() ==> lo <= #[trigger] d[k] <= hi,
        0 <= i < spec_chunk_count(d.len() as int, ch),
    ensures
        lo <= spec_chunk_avg(d, ch, i) <= hi,
{
    assert(i * ch < d.len()) by (nonlinear_arith)
        requires
            ch >= 2,
            0 <= i,
            i < (d.len() + ch - 1) / ch,
    ;
    let from = i * ch;
    let to = if from + ch <= d.len() {
        from + ch
    } else {
        d.len() as int
    };
    lemma_sum_bound_range(d, from, to, lo, hi);
    let s = spec_sum(d, from, to);
    let cnt = to - from;
    if s >= 0 {
        assert(s / cnt <= hi) by (nonlinear_arith)
            requires
                cnt >= 1,
                s >= 0,
                s <= cnt * hi,
        ;
        assert(s / cnt >= 0) by (nonlinear_arith)
            requires
                cnt >= 1,
                s >= 0,
        ;
    } else {
        assert((-s) / cnt <= -lo) by (nonlinear_arith)
            requires
                cnt >= 1,
                -s >= 0,
                -s <= -(cnt * lo),
        ;
        assert((-s) / cnt >= 0) by (nonlinear_arith)
            requires
                cnt >= 1,
                -s >= 0,
        ;
    }
}

proof fn lemma_sum_bound_range(d: Seq<i64>, from: int, to: int, lo: int, hi: int)
    requires
        forall|k: int| 0 <= k < d.len() ==> lo <= #[trigger] d[k] <= hi,
        0 <= from <= to,
        to <= d.len(),
        lo <= 0 <= hi,
    ensures
        (to - from) * lo <= spec_sum(d, from, to) <= (to - from) * hi,
    decreases to - from,
{
    if from >= to {
    } else {
        lemma_sum_bound_range(d, from, to - 1, lo, hi);
        assert(lo <= d[to - 1] <= hi);
        assert((to - from) * hi == (to - 1 - from) * hi + hi) by (nonlinear_arith);
        assert((to - from) * lo == (to - 1 - from) * lo + lo) by (nonlinear_arith);
    }
}

/// Interleaved unsigned 16-bit samples to mono: averaged and re-centred.
pub fn to_mono_u16(data: &[u16], channels: usize) -> (r: Vec<i16>)
    ensures
        channels <= 1 ==> r@.len() == data@.len() && forall|i: int|
            0 <= i < r@.len() ==> #[trigger] r@[i] as int == data@[i] as int - 32768,
        channels > 1 ==> r@.len() == spec_chunk_count(data@.len() as int, channels as int)
            && forall|i: int|
            0 <= i < r@.len() ==> #[trigger] r@[i] as int == spec_chunk_avg(
                data@.map_values(|v: u16| v as i64),
                channels as int,
                i,
            ) - 32768,
{
    let n = data.len();
    if channels <= 1 {
        let mut out: Vec<i16> = Vec::new();
        let mut i: usize = 0;
        while i < n
            invariant
                i <= n,
                n == data@.len(),
                out@.len() == i,
                forall|k: int|
                    0 <= k < i ==> #[trigger] out@[k] as int == data@[k] as int - 32768,
            decreases n - i,
        {
            out.push(((data[i] as i32) - 32768) as i16);
            i = i + 1;
        }
        return out;
    }
    let mut ints: Vec<i64> = Vec::new();
    let mut i: usize = 0;
    while i < n
        invariant
            i <= n,
            n == data@.len(),
            ints@ =~= data@.map_values(|v: u16| v as i64).subrange(0, i as int),
        decreases n - i,
    {
        proof {
            let m = data@.map_values(|v: u16| v as i64);
            assert(m.subrange(0, i + 1) =~= m.subrange(0, i as int).push(m[i as int]));
        }
        ints.push(data[i] as i64);
        i = i + 1;
    }
    proof {
        let m = data@.map_values(|v: u16| v as i64);
        assert(m.subrange(0, n as int) =~= m);
    }
    proof {
        assert forall|k: int|
            0 <= k < ints@.len() implies -(65535 as i64) <= #[trigger] ints@[k] <= (
        65535 as i64) by {
            assert(ints@[k] == data@.map_values(|v: u16| v as i64)[k]);
        }
    }
    let avgs = chunk_avgs(&ints, channels, 65535);
    let mut out: Vec<i16> = Vec::new();
    let m = avgs.len();
    let mut k: usize = 0;
    while k < m
        invariant
            k <= m,
            m == avgs@.len(),
            out@.len() == k,
            forall|j: int| 0 <= j < m ==> -65535 <= #[trigger] avgs@[j] <= 65535,
            forall|j: int|
                0 <= j < m ==> #[trigger] avgs@[j] == spec_chunk_avg(
                    data@.map_values(|v: u16| v as i64),
                    channels as int,
                    j,
                ),
            forall|j: int|
                0 <= j < k ==> #[trigger] out@[j] as int == avgs@[j] as int - 32768,
        decreases m - k,
    {
        proof {
            let d = data@.map_values(|v: u16| v as i64);
            lemma_avg_range(d, channels as int, k as int, 0, 65535);
        }
        out.push(((avgs[k] as i32) - 32768) as i16);
        k = k + 1;
    }
    out
}

/// The truncated average of nonnegative bounded samples stays in range.
proof fn lemma_avg_nonneg_range(d: Seq<i64>, ch: int, i: int, hi: int)
    requires
        ch >= 2,
        hi >= 0,
        forall|k: int| 0 <= k < d.len() ==> 0 <= #[trigger] d[k] <= hi,
        0 <= i,
        i * ch < d.len(),
    ensures
        0 <= spec_chunk_avg(d, ch, i) <= hi,
{
    let from = i * ch;
    let to = if from + ch <= d.len() {
        from + ch
    } else {
        d.len() as int
    };
    lemma_sum_bound_range(d, from, to, 0, hi);
    let s = spec_sum(d, from, to);
    let cnt = to - from;
    assert(s / cnt <= hi) by (nonlinear_arith)
        requires
            cnt >= 1,
            s >= 0,
            s <= cnt * hi,
    ;
    assert(s / cnt >= 0) by (nonlinear_arith)
        requires
            cnt >= 1,
            s >= 0,
    ;
}

/// Interleaved signed 32-bit samples to mono 16-bit: averaged, then the
/// top sixteen bits taken (flooring).
pub fn to_mono_i32(data: &[i32], channels: usize) -> (r: Vec<i16>)
    ensures
        channels <= 1 ==> r@.len() == data@.len() && forall|i: int|
            0 <= i < r@.len() ==> #[trigger] r@[i] as int == data@[i] as int / 65536,
        channels > 1 ==> r@.len() == spec_chunk_count(data@.len() as int, channels as int)
            && forall|i: int|
            0 <= i < r@.len() ==> #[trigger] r@[i] as int == spec_chunk_avg(
                data@.map_values(|v: i32| v as i64),
                channels as int,
                i,
            ) / 65536,
{
    let n = data.len();
    if channels <= 1 {
        let mut out: Vec<i16> = Vec::new();
        let mut i: usize = 0;
        while i < n
            invariant
                i <= n,
                n == data@.len(),
                out@.len() == i,
                forall|k: int|
                    0 <= k < i ==> #[trigger] out@[k] as int == data@[k] as int / 65536,
            decreases n - i,
        {
            let v = data[i];
            let q = floor_div_65536(v as i64);
            out.push(q);
            i = i + 1;
        }
        return out;
    }
    let mut ints: Vec<i64> = Vec::new();
    let mut i: usize = 0;
    while i < n
        invariant
            i <= n,
            n == data@.len(),
            ints@ =~= data@.map_values(|v: i32| v as i64).subrange(0, i as int),
        decreases n - i,
    {
        proof {
            let m = data@.map_values(|v: i32| v as i64);
            assert(m.subrange(0, i + 1) =~= m.subrange(0, i as int).push(m[i as int]));
        }
        ints.push(data[i] as i64);
        i = i + 1;
    }
    proof {
        let m = data@.map_values(|v: i32| v as i64);
        assert(m.subrange(0, n as int) =~= m);
    }
    proof {
        assert forall|k: int|
            0 <= k < ints@.len() implies -(0x8000_0000 as i64) <= #[trigger] ints@[k] <= (
        0x8000_0000 as i64) by {
            assert(ints@[k] == data@.map_values(|v: i32| v as i64)[k]);
        }
    }
    let avgs = chunk_avgs(&ints, channels, 0x8000_0000);
    let mut out: Vec<i16> = Vec::new();
    let m = avgs.len();
    let mut k: usize = 0;
    while k < m
        invariant
            k <= m,
            m == avgs@.len(),
            out@.len() == k,
            forall|j: int|
                0 <= j < m ==> -0x8000_0000 <= #[trigger] avgs@[j] <= 0x8000_0000,
            forall|j: int|
                0 <= j < m ==> #[trigger] avgs@[j] == spec_chunk_avg(
                    data@.map_values(|v: i32| v as i64),
                    channels as int,
                    j,
                ),
            forall|j: int|
                0 <= j < k ==> #[trigger] out@[j] as int == avgs@[j] as int / 65536,
        decreases m - k,
    {
        proof {
            let d = data@.map_values(|v: i32| v as i64);
            lemma_avg_range(d, channels as int, k as int, i32::MIN as int, i32::MAX as int);
        }
        let q = floor_div_65536(avgs[k]);
        out.push(q);
        k = k + 1;
    }
    out
}

/// Interleaved unsigned 32-bit samples to mono 16-bit: averaged,
/// re-centred, then the top sixteen bits taken (flooring).
pub fn to_mono_u32(data: &[u32], channels: usize) -> (r: Vec<i16>)
    ensures
        channels <= 1 ==> r@.len() == data@.len() && forall|i: int|
            0 <= i < r@.len() ==> #[trigger] r@[i] as int == (data@[i] as int - 0x8000_0000)
                / 65536,
        channels > 1 ==> r@.len() == spec_chunk_count(data@.len() as int, channels as int)
            && forall|i: int|
            0 <= i < r@.len() ==> #[trigger] r@[i] as int == (spec_chunk_avg(
                data@.map_values(|v: u32| v as i64),
                channels as int,
                i,
            ) - 0x8000_0000) / 65536,
{
    let n = data.len();
    if channels <= 1 {
        let mut out: Vec<i16> = Vec::new();
        let mut i: usize = 0;
        while i < n
            invariant
                i <= n,
                n == data@.len(),
                out@.len() == i,
                forall|k: int|
                    0 <= k < i ==> #[trigger] out@[k] as int == (data@[k] as int
                        - 0x8000_0000) / 65536,
            decreases n - i,
        {
            let v = (data[i] as i64) - 0x8000_0000;
            let q = floor_div_65536(v);
            out.push(q);
            i = i + 1;
        }
        return out;
    }
    let mut ints: Vec<i64> = Vec::new();
    let mut i: usize = 0;
    while i < n
        invariant
            i <= n,
            n == data@.len(),
            ints@ =~= data@.map_values(|v: u32| v as i64).subrange(0, i as int),
        decreases n - i,
    {
        proof {
            let m = data@.map_values(|v: u32| v as i64);
            assert(m.subrange(0, i + 1) =~= m.subrange(0, i as int).push(m[i as int]));
        }
        ints.push(data[i] as i64);
        i = i + 1;
    }
    proof {
        let m = data@.map_values(|v: u32| v as i64);
        assert(m.subrange(0, n as int) =~= m);
    }
    proof {
        assert forall|k: int|
            0 <= k < ints@.len() implies -(0x1_0000_0000 as i64) <= #[trigger] ints@[k] <= (
        0x1_0000_0000 as i64) by {
            assert(ints@[k] == data@.map_values(|v: u32| v as i64)[k]);
        }
    }
    let avgs = chunk_avgs(&ints, channels, 0x1_0000_0000);
    let mut out: Vec<i16> = Vec::new();
    let m = avgs.len();
    let mut k: usize = 0;
    while k < m
        invariant
            k <= m,
            m == avgs@.len(),
            out@.len() == k,
            forall|j: int|
                0 <= j < m ==> -0x1_0000_0000 <= #[trigger] avgs@[j] <= 0x1_0000_0000,
            forall|j: int|
                0 <= j < m ==> #[trigger] avgs@[j] == spec_chunk_avg(
                    data@.map_values(|v: u32| v as i64),
                    channels as int,
                    j,
                ),
            forall|j: int|
                0 <= j < k ==> #[trigger] out@[j] as int == (avgs@[j] as int - 0x8000_0000)
                    / 65536,
        decreases m - k,
    {
        proof {
            let d = data@.map_values(|v: u32| v as i64);
            lemma_avg_range(d, channels as int, k as int, 0, 0xFFFF_FFFF);
        }
        let q = floor_div_65536(avgs[k] - 0x8000_0000);
        out.push(q);
        k = k + 1;
    }
    out
}

/// Floor division by `65536`, giving the value's top sixteen bits; the
/// result of averaging 32-bit samples always fits `i16`.
fn floor_div_65536(v: i64) -> (r: i16)
    requires
        -0x8000_0000 <= v < 0x8000_0000,
    ensures
        r as int == v as int / 65536,
{
    match v.checked_div_euclid(65536) {
        Some(q) => {
            proof {
                assert(-0x8000 <= (v as int) / 65536 && (v as int) / 65536 < 0x8000)
                    by (nonlinear_arith)
                    requires
                        -0x8000_0000 <= (v as int) && (v as int) < 0x8000_0000,
                ;
            }
            q as i16
        },
        None => {
            proof {
                assert(false);
            }
            0
        },
    }
}

} // verus!
