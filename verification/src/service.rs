use vstd::prelude::*;
use crate::text::{is_prefix_of, str_chars, chars_to_string};
use crate::catalog::mc_prefix;
use crate::parse::is_dim_char;
use crate::numfmt::{spec_dec, i32_to_chars};

verus! {

// ---------------------------------------------------------------------------
// Input validation
// ---------------------------------------------------------------------------

/// Characters allowed in a player name.
pub open spec fn is_player_char(c: char) -> bool {
    let u = c as u32;
    (0x41 <= u && u <= 0x5a) || (0x61 <= u && u <= 0x7a) || (0x30 <= u && u <= 0x39) || u
        == 0x5f
}

/// A player name: one to sixteen letters, digits or underscores.
pub open spec fn is_valid_player_name(s: Seq<char>) -> bool {
    1 <= s.len() <= 16 && forall|i: int| 0 <= i < s.len() ==> is_player_char(#[trigger] s[i])
}

/// A block identifier: the `minecraft:` namespace followed by a non-empty
/// path of lowercase letters, digits, `_`, `.`, `/` or `-`.
pub open spec fn is_valid_block_id(s: Seq<char>) -> bool {
    &&& is_prefix_of(s, mc_prefix())
    &&& s.len() > 10
    &&& forall|i: int| 10 <= i < s.len() ==> is_dim_char(#[trigger] s[i])
}

/// Accept a player name unchanged, or reject it; accepted names pass
/// through exactly as given.
pub fn validate_player_name(player_name: &str) -> (r: Result<String, String>)
    ensures
        is_valid_player_name(player_name@) ==> (r matches Ok(n) && n@ == player_name@),
        !is_valid_player_name(player_name@) ==> (r matches Err(e) && e@ == "invalid player name: "@
            + player_name@),
{
    let cs = str_chars(player_name);
    let n = cs.len();
    if n < 1 || n > 16 {
        return Err(error_message("invalid player name: ", player_name));
    }
    let mut i: usize = 0;
    while i < n
        invariant
            i <= n,
            n == cs@.len(),
            cs@ == player_name@,
            forall|k: int| 0 <= k < i ==> is_player_char(#[trigger] cs@[k]),
        decreases n - i,
    {
        let u = cs[i] as u32;
        if !((0x41 <= u && u <= 0x5a) || (0x61 <= u && u <= 0x7a) || (0x30 <= u && u <= 0x39)
            || u == 0x5f) {
            return Err(error_message("invalid player name: ", player_name));
        }
        i = i + 1;
    }
    Ok(copy_str(player_name))
}

/// Accept a block identifier unchanged, or reject it; accepted identifiers
/// pass through exactly as given.
pub fn validate_block_id(block_id: &str) -> (r: Result<String, String>)
    ensures
        is_valid_block_id(block_id@) ==> (r matches Ok(b) && b@ == block_id@),
        !is_valid_block_id(block_id@) ==> (r matches Err(e) && e@ == "invalid block id: "@
            + block_id@),
{
    let cs = str_chars(block_id);
    let n = cs.len();
    let pfx = vec!['m', 'i', 'n', 'e', 'c', 'r', 'a', 'f', 't', ':'];
    proof {
        assert(pfx@ =~= mc_prefix());
    }
    if !crate::text::starts_with_seq(&cs, &pfx) || n <= 10 {
        return Err(error_message("invalid block id: ", block_id));
    }
    let mut i: usize = 10;
    while i < n
        invariant
            10 <= i <= n,
            n == cs@.len(),
            cs@ == block_id@,
            forall|k: int| 10 <= k < i ==> is_dim_char(#[trigger] cs@[k]),
        decreases n - i,
    {
        if !crate::parse::is_dim_char_exec(cs[i]) {
            return Err(error_message("invalid block id: ", block_id));
        }
        i = i + 1;
    }
    Ok(copy_str(block_id))
}

fn copy_str(s: &str) -> (r: String)
    ensures
        r@ == s@,
{
    let cs = str_chars(s);
    chars_to_string(&cs)
}

fn error_message(prefix: &str, subject: &str) -> (r: String)
    ensures
        r@ == prefix@ + subject@,
{
    let mut out = str_chars(prefix);
    let sub = str_chars(subject);
    let ghost base = out@;
    let n = sub.len();
    let mut i: usize = 0;
    while i < n
        invariant
            i <= n,
            n == sub@.len(),
            out@ =~= base + sub@.subrange(0, i as int),
        decreases n - i,
    {
        proof {
            assert(base + sub@.subrange(0, i + 1) =~= (base + sub@.subrange(0, i as int)).push(
                sub@[i as int],
            ));
        }
        out.push(sub[i]);
        i = i + 1;
    }
    proof {
        assert(sub@.subrange(0, n as int) =~= sub@);
    }
    chars_to_string(&out)
}

// ---------------------------------------------------------------------------
// Vertical limits
// ---------------------------------------------------------------------------

/// First entry of the limit table whose key is `d`.
pub open spec fn spec_lookup_limits(
    limits: Seq<(String, (i32, i32))>,
    d: Seq<char>,
) -> Option<(i32, i32)>
    decreases limits.len(),
{
    if limits.len() == 0 {
        None
    } else if limits[0].0@ == d {
        Some(limits[0].1)
    } else {
        spec_lookup_limits(limits.drop_first(), d)
    }
}

/// The key that supplies limits when the dimension is unknown.
pub open spec fn overworld_key() -> Seq<char> {
    mc_prefix() + seq!['o', 'v', 'e', 'r', 'w', 'o', 'r', 'l', 'd']
}

/// The vertical limits of a dimension: its configured entry, else the
/// overworld entry, else the built-in overworld bounds.
pub open spec fn spec_resolve_y_limits(
    limits: Seq<(String, (i32, i32))>,
    d: Seq<char>,
) -> (i32, i32) {
    match spec_lookup_limits(limits, d) {
        Some(p) => p,
        None => match spec_lookup_limits(limits, overworld_key()) {
            Some(p) => p,
            None => (-64i32, 319i32),
        },
    }
}

fn lookup_limits(limits: &Vec<(String, (i32, i32))>, d: &Vec<char>) -> (r: Option<(i32, i32)>)
    ensures
        r == spec_lookup_limits(limits@, d@),
{
    let n = limits.len();
    let mut i: usize = 0;
    proof {
        assert(limits@.skip(0) =~= limits@);
    }
    while i < n
        invariant
            i <= n,
            n == limits@.len(),
            spec_lookup_limits(limits@, d@) == spec_lookup_limits(limits@.skip(i as int), d@),
        decreases n - i,
    {
        proof {
            assert(limits@.skip(i as int)[0] == limits@[i as int]);
            assert(limits@.skip(i as int).drop_first() =~= limits@.skip(i + 1));
        }
        let key = str_chars(limits[i].0.as_str());
        if crate::text::chars_eq(&key, d) {
            return Some(limits[i].1);
        }
        i = i + 1;
    }
    proof {
        assert(limits@.skip(n as int) =~= Seq::<(String, (i32, i32))>::empty());
    }
    None
}

/// Resolve a dimension's vertical limits; see `spec_resolve_y_limits`.
pub fn resolve_y_limits(limits: &Vec<(String, (i32, i32))>, dimension: &str) -> (r: (i32, i32))
    ensures
        r == spec_resolve_y_limits(limits@, dimension@),
{
    let dc = str_chars(dimension);
    match lookup_limits(limits, &dc) {
        Some(p) => p,
        None => {
            let ow = vec![
                'm',
                'i',
                'n',
                'e',
                'c',
                'r',
                'a',
                'f',
                't',
                ':',
                'o',
                'v',
                'e',
                'r',
                'w',
                'o',
                'r',
                'l',
                'd',
            ];
            proof {
                assert(ow@ =~= overworld_key());
            }
            match lookup_limits(limits, &ow) {
                Some(p) => p,
                None => (-64, 319),
            }
        },
    }
}

// ---------------------------------------------------------------------------
// Chunk geometry
// ---------------------------------------------------------------------------

pub open spec fn clamp_i32(x: int) -> int {
    if x < i32::MIN {
        i32::MIN as int
    } else if x > i32::MAX {
        i32::MAX as int
    } else {
        x
    }
}

/// The chunk-aligned origin at or below the coordinate: the greatest
/// multiple of sixteen not exceeding it (after clamping to the world's
/// 32-bit coordinate range).
pub open spec fn spec_chunk_origin(x: int) -> int {
    (clamp_i32(x) / 16) * 16
}

/// The chunk-aligned origin for a floored coordinate; see
/// `spec_chunk_origin`.
pub fn chunk_origin(x_floor: i64) -> (r: i32)
    ensures
        r == spec_chunk_origin(x_floor as int),
{
    let c: i32 = if x_floor < (i32::MIN as i64) {
        i32::MIN
    } else if x_floor > (i32::MAX as i64) {
        i32::MAX
    } else {
        x_floor as i32
    };
    match c.checked_div_euclid(16) {
        Some(q) => q * 16,
        None => {
            proof {
                assert(false);
            }
            0
        },
    }
}

/// The vertical range `[y_min, y_max]` cut into contiguous segments whose
/// column volume respects the per-command block budget: every segment is
/// `max(1, fill_max_blocks / 256)` tall except possibly the last.
pub fn build_vertical_segments(y_min: i32, y_max: i32, fill_max_blocks: usize) -> (r: Vec<
    (i32, i32),
>)
    ensures
        ({
            let mh: int = if fill_max_blocks / 256 >= 1 {
                if fill_max_blocks / 256 > i32::MAX {
                    i32::MAX as int
                } else {
                    (fill_max_blocks / 256) as int
                }
            } else {
                1
            };
            &&& (y_min > y_max ==> r@.len() == 0)
            &&& (y_min <= y_max ==> {
                &&& r@.len() > 0
                &&& r@[0].0 == y_min
                &&& r@[r@.len() - 1].1 == y_max
                &&& forall|i: int| 0 <= i < r@.len() ==> (#[trigger] r@[i]).0 <= r@[i].1
                &&& forall|i: int|
                    0 <= i < r@.len() - 1 ==> (#[trigger] r@[i]).1 - r@[i].0 + 1 == mh
                &&& r@[r@.len() - 1].1 - r@[r@.len() - 1].0 + 1 <= mh
                &&& forall|i: int|
                    0 < i < r@.len() ==> (#[trigger] r@[i]).0 == r@[i - 1].1 + 1
            })
        }),
{
    let mh_raw = fill_max_blocks / 256;
    let mh: i64 = if mh_raw >= 1 {
        if mh_raw > (i32::MAX as usize) {
            i32::MAX as i64
        } else {
            mh_raw as i64
        }
    } else {
        1
    };
    let mut segments: Vec<(i32, i32)> = Vec::new();
    let mut start: i64 = y_min as i64;
    let top: i64 = y_max as i64;
    while start <= top
        invariant
            1 <= mh <= i32::MAX,
            top == y_max as int,
            i32::MIN <= start,
            segments@.len() == 0 ==> start == y_min as int,
            segments@.len() > 0 ==> {
                &&& segments@[0].0 == y_min
                &&& start == segments@[segments@.len() - 1].1 + 1
                &&& start <= top + 1
            },
            forall|i: int|
                0 <= i < segments@.len() ==> (#[trigger] segments@[i]).0 <= segments@[i].1,
            forall|i: int|
                0 <= i < segments@.len() ==> (#[trigger] segments@[i]).1 <= y_max,
            forall|i: int|
                0 <= i < segments@.len() ==> (#[trigger] segments@[i]).1 - segments@[i].0 + 1
                    == mh,
            forall|i: int|
                0 < i < segments@.len() ==> (#[trigger] segments@[i]).0 == segments@[i - 1].1
                    + 1,
        decreases top + 1 - start,
    {
        let cand = start + mh - 1;
        let end: i64 = if cand < top {
            cand
        } else {
            top
        };
        if end == cand {
            segments.push((start as i32, end as i32));
        } else {
            let ghost old_segs = segments@;
            segments.push((start as i32, end as i32));
            proof {
                assert(segments@[segments@.len() - 1].1 == y_max);
            }
            start = end + 1;
            break ;
        }
        start = end + 1;
    }
    proof {
        if y_min <= y_max {
            assert(segments@.len() > 0);
            assert(segments@[segments@.len() - 1].1 == y_max);
        }
    }
    segments
}

// ---------------------------------------------------------------------------
// The deletion volume around a player
// ---------------------------------------------------------------------------

/// The bounded, segmented deletion volume for one player position: the
/// 16 x 16 chunk box around the position and the vertical segments that
/// cover the dimension's limits.
pub struct PlayerChunkContext {
    pub player_name: String,
    pub dimension: String,
    pub chunk_x: i32,
    pub chunk_z: i32,
    pub x1: i32,
    pub x2: i32,
    pub z1: i32,
    pub z2: i32,
    pub segments: Vec<(i32, i32)>,
}

/// Assemble the deletion volume from a player's floored position and
/// dimension: the chunk-aligned 16 x 16 box and the budgeted vertical
/// segments.
pub fn build_chunk_context(
    player_name: String,
    x_floor: i64,
    z_floor: i64,
    dimension: String,
    limits: &Vec<(String, (i32, i32))>,
    fill_max_blocks: usize,
) -> (r: PlayerChunkContext)
    ensures
        r.player_name == player_name,
        r.dimension == dimension,
        r.x1 == spec_chunk_origin(x_floor as int),
        r.x2 == spec_chunk_origin(x_floor as int) + 15,
        r.z1 == spec_chunk_origin(z_floor as int),
        r.z2 == spec_chunk_origin(z_floor as int) + 15,
        r.chunk_x == spec_chunk_origin(x_floor as int) / 16,
        r.chunk_z == spec_chunk_origin(z_floor as int) / 16,
        ({
            let lim = spec_resolve_y_limits(limits@, dimension@);
            let mh: int = if fill_max_blocks / 256 >= 1 {
                if fill_max_blocks / 256 > i32::MAX {
                    i32::MAX as int
                } else {
                    (fill_max_blocks / 256) as int
                }
            } else {
                1
            };
            &&& (lim.0 > lim.1 ==> r.segments@.len() == 0)
            &&& (lim.0 <= lim.1 ==> {
                &&& r.segments@.len() > 0
                &&& r.segments@[0].0 == lim.0
                &&& r.segments@[r.segments@.len() - 1].1 == lim.1
                &&& forall|i: int|
                    0 <= i < r.segments@.len() ==> (#[trigger] r.segments@[i]).0
                        <= r.segments@[i].1
                &&& forall|i: int|
                    0 <= i < r.segments@.len() - 1 ==> (#[trigger] r.segments@[i]).1
                        - r.segments@[i].0 + 1 == mh
                &&& r.segments@[r.segments@.len() - 1].1 - r.segments@[r.segments@.len()
                    - 1].0 + 1 <= mh
                &&& forall|i: int|
                    0 < i < r.segments@.len() ==> (#[trigger] r.segments@[i]).0
                        == r.segments@[i - 1].1 + 1
            })
        }),
{
    let x_origin = chunk_origin(x_floor);
    let z_origin = chunk_origin(z_floor);
    let lim = resolve_y_limits(limits, dimension.as_str());
    let segments = build_vertical_segments(lim.0, lim.1, fill_max_blocks);
    let chunk_x = div16(x_origin);
    let chunk_z = div16(z_origin);
    proof {
        lemma_origin_bounds(x_floor as int);
        lemma_origin_bounds(z_floor as int);
    }
    PlayerChunkContext {
        player_name,
        dimension,
        chunk_x,
        chunk_z,
        x1: x_origin,
        x2: x_origin + 15,
        z1: z_origin,
        z2: z_origin + 15,
        segments,
    }
}

fn div16(x: i32) -> (r: i32)
    ensures
        r == x as int / 16,
{
    match x.checked_div_euclid(16) {
        Some(q) => q,
        None => {
            proof {
                assert(false);
            }
            0
        },
    }
}

proof fn lemma_origin_bounds(x: int)
    ensures
        i32::MIN <= spec_chunk_origin(x) <= spec_chunk_origin(x) + 15 <= i32::MAX,
{
    let c = clamp_i32(x);
    assert(i32::MIN <= c <= i32::MAX);
    assert(16 * (c / 16) <= c < 16 * (c / 16) + 16) by (nonlinear_arith)
        requires
            i32::MIN <= c <= i32::MAX,
    ;
    assert((c / 16) * 16 == 16 * (c / 16)) by (nonlinear_arith);
}


// ---------------------------------------------------------------------------
// Command rendering
// ---------------------------------------------------------------------------

fn append_chars(out: &mut Vec<char>, s: &Vec<char>)
    ensures
        final(out)@ == old(out)@ + s@,
{
    let ghost base = out@;
    let n = s.len();
    let mut i: usize = 0;
    while i < n
        invariant
            i <= n,
            n == s@.len(),
            out@ =~= base + s@.subrange(0, i as int),
        decreases n - i,
    {
        proof {
            assert(base + s@.subrange(0, i + 1) =~= (base + s@.subrange(0, i as int)).push(
                s@[i as int],
            ));
        }
        out.push(s[i]);
        i = i + 1;
    }
    proof {
        assert(s@.subrange(0, n as int) =~= s@);
    }
}

fn append_str(out: &mut Vec<char>, s: &str)
    ensures
        final(out)@ == old(out)@ + s@,
{
    let cs = str_chars(s);
    append_chars(out, &cs);
}

fn append_i32(out: &mut Vec<char>, x: i32)
    ensures
        final(out)@ == old(out)@ + spec_dec(x as int),
{
    let cs = i32_to_chars(x);
    append_chars(out, &cs);
}

/// The fill command that clears one vertical segment of a chunk box.
pub open spec fn spec_fill_command(
    dimension: Seq<char>,
    x1: int,
    y1: int,
    z1: int,
    x2: int,
    y2: int,
    z2: int,
    block: Seq<char>,
) -> Seq<char> {
    "execute in "@ + dimension + " run fill "@ + spec_dec(x1) + " "@ + spec_dec(y1) + " "@
        + spec_dec(z1) + " "@ + spec_dec(x2) + " "@ + spec_dec(y2) + " "@ + spec_dec(z2)
        + " air replace "@ + block
}

fn render_fill_command(context: &PlayerChunkContext, seg: (i32, i32), block: &String) -> (r:
    String)
    ensures
        r@ == spec_fill_command(
            context.dimension@,
            context.x1 as int,
            seg.0 as int,
            context.z1 as int,
            context.x2 as int,
            seg.1 as int,
            context.z2 as int,
            block@,
        ),
{
    let mut out: Vec<char> = Vec::new();
    append_str(&mut out, "execute in ");
    append_str(&mut out, context.dimension.as_str());
    append_str(&mut out, " run fill ");
    append_i32(&mut out, context.x1);
    append_str(&mut out, " ");
    append_i32(&mut out, seg.0);
    append_str(&mut out, " ");
    append_i32(&mut out, context.z1);
    append_str(&mut out, " ");
    append_i32(&mut out, context.x2);
    append_str(&mut out, " ");
    append_i32(&mut out, seg.1);
    append_str(&mut out, " ");
    append_i32(&mut out, context.z2);
    append_str(&mut out, " air replace ");
    append_str(&mut out, block.as_str());
    chars_to_string(&out)
}

/// The ordered fill commands that delete one block kind throughout the
/// context's volume: one command per vertical segment, in order. The block
/// identifier is validated first; an invalid one is rejected before any
/// command is produced.
pub fn fill_commands(context: &PlayerChunkContext, block_id: &str) -> (r: Result<
    Vec<String>,
    String,
>)
    ensures
        is_valid_block_id(block_id@) ==> (r matches Ok(cmds) && cmds@.len()
            == context.segments@.len() && forall|i: int|
            0 <= i < cmds@.len() ==> (#[trigger] cmds@[i])@ == spec_fill_command(
                context.dimension@,
                context.x1 as int,
                context.segments@[i].0 as int,
                context.z1 as int,
                context.x2 as int,
                context.segments@[i].1 as int,
                context.z2 as int,
                block_id@,
            )),
        !is_valid_block_id(block_id@) ==> (r matches Err(e) && e@ == "invalid block id: "@
            + block_id@),
{
    let safe_block = match validate_block_id(block_id) {
        Ok(b) => b,
        Err(e) => {
            return Err(e);
        },
    };
    let mut cmds: Vec<String> = Vec::new();
    let n = context.segments.len();
    let mut i: usize = 0;
    while i < n
        invariant
            i <= n,
            n == context.segments@.len(),
            safe_block@ == block_id@,
            cmds@.len() == i,
            forall|k: int|
                0 <= k < i ==> (#[trigger] cmds@[k])@ == spec_fill_command(
                    context.dimension@,
                    context.x1 as int,
                    context.segments@[k].0 as int,
                    context.z1 as int,
                    context.x2 as int,
                    context.segments@[k].1 as int,
                    context.z2 as int,
                    block_id@,
                ),
        decreases n - i,
    {
        let seg = context.segments[i];
        let cmd = render_fill_command(context, seg, &safe_block);
        cmds.push(cmd);
        i = i + 1;
    }
    Ok(cmds)
}

/// The outcome of one chunk deletion: where it happened and how many
/// commands it took.
pub struct ChunkDeleteResult {
    pub player_name: String,
    pub block_id: String,
    pub dimension: String,
    pub chunk_x: i32,
    pub chunk_z: i32,
    pub commands_sent: usize,
}

/// Summarize a completed deletion.
pub fn delete_result(context: &PlayerChunkContext, block_id: String, commands_sent: usize) -> (r:
    ChunkDeleteResult)
    ensures
        r.player_name@ == context.player_name@,
        r.block_id == block_id,
        r.dimension@ == context.dimension@,
        r.chunk_x == context.chunk_x,
        r.chunk_z == context.chunk_z,
        r.commands_sent == commands_sent,
{
    ChunkDeleteResult {
        player_name: copy_str(context.player_name.as_str()),
        block_id,
        dimension: copy_str(context.dimension.as_str()),
        chunk_x: context.chunk_x,
        chunk_z: context.chunk_z,
        commands_sent,
    }
}

// ---------------------------------------------------------------------------
// Query and message commands
// ---------------------------------------------------------------------------

/// Newlines collapsed to spaces.
pub open spec fn spec_collapse_newlines(s: Seq<char>) -> Seq<char> {
    s.map_values(|c: char| if c == '\n' { ' ' } else { c })
}

/// The private-message command; the player name is validated and the
/// message's newlines are collapsed to spaces.
pub fn build_tell_command(player_name: &str, message: &str) -> (r: Result<String, String>)
    ensures
        is_valid_player_name(player_name@) ==> (r matches Ok(c) && c@ == "tell "@ + player_name@
            + " "@ + spec_collapse_newlines(message@)),
        !is_valid_player_name(player_name@) ==> (r matches Err(e) && e@
            == "invalid player name: "@ + player_name@),
{
    let safe = match validate_player_name(player_name) {
        Ok(n) => n,
        Err(e) => {
            return Err(e);
        },
    };
    let mut out: Vec<char> = Vec::new();
    append_str(&mut out, "tell ");
    append_str(&mut out, safe.as_str());
    append_str(&mut out, " ");
    let mc = str_chars(message);
    let n = mc.len();
    let ghost base = out@;
    let mut i: usize = 0;
    while i < n
        invariant
            i <= n,
            n == mc@.len(),
            mc@ == message@,
            out@ =~= base + spec_collapse_newlines(mc@.subrange(0, i as int)),
        decreases n - i,
    {
        let c = mc[i];
        proof {
            assert(spec_collapse_newlines(mc@.subrange(0, i + 1)) =~= spec_collapse_newlines(
                mc@.subrange(0, i as int),
            ).push(if mc@[i as int] == '\n' { ' ' } else { mc@[i as int] }));
        }
        if c == '\n' {
            out.push(' ');
        } else {
            out.push(c);
        }
        i = i + 1;
    }
    proof {
        assert(mc@.subrange(0, n as int) =~= mc@);
    }
    Ok(chars_to_string(&out))
}

/// The position query for a player.
pub fn build_pos_query(safe_name: &str) -> (r: String)
    ensures
        r@ == "data get entity "@ + safe_name@ + " Pos"@,
{
    let mut out: Vec<char> = Vec::new();
    append_str(&mut out, "data get entity ");
    append_str(&mut out, safe_name);
    append_str(&mut out, " Pos");
    chars_to_string(&out)
}

/// The single-coordinate position query for a player.
pub fn build_pos_index_query(safe_name: &str, index: i32) -> (r: String)
    ensures
        r@ == "data get entity "@ + safe_name@ + " Pos["@ + spec_dec(index as int) + "]"@,
{
    let mut out: Vec<char> = Vec::new();
    append_str(&mut out, "data get entity ");
    append_str(&mut out, safe_name);
    append_str(&mut out, " Pos[");
    append_i32(&mut out, index);
    append_str(&mut out, "]");
    chars_to_string(&out)
}

/// The dimension query for a player.
pub fn build_dimension_query(safe_name: &str) -> (r: String)
    ensures
        r@ == "data get entity "@ + safe_name@ + " Dimension"@,
{
    let mut out: Vec<char> = Vec::new();
    append_str(&mut out, "data get entity ");
    append_str(&mut out, safe_name);
    append_str(&mut out, " Dimension");
    chars_to_string(&out)
}

/// The full entity data query for a player.
pub fn build_entity_query(safe_name: &str) -> (r: String)
    ensures
        r@ == "data get entity "@ + safe_name@,
{
    let mut out: Vec<char> = Vec::new();
    append_str(&mut out, "data get entity ");
    append_str(&mut out, safe_name);
    chars_to_string(&out)
}

} // verus!
