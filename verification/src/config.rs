use vstd::prelude::*;
use crate::text::{spec_trim, str_chars, chars_to_string, trim_chars};
use crate::order::str_views;

verus! {

/// A configuration value that may be one string or a list of strings.
pub enum OneOrManyStrings {
    One(String),
    Many(Vec<String>),
}

/// The strings a `OneOrManyStrings` value holds, in order.
pub open spec fn oms_views(o: OneOrManyStrings) -> Seq<Seq<char>> {
    match o {
        OneOrManyStrings::One(s) => seq![s@],
        OneOrManyStrings::Many(v) => str_views(v@),
    }
}

impl OneOrManyStrings {
    /// Flatten into a plain list.
    pub fn into_vec(self) -> (r: Vec<String>)
        ensures
            str_views(r@) == oms_views(self),
    {
        match self {
            OneOrManyStrings::One(s) => {
                let mut out: Vec<String> = Vec::new();
                out.push(s);
                proof {
                    assert(str_views(out@) =~= oms_views(OneOrManyStrings::One(
                        out@[0],
                    )));
                }
                out
            },
            OneOrManyStrings::Many(v) => v,
        }
    }
}

/// The alias tables of the blocks section, already cleaned.
pub struct BlocksConfig {
    pub file: String,
    pub extra_aliases: Vec<(String, Vec<String>)>,
    pub shared_aliases: Vec<(String, Vec<String>)>,
}

/// All values of the extra-alias table followed by all keys of the
/// shared-alias table.
pub open spec fn spec_custom_phrases(
    extra: Seq<(String, Vec<String>)>,
    shared: Seq<(String, Vec<String>)>,
) -> Seq<Seq<char>>
    decreases extra.len(), shared.len(),
{
    if extra.len() > 0 {
        str_views(extra[0].1@) + spec_custom_phrases(extra.drop_first(), shared)
    } else if shared.len() > 0 {
        seq![shared[0].0@] + spec_custom_phrases(extra, shared.drop_first())
    } else {
        Seq::empty()
    }
}

impl BlocksConfig {
    /// Every configured phrase: extra-alias values, then shared-alias keys.
    pub fn custom_alias_phrases(&self) -> (r: Vec<String>)
        ensures
            str_views(r@) == spec_custom_phrases(self.extra_aliases@, self.shared_aliases@),
    {
        let mut out: Vec<String> = Vec::new();
        let ghost ex = self.extra_aliases@;
        let ghost sh = self.shared_aliases@;
        let n1 = self.extra_aliases.len();
        let mut i: usize = 0;
        proof {
            assert(ex.skip(0) =~= ex);
            assert(str_views(out@) =~= Seq::<Seq<char>>::empty());
            assert(Seq::<Seq<char>>::empty() + spec_custom_phrases(ex, sh)
                =~= spec_custom_phrases(ex, sh));
        }
        while i < n1
            invariant
                i <= n1,
                n1 == ex.len(),
                ex == self.extra_aliases@,
                sh == self.shared_aliases@,
                str_views(out@) + spec_custom_phrases(ex.skip(i as int), sh)
                    =~= spec_custom_phrases(ex, sh),
            decreases n1 - i,
        {
            proof {
                assert(ex.skip(i as int)[0] == ex[i as int]);
                assert(ex.skip(i as int).drop_first() =~= ex.skip(i + 1));
            }
            let vals = &self.extra_aliases[i].1;
            let m = vals.len();
            let ghost base = str_views(out@);
            let mut j: usize = 0;
            while j < m
                invariant
                    j <= m,
                    m == vals@.len(),
                    vals == ex[i as int].1,
                    str_views(out@) =~= base + str_views(vals@).subrange(0, j as int),
                decreases m - j,
            {
                proof {
                    assert(base + str_views(vals@).subrange(0, j + 1) =~= (base + str_views(
                        vals@,
                    ).subrange(0, j as int)).push(vals@[j as int]@));
                }
                out.push(crate::text::clone_string(&vals[j]));
                j = j + 1;
            }
            proof {
                assert(str_views(vals@).subrange(0, m as int) =~= str_views(vals@));
                assert(base + str_views(vals@) + spec_custom_phrases(ex.skip(i + 1), sh)
                    =~= base + (str_views(vals@) + spec_custom_phrases(ex.skip(i + 1), sh)));
            }
            i = i + 1;
        }
        proof {
            assert(ex.skip(n1 as int) =~= Seq::<(String, Vec<String>)>::empty());
        }
        let n2 = self.shared_aliases.len();
        let mut k: usize = 0;
        proof {
            assert(sh.skip(0) =~= sh);
            assert(ex.skip(n1 as int) =~= Seq::<(String, Vec<String>)>::empty());
        }
        while k < n2
            invariant
                k <= n2,
                n2 == sh.len(),
                sh == self.shared_aliases@,
                str_views(out@) + spec_custom_phrases(
                    Seq::<(String, Vec<String>)>::empty(),
                    sh.skip(k as int),
                ) =~= spec_custom_phrases(ex, sh),
            decreases n2 - k,
        {
            proof {
                assert(sh.skip(k as int)[0] == sh[k as int]);
                assert(sh.skip(k as int).drop_first() =~= sh.skip(k + 1));
                let ghost e0 = Seq::<(String, Vec<String>)>::empty();
                assert(spec_custom_phrases(e0, sh.skip(k as int)) == seq![sh[k as int].0@]
                    + spec_custom_phrases(e0, sh.skip(k + 1)));
                assert(str_views(out@).push(sh[k as int].0@) + spec_custom_phrases(
                    e0,
                    sh.skip(k + 1),
                ) =~= str_views(out@) + spec_custom_phrases(e0, sh.skip(k as int)));
            }
            let ghost before = str_views(out@);
            out.push(crate::text::clone_string(&self.shared_aliases[k].0));
            proof {
                assert(str_views(out@) =~= before.push(sh[k as int].0@));
            }
            k = k + 1;
        }
        proof {
            assert(sh.skip(n2 as int) =~= Seq::<(String, Vec<String>)>::empty());
            assert(spec_custom_phrases(
                Seq::<(String, Vec<String>)>::empty(),
                Seq::<(String, Vec<String>)>::empty(),
            ) =~= Seq::<Seq<char>>::empty());
            assert(str_views(out@) + Seq::<Seq<char>>::empty() =~= str_views(out@));
        }
        out
    }
}

/// A configured string, trimmed, with the default taking over when the
/// value is absent or trims to nothing.
pub fn nonempty_or(value: Option<String>, default: &str) -> (r: String)
    ensures
        ({
            let base = match value {
                Some(s) => s@,
                None => default@,
            };
            let t = spec_trim(base);
            r@ == if t.len() == 0 {
                default@
            } else {
                t
            }
        }),
{
    let base: String = match value {
        Some(s) => s,
        None => {
            let dc = str_chars(default);
            chars_to_string(&dc)
        },
    };
    let bc = str_chars(base.as_str());
    let t = trim_chars(&bc);
    if t.len() == 0 {
        let dc = str_chars(default);
        chars_to_string(&dc)
    } else {
        chars_to_string(&t)
    }
}

/// One cleaned alias-table row: the trimmed key and its trimmed, non-empty
/// values; rows with an empty key or no surviving values are dropped.
pub open spec fn spec_clean_row(p: (String, OneOrManyStrings)) -> Option<(
    Seq<char>,
    Seq<Seq<char>>,
)> {
    let k = spec_trim(p.0@);
    let vals = spec_clean_values(oms_views(p.1));
    if k.len() > 0 && vals.len() > 0 {
        Some((k, vals))
    } else {
        None
    }
}

/// Trim every value and keep the non-empty ones.
pub open spec fn spec_clean_values(vs: Seq<Seq<char>>) -> Seq<Seq<char>>
    decreases vs.len(),
{
    if vs.len() == 0 {
        Seq::empty()
    } else {
        let rest = spec_clean_values(vs.drop_last());
        let t = spec_trim(vs.last());
        if t.len() > 0 {
            rest.push(t)
        } else {
            rest
        }
    }
}

/// The cleaned alias table, in input order.
pub open spec fn spec_clean_alias_map(rows: Seq<(String, OneOrManyStrings)>) -> Seq<(
    Seq<char>,
    Seq<Seq<char>>,
)>
    decreases rows.len(),
{
    if rows.len() == 0 {
        Seq::empty()
    } else {
        let rest = spec_clean_alias_map(rows.drop_last());
        match spec_clean_row(rows.last()) {
            Some(row) => rest.push(row),
            None => rest,
        }
    }
}

/// The view of a cleaned table held in executable form.
pub open spec fn clean_map_views(es: Seq<(String, Vec<String>)>) -> Seq<(
    Seq<char>,
    Seq<Seq<char>>,
)> {
    es.map_values(|e: (String, Vec<String>)| (e.0@, str_views(e.1@)))
}

/// Clean a raw alias table: trim keys and values, drop empties; see
/// `spec_clean_alias_map`.
pub fn clean_alias_map(input: Vec<(String, OneOrManyStrings)>) -> (r: Vec<(String, Vec<String>)>)
    ensures
        clean_map_views(r@) == spec_clean_alias_map(input@),
{
    let ghost rows = input@;
    let mut out: Vec<(String, Vec<String>)> = Vec::new();
    let n = input.len();
    let mut i: usize = 0;
    let mut rest = input;
    proof {
        assert(rows.subrange(0, 0) =~= Seq::<(String, OneOrManyStrings)>::empty());
        assert(clean_map_views(out@) =~= spec_clean_alias_map(rows.subrange(0, 0)));
    }
    // consume the input front to back
    let mut consumed: usize = 0;
    while rest.len() > 0
        invariant
            consumed + rest@.len() == rows.len(),
            rows.skip(consumed as int) =~= rest@,
            clean_map_views(out@) =~= spec_clean_alias_map(rows.subrange(0, consumed as int)),
        decreases rest@.len(),
    {
        let pair = rest.remove(0);
        let ghost gp = rows[consumed as int];
        proof {
            assert(rows.skip(consumed as int)[0] == rows[consumed as int]);
            assert(rows.skip(consumed as int).drop_first() =~= rows.skip(consumed + 1));
        }
        let key_chars = str_chars(pair.0.as_str());
        let kt = trim_chars(&key_chars);
        let vals = pair.1.into_vec();
        let ghost val_views = crate::order::str_views(vals@);
        let mut cleaned: Vec<String> = Vec::new();
        let m = vals.len();
        let mut j: usize = 0;
        proof {
            assert(val_views.subrange(0, 0) =~= Seq::<Seq<char>>::empty());
            assert(str_views(cleaned@) =~= spec_clean_values(val_views.subrange(0, 0)));
        }
        while j < m
            invariant
                j <= m,
                m == vals@.len(),
                val_views == crate::order::str_views(vals@),
                str_views(cleaned@) =~= spec_clean_values(val_views.subrange(0, j as int)),
            decreases m - j,
        {
            proof {
                assert(val_views.subrange(0, j + 1).drop_last() =~= val_views.subrange(
                    0,
                    j as int,
                ));
                assert(val_views.subrange(0, j + 1).last() == val_views[j as int]);
            }
            let vc = str_chars(vals[j].as_str());
            let vt = trim_chars(&vc);
            if vt.len() > 0 {
                let ghost before = str_views(cleaned@);
                cleaned.push(chars_to_string(&vt));
                proof {
                    assert(str_views(cleaned@) =~= before.push(spec_trim(
                        val_views[j as int],
                    )));
                }
            }
            j = j + 1;
        }
        proof {
            assert(val_views.subrange(0, m as int) =~= val_views);
        }
        if kt.len() > 0 && cleaned.len() > 0 {
            let ghost before = clean_map_views(out@);
            out.push((chars_to_string(&kt), cleaned));
            proof {
                assert(clean_map_views(out@) =~= before.push(
                    (spec_trim(gp.0@), spec_clean_values(oms_views(gp.1))),
                ));
                assert(rows.subrange(0, consumed + 1).drop_last() =~= rows.subrange(
                    0,
                    consumed as int,
                ));
                assert(rows.subrange(0, consumed + 1).last() == gp);
            }
        } else {
            proof {
                assert(rows.subrange(0, consumed + 1).drop_last() =~= rows.subrange(
                    0,
                    consumed as int,
                ));
                assert(rows.subrange(0, consumed + 1).last() == gp);
            }
        }
        consumed = consumed + 1;
    }
    proof {
        assert(rows.subrange(0, consumed as int) =~= rows);
    }
    out
}

/// A path resolved against the configuration directory: absolute paths
/// pass through, relative ones are joined below the directory.
pub fn resolve_path(config_dir: &str, value: &str) -> (r: String)
    ensures
        value@.len() > 0 && value@[0] == '/' ==> r@ == value@,
        !(value@.len() > 0 && value@[0] == '/') ==> r@ == config_dir@ + "/"@ + value@,
{
    let vc = str_chars(value);
    if vc.len() > 0 && vc[0] == '/' {
        chars_to_string(&vc)
    } else {
        let mut out = str_chars(config_dir);
        let ghost base = out@;
        let sep = str_chars("/");
        proof {
            reveal_strlit("/");
            assert(sep@.len() == 1);
        }
        out.push(sep[0]);
        proof {
            assert(out@ =~= base + sep@);
        }
        let ghost b3 = out@;
        let m = vc.len();
        let mut i: usize = 0;
        while i < m
            invariant
                i <= m,
                m == vc@.len(),
                vc@ == value@,
                out@ =~= b3 + vc@.subrange(0, i as int),
            decreases m - i,
        {
            proof {
                assert(b3 + vc@.subrange(0, i + 1) =~= (b3 + vc@.subrange(0, i as int)).push(
                    vc@[i as int],
                ));
            }
            out.push(vc[i]);
            i = i + 1;
        }
        proof {
            assert(vc@.subrange(0, m as int) =~= vc@);
        }
        chars_to_string(&out)
    }
}

/// Check the startup configuration: the password, microphone flag, matched
/// sample rates and player name must all be usable before any worker
/// starts.
pub fn validate_runtime_config(
    rcon_password: &str,
    microphone_enabled: bool,
    microphone_samplerate: u32,
    speech_sample_rate: u32,
    player_name: &str,
) -> (r: Result<(), String>)
    ensures
        rcon_password@.len() == 0 ==> r is Err,
        rcon_password@.len() > 0 && !microphone_enabled ==> r is Err,
        rcon_password@.len() > 0 && microphone_enabled && microphone_samplerate
            != speech_sample_rate ==> r is Err,
        rcon_password@.len() > 0 && microphone_enabled && microphone_samplerate
            == speech_sample_rate && spec_trim(player_name@).len() == 0 ==> r is Err,
        rcon_password@.len() > 0 && microphone_enabled && microphone_samplerate
            == speech_sample_rate && spec_trim(player_name@).len() > 0 ==> r is Ok,
{
    let pw = str_chars(rcon_password);
    if pw.len() == 0 {
        return Err(lit_string("the configured remote-console password is empty"));
    }
    if !microphone_enabled {
        return Err(lit_string("the microphone is disabled in the configuration"));
    }
    if microphone_samplerate != speech_sample_rate {
        return Err(lit_string("microphone and speech sample rates must match"));
    }
    let pn = str_chars(player_name);
    let pt = trim_chars(&pn);
    if pt.len() == 0 {
        return Err(lit_string("the configured player name is empty"));
    }
    Ok(())
}

fn lit_string(s: &str) -> (r: String)
    ensures
        r@ == s@,
{
    let cs = str_chars(s);
    chars_to_string(&cs)
}

/// Whether saving these settings requires a restart: the player name, the
/// interface mode or the password changed (ignoring surrounding
/// whitespace).
pub fn settings_restart_required(
    old_player: &str,
    new_player: &str,
    old_mode: crate::ui::UiMode,
    new_mode: crate::ui::UiMode,
    old_password: &str,
    new_password: &str,
) -> (r: bool)
    ensures
        r == (spec_trim(old_player@) != spec_trim(new_player@) || old_mode != new_mode
            || spec_trim(old_password@) != spec_trim(new_password@)),
{
    let op = trim_chars(&str_chars(old_player));
    let np = trim_chars(&str_chars(new_player));
    let ow = trim_chars(&str_chars(old_password));
    let nw = trim_chars(&str_chars(new_password));
    let players_differ = !crate::text::chars_eq(&op, &np);
    let pw_differ = !crate::text::chars_eq(&ow, &nw);
    players_differ || old_mode != new_mode || pw_differ
}

} // verus!
