use vstd::prelude::*;
use crate::text::{
    spec_words, is_prefix_of, spec_trim, spec_normalize, str_chars, chars_to_string,
    trim_chars, starts_with_seq, clone_string, string_eq, chars_eq,
};
use crate::order::{
    str_views, spec_lex_less, strictly_sorted, lemma_lex_trichotomy, lemma_lex_asymmetric,
    lemma_lex_transitive, insert_sorted,
};

verus! {

// ---------------------------------------------------------------------------
// Canonical block identifiers
// ---------------------------------------------------------------------------

/// The language-table key prefix marking block entries.
pub open spec fn key_prefix() -> Seq<char> {
    seq!['b', 'l', 'o', 'c', 'k', '.', 'm', 'i', 'n', 'e', 'c', 'r', 'a', 'f', 't', '.']
}

/// The canonical identifier namespace prefix.
pub open spec fn mc_prefix() -> Seq<char> {
    seq!['m', 'i', 'n', 'e', 'c', 'r', 'a', 'f', 't', ':']
}

/// Characters allowed in the path part of a block identifier taken from the
/// language table.
pub open spec fn is_path_char(c: char) -> bool {
    let u = c as u32;
    (0x61 <= u && u <= 0x7a) || (0x30 <= u && u <= 0x39) || u == 0x5f || u == 0x2f || u == 0x2d
}

pub open spec fn all_path_chars(s: Seq<char>) -> bool {
    forall|i: int| 0 <= i < s.len() ==> is_path_char(#[trigger] s[i])
}

/// The canonical identifier derived from a language-table key, if the key
/// names a block and its path is well-formed.
pub open spec fn spec_block_id_from_key(k: Seq<char>) -> Option<Seq<char>> {
    if is_prefix_of(k, key_prefix()) {
        let p = k.skip(16);
        if p.len() > 0 && all_path_chars(p) {
            Some(mc_prefix() + p)
        } else {
            None
        }
    } else {
        None
    }
}

fn exec_key_prefix() -> (r: Vec<char>)
    ensures
        r@ == key_prefix(),
{
    let r = vec!['b', 'l', 'o', 'c', 'k', '.', 'm', 'i', 'n', 'e', 'c', 'r', 'a', 'f', 't', '.'];
    proof {
        assert(r@ =~= key_prefix());
    }
    r
}

fn exec_mc_prefix() -> (r: Vec<char>)
    ensures
        r@ == mc_prefix(),
{
    let r = vec!['m', 'i', 'n', 'e', 'c', 'r', 'a', 'f', 't', ':'];
    proof {
        assert(r@ =~= mc_prefix());
    }
    r
}

fn is_path_char_exec(c: char) -> (r: bool)
    ensures
        r == is_path_char(c),
{
    let u = c as u32;
    (0x61 <= u && u <= 0x7a) || (0x30 <= u && u <= 0x39) || u == 0x5f || u == 0x2f || u == 0x2d
}

fn block_id_from_key_chars(k: &Vec<char>) -> (r: Option<Vec<char>>)
    ensures
        match r {
            Some(v) => spec_block_id_from_key(k@) == Some(v@),
            None => spec_block_id_from_key(k@) is None,
        },
{
    let prefix = exec_key_prefix();
    if !starts_with_seq(k, &prefix) {
        return None;
    }
    let n = k.len();
    if n == 16 {
        proof {
            assert(k@.skip(16).len() == 0);
        }
        return None;
    }
    let mut out = exec_mc_prefix();
    let mut i: usize = 16;
    while i < n
        invariant
            16 <= i <= n,
            n == k.len(),
            n > 16,
            out@ =~= mc_prefix() + k@.subrange(16, i as int),
            forall|j: int| 16 <= j < i ==> is_path_char(#[trigger] k@[j]),
        decreases n - i,
    {
        let c = k[i];
        if !is_path_char_exec(c) {
            proof {
                assert(k@.skip(16)[i - 16] == k@[i as int]);
            }
            return None;
        }
        out.push(c);
        proof {
            assert(mc_prefix() + k@.subrange(16, i + 1) =~= (mc_prefix() + k@.subrange(
                16,
                i as int,
            )).push(k@[i as int]));
        }
        i = i + 1;
    }
    proof {
        assert(k@.subrange(16, n as int) =~= k@.skip(16));
        assert(forall|j: int|
            0 <= j < k@.skip(16).len() ==> k@.skip(16)[j] == k@[j + 16]);
        assert(all_path_chars(k@.skip(16)));
    }
    Some(out)
}

/// The canonical identifier derived from a language-table key; see
/// `spec_block_id_from_key`.
pub fn block_id_from_language_key(key: &str) -> (r: Option<String>)
    ensures
        match r {
            Some(s) => spec_block_id_from_key(key@) == Some(s@),
            None => spec_block_id_from_key(key@) is None,
        },
{
    let kc = str_chars(key);
    match block_id_from_key_chars(&kc) {
        Some(v) => Some(chars_to_string(&v)),
        None => None,
    }
}

/// A glob metacharacter as the shared-alias table understands them.
pub open spec fn is_glob_char(c: char) -> bool {
    c == '*' || c == '?' || c == '['
}

pub open spec fn has_glob_char(s: Seq<char>) -> bool {
    exists|i: int| 0 <= i < s.len() && is_glob_char(#[trigger] s[i])
}

pub open spec fn has_colon(s: Seq<char>) -> bool {
    exists|i: int| 0 <= i < s.len() && #[trigger] s[i] == ':'
}

/// Canonical form of a configured deletion target: language keys are
/// converted to identifiers, bare names get the default namespace, and
/// glob patterns or namespaced names pass through.
pub open spec fn spec_normalize_target(raw: Seq<char>) -> Seq<char> {
    let t = spec_trim(raw);
    if is_prefix_of(t, key_prefix()) {
        match spec_block_id_from_key(t) {
            Some(id) => id,
            None => t,
        }
    } else if !has_colon(t) && !has_glob_char(t) {
        mc_prefix() + t
    } else {
        t
    }
}

fn normalize_target_chars(raw: &Vec<char>) -> (r: Vec<char>)
    ensures
        r@ == spec_normalize_target(raw@),
{
    let t = trim_chars(raw);
    let prefix = exec_key_prefix();
    if starts_with_seq(&t, &prefix) {
        match block_id_from_key_chars(&t) {
            Some(id) => id,
            None => t,
        }
    } else {
        let n = t.len();
        let mut plain = true;
        let mut i: usize = 0;
        while i < n
            invariant
                i <= n,
                n == t.len(),
                plain == (forall|j: int|
                    0 <= j < i ==> !(#[trigger] t@[j] == ':' || is_glob_char(t@[j]))),
            decreases n - i,
        {
            let c = t[i];
            if c == ':' || c == '*' || c == '?' || c == '[' {
                plain = false;
            }
            i = i + 1;
        }
        if plain {
            let mut out = exec_mc_prefix();
            let mut j: usize = 0;
            while j < n
                invariant
                    j <= n,
                    n == t.len(),
                    out@ =~= mc_prefix() + t@.subrange(0, j as int),
                decreases n - j,
            {
                proof {
                    assert(mc_prefix() + t@.subrange(0, j + 1) =~= (mc_prefix() + t@.subrange(
                        0,
                        j as int,
                    )).push(t@[j as int]));
                }
                out.push(t[j]);
                j = j + 1;
            }
            proof {
                assert(t@.subrange(0, n as int) =~= t@);
            }
            out
        } else {
            t
        }
    }
}

/// Canonical form of a configured deletion target; see
/// `spec_normalize_target`.
pub fn normalize_block_target(raw_target: &str) -> (r: String)
    ensures
        r@ == spec_normalize_target(raw_target@),
{
    let rc = str_chars(raw_target);
    let out = normalize_target_chars(&rc);
    chars_to_string(&out)
}

// ---------------------------------------------------------------------------
// Glob matching, through the outside crate
// ---------------------------------------------------------------------------

/// Whether `glob::Pattern::new` accepts the pattern; the result depends on
/// the pattern text alone.
pub uninterp spec fn glob_pattern_ok(pattern: Seq<char>) -> bool;

/// Whether the compiled pattern matches the text; the result depends on the
/// pattern and text alone.
pub uninterp spec fn glob_matches(pattern: Seq<char>, text: Seq<char>) -> bool;

/// Relies on glob::Pattern::new (None exactly when compilation fails) and
/// glob::Pattern::matches (deterministic in pattern and text).
#[verifier::external_body]
fn glob_match(pattern: &str, text: &str) -> (r: Option<bool>)
    ensures
        r is Some <==> glob_pattern_ok(pattern@),
        r is Some ==> r->0 == glob_matches(pattern@, text@),
{
    match glob::Pattern::new(pattern) {
        Ok(p) => Some(p.matches(text)),
        Err(_) => None,
    }
}

// ---------------------------------------------------------------------------
// The catalog structure
// ---------------------------------------------------------------------------

pub struct AliasEntry {
    pub alias: String,
    pub blocks: Vec<String>,
}

pub struct BlockCatalog {
    pub entries: Vec<AliasEntry>,
    pub sorted_aliases: Vec<String>,
}

pub open spec fn entry_keys(es: Seq<AliasEntry>) -> Seq<Seq<char>> {
    es.map_values(|e: AliasEntry| e.alias@)
}

/// The identifier views held by the entry for `a`, or empty if absent.
pub open spec fn spec_lookup(es: Seq<AliasEntry>, a: Seq<char>) -> Seq<Seq<char>>
    decreases es.len(),
{
    if es.len() == 0 {
        Seq::empty()
    } else if es[0].alias@ == a {
        str_views(es[0].blocks@)
    } else {
        spec_lookup(es.drop_first(), a)
    }
}

/// The catalog maps alias `a` to identifier `b`.
pub open spec fn spec_maps_to(es: Seq<AliasEntry>, a: Seq<char>, b: Seq<char>) -> bool {
    spec_lookup(es, a).contains(b)
}

/// Identifier lists are kept strictly ascending.
pub open spec fn lex_sorted(ss: Seq<Seq<char>>) -> bool {
    forall|i: int, j: int| 0 <= i < j < ss.len() ==> spec_lex_less(ss[i], ss[j])
}

impl BlockCatalog {
    /// Well-formedness: alias keys are unique, identifier lists are sorted
    /// and duplicate-free, and the sorted alias list holds exactly the keys
    /// in specificity order.
    pub open spec fn wf(&self) -> bool {
        &&& forall|i: int, j: int|
            0 <= i < j < self.entries@.len() ==> entry_keys(self.entries@)[i] != entry_keys(
                self.entries@,
            )[j]
        &&& forall|i: int|
            0 <= i < self.entries@.len() ==> lex_sorted(
                str_views(#[trigger] self.entries@[i].blocks@),
            )
        &&& forall|i: int|
            0 <= i < self.entries@.len() ==> (#[trigger] self.entries@[i].blocks@).len() > 0
        &&& strictly_sorted(str_views(self.sorted_aliases@))
        &&& forall|x: Seq<char>|
            str_views(self.sorted_aliases@).contains(x) <==> entry_keys(
                self.entries@,
            ).contains(x)
    }

    pub open spec fn maps(&self, a: Seq<char>, b: Seq<char>) -> bool {
        spec_maps_to(self.entries@, a, b)
    }

    pub fn new() -> (r: BlockCatalog)
        ensures
            r.wf(),
            forall|a: Seq<char>, b: Seq<char>| !r.maps(a, b),
            r.entries@.len() == 0,
            r.sorted_aliases@.len() == 0,
    {
        let r = BlockCatalog { entries: Vec::new(), sorted_aliases: Vec::new() };
        proof {
            assert forall|a: Seq<char>, b: Seq<char>| !r.maps(a, b) by {
                assert(spec_lookup(r.entries@, a) =~= Seq::<Seq<char>>::empty());
            }
        }
        r
    }

    pub fn alias_count(&self) -> (r: usize)
        ensures
            r == self.entries@.len(),
    {
        self.entries.len()
    }

    /// All aliases, in specificity order.
    pub fn aliases(&self) -> (r: Vec<String>)
        ensures
            str_views(r@) == str_views(self.sorted_aliases@),
    {
        let mut out: Vec<String> = Vec::new();
        let n = self.sorted_aliases.len();
        let mut i: usize = 0;
        while i < n
            invariant
                i <= n,
                n == self.sorted_aliases@.len(),
                str_views(out@) =~= str_views(self.sorted_aliases@).subrange(0, i as int),
            decreases n - i,
        {
            let s = clone_string(&self.sorted_aliases[i]);
            out.push(s);
            proof {
                assert(str_views(out@) =~= str_views(self.sorted_aliases@).subrange(
                    0,
                    i + 1,
                ));
            }
            i = i + 1;
        }
        proof {
            assert(str_views(self.sorted_aliases@).subrange(0, n as int) =~= str_views(
                self.sorted_aliases@,
            ));
        }
        out
    }
}

// ---------------------------------------------------------------------------
// Lookup lemmas
// ---------------------------------------------------------------------------

/// With unique keys, the lookup returns the blocks of the entry that holds
/// the key.
pub proof fn lemma_lookup_at(es: Seq<AliasEntry>, k: int)
    requires
        0 <= k < es.len(),
        forall|i: int, j: int|
            0 <= i < j < es.len() ==> entry_keys(es)[i] != entry_keys(es)[j],
    ensures
        spec_lookup(es, es[k].alias@) == str_views(es[k].blocks@),
    decreases es.len(),
{
    if k == 0 {
    } else {
        assert(entry_keys(es)[0] != entry_keys(es)[k]);
        assert forall|i: int, j: int|
            0 <= i < j < es.drop_first().len() implies entry_keys(es.drop_first())[i]
            != entry_keys(es.drop_first())[j] by {
            assert(entry_keys(es)[i + 1] != entry_keys(es)[j + 1]);
            assert(entry_keys(es.drop_first())[i] == entry_keys(es)[i + 1]);
            assert(entry_keys(es.drop_first())[j] == entry_keys(es)[j + 1]);
        }
        lemma_lookup_at(es.drop_first(), k - 1);
        assert(es.drop_first()[k - 1] == es[k]);
    }
}

/// Insert an identifier into a strictly ascending list, keeping it sorted;
/// inserting an identifier already present changes nothing.
pub fn insert_lex_sorted(v: &mut Vec<String>, x: String)
    requires
        lex_sorted(str_views(old(v)@)),
    ensures
        lex_sorted(str_views(final(v)@)),
        forall|y: Seq<char>|
            str_views(final(v)@).contains(y) <==> (str_views(old(v)@).contains(y) || y == x@),
{
    let n = v.len();
    let mut idx: usize = 0;
    while idx < n && lex_less_str(&v[idx], &x)
        invariant
            idx <= n,
            n == v.len(),
            v@ == old(v)@,
            lex_sorted(str_views(v@)),
            forall|k: int| 0 <= k < idx ==> spec_lex_less(str_views(v@)[k], x@),
        decreases n - idx,
    {
        idx = idx + 1;
    }
    if idx < n {
        let same = string_eq(&v[idx], &x);
        if same {
            proof {
                assert(str_views(v@)[idx as int] == x@);
                assert(str_views(v@).contains(x@));
            }
            return ;
        }
    }
    proof {
        if idx < n {
            lemma_lex_trichotomy(str_views(v@)[idx as int], x@);
            assert(spec_lex_less(x@, str_views(v@)[idx as int]));
        }
        assert forall|k: int| 0 <= k < v@.len() implies str_views(v@)[k] != x@ by {
            if k < idx {
                lemma_lex_asymmetric(str_views(v@)[k], x@);
            } else if k > idx {
                assert(spec_lex_less(str_views(v@)[idx as int], str_views(v@)[k]));
                lemma_lex_asymmetric(x@, str_views(v@)[k]);
                if str_views(v@)[k] == x@ {
                    assert(spec_lex_less(x@, str_views(v@)[k]) || k == idx);
                    assert(false);
                }
            } else {
                lemma_lex_asymmetric(x@, str_views(v@)[k]);
            }
        }
    }
    let ghost old_v = v@;
    let ghost gidx = idx as int;
    v.insert(idx, x);
    proof {
        let nv = str_views(v@);
        let ov = str_views(old_v);
        assert forall|i: int, j: int| 0 <= i < j < nv.len() implies spec_lex_less(
            nv[i],
            nv[j],
        ) by {
            if i < gidx && j == gidx {
                assert(nv[i] == ov[i]);
            } else if i == gidx && j > gidx {
                assert(nv[j] == ov[j - 1]);
                if gidx < ov.len() {
                    if j - 1 > gidx {
                        lemma_lex_transitive(nv[gidx], ov[gidx], ov[j - 1]);
                    }
                }
            } else if i < gidx && j > gidx {
                assert(nv[i] == ov[i]);
                assert(nv[j] == ov[j - 1]);
                if i == j - 1 {
                    assert(spec_lex_less(ov[i], nv[gidx]) || gidx < ov.len());
                    if gidx < ov.len() {
                        lemma_lex_transitive(ov[i], nv[gidx], ov[gidx]);
                    }
                } else {
                    assert(spec_lex_less(ov[i], ov[j - 1]));
                }
            } else if i < gidx && j < gidx {
                assert(nv[i] == ov[i]);
                assert(nv[j] == ov[j]);
            } else {
                assert(nv[i] == ov[i - 1]);
                assert(nv[j] == ov[j - 1]);
            }
        }
        assert forall|y: Seq<char>| nv.contains(y) implies (ov.contains(y) || y == x@) by {
            let k = choose|k: int| 0 <= k < nv.len() && nv[k] == y;
            if k < gidx {
                assert(ov[k] == y);
            } else if k > gidx {
                assert(ov[k - 1] == y);
            }
        }
        assert forall|y: Seq<char>| ov.contains(y) || y == x@ implies nv.contains(y) by {
            if y == x@ {
                assert(nv[gidx] == y);
            } else {
                let k = choose|k: int| 0 <= k < ov.len() && ov[k] == y;
                if k < gidx {
                    assert(nv[k] == y);
                } else {
                    assert(nv[k + 1] == y);
                }
            }
        }
    }
}

fn lex_less_str(a: &String, b: &String) -> (r: bool)
    ensures
        r == spec_lex_less(a@, b@),
{
    let ac = str_chars(a.as_str());
    let bc = str_chars(b.as_str());
    crate::order::lex_less_chars(&ac, &bc)
}

impl BlockCatalog {
    /// Record that saying `alias` names block `block`; every other mapping
    /// is kept as it was.
    pub fn add(&mut self, alias: &String, block: &String)
        requires
            old(self).wf(),
        ensures
            final(self).wf(),
            forall|a: Seq<char>, b: Seq<char>|
                final(self).maps(a, b) <==> (old(self).maps(a, b) || (a == alias@ && b
                    == block@)),
    {
        let n = self.entries.len();
        let mut idx: usize = 0;
        let mut found = false;
        while idx < n
            invariant
                idx <= n,
                n == self.entries@.len(),
                !found ==> forall|k: int|
                    0 <= k < idx ==> entry_keys(self.entries@)[k] != alias@,
                found ==> idx < n && entry_keys(self.entries@)[idx as int] == alias@,
            decreases n - idx,
        {
            if string_eq(&self.entries[idx].alias, alias) {
                found = true;
                proof {
                    assert(entry_keys(self.entries@)[idx as int] == alias@);
                }
                break ;
            }
            idx = idx + 1;
        }
        let ghost old_entries = self.entries@;
        if found {
            let e = &mut self.entries[idx].blocks;
            insert_lex_sorted(e, clone_string(block));
            proof {
                let ne = self.entries@;
                assert(ne =~= old_entries.update(
                    idx as int,
                    AliasEntry { alias: old_entries[idx as int].alias, blocks: ne[idx as int].blocks },
                ));
                assert(entry_keys(ne) =~= entry_keys(old_entries));
                assert forall|i: int|
                    0 <= i < ne.len() implies lex_sorted(
                    str_views(#[trigger] ne[i].blocks@),
                ) by {
                    if i != idx {
                        assert(ne[i] == old_entries[i]);
                    }
                }
                assert forall|i: int|
                    0 <= i < ne.len() implies (#[trigger] ne[i].blocks@).len() > 0 by {
                    if i != idx {
                        assert(ne[i] == old_entries[i]);
                    } else {
                        assert(str_views(ne[i].blocks@).contains(block@));
                    }
                }
                lemma_lookup_at(ne, idx as int);
                lemma_lookup_at(old_entries, idx as int);
                assert forall|a: Seq<char>, b: Seq<char>|
                    spec_maps_to(ne, a, b) <==> (spec_maps_to(old_entries, a, b) || (a == alias@
                        && b == block@)) by {
                    if a == alias@ {
                        assert(spec_lookup(ne, a) == str_views(ne[idx as int].blocks@));
                        assert(spec_lookup(old_entries, a) == str_views(
                            old_entries[idx as int].blocks@,
                        ));
                    } else {
                        lemma_lookup_update(old_entries, idx as int, ne[idx as int], a);
                        assert(ne == old_entries.update(idx as int, ne[idx as int]));
                    }
                }
            }
        } else {
            let new_alias = clone_string(alias);
            let mut blocks: Vec<String> = Vec::new();
            blocks.push(clone_string(block));
            proof {
                assert(str_views(blocks@) =~= seq![block@]);
            }
            self.entries.push(AliasEntry { alias: new_alias, blocks });
            insert_sorted(&mut self.sorted_aliases, clone_string(alias));
            proof {
                let ne = self.entries@;
                assert(ne.drop_last() =~= old_entries);
                assert(entry_keys(ne)[n as int] == alias@);
                assert forall|i: int|
                    0 <= i < ne.len() implies lex_sorted(
                    str_views(#[trigger] ne[i].blocks@),
                ) by {
                    if i < n {
                        assert(ne[i] == old_entries[i]);
                    } else {
                        let bs = str_views(ne[i].blocks@);
                        assert(bs.len() == 1);
                    }
                }
                assert forall|i: int|
                    0 <= i < ne.len() implies (#[trigger] ne[i].blocks@).len() > 0 by {
                    if i < n {
                        assert(ne[i] == old_entries[i]);
                    }
                }
                assert forall|x: Seq<char>|
                    entry_keys(ne).contains(x) <==> (entry_keys(old_entries).contains(x) || x
                        == alias@) by {
                    if entry_keys(ne).contains(x) {
                        let k = choose|k: int|
                            0 <= k < entry_keys(ne).len() && entry_keys(ne)[k] == x;
                        if k < n {
                            assert(entry_keys(old_entries)[k] == x);
                            assert(entry_keys(old_entries).contains(x));
                        }
                    }
                    if entry_keys(old_entries).contains(x) {
                        let k = choose|k: int|
                            0 <= k < entry_keys(old_entries).len() && entry_keys(
                                old_entries,
                            )[k] == x;
                        assert(entry_keys(ne)[k] == x);
                        assert(entry_keys(ne).contains(x));
                    }
                    if x == alias@ {
                        assert(entry_keys(ne).contains(x));
                    }
                }
                assert forall|i: int, j: int| 0 <= i < j < ne.len() implies entry_keys(ne)[i]
                    != entry_keys(ne)[j] by {
                    if j < n {
                        assert(entry_keys(ne)[i] == entry_keys(old_entries)[i]);
                        assert(entry_keys(ne)[j] == entry_keys(old_entries)[j]);
                    } else {
                        assert(entry_keys(ne)[i] == entry_keys(old_entries)[i]);
                    }
                }
                assert forall|a: Seq<char>, b: Seq<char>|
                    spec_maps_to(ne, a, b) <==> (spec_maps_to(old_entries, a, b) || (a == alias@
                        && b == block@)) by {
                    if a == alias@ {
                        lemma_lookup_at(ne, n as int);
                        lemma_lookup_absent(old_entries, a);
                        let single = str_views(ne[n as int].blocks@);
                        assert(single =~= seq![block@]);
                        assert(single[0] == block@);
                        if b == block@ {
                            assert(single.contains(b));
                        }
                        if single.contains(b) {
                            let k = choose|k: int| 0 <= k < single.len() && single[k] == b;
                            assert(k == 0);
                            assert(b == block@);
                        }
                    } else {
                        lemma_lookup_push(old_entries, ne[n as int], a);
                        assert(ne == old_entries.push(ne[n as int]));
                    }
                }
            }
        }
    }
}

/// Replacing one entry by another under the same key leaves every other
/// key's lookup unchanged.
pub proof fn lemma_lookup_update(es: Seq<AliasEntry>, idx: int, e: AliasEntry, a: Seq<char>)
    requires
        0 <= idx < es.len(),
        e.alias@ == es[idx].alias@,
        a != e.alias@,
    ensures
        spec_lookup(es.update(idx, e), a) == spec_lookup(es, a),
    decreases es.len(),
{
    let ne = es.update(idx, e);
    if idx == 0 {
        assert(ne[0] == e);
        assert(ne.drop_first() =~= es.drop_first());
    } else {
        assert(ne[0] == es[0]);
        assert(ne.drop_first() =~= es.drop_first().update(idx - 1, e));
        if es[0].alias@ != a {
            lemma_lookup_update(es.drop_first(), idx - 1, e, a);
        }
    }
}

/// Appending an entry leaves every other key's lookup unchanged.
pub proof fn lemma_lookup_push(es: Seq<AliasEntry>, e: AliasEntry, a: Seq<char>)
    requires
        a != e.alias@,
    ensures
        spec_lookup(es.push(e), a) == spec_lookup(es, a),
    decreases es.len(),
{
    let ne = es.push(e);
    if es.len() == 0 {
        assert(ne[0] == e);
        assert(ne.drop_first() =~= Seq::<AliasEntry>::empty());
        assert(spec_lookup(es, a) =~= Seq::<Seq<char>>::empty());
        assert(spec_lookup(ne.drop_first(), a) =~= Seq::<Seq<char>>::empty());
    } else {
        assert(ne[0] == es[0]);
        assert(ne.drop_first() =~= es.drop_first().push(e));
        if es[0].alias@ != a {
            lemma_lookup_push(es.drop_first(), e, a);
        }
    }
}

// ---------------------------------------------------------------------------
// Exact (token-bounded) matching
// ---------------------------------------------------------------------------

/// `alias` occurs in `text` as a whole token: padding both with one space,
/// the padded alias is a substring of the padded text.
pub open spec fn spec_token_present(text: Seq<char>, alias: Seq<char>) -> bool {
    crate::text::spec_contains_seq(
        seq![' '] + text + seq![' '],
        seq![' '] + alias + seq![' '],
    )
}

fn pad_chars(s: &Vec<char>) -> (r: Vec<char>)
    ensures
        r@ == seq![' '] + s@ + seq![' '],
{
    let mut out: Vec<char> = Vec::new();
    out.push(' ');
    let n = s.len();
    let mut i: usize = 0;
    while i < n
        invariant
            i <= n,
            n == s.len(),
            out@ =~= seq![' '] + s@.subrange(0, i as int),
        decreases n - i,
    {
        proof {
            assert(seq![' '] + s@.subrange(0, i + 1) =~= (seq![' '] + s@.subrange(
                0,
                i as int,
            )).push(s@[i as int]));
        }
        out.push(s[i]);
        i = i + 1;
    }
    out.push(' ');
    proof {
        assert(s@.subrange(0, n as int) =~= s@);
        assert(out@ =~= seq![' '] + s@ + seq![' ']);
    }
    out
}

pub fn token_present(text: &Vec<char>, alias: &Vec<char>) -> (r: bool)
    ensures
        r == spec_token_present(text@, alias@),
{
    let pt = pad_chars(text);
    let pa = pad_chars(alias);
    crate::text::contains_seq(&pt, &pa)
}

/// The aliases of `ss`, in order, that occur in `text` as whole tokens.
pub open spec fn spec_exact_aliases(ss: Seq<Seq<char>>, text: Seq<char>) -> Seq<Seq<char>>
    decreases ss.len(),
{
    if ss.len() == 0 {
        Seq::empty()
    } else {
        let rest = spec_exact_aliases(ss.drop_last(), text);
        if spec_token_present(text, ss.last()) {
            rest.push(ss.last())
        } else {
            rest
        }
    }
}

impl BlockCatalog {
    /// The aliases found in the normalized text as whole tokens, in
    /// specificity order.
    pub fn exact_match_aliases(&self, normalized_text: &str) -> (r: Vec<String>)
        ensures
            str_views(r@) == spec_exact_aliases(str_views(self.sorted_aliases@),
                normalized_text@),
    {
        let tc = str_chars(normalized_text);
        let n = self.sorted_aliases.len();
        let mut out: Vec<String> = Vec::new();
        let mut i: usize = 0;
        proof {
            assert(str_views(self.sorted_aliases@).subrange(0, 0) =~= Seq::<Seq<char>>::empty());
        }
        while i < n
            invariant
                i <= n,
                n == self.sorted_aliases@.len(),
                tc@ == normalized_text@,
                str_views(out@) =~= spec_exact_aliases(
                    str_views(self.sorted_aliases@).subrange(0, i as int),
                    normalized_text@,
                ),
            decreases n - i,
        {
            let ghost sv = str_views(self.sorted_aliases@);
            proof {
                assert(sv.subrange(0, i + 1).drop_last() =~= sv.subrange(0, i as int));
                assert(sv.subrange(0, i + 1).last() == sv[i as int]);
            }
            let ac = str_chars(self.sorted_aliases[i].as_str());
            if token_present(&tc, &ac) {
                out.push(clone_string(&self.sorted_aliases[i]));
                proof {
                    assert(str_views(out@) =~= spec_exact_aliases(
                        sv.subrange(0, i + 1),
                        normalized_text@,
                    ));
                }
            }
            i = i + 1;
        }
        proof {
            assert(str_views(self.sorted_aliases@).subrange(0, n as int) =~= str_views(
                self.sorted_aliases@,
            ));
        }
        out
    }
}

// ---------------------------------------------------------------------------
// Fuzzy matching
// ---------------------------------------------------------------------------

/// Concatenation of words with no separator.
pub open spec fn spec_concat(ws: Seq<Seq<char>>) -> Seq<char>
    decreases ws.len(),
{
    if ws.len() == 0 {
        Seq::empty()
    } else {
        let rest = spec_concat(ws.drop_last());
        rest + ws.last()
    }
}

/// The length-window gate: the candidate's length must be within
/// `max(2, 35% of the alias length)` of the alias's length.
pub open spec fn spec_plausible_length(alias: Seq<char>, candidate: Seq<char>) -> bool {
    let diff: nat = if alias.len() >= candidate.len() {
        (alias.len() - candidate.len()) as nat
    } else {
        (candidate.len() - alias.len()) as nat
    };
    let lim: nat = alias.len() * 35 / 100;
    diff <= if lim >= 2 {
        lim
    } else {
        2
    }
}

/// Whether a single candidate passes all fuzzy gates against an alias: it
/// is nonempty, starts with the alias's first character, fits the length
/// window, and is similar enough.
pub open spec fn spec_candidate_hit(alias: Seq<char>, candidate: Seq<char>, thr: u32) -> bool {
    &&& candidate.len() > 0
    &&& alias.len() > 0
    &&& alias[0] == candidate[0]
    &&& spec_plausible_length(alias, candidate)
    &&& crate::lev::spec_similar_enough(alias, candidate, thr)
}

/// Whether the alias is fuzzy-matched against the words of the text: some
/// n-gram with the alias's word count hits, or, for single-word aliases,
/// some run-together pair or triple of adjacent words hits. Aliases shorter
/// than five characters are never fuzzy-matched.
pub open spec fn spec_fuzzy_hit_words(words: Seq<Seq<char>>, alias: Seq<char>, thr: u32) -> bool {
    let w = spec_words(alias).len() as int;
    &&& alias.len() >= 5
    &&& ((exists|i: int|
        0 <= i && i + w <= words.len() && spec_candidate_hit(
            alias,
            crate::text::spec_join(#[trigger] words.subrange(i, i + w)),
            thr,
        )) || (w == 1 && exists|i: int, n: int|
        (n == 2 || n == 3) && 0 <= i && i + n <= words.len() && spec_candidate_hit(
            alias,
            spec_concat(#[trigger] words.subrange(i, i + n)),
            thr,
        )))
}

proof fn lemma_concat_push(ws: Seq<Seq<char>>, w: Seq<char>)
    ensures
        spec_concat(ws.push(w)) == spec_concat(ws) + w,
{
    assert(ws.push(w).drop_last() =~= ws);
    assert(ws.push(w).last() == w);
}

/// Join the words `words[i .. i+n]`, with or without single spaces between
/// them.
fn join_window(words: &Vec<Vec<char>>, i: usize, n: usize, spaced: bool) -> (r: Vec<char>)
    requires
        i + n <= words@.len(),
    ensures
        spaced ==> r@ == crate::text::spec_join(
            crate::text::seq_views(words@).subrange(i as int, i + n),
        ),
        !spaced ==> r@ == spec_concat(
            crate::text::seq_views(words@).subrange(i as int, i + n),
        ),
{
    let ghost wv = crate::text::seq_views(words@);
    let total = words.len();
    let mut out: Vec<char> = Vec::new();
    let mut k: usize = 0;
    proof {
        assert(wv.subrange(i as int, i as int) =~= Seq::<Seq<char>>::empty());
    }
    while k < n
        invariant
            k <= n,
            i + n <= words@.len(),
            total == words@.len(),
            wv == crate::text::seq_views(words@),
            spaced ==> out@ == crate::text::spec_join(wv.subrange(i as int, i + k)),
            !spaced ==> out@ == spec_concat(wv.subrange(i as int, i + k)),
        decreases n - k,
    {
        proof {
            assert(wv.subrange(i as int, i + k + 1) =~= wv.subrange(i as int, i + k).push(
                wv[i + k],
            ));
            crate::text::lemma_join_push(wv.subrange(i as int, i + k), wv[i + k]);
            lemma_concat_push(wv.subrange(i as int, i + k), wv[i + k]);
        }
        if spaced && k > 0 {
            out.push(' ');
        }
        let w = &words[i + k];
        let m = w.len();
        let ghost base = out@;
        let mut j: usize = 0;
        while j < m
            invariant
                j <= m,
                m == w@.len(),
                w == words@[i + k],
                out@ =~= base + w@.subrange(0, j as int),
            decreases m - j,
        {
            proof {
                assert(base + w@.subrange(0, j + 1) =~= (base + w@.subrange(0, j as int)).push(
                    w@[j as int],
                ));
            }
            out.push(w[j]);
            j = j + 1;
        }
        proof {
            assert(w@.subrange(0, m as int) =~= w@);
            if k > 0 || !spaced {
                assert(out@ =~= base + wv[i + k]);
            }
        }
        k = k + 1;
    }
    out
}

fn candidate_hit(alias: &Vec<char>, candidate: &Vec<char>, thr: u32) -> (r: bool)
    ensures
        r == spec_candidate_hit(alias@, candidate@, thr),
{
    if candidate.len() == 0 || alias.len() == 0 {
        return false;
    }
    if alias[0] != candidate[0] {
        return false;
    }
    let al = alias.len();
    let cl = candidate.len();
    let diff = if al >= cl {
        al - cl
    } else {
        cl - al
    };
    let lim: u128 = (al as u128) * 35 / 100;
    let lim2: u128 = if lim >= 2 {
        lim
    } else {
        2
    };
    if (diff as u128) > lim2 {
        return false;
    }
    crate::lev::similar_enough(alias, candidate, thr)
}

/// Whether the alias is fuzzy-matched against the words of the text; see
/// `spec_fuzzy_hit_words`.
pub fn alias_fuzzy_hit(words: &Vec<Vec<char>>, alias: &Vec<char>, thr: u32) -> (r: bool)
    ensures
        r == spec_fuzzy_hit_words(crate::text::seq_views(words@), alias@, thr),
{
    let ghost wv = crate::text::seq_views(words@);
    let n5 = alias.len();
    if n5 < 5 {
        return false;
    }
    let w = crate::order::word_count(alias);
    let wn = words.len();
    if w == 0 {
        proof {
            let ghost aw = spec_words(alias@).len() as int;
            if spec_fuzzy_hit_words(wv, alias@, thr) {
                let i = choose|i: int|
                    0 <= i && i + aw <= wv.len() && spec_candidate_hit(
                        alias@,
                        crate::text::spec_join(#[trigger] wv.subrange(i, i + aw)),
                        thr,
                    );
                assert(wv.subrange(i, i) =~= Seq::<Seq<char>>::empty());
                assert(!spec_candidate_hit(
                    alias@,
                    crate::text::spec_join(wv.subrange(i, i + aw)),
                    thr,
                ));
            }
        }
        return false;
    }
    if w <= wn {
        let last = wn - w;
        let mut i: usize = 0;
        while i <= last
            invariant
                i <= last + 1,
                last == wn - w,
                w <= wn,
                wn == words@.len(),
                wv == crate::text::seq_views(words@),
                w == spec_words(alias@).len(),
                forall|k: int|
                    0 <= k < i ==> !spec_candidate_hit(
                        alias@,
                        crate::text::spec_join(#[trigger] wv.subrange(k, k + w)),
                        thr,
                    ),
            decreases last + 1 - i,
        {
            let cand = join_window(words, i, w, true);
            if candidate_hit(alias, &cand, thr) {
                return true;
            }
            i = i + 1;
        }
    }
    if w == 1 {
        let mut n: usize = 2;
        while n <= 3
            invariant
                2 <= n <= 4,
                wn == words@.len(),
                wv == crate::text::seq_views(words@),
                w == spec_words(alias@).len(),
                forall|k: int, m: int|
                    (m == 2 || m == 3) && m < n && 0 <= k && k + m <= wn
                        ==> !spec_candidate_hit(
                        alias@,
                        spec_concat(#[trigger] wv.subrange(k, k + m)),
                        thr,
                    ),
            decreases 4 - n,
        {
            if n <= wn {
                let lastn = wn - n;
                let mut i: usize = 0;
                while i <= lastn
                    invariant
                        i <= lastn + 1,
                        lastn == wn - n,
                        n <= wn,
                        2 <= n <= 3,
                        wn == words@.len(),
                        wv == crate::text::seq_views(words@),
                        w == spec_words(alias@).len(),
                        forall|k: int, m: int|
                            (m == 2 || m == 3) && m < n && 0 <= k && k + m <= wn
                                ==> !spec_candidate_hit(
                                alias@,
                                spec_concat(#[trigger] wv.subrange(k, k + m)),
                                thr,
                            ),
                        forall|k: int|
                            0 <= k < i ==> !spec_candidate_hit(
                                alias@,
                                spec_concat(#[trigger] wv.subrange(k, k + n)),
                                thr,
                            ),
                    decreases lastn + 1 - i,
                {
                    let cand = join_window(words, i, n, false);
                    if candidate_hit(alias, &cand, thr) {
                        return true;
                    }
                    i = i + 1;
                }
            }
            n = n + 1;
        }
    }
    proof {
        assert forall|k: int|
            0 <= k && k + spec_words(alias@).len() <= wv.len() implies !spec_candidate_hit(
            alias@,
            crate::text::spec_join(#[trigger] wv.subrange(k, k + spec_words(alias@).len() as int)),
            thr,
        ) by {}
    }
    false
}

// ---------------------------------------------------------------------------
// Resolving text to identifiers
// ---------------------------------------------------------------------------

/// Whether an alias is matched by the normalized text: found as a whole
/// token, or, with a positive threshold, fuzzy-matched.
pub open spec fn spec_alias_matched(text: Seq<char>, alias: Seq<char>, thr: u32) -> bool {
    spec_token_present(text, alias) || (thr > 0 && spec_fuzzy_hit_words(
        spec_words(text),
        alias,
        thr,
    ))
}

/// Append the identifiers of `ids` that are not yet in `acc`, in order.
pub open spec fn spec_dedup_append(
    acc: (Seq<Seq<char>>, Set<Seq<char>>),
    ids: Seq<Seq<char>>,
) -> (Seq<Seq<char>>, Set<Seq<char>>)
    decreases ids.len(),
{
    if ids.len() == 0 {
        acc
    } else {
        let first = ids[0];
        let next: (Seq<Seq<char>>, Set<Seq<char>>) = if acc.1.contains(first) {
            acc
        } else {
            (acc.0.push(first), acc.1.insert(first))
        };
        spec_dedup_append(next, ids.drop_first())
    }
}

/// Walk the sorted aliases from position `k`, expanding each matched alias
/// to its identifiers and deduplicating.
pub open spec fn spec_collect(
    es: Seq<AliasEntry>,
    sorted: Seq<Seq<char>>,
    text: Seq<char>,
    thr: u32,
    k: int,
    acc: (Seq<Seq<char>>, Set<Seq<char>>),
) -> (Seq<Seq<char>>, Set<Seq<char>>)
    decreases sorted.len() - k,
{
    if k < 0 || k >= sorted.len() {
        acc
    } else {
        let next: (Seq<Seq<char>>, Set<Seq<char>>) = if spec_alias_matched(
            text,
            sorted[k],
            thr,
        ) {
            spec_dedup_append(acc, spec_lookup(es, sorted[k]))
        } else {
            acc
        };
        spec_collect(es, sorted, text, thr, k + 1, next)
    }
}

/// The ordered identifiers that the catalog resolves `text` to: normalize,
/// match aliases exactly and (with a positive threshold) fuzzily, then
/// expand matched aliases in specificity order, deduplicating.
pub open spec fn spec_match_blocks(cat: BlockCatalog, text: Seq<char>, thr: u32) -> Seq<
    Seq<char>,
> {
    let norm = spec_normalize(text);
    if norm.len() == 0 {
        Seq::empty()
    } else {
        spec_collect(
            cat.entries@,
            str_views(cat.sorted_aliases@),
            norm,
            thr,
            0,
            (Seq::empty(), Set::empty()),
        ).0
    }
}

pub fn vec_contains_string(v: &Vec<String>, x: &String) -> (r: bool)
    ensures
        r == str_views(v@).contains(x@),
{
    let n = v.len();
    let mut i: usize = 0;
    while i < n
        invariant
            i <= n,
            n == v@.len(),
            forall|k: int| 0 <= k < i ==> str_views(v@)[k] != x@,
        decreases n - i,
    {
        if string_eq(&v[i], x) {
            proof {
                assert(str_views(v@)[i as int] == x@);
            }
            return true;
        }
        i = i + 1;
    }
    proof {
        if str_views(v@).contains(x@) {
            let k = choose|k: int| 0 <= k < str_views(v@).len() && str_views(v@)[k] == x@;
            assert(false);
        }
    }
    false
}

impl BlockCatalog {
    /// The index of the entry holding `alias`, if any.
    fn find_entry(&self, alias: &String) -> (r: Option<usize>)
        ensures
            match r {
                Some(i) => i < self.entries@.len() && entry_keys(self.entries@)[i as int]
                    == alias@,
                None => forall|k: int|
                    0 <= k < self.entries@.len() ==> entry_keys(self.entries@)[k] != alias@,
            },
    {
        let n = self.entries.len();
        let mut i: usize = 0;
        while i < n
            invariant
                i <= n,
                n == self.entries@.len(),
                forall|k: int| 0 <= k < i ==> entry_keys(self.entries@)[k] != alias@,
            decreases n - i,
        {
            if string_eq(&self.entries[i].alias, alias) {
                proof {
                    assert(entry_keys(self.entries@)[i as int] == alias@);
                }
                return Some(i);
            }
            i = i + 1;
        }
        None
    }

    /// Resolve free text to the ordered identifiers it names; see
    /// `spec_match_blocks`. The threshold is in permille: similarity of at
    /// least `fuzzy_threshold_permille / 1000` fuzzy-matches, and zero
    /// disables fuzzy matching.
    pub fn match_blocks(&self, text: &str, fuzzy_threshold_permille: u32) -> (r: Vec<String>)
        requires
            self.wf(),
        ensures
            str_views(r@) == spec_match_blocks(*self, text@, fuzzy_threshold_permille),
    {
        let thr = fuzzy_threshold_permille;
        let tc = str_chars(text);
        let normalized = crate::text::normalize_chars(&tc);
        if normalized.len() == 0 {
            let out: Vec<String> = Vec::new();
            proof {
                assert(str_views(out@) =~= Seq::<Seq<char>>::empty());
            }
            return out;
        }
        let words = crate::text::split_words(&normalized);
        let ghost norm = spec_normalize(text@);
        let ghost sorted = str_views(self.sorted_aliases@);
        let mut out: Vec<String> = Vec::new();
        let ghost seen = Set::<Seq<char>>::empty();
        let n = self.sorted_aliases.len();
        let mut k: usize = 0;
        proof {
            assert(str_views(out@) =~= Seq::<Seq<char>>::empty());
        }
        while k < n
            invariant
                k <= n,
                n == self.sorted_aliases@.len(),
                self.wf(),
                normalized@ == norm,
                crate::text::seq_views(words@) == spec_words(norm),
                sorted == str_views(self.sorted_aliases@),
                norm.len() > 0,
                forall|x: Seq<char>| seen.contains(x) <==> str_views(out@).contains(x),
                spec_collect(
                    self.entries@,
                    sorted,
                    norm,
                    thr,
                    0,
                    (Seq::empty(), Set::empty()),
                ) == spec_collect(
                    self.entries@,
                    sorted,
                    norm,
                    thr,
                    k as int,
                    (str_views(out@), seen),
                ),
            decreases n - k,
        {
            let alias = &self.sorted_aliases[k];
            let ac = str_chars(alias.as_str());
            let matched = if token_present(&normalized, &ac) {
                true
            } else if thr > 0 {
                alias_fuzzy_hit(&words, &ac, thr)
            } else {
                false
            };
            proof {
                assert(matched == spec_alias_matched(norm, sorted[k as int], thr));
            }
            let ghost acc0 = (str_views(out@), seen);
            if matched {
                match self.find_entry(alias) {
                    Some(ei) => {
                        proof {
                            lemma_lookup_at(self.entries@, ei as int);
                        }
                        let ids = &self.entries[ei].blocks;
                        let m = ids.len();
                        let mut j: usize = 0;
                        proof {
                            assert(str_views(ids@).skip(0) =~= str_views(ids@));
                        }
                        while j < m
                            invariant
                                j <= m,
                                m == ids@.len(),
                                ei < self.entries@.len(),
                                ids == self.entries@[ei as int].blocks,
                                forall|x: Seq<char>|
                                    seen.contains(x) <==> str_views(out@).contains(x),
                                spec_dedup_append(acc0, str_views(ids@)) == spec_dedup_append(
                                    (str_views(out@), seen),
                                    str_views(ids@).skip(j as int),
                                ),
                            decreases m - j,
                        {
                            proof {
                                assert(str_views(ids@).skip(j as int)[0] == str_views(
                                    ids@,
                                )[j as int]);
                                assert(str_views(ids@).skip(j as int).drop_first() =~= str_views(
                                    ids@,
                                ).skip(j + 1));
                            }
                            let id = &ids[j];
                            if !vec_contains_string(&out, id) {
                                let ghost old_out = str_views(out@);
                                out.push(clone_string(id));
                                proof {
                                    seen = seen.insert(id@);
                                    assert(str_views(out@) =~= old_out.push(id@));
                                    assert forall|x: Seq<char>|
                                        seen.contains(x) <==> str_views(out@).contains(x) by {
                                        if x == id@ {
                                            assert(str_views(out@)[old_out.len() as int] == id@);
                                        } else {
                                            if str_views(out@).contains(x) {
                                                let l = choose|l: int|
                                                    0 <= l < str_views(out@).len() && str_views(
                                                        out@,
                                                    )[l] == x;
                                                assert(old_out[l] == x);
                                            }
                                            if old_out.contains(x) {
                                                let l = choose|l: int|
                                                    0 <= l < old_out.len() && old_out[l] == x;
                                                assert(str_views(out@)[l] == x);
                                            }
                                        }
                                    }
                                }
                            }
                            j = j + 1;
                        }
                        proof {
                            assert(str_views(ids@).skip(m as int) =~= Seq::<Seq<char>>::empty());
                            assert(spec_dedup_append(acc0, str_views(ids@)) == (
                                str_views(out@),
                                seen,
                            ));
                        }
                    },
                    None => {
                        proof {
                            assert(sorted.contains(sorted[k as int]));
                            assert(entry_keys(self.entries@).contains(sorted[k as int]));
                            let l = choose|l: int|
                                0 <= l < entry_keys(self.entries@).len() && entry_keys(
                                    self.entries@,
                                )[l] == sorted[k as int];
                            assert(false);
                        }
                    },
                }
            }
            k = k + 1;
        }
        proof {
            assert(spec_collect(
                self.entries@,
                sorted,
                norm,
                thr,
                n as int,
                (str_views(out@), seen),
            ) == (str_views(out@), seen));
        }
        out
    }
}

// ---------------------------------------------------------------------------
// Building the catalog
// ---------------------------------------------------------------------------

/// One source-table row contributes alias `a` for identifier `b`: the key
/// names block `b`, and some localized name normalizes to the non-empty
/// phrase `a`.
pub open spec fn spec_pair_gives_src(p: (String, Vec<String>), a: Seq<char>, b: Seq<char>) -> bool {
    &&& spec_block_id_from_key(p.0@) == Some(b)
    &&& a.len() > 0
    &&& exists|j: int| 0 <= j < p.1@.len() && spec_normalize((#[trigger] p.1@[j])@) == a
}

pub open spec fn spec_source_gives(
    src: Seq<(String, Vec<String>)>,
    a: Seq<char>,
    b: Seq<char>,
) -> bool {
    exists|i: int| 0 <= i < src.len() && spec_pair_gives_src(#[trigger] src[i], a, b)
}

/// One extra-alias row contributes alias `a` for identifier `b`.
pub open spec fn spec_pair_gives_extra(
    p: (String, Vec<String>),
    a: Seq<char>,
    b: Seq<char>,
) -> bool {
    &&& b == spec_normalize_target(p.0@)
    &&& a.len() > 0
    &&& exists|j: int| 0 <= j < p.1@.len() && spec_normalize((#[trigger] p.1@[j])@) == a
}

pub open spec fn spec_extra_gives(
    extra: Seq<(String, Vec<String>)>,
    a: Seq<char>,
    b: Seq<char>,
) -> bool {
    exists|i: int| 0 <= i < extra.len() && spec_pair_gives_extra(#[trigger] extra[i], a, b)
}

/// Identifier `b` is known from the source table.
pub open spec fn spec_known_id(src: Seq<(String, Vec<String>)>, b: Seq<char>) -> bool {
    exists|i: int|
        0 <= i < src.len() && spec_block_id_from_key((#[trigger] src[i]).0@) == Some(b)
}

/// One shared-alias target names identifier `b`: globs are expanded against
/// the known identifiers, anything else is taken literally.
pub open spec fn spec_target_gives(
    src: Seq<(String, Vec<String>)>,
    t: Seq<char>,
    b: Seq<char>,
) -> bool {
    let nt = spec_normalize_target(t);
    if has_glob_char(nt) {
        glob_pattern_ok(nt) && spec_known_id(src, b) && glob_matches(nt, b)
    } else {
        b == nt
    }
}

pub open spec fn spec_pair_gives_shared(
    src: Seq<(String, Vec<String>)>,
    p: (String, Vec<String>),
    a: Seq<char>,
    b: Seq<char>,
) -> bool {
    &&& a == spec_normalize(p.0@)
    &&& a.len() > 0
    &&& exists|j: int| 0 <= j < p.1@.len() && spec_target_gives(src, (#[trigger] p.1@[j])@, b)
}

pub open spec fn spec_shared_gives(
    src: Seq<(String, Vec<String>)>,
    shared: Seq<(String, Vec<String>)>,
    a: Seq<char>,
    b: Seq<char>,
) -> bool {
    exists|i: int|
        0 <= i < shared.len() && spec_pair_gives_shared(src, #[trigger] shared[i], a, b)
}

/// The whole build relation: the catalog maps `a` to `b` exactly when one
/// of the three sources says so.
pub open spec fn spec_build_gives(
    src: Seq<(String, Vec<String>)>,
    extra: Seq<(String, Vec<String>)>,
    shared: Seq<(String, Vec<String>)>,
    a: Seq<char>,
    b: Seq<char>,
) -> bool {
    spec_source_gives(src, a, b) || spec_extra_gives(extra, a, b) || spec_shared_gives(
        src,
        shared,
        a,
        b,
    )
}

proof fn lemma_src_step(src: Seq<(String, Vec<String>)>, i: int, a: Seq<char>, b: Seq<char>)
    requires
        0 <= i < src.len(),
    ensures
        spec_source_gives(src.subrange(0, i + 1), a, b) <==> (spec_source_gives(
            src.subrange(0, i),
            a,
            b,
        ) || spec_pair_gives_src(src[i], a, b)),
{
    let pre = src.subrange(0, i);
    let cur = src.subrange(0, i + 1);
    if spec_source_gives(cur, a, b) {
        let k = choose|k: int| 0 <= k < cur.len() && spec_pair_gives_src(cur[k], a, b);
        if k < i {
            assert(pre[k] == cur[k]);
            assert(spec_source_gives(pre, a, b));
        } else {
            assert(cur[k] == src[i]);
        }
    }
    if spec_source_gives(pre, a, b) {
        let k = choose|k: int| 0 <= k < pre.len() && spec_pair_gives_src(pre[k], a, b);
        assert(cur[k] == pre[k]);
        assert(spec_source_gives(cur, a, b));
    }
    if spec_pair_gives_src(src[i], a, b) {
        assert(cur[i] == src[i]);
        assert(spec_source_gives(cur, a, b));
    }
}

proof fn lemma_extra_step(extra: Seq<(String, Vec<String>)>, i: int, a: Seq<char>, b: Seq<char>)
    requires
        0 <= i < extra.len(),
    ensures
        spec_extra_gives(extra.subrange(0, i + 1), a, b) <==> (spec_extra_gives(
            extra.subrange(0, i),
            a,
            b,
        ) || spec_pair_gives_extra(extra[i], a, b)),
{
    let pre = extra.subrange(0, i);
    let cur = extra.subrange(0, i + 1);
    if spec_extra_gives(cur, a, b) {
        let k = choose|k: int| 0 <= k < cur.len() && spec_pair_gives_extra(cur[k], a, b);
        if k < i {
            assert(pre[k] == cur[k]);
            assert(spec_extra_gives(pre, a, b));
        } else {
            assert(cur[k] == extra[i]);
        }
    }
    if spec_extra_gives(pre, a, b) {
        let k = choose|k: int| 0 <= k < pre.len() && spec_pair_gives_extra(pre[k], a, b);
        assert(cur[k] == pre[k]);
        assert(spec_extra_gives(cur, a, b));
    }
    if spec_pair_gives_extra(extra[i], a, b) {
        assert(cur[i] == extra[i]);
        assert(spec_extra_gives(cur, a, b));
    }
}

proof fn lemma_shared_step(
    src: Seq<(String, Vec<String>)>,
    shared: Seq<(String, Vec<String>)>,
    i: int,
    a: Seq<char>,
    b: Seq<char>,
)
    requires
        0 <= i < shared.len(),
    ensures
        spec_shared_gives(src, shared.subrange(0, i + 1), a, b) <==> (spec_shared_gives(
            src,
            shared.subrange(0, i),
            a,
            b,
        ) || spec_pair_gives_shared(src, shared[i], a, b)),
{
    let pre = shared.subrange(0, i);
    let cur = shared.subrange(0, i + 1);
    if spec_shared_gives(src, cur, a, b) {
        let k = choose|k: int| 0 <= k < cur.len() && spec_pair_gives_shared(src, cur[k], a, b);
        if k < i {
            assert(pre[k] == cur[k]);
            assert(spec_shared_gives(src, pre, a, b));
        } else {
            assert(cur[k] == shared[i]);
        }
    }
    if spec_shared_gives(src, pre, a, b) {
        let k = choose|k: int| 0 <= k < pre.len() && spec_pair_gives_shared(src, pre[k], a, b);
        assert(cur[k] == pre[k]);
        assert(spec_shared_gives(src, cur, a, b));
    }
    if spec_pair_gives_shared(src, shared[i], a, b) {
        assert(cur[i] == shared[i]);
        assert(spec_shared_gives(src, cur, a, b));
    }
}

proof fn lemma_known_step(src: Seq<(String, Vec<String>)>, i: int, b: Seq<char>)
    requires
        0 <= i < src.len(),
    ensures
        spec_known_id(src.subrange(0, i + 1), b) <==> (spec_known_id(src.subrange(0, i), b)
            || spec_block_id_from_key(src[i].0@) == Some(b)),
{
    let pre = src.subrange(0, i);
    let cur = src.subrange(0, i + 1);
    if spec_known_id(cur, b) {
        let k = choose|k: int|
            0 <= k < cur.len() && spec_block_id_from_key(cur[k].0@) == Some(b);
        if k < i {
            assert(pre[k] == cur[k]);
            assert(spec_known_id(pre, b));
        } else {
            assert(cur[k] == src[i]);
        }
    }
    if spec_known_id(pre, b) {
        let k = choose|k: int|
            0 <= k < pre.len() && spec_block_id_from_key(pre[k].0@) == Some(b);
        assert(cur[k] == pre[k]);
        assert(spec_known_id(cur, b));
    }
    if spec_block_id_from_key(src[i].0@) == Some(b) {
        assert(cur[i] == src[i]);
        assert(spec_known_id(cur, b));
    }
}

impl BlockCatalog {
    /// Build the phrase-to-identifier catalog from the static localized
    /// name table plus the two configuration tables; see `spec_build_gives`
    /// for exactly which mappings result.
    pub fn build(
        source_table: &Vec<(String, Vec<String>)>,
        extra_aliases: &Vec<(String, Vec<String>)>,
        shared_aliases: &Vec<(String, Vec<String>)>,
    ) -> (r: BlockCatalog)
        ensures
            r.wf(),
            forall|a: Seq<char>, b: Seq<char>|
                r.maps(a, b) <==> spec_build_gives(
                    source_table@,
                    extra_aliases@,
                    shared_aliases@,
                    a,
                    b,
                ),
    {
        let ghost src = source_table@;
        let ghost extra = extra_aliases@;
        let ghost shared = shared_aliases@;
        let mut cat = BlockCatalog::new();
        let mut known: Vec<String> = Vec::new();

        // Source table: localized names become aliases for the keyed block,
        // and every valid key is remembered as a known identifier.
        let n1 = source_table.len();
        let mut i: usize = 0;
        proof {
            assert forall|a: Seq<char>, b: Seq<char>|
                !spec_source_gives(src.subrange(0, 0), a, b) by {}
            assert forall|b: Seq<char>| !spec_known_id(src.subrange(0, 0), b) by {}
        }
        while i < n1
            invariant
                i <= n1,
                n1 == src.len(),
                src == source_table@,
                cat.wf(),
                forall|a: Seq<char>, b: Seq<char>|
                    cat.maps(a, b) <==> spec_source_gives(src.subrange(0, i as int), a, b),
                forall|b: Seq<char>|
                    str_views(known@).contains(b) <==> spec_known_id(
                        src.subrange(0, i as int),
                        b,
                    ),
            decreases n1 - i,
        {
            let pair = &source_table[i];
            let ghost gp = src[i as int];
            let ghost head_known = str_views(known@);
            proof {
                assert(forall|b: Seq<char>|
                    head_known.contains(b) <==> spec_known_id(src.subrange(0, i as int), b));
            }
            match block_id_from_language_key(pair.0.as_str()) {
                Some(id) => {
                    let names = &pair.1;
                    let m = names.len();
                    let mut j: usize = 0;
                    while j < m
                        invariant
                            j <= m,
                            m == gp.1@.len(),
                            i < n1,
                            n1 == src.len(),
                            src == source_table@,
                            gp == src[i as int],
                            spec_block_id_from_key(gp.0@) == Some(id@),
                            names == gp.1,
                            cat.wf(),
                            forall|a: Seq<char>, b: Seq<char>|
                                cat.maps(a, b) <==> (spec_source_gives(
                                    src.subrange(0, i as int),
                                    a,
                                    b,
                                ) || (b == id@ && a.len() > 0 && exists|l: int|
                                    0 <= l < j && spec_normalize(
                                        (#[trigger] gp.1@[l])@,
                                    ) == a)),
                        decreases m - j,
                    {
                        let n = crate::text::normalize_text(names[j].as_str());
                        if !n.as_str().is_empty() {
                            cat.add(&n, &id);
                        }
                        proof {
                            assert forall|a: Seq<char>, b: Seq<char>|
                                cat.maps(a, b) <==> (spec_source_gives(
                                    src.subrange(0, i as int),
                                    a,
                                    b,
                                ) || (b == id@ && a.len() > 0 && exists|l: int|
                                    0 <= l < j + 1 && spec_normalize(
                                        (#[trigger] gp.1@[l])@,
                                    ) == a)) by {
                                if b == id@ && a.len() > 0 && exists|l: int|
                                    0 <= l < j + 1 && spec_normalize((#[trigger] gp.1@[l])@)
                                        == a {
                                    let l = choose|l: int|
                                        0 <= l < j + 1 && spec_normalize(
                                            (#[trigger] gp.1@[l])@,
                                        ) == a;
                                    if l == j {
                                        assert(a == n@);
                                    }
                                }
                            }
                        }
                        j = j + 1;
                    }
                    let ghost old_known = str_views(known@);
                    proof {
                        assert(old_known == head_known);
                    }
                    known.push(clone_string(&id));
                    proof {
                        assert forall|b: Seq<char>|
                            str_views(known@).contains(b) <==> (old_known.contains(b) || b
                                == id@) by {
                            if str_views(known@).contains(b) {
                                let l = choose|l: int|
                                    0 <= l < str_views(known@).len() && str_views(known@)[l]
                                        == b;
                                if l < old_known.len() {
                                    assert(old_known[l] == b);
                                }
                            }
                            if old_known.contains(b) {
                                let l = choose|l: int|
                                    0 <= l < old_known.len() && old_known[l] == b;
                                assert(str_views(known@)[l] == b);
                            }
                            if b == id@ {
                                assert(str_views(known@)[old_known.len() as int] == b);
                            }
                        }
                        assert forall|a: Seq<char>, b: Seq<char>|
                            cat.maps(a, b) <==> spec_source_gives(
                                src.subrange(0, i + 1),
                                a,
                                b,
                            ) by {
                            lemma_src_step(src, i as int, a, b);
                        }
                        assert forall|b: Seq<char>|
                            str_views(known@).contains(b) <==> spec_known_id(
                                src.subrange(0, i + 1),
                                b,
                            ) by {
                            lemma_known_step(src, i as int, b);
                            assert(head_known.contains(b) <==> spec_known_id(
                                src.subrange(0, i as int),
                                b,
                            ));
                        }
                    }
                },
                None => {
                    proof {
                        assert forall|a: Seq<char>, b: Seq<char>|
                            cat.maps(a, b) <==> spec_source_gives(
                                src.subrange(0, i + 1),
                                a,
                                b,
                            ) by {
                            lemma_src_step(src, i as int, a, b);
                        }
                        assert forall|b: Seq<char>|
                            str_views(known@).contains(b) <==> spec_known_id(
                                src.subrange(0, i + 1),
                                b,
                            ) by {
                            lemma_known_step(src, i as int, b);
                        }
                    }
                },
            }
            i = i + 1;
        }
        proof {
            assert(src.subrange(0, n1 as int) =~= src);
        }

        // Extra aliases: configured phrases for a directly named target.
        let n2 = extra_aliases.len();
        let mut i2: usize = 0;
        proof {
            assert forall|a: Seq<char>, b: Seq<char>|
                !spec_extra_gives(extra.subrange(0, 0), a, b) by {}
        }
        while i2 < n2
            invariant
                i2 <= n2,
                n2 == extra.len(),
                extra == extra_aliases@,
                src == source_table@,
                cat.wf(),
                forall|a: Seq<char>, b: Seq<char>|
                    cat.maps(a, b) <==> (spec_source_gives(src, a, b) || spec_extra_gives(
                        extra.subrange(0, i2 as int),
                        a,
                        b,
                    )),
            decreases n2 - i2,
        {
            let pair = &extra_aliases[i2];
            let ghost gp = extra[i2 as int];
            let nid = normalize_block_target(pair.0.as_str());
            let names = &pair.1;
            let m = names.len();
            let mut j: usize = 0;
            while j < m
                invariant
                    j <= m,
                    m == gp.1@.len(),
                    i2 < n2,
                    n2 == extra.len(),
                    extra == extra_aliases@,
                    src == source_table@,
                    gp == extra[i2 as int],
                    nid@ == spec_normalize_target(gp.0@),
                    names == gp.1,
                    cat.wf(),
                    forall|a: Seq<char>, b: Seq<char>|
                        cat.maps(a, b) <==> (spec_source_gives(src, a, b) || spec_extra_gives(
                            extra.subrange(0, i2 as int),
                            a,
                            b,
                        ) || (b == nid@ && a.len() > 0 && exists|l: int|
                            0 <= l < j && spec_normalize((#[trigger] gp.1@[l])@) == a)),
                decreases m - j,
            {
                let n = crate::text::normalize_text(names[j].as_str());
                if !n.as_str().is_empty() {
                    cat.add(&n, &nid);
                }
                proof {
                    assert forall|a: Seq<char>, b: Seq<char>|
                        cat.maps(a, b) <==> (spec_source_gives(src, a, b) || spec_extra_gives(
                            extra.subrange(0, i2 as int),
                            a,
                            b,
                        ) || (b == nid@ && a.len() > 0 && exists|l: int|
                            0 <= l < j + 1 && spec_normalize((#[trigger] gp.1@[l])@)
                                == a)) by {
                        if b == nid@ && a.len() > 0 && exists|l: int|
                            0 <= l < j + 1 && spec_normalize((#[trigger] gp.1@[l])@) == a {
                            let l = choose|l: int|
                                0 <= l < j + 1 && spec_normalize((#[trigger] gp.1@[l])@)
                                    == a;
                            if l == j {
                                assert(a == n@);
                            }
                        }
                    }
                }
                j = j + 1;
            }
            proof {
                assert forall|a: Seq<char>, b: Seq<char>|
                    cat.maps(a, b) <==> (spec_source_gives(src, a, b) || spec_extra_gives(
                        extra.subrange(0, i2 + 1),
                        a,
                        b,
                    )) by {
                    lemma_extra_step(extra, i2 as int, a, b);
                }
            }
            i2 = i2 + 1;
        }
        proof {
            assert(extra.subrange(0, n2 as int) =~= extra);
        }

        // Shared aliases: one phrase for several targets, glob patterns
        // expanded against the known identifiers.
        let n3 = shared_aliases.len();
        let mut i3: usize = 0;
        proof {
            assert forall|a: Seq<char>, b: Seq<char>|
                !spec_shared_gives(src, shared.subrange(0, 0), a, b) by {}
        }
        while i3 < n3
            invariant
                i3 <= n3,
                n3 == shared.len(),
                shared == shared_aliases@,
                extra == extra_aliases@,
                src == source_table@,
                cat.wf(),
                forall|b: Seq<char>|
                    str_views(known@).contains(b) <==> spec_known_id(src, b),
                forall|a: Seq<char>, b: Seq<char>|
                    cat.maps(a, b) <==> (spec_source_gives(src, a, b) || spec_extra_gives(
                        extra,
                        a,
                        b,
                    ) || spec_shared_gives(src, shared.subrange(0, i3 as int), a, b)),
            decreases n3 - i3,
        {
            let pair = &shared_aliases[i3];
            let ghost gp = shared[i3 as int];
            let na = crate::text::normalize_text(pair.0.as_str());
            if na.as_str().is_empty() {
                proof {
                    assert forall|a: Seq<char>, b: Seq<char>|
                        cat.maps(a, b) <==> (spec_source_gives(src, a, b) || spec_extra_gives(
                            extra,
                            a,
                            b,
                        ) || spec_shared_gives(src, shared.subrange(0, i3 + 1), a, b)) by {
                        lemma_shared_step(src, shared, i3 as int, a, b);
                    }
                }
                i3 = i3 + 1;
                continue ;
            }
            let targets = &pair.1;
            let m = targets.len();
            let mut j: usize = 0;
            while j < m
                invariant
                    j <= m,
                    m == gp.1@.len(),
                    i3 < n3,
                    n3 == shared.len(),
                    shared == shared_aliases@,
                    extra == extra_aliases@,
                    src == source_table@,
                    gp == shared[i3 as int],
                    na@ == spec_normalize(gp.0@),
                    na@.len() > 0,
                    targets == gp.1,
                    cat.wf(),
                    forall|b: Seq<char>|
                        str_views(known@).contains(b) <==> spec_known_id(src, b),
                    forall|a: Seq<char>, b: Seq<char>|
                        cat.maps(a, b) <==> (spec_source_gives(src, a, b) || spec_extra_gives(
                            extra,
                            a,
                            b,
                        ) || spec_shared_gives(src, shared.subrange(0, i3 as int), a, b) || (a
                            == na@ && exists|l: int|
                            0 <= l < j && spec_target_gives(
                                src,
                                (#[trigger] gp.1@[l])@,
                                b,
                            ))),
                decreases m - j,
            {
                let nt = normalize_block_target(targets[j].as_str());
                let ntc = str_chars(nt.as_str());
                let tn = ntc.len();
                let mut is_glob = false;
                let mut ci: usize = 0;
                while ci < tn
                    invariant
                        ci <= tn,
                        tn == ntc@.len(),
                        ntc@ == nt@,
                        is_glob == (exists|l: int|
                            0 <= l < ci && is_glob_char(#[trigger] ntc@[l])),
                    decreases tn - ci,
                {
                    let c = ntc[ci];
                    if c == '*' || c == '?' || c == '[' {
                        is_glob = true;
                    }
                    ci = ci + 1;
                }
                proof {
                    assert(is_glob == has_glob_char(nt@));
                }
                let ghost base_maps = cat;
                if is_glob {
                    let kn = known.len();
                    let mut ki: usize = 0;
                    while ki < kn
                        invariant
                            ki <= kn,
                            kn == known@.len(),
                            src == source_table@,
                            extra == extra_aliases@,
                            shared == shared_aliases@,
                            na@ == spec_normalize(gp.0@),
                            na@.len() > 0,
                            nt@ == spec_normalize_target(gp.1@[j as int]@),
                            has_glob_char(nt@),
                            i3 < n3,
                            j < m,
                            gp == shared[i3 as int],
                            cat.wf(),
                            forall|b: Seq<char>|
                                str_views(known@).contains(b) <==> spec_known_id(src, b),
                            forall|a: Seq<char>, b: Seq<char>|
                                cat.maps(a, b) <==> (base_maps.maps(a, b) || (a == na@
                                    && glob_pattern_ok(nt@) && glob_matches(nt@, b)
                                    && exists|l: int|
                                    0 <= l < ki && (#[trigger] str_views(known@)[l]) == b)),
                        decreases kn - ki,
                    {
                        let kid = &known[ki];
                        match glob_match(nt.as_str(), kid.as_str()) {
                            Some(hit) => {
                                if hit {
                                    cat.add(&na, kid);
                                }
                            },
                            None => {},
                        }
                        proof {
                            assert(str_views(known@)[ki as int] == kid@);
                            assert forall|a: Seq<char>, b: Seq<char>|
                                cat.maps(a, b) <==> (base_maps.maps(a, b) || (a == na@
                                    && glob_pattern_ok(nt@) && glob_matches(nt@, b)
                                    && exists|l: int|
                                    0 <= l < ki + 1 && (#[trigger] str_views(known@)[l])
                                        == b)) by {
                                if a == na@ && glob_pattern_ok(nt@) && glob_matches(nt@, b)
                                    && exists|l: int|
                                    0 <= l < ki + 1 && (#[trigger] str_views(known@)[l])
                                        == b {
                                    let l = choose|l: int|
                                        0 <= l < ki + 1 && (#[trigger] str_views(known@)[l])
                                            == b;
                                    if l == ki {
                                        assert(b == kid@);
                                    } else {
                                        assert(0 <= l < ki && str_views(known@)[l] == b);
                                    }
                                }
                                if cat.maps(a, b) {
                                    if a == na@ && b == kid@ && glob_pattern_ok(nt@)
                                        && glob_matches(nt@, b) {
                                        assert(0 <= ki < ki + 1 && str_views(known@)[ki as int]
                                            == b);
                                    }
                                }
                            }
                        }
                        ki = ki + 1;
                    }
                    proof {
                        assert forall|a: Seq<char>, b: Seq<char>|
                            cat.maps(a, b) <==> (base_maps.maps(a, b) || (a == na@
                                && spec_target_gives(src, gp.1@[j as int]@, b))) by {
                            if a == na@ && spec_target_gives(src, gp.1@[j as int]@, b) {
                                assert(spec_known_id(src, b));
                                assert(str_views(known@).contains(b));
                                let l = choose|l: int|
                                    0 <= l < str_views(known@).len() && str_views(known@)[l]
                                        == b;
                            }
                        }
                    }
                } else {
                    cat.add(&na, &nt);
                }
                proof {
                    assert forall|a: Seq<char>, b: Seq<char>|
                        cat.maps(a, b) <==> (spec_source_gives(src, a, b) || spec_extra_gives(
                            extra,
                            a,
                            b,
                        ) || spec_shared_gives(src, shared.subrange(0, i3 as int), a, b) || (a
                            == na@ && exists|l: int|
                            0 <= l < j + 1 && spec_target_gives(
                                src,
                                (#[trigger] gp.1@[l])@,
                                b,
                            ))) by {
                        if a == na@ && exists|l: int|
                            0 <= l < j + 1 && spec_target_gives(src, (#[trigger] gp.1@[l])@, b) {
                            let l = choose|l: int|
                                0 <= l < j + 1 && spec_target_gives(
                                    src,
                                    (#[trigger] gp.1@[l])@,
                                    b,
                                );
                        }
                    }
                }
                j = j + 1;
            }
            proof {
                assert forall|a: Seq<char>, b: Seq<char>|
                    cat.maps(a, b) <==> (spec_source_gives(src, a, b) || spec_extra_gives(
                        extra,
                        a,
                        b,
                    ) || spec_shared_gives(src, shared.subrange(0, i3 + 1), a, b)) by {
                    lemma_shared_step(src, shared, i3 as int, a, b);
                }
            }
            i3 = i3 + 1;
        }
        proof {
            assert(shared.subrange(0, n3 as int) =~= shared);
        }
        cat
    }
}


impl BlockCatalog {
    /// The `n`-word windows of a word sequence, each joined with single
    /// spaces; empty when `n` is zero or exceeds the word count.
    pub fn make_ngrams(words: &Vec<String>, n: usize) -> (r: Vec<String>)
        ensures
            n == 0 || n > words@.len() ==> r@.len() == 0,
            0 < n <= words@.len() ==> {
                &&& r@.len() == words@.len() - n + 1
                &&& forall|i: int|
                    0 <= i < r@.len() ==> (#[trigger] r@[i])@ == crate::text::spec_join(
                        str_views(words@).subrange(i, i + n),
                    )
            },
    {
        let mut out: Vec<String> = Vec::new();
        if n == 0 || n > words.len() {
            return out;
        }
        let mut wc: Vec<Vec<char>> = Vec::new();
        let m = words.len();
        let mut i: usize = 0;
        while i < m
            invariant
                i <= m,
                m == words@.len(),
                crate::text::seq_views(wc@) =~= str_views(words@).subrange(0, i as int),
            decreases m - i,
        {
            proof {
                assert(str_views(words@).subrange(0, i + 1) =~= str_views(words@).subrange(
                    0,
                    i as int,
                ).push(words@[i as int]@));
            }
            let cs = str_chars(words[i].as_str());
            let ghost before = crate::text::seq_views(wc@);
            wc.push(cs);
            proof {
                assert(crate::text::seq_views(wc@) =~= before.push(words@[i as int]@));
            }
            i = i + 1;
        }
        proof {
            assert(str_views(words@).subrange(0, m as int) =~= str_views(words@));
        }
        let count = m - n + 1;
        let mut k: usize = 0;
        while k < count
            invariant
                k <= count,
                count == m - n + 1,
                0 < n <= m,
                m == words@.len(),
                crate::text::seq_views(wc@) == str_views(words@),
                out@.len() == k,
                forall|j: int|
                    0 <= j < k ==> (#[trigger] out@[j])@ == crate::text::spec_join(
                        str_views(words@).subrange(j, j + n),
                    ),
            decreases count - k,
        {
            let g = join_window_pub(&wc, k, n);
            out.push(chars_to_string(&g));
            k = k + 1;
        }
        out
    }

    /// The fuzzy length-window gate; see `spec_plausible_length`.
    pub fn is_plausible_length(alias: &str, candidate: &str) -> (r: bool)
        ensures
            r == spec_plausible_length(alias@, candidate@),
    {
        let ac = str_chars(alias);
        let cc = str_chars(candidate);
        let al = ac.len();
        let cl = cc.len();
        let diff = if al >= cl {
            al - cl
        } else {
            cl - al
        };
        let lim: u128 = (al as u128) * 35 / 100;
        let lim2: u128 = if lim >= 2 {
            lim
        } else {
            2
        };
        (diff as u128) <= lim2
    }
}

fn join_window_pub(words: &Vec<Vec<char>>, i: usize, n: usize) -> (r: Vec<char>)
    requires
        i + n <= words@.len(),
    ensures
        r@ == crate::text::spec_join(crate::text::seq_views(words@).subrange(i as int, i + n)),
{
    join_window(words, i, n, true)
}

/// A key held by no entry looks up to nothing.
pub proof fn lemma_lookup_absent(es: Seq<AliasEntry>, a: Seq<char>)
    requires
        forall|i: int| 0 <= i < es.len() ==> entry_keys(es)[i] != a,
    ensures
        spec_lookup(es, a) == Seq::<Seq<char>>::empty(),
    decreases es.len(),
{
    if es.len() > 0 {
        assert(entry_keys(es)[0] == es[0].alias@);
        assert forall|i: int| 0 <= i < es.drop_first().len() implies entry_keys(
            es.drop_first(),
        )[i] != a by {
            assert(entry_keys(es)[i + 1] != a);
            assert(entry_keys(es.drop_first())[i] == entry_keys(es)[i + 1]);
        }
        lemma_lookup_absent(es.drop_first(), a);
    } else {
        assert(spec_lookup(es, a) =~= Seq::<Seq<char>>::empty());
    }
}

} // verus!
