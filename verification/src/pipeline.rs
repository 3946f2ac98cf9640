use vstd::prelude::*;
use crate::text::{spec_words, is_prefix_of, str_chars, split_words, seq_views};
use crate::service::PlayerChunkContext;
use crate::text::{string_eq, clone_string};

verus! {

// ---------------------------------------------------------------------------
// Association lists keyed by speaker or by a string pair
// ---------------------------------------------------------------------------

/// First value stored under a single-string key.
pub open spec fn lookup_str<V>(es: Seq<(String, V)>, k: Seq<char>) -> Option<V>
    decreases es.len(),
{
    if es.len() == 0 {
        None
    } else if es[0].0@ == k {
        Some(es[0].1)
    } else {
        lookup_str(es.drop_first(), k)
    }
}

/// First value stored under a pair key.
pub open spec fn lookup_pair<V>(
    es: Seq<((String, String), V)>,
    k: (Seq<char>, Seq<char>),
) -> Option<V>
    decreases es.len(),
{
    if es.len() == 0 {
        None
    } else if es[0].0.0@ == k.0 && es[0].0.1@ == k.1 {
        Some(es[0].1)
    } else {
        lookup_pair(es.drop_first(), k)
    }
}

pub open spec fn str_keys_unique<V>(es: Seq<(String, V)>) -> bool {
    forall|i: int, j: int|
        0 <= i < j < es.len() ==> (#[trigger] es[i]).0@ != (#[trigger] es[j]).0@
}

pub open spec fn pair_keys_unique<V>(es: Seq<((String, String), V)>) -> bool {
    forall|i: int, j: int|
        0 <= i < j < es.len() ==> !((#[trigger] es[i]).0.0@ == (#[trigger] es[j]).0.0@
            && es[i].0.1@ == es[j].0.1@)
}

proof fn lemma_lookup_str_at<V>(es: Seq<(String, V)>, k: int)
    requires
        str_keys_unique(es),
        0 <= k < es.len(),
    ensures
        lookup_str(es, es[k].0@) == Some(es[k].1),
    decreases es.len(),
{
    if k > 0 {
        assert(es[0].0@ != es[k].0@);
        assert forall|i: int, j: int|
            0 <= i < j < es.drop_first().len() implies !((#[trigger] es.drop_first()[i]).0@
            == (#[trigger] es.drop_first()[j]).0@) by {
            assert(es.drop_first()[i] == es[i + 1]);
            assert(es.drop_first()[j] == es[j + 1]);
        }
        lemma_lookup_str_at(es.drop_first(), k - 1);
        assert(es.drop_first()[k - 1] == es[k]);
    }
}

proof fn lemma_lookup_str_absent<V>(es: Seq<(String, V)>, k: Seq<char>)
    requires
        forall|i: int| 0 <= i < es.len() ==> (#[trigger] es[i]).0@ != k,
    ensures
        lookup_str(es, k) is None,
    decreases es.len(),
{
    if es.len() > 0 {
        assert forall|i: int|
            0 <= i < es.drop_first().len() implies (#[trigger] es.drop_first()[i]).0@ != k by {
            assert(es.drop_first()[i] == es[i + 1]);
        }
        lemma_lookup_str_absent(es.drop_first(), k);
    }
}

proof fn lemma_lookup_str_update<V>(es: Seq<(String, V)>, idx: int, e: (String, V), k: Seq<char>)
    requires
        0 <= idx < es.len(),
        e.0@ == es[idx].0@,
        k != e.0@,
    ensures
        lookup_str(es.update(idx, e), k) == lookup_str(es, k),
    decreases es.len(),
{
    let ne = es.update(idx, e);
    if idx == 0 {
        assert(ne[0] == e);
        assert(ne.drop_first() =~= es.drop_first());
    } else {
        assert(ne[0] == es[0]);
        assert(ne.drop_first() =~= es.drop_first().update(idx - 1, e));
        if es[0].0@ != k {
            lemma_lookup_str_update(es.drop_first(), idx - 1, e, k);
        }
    }
}

proof fn lemma_lookup_str_push<V>(es: Seq<(String, V)>, e: (String, V), k: Seq<char>)
    requires
        k != e.0@,
    ensures
        lookup_str(es.push(e), k) == lookup_str(es, k),
    decreases es.len(),
{
    let ne = es.push(e);
    if es.len() == 0 {
        assert(ne[0] == e);
        assert(ne.drop_first() =~= Seq::<(String, V)>::empty());
    } else {
        assert(ne[0] == es[0]);
        assert(ne.drop_first() =~= es.drop_first().push(e));
        if es[0].0@ != k {
            lemma_lookup_str_push(es.drop_first(), e, k);
        }
    }
}

proof fn lemma_lookup_str_remove<V>(es: Seq<(String, V)>, idx: int, k: Seq<char>)
    requires
        0 <= idx < es.len(),
        k != es[idx].0@,
    ensures
        lookup_str(es.remove(idx), k) == lookup_str(es, k),
    decreases es.len(),
{
    let ne = es.remove(idx);
    if idx == 0 {
        assert(ne =~= es.drop_first());
    } else {
        assert(ne[0] == es[0]);
        assert(ne.drop_first() =~= es.drop_first().remove(idx - 1));
        if es[0].0@ != k {
            lemma_lookup_str_remove(es.drop_first(), idx - 1, k);
        }
    }
}

proof fn lemma_lookup_pair_at<V>(es: Seq<((String, String), V)>, k: int)
    requires
        pair_keys_unique(es),
        0 <= k < es.len(),
    ensures
        lookup_pair(es, (es[k].0.0@, es[k].0.1@)) == Some(es[k].1),
    decreases es.len(),
{
    if k > 0 {
        assert(!(es[0].0.0@ == es[k].0.0@ && es[0].0.1@ == es[k].0.1@));
        assert forall|i: int, j: int|
            0 <= i < j < es.drop_first().len() implies !((#[trigger] es.drop_first()[i]).0.0@
            == (#[trigger] es.drop_first()[j]).0.0@ && es.drop_first()[i].0.1@
            == es.drop_first()[j].0.1@) by {
            assert(es.drop_first()[i] == es[i + 1]);
            assert(es.drop_first()[j] == es[j + 1]);
        }
        lemma_lookup_pair_at(es.drop_first(), k - 1);
        assert(es.drop_first()[k - 1] == es[k]);
    }
}

proof fn lemma_lookup_pair_absent<V>(es: Seq<((String, String), V)>, k: (Seq<char>, Seq<char>))
    requires
        forall|i: int|
            0 <= i < es.len() ==> !((#[trigger] es[i]).0.0@ == k.0 && es[i].0.1@ == k.1),
    ensures
        lookup_pair(es, k) is None,
    decreases es.len(),
{
    if es.len() > 0 {
        assert forall|i: int|
            0 <= i < es.drop_first().len() implies !((#[trigger] es.drop_first()[i]).0.0@ == k.0
            && es.drop_first()[i].0.1@ == k.1) by {
            assert(es.drop_first()[i] == es[i + 1]);
        }
        lemma_lookup_pair_absent(es.drop_first(), k);
    }
}

proof fn lemma_lookup_pair_update<V>(
    es: Seq<((String, String), V)>,
    idx: int,
    e: ((String, String), V),
    k: (Seq<char>, Seq<char>),
)
    requires
        0 <= idx < es.len(),
        e.0.0@ == es[idx].0.0@,
        e.0.1@ == es[idx].0.1@,
        !(k.0 == e.0.0@ && k.1 == e.0.1@),
    ensures
        lookup_pair(es.update(idx, e), k) == lookup_pair(es, k),
    decreases es.len(),
{
    let ne = es.update(idx, e);
    if idx == 0 {
        assert(ne[0] == e);
        assert(ne.drop_first() =~= es.drop_first());
    } else {
        assert(ne[0] == es[0]);
        assert(ne.drop_first() =~= es.drop_first().update(idx - 1, e));
        if !(es[0].0.0@ == k.0 && es[0].0.1@ == k.1) {
            lemma_lookup_pair_update(es.drop_first(), idx - 1, e, k);
        }
    }
}

proof fn lemma_lookup_pair_push<V>(
    es: Seq<((String, String), V)>,
    e: ((String, String), V),
    k: (Seq<char>, Seq<char>),
)
    requires
        !(k.0 == e.0.0@ && k.1 == e.0.1@),
    ensures
        lookup_pair(es.push(e), k) == lookup_pair(es, k),
    decreases es.len(),
{
    let ne = es.push(e);
    if es.len() == 0 {
        assert(ne[0] == e);
        assert(!(ne[0].0.0@ == k.0 && ne[0].0.1@ == k.1));
        assert(ne.drop_first() =~= Seq::<((String, String), V)>::empty());
        assert(lookup_pair(ne, k) == lookup_pair(ne.drop_first(), k));
        assert(lookup_pair(ne.drop_first(), k) is None);
    } else {
        assert(ne[0] == es[0]);
        assert(ne.drop_first() =~= es.drop_first().push(e));
        if es[0].0.0@ == k.0 && es[0].0.1@ == k.1 {
            assert(lookup_pair(ne, k) == Some(ne[0].1));
            assert(lookup_pair(es, k) == Some(es[0].1));
        } else {
            lemma_lookup_pair_push(es.drop_first(), e, k);
            assert(lookup_pair(ne.drop_first(), k) == lookup_pair(es.drop_first(), k));
        }
    }
}

// ---------------------------------------------------------------------------
// Pipeline state
// ---------------------------------------------------------------------------

/// One recognized-phrase event from the recognizer collaborator.
pub struct RecognizedPhraseEvent {
    pub speaker_id: String,
    pub text: String,
    pub is_partial: bool,
}

/// Progress through one speaker's growing partial transcript.
pub struct PartialProgressState {
    pub last_partial: String,
    pub processed_committed_words: usize,
}

/// Rolling repeat count for one (speaker, candidate) pair.
pub struct RepeatGateState {
    pub last_seen: u64,
    pub count: u64,
}

/// Of every run of identical rapid candidates, one in this many is let
/// through.
pub const REPEAT_ALLOW_EVERY: u64 = 8;

/// The per-event state of the recognized-phrase consumer: partial-transcript
/// progress, the repeat gate, the cooldown ledger, and the short-lived
/// chunk-context cache.
pub struct EventPipeline {
    pub partial_progress: Vec<(String, PartialProgressState)>,
    pub repeat_gate: Vec<((String, String), RepeatGateState)>,
    pub last_trigger: Vec<((String, String), u64)>,
    pub cached_chunk: Option<(u64, PlayerChunkContext)>,
}

impl EventPipeline {
    pub open spec fn wf(&self) -> bool {
        &&& str_keys_unique(self.partial_progress@)
        &&& pair_keys_unique(self.repeat_gate@)
        &&& pair_keys_unique(self.last_trigger@)
    }

    pub fn new() -> (r: EventPipeline)
        ensures
            r.wf(),
            r.partial_progress@.len() == 0,
            r.repeat_gate@.len() == 0,
            r.last_trigger@.len() == 0,
            r.cached_chunk is None,
    {
        EventPipeline {
            partial_progress: Vec::new(),
            repeat_gate: Vec::new(),
            last_trigger: Vec::new(),
            cached_chunk: None,
        }
    }
}

// ---------------------------------------------------------------------------
// Partial-transcript diffing
// ---------------------------------------------------------------------------

/// Words of at least two characters, in order.
pub open spec fn keep_long_words(ws: Seq<Seq<char>>) -> Seq<Seq<char>>
    decreases ws.len(),
{
    if ws.len() == 0 {
        Seq::empty()
    } else {
        let rest = keep_long_words(ws.drop_last());
        if ws.last().len() >= 2 {
            rest.push(ws.last())
        } else {
            rest
        }
    }
}

/// The number of committed words of a partial transcript: all but the
/// still-growing last word.
pub open spec fn spec_committed_count(cleaned: Seq<char>) -> int {
    if spec_words(cleaned).len() > 0 {
        spec_words(cleaned).len() - 1
    } else {
        0
    }
}

/// Where to resume for this partial: the stored counter, reset to zero if
/// the new text does not extend the stored one, and never past the
/// committed count.
pub open spec fn spec_resume_index(
    prev: Option<PartialProgressState>,
    cleaned: Seq<char>,
) -> int {
    let committed = spec_committed_count(cleaned);
    let counter: int = match prev {
        Some(st) => if is_prefix_of(cleaned, st.last_partial@) {
            st.processed_committed_words as int
        } else {
            0
        },
        None => 0,
    };
    if counter <= committed {
        counter
    } else {
        committed
    }
}

/// The candidate phrases a partial transcript newly commits: its committed
/// words from the resume index on, keeping only words of two or more
/// characters.
pub open spec fn spec_partial_candidates(
    prev: Option<PartialProgressState>,
    cleaned: Seq<char>,
) -> Seq<Seq<char>> {
    keep_long_words(
        spec_words(cleaned).subrange(
            spec_resume_index(prev, cleaned),
            spec_committed_count(cleaned),
        ),
    )
}

impl EventPipeline {
    /// The candidates one event contributes: for a final transcript, the
    /// whole cleaned text, clearing the speaker's partial progress; for a
    /// partial, its newly committed words, advancing the progress.
    pub fn partial_candidates(&mut self, speaker: &String, cleaned: &String, is_partial: bool)
        -> (r: Vec<String>)
        requires
            old(self).wf(),
        ensures
            final(self).wf(),
            final(self).repeat_gate == old(self).repeat_gate,
            final(self).last_trigger == old(self).last_trigger,
            final(self).cached_chunk == old(self).cached_chunk,
            !is_partial ==> {
                &&& crate::order::str_views(r@) == seq![cleaned@]
                &&& lookup_str(final(self).partial_progress@, speaker@) is None
            },
            is_partial ==> {
                &&& crate::order::str_views(r@) == spec_partial_candidates(
                    lookup_str(old(self).partial_progress@, speaker@),
                    cleaned@,
                )
                &&& (lookup_str(final(self).partial_progress@, speaker@) matches Some(st)
                    && st.last_partial@ == cleaned@ && st.processed_committed_words
                    == spec_committed_count(cleaned@))
            },
            forall|k: Seq<char>|
                k != speaker@ ==> lookup_str(final(self).partial_progress@, k) == lookup_str(
                    old(self).partial_progress@,
                    k,
                ),
    {
        let idx_opt = find_str_key(&self.partial_progress, speaker);
        if !is_partial {
            match idx_opt {
                Some(idx) => {
                    let ghost old_es = self.partial_progress@;
                    self.partial_progress.remove(idx);
                    proof {
                        let ne = self.partial_progress@;
                        assert(ne == old_es.remove(idx as int));
                        assert forall|i: int, j: int|
                            0 <= i < j < ne.len() implies (#[trigger] ne[i]).0@ != (
                        #[trigger] ne[j]).0@ by {
                            if j < idx {
                                assert(ne[i] == old_es[i]);
                                assert(ne[j] == old_es[j]);
                            } else if i < idx {
                                assert(ne[i] == old_es[i]);
                                assert(ne[j] == old_es[j + 1]);
                            } else {
                                assert(ne[i] == old_es[i + 1]);
                                assert(ne[j] == old_es[j + 1]);
                            }
                        }
                        assert forall|i: int|
                            0 <= i < ne.len() implies (#[trigger] ne[i]).0@ != speaker@ by {
                            if i < idx {
                                assert(ne[i] == old_es[i]);
                                if old_es[i].0@ == speaker@ {
                                    assert(old_es[idx as int].0@ == speaker@);
                                    assert(false);
                                }
                            } else {
                                assert(ne[i] == old_es[i + 1]);
                                if old_es[i + 1].0@ == speaker@ {
                                    assert(old_es[idx as int].0@ == speaker@);
                                    assert(false);
                                }
                            }
                        }
                        lemma_lookup_str_absent(ne, speaker@);
                        assert forall|k: Seq<char>|
                            k != speaker@ implies lookup_str(ne, k) == lookup_str(
                            old_es,
                            k,
                        ) by {
                            lemma_lookup_str_remove(old_es, idx as int, k);
                        }
                    }
                },
                None => {
                    proof {
                        lemma_lookup_str_absent(self.partial_progress@, speaker@);
                    }
                },
            }
            let mut out: Vec<String> = Vec::new();
            out.push(clone_string(cleaned));
            proof {
                assert(crate::order::str_views(out@) =~= seq![cleaned@]);
            }
            return out;
        }
        let ghost prev = lookup_str(old(self).partial_progress@, speaker@);
        let prev_state: Option<(String, usize)> = match idx_opt {
            Some(idx) => {
                proof {
                    lemma_lookup_str_at(self.partial_progress@, idx as int);
                }
                Some(
                    (
                        clone_string(&self.partial_progress[idx].1.last_partial),
                        self.partial_progress[idx].1.processed_committed_words,
                    ),
                )
            },
            None => {
                proof {
                    lemma_lookup_str_absent(self.partial_progress@, speaker@);
                }
                None
            },
        };
        let cleaned_chars = str_chars(cleaned.as_str());
        let words = split_words(&cleaned_chars);
        let committed: usize = if words.len() > 0 {
            words.len() - 1
        } else {
            0
        };
        let counter: usize = match &prev_state {
            Some((lp, c)) => {
                let lp_chars = str_chars(lp.as_str());
                if crate::text::starts_with_seq(&cleaned_chars, &lp_chars) {
                    *c
                } else {
                    0
                }
            },
            None => 0,
        };
        let start = if counter <= committed {
            counter
        } else {
            committed
        };
        let mut out: Vec<String> = Vec::new();
        let ghost wv = seq_views(words@);
        let mut i: usize = start;
        proof {
            assert(wv.subrange(start as int, start as int) =~= Seq::<Seq<char>>::empty());
            assert(crate::order::str_views(out@) =~= keep_long_words(
                wv.subrange(start as int, start as int),
            ));
        }
        while i < committed
            invariant
                start <= i <= committed,
                committed <= words@.len(),
                wv == seq_views(words@),
                crate::order::str_views(out@) =~= keep_long_words(
                    wv.subrange(start as int, i as int),
                ),
            decreases committed - i,
        {
            proof {
                assert(wv.subrange(start as int, i + 1).drop_last() =~= wv.subrange(
                    start as int,
                    i as int,
                ));
                assert(wv.subrange(start as int, i + 1).last() == wv[i as int]);
            }
            let w = &words[i];
            if w.len() >= 2 {
                out.push(crate::text::chars_to_string(w));
                proof {
                    assert(crate::order::str_views(out@) =~= keep_long_words(
                        wv.subrange(start as int, i + 1),
                    ));
                }
            }
            i = i + 1;
        }
        let new_state = PartialProgressState {
            last_partial: clone_string(cleaned),
            processed_committed_words: committed,
        };
        match idx_opt {
            Some(idx) => {
                let ghost old_es = self.partial_progress@;
                let slot = &mut self.partial_progress[idx];
                slot.1 = new_state;
                proof {
                    let ne = self.partial_progress@;
                    assert(ne =~= old_es.update(idx as int, ne[idx as int]));
                    assert(ne[idx as int].0@ == speaker@);
                    assert forall|i2: int, j2: int|
                        0 <= i2 < j2 < ne.len() implies (#[trigger] ne[i2]).0@ != (
                    #[trigger] ne[j2]).0@ by {
                        assert(ne[i2].0@ == old_es[i2].0@);
                        assert(ne[j2].0@ == old_es[j2].0@);
                    }
                    lemma_lookup_str_at(ne, idx as int);
                    assert forall|k: Seq<char>|
                        k != speaker@ implies lookup_str(ne, k) == lookup_str(old_es, k) by {
                        lemma_lookup_str_update(old_es, idx as int, ne[idx as int], k);
                        assert(ne == old_es.update(idx as int, ne[idx as int]));
                    }
                }
            },
            None => {
                let ghost old_es = self.partial_progress@;
                self.partial_progress.push((clone_string(speaker), new_state));
                proof {
                    let ne = self.partial_progress@;
                    assert(ne.drop_last() =~= old_es);
                    assert(ne[ne.len() - 1].0@ == speaker@);
                    assert forall|i2: int, j2: int|
                        0 <= i2 < j2 < ne.len() implies (#[trigger] ne[i2]).0@ != (
                    #[trigger] ne[j2]).0@ by {
                        if j2 < ne.len() - 1 {
                            assert(ne[i2] == old_es[i2]);
                            assert(ne[j2] == old_es[j2]);
                        } else {
                            assert(ne[i2] == old_es[i2]);
                        }
                    }
                    lemma_lookup_str_at(ne, ne.len() - 1);
                    assert forall|k: Seq<char>|
                        k != speaker@ implies lookup_str(ne, k) == lookup_str(old_es, k) by {
                        lemma_lookup_str_push(old_es, ne[ne.len() - 1], k);
                        assert(ne == old_es.push(ne[ne.len() - 1]));
                    }
                }
            },
        }
        proof {
            assert(crate::order::str_views(out@) == spec_partial_candidates(prev, cleaned@));
        }
        out
    }
}

fn find_str_key<V>(v: &Vec<(String, V)>, key: &String) -> (r: Option<usize>)
    ensures
        match r {
            Some(i) => i < v@.len() && v@[i as int].0@ == key@,
            None => forall|i: int| 0 <= i < v@.len() ==> (#[trigger] v@[i]).0@ != key@,
        },
{
    let n = v.len();
    let mut i: usize = 0;
    while i < n
        invariant
            i <= n,
            n == v@.len(),
            forall|k: int| 0 <= k < i ==> (#[trigger] v@[k]).0@ != key@,
        decreases n - i,
    {
        if string_eq(&v[i].0, key) {
            return Some(i);
        }
        i = i + 1;
    }
    None
}

fn find_pair_key<V>(v: &Vec<((String, String), V)>, k0: &String, k1: &String) -> (r: Option<
    usize,
>)
    ensures
        match r {
            Some(i) => i < v@.len() && v@[i as int].0.0@ == k0@ && v@[i as int].0.1@ == k1@,
            None => forall|i: int|
                0 <= i < v@.len() ==> !((#[trigger] v@[i]).0.0@ == k0@ && v@[i].0.1@ == k1@),
        },
{
    let n = v.len();
    let mut i: usize = 0;
    while i < n
        invariant
            i <= n,
            n == v@.len(),
            forall|k: int| 0 <= k < i ==> !((#[trigger] v@[k]).0.0@ == k0@ && v@[k].0.1@ == k1@),
        decreases n - i,
    {
        if string_eq(&v[i].0.0, k0) && string_eq(&v[i].0.1, k1) {
            return Some(i);
        }
        i = i + 1;
    }
    None
}

// ---------------------------------------------------------------------------
// Repeat gate
// ---------------------------------------------------------------------------

/// The repeat count this occurrence reaches: one more than before, starting
/// over when the gap since the last occurrence exceeds the window.
pub open spec fn spec_gate_count(
    prev: Option<RepeatGateState>,
    now_ms: u64,
    window_ms: u64,
) -> int {
    let base: int = match prev {
        Some(st) => if now_ms >= st.last_seen && now_ms - st.last_seen > window_ms {
            0
        } else {
            st.count as int
        },
        None => 0,
    };
    if base >= u64::MAX {
        base
    } else {
        base + 1
    }
}

/// Whether the occurrence with this count is let through: the first of
/// every `REPEAT_ALLOW_EVERY` in a rapid run.
pub open spec fn spec_gate_allows(count: int) -> bool {
    (count - 1) % (REPEAT_ALLOW_EVERY as int) == 0
}

impl EventPipeline {
    /// Record one occurrence of a candidate and decide whether it passes
    /// the repeat gate; occurrences 1, 9, 17, ... of a rapid run pass.
    pub fn repeat_gate_allow(
        &mut self,
        speaker: &String,
        candidate: &String,
        now_ms: u64,
        window_ms: u64,
    ) -> (r: bool)
        requires
            old(self).wf(),
        ensures
            final(self).wf(),
            final(self).partial_progress == old(self).partial_progress,
            final(self).last_trigger == old(self).last_trigger,
            final(self).cached_chunk == old(self).cached_chunk,
            ({
                let cnt = spec_gate_count(
                    lookup_pair(old(self).repeat_gate@, (speaker@, candidate@)),
                    now_ms,
                    window_ms,
                );
                &&& r == spec_gate_allows(cnt)
                &&& (lookup_pair(final(self).repeat_gate@, (speaker@, candidate@)) matches Some(
                    st,
                ) && st.last_seen == now_ms && st.count == cnt)
            }),
            forall|k: (Seq<char>, Seq<char>)|
                !(k.0 == speaker@ && k.1 == candidate@) ==> lookup_pair(
                    final(self).repeat_gate@,
                    k,
                ) == lookup_pair(old(self).repeat_gate@, k),
    {
        let idx_opt = find_pair_key(&self.repeat_gate, speaker, candidate);
        let base: u64 = match idx_opt {
            Some(idx) => {
                proof {
                    lemma_lookup_pair_at(self.repeat_gate@, idx as int);
                }
                let st = &self.repeat_gate[idx].1;
                if now_ms >= st.last_seen && now_ms - st.last_seen > window_ms {
                    0
                } else {
                    st.count
                }
            },
            None => {
                proof {
                    lemma_lookup_pair_absent(self.repeat_gate@, (speaker@, candidate@));
                }
                0
            },
        };
        let count: u64 = if base == u64::MAX {
            base
        } else {
            base + 1
        };
        let new_state = RepeatGateState { last_seen: now_ms, count };
        match idx_opt {
            Some(idx) => {
                let ghost old_es = self.repeat_gate@;
                let slot = &mut self.repeat_gate[idx];
                slot.1 = new_state;
                proof {
                    let ne = self.repeat_gate@;
                    assert(ne =~= old_es.update(idx as int, ne[idx as int]));
                    assert forall|i2: int, j2: int|
                        0 <= i2 < j2 < ne.len() implies !((#[trigger] ne[i2]).0.0@ == (
                    #[trigger] ne[j2]).0.0@ && ne[i2].0.1@ == ne[j2].0.1@) by {
                        assert(ne[i2].0 == old_es[i2].0);
                        assert(ne[j2].0 == old_es[j2].0);
                    }
                    lemma_lookup_pair_at(ne, idx as int);
                    assert forall|k: (Seq<char>, Seq<char>)|
                        !(k.0 == speaker@ && k.1 == candidate@) implies lookup_pair(ne, k)
                        == lookup_pair(old_es, k) by {
                        lemma_lookup_pair_update(old_es, idx as int, ne[idx as int], k);
                        assert(ne == old_es.update(idx as int, ne[idx as int]));
                    }
                }
            },
            None => {
                let ghost old_es = self.repeat_gate@;
                self.repeat_gate.push(((clone_string(speaker), clone_string(candidate)),
                    new_state));
                proof {
                    let ne = self.repeat_gate@;
                    assert(ne.drop_last() =~= old_es);
                    assert forall|i2: int, j2: int|
                        0 <= i2 < j2 < ne.len() implies !((#[trigger] ne[i2]).0.0@ == (
                    #[trigger] ne[j2]).0.0@ && ne[i2].0.1@ == ne[j2].0.1@) by {
                        if j2 < ne.len() - 1 {
                            assert(ne[i2] == old_es[i2]);
                            assert(ne[j2] == old_es[j2]);
                        } else {
                            assert(ne[i2] == old_es[i2]);
                        }
                    }
                    lemma_lookup_pair_at(ne, ne.len() - 1);
                    assert forall|k: (Seq<char>, Seq<char>)|
                        !(k.0 == speaker@ && k.1 == candidate@) implies lookup_pair(ne, k)
                        == lookup_pair(old_es, k) by {
                        lemma_lookup_pair_push(old_es, ne[ne.len() - 1], k);
                        assert(ne == old_es.push(ne[ne.len() - 1]));
                    }
                }
            },
        }
        (count - 1) % 8 == 0
    }

    /// Check the per-(player, identifier) cooldown: within the window the
    /// trigger is suppressed and nothing is recorded; outside it the
    /// trigger time is recorded and the deletion may proceed.
    pub fn cooldown_allow(
        &mut self,
        player: &String,
        block_id: &String,
        now_ms: u64,
        cooldown_ms: u64,
    ) -> (r: bool)
        requires
            old(self).wf(),
        ensures
            final(self).wf(),
            final(self).partial_progress == old(self).partial_progress,
            final(self).repeat_gate == old(self).repeat_gate,
            final(self).cached_chunk == old(self).cached_chunk,
            r == match lookup_pair(old(self).last_trigger@, (player@, block_id@)) {
                Some(prev) => !(now_ms >= prev && now_ms - prev < cooldown_ms) && !(now_ms
                    < prev),
                None => true,
            },
            r ==> (lookup_pair(final(self).last_trigger@, (player@, block_id@)) == Some(
                now_ms,
            ) && forall|k: (Seq<char>, Seq<char>)|
                !(k.0 == player@ && k.1 == block_id@) ==> lookup_pair(
                    final(self).last_trigger@,
                    k,
                ) == lookup_pair(old(self).last_trigger@, k)),
            !r ==> final(self).last_trigger == old(self).last_trigger,
    {
        let idx_opt = find_pair_key(&self.last_trigger, player, block_id);
        match idx_opt {
            Some(idx) => {
                proof {
                    lemma_lookup_pair_at(self.last_trigger@, idx as int);
                }
                let prev = self.last_trigger[idx].1;
                if now_ms < prev || now_ms - prev < cooldown_ms {
                    return false;
                }
                let ghost old_es = self.last_trigger@;
                let slot = &mut self.last_trigger[idx];
                slot.1 = now_ms;
                proof {
                    let ne = self.last_trigger@;
                    assert(ne =~= old_es.update(idx as int, ne[idx as int]));
                    assert forall|i2: int, j2: int|
                        0 <= i2 < j2 < ne.len() implies !((#[trigger] ne[i2]).0.0@ == (
                    #[trigger] ne[j2]).0.0@ && ne[i2].0.1@ == ne[j2].0.1@) by {
                        assert(ne[i2].0 == old_es[i2].0);
                        assert(ne[j2].0 == old_es[j2].0);
                    }
                    lemma_lookup_pair_at(ne, idx as int);
                    assert forall|k: (Seq<char>, Seq<char>)|
                        !(k.0 == player@ && k.1 == block_id@) implies lookup_pair(ne, k)
                        == lookup_pair(old_es, k) by {
                        lemma_lookup_pair_update(old_es, idx as int, ne[idx as int], k);
                        assert(ne == old_es.update(idx as int, ne[idx as int]));
                    }
                }
                true
            },
            None => {
                proof {
                    lemma_lookup_pair_absent(self.last_trigger@, (player@, block_id@));
                }
                let ghost old_es = self.last_trigger@;
                self.last_trigger.push(((clone_string(player), clone_string(block_id)), now_ms));
                proof {
                    let ne = self.last_trigger@;
                    assert(ne.drop_last() =~= old_es);
                    assert forall|i2: int, j2: int|
                        0 <= i2 < j2 < ne.len() implies !((#[trigger] ne[i2]).0.0@ == (
                    #[trigger] ne[j2]).0.0@ && ne[i2].0.1@ == ne[j2].0.1@) by {
                        if j2 < ne.len() - 1 {
                            assert(ne[i2] == old_es[i2]);
                            assert(ne[j2] == old_es[j2]);
                        } else {
                            assert(ne[i2] == old_es[i2]);
                        }
                    }
                    lemma_lookup_pair_at(ne, ne.len() - 1);
                    assert forall|k: (Seq<char>, Seq<char>)|
                        !(k.0 == player@ && k.1 == block_id@) implies lookup_pair(ne, k)
                        == lookup_pair(old_es, k) by {
                        lemma_lookup_pair_push(old_es, ne[ne.len() - 1], k);
                        assert(ne == old_es.push(ne[ne.len() - 1]));
                    }
                }
                true
            },
        }
    }

    /// Whether the cached chunk context may serve a lookup for this player
    /// right now.
    pub fn cache_fresh(&self, player: &str, now_ms: u64, ttl_ms: u64) -> (r: bool)
        ensures
            r == (self.cached_chunk matches Some((t, ctx)) && ctx.player_name@ == player@
                && now_ms >= t && now_ms - t <= ttl_ms),
    {
        match &self.cached_chunk {
            Some((t, ctx)) => {
                let pc = str_chars(player);
                let cc = str_chars(ctx.player_name.as_str());
                crate::text::chars_eq(&cc, &pc) && now_ms >= *t && now_ms - *t <= ttl_ms
            },
            None => false,
        }
    }

    /// The cached context, if any.
    pub fn cached_context(&self) -> (r: Option<&PlayerChunkContext>)
        ensures
            match r {
                Some(c) => self.cached_chunk matches Some((_, ctx)) && *c == ctx,
                None => self.cached_chunk is None,
            },
    {
        match &self.cached_chunk {
            Some((_, ctx)) => Some(ctx),
            None => None,
        }
    }

    /// Remember a freshly fetched context.
    pub fn store_context(&mut self, now_ms: u64, context: PlayerChunkContext)
        requires
            old(self).wf(),
        ensures
            final(self).wf(),
            final(self).cached_chunk == Some((now_ms, context)),
            final(self).partial_progress == old(self).partial_progress,
            final(self).repeat_gate == old(self).repeat_gate,
            final(self).last_trigger == old(self).last_trigger,
    {
        self.cached_chunk = Some((now_ms, context));
    }

    /// Forget the cached context.
    pub fn clear_cache(&mut self)
        requires
            old(self).wf(),
        ensures
            final(self).wf(),
            final(self).cached_chunk is None,
            final(self).partial_progress == old(self).partial_progress,
            final(self).repeat_gate == old(self).repeat_gate,
            final(self).last_trigger == old(self).last_trigger,
    {
        self.cached_chunk = None;
    }
}

// ---------------------------------------------------------------------------
// Presence watcher
// ---------------------------------------------------------------------------

/// How one presence poll ended, as the caller classifies it.
pub enum LookupOutcome {
    /// The player's position and dimension resolved.
    Found,
    /// The player could not be located: treated as offline.
    PlayerMissing,
    /// Some other failure: presence goes offline without a departure log.
    OtherError,
}

/// What one presence poll changes: the new online flag, whether to send the
/// one-time greeting, and whether to log a departure.
pub struct PresenceEffect {
    pub online: bool,
    pub greet: bool,
    pub log_departure: bool,
}

/// One step of the presence watcher: a successful lookup marks the player
/// online and greets only on the offline-to-online transition; a missing
/// player logs a departure only on the online-to-offline transition; any
/// other error silently marks the player offline.
pub fn presence_step(was_online: bool, outcome: &LookupOutcome) -> (r: PresenceEffect)
    ensures
        outcome is Found ==> r.online && r.greet == !was_online && !r.log_departure,
        outcome is PlayerMissing ==> !r.online && !r.greet && r.log_departure == was_online,
        outcome is OtherError ==> !r.online && !r.greet && !r.log_departure,
{
    match outcome {
        LookupOutcome::Found => PresenceEffect {
            online: true,
            greet: !was_online,
            log_departure: false,
        },
        LookupOutcome::PlayerMissing => PresenceEffect {
            online: false,
            greet: false,
            log_departure: was_online,
        },
        LookupOutcome::OtherError => PresenceEffect {
            online: false,
            greet: false,
            log_departure: false,
        },
    }
}

/// Whether a cleaned phrase is long enough to consider at all.
pub fn phrase_long_enough(cleaned: &str, min_phrase_chars: usize) -> (r: bool)
    ensures
        r == (cleaned@.len() >= min_phrase_chars),
{
    let cs = str_chars(cleaned);
    cs.len() >= min_phrase_chars
}

/// The speaker tag carried by microphone events.
pub fn is_mic_speaker(speaker_id: &str) -> (r: bool)
    ensures
        r == (speaker_id@ == "mic"@),
{
    let cs = str_chars(speaker_id);
    let mic = vec!['m', 'i', 'c'];
    proof {
        reveal_strlit("mic");
        assert(mic@ =~= "mic"@);
    }
    crate::text::chars_eq(&cs, &mic)
}

} // verus!
