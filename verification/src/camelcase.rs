//! The CamelCase word-boundary tokenizer: a single-pass state machine over
//! grapheme clusters.
//!
//! The machine is specified by `step_st`/`step_emit` (one cluster) and
//! `token_spans` (a whole class sequence, in cluster indices); the executable
//! scanner is proved to emit exactly `token_spans`.  Public functions expose
//! word spans in character offsets, the words themselves, their count, and
//! the words rejoined with single spaces.

use vstd::prelude::*;
use vstd::string::{StrSliceExecFns, StringExecFns};
use crate::classes::{CharType, CCaseAction, char_class, action_for, classify_char, transition_to_action};
use crate::unicode::{grapheme_split, graphemes_of};

verus! {

/// The tokenizer's state between clusters: the class of the previous cluster,
/// the index where the pending word starts, whether the pending region is
/// being skipped (it is whitespace), and the suppression marker (-1 = unset).
pub ghost struct TokSt {
    pub prev: CharType,
    pub start: int,
    pub skipping: bool,
    pub suppress: int,
}

/// The state before any cluster has been processed.
pub open spec fn init_st() -> TokSt {
    TokSt { prev: CharType::Start, start: 0, skipping: false, suppress: -1 }
}

/// The span emitted when the pending word is closed at `end`: one span if the
/// pending region is non-empty and not being skipped, none otherwise.
pub open spec fn nw_emit(st: TokSt, end: int) -> Seq<(int, int)> {
    if st.start < end && !st.skipping {
        seq![(st.start, end)]
    } else {
        Seq::empty()
    }
}

/// The state after the pending word is closed at `end`.
pub open spec fn nw_st(st: TokSt, end: int, skip: bool) -> TokSt {
    TokSt { prev: st.prev, start: end, skipping: skip, suppress: st.suppress }
}

/// The state after processing the cluster at index `k` with class `c`.
pub open spec fn step_st(st: TokSt, k: int, c: CharType) -> TokSt {
    let a = action_for(st.prev, c);
    let st1 = if a == CCaseAction::Skip {
        nw_st(st, k, true)
    } else if a == CCaseAction::StartWord && st.suppress != k {
        nw_st(st, k, false)
    } else if a == CCaseAction::AlreadyStartedWord && st.suppress != k - 1 {
        nw_st(st, k - 1, false)
    } else if a == CCaseAction::Suppress {
        TokSt { prev: st.prev, start: st.start, skipping: st.skipping, suppress: k }
    } else {
        st
    };
    TokSt { prev: c, start: st1.start, skipping: st1.skipping, suppress: st1.suppress }
}

/// The spans emitted while processing the cluster at index `k` with class `c`.
pub open spec fn step_emit(st: TokSt, k: int, c: CharType) -> Seq<(int, int)> {
    let a = action_for(st.prev, c);
    if a == CCaseAction::Skip {
        nw_emit(st, k)
    } else if a == CCaseAction::StartWord && st.suppress != k {
        nw_emit(st, k)
    } else if a == CCaseAction::AlreadyStartedWord && st.suppress != k - 1 {
        nw_emit(st, k - 1)
    } else {
        Seq::empty()
    }
}

/// The state after processing clusters `k..cls.len()` from state `st`.
pub open spec fn steps_st(cls: Seq<CharType>, k: int, st: TokSt) -> TokSt
    decreases cls.len() - k,
{
    if k < 0 || k >= cls.len() {
        st
    } else {
        steps_st(cls, k + 1, step_st(st, k, cls[k]))
    }
}

/// The spans emitted while processing clusters `k..cls.len()` from state `st`.
pub open spec fn steps_emit(cls: Seq<CharType>, k: int, st: TokSt) -> Seq<(int, int)>
    decreases cls.len() - k,
{
    if k < 0 || k >= cls.len() {
        Seq::empty()
    } else {
        step_emit(st, k, cls[k]) + steps_emit(cls, k + 1, step_st(st, k, cls[k]))
    }
}

/// All word spans of a class sequence, in cluster indices: the spans emitted
/// during the scan, plus the final drain of the pending word.
pub open spec fn token_spans(cls: Seq<CharType>) -> Seq<(int, int)> {
    steps_emit(cls, 0, init_st()) + nw_emit(steps_st(cls, 0, init_st()), cls.len() as int)
}

/// The class of each cluster, taken from its base (first) character.
pub open spec fn cluster_classes(cs: Seq<Seq<char>>) -> Seq<CharType> {
    cs.map_values(|g: Seq<char>| char_class(g[0]))
}

/// The suppression marker as the spec machine sees it.
pub open spec fn sup_val(s: Option<usize>) -> int {
    match s {
        Some(v) => v as int,
        None => -1,
    }
}

/// A class sequence never contains `Start`: no real character classifies to it.
pub proof fn lemma_class_not_start(c: char)
    ensures
        char_class(c) != CharType::Start,
{
}

/// Run the tokenizer over a cluster sequence, emitting cluster-index spans.
pub fn cluster_spans(clusters: &Vec<String>) -> (spans: Vec<(usize, usize)>)
    requires
        forall|i: int| 0 <= i < clusters@.len() ==> clusters@[i]@.len() > 0,
    ensures
        spans@.map_values(|p: (usize, usize)| (p.0 as int, p.1 as int))
            == token_spans(cluster_classes(clusters@.map_values(|g: String| g@))),
        forall|i: int| 0 <= i < spans@.len()
            ==> spans@[i].0 < spans@[i].1 && spans@[i].1 <= clusters@.len(),
{
    let ghost cs = clusters@.map_values(|g: String| g@);
    let ghost cls = cluster_classes(cs);
    let n: usize = clusters.len();
    let mut spans: Vec<(usize, usize)> = Vec::new();
    let mut prev: CharType = CharType::Start;
    let mut start: usize = 0;
    let mut skipping: bool = false;
    let mut suppress: Option<usize> = None;
    let mut k: usize = 0;
    proof {
        assert(cls.len() == n);
    }
    while k < n
        invariant
            0 <= k <= n,
            n == clusters@.len(),
            cs == clusters@.map_values(|g: String| g@),
            cls == cluster_classes(cs),
            cls.len() == n,
            forall|i: int| 0 <= i < clusters@.len() ==> clusters@[i]@.len() > 0,
            start <= k,
            k == 0 ==> prev == CharType::Start && start == 0 && !skipping && suppress is None,
            k > 0 ==> prev == cls[k as int - 1],
            suppress is Some ==> suppress->0 < k,
            steps_st(cls, 0, init_st())
                == steps_st(cls, k as int, TokSt {
                    prev: prev,
                    start: start as int,
                    skipping: skipping,
                    suppress: sup_val(suppress),
                }),
            steps_emit(cls, 0, init_st())
                == spans@.map_values(|p: (usize, usize)| (p.0 as int, p.1 as int))
                    + steps_emit(cls, k as int, TokSt {
                        prev: prev,
                        start: start as int,
                        skipping: skipping,
                        suppress: sup_val(suppress),
                    }),
            forall|i: int| 0 <= i < spans@.len()
                ==> spans@[i].0 < spans@[i].1 && spans@[i].1 <= k,
        decreases n - k,
    {
        let ghost st_old = TokSt {
            prev: prev,
            start: start as int,
            skipping: skipping,
            suppress: sup_val(suppress),
        };
        let base = clusters[k].as_str().get_char(0);
        let ct = classify_char(base);
        proof {
            assert(cs[k as int] == clusters@[k as int]@);
            assert(cls[k as int] == char_class(cs[k as int][0]));
            assert(ct == cls[k as int]);
        }
        let a = transition_to_action(prev, ct);
        let ghost spans_old = spans@;
        match a {
            CCaseAction::Skip => {
                if start < k && !skipping {
                    spans.push((start, k));
                }
                start = k;
                skipping = true;
            },
            CCaseAction::StartWord => {
                let blocked = match suppress {
                    Some(v) => v == k,
                    None => false,
                };
                if !blocked {
                    if start < k && !skipping {
                        spans.push((start, k));
                    }
                    start = k;
                    skipping = false;
                }
            },
            CCaseAction::AlreadyStartedWord => {
                proof {
                    lemma_class_not_start(cs[k as int][0]);
                    assert(prev == CharType::Uppercase || prev == CharType::Titlecase);
                    assert(k >= 1);
                }
                let e = k - 1;
                let blocked = match suppress {
                    Some(v) => v == e,
                    None => false,
                };
                if !blocked {
                    if start < e && !skipping {
                        spans.push((start, e));
                    }
                    start = e;
                    skipping = false;
                }
            },
            CCaseAction::Suppress => {
                suppress = Some(k);
            },
            CCaseAction::Literal => {},
        }
        prev = ct;
        proof {
            let st_new = TokSt {
                prev: prev,
                start: start as int,
                skipping: skipping,
                suppress: sup_val(suppress),
            };
            assert(st_new == step_st(st_old, k as int, cls[k as int]));
            assert(spans@.map_values(|p: (usize, usize)| (p.0 as int, p.1 as int))
                =~= spans_old.map_values(|p: (usize, usize)| (p.0 as int, p.1 as int))
                    + step_emit(st_old, k as int, cls[k as int]));
            assert(steps_emit(cls, k as int, st_old)
                == step_emit(st_old, k as int, cls[k as int])
                    + steps_emit(cls, k as int + 1, st_new));
            assert(spans_old.map_values(|p: (usize, usize)| (p.0 as int, p.1 as int))
                    + steps_emit(cls, k as int, st_old)
                =~= spans@.map_values(|p: (usize, usize)| (p.0 as int, p.1 as int))
                    + steps_emit(cls, k as int + 1, st_new));
        }
        k = k + 1;
    }
    let ghost st_fin = TokSt {
        prev: prev,
        start: start as int,
        skipping: skipping,
        suppress: sup_val(suppress),
    };
    let ghost spans_old = spans@;
    if start < n && !skipping {
        spans.push((start, n));
    }
    proof {
        assert(steps_st(cls, n as int, st_fin) == st_fin);
        assert(steps_emit(cls, n as int, st_fin) == Seq::<(int, int)>::empty());
        assert(spans@.map_values(|p: (usize, usize)| (p.0 as int, p.1 as int))
            =~= spans_old.map_values(|p: (usize, usize)| (p.0 as int, p.1 as int))
                + nw_emit(st_fin, n as int));
        assert(spans@.map_values(|p: (usize, usize)| (p.0 as int, p.1 as int))
            =~= token_spans(cls));
    }
    spans
}

/// The character offset of the start of cluster `k`: the total length of the
/// clusters before it.
pub open spec fn cluster_offset(cs: Seq<Seq<char>>, k: int) -> int
    decreases k,
{
    if k <= 0 {
        0
    } else {
        cluster_offset(cs, k - 1) + cs[k - 1].len()
    }
}

/// Cluster offsets grow monotonically with the index.
pub proof fn lemma_cluster_offset_mono(cs: Seq<Seq<char>>, i: int, j: int)
    requires
        0 <= i <= j,
    ensures
        cluster_offset(cs, i) <= cluster_offset(cs, j),
    decreases j - i,
{
    if i < j {
        lemma_cluster_offset_mono(cs, i, j - 1);
        if 0 <= j - 1 < cs.len() {
        } else {
        }
    }
}

/// Concatenating a cluster sequence yields exactly `cluster_offset(cs, cs.len())`
/// characters.
pub proof fn lemma_flatten_len(cs: Seq<Seq<char>>)
    ensures
        cs.flatten().len() == cluster_offset(cs, cs.len() as int),
    decreases cs.len(),
{
    if cs.len() == 0 {
        assert(cs.flatten() =~= Seq::<char>::empty());
    } else {
        let head = cs[0];
        let tail = cs.drop_first();
        assert(cs.flatten() == head + tail.flatten());
        lemma_flatten_len(tail);
        lemma_cluster_offset_shift(cs, cs.len() as int);
    }
}

/// Offsets in a cluster sequence decompose as the head length plus offsets in
/// the tail.
pub proof fn lemma_cluster_offset_shift(cs: Seq<Seq<char>>, k: int)
    requires
        1 <= k <= cs.len(),
    ensures
        cluster_offset(cs, k) == cs[0].len() + cluster_offset(cs.drop_first(), k - 1),
    decreases k,
{
    if k == 1 {
        assert(cluster_offset(cs, 0) == 0);
        assert(cluster_offset(cs.drop_first(), 0) == 0);
    } else {
        lemma_cluster_offset_shift(cs, k - 1);
        assert(cs.drop_first()[k - 2] == cs[k - 1]);
        assert(cluster_offset(cs.drop_first(), k - 1)
            == cluster_offset(cs.drop_first(), k - 2) + cs.drop_first()[k - 2].len());
    }
}

/// The word spans of a cluster sequence, in character offsets into the
/// flattened sequence.
pub open spec fn char_spans(cs: Seq<Seq<char>>) -> Seq<(int, int)> {
    token_spans(cluster_classes(cs)).map_values(
        |p: (int, int)| (cluster_offset(cs, p.0), cluster_offset(cs, p.1)),
    )
}

/// Returns the `(start_offset, end_offset)` pairs delimiting words within the
/// string, as separated by camelcase rules; offsets count characters and fall
/// on grapheme-cluster boundaries.
pub fn camelcase_offsets(s: &str) -> (spans: Vec<(usize, usize)>)
    ensures
        spans@.map_values(|p: (usize, usize)| (p.0 as int, p.1 as int))
            == char_spans(grapheme_split(s@)),
{
    let total: usize = s.unicode_len();
    let clusters = graphemes_of(s);
    let ghost cs = clusters@.map_values(|g: String| g@);
    proof {
        lemma_flatten_len(cs);
        assert(cluster_offset(cs, cs.len() as int) == s@.len());
    }
    let isp = cluster_spans(&clusters);
    let n: usize = clusters.len();

    // Character offset of each cluster boundary, by prefix sums.
    let mut offs: Vec<usize> = Vec::new();
    let mut acc: usize = 0;
    let mut k: usize = 0;
    while k < n
        invariant
            0 <= k <= n,
            n == clusters@.len(),
            cs == clusters@.map_values(|g: String| g@),
            cluster_offset(cs, cs.len() as int) <= usize::MAX,
            offs@.len() == k,
            forall|i: int| 0 <= i < k ==> offs@[i] == cluster_offset(cs, i),
            acc == cluster_offset(cs, k as int),
        decreases n - k,
    {
        offs.push(acc);
        let l: usize = clusters[k].as_str().unicode_len();
        proof {
            lemma_cluster_offset_mono(cs, k as int + 1, cs.len() as int);
            assert(cluster_offset(cs, k as int + 1)
                == cluster_offset(cs, k as int) + cs[k as int].len());
        }
        acc = acc + l;
        k = k + 1;
    }
    offs.push(acc);

    let mut spans: Vec<(usize, usize)> = Vec::new();
    let mut i: usize = 0;
    while i < isp.len()
        invariant
            0 <= i <= isp@.len(),
            n == clusters@.len(),
            cs == clusters@.map_values(|g: String| g@),
            offs@.len() == n + 1,
            forall|j: int| 0 <= j <= n ==> offs@[j] == cluster_offset(cs, j),
            forall|j: int| 0 <= j < isp@.len()
                ==> isp@[j].0 < isp@[j].1 && isp@[j].1 <= n,
            isp@.map_values(|p: (usize, usize)| (p.0 as int, p.1 as int))
                == token_spans(cluster_classes(cs)),
            spans@.len() == i,
            forall|j: int| 0 <= j < i
                ==> (#[trigger] spans@[j].0 as int, spans@[j].1 as int)
                    == char_spans(cs)[j],
        decreases isp@.len() - i,
    {
        let (a, b) = isp[i];
        let sa = offs[a];
        let sb = offs[b];
        spans.push((sa, sb));
        proof {
            assert(token_spans(cluster_classes(cs))[i as int]
                == (a as int, b as int));
            assert(char_spans(cs)[i as int] == (sa as int, sb as int));
        }
        i = i + 1;
    }
    proof {
        assert(spans@.map_values(|p: (usize, usize)| (p.0 as int, p.1 as int))
            =~= char_spans(cs));
        assert(grapheme_split(s@) == cs);
    }
    spans
}

/// The concatenation of clusters `a..b`.
pub open spec fn cat(cs: Seq<Seq<char>>, a: int, b: int) -> Seq<char>
    decreases b - a,
{
    if b <= a {
        Seq::empty()
    } else {
        cat(cs, a, b - 1) + cs[b - 1]
    }
}

/// The words of a cluster sequence: for each span, its clusters concatenated.
pub open spec fn words_of(cs: Seq<Seq<char>>) -> Seq<Seq<char>> {
    token_spans(cluster_classes(cs)).map_values(|p: (int, int)| cat(cs, p.0, p.1))
}

/// Returns the words of the string, as separated by camelcase rules.
///
/// Unlike the camelcase typically used for function names, this inserts
/// boundaries between words and numbers ("Thing Part 1" rather than
/// "Thing Part1"), which matches how real-world game file names behave.
pub fn camelcase_words(s: &str) -> (words: Vec<String>)
    ensures
        words@.map_values(|w: String| w@) == words_of(grapheme_split(s@)),
{
    let clusters = graphemes_of(s);
    let ghost cs = clusters@.map_values(|g: String| g@);
    let isp = cluster_spans(&clusters);
    let mut words: Vec<String> = Vec::new();
    let mut i: usize = 0;
    while i < isp.len()
        invariant
            0 <= i <= isp@.len(),
            cs == clusters@.map_values(|g: String| g@),
            forall|j: int| 0 <= j < isp@.len()
                ==> isp@[j].0 < isp@[j].1 && isp@[j].1 <= clusters@.len(),
            isp@.map_values(|p: (usize, usize)| (p.0 as int, p.1 as int))
                == token_spans(cluster_classes(cs)),
            words@.len() == i,
            forall|j: int| 0 <= j < i ==> (#[trigger] words@[j])@ == words_of(cs)[j],
        decreases isp@.len() - i,
    {
        let (a, b) = isp[i];
        let mut w = String::new();
        let mut j: usize = a;
        while j < b
            invariant
                a <= j <= b,
                b <= clusters@.len(),
                cs == clusters@.map_values(|g: String| g@),
                w@ == cat(cs, a as int, j as int),
            decreases b - j,
        {
            w.append(clusters[j].as_str());
            j = j + 1;
        }
        proof {
            assert(token_spans(cluster_classes(cs))[i as int] == (a as int, b as int));
            assert(words_of(cs)[i as int] == cat(cs, a as int, b as int));
        }
        words.push(w);
        i = i + 1;
    }
    proof {
        assert(words@.map_values(|w: String| w@) =~= words_of(cs));
        assert(grapheme_split(s@) == cs);
    }
    words
}

/// Returns the number of camelcase words in the string.
pub fn camelcase_word_count(s: &str) -> (n: usize)
    ensures
        n == token_spans(cluster_classes(grapheme_split(s@))).len(),
{
    let clusters = graphemes_of(s);
    let isp = cluster_spans(&clusters);
    isp.len()
}

/// Words `ws[0..k]` joined with single spaces.
pub open spec fn join_upto(ws: Seq<Seq<char>>, k: int) -> Seq<char>
    decreases k,
{
    if k <= 0 {
        Seq::empty()
    } else if k == 1 {
        ws[0]
    } else {
        join_upto(ws, k - 1) + seq![' '] + ws[k - 1]
    }
}

/// A word sequence joined with single spaces.
pub open spec fn join_spaces(ws: Seq<Seq<char>>) -> Seq<char> {
    join_upto(ws, ws.len() as int)
}

/// Insert spaces at word boundaries in a camelcase string: the camelcase
/// words of the input, rejoined with single spaces.
pub fn camelcase_to_spaces(s: &str) -> (r: String)
    ensures
        r@ == join_spaces(words_of(grapheme_split(s@))),
{
    let words = camelcase_words(s);
    let ghost ws = words@.map_values(|w: String| w@);
    let mut out = String::new();
    let mut i: usize = 0;
    proof {
        reveal_strlit(" ");
        assert((" ")@ =~= seq![' ']);
    }
    while i < words.len()
        invariant
            0 <= i <= words@.len(),
            ws == words@.map_values(|w: String| w@),
            out@ == join_upto(ws, i as int),
            (" ")@ == seq![' '],
        decreases words@.len() - i,
    {
        if i > 0 {
            out.append(" ");
        }
        out.append(words[i].as_str());
        proof {
            assert(out@ =~= join_upto(ws, i as int + 1));
        }
        i = i + 1;
    }
    proof {
        assert(join_upto(ws, ws.len() as int) == join_spaces(ws));
        assert(ws == words_of(grapheme_split(s@)));
    }
    out
}

} // verus!
