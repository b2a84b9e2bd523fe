//! Laws of the tokenizer's span structure: spans are never empty, they are
//! strictly increasing and non-overlapping, and they cover exactly the
//! clusters that are not whitespace.

use vstd::prelude::*;
use crate::classes::{CharType, CCaseAction, action_for};
use crate::camelcase::{
    TokSt, init_st, nw_emit, step_st, step_emit, steps_st, steps_emit, token_spans,
    cluster_classes, cluster_offset, char_spans, lemma_cluster_offset_mono,
};

verus! {

/// Whether position `j` falls inside one of the spans.
pub open spec fn covered(ems: Seq<(int, int)>, j: int) -> bool {
    exists|i: int| 0 <= i < ems.len() && (#[trigger] ems[i]).0 <= j < ems[i].1
}

/// Splitting a span list splits coverage.
proof fn lemma_covered_split(e0: Seq<(int, int)>, e1: Seq<(int, int)>, j: int)
    ensures
        covered(e0 + e1, j) <==> covered(e0, j) || covered(e1, j),
{
    let e = e0 + e1;
    if covered(e, j) {
        let i = choose|i: int| 0 <= i < e.len() && (#[trigger] e[i]).0 <= j < e[i].1;
        if i < e0.len() {
            assert(e0[i] == e[i]);
            assert(covered(e0, j));
        } else {
            assert(e1[i - e0.len()] == e[i]);
            assert(covered(e1, j));
        }
    }
    if covered(e0, j) {
        let i = choose|i: int| 0 <= i < e0.len() && (#[trigger] e0[i]).0 <= j < e0[i].1;
        assert(e[i] == e0[i]);
        assert(covered(e, j));
    }
    if covered(e1, j) {
        let i = choose|i: int| 0 <= i < e1.len() && (#[trigger] e1[i]).0 <= j < e1[i].1;
        assert(e[i + e0.len()] == e1[i]);
        assert(covered(e, j));
    }
}

/// The machine's state invariant before processing cluster `k`.
pub open spec fn st_inv(cls: Seq<CharType>, k: int, st: TokSt) -> bool {
    &&& 0 <= k <= cls.len()
    &&& (k == 0 ==> st == init_st())
    &&& (k > 0 ==> st.prev == cls[k - 1])
    &&& 0 <= st.start <= k
    &&& (k > 0 ==> st.start < k)
    &&& -1 <= st.suppress < k
    &&& (st.skipping ==> k > 0 && st.start == k - 1 && cls[k - 1] == CharType::Whitespace)
    &&& (!st.skipping ==> forall|j: int| st.start <= j < k
            ==> #[trigger] cls[j] != CharType::Whitespace)
}

/// The spans still to come from state `st` at position `k`: the spans the
/// remaining clusters emit, plus the final drain.
pub open spec fn rest_spans(cls: Seq<CharType>, k: int, st: TokSt) -> Seq<(int, int)> {
    steps_emit(cls, k, st) + nw_emit(steps_st(cls, k, st), cls.len() as int)
}

/// No real cluster classifies as `Start`, so a sequence of cluster classes
/// that contains `Start` describes no input; the laws hold without that
/// assumption, since the machine treats `Start` like any other distinct class.
///
/// Every span the remaining run emits is non-empty, starts no earlier than
/// the pending word, ends within the input, and ends no later than the next
/// span begins; while the machine is skipping, every span still to come lies
/// at or past the current position.
proof fn lemma_run_bounds(cls: Seq<CharType>, k: int, st: TokSt)
    requires
        st_inv(cls, k, st),
    ensures
        forall|i: int| 0 <= i < rest_spans(cls, k, st).len()
            ==> st.start <= #[trigger] rest_spans(cls, k, st)[i].0
                < rest_spans(cls, k, st)[i].1 <= cls.len(),
        forall|i: int| 0 <= i < rest_spans(cls, k, st).len() - 1
            ==> #[trigger] rest_spans(cls, k, st)[i].1 <= rest_spans(cls, k, st)[i + 1].0,
        st.skipping ==> forall|i: int| 0 <= i < rest_spans(cls, k, st).len()
            ==> #[trigger] rest_spans(cls, k, st)[i].0 >= k,
    decreases cls.len() - k,
{
    let ems = rest_spans(cls, k, st);
    if k >= cls.len() {
        assert(steps_emit(cls, k, st) =~= Seq::<(int, int)>::empty());
        assert(steps_st(cls, k, st) == st);
        assert(ems =~= nw_emit(st, cls.len() as int));
    } else {
        let c = cls[k];
        let a = action_for(st.prev, c);
        let st2 = step_st(st, k, c);
        let em = step_emit(st, k, c);
        assert(steps_emit(cls, k, st) == em + steps_emit(cls, k + 1, st2));
        assert(steps_st(cls, k, st) == steps_st(cls, k + 1, st2));
        let rest = rest_spans(cls, k + 1, st2);
        assert(ems =~= em + rest);
        lemma_step_inv(cls, k, st);
        lemma_run_bounds(cls, k + 1, st2);
        if em.len() > 0 {
            assert(em.len() == 1);
            assert(em[0].0 == st.start && em[0].1 == st2.start && !st.skipping);
            assert(ems[0] == em[0]);
            assert(forall|i: int| 0 <= i < rest.len() ==> ems[i + 1] == #[trigger] rest[i]);
            assert(forall|i: int| 1 <= i < ems.len() ==> #[trigger] ems[i] == rest[i - 1]);
        } else {
            assert(ems =~= rest);
        }
    }
}

/// One machine step preserves the state invariant.
pub(crate) proof fn lemma_step_inv(cls: Seq<CharType>, k: int, st: TokSt)
    requires
        st_inv(cls, k, st),
        k < cls.len(),
    ensures
        st_inv(cls, k + 1, step_st(st, k, cls[k])),
        ({
            let st2 = step_st(st, k, cls[k]);
            &&& st.start <= st2.start <= k
            &&& (step_emit(st, k, cls[k]).len() > 0 ==> !st.skipping
                && step_emit(st, k, cls[k])
                    =~= seq![(st.start, st2.start)] && st.start < st2.start)
            &&& (step_emit(st, k, cls[k]).len() == 0 ==> step_emit(st, k, cls[k])
                    =~= Seq::<(int, int)>::empty())
            &&& (st2.skipping ==> st2.start == k && cls[k] == CharType::Whitespace)
        }),
{
    let c = cls[k];
    let a = action_for(st.prev, c);
    if st.skipping {
        assert(st.prev == CharType::Whitespace);
        assert(a == CCaseAction::Skip || a == CCaseAction::StartWord);
    }
    assert(a == CCaseAction::Skip <==> c == CharType::Whitespace);
    if a == CCaseAction::AlreadyStartedWord {
        assert(st.prev == CharType::Uppercase || st.prev == CharType::Titlecase);
        assert(k > 0 && cls[k - 1] != CharType::Whitespace);
    }
}

/// The remaining run covers exactly the pending word plus every
/// non-whitespace cluster still to come.
#[verifier::rlimit(60)]
proof fn lemma_run_coverage(cls: Seq<CharType>, k: int, st: TokSt)
    requires
        st_inv(cls, k, st),
    ensures
        !st.skipping ==> forall|j: int| st.start <= j < cls.len()
            ==> (covered(rest_spans(cls, k, st), j)
                <==> (j < k || #[trigger] cls[j] != CharType::Whitespace)),
        st.skipping ==> forall|j: int| k <= j < cls.len()
            ==> (covered(rest_spans(cls, k, st), j)
                <==> #[trigger] cls[j] != CharType::Whitespace),
    decreases cls.len() - k,
{
    let ems = rest_spans(cls, k, st);
    if k >= cls.len() {
        assert(steps_emit(cls, k, st) =~= Seq::<(int, int)>::empty());
        assert(steps_st(cls, k, st) == st);
        assert(ems =~= nw_emit(st, cls.len() as int));
        if !st.skipping && st.start < cls.len() {
            assert(ems[0] == (st.start, cls.len() as int));
            assert forall|j: int| st.start <= j < cls.len()
                implies #[trigger] covered(ems, j) by {
                assert(ems[0].0 <= j < ems[0].1);
            }
        }
    } else {
        let c = cls[k];
        let a = action_for(st.prev, c);
        let st2 = step_st(st, k, c);
        let em = step_emit(st, k, c);
        assert(steps_emit(cls, k, st) == em + steps_emit(cls, k + 1, st2));
        assert(steps_st(cls, k, st) == steps_st(cls, k + 1, st2));
        let rest = rest_spans(cls, k + 1, st2);
        assert(ems =~= em + rest);
        lemma_step_inv(cls, k, st);
        lemma_run_coverage(cls, k + 1, st2);
        lemma_run_bounds(cls, k + 1, st2);
        assert(a == CCaseAction::Skip <==> c == CharType::Whitespace);
        if !st.skipping {
            assert forall|j: int| st.start <= j < cls.len()
                implies (covered(ems, j)
                    <==> (j < k || #[trigger] cls[j] != CharType::Whitespace)) by {
                lemma_covered_split(em, rest, j);
                if em.len() > 0 {
                    assert(em =~= seq![(st.start, st2.start)]);
                    if st.start <= j < st2.start {
                        assert(em[0].0 <= j < em[0].1);
                        assert(covered(em, j));
                    }
                    if covered(em, j) {
                        let i = choose|i: int| 0 <= i < em.len()
                            && (#[trigger] em[i]).0 <= j < em[i].1;
                        assert(i == 0);
                        assert(st.start <= j < st2.start);
                    }
                }
                if j >= k + 1 {
                    // settled by the recursive call on the tail
                } else if j == k {
                    if st2.skipping {
                        assert(!covered(rest, k));
                    }
                } else {
                    // j < k: inside the pending word or the emitted span
                    if em.len() == 0 {
                        assert(st2.start <= st.start);
                        assert(!st2.skipping ==> covered(rest, j));
                        assert(st2.skipping ==> st.start == k && !(st.start <= j < k));
                    }
                }
            }
        } else {
            assert(st2.start == k);
            assert forall|j: int| k <= j < cls.len()
                implies (covered(ems, j)
                    <==> #[trigger] cls[j] != CharType::Whitespace) by {
                lemma_covered_split(em, rest, j);
                assert(em.len() == 0);
                if j == k && st2.skipping {
                    assert(!covered(rest, k));
                }
            }
        }
    }
}

/// The tokenizer never emits an empty span: `start < end` for every span,
/// and every span lies within the input.
pub proof fn lemma_no_empty_spans(cls: Seq<CharType>)
    ensures
        forall|i: int| 0 <= i < token_spans(cls).len()
            ==> 0 <= #[trigger] token_spans(cls)[i].0 < token_spans(cls)[i].1 <= cls.len(),
{
    lemma_run_bounds(cls, 0, init_st());
    assert(token_spans(cls) == rest_spans(cls, 0, init_st()));
}

/// The spans are strictly increasing and non-overlapping: each one ends no
/// later than the next begins.
pub proof fn lemma_spans_ordered(cls: Seq<CharType>)
    ensures
        forall|i: int, j: int| 0 <= i < j < token_spans(cls).len()
            ==> #[trigger] token_spans(cls)[i].1 <= #[trigger] token_spans(cls)[j].0,
{
    lemma_run_bounds(cls, 0, init_st());
    assert(token_spans(cls) == rest_spans(cls, 0, init_st()));
    let ems = token_spans(cls);
    assert forall|i: int, j: int| 0 <= i < j < ems.len()
        implies #[trigger] ems[i].1 <= #[trigger] ems[j].0 by {
        lemma_chain(ems, i, j);
    }
}

proof fn lemma_chain(ems: Seq<(int, int)>, i: int, j: int)
    requires
        0 <= i < j < ems.len(),
        forall|m: int| 0 <= m < ems.len() - 1 ==> #[trigger] ems[m].1 <= ems[m + 1].0,
        forall|m: int| 0 <= m < ems.len() ==> #[trigger] ems[m].0 < ems[m].1,
    ensures
        ems[i].1 <= ems[j].0,
    decreases j - i,
{
    if j == i + 1 {
        assert(ems[i].1 <= ems[i + 1].0);
    } else {
        lemma_chain(ems, i, j - 1);
        assert(ems[j - 1].1 <= ems[j].0);
    }
}

/// Every cluster that is not whitespace falls inside some span, and no
/// whitespace cluster does; with the spans disjoint, each non-whitespace
/// cluster falls in exactly one.
pub proof fn lemma_span_coverage(cls: Seq<CharType>)
    ensures
        forall|j: int| 0 <= j < cls.len()
            ==> (covered(token_spans(cls), j) <==> #[trigger] cls[j] != CharType::Whitespace),
{
    lemma_run_coverage(cls, 0, init_st());
    assert(token_spans(cls) == rest_spans(cls, 0, init_st()));
}

/// With non-empty clusters, offsets grow strictly with the index.
proof fn lemma_cluster_offset_smono(cs: Seq<Seq<char>>, i: int, j: int)
    requires
        0 <= i < j <= cs.len(),
        forall|t: int| 0 <= t < cs.len() ==> (#[trigger] cs[t]).len() > 0,
    ensures
        cluster_offset(cs, i) < cluster_offset(cs, j),
    decreases j - i,
{
    if i < j - 1 {
        lemma_cluster_offset_smono(cs, i, j - 1);
    }
    assert(cluster_offset(cs, j) == cluster_offset(cs, j - 1) + cs[j - 1].len());
}

/// The character-offset spans inherit the cluster-level laws: every span is
/// non-empty and lies within the text, and each span ends no later than the
/// next begins.
pub proof fn lemma_char_spans_laws(cs: Seq<Seq<char>>)
    requires
        forall|t: int| 0 <= t < cs.len() ==> (#[trigger] cs[t]).len() > 0,
    ensures
        forall|i: int| 0 <= i < char_spans(cs).len()
            ==> 0 <= #[trigger] char_spans(cs)[i].0 < char_spans(cs)[i].1
                <= cluster_offset(cs, cs.len() as int),
        forall|i: int, j: int| 0 <= i < j < char_spans(cs).len()
            ==> #[trigger] char_spans(cs)[i].1 <= #[trigger] char_spans(cs)[j].0,
{
    let cls = cluster_classes(cs);
    let sp = token_spans(cls);
    lemma_no_empty_spans(cls);
    lemma_spans_ordered(cls);
    assert(cls.len() == cs.len());
    assert forall|i: int| 0 <= i < char_spans(cs).len()
        implies 0 <= #[trigger] char_spans(cs)[i].0 < char_spans(cs)[i].1
            <= cluster_offset(cs, cs.len() as int) by {
        assert(char_spans(cs)[i] == (cluster_offset(cs, sp[i].0), cluster_offset(cs, sp[i].1)));
        lemma_cluster_offset_mono(cs, 0, sp[i].0);
        lemma_cluster_offset_smono(cs, sp[i].0, sp[i].1);
        lemma_cluster_offset_mono(cs, sp[i].1, cs.len() as int);
    }
    assert forall|i: int, j: int| 0 <= i < j < char_spans(cs).len()
        implies #[trigger] char_spans(cs)[i].1 <= #[trigger] char_spans(cs)[j].0 by {
        assert(char_spans(cs)[i] == (cluster_offset(cs, sp[i].0), cluster_offset(cs, sp[i].1)));
        assert(char_spans(cs)[j] == (cluster_offset(cs, sp[j].0), cluster_offset(cs, sp[j].1)));
        assert(sp[i].1 <= sp[j].0);
        lemma_cluster_offset_mono(cs, sp[i].1, sp[j].0);
    }
}

} // verus!
