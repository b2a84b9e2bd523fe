//! The tokenizer's stability law: rejoining the words of a tokenization with
//! single whitespace clusters and tokenizing again yields the same words.
//!
//! The development works over class sequences.  A windowed run
//! (`steps_st_to`, `steps_emit_to`) processes a half-open range of clusters;
//! a relation `st_rel` connects two machine states that sit at shifted
//! positions of two runs, and the machine's steps preserve it.  Each emitted
//! word is shown to replay silently against a canonical run over the word
//! preceded by one whitespace cluster (`seg_ok`), and the joined sequence's
//! run is then reassembled word by word.

use vstd::prelude::*;
use crate::classes::{CharType, CCaseAction, action_for, char_class};
use crate::camelcase::{
    TokSt, init_st, nw_emit, step_st, step_emit, steps_st, steps_emit, token_spans,
    cluster_classes, words_of, cat,
};

verus! {

/// The state after processing clusters `k..b` from state `st`.
pub open spec fn steps_st_to(cls: Seq<CharType>, k: int, b: int, st: TokSt) -> TokSt
    decreases b - k,
{
    if k < 0 || k >= b || b > cls.len() {
        st
    } else {
        steps_st_to(cls, k + 1, b, step_st(st, k, cls[k]))
    }
}

/// The spans emitted while processing clusters `k..b` from state `st`.
pub open spec fn steps_emit_to(cls: Seq<CharType>, k: int, b: int, st: TokSt) -> Seq<(int, int)>
    decreases b - k,
{
    if k < 0 || k >= b || b > cls.len() {
        Seq::empty()
    } else {
        step_emit(st, k, cls[k]) + steps_emit_to(cls, k + 1, b, step_st(st, k, cls[k]))
    }
}

/// A windowed run to the end of the sequence is the plain run.
proof fn lemma_steps_to_full(cls: Seq<CharType>, k: int, st: TokSt)
    requires
        0 <= k <= cls.len(),
    ensures
        steps_st_to(cls, k, cls.len() as int, st) == steps_st(cls, k, st),
        steps_emit_to(cls, k, cls.len() as int, st) == steps_emit(cls, k, st),
    decreases cls.len() - k,
{
    if k < cls.len() {
        lemma_steps_to_full(cls, k + 1, step_st(st, k, cls[k]));
    } else {
        assert(steps_emit(cls, k, st) =~= Seq::<(int, int)>::empty());
    }
}

/// A windowed run splits at any midpoint.
proof fn lemma_steps_split(cls: Seq<CharType>, k: int, m: int, b: int, st: TokSt)
    requires
        0 <= k <= m <= b <= cls.len(),
    ensures
        steps_st_to(cls, k, b, st)
            == steps_st_to(cls, m, b, steps_st_to(cls, k, m, st)),
        steps_emit_to(cls, k, b, st)
            =~= steps_emit_to(cls, k, m, st)
                + steps_emit_to(cls, m, b, steps_st_to(cls, k, m, st)),
    decreases m - k,
{
    if k < m {
        lemma_steps_split(cls, k + 1, m, b, step_st(st, k, cls[k]));
    }
}

/// A windowed run reads only the clusters inside its window.
proof fn lemma_steps_frame(cls1: Seq<CharType>, cls2: Seq<CharType>, k: int, b: int, st: TokSt)
    requires
        0 <= k <= b,
        b <= cls1.len(),
        b <= cls2.len(),
        forall|r: int| k <= r < b ==> cls1[r] == cls2[r],
    ensures
        steps_st_to(cls1, k, b, st) == steps_st_to(cls2, k, b, st),
        steps_emit_to(cls1, k, b, st) == steps_emit_to(cls2, k, b, st),
    decreases b - k,
{
    if k < b {
        assert(cls1[k] == cls2[k]);
        lemma_steps_frame(cls1, cls2, k + 1, b, step_st(st, k, cls1[k]));
    }
}

/// Two machine states at shifted positions that behave the same from here
/// on: position `j1` in the first run corresponds to `j1 - d` in the second.
pub open spec fn st_rel(st1: TokSt, st2: TokSt, d: int, j1: int) -> bool {
    &&& st2.prev == st1.prev
    &&& st2.skipping == st1.skipping
    &&& st2.start == st1.start - d
    &&& (st1.suppress == j1 - 1 <==> st2.suppress == j1 - d - 1)
    &&& st1.suppress < j1
    &&& st2.suppress < j1 - d
}

/// A span list shifted down by `d`.
pub open spec fn shift_spans(ems: Seq<(int, int)>, d: int) -> Seq<(int, int)> {
    ems.map_values(|p: (int, int)| (p.0 - d, p.1 - d))
}

/// One step preserves the shifted-state relation, and the two steps emit the
/// same spans up to the shift.
proof fn lemma_step_rel(st1: TokSt, st2: TokSt, d: int, j1: int, c: CharType)
    requires
        st_rel(st1, st2, d, j1),
    ensures
        st_rel(step_st(st1, j1, c), step_st(st2, j1 - d, c), d, j1 + 1),
        step_emit(st2, j1 - d, c) =~= shift_spans(step_emit(st1, j1, c), d),
{
    let a = action_for(st1.prev, c);
    assert(action_for(st2.prev, c) == a);
    if a == CCaseAction::StartWord {
        assert(st1.suppress != j1);
        assert(st2.suppress != j1 - d);
    }
    if a == CCaseAction::AlreadyStartedWord {
        assert(st1.suppress == j1 - 1 <==> st2.suppress == j1 - d - 1);
    }
    assert(step_emit(st2, j1 - d, c) =~= shift_spans(step_emit(st1, j1, c), d));
}

/// A whole window preserves the shifted-state relation, and the two runs
/// emit the same spans up to the shift.
proof fn lemma_steps_rel(
    cls1: Seq<CharType>, k1: int, b1: int, st1: TokSt,
    cls2: Seq<CharType>, k2: int, b2: int, st2: TokSt,
)
    requires
        0 <= k1 <= b1 <= cls1.len(),
        0 <= k2 <= b2 <= cls2.len(),
        b1 - k1 == b2 - k2,
        forall|r: int| 0 <= r < b1 - k1 ==> #[trigger] cls1[k1 + r] == cls2[k2 + r],
        st_rel(st1, st2, k1 - k2, k1),
    ensures
        st_rel(steps_st_to(cls1, k1, b1, st1), steps_st_to(cls2, k2, b2, st2), k1 - k2, b1),
        steps_emit_to(cls2, k2, b2, st2)
            =~= shift_spans(steps_emit_to(cls1, k1, b1, st1), k1 - k2),
    decreases b1 - k1,
{
    let d = k1 - k2;
    if k1 < b1 {
        assert(cls1[k1 + 0] == cls2[k2 + 0]);
        assert(cls1[k1] == cls2[k2]);
        lemma_step_rel(st1, st2, d, k1, cls1[k1]);
        assert forall|r: int| 0 <= r < b1 - k1 - 1
            implies #[trigger] cls1[k1 + 1 + r] == cls2[k2 + 1 + r] by {
            assert(cls1[k1 + (r + 1)] == cls2[k2 + (r + 1)]);
        }
        lemma_steps_rel(
            cls1, k1 + 1, b1, step_st(st1, k1, cls1[k1]),
            cls2, k2 + 1, b2, step_st(st2, k2, cls2[k2]),
        );
        let e1h = step_emit(st1, k1, cls1[k1]);
        let e1t = steps_emit_to(cls1, k1 + 1, b1, step_st(st1, k1, cls1[k1]));
        let e2h = step_emit(st2, k2, cls2[k2]);
        let e2t = steps_emit_to(cls2, k2 + 1, b2, step_st(st2, k2, cls2[k2]));
        assert(e2h + e2t =~= shift_spans(e1h + e1t, d));
    } else {
        assert(steps_emit_to(cls2, k2, b2, st2) =~= Seq::<(int, int)>::empty());
        assert(shift_spans(Seq::<(int, int)>::empty(), d) =~= Seq::<(int, int)>::empty());
    }
}

/// A word preceded by one whitespace cluster, as it sits in rejoined text.
pub open spec fn wsw(w: Seq<CharType>) -> Seq<CharType> {
    seq![CharType::Whitespace] + w
}

/// The canonical run of a word: the machine started fresh on the word with a
/// whitespace cluster in front.  Its final state.
pub open spec fn canon_st(w: Seq<CharType>) -> TokSt {
    steps_st_to(wsw(w), 0, w.len() as int + 1, init_st())
}

/// The spans the canonical run of a word emits.
pub open spec fn canon_emit(w: Seq<CharType>) -> Seq<(int, int)> {
    steps_emit_to(wsw(w), 0, w.len() as int + 1, init_st())
}

/// A word as the tokenizer emits it: non-empty, free of whitespace, and
/// silent under its canonical run — scanned after a space, it produces no
/// break before its end.
pub open spec fn seg_ok(w: Seq<CharType>) -> bool {
    &&& w.len() > 0
    &&& (forall|j: int| 0 <= j < w.len() ==> #[trigger] w[j] != CharType::Whitespace)
    &&& canon_emit(w) == Seq::<(int, int)>::empty()
}

/// The canonical run's state after the leading whitespace cluster alone.
proof fn lemma_canon_ws(w: Seq<CharType>)
    ensures
        steps_st_to(wsw(w), 0, 1, init_st())
            == (TokSt { prev: CharType::Whitespace, start: 0, skipping: true, suppress: -1 }),
        steps_emit_to(wsw(w), 0, 1, init_st()) =~= Seq::<(int, int)>::empty(),
{
    let cw = wsw(w);
    assert(cw[0] == CharType::Whitespace);
    let s1 = step_st(init_st(), 0, CharType::Whitespace);
    assert(action_for(CharType::Start, CharType::Whitespace) == CCaseAction::Skip);
    assert(steps_st_to(cw, 0, 1, init_st()) == steps_st_to(cw, 1, 1, s1));
    assert(steps_st_to(cw, 1, 1, s1) == s1);
    assert(steps_emit_to(cw, 0, 1, init_st())
        =~= step_emit(init_st(), 0, CharType::Whitespace) + steps_emit_to(cw, 1, 1, s1));
    assert(steps_emit_to(cw, 1, 1, s1) =~= Seq::<(int, int)>::empty());
}

/// The canonical run of a one-cluster word: silent, and it ends ready to
/// extend a word that starts right after the space.
proof fn lemma_canon_one(c: CharType)
    requires
        c != CharType::Whitespace,
    ensures
        canon_st(seq![c]) == (TokSt { prev: c, start: 1, skipping: false, suppress: -1 }),
        canon_emit(seq![c]) =~= Seq::<(int, int)>::empty(),
{
    let w = seq![c];
    let cw = wsw(w);
    assert(cw.len() == 2 && cw[0] == CharType::Whitespace && cw[1] == c);
    lemma_steps_split(cw, 0, 1, 2, init_st());
    lemma_canon_ws(w);
    let s1 = TokSt { prev: CharType::Whitespace, start: 0, skipping: true, suppress: -1 };
    assert(action_for(CharType::Whitespace, c) == CCaseAction::StartWord);
    let s2 = step_st(s1, 1, c);
    assert(s2 == (TokSt { prev: c, start: 1, skipping: false, suppress: -1 }));
    assert(steps_st_to(cw, 1, 2, s1) == steps_st_to(cw, 2, 2, s2));
    assert(steps_st_to(cw, 2, 2, s2) == s2);
    assert(step_emit(s1, 1, c) =~= Seq::<(int, int)>::empty());
    assert(steps_emit_to(cw, 1, 2, s1)
        =~= step_emit(s1, 1, c) + steps_emit_to(cw, 2, 2, s2));
    assert(steps_emit_to(cw, 2, 2, s2) =~= Seq::<(int, int)>::empty());
    assert(canon_emit(w) =~= Seq::<(int, int)>::empty());
}

/// The canonical run of a two-cluster word whose pair triggers the
/// retroactive split: the rewind lands exactly on the word's start, so the
/// run is still silent.
proof fn lemma_canon_two(x: CharType, y: CharType)
    requires
        action_for(x, y) == CCaseAction::AlreadyStartedWord,
    ensures
        canon_st(seq![x, y]) == (TokSt { prev: y, start: 1, skipping: false, suppress: -1 }),
        canon_emit(seq![x, y]) =~= Seq::<(int, int)>::empty(),
{
    let w = seq![x, y];
    let cw = wsw(w);
    assert(x == CharType::Uppercase || x == CharType::Titlecase);
    assert(y == CharType::Lowercase);
    assert(cw.len() == 3 && cw[0] == CharType::Whitespace && cw[1] == x && cw[2] == y);
    lemma_canon_ws(w);
    lemma_steps_split(cw, 0, 1, 3, init_st());
    let s1 = TokSt { prev: CharType::Whitespace, start: 0, skipping: true, suppress: -1 };
    assert(action_for(CharType::Whitespace, x) == CCaseAction::StartWord);
    let s2 = step_st(s1, 1, x);
    assert(s2 == (TokSt { prev: x, start: 1, skipping: false, suppress: -1 }));
    assert(step_emit(s1, 1, x) =~= Seq::<(int, int)>::empty());
    let s3 = step_st(s2, 2, y);
    assert(s3 == (TokSt { prev: y, start: 1, skipping: false, suppress: -1 }));
    assert(step_emit(s2, 2, y) =~= Seq::<(int, int)>::empty());
    assert(steps_st_to(cw, 1, 3, s1) == steps_st_to(cw, 2, 3, s2));
    assert(steps_st_to(cw, 2, 3, s2) == steps_st_to(cw, 3, 3, s3));
    assert(steps_st_to(cw, 3, 3, s3) == s3);
    assert(steps_emit_to(cw, 1, 3, s1)
        =~= step_emit(s1, 1, x) + steps_emit_to(cw, 2, 3, s2));
    assert(steps_emit_to(cw, 2, 3, s2)
        =~= step_emit(s2, 2, y) + steps_emit_to(cw, 3, 3, s3));
    assert(steps_emit_to(cw, 3, 3, s3) =~= Seq::<(int, int)>::empty());
    assert(canon_emit(w) =~= Seq::<(int, int)>::empty());
}

/// Along a silent canonical run the word's start never moves: from the
/// second position on, the state always points at position 1, is not
/// skipping, and carries the previous cluster's class.
proof fn lemma_canon_stable(w: Seq<CharType>, m: int)
    requires
        seg_ok(w),
        2 <= m <= w.len() + 1,
    ensures
        ({
            let stm = steps_st_to(wsw(w), 0, m, init_st());
            &&& stm.start == 1
            &&& !stm.skipping
            &&& stm.prev == w[m - 2]
            &&& -1 <= stm.suppress < m
        }),
    decreases m,
{
    let cw = wsw(w);
    if m == 2 {
        lemma_canon_ws(w);
        lemma_steps_split(cw, 0, 1, 2, init_st());
        let s1 = TokSt { prev: CharType::Whitespace, start: 0, skipping: true, suppress: -1 };
        assert(cw[1] == w[0]);
        assert(w[0] != CharType::Whitespace);
        assert(action_for(CharType::Whitespace, w[0]) == CCaseAction::StartWord);
        let s2 = step_st(s1, 1, w[0]);
        assert(steps_st_to(cw, 1, 2, s1) == steps_st_to(cw, 2, 2, s2));
        assert(steps_st_to(cw, 2, 2, s2) == s2);
    } else {
        lemma_canon_stable(w, m - 1);
        let stp = steps_st_to(cw, 0, m - 1, init_st());
        lemma_steps_split(cw, 0, m - 1, m, init_st());
        let c = cw[m - 1];
        assert(c == w[m - 2]);
        assert(c != CharType::Whitespace);
        let a = action_for(stp.prev, c);
        // the run is silent through position m, so the step at m - 1 emitted
        // nothing
        lemma_steps_split(cw, 0, m, w.len() as int + 1, init_st());
        assert(steps_emit_to(cw, 0, m, init_st()).len() == 0);
        lemma_steps_split(cw, 0, m - 1, m, init_st());
        assert(steps_emit_to(cw, m - 1, m, stp)
            =~= step_emit(stp, m - 1, c) + steps_emit_to(cw, m, m, step_st(stp, m - 1, c)));
        assert(steps_emit_to(cw, m, m, step_st(stp, m - 1, c)) =~= Seq::<(int, int)>::empty());
        assert(step_emit(stp, m - 1, c).len() == 0);
        // an emission-free step from a started word keeps its start
        assert(a != CCaseAction::Skip);
        if a == CCaseAction::StartWord && stp.suppress != m - 1 {
            assert(nw_emit(stp, m - 1).len() > 0);
        }
        if a == CCaseAction::AlreadyStartedWord && stp.suppress != m - 2 {
            assert(nw_emit(stp, m - 2).len() == 0);
            assert(stp.start == m - 2);
        }
        let stm = step_st(stp, m - 1, c);
        assert(steps_st_to(cw, m - 1, m, stp) == steps_st_to(cw, m, m, stm));
        assert(steps_st_to(cw, m, m, stm) == stm);
    }
}

/// The pending word replays silently in its canonical run, and the live
/// machine and the canonical one sit in related states.
pub open spec fn pend_rel(cls: Seq<CharType>, k: int, st: TokSt) -> bool {
    let w = cls.subrange(st.start, k);
    &&& canon_emit(w) == Seq::<(int, int)>::empty()
    &&& st_rel(st, canon_st(w), st.start - 1, k)
}

/// A one-cluster pending word that has just started relates to its canonical
/// run.
proof fn lemma_pend_fresh(cls: Seq<CharType>, k: int, st2: TokSt)
    requires
        0 <= k < cls.len(),
        st2.start == k,
        !st2.skipping,
        st2.prev == cls[k],
        -1 <= st2.suppress < k,
        cls[k] != CharType::Whitespace,
    ensures
        pend_rel(cls, k + 1, st2),
{
    let w = cls.subrange(k, k + 1);
    assert(w =~= seq![cls[k]]);
    lemma_canon_one(cls[k]);
    assert(canon_st(w) == (TokSt { prev: cls[k], start: 1, skipping: false, suppress: -1 }));
    assert(canon_emit(w) =~= Seq::<(int, int)>::empty());
    assert(st_rel(st2, canon_st(w), k - 1, k + 1));
}

/// A two-cluster pending word created by the retroactive split relates to
/// its canonical run.
proof fn lemma_pend_fresh2(cls: Seq<CharType>, k: int, st2: TokSt)
    requires
        1 <= k < cls.len(),
        st2.start == k - 1,
        !st2.skipping,
        st2.prev == cls[k],
        -1 <= st2.suppress < k,
        action_for(cls[k - 1], cls[k]) == CCaseAction::AlreadyStartedWord,
    ensures
        pend_rel(cls, k + 1, st2),
{
    let w = cls.subrange(k - 1, k + 1);
    assert(w =~= seq![cls[k - 1], cls[k]]);
    lemma_canon_two(cls[k - 1], cls[k]);
    assert(canon_st(w) == (TokSt { prev: cls[k], start: 1, skipping: false, suppress: -1 }));
    assert(canon_emit(w) =~= Seq::<(int, int)>::empty());
    assert(st_rel(st2, canon_st(w), k - 2, k + 1));
}

/// A silent, non-emitting step extends the pending word and keeps its
/// relation to the canonical run.
proof fn lemma_pend_extend(cls: Seq<CharType>, k: int, st: TokSt)
    requires
        crate::camelcase_laws::st_inv(cls, k, st),
        k < cls.len(),
        !st.skipping,
        0 <= st.start < k,
        pend_rel(cls, k, st),
        step_emit(st, k, cls[k]).len() == 0,
        !step_st(st, k, cls[k]).skipping,
    ensures
        pend_rel(cls, k + 1, step_st(st, k, cls[k])),
        step_st(st, k, cls[k]).start == st.start,
{
    let c = cls[k];
    let a = action_for(st.prev, c);
    let st2 = step_st(st, k, c);
    let w = cls.subrange(st.start, k);
    let n = k - st.start;
    let w2 = cls.subrange(st.start, k + 1);
    assert(w.len() == n && w2.len() == n + 1);
    // the step kept the word's start
    if a == CCaseAction::Skip {
        assert(st2.skipping);
    }
    if a == CCaseAction::StartWord && st.suppress != k {
        assert(nw_emit(st, k).len() > 0);
    }
    if a == CCaseAction::AlreadyStartedWord && st.suppress != k - 1 {
        assert(nw_emit(st, k - 1).len() == 0);
        assert(st.start == k - 1);
    }
    assert(st2.start == st.start);
    // the canonical runs of the old and new pending word agree up to the step
    assert forall|r: int| 0 <= r < n + 1 implies #[trigger] wsw(w2)[r] == wsw(w)[r] by {
        if r > 0 {
            assert(w2[r - 1] == cls[st.start + r - 1]);
            assert(w[r - 1] == cls[st.start + r - 1]);
        }
    }
    lemma_steps_frame(wsw(w2), wsw(w), 0, n + 1, init_st());
    lemma_steps_split(wsw(w2), 0, n + 1, n + 2, init_st());
    let cst = canon_st(w);
    assert(steps_st_to(wsw(w2), 0, n + 1, init_st()) == cst);
    assert(steps_emit_to(wsw(w2), 0, n + 1, init_st()) == canon_emit(w));
    assert(wsw(w2)[n + 1] == c);
    // one related step on each side
    lemma_step_rel(st, cst, st.start - 1, k, c);
    assert(k - (st.start - 1) == n + 1);
    let cst2 = step_st(cst, n + 1, c);
    assert(steps_st_to(wsw(w2), n + 1, n + 2, cst) == steps_st_to(wsw(w2), n + 2, n + 2, cst2));
    assert(steps_st_to(wsw(w2), n + 2, n + 2, cst2) == cst2);
    assert(canon_st(w2) == cst2);
    assert(steps_emit_to(wsw(w2), n + 1, n + 2, cst)
        =~= step_emit(cst, n + 1, c) + steps_emit_to(wsw(w2), n + 2, n + 2, cst2));
    assert(steps_emit_to(wsw(w2), n + 2, n + 2, cst2) =~= Seq::<(int, int)>::empty());
    assert(step_emit(st, k, c) =~= Seq::<(int, int)>::empty());
    assert(step_emit(cst, n + 1, c) =~= shift_spans(step_emit(st, k, c), st.start - 1));
    assert(shift_spans(Seq::<(int, int)>::empty(), st.start - 1)
        =~= Seq::<(int, int)>::empty());
    assert(canon_emit(w2) =~= Seq::<(int, int)>::empty());
    assert(st_rel(st2, canon_st(w2), st.start - 1, k + 1));
    assert(w2 == cls.subrange(st2.start, k + 1));
}

/// When a silent pending word loses its last cluster to the retroactive
/// split, what remains is still silent.
proof fn lemma_seg_prefix(cls: Seq<CharType>, start: int, k: int)
    requires
        0 <= start < k - 1,
        k <= cls.len(),
        canon_emit(cls.subrange(start, k)) == Seq::<(int, int)>::empty(),
    ensures
        canon_emit(cls.subrange(start, k - 1)) == Seq::<(int, int)>::empty(),
{
    let w = cls.subrange(start, k);
    let ws2 = cls.subrange(start, k - 1);
    let n2 = k - 1 - start;
    assert(ws2.len() == n2 && w.len() == n2 + 1);
    assert forall|r: int| 0 <= r < n2 + 1 implies #[trigger] wsw(ws2)[r] == wsw(w)[r] by {
        if r > 0 {
            assert(ws2[r - 1] == cls[start + r - 1]);
            assert(w[r - 1] == cls[start + r - 1]);
        }
    }
    lemma_steps_frame(wsw(ws2), wsw(w), 0, n2 + 1, init_st());
    lemma_steps_split(wsw(w), 0, n2 + 1, n2 + 2, init_st());
    assert(steps_emit_to(wsw(w), 0, n2 + 1, init_st()).len() == 0);
    assert(canon_emit(ws2) =~= Seq::<(int, int)>::empty());
}

/// How a silent canonical run ends, given only that the word is emitted
/// intact: ready to continue at start 1 with the word's last class.
proof fn lemma_canon_final(w: Seq<CharType>)
    requires
        seg_ok(w),
    ensures
        canon_st(w).start == 1,
        !canon_st(w).skipping,
        canon_st(w).prev == w[w.len() - 1],
        -1 <= canon_st(w).suppress < w.len() + 1,
{
    lemma_canon_stable(w, w.len() as int + 1);
}

/// Every span the remaining run emits names a word that is non-empty, free
/// of whitespace, and silent under its canonical run.
proof fn lemma_run_segok(cls: Seq<CharType>, k: int, st: TokSt)
    requires
        crate::camelcase_laws::st_inv(cls, k, st),
        !st.skipping && k > 0 ==> pend_rel(cls, k, st),
    ensures
        forall|i: int| 0 <= i < crate::camelcase_laws::rest_spans(cls, k, st).len()
            ==> seg_ok(cls.subrange(
                (#[trigger] crate::camelcase_laws::rest_spans(cls, k, st)[i]).0,
                crate::camelcase_laws::rest_spans(cls, k, st)[i].1,
            )),
    decreases cls.len() - k,
{
    let ems = crate::camelcase_laws::rest_spans(cls, k, st);
    if k >= cls.len() {
        assert(steps_emit(cls, k, st) =~= Seq::<(int, int)>::empty());
        assert(steps_st(cls, k, st) == st);
        assert(ems =~= nw_emit(st, cls.len() as int));
        if st.start < cls.len() && !st.skipping {
            assert(k > 0);
            assert(ems[0] == (st.start, k));
            assert(seg_ok(cls.subrange(st.start, k)));
        }
    } else {
        let c = cls[k];
        let a = action_for(st.prev, c);
        let st2 = step_st(st, k, c);
        let em = step_emit(st, k, c);
        assert(steps_emit(cls, k, st) == em + steps_emit(cls, k + 1, st2));
        assert(steps_st(cls, k, st) == steps_st(cls, k + 1, st2));
        let rest = crate::camelcase_laws::rest_spans(cls, k + 1, st2);
        assert(ems =~= em + rest);
        crate::camelcase_laws::lemma_step_inv(cls, k, st);

        // establish the pending-word relation for the next position
        if !st2.skipping {
            assert(c != CharType::Whitespace);
            if st.skipping || k == 0 {
                assert(st2.start == k);
                lemma_pend_fresh(cls, k, st2);
            } else if em.len() == 0 {
                if a == CCaseAction::StartWord && st.suppress != k {
                    assert(nw_emit(st, k).len() > 0);
                }
                lemma_pend_extend(cls, k, st);
            } else {
                if a == CCaseAction::StartWord {
                    assert(st2.start == k);
                    lemma_pend_fresh(cls, k, st2);
                } else {
                    assert(a == CCaseAction::AlreadyStartedWord && st.suppress != k - 1);
                    assert(st2.start == k - 1);
                    lemma_pend_fresh2(cls, k, st2);
                }
            }
        }
        lemma_run_segok(cls, k + 1, st2);

        // the span emitted at this step, if any, names a silent word
        if em.len() > 0 {
            assert(!st.skipping && em[0] == (st.start, st2.start) && st.start < st2.start);
            assert(k > 0);
            let w = cls.subrange(st.start, k);
            if a == CCaseAction::AlreadyStartedWord {
                assert(st2.start == k - 1);
                lemma_seg_prefix(cls, st.start, k);
                assert(seg_ok(cls.subrange(st.start, k - 1)));
            } else {
                assert(st2.start == k);
                assert(seg_ok(w));
            }
            assert(seg_ok(cls.subrange(em[0].0, em[0].1)));
        }
        assert forall|i: int| 0 <= i < ems.len()
            implies seg_ok(cls.subrange((#[trigger] ems[i]).0, ems[i].1)) by {
            if em.len() > 0 && i == 0 {
                assert(ems[0] == em[0]);
            } else {
                assert(ems[i] == rest[i - em.len()]);
            }
        }
    }
}

/// Each word the tokenizer emits is non-empty, holds no whitespace cluster,
/// and — scanned afresh after a whitespace cluster — produces no break
/// before its end.
pub proof fn lemma_spans_are_words(cls: Seq<CharType>)
    ensures
        forall|i: int| 0 <= i < token_spans(cls).len()
            ==> seg_ok(cls.subrange(
                (#[trigger] token_spans(cls)[i]).0,
                token_spans(cls)[i].1,
            )),
{
    lemma_run_segok(cls, 0, init_st());
    assert(token_spans(cls) == crate::camelcase_laws::rest_spans(cls, 0, init_st()));
}

/// Words joined with single whitespace clusters between them.
pub open spec fn join_classes(ws: Seq<Seq<CharType>>) -> Seq<CharType>
    decreases ws.len(),
{
    if ws.len() == 0 {
        Seq::empty()
    } else if ws.len() == 1 {
        ws[0]
    } else {
        join_classes(ws.drop_last()) + seq![CharType::Whitespace] + ws.last()
    }
}

/// The position at which word `i` starts in the joined sequence.
pub open spec fn jpos(ws: Seq<Seq<CharType>>, i: int) -> int
    decreases i,
{
    if i <= 0 {
        0
    } else {
        jpos(ws, i - 1) + ws[i - 1].len() + 1
    }
}

/// The spans the joined sequence should yield: each word at its position.
pub open spec fn expected_spans(ws: Seq<Seq<CharType>>) -> Seq<(int, int)> {
    Seq::new(ws.len(), |i: int| (jpos(ws, i), jpos(ws, i) + ws[i].len()))
}

/// Word positions read only the words before them.
proof fn lemma_jpos_frame(ws1: Seq<Seq<CharType>>, ws2: Seq<Seq<CharType>>, i: int)
    requires
        0 <= i <= ws1.len(),
        i <= ws2.len(),
        forall|t: int| 0 <= t < i ==> ws1[t] == ws2[t],
    ensures
        jpos(ws1, i) == jpos(ws2, i),
    decreases i,
{
    if i > 0 {
        lemma_jpos_frame(ws1, ws2, i - 1);
    }
}

/// Where everything sits in the joined sequence: its length, each word's
/// clusters, and the whitespace separators.
#[verifier::rlimit(60)]
proof fn lemma_join_structure(ws: Seq<Seq<CharType>>)
    ensures
        ws.len() == 0 ==> join_classes(ws).len() == 0,
        ws.len() > 0 ==> join_classes(ws).len()
            == jpos(ws, ws.len() - 1) + ws[ws.len() - 1].len(),
        forall|i: int, r: int| 0 <= i < ws.len() && 0 <= r < ws[i].len()
            ==> join_classes(ws)[jpos(ws, i) + r] == #[trigger] ws[i][r],
        forall|i: int| 1 <= i < ws.len()
            ==> join_classes(ws)[#[trigger] jpos(ws, i) - 1] == CharType::Whitespace,
        forall|i: int| 0 <= i < ws.len()
            ==> 0 <= #[trigger] jpos(ws, i)
                && jpos(ws, i) + ws[i].len() <= join_classes(ws).len(),
    decreases ws.len(),
{
    let jn = join_classes(ws);
    let n = ws.len() as int;
    if n == 0 {
    } else if n == 1 {
        assert(jpos(ws, 0) == 0);
    } else {
        let wsp = ws.drop_last();
        lemma_join_structure(wsp);
        let jp = join_classes(wsp);
        assert(jn =~= jp + seq![CharType::Whitespace] + ws.last());
        assert forall|t: int| 0 <= t < n - 1 implies wsp[t] == ws[t] by {}
        assert forall|i: int| 0 <= i <= n - 1 implies #[trigger] jpos(ws, i) == jpos(wsp, i) by {
            lemma_jpos_frame(ws, wsp, i);
        }
        assert(jp.len() == jpos(ws, n - 2) + ws[n - 2].len());
        assert(jpos(ws, n - 1) == jp.len() + 1);
        assert(jn.len() == jpos(ws, n - 1) + ws[n - 1].len());
        assert forall|i: int, r: int| 0 <= i < n && 0 <= r < ws[i].len()
            implies jn[jpos(ws, i) + r] == #[trigger] ws[i][r] by {
            if i < n - 1 {
                assert(jpos(wsp, i) == jpos(ws, i));
                assert(jpos(wsp, i) + wsp[i].len() <= jp.len());
                assert(jp[jpos(wsp, i) + r] == wsp[i][r]);
                assert(jn[jpos(ws, i) + r] == jp[jpos(ws, i) + r]);
            } else {
                assert(jn[jp.len() as int + 1 + r] == ws.last()[r]);
            }
        }
        assert forall|i: int| 1 <= i < n
            implies jn[#[trigger] jpos(ws, i) - 1] == CharType::Whitespace by {
            if i < n - 1 {
                assert(jpos(wsp, i) == jpos(ws, i));
                assert(jpos(wsp, i) + wsp[i].len() <= jp.len());
                assert(jpos(wsp, i - 1) == jpos(ws, i - 1));
                assert(0 <= jpos(wsp, i - 1));
                assert(jpos(ws, i) == jpos(ws, i - 1) + ws[i - 1].len() + 1);
                assert(jp[jpos(wsp, i) - 1] == CharType::Whitespace);
                assert(jn[jpos(ws, i) - 1] == jp[jpos(ws, i) - 1]);
            } else {
                assert(jn[jp.len() as int] == CharType::Whitespace);
            }
        }
        assert forall|i: int| 0 <= i < n
            implies 0 <= #[trigger] jpos(ws, i)
                && jpos(ws, i) + ws[i].len() <= jn.len() by {
            if i < n - 1 {
                assert(jpos(wsp, i) == jpos(ws, i));
                assert(jpos(wsp, i) + wsp[i].len() <= jp.len());
            }
        }
    }
}

/// The machine's state after it has skipped a whitespace cluster and is
/// ready for a word.
pub open spec fn ws_init() -> TokSt {
    TokSt { prev: CharType::Whitespace, start: 0, skipping: true, suppress: -1 }
}

/// The canonical run's first two steps: the whitespace cluster, then the
/// word's first cluster.
proof fn lemma_canon_head(w: Seq<CharType>)
    requires
        w.len() >= 1,
    ensures
        steps_st_to(wsw(w), 0, 2, init_st()) == step_st(ws_init(), 1, w[0]),
        steps_emit_to(wsw(w), 0, 2, init_st()) =~= step_emit(ws_init(), 1, w[0]),
{
    let cw = wsw(w);
    lemma_canon_ws(w);
    lemma_steps_split(cw, 0, 1, 2, init_st());
    assert(steps_st_to(cw, 0, 1, init_st()) == ws_init());
    assert(cw[1] == w[0]);
    let s2 = step_st(ws_init(), 1, w[0]);
    assert(steps_st_to(cw, 1, 2, ws_init()) == steps_st_to(cw, 2, 2, s2));
    assert(steps_st_to(cw, 2, 2, s2) == s2);
    assert(steps_emit_to(cw, 1, 2, ws_init())
        =~= step_emit(ws_init(), 1, w[0]) + steps_emit_to(cw, 2, 2, s2));
    assert(steps_emit_to(cw, 2, 2, s2) =~= Seq::<(int, int)>::empty());
}

/// The very first cluster of a run relates the fresh machine to the
/// canonical one, whatever its class.
proof fn lemma_first_step(c: CharType)
    ensures
        st_rel(step_st(init_st(), 0, c), step_st(ws_init(), 1, c), -1, 1),
        step_emit(init_st(), 0, c) =~= Seq::<(int, int)>::empty(),
        step_emit(ws_init(), 1, c) =~= Seq::<(int, int)>::empty(),
{
    assert(action_for(CharType::Start, c) != CCaseAction::Suppress);
    assert(action_for(CharType::Start, c) != CCaseAction::AlreadyStartedWord);
    assert(action_for(CharType::Whitespace, c) == CCaseAction::Skip
        || action_for(CharType::Whitespace, c) == CCaseAction::StartWord);
}

/// Coming out of skipped whitespace, a non-whitespace cluster starts a fresh
/// word that relates to its canonical run.
proof fn lemma_restart_rel(stp: TokSt, j: int, c: CharType)
    requires
        stp.skipping,
        stp.prev == CharType::Whitespace,
        stp.suppress < j,
        c != CharType::Whitespace,
        1 <= j,
    ensures
        st_rel(step_st(stp, j, c), step_st(ws_init(), 1, c), j - 1, j + 1),
        step_emit(stp, j, c) =~= Seq::<(int, int)>::empty(),
        step_emit(ws_init(), 1, c) =~= Seq::<(int, int)>::empty(),
{
    assert(action_for(CharType::Whitespace, c) == CCaseAction::StartWord);
}

/// Running the machine over the joined sequence up to the end of word
/// `i - 1` emits exactly the earlier words, with word `i - 1` pending and
/// the state related to that word's canonical run.
#[verifier::rlimit(100)]
proof fn lemma_join_run(ws: Seq<Seq<CharType>>, i: int)
    requires
        1 <= i <= ws.len(),
        forall|t: int| 0 <= t < ws.len() ==> seg_ok(#[trigger] ws[t]),
    ensures
        ({
            let jn = join_classes(ws);
            let b = jpos(ws, i - 1) + ws[i - 1].len();
            &&& steps_emit_to(jn, 0, b, init_st()) =~= expected_spans(ws).take(i - 1)
            &&& st_rel(
                steps_st_to(jn, 0, b, init_st()),
                canon_st(ws[i - 1]),
                jpos(ws, i - 1) - 1,
                b,
            )
        }),
    decreases i,
{
    let jn = join_classes(ws);
    lemma_join_structure(ws);
    let w = ws[i - 1];
    let ln = w.len() as int;
    let p = jpos(ws, i - 1);
    let b = p + ln;
    assert(seg_ok(w));
    assert(b <= jn.len());
    lemma_canon_head(w);
    let sb = step_st(ws_init(), 1, w[0]);
    // the joined run up to the first cluster of word i - 1
    let s_first: TokSt;
    if i == 1 {
        assert(p == 0);
        assert(jn[0] == w[0]);
        lemma_first_step(w[0]);
        s_first = step_st(init_st(), 0, w[0]);
        assert(steps_st_to(jn, 0, 1, init_st()) == steps_st_to(jn, 1, 1, s_first));
        assert(steps_st_to(jn, 1, 1, s_first) == s_first);
        assert(steps_emit_to(jn, 0, 1, init_st())
            =~= step_emit(init_st(), 0, jn[0]) + steps_emit_to(jn, 1, 1, s_first));
        assert(steps_emit_to(jn, 1, 1, s_first) =~= Seq::<(int, int)>::empty());
        assert(steps_emit_to(jn, 0, 1, init_st()) =~= Seq::<(int, int)>::empty());
        assert(st_rel(s_first, sb, -1, 1));
        assert(expected_spans(ws).take(0) =~= Seq::<(int, int)>::empty());
    } else {
        lemma_join_run(ws, i - 1);
        let bp = jpos(ws, i - 2) + ws[i - 2].len();
        assert(bp == p - 1);
        let s_prev = steps_st_to(jn, 0, bp, init_st());
        assert(st_rel(s_prev, canon_st(ws[i - 2]), jpos(ws, i - 2) - 1, bp));
        lemma_canon_final(ws[i - 2]);
        assert(s_prev.start == jpos(ws, i - 2));
        assert(!s_prev.skipping);
        assert(s_prev.start < bp);
        // the separator: the pending word is emitted
        assert(jn[bp] == CharType::Whitespace);
        assert(action_for(s_prev.prev, CharType::Whitespace) == CCaseAction::Skip);
        let s_sep = step_st(s_prev, bp, CharType::Whitespace);
        assert(step_emit(s_prev, bp, CharType::Whitespace)
            =~= seq![(jpos(ws, i - 2), bp)]);
        assert(expected_spans(ws)[i - 2] == (jpos(ws, i - 2), bp));
        assert(s_sep.skipping && s_sep.start == bp && s_sep.prev == CharType::Whitespace);
        assert(s_sep.suppress == s_prev.suppress && s_sep.suppress < bp);
        // the first cluster of word i - 1
        assert(jn[p] == w[0]);
        lemma_restart_rel(s_sep, p, w[0]);
        s_first = step_st(s_sep, p, w[0]);
        assert(st_rel(s_first, sb, p - 1, p + 1));
        // assemble the run up to p + 1
        lemma_steps_split(jn, 0, bp, p + 1, init_st());
        assert(steps_st_to(jn, bp, p + 1, s_prev) == steps_st_to(jn, bp + 1, p + 1, s_sep));
        assert(steps_st_to(jn, bp + 1, p + 1, s_sep) == steps_st_to(jn, p + 1, p + 1, s_first));
        assert(steps_st_to(jn, p + 1, p + 1, s_first) == s_first);
        assert(steps_st_to(jn, 0, p + 1, init_st()) == s_first);
        assert(steps_emit_to(jn, bp, p + 1, s_prev)
            =~= step_emit(s_prev, bp, CharType::Whitespace)
                + steps_emit_to(jn, bp + 1, p + 1, s_sep));
        assert(steps_emit_to(jn, bp + 1, p + 1, s_sep)
            =~= step_emit(s_sep, p, w[0]) + steps_emit_to(jn, p + 1, p + 1, s_first));
        assert(steps_emit_to(jn, p + 1, p + 1, s_first) =~= Seq::<(int, int)>::empty());
        assert(steps_emit_to(jn, 0, p + 1, init_st())
            =~= expected_spans(ws).take(i - 2) + seq![(jpos(ws, i - 2), bp)]);
        assert(steps_emit_to(jn, 0, p + 1, init_st())
            =~= expected_spans(ws).take(i - 1));
    }
    // the rest of word i - 1 replays its canonical run silently
    assert forall|r: int| 0 <= r < ln - 1
        implies #[trigger] jn[p + 1 + r] == wsw(w)[2 + r] by {
        assert(jn[jpos(ws, i - 1) + (r + 1)] == w[r + 1]);
        assert(wsw(w)[2 + r] == w[r + 1]);
    }
    assert(st_rel(s_first, sb, p + 1 - 2, p + 1));
    lemma_steps_rel(jn, p + 1, b, s_first, wsw(w), 2, ln + 1, sb);
    // the canonical run from position 2 on is silent
    lemma_steps_split(wsw(w), 0, 2, ln + 1, init_st());
    assert(steps_st_to(wsw(w), 0, 2, init_st()) == sb);
    assert(canon_emit(w)
        =~= steps_emit_to(wsw(w), 0, 2, init_st())
            + steps_emit_to(wsw(w), 2, ln + 1, sb));
    assert(steps_emit_to(wsw(w), 2, ln + 1, sb).len() == 0);
    assert(steps_emit_to(wsw(w), 2, ln + 1, sb)
        =~= shift_spans(steps_emit_to(jn, p + 1, b, s_first), p - 1));
    assert(steps_emit_to(jn, p + 1, b, s_first).len() == 0);
    assert(steps_emit_to(jn, p + 1, b, s_first) =~= Seq::<(int, int)>::empty());
    // assemble up to b
    lemma_steps_split(jn, 0, p + 1, b, init_st());
    assert(steps_st_to(jn, 0, p + 1, init_st()) == s_first);
    assert(steps_st_to(jn, 0, b, init_st()) == steps_st_to(jn, p + 1, b, s_first));
    assert(canon_st(w) == steps_st_to(wsw(w), 2, ln + 1, sb));
    assert(st_rel(steps_st_to(jn, 0, b, init_st()), canon_st(w), p - 1, b));
    assert(steps_emit_to(jn, 0, b, init_st())
        =~= steps_emit_to(jn, 0, p + 1, init_st()) + steps_emit_to(jn, p + 1, b, s_first));
    assert(steps_emit_to(jn, 0, b, init_st()) =~= expected_spans(ws).take(i - 1));
}

/// Tokenizing the joined sequence of silent words yields exactly one span
/// per word, at the word's position.
proof fn lemma_joined_spans(ws: Seq<Seq<CharType>>)
    requires
        forall|t: int| 0 <= t < ws.len() ==> seg_ok(#[trigger] ws[t]),
    ensures
        token_spans(join_classes(ws)) =~= expected_spans(ws),
    decreases ws.len(),
{
    let jn = join_classes(ws);
    let n = ws.len() as int;
    lemma_join_structure(ws);
    if n == 0 {
        assert(jn.len() == 0);
        assert(steps_emit(jn, 0, init_st()) =~= Seq::<(int, int)>::empty());
        assert(steps_st(jn, 0, init_st()) == init_st());
        assert(nw_emit(init_st(), 0) =~= Seq::<(int, int)>::empty());
        assert(expected_spans(ws) =~= Seq::<(int, int)>::empty());
    } else {
        lemma_join_run(ws, n);
        let b = jpos(ws, n - 1) + ws[n - 1].len();
        assert(b == jn.len());
        lemma_steps_to_full(jn, 0, init_st());
        let s_fin = steps_st_to(jn, 0, b, init_st());
        lemma_canon_final(ws[n - 1]);
        assert(s_fin.start == jpos(ws, n - 1));
        assert(!s_fin.skipping);
        assert(seg_ok(ws[n - 1]));
        assert(s_fin.start < b);
        assert(nw_emit(s_fin, b) =~= seq![(jpos(ws, n - 1), b)]);
        assert(expected_spans(ws)[n - 1] == (jpos(ws, n - 1), b));
        assert(token_spans(jn)
            =~= expected_spans(ws).take(n - 1) + seq![(jpos(ws, n - 1), b)]);
        assert(token_spans(jn) =~= expected_spans(ws));
    }
}

/// The words of a tokenization, as class-sequence segments.
pub open spec fn span_words(cls: Seq<CharType>) -> Seq<Seq<CharType>> {
    token_spans(cls).map_values(|p: (int, int)| cls.subrange(p.0, p.1))
}

/// Tokenization is stable under rejoining: take any input's words, join
/// them with single whitespace clusters, and tokenize the result — the very
/// same words come back.  This is the class-sequence heart of the idempotence
/// of splitting camelcase text into space-separated words.
pub proof fn lemma_retokenize_stable(cls: Seq<CharType>)
    ensures
        ({
            let ws = span_words(cls);
            let jn = join_classes(ws);
            &&& token_spans(jn) == expected_spans(ws)
            &&& span_words(jn) == ws
        }),
{
    let sp = token_spans(cls);
    let ws = span_words(cls);
    let jn = join_classes(ws);
    lemma_spans_are_words(cls);
    assert forall|t: int| 0 <= t < ws.len() implies seg_ok(#[trigger] ws[t]) by {
        assert(ws[t] == cls.subrange(sp[t].0, sp[t].1));
    }
    lemma_joined_spans(ws);
    lemma_join_structure(ws);
    assert forall|t: int| 0 <= t < ws.len()
        implies #[trigger] span_words(jn)[t] == ws[t] by {
        assert(token_spans(jn)[t] == (jpos(ws, t), jpos(ws, t) + ws[t].len()));
        assert(span_words(jn)[t]
            == jn.subrange(jpos(ws, t), jpos(ws, t) + ws[t].len() as int));
        assert forall|r: int| 0 <= r < ws[t].len()
            implies jn.subrange(jpos(ws, t), jpos(ws, t) + ws[t].len() as int)[r]
                == #[trigger] ws[t][r] by {
            assert(jn[jpos(ws, t) + r] == ws[t][r]);
        }
        assert(jn.subrange(jpos(ws, t), jpos(ws, t) + ws[t].len() as int) =~= ws[t]);
    }
    assert(span_words(jn) =~= ws);
}

/// The words of a cluster sequence, each as its run of clusters.
pub open spec fn cluster_words(cs: Seq<Seq<char>>) -> Seq<Seq<Seq<char>>> {
    token_spans(cluster_classes(cs)).map_values(|p: (int, int)| cs.subrange(p.0, p.1))
}

/// Cluster words joined with a single separator cluster between them.
pub open spec fn join_with(wl: Seq<Seq<Seq<char>>>, sep: Seq<char>) -> Seq<Seq<char>>
    decreases wl.len(),
{
    if wl.len() == 0 {
        Seq::empty()
    } else if wl.len() == 1 {
        wl[0]
    } else {
        join_with(wl.drop_last(), sep) + seq![sep] + wl.last()
    }
}

/// The position at which cluster word `i` starts in the joined sequence.
pub open spec fn wpos(wl: Seq<Seq<Seq<char>>>, i: int) -> int
    decreases i,
{
    if i <= 0 {
        0
    } else {
        wpos(wl, i - 1) + wl[i - 1].len() + 1
    }
}

proof fn lemma_wpos_is_jpos(wl: Seq<Seq<Seq<char>>>, cw: Seq<Seq<CharType>>, i: int)
    requires
        0 <= i <= wl.len(),
        i <= cw.len(),
        forall|t: int| 0 <= t < i ==> (#[trigger] cw[t]).len() == wl[t].len(),
    ensures
        wpos(wl, i) == jpos(cw, i),
    decreases i,
{
    if i > 0 {
        lemma_wpos_is_jpos(wl, cw, i - 1);
    }
}

/// Classes of a subrange are the subrange of the classes.
proof fn lemma_classes_subrange(cs: Seq<Seq<char>>, a: int, b: int)
    requires
        0 <= a <= b <= cs.len(),
    ensures
        cluster_classes(cs.subrange(a, b)) =~= cluster_classes(cs).subrange(a, b),
{
}

/// Classes of a concatenation are the concatenation of the classes.
proof fn lemma_classes_add(x: Seq<Seq<char>>, y: Seq<Seq<char>>)
    ensures
        cluster_classes(x + y) =~= cluster_classes(x) + cluster_classes(y),
{
    assert forall|t: int| 0 <= t < x.len() + y.len()
        implies cluster_classes(x + y)[t]
            == (cluster_classes(x) + cluster_classes(y))[t] by {
        if t < x.len() {
            assert((x + y)[t] == x[t]);
        } else {
            assert((x + y)[t] == y[t - x.len()]);
        }
    }
}

/// Joining cluster words and then classifying is classifying and then
/// joining, as long as the separator's base character is whitespace.
proof fn lemma_join_commute(wl: Seq<Seq<Seq<char>>>, sep: Seq<char>)
    requires
        sep.len() > 0,
        char_class(sep[0]) == CharType::Whitespace,
    ensures
        cluster_classes(join_with(wl, sep))
            =~= join_classes(wl.map_values(|w: Seq<Seq<char>>| cluster_classes(w))),
    decreases wl.len(),
{
    let f = |w: Seq<Seq<char>>| cluster_classes(w);
    let cw = wl.map_values(f);
    if wl.len() == 0 {
        assert(cluster_classes(join_with(wl, sep)).len() == 0);
    } else if wl.len() == 1 {
        assert(cw[0] == cluster_classes(wl[0]));
    } else {
        lemma_join_commute(wl.drop_last(), sep);
        lemma_classes_add(join_with(wl.drop_last(), sep), seq![sep]);
        lemma_classes_add(join_with(wl.drop_last(), sep) + seq![sep], wl.last());
        assert(cluster_classes(seq![sep]) =~= seq![CharType::Whitespace]);
        assert(wl.drop_last().map_values(f) =~= cw.drop_last());
        assert(cw.last() == cluster_classes(wl.last()));
        assert(join_classes(cw)
            == join_classes(cw.drop_last()) + seq![CharType::Whitespace] + cw.last());
        assert(cluster_classes(join_with(wl, sep))
            =~= cluster_classes(join_with(wl.drop_last(), sep))
                + cluster_classes(seq![sep]) + cluster_classes(wl.last()));
    }
}

/// Where each cluster word's clusters sit in the joined sequence.
#[verifier::rlimit(60)]
proof fn lemma_join_with_structure(wl: Seq<Seq<Seq<char>>>, sep: Seq<char>)
    ensures
        wl.len() == 0 ==> join_with(wl, sep).len() == 0,
        wl.len() > 0 ==> join_with(wl, sep).len()
            == wpos(wl, wl.len() - 1) + wl[wl.len() - 1].len(),
        forall|i: int, r: int| 0 <= i < wl.len() && 0 <= r < wl[i].len()
            ==> join_with(wl, sep)[wpos(wl, i) + r] == #[trigger] wl[i][r],
        forall|i: int| 0 <= i < wl.len()
            ==> 0 <= #[trigger] wpos(wl, i)
                && wpos(wl, i) + wl[i].len() <= join_with(wl, sep).len(),
    decreases wl.len(),
{
    let jn = join_with(wl, sep);
    let n = wl.len() as int;
    if n == 0 {
    } else if n == 1 {
        assert(wpos(wl, 0) == 0);
    } else {
        let wlp = wl.drop_last();
        lemma_join_with_structure(wlp, sep);
        let jp = join_with(wlp, sep);
        assert(jn =~= jp + seq![sep] + wl.last());
        assert forall|i: int| 0 <= i <= n - 1 implies #[trigger] wpos(wl, i) == wpos(wlp, i) by {
            lemma_wpos_frame(wl, wlp, i);
        }
        assert(jp.len() == wpos(wl, n - 2) + wl[n - 2].len());
        assert(wpos(wl, n - 1) == jp.len() + 1);
        assert(jn.len() == wpos(wl, n - 1) + wl[n - 1].len());
        assert forall|i: int, r: int| 0 <= i < n && 0 <= r < wl[i].len()
            implies jn[wpos(wl, i) + r] == #[trigger] wl[i][r] by {
            if i < n - 1 {
                assert(wpos(wlp, i) == wpos(wl, i));
                assert(wpos(wlp, i) + wlp[i].len() <= jp.len());
                assert(jp[wpos(wlp, i) + r] == wlp[i][r]);
                assert(jn[wpos(wl, i) + r] == jp[wpos(wl, i) + r]);
            } else {
                assert(jn[jp.len() as int + 1 + r] == wl.last()[r]);
            }
        }
        assert forall|i: int| 0 <= i < n
            implies 0 <= #[trigger] wpos(wl, i)
                && wpos(wl, i) + wl[i].len() <= jn.len() by {
            if i < n - 1 {
                assert(wpos(wlp, i) == wpos(wl, i));
                assert(wpos(wlp, i) + wlp[i].len() <= jp.len());
            }
        }
    }
}

proof fn lemma_wpos_frame(wl1: Seq<Seq<Seq<char>>>, wl2: Seq<Seq<Seq<char>>>, i: int)
    requires
        0 <= i <= wl1.len(),
        i <= wl2.len(),
        forall|t: int| 0 <= t < i ==> wl1[t] == wl2[t],
    ensures
        wpos(wl1, i) == wpos(wl2, i),
    decreases i,
{
    if i > 0 {
        lemma_wpos_frame(wl1, wl2, i - 1);
    }
}

/// Concatenating equal runs of clusters gives equal texts.
proof fn lemma_cat_shift(x: Seq<Seq<char>>, p: int, y: Seq<Seq<char>>, a: int, n: int)
    requires
        0 <= n,
        0 <= p && p + n <= x.len(),
        0 <= a && a + n <= y.len(),
        forall|r: int| 0 <= r < n ==> #[trigger] x[p + r] == y[a + r],
    ensures
        cat(x, p, p + n) == cat(y, a, a + n),
    decreases n,
{
    if n > 0 {
        assert forall|r: int| 0 <= r < n - 1 implies #[trigger] x[p + r] == y[a + r] by {}
        lemma_cat_shift(x, p, y, a, n - 1);
        assert(x[p + (n - 1)] == y[a + (n - 1)]);
    }
}

/// Splitting camelcase text into words is stable under rejoining: join the
/// words of a cluster sequence with any single cluster whose base character
/// is whitespace, split the result again, and the same words come back.
pub proof fn lemma_camelcase_words_stable(cs: Seq<Seq<char>>, sep: Seq<char>)
    requires
        sep.len() > 0,
        char_class(sep[0]) == CharType::Whitespace,
    ensures
        words_of(join_with(cluster_words(cs), sep)) == words_of(cs),
{
    let cls = cluster_classes(cs);
    let sp = token_spans(cls);
    let wl = cluster_words(cs);
    let ws = span_words(cls);
    let jcs = join_with(wl, sep);
    crate::camelcase_laws::lemma_no_empty_spans(cls);
    let f = |w: Seq<Seq<char>>| cluster_classes(w);
    assert forall|t: int| 0 <= t < wl.len()
        implies #[trigger] wl.map_values(f)[t] == ws[t] by {
        assert(wl[t] == cs.subrange(sp[t].0, sp[t].1));
        lemma_classes_subrange(cs, sp[t].0, sp[t].1);
        assert(ws[t] == cls.subrange(sp[t].0, sp[t].1));
    }
    assert(wl.map_values(f) =~= ws);
    lemma_join_commute(wl, sep);
    assert(cluster_classes(jcs) == join_classes(ws));
    lemma_retokenize_stable(cls);
    assert(token_spans(cluster_classes(jcs)) == expected_spans(ws));
    lemma_join_with_structure(wl, sep);
    assert forall|t: int| 0 <= t < wl.len()
        implies (#[trigger] ws[t]).len() == wl[t].len() by {
        assert(wl.map_values(f)[t] == ws[t]);
    }
    assert forall|i: int| 0 <= i < ws.len()
        implies #[trigger] words_of(jcs)[i] == words_of(cs)[i] by {
        assert(token_spans(cluster_classes(jcs))[i] == expected_spans(ws)[i]);
        assert(expected_spans(ws)[i] == (jpos(ws, i), jpos(ws, i) + ws[i].len()));
        lemma_wpos_is_jpos(wl, ws, i);
        let pp = wpos(wl, i);
        let ln = wl[i].len() as int;
        assert(words_of(jcs)[i] == cat(jcs, pp, pp + ln));
        assert(wl[i] == cs.subrange(sp[i].0, sp[i].1));
        assert forall|r: int| 0 <= r < ln implies #[trigger] jcs[pp + r]
            == cs[sp[i].0 + r] by {
            assert(jcs[wpos(wl, i) + r] == wl[i][r]);
            assert(wl[i][r] == cs[sp[i].0 + r]);
        }
        lemma_cat_shift(jcs, pp, cs, sp[i].0, ln);
        assert(sp[i].1 == sp[i].0 + ln);
        assert(words_of(cs)[i] == cat(cs, sp[i].0, sp[i].1));
    }
    assert(words_of(jcs) =~= words_of(cs));
}

} // verus!
