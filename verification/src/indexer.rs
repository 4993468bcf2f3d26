//! Building the word-transition model from a corpus.
//!
//! The corpus is a sequence of text lines.  Each line is split into words;
//! the indexer walks the words left to right, carrying a flag that says
//! whether the next word is expected to start a sentence.  The flag is true
//! at the very beginning and again right after any word ending in `.`, `?`
//! or `!`; line breaks themselves are soft and do not reset it.  A word seen
//! where a sentence is expected to start gets its start counter bumped and
//! its following word (within the same line) recorded as a successor; a
//! sentence-ending word gets its end counter bumped; any other word gets its
//! mid counter bumped and its following word recorded.

use vstd::prelude::*;

use crate::model::bump_entry;
use crate::model::distinct_keys;
use crate::model::empty_entry;
use crate::model::entry_of;
use crate::model::find_key;
use crate::model::find_word;
use crate::model::has_key;
use crate::model::lemma_find_key;
use crate::model::lemma_find_key_at;
use crate::model::model_of;
use crate::model::model_wf;
use crate::model::no_empty_words;
use crate::model::EntryV;
use crate::model::ModelV;
use crate::model::PositionName;
use crate::model::WordInfo;
use crate::model::WordsDB;
use crate::tokenize::lemma_tokens_nonempty;
use crate::tokenize::tokenize;
use crate::tokenize::tokens_of;

verus! {

/// The indexer's running state: the table built so far, and whether the
/// next word starts a sentence.
pub ghost struct IndexState {
    pub words: ModelV,
    pub expect_start: bool,
}

/// Whether a word ends a sentence: it ends with `.`, `?` or `!`.
pub open spec fn ends_sentence(w: Seq<char>) -> bool {
    w.len() > 0 && (w[w.len() - 1] == '.' || w[w.len() - 1] == '?' || w[w.len() - 1] == '!')
}

/// `e` with `nx` recorded as a successor, unless `nx` is empty or already
/// recorded.
pub open spec fn record_next(e: EntryV, nx: Seq<char>) -> EntryV {
    if nx.len() > 0 && !e.next.contains(nx) {
        EntryV { next: e.next.push(nx), start: e.start, mid: e.mid, end: e.end }
    } else {
        e
    }
}

/// The table with an entry for `w`, creating a fresh one if absent.
pub open spec fn upsert(m: ModelV, w: Seq<char>) -> ModelV {
    if has_key(m, w) {
        m
    } else {
        m.push((w, empty_entry()))
    }
}

/// The new entry of `w` after observing it once: counters bumped according
/// to the sentence-start flag and the word's own punctuation, and the
/// following word recorded when the observation links forward.
pub open spec fn classify(e: EntryV, expect_start: bool, w: Seq<char>, nx: Seq<char>) -> EntryV {
    if expect_start {
        let e1 = record_next(bump_entry(e, PositionName::FirstPos), nx);
        if ends_sentence(w) {
            bump_entry(e1, PositionName::EndPos)
        } else {
            e1
        }
    } else if ends_sentence(w) {
        bump_entry(e, PositionName::EndPos)
    } else {
        bump_entry(record_next(e, nx), PositionName::MiddlePos)
    }
}

/// One observation of word `w` followed by `nx` (empty when `w` closes its
/// line).  The next word starts a sentence exactly when `w` ends one.
pub open spec fn step_token(st: IndexState, w: Seq<char>, nx: Seq<char>) -> IndexState {
    let m = upsert(st.words, w);
    let i = find_key(m, w);
    IndexState {
        words: m.update(i, (w, classify(m[i].1, st.expect_start, w, nx))),
        expect_start: ends_sentence(w),
    }
}

/// The word following position `i` within its line, or the empty sentinel.
pub open spec fn next_of(toks: Seq<Seq<char>>, i: int) -> Seq<char> {
    if i + 1 < toks.len() {
        toks[i + 1]
    } else {
        Seq::empty()
    }
}

/// The state after consuming the words of one line from position `i` on.
pub open spec fn run_line(st: IndexState, toks: Seq<Seq<char>>, i: int) -> IndexState
    decreases toks.len() - i,
{
    if i < 0 || i >= toks.len() {
        st
    } else {
        run_line(step_token(st, toks[i], next_of(toks, i)), toks, i + 1)
    }
}

/// The state after consuming the lines from position `i` on.
pub open spec fn run_lines(st: IndexState, lines: Seq<Seq<char>>, i: int) -> IndexState
    decreases lines.len() - i,
{
    if i < 0 || i >= lines.len() {
        st
    } else {
        run_lines(run_line(st, tokens_of(lines[i]), 0), lines, i + 1)
    }
}

/// Before any word is seen the table is empty and a sentence is expected.
pub open spec fn init_state() -> IndexState {
    IndexState { words: Seq::empty(), expect_start: true }
}

/// The transition table described by a corpus.
pub open spec fn build(lines: Seq<Seq<char>>) -> ModelV {
    run_lines(init_state(), lines, 0).words
}

/// Every successor recorded in `m` has an entry of its own, except possibly
/// the word `pending`, which is about to be observed.
pub open spec fn succ_ok(m: ModelV, pending: Seq<char>) -> bool {
    forall|i: int, j: int|
        0 <= i < m.len() && 0 <= j < m[i].1.next.len() ==> has_key(m, #[trigger] m[i].1.next[j])
            || m[i].1.next[j] == pending
}

/// Every entry's counters witness at least one observation: a word gets an
/// entry only by being seen, and being seen bumps a counter.
pub open spec fn all_seen(m: ModelV) -> bool {
    forall|i: int| 0 <= i < m.len() ==> counts_sum((#[trigger] m[i]).1) >= 1
}

/// Adding an entry keeps every present key and adds the new one.
proof fn lemma_has_key_push(m: ModelV, p: (Seq<char>, EntryV), x: Seq<char>)
    ensures
        has_key(m.push(p), x) <==> (has_key(m, x) || p.0 == x),
{
    lemma_find_key(m, x);
    lemma_find_key(m.push(p), x);
    if has_key(m, x) {
        let j = choose|j: int| 0 <= j < m.len() && (#[trigger] m[j].0) == x;
        assert(m.push(p)[j].0 == x);
    }
    if p.0 == x {
        assert(m.push(p)[m.len() as int].0 == x);
    }
    if has_key(m.push(p), x) {
        let j = choose|j: int| 0 <= j < m.push(p).len() && (#[trigger] m.push(p)[j].0) == x;
        if j < m.len() {
            assert(m[j].0 == x);
        }
    }
}

/// Replacing an entry without changing its key changes no lookup index.
proof fn lemma_find_key_update(m: ModelV, i: int, p: (Seq<char>, EntryV), x: Seq<char>)
    requires
        0 <= i < m.len(),
        p.0 == m[i].0,
    ensures
        find_key(m.update(i, p), x) == find_key(m, x),
        has_key(m.update(i, p), x) == has_key(m, x),
{
    lemma_find_key(m, x);
    let f = find_key(m, x);
    assert(forall|j: int| 0 <= j < m.len() ==> (#[trigger] m.update(i, p)[j]).0 == m[j].0);
    assert forall|j: int| 0 <= j < f implies (#[trigger] m.update(i, p)[j]).0 != x by {
        assert(m[j].0 != x);
    }
    if f < m.len() {
        assert(m.update(i, p)[f].0 == m[f].0);
    }
    lemma_find_key_at(m.update(i, p), x, f);
    lemma_find_key(m.update(i, p), x);
}

/// The successor list after one observation: unchanged, or extended by the
/// observed next word.
proof fn lemma_classify_next(e: EntryV, expect_start: bool, w: Seq<char>, nx: Seq<char>)
    ensures
        classify(e, expect_start, w, nx).next == e.next || (nx.len() > 0 && classify(
            e,
            expect_start,
            w,
            nx,
        ).next == e.next.push(nx)),
        classify(e, expect_start, w, nx).start >= e.start,
{
}

/// One observation preserves the table invariants.
proof fn lemma_step_token_wf(st: IndexState, w: Seq<char>, nx: Seq<char>)
    requires
        distinct_keys(st.words),
        no_empty_words(st.words),
        all_seen(st.words),
        succ_ok(st.words, w),
        w.len() > 0,
    ensures
        distinct_keys(step_token(st, w, nx).words),
        no_empty_words(step_token(st, w, nx).words),
        all_seen(step_token(st, w, nx).words),
        succ_ok(step_token(st, w, nx).words, nx),
{
    let m0 = st.words;
    let m1 = upsert(m0, w);
    lemma_find_key(m0, w);
    lemma_find_key(m1, w);
    let i = find_key(m1, w);
    let e0 = m1[i].1;
    let e2 = classify(e0, st.expect_start, w, nx);
    let m2 = m1.update(i, (w, e2));
    lemma_classify_next(e0, st.expect_start, w, nx);
    assert forall|x: Seq<char>| has_key(m0, x) implies has_key(m1, x) by {
        if !has_key(m0, w) {
            lemma_has_key_push(m0, (w, empty_entry()), x);
        }
    }
    if !has_key(m0, w) {
        lemma_has_key_push(m0, (w, empty_entry()), w);
    }
    assert(has_key(m1, w));
    assert(m1[i].0 == w);
    if !has_key(m0, w) {
        assert forall|a: int, b: int| 0 <= a < b < m1.len() implies (#[trigger] m1[a].0)
            != (#[trigger] m1[b].0) by {
            if b == m0.len() {
                assert(m1[b].0 == w);
                assert(m1[a].0 == m0[a].0);
            }
        }
        assert(no_empty_words(m1));
    }
    assert(distinct_keys(m1));
    assert forall|x: Seq<char>| has_key(m1, x) implies has_key(m2, x) by {
        lemma_find_key_update(m1, i, (w, e2), x);
    }
    assert forall|a: int, b: int| 0 <= a < b < m2.len() implies (#[trigger] m2[a].0)
        != (#[trigger] m2[b].0) by {
        assert(m2[a].0 == m1[a].0);
        assert(m2[b].0 == m1[b].0);
    }
    assert forall|a: int, b: int| 0 <= a < m2.len() && 0 <= b < m2[a].1.next.len() implies (
    #[trigger] m2[a].1.next[b]).len() > 0 && (has_key(m2, m2[a].1.next[b]) || m2[a].1.next[b]
        == nx) by {
        let s = m2[a].1.next[b];
        if a == i {
            if b < e0.next.len() && e0.next[b] == s {
                assert(m1[a].1.next[b] == s);
                assert(has_key(m0, s) || s == w);
                assert(s.len() > 0);
                assert(has_key(m1, s));
                lemma_find_key_update(m1, i, (w, e2), s);
            } else {
                assert(e2.next == e0.next.push(nx));
                assert(b == e0.next.len());
                assert(s == nx);
                assert(s.len() > 0);
            }
        } else {
            assert(m2[a] == m1[a]);
            if a < m0.len() {
                assert(m1[a] == m0[a]);
                assert(has_key(m0, s) || s == w);
                assert(s.len() > 0);
                assert(has_key(m1, s));
                lemma_find_key_update(m1, i, (w, e2), s);
            } else {
                assert(m1[a].1.next.len() == 0);
            }
        }
    }
    assert forall|t: int| 0 <= t < m2.len() implies counts_sum((#[trigger] m2[t]).1) >= 1 by {
        if t == i {
            assert(counts_sum(e2) >= 1);
        } else {
            assert(m2[t].1 == m1[t].1);
            assert(t < m0.len());
            assert(m1[t].1 == m0[t].1);
        }
    }
}

/// The word about to be observed at position `i` of a line.
pub open spec fn pending_at(toks: Seq<Seq<char>>, i: int) -> Seq<char> {
    if 0 <= i < toks.len() {
        toks[i]
    } else {
        Seq::empty()
    }
}

/// Consuming the rest of a line preserves the table invariants; at the end
/// of a line every recorded successor has an entry.
proof fn lemma_run_line_wf(st: IndexState, toks: Seq<Seq<char>>, i: int)
    requires
        distinct_keys(st.words),
        no_empty_words(st.words),
        all_seen(st.words),
        succ_ok(st.words, pending_at(toks, i)),
        forall|k: int| 0 <= k < toks.len() ==> (#[trigger] toks[k]).len() > 0,
        0 <= i,
    ensures
        distinct_keys(run_line(st, toks, i).words),
        no_empty_words(run_line(st, toks, i).words),
        all_seen(run_line(st, toks, i).words),
        succ_ok(run_line(st, toks, i).words, Seq::empty()),
    decreases toks.len() - i,
{
    if i >= toks.len() {
    } else {
        let st2 = step_token(st, toks[i], next_of(toks, i));
        lemma_step_token_wf(st, toks[i], next_of(toks, i));
        assert(next_of(toks, i) == pending_at(toks, i + 1));
        lemma_run_line_wf(st2, toks, i + 1);
    }
}

/// With no empty successors recorded, a table closed up to the empty
/// sentinel is closed up to any pending word.
proof fn lemma_succ_ok_any(m: ModelV, p: Seq<char>)
    requires
        no_empty_words(m),
        succ_ok(m, Seq::empty()),
    ensures
        succ_ok(m, p),
{
    assert forall|i: int, j: int| 0 <= i < m.len() && 0 <= j < m[i].1.next.len() implies has_key(
        m,
        #[trigger] m[i].1.next[j],
    ) || m[i].1.next[j] == p by {
        assert(m[i].1.next[j].len() > 0);
    }
}

/// Consuming the rest of a corpus preserves the table invariants.
proof fn lemma_run_lines_wf(st: IndexState, lines: Seq<Seq<char>>, i: int)
    requires
        distinct_keys(st.words),
        no_empty_words(st.words),
        all_seen(st.words),
        succ_ok(st.words, Seq::empty()),
        0 <= i,
    ensures
        distinct_keys(run_lines(st, lines, i).words),
        no_empty_words(run_lines(st, lines, i).words),
        all_seen(run_lines(st, lines, i).words),
        succ_ok(run_lines(st, lines, i).words, Seq::empty()),
    decreases lines.len() - i,
{
    if i >= lines.len() {
    } else {
        let toks = tokens_of(lines[i]);
        lemma_tokens_nonempty(lines[i]);
        lemma_succ_ok_any(st.words, pending_at(toks, 0));
        let st2 = run_line(st, toks, 0);
        lemma_run_line_wf(st, toks, 0);
        lemma_run_lines_wf(st2, lines, i + 1);
    }
}

/// The table built from any corpus is well-formed: distinct non-empty keys,
/// no empty successors, every successor present as a key, and every entry
/// witnessed by at least one observation.
pub proof fn lemma_build_wf(lines: Seq<Seq<char>>)
    ensures
        model_wf(build(lines)),
        all_seen(build(lines)),
{
    lemma_run_lines_wf(init_state(), lines, 0);
    let m = build(lines);
    lemma_succ_ok_any(m, Seq::empty());
    assert forall|i: int, j: int|
        0 <= i < m.len() && 0 <= j < m[i].1.next.len() implies has_key(
        m,
        #[trigger] m[i].1.next[j],
    ) by {
        assert(m[i].1.next[j].len() > 0);
    }
}

/// Determinism of structure: the table described by a corpus is a function
/// of the corpus alone, so any two tables built from the same corpus hold
/// identical words, counters and successor lists.
pub proof fn lemma_index_deterministic(db1: WordsDB, db2: WordsDB, lines: Seq<Seq<char>>)
    requires
        db1.words_view() == build(lines),
        db2.words_view() == build(lines),
    ensures
        db1.words_view() == db2.words_view(),
{
}

/// A corpus whose lines hold no words leaves the table untouched.
proof fn lemma_run_lines_blank(st: IndexState, lines: Seq<Seq<char>>, i: int)
    requires
        forall|k: int| 0 <= k < lines.len() ==> tokens_of(#[trigger] lines[k]).len() == 0,
        0 <= i,
    ensures
        run_lines(st, lines, i) == st,
    decreases lines.len() - i,
{
    if i >= lines.len() {
    } else {
        assert(run_line(st, tokens_of(lines[i]), 0) == st);
        lemma_run_lines_blank(st, lines, i + 1);
    }
}

/// A model built from blank lines (or no lines at all) has no starter
/// words, so generation from it must fail.
pub proof fn lemma_blank_corpus_no_starters(db: WordsDB, lines: Seq<Seq<char>>)
    requires
        forall|k: int| 0 <= k < lines.len() ==> tokens_of(#[trigger] lines[k]).len() == 0,
        db.words_view() == build(lines),
        db.prepared(),
    ensures
        db.starters_view().len() == 0,
{
    broadcast use vstd::seq_lib::group_to_multiset_ensures;

    lemma_run_lines_blank(init_state(), lines, 0);
    assert(db.words_view() == Seq::<(Seq<char>, EntryV)>::empty());
    assert(crate::model::starter_keys(db.words_view()) == Seq::<Seq<char>>::empty());
    assert(db.starters_view().len() == db.starters_view().to_multiset().len());
    assert(Seq::<Seq<char>>::empty().len() == Seq::<Seq<char>>::empty().to_multiset().len());
}

/// No empty successors: whatever the corpus, no entry of the table built
/// from it ever records the empty string as a successor.
pub proof fn lemma_no_empty_successors(lines: Seq<Seq<char>>)
    ensures
        forall|i: int, j: int|
            0 <= i < build(lines).len() && 0 <= j < build(lines)[i].1.next.len() ==> (
            #[trigger] build(lines)[i].1.next[j]).len() > 0,
{
    lemma_build_wf(lines);
}

/// The sum of a word's three positional counters.
pub open spec fn counts_sum(e: EntryV) -> nat {
    e.start + e.mid + e.end
}

/// The counter sum recorded for `x`, or zero if `x` has no entry.
pub open spec fn count_of(m: ModelV, x: Seq<char>) -> nat {
    if has_key(m, x) {
        counts_sum(entry_of(m, x))
    } else {
        0
    }
}

/// How often `x` occurs among the words of a line from position `i` on.
pub open spec fn occ_from(toks: Seq<Seq<char>>, x: Seq<char>, i: int) -> nat
    decreases toks.len() - i,
{
    if i < 0 || i >= toks.len() {
        0
    } else {
        (if toks[i] == x {
            1nat
        } else {
            0nat
        }) + occ_from(toks, x, i + 1)
    }
}

/// How often `x` occurs in the corpus' token stream from line `i` on.
pub open spec fn occ_lines_from(lines: Seq<Seq<char>>, x: Seq<char>, i: int) -> nat
    decreases lines.len() - i,
{
    if i < 0 || i >= lines.len() {
        0
    } else {
        occ_from(tokens_of(lines[i]), x, 0) + occ_lines_from(lines, x, i + 1)
    }
}

/// How often `x` occurs in the corpus' token stream.
pub open spec fn occurrences(lines: Seq<Seq<char>>, x: Seq<char>) -> nat {
    occ_lines_from(lines, x, 0)
}

/// The number of words in the corpus from line `i` on.
pub open spec fn total_tokens_from(lines: Seq<Seq<char>>, i: int) -> nat
    decreases lines.len() - i,
{
    if i < 0 || i >= lines.len() {
        0
    } else {
        tokens_of(lines[i]).len() + total_tokens_from(lines, i + 1)
    }
}

/// The number of words in the corpus' token stream.
pub open spec fn total_tokens(lines: Seq<Seq<char>>) -> nat {
    total_tokens_from(lines, 0)
}

/// Every counter in the table is at most `bound`.
pub open spec fn counters_le(m: ModelV, bound: nat) -> bool {
    forall|i: int|
        0 <= i < m.len() ==> (#[trigger] m[i].1).start <= bound && m[i].1.mid <= bound
            && m[i].1.end <= bound
}

/// One observation of `w` adds at least one to `w`'s counter sum and leaves
/// every other word's sum unchanged, as long as no counter has reached its
/// cap.
proof fn lemma_step_token_counts(st: IndexState, w: Seq<char>, nx: Seq<char>, x: Seq<char>, seen: nat)
    requires
        counters_le(st.words, seen),
        seen < u64::MAX,
    ensures
        counters_le(step_token(st, w, nx).words, seen + 1),
        w == x ==> count_of(step_token(st, w, nx).words, x) >= count_of(st.words, x) + 1,
        w != x ==> count_of(step_token(st, w, nx).words, x) == count_of(st.words, x),
{
    let m0 = st.words;
    let m1 = upsert(m0, w);
    lemma_find_key(m0, w);
    lemma_find_key(m1, w);
    if !has_key(m0, w) {
        lemma_has_key_push(m0, (w, empty_entry()), w);
    }
    let i = find_key(m1, w);
    let e0 = m1[i].1;
    let e2 = classify(e0, st.expect_start, w, nx);
    let m2 = m1.update(i, (w, e2));
    assert(counters_le(m1, seen));
    assert(e0.start <= seen && e0.mid <= seen && e0.end <= seen);
    assert(counts_sum(e2) >= counts_sum(e0) + 1);
    assert(e2.start <= seen + 1 && e2.mid <= seen + 1 && e2.end <= seen + 1);
    assert forall|t: int| 0 <= t < m2.len() implies (#[trigger] m2[t].1).start <= seen + 1
        && m2[t].1.mid <= seen + 1 && m2[t].1.end <= seen + 1 by {
        if t != i {
            assert(m2[t].1 == m1[t].1);
        }
    }
    lemma_find_key_update(m1, i, (w, e2), x);
    if w == x {
        assert(count_of(m0, w) == counts_sum(e0));
        assert(find_key(m2, w) == i);
        assert(count_of(m2, w) == counts_sum(e2));
    } else {
        lemma_find_key(m0, x);
        lemma_find_key(m1, x);
        if has_key(m0, x) {
            let f0 = find_key(m0, x);
            if !has_key(m0, w) {
                lemma_find_key_at(m1, x, f0);
            }
            assert(find_key(m1, x) == f0);
            assert(find_key(m2, x) == f0);
            assert(m2[f0].0 == x);
            assert(f0 != i);
            assert(m2[f0].1 == m1[f0].1);
            assert(count_of(m2, x) == count_of(m0, x));
        } else {
            if !has_key(m0, w) {
                lemma_has_key_push(m0, (w, empty_entry()), x);
            }
            assert(!has_key(m1, x));
            assert(!has_key(m2, x));
        }
    }
}

/// Consuming the rest of a line adds at least the remaining occurrences of
/// `x` to `x`'s counter sum.
proof fn lemma_run_line_counts(
    st: IndexState,
    toks: Seq<Seq<char>>,
    x: Seq<char>,
    i: int,
    seen: nat,
    total: nat,
)
    requires
        counters_le(st.words, seen),
        0 <= i <= toks.len(),
        seen + (toks.len() - i) <= total,
        total <= u64::MAX,
    ensures
        counters_le(run_line(st, toks, i).words, (seen + (toks.len() - i)) as nat),
        count_of(run_line(st, toks, i).words, x) >= count_of(st.words, x) + occ_from(toks, x, i),
    decreases toks.len() - i,
{
    if i >= toks.len() {
    } else {
        let st2 = step_token(st, toks[i], next_of(toks, i));
        lemma_step_token_counts(st, toks[i], next_of(toks, i), x, seen);
        lemma_run_line_counts(st2, toks, x, i + 1, seen + 1, total);
    }
}

/// Consuming the rest of a corpus adds at least the remaining occurrences
/// of `x` to `x`'s counter sum.
proof fn lemma_run_lines_counts(
    st: IndexState,
    lines: Seq<Seq<char>>,
    x: Seq<char>,
    i: int,
    seen: nat,
    total: nat,
)
    requires
        counters_le(st.words, seen),
        0 <= i <= lines.len(),
        seen + total_tokens_from(lines, i) <= total,
        total <= u64::MAX,
    ensures
        counters_le(run_lines(st, lines, i).words, (seen + total_tokens_from(lines, i)) as nat),
        count_of(run_lines(st, lines, i).words, x) >= count_of(st.words, x) + occ_lines_from(
            lines,
            x,
            i,
        ),
    decreases lines.len() - i,
{
    if i >= lines.len() {
    } else {
        let toks = tokens_of(lines[i]);
        let st2 = run_line(st, toks, 0);
        lemma_run_line_counts(st, toks, x, 0, seen, total);
        lemma_run_lines_counts(st2, lines, x, i + 1, (seen + toks.len()) as nat, total);
    }
}

/// Count conservation: in a corpus whose token stream fits the counters,
/// every word's three positional counters sum to at least the number of
/// times the word occurs in the stream.  (A word that both starts and ends
/// a sentence is counted in two categories at once, so the sum can exceed
/// the number of occurrences.)
pub proof fn lemma_count_conservation(lines: Seq<Seq<char>>, x: Seq<char>)
    requires
        total_tokens(lines) <= u64::MAX,
    ensures
        count_of(build(lines), x) >= occurrences(lines, x),
{
    let st = init_state();
    assert(!has_key(st.words, x));
    assert(count_of(st.words, x) == 0);
    lemma_run_lines_counts(st, lines, x, 0, 0, total_tokens(lines));
}

/// Decides whether a word ends a sentence.
fn ends_with_terminal(w: &String) -> (r: bool)
    ensures
        r == ends_sentence(w@),
{
    let n = w.as_str().unicode_len();
    if n == 0 {
        false
    } else {
        let c = w.as_str().get_char(n - 1);
        c == '.' || c == '?' || c == '!'
    }
}

/// Whether `v` already holds the word `w`.
fn contains_word(v: &Vec<String>, w: &String) -> (r: bool)
    ensures
        r == v.deep_view().contains(w@),
{
    let mut i: usize = 0;
    while i < v.len()
        invariant
            i <= v@.len(),
            forall|j: int| 0 <= j < i ==> (#[trigger] v.deep_view()[j]) != w@,
        decreases v@.len() - i,
    {
        if v[i] == *w {
            assert(v.deep_view()[i as int] == w@);
            return true;
        }
        i = i + 1;
    }
    assert(forall|j: int| 0 <= j < v.deep_view().len() ==> (#[trigger] v.deep_view()[j]) != w@);
    false
}

/// Records `word` as a successor in `info`, unless it is empty or already
/// recorded.
fn push_word(info: &mut WordInfo, word: &String)
    ensures
        final(info)@ == record_next(old(info)@, word@),
{
    if !contains_word(&info.next_words, word) && word.as_str().unicode_len() > 0 {
        let ghost prev = info.next_words.deep_view();
        info.next_words.push(word.clone());
        proof {
            assert(info.next_words.deep_view() =~= prev.push(word@));
        }
    }
}

/// Builds the transition table of a corpus.  The starter list is left
/// empty; `prepare_db_for_work` fills it.
pub fn index(lines: &Vec<String>) -> (db: WordsDB)
    ensures
        db.words_view() == build(lines.deep_view()),
        db.first_words@.len() == 0,
{
    let ghost lv = lines.deep_view();
    let mut words: Vec<(String, WordInfo)> = Vec::new();
    let mut expect_start: bool = true;
    proof {
        assert(model_of(words@) =~= Seq::<(Seq<char>, EntryV)>::empty());
        assert(IndexState { words: model_of(words@), expect_start } == init_state());
    }
    let mut li: usize = 0;
    while li < lines.len()
        invariant
            li <= lines@.len(),
            lv == lines.deep_view(),
            run_lines(IndexState { words: model_of(words@), expect_start }, lv, li as int)
                == run_lines(init_state(), lv, 0),
        decreases lines@.len() - li,
    {
        let toks = tokenize(lines[li].as_str());
        let ghost tv = toks.deep_view();
        proof {
            assert(lv[li as int] == lines@[li as int]@);
            assert(tv == tokens_of(lv[li as int]));
        }
        let ghost st_line = IndexState { words: model_of(words@), expect_start };
        let mut ti: usize = 0;
        while ti < toks.len()
            invariant
                ti <= toks@.len(),
                tv == toks.deep_view(),
                run_line(IndexState { words: model_of(words@), expect_start }, tv, ti as int)
                    == run_line(st_line, tv, 0),
            decreases toks@.len() - ti,
        {
            let ghost st_cur = IndexState { words: model_of(words@), expect_start };
            let ghost m0 = model_of(words@);
            let w = &toks[ti];
            proof {
                assert(w@ == tv[ti as int]);
            }
            let nx: String = if ti + 1 < toks.len() {
                toks[ti + 1].clone()
            } else {
                String::new()
            };
            proof {
                assert(nx@ == next_of(tv, ti as int));
            }
            let idx: usize = match find_word(&words, w) {
                Some(i) => {
                    proof {
                        assert(upsert(m0, w@) == m0);
                    }
                    i
                },
                None => {
                    let wi = WordInfo {
                        next_words: Vec::new(),
                        start_count: 0,
                        mid_count: 0,
                        end_count: 0,
                    };
                    proof {
                        assert(wi.next_words.deep_view() =~= Seq::<Seq<char>>::empty());
                        assert(wi@ == empty_entry());
                        lemma_find_key(m0, w@);
                    }
                    words.push((w.clone(), wi));
                    proof {
                        assert(model_of(words@) =~= m0.push((w@, empty_entry())));
                        lemma_find_key_at(model_of(words@), w@, m0.len() as int);
                    }
                    words.len() - 1
                },
            };
            let ghost m1 = upsert(m0, w@);
            proof {
                assert(model_of(words@) == m1);
                assert(find_key(m1, w@) == idx as int);
                assert(idx < words@.len());
            }
            let ghost e0 = m1[idx as int].1;
            let ghost e2 = classify(e0, st_cur.expect_start, w@, nx@);
            let ends = ends_with_terminal(w);
            let ghost before = words@;
            proof {
                lemma_find_key(m1, w@);
                assert(before[idx as int].1@ == e0);
                assert(before[idx as int].0@ == w@);
            }
            if expect_start {
                words[idx].1.inc_pos(PositionName::FirstPos);
                proof {
                    assert(words@[idx as int].1@ == bump_entry(e0, PositionName::FirstPos));
                }
                push_word(&mut words[idx].1, &nx);
                proof {
                    assert(words@[idx as int].1@ == record_next(
                        bump_entry(e0, PositionName::FirstPos),
                        nx@,
                    ));
                }
                if ends {
                    words[idx].1.inc_pos(PositionName::EndPos);
                }
                proof {
                    assert(words@[idx as int].1@ == e2);
                }
            } else if ends {
                words[idx].1.inc_pos(PositionName::EndPos);
                proof {
                    assert(words@[idx as int].1@ == e2);
                }
            } else {
                push_word(&mut words[idx].1, &nx);
                proof {
                    assert(words@[idx as int].1@ == record_next(e0, nx@));
                }
                words[idx].1.inc_pos(PositionName::MiddlePos);
                proof {
                    assert(words@[idx as int].1@ == e2);
                }
            }
            proof {
                assert(words@.len() == before.len());
                assert(words@[idx as int].0 == before[idx as int].0);
                assert(forall|t: int|
                    0 <= t < words@.len() && t != idx ==> words@[t] == before[t]);
                assert forall|t: int| 0 <= t < words@.len() implies model_of(words@)[t]
                    == m1.update(idx as int, (w@, e2))[t] by {
                    if t == idx {
                        assert(model_of(words@)[t] == (words@[t].0@, words@[t].1@));
                    } else {
                        assert(model_of(words@)[t] == (words@[t].0@, words@[t].1@));
                        assert(m1[t] == (before[t].0@, before[t].1@));
                    }
                }
                assert(model_of(words@) =~= m1.update(idx as int, (w@, e2)));
                assert(step_token(st_cur, w@, nx@) == IndexState {
                    words: model_of(words@),
                    expect_start: ends_sentence(w@),
                });
            }
            expect_start = ends;
            ti = ti + 1;
        }
        li = li + 1;
    }
    proof {
        assert(run_lines(IndexState { words: model_of(words@), expect_start }, lv, lv.len() as int)
            == IndexState { words: model_of(words@), expect_start });
    }
    let db = WordsDB { words, first_words: Vec::new() };
    proof {
        assert(db.words_view() == build(lv));
    }
    db
}

} // verus!
