//! The word-transition model: one entry per distinct word, holding the
//! words seen immediately after it and three positional counters, plus the
//! list of words eligible to start a generated sentence.

use vstd::prelude::*;

use crate::lex::lemma_lex_lt_connected;
use crate::lex::lex_lt;
use crate::lex::str_lt;

verus! {

broadcast use vstd::seq_lib::group_to_multiset_ensures;

/// Mathematical content of a word's entry: the recorded successors in
/// first-seen order, and how often the word was seen starting, inside, and
/// ending a sentence.
pub ghost struct EntryV {
    pub next: Seq<Seq<char>>,
    pub start: nat,
    pub mid: nat,
    pub end: nat,
}

/// The mathematical model of the transition table: an association list of
/// words and entries, in first-seen order.
pub type ModelV = Seq<(Seq<char>, EntryV)>;

/// The entry of a word never seen before.
pub open spec fn empty_entry() -> EntryV {
    EntryV { next: Seq::empty(), start: 0, mid: 0, end: 0 }
}

/// A counter increment; the counters cap at `u64::MAX` rather than wrap.
pub open spec fn sat_inc(c: nat) -> nat {
    if c < u64::MAX as nat {
        c + 1
    } else {
        c
    }
}

/// The position a word was observed at within a sentence.
pub enum PositionName {
    FirstPos,
    MiddlePos,
    EndPos,
}

/// `e` with the counter for `pos` incremented.
pub open spec fn bump_entry(e: EntryV, pos: PositionName) -> EntryV {
    match pos {
        PositionName::FirstPos => EntryV {
            next: e.next,
            start: sat_inc(e.start),
            mid: e.mid,
            end: e.end,
        },
        PositionName::MiddlePos => EntryV {
            next: e.next,
            start: e.start,
            mid: sat_inc(e.mid),
            end: e.end,
        },
        PositionName::EndPos => EntryV {
            next: e.next,
            start: e.start,
            mid: e.mid,
            end: sat_inc(e.end),
        },
    }
}

/// A word's entry: recorded successors and positional counters.
#[derive(Debug, PartialEq, Eq)]
pub struct WordInfo {
    pub next_words: Vec<String>,
    pub start_count: u64,
    pub mid_count: u64,
    pub end_count: u64,
}

impl View for WordInfo {
    type V = EntryV;

    open spec fn view(&self) -> EntryV {
        EntryV {
            next: self.next_words.deep_view(),
            start: self.start_count as nat,
            mid: self.mid_count as nat,
            end: self.end_count as nat,
        }
    }
}

impl WordInfo {
    /// Increments the counter for the given position, capping at `u64::MAX`.
    pub fn inc_pos(&mut self, pos: PositionName)
        ensures
            final(self)@ == bump_entry(old(self)@, pos),
    {
        match pos {
            PositionName::FirstPos => {
                if self.start_count < u64::MAX {
                    self.start_count = self.start_count + 1;
                }
            },
            PositionName::MiddlePos => {
                if self.mid_count < u64::MAX {
                    self.mid_count = self.mid_count + 1;
                }
            },
            PositionName::EndPos => {
                if self.end_count < u64::MAX {
                    self.end_count = self.end_count + 1;
                }
            },
        }
    }
}

/// The mathematical model of a word table.
pub open spec fn model_of(ws: Seq<(String, WordInfo)>) -> ModelV {
    Seq::new(ws.len(), |i: int| (ws[i].0@, ws[i].1@))
}

/// The index of the first entry for `w`, or `m.len()` if there is none.
pub open spec fn find_key(m: ModelV, w: Seq<char>) -> int
    decreases m.len(),
{
    if m.len() == 0 {
        0
    } else if m[0].0 == w {
        0
    } else {
        1 + find_key(m.skip(1), w)
    }
}

/// Whether the table has an entry for `w`.
pub open spec fn has_key(m: ModelV, w: Seq<char>) -> bool {
    find_key(m, w) < m.len()
}

/// The entry recorded for `w`.
pub open spec fn entry_of(m: ModelV, w: Seq<char>) -> EntryV {
    m[find_key(m, w)].1
}

/// What `find_key` returns: the first index whose key is `w`, if any.
pub proof fn lemma_find_key(m: ModelV, w: Seq<char>)
    ensures
        0 <= find_key(m, w) <= m.len(),
        find_key(m, w) < m.len() ==> m[find_key(m, w)].0 == w,
        forall|j: int| 0 <= j < find_key(m, w) ==> (#[trigger] m[j].0) != w,
        has_key(m, w) <==> exists|j: int| 0 <= j < m.len() && (#[trigger] m[j].0) == w,
    decreases m.len(),
{
    if m.len() == 0 {
    } else if m[0].0 == w {
    } else {
        lemma_find_key(m.skip(1), w);
        let f = find_key(m.skip(1), w);
        assert forall|j: int| 0 <= j < 1 + f implies (#[trigger] m[j].0) != w by {
            if j > 0 {
                assert(m[j] == m.skip(1)[j - 1]);
            }
        }
        if f < m.skip(1).len() {
            assert(m[1 + f] == m.skip(1)[f]);
            assert(m[1 + f].0 == w);
        } else {
            assert forall|j: int| 0 <= j < m.len() implies (#[trigger] m[j].0) != w by {
                if j > 0 {
                    assert(m.skip(1)[j - 1] == m[j]);
                    assert(m.skip(1)[j - 1].0 != w);
                }
            }
        }
    }
}

/// If the keys before `i` all differ from `w` and the key at `i` (if `i` is
/// in range) is `w`, then `find_key` lands on `i`.
pub proof fn lemma_find_key_at(m: ModelV, w: Seq<char>, i: int)
    requires
        0 <= i <= m.len(),
        forall|j: int| 0 <= j < i ==> (#[trigger] m[j].0) != w,
        i < m.len() ==> m[i].0 == w,
    ensures
        i < m.len() ==> find_key(m, w) == i,
        i == m.len() ==> !has_key(m, w),
{
    lemma_find_key(m, w);
    let f = find_key(m, w);
    if i < m.len() {
        assert(m[i].0 == w);
        if f < i {
            assert(m[f].0 != w);
        }
    } else {
        if f < m.len() {
            assert(m[f].0 != w);
        }
    }
}

/// No two entries share a key.
pub open spec fn distinct_keys(m: ModelV) -> bool {
    forall|i: int, j: int|
        0 <= i < j < m.len() ==> (#[trigger] m[i].0) != (#[trigger] m[j].0)
}

/// No entry records the empty string as a successor, and no key is empty.
pub open spec fn no_empty_words(m: ModelV) -> bool {
    &&& forall|i: int| 0 <= i < m.len() ==> (#[trigger] m[i].0).len() > 0
    &&& forall|i: int, j: int|
        0 <= i < m.len() && 0 <= j < m[i].1.next.len() ==> (#[trigger] m[i].1.next[j]).len() > 0
}

/// Every recorded successor has an entry of its own.
pub open spec fn succ_closed(m: ModelV) -> bool {
    forall|i: int, j: int|
        0 <= i < m.len() && 0 <= j < m[i].1.next.len() ==> has_key(
            m,
            #[trigger] m[i].1.next[j],
        )
}

/// Well-formedness of a transition table.
pub open spec fn model_wf(m: ModelV) -> bool {
    distinct_keys(m) && no_empty_words(m) && succ_closed(m)
}

/// The keys whose start counter is positive, in table order.
pub open spec fn starter_keys(m: ModelV) -> Seq<Seq<char>>
    decreases m.len(),
{
    if m.len() == 0 {
        Seq::empty()
    } else {
        let rest = starter_keys(m.drop_last());
        if m.last().1.start > 0 {
            rest.push(m.last().0)
        } else {
            rest
        }
    }
}

/// Membership in `starter_keys`: exactly the keys with a positive start
/// counter.
pub proof fn lemma_starter_keys_membership(m: ModelV, t: Seq<char>)
    ensures
        starter_keys(m).contains(t) <==> exists|j: int|
            0 <= j < m.len() && (#[trigger] m[j].0) == t && m[j].1.start > 0,
    decreases m.len(),
{
    if m.len() == 0 {
    } else {
        lemma_starter_keys_membership(m.drop_last(), t);
        let rest = starter_keys(m.drop_last());
        let sk = starter_keys(m);
        if m.last().1.start > 0 {
            assert(sk == rest.push(m.last().0));
            if sk.contains(t) {
                let i = choose|i: int| 0 <= i < sk.len() && sk[i] == t;
                if i < rest.len() {
                    assert(rest[i] == t);
                    assert(rest.contains(t));
                    let j = choose|j: int|
                        0 <= j < m.drop_last().len() && m.drop_last()[j].0 == t
                            && m.drop_last()[j].1.start > 0;
                    assert(m[j] == m.drop_last()[j]);
                    assert(m[j].0 == t && m[j].1.start > 0);
                } else {
                    assert(sk[i] == m.last().0);
                    assert(m[m.len() - 1].0 == t && m[m.len() - 1].1.start > 0);
                }
            }
            if exists|j: int| 0 <= j < m.len() && (#[trigger] m[j].0) == t && m[j].1.start > 0 {
                let j = choose|j: int|
                    0 <= j < m.len() && (#[trigger] m[j].0) == t && m[j].1.start > 0;
                if j < m.len() - 1 {
                    assert(m.drop_last()[j] == m[j]);
                    assert(rest.contains(t));
                    let i = choose|i: int| 0 <= i < rest.len() && rest[i] == t;
                    assert(sk[i] == t);
                    assert(sk.contains(t));
                } else {
                    assert(sk[sk.len() - 1] == t);
                    assert(sk.contains(t));
                }
            }
        } else {
            assert(sk == rest);
            if sk.contains(t) {
                let j = choose|j: int|
                    0 <= j < m.drop_last().len() && m.drop_last()[j].0 == t
                        && m.drop_last()[j].1.start > 0;
                assert(m[j] == m.drop_last()[j]);
                assert(m[j].0 == t && m[j].1.start > 0);
            }
            if exists|j: int| 0 <= j < m.len() && (#[trigger] m[j].0) == t && m[j].1.start > 0 {
                let j = choose|j: int|
                    0 <= j < m.len() && (#[trigger] m[j].0) == t && m[j].1.start > 0;
                if j == m.len() - 1 {
                    assert(m.last().1.start > 0);
                } else {
                    assert(m.drop_last()[j] == m[j]);
                    assert(rest.contains(t));
                }
            }
        }
    }
}

/// A strictly sorted sequence of words.
pub open spec fn sorted_lex(s: Seq<Seq<char>>) -> bool {
    forall|i: int| 0 <= i < s.len() - 1 ==> lex_lt(#[trigger] s[i], s[i + 1])
}

/// The transition table built from a corpus, together with the words that
/// may start a generated sentence.
pub struct WordsDB {
    pub words: Vec<(String, WordInfo)>,
    pub first_words: Vec<String>,
}

impl WordsDB {
    /// The mathematical model of the transition table.
    pub open spec fn words_view(self) -> ModelV {
        model_of(self.words@)
    }

    /// The starter words as character sequences.
    pub open spec fn starters_view(self) -> Seq<Seq<char>> {
        self.first_words.deep_view()
    }

    /// Well-formedness: a sound table whose starter words all have entries.
    pub open spec fn wf(self) -> bool {
        &&& model_wf(self.words_view())
        &&& forall|i: int|
            0 <= i < self.starters_view().len() ==> has_key(
                self.words_view(),
                #[trigger] self.starters_view()[i],
            )
    }

    /// The starter list is finished: sorted, and holding exactly the words
    /// with a positive start counter.
    pub open spec fn prepared(self) -> bool {
        &&& sorted_lex(self.starters_view())
        &&& self.starters_view().to_multiset() == starter_keys(self.words_view()).to_multiset()
    }

    /// An empty model: no words, no starters.
    pub fn new() -> (db: WordsDB)
        ensures
            db.words@.len() == 0,
            db.first_words@.len() == 0,
    {
        WordsDB { words: Vec::new(), first_words: Vec::new() }
    }

    /// Looks up the entry recorded for `w`.
    pub fn get<'a>(&'a self, w: &String) -> (r: Option<&'a WordInfo>)
        ensures
            match r {
                Some(info) => has_key(self.words_view(), w@) && info@ == entry_of(
                    self.words_view(),
                    w@,
                ),
                None => !has_key(self.words_view(), w@),
            },
    {
        match find_word(&self.words, w) {
            Some(i) => Some(&self.words[i].1),
            None => None,
        }
    }

    /// Computes the starter list: every word whose start counter is
    /// positive, in sorted order.
    pub fn prepare_db_for_work(&mut self)
        requires
            distinct_keys(old(self).words_view()),
        ensures
            final(self).words == old(self).words,
            sorted_lex(final(self).starters_view()),
            final(self).starters_view().to_multiset() == starter_keys(
                old(self).words_view(),
            ).to_multiset(),
    {
        let ghost m = self.words_view();
        let mut out: Vec<String> = Vec::new();
        proof {
            assert(m.take(0) =~= Seq::<(Seq<char>, EntryV)>::empty());
            assert(out.deep_view() =~= Seq::<Seq<char>>::empty());
            assert(out.deep_view().to_multiset() =~= starter_keys(m.take(0)).to_multiset());
        }
        let n = self.words.len();
        let mut k: usize = 0;
        while k < n
            invariant
                k <= n,
                n == self.words@.len(),
                self.words == old(self).words,
                m == self.words_view(),
                distinct_keys(m),
                sorted_lex(out.deep_view()),
                out.deep_view().to_multiset() == starter_keys(m.take(k as int)).to_multiset(),
            decreases n - k,
        {
            proof {
                assert(m.take(k + 1).drop_last() =~= m.take(k as int));
                assert(m.take(k + 1).last() == m[k as int]);
            }
            if self.words[k].1.start_count > 0 {
                let key = self.words[k].0.clone();
                assert(key@ == m[k as int].0);
                let mut p: usize = 0;
                while p < out.len() && !str_lt(key.as_str(), out[p].as_str())
                    invariant
                        p <= out.len(),
                        forall|j: int|
                            0 <= j < p ==> !lex_lt(key@, #[trigger] out.deep_view()[j]),
                    decreases out.len() - p,
                {
                    p = p + 1;
                }
                proof {
                    let dv = out.deep_view();
                    if dv.contains(key@) {
                        assert(dv.to_multiset().count(key@) > 0);
                        assert(starter_keys(m.take(k as int)).contains(key@));
                        lemma_starter_keys_membership(m.take(k as int), key@);
                        let j = choose|j: int|
                            0 <= j < m.take(k as int).len() && m.take(k as int)[j].0 == key@
                                && m.take(k as int)[j].1.start > 0;
                        assert(m[j].0 == m[k as int].0);
                        assert(false);
                    }
                    assert forall|j: int| 0 <= j < p implies lex_lt(
                        #[trigger] dv[j],
                        key@,
                    ) by {
                        if dv[j] == key@ {
                            assert(dv.contains(key@));
                        }
                        lemma_lex_lt_connected(key@, dv[j]);
                    }
                }
                let ghost old_dv = out.deep_view();
                out.insert(p, key);
                proof {
                    assert(out.deep_view() =~= old_dv.insert(p as int, key@)) by {
                        assert forall|i: int| 0 <= i < out.deep_view().len() implies out.deep_view()[i]
                            == old_dv.insert(p as int, key@)[i] by {
                            old_dv.insert_ensures(p as int, key@);
                        }
                    }
                    old_dv.insert_ensures(p as int, key@);
                    let new_dv = old_dv.insert(p as int, key@);
                    assert forall|i: int| 0 <= i < new_dv.len() - 1 implies lex_lt(
                        #[trigger] new_dv[i],
                        new_dv[i + 1],
                    ) by {
                        if i + 1 < p {
                            assert(new_dv[i] == old_dv[i] && new_dv[i + 1] == old_dv[i + 1]);
                        } else if i + 1 == p {
                            assert(new_dv[i] == old_dv[i]);
                            assert(new_dv[p as int] == key@);
                        } else if i == p {
                            assert(new_dv[i] == key@);
                            assert(new_dv[i + 1] == old_dv[i]);
                        } else {
                            assert(new_dv[i] == old_dv[i - 1] && new_dv[i + 1] == old_dv[i]);
                        }
                    }
                    assert(starter_keys(m.take(k + 1)) == starter_keys(m.take(k as int)).push(
                        m[k as int].0,
                    ));
                    assert(new_dv.to_multiset() == starter_keys(m.take(k + 1)).to_multiset()) by {
                        assert(new_dv.to_multiset() == old_dv.to_multiset().insert(key@));
                        assert(starter_keys(m.take(k as int)).push(m[k as int].0).to_multiset()
                            == starter_keys(m.take(k as int)).to_multiset().insert(m[k as int].0));
                    }
                }
            } else {
                proof {
                    assert(starter_keys(m.take(k + 1)) == starter_keys(m.take(k as int)));
                }
            }
            k = k + 1;
        }
        proof {
            assert(m.take(n as int) =~= m);
        }
        self.first_words = out;
    }
}

/// The index of `w` in the word table, if present.
pub fn find_word(words: &Vec<(String, WordInfo)>, w: &String) -> (r: Option<usize>)
    ensures
        match r {
            Some(i) => i < words@.len() && find_key(model_of(words@), w@) == i as int,
            None => !has_key(model_of(words@), w@),
        },
{
    let mut i: usize = 0;
    while i < words.len()
        invariant
            i <= words@.len(),
            forall|j: int| 0 <= j < i ==> (#[trigger] model_of(words@)[j].0) != w@,
        decreases words@.len() - i,
    {
        if words[i].0 == *w {
            proof {
                lemma_find_key_at(model_of(words@), w@, i as int);
            }
            return Some(i);
        }
        i = i + 1;
    }
    proof {
        lemma_find_key_at(model_of(words@), w@, words@.len() as int);
    }
    None
}

/// Starter consistency: a word is in the starter list exactly when its
/// entry's start counter is positive.
pub proof fn lemma_starter_consistency(db: WordsDB, w: Seq<char>)
    requires
        db.prepared(),
        distinct_keys(db.words_view()),
    ensures
        db.starters_view().contains(w) <==> (has_key(db.words_view(), w) && entry_of(
            db.words_view(),
            w,
        ).start > 0),
{
    let m = db.words_view();
    let sv = db.starters_view();
    lemma_starter_keys_membership(m, w);
    lemma_find_key(m, w);
    if sv.contains(w) {
        assert(sv.to_multiset().count(w) > 0);
        assert(starter_keys(m).contains(w));
        let j = choose|j: int| 0 <= j < m.len() && (#[trigger] m[j].0) == w && m[j].1.start > 0;
        let f = find_key(m, w);
        if j != f {
            assert(m[f].0 == w);
        }
        assert(entry_of(m, w).start > 0);
    }
    if has_key(m, w) && entry_of(m, w).start > 0 {
        let f = find_key(m, w);
        assert(m[f].0 == w && m[f].1.start > 0);
        assert(starter_keys(m).contains(w));
        assert(starter_keys(m).to_multiset().count(w) > 0);
        assert(sv.contains(w));
    }
}

/// After the starter list is prepared, a well-formed table yields a
/// well-formed model: every starter word has an entry.
pub proof fn lemma_prepared_wf(db: WordsDB)
    requires
        model_wf(db.words_view()),
        db.prepared(),
    ensures
        db.wf(),
{
    let m = db.words_view();
    let sv = db.starters_view();
    assert forall|i: int| 0 <= i < sv.len() implies has_key(m, #[trigger] sv[i]) by {
        assert(sv.contains(sv[i]));
        lemma_starter_consistency(db, sv[i]);
    }
}

} // verus!
