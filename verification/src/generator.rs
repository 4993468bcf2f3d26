//! Random sentence generation from a built model.
//!
//! A sentence starts at a uniformly chosen starter word and repeatedly
//! appends a uniformly chosen recorded successor of the current word, until
//! a word with no recorded successors is reached or a caller-given bound on
//! the sentence length is hit.  The bound keeps generation from running
//! forever on a corpus whose transition graph has no dead end.

use vstd::prelude::*;

use rand::Rng;

use crate::model::entry_of;
use crate::model::find_word;
use crate::model::has_key;
use crate::model::lemma_find_key;
use crate::model::WordsDB;

verus! {

/// Generation failed because the model knows no word that can start a
/// sentence (the corpus was empty or all blank).
#[derive(Debug, PartialEq, Eq)]
pub struct EmptyModelError;

/// Relies on rand's `Rng::gen_range` on the range `0..n`, via `thread_rng`:
/// the sampled value is uniform in the range, hence always below `n`; the
/// call panics only on an empty range, which the precondition rules out.
/// Nothing further is assumed of the choice.
#[verifier::external_body]
fn random_below(n: usize) -> (r: usize)
    requires
        n > 0,
    ensures
        r < n,
{
    rand::thread_rng().gen_range(0..n)
}

/// A word sequence the model can generate: it starts at a starter word and
/// every following word is a recorded successor of its predecessor.
pub open spec fn valid_chain(db: WordsDB, s: Seq<Seq<char>>) -> bool {
    &&& s.len() >= 1
    &&& db.starters_view().contains(s[0])
    &&& forall|i: int|
        0 <= i < s.len() - 1 ==> has_key(db.words_view(), #[trigger] s[i]) && entry_of(
            db.words_view(),
            s[i],
        ).next.contains(s[i + 1])
}

/// The words of a sentence, joined by single spaces.
pub open spec fn joined(ws: Seq<Seq<char>>) -> Seq<char>
    decreases ws.len(),
{
    if ws.len() == 0 {
        Seq::empty()
    } else if ws.len() == 1 {
        ws[0]
    } else {
        joined(ws.drop_last()).push(' ') + ws.last()
    }
}

/// Joins words into a single space-separated sentence.
pub fn join_words(words: &Vec<String>) -> (s: String)
    ensures
        s@ == joined(words.deep_view()),
{
    let dv = Ghost(words.deep_view());
    let mut s = String::new();
    let mut i: usize = 0;
    proof {
        assert(s@ =~= joined(dv@.take(0)));
    }
    while i < words.len()
        invariant
            i <= words@.len(),
            dv@ == words.deep_view(),
            s@ == joined(dv@.take(i as int)),
        decreases words@.len() - i,
    {
        proof {
            assert(dv@.take(i + 1).drop_last() =~= dv@.take(i as int));
            assert(dv@.take(i + 1).last() == dv@[i as int]);
        }
        if i > 0 {
            s.append(" ");
            proof {
                reveal_strlit(" ");
                assert(" "@ =~= seq![' ']);
                assert(joined(dv@.take(i as int)).push(' ') =~= joined(dv@.take(i as int))
                    + " "@);
            }
        }
        s.append(words[i].as_str());
        proof {
            if i == 0 {
                assert(joined(dv@.take(1)) == dv@[0]);
                assert(s@ =~= dv@[0]);
            }
        }
        i = i + 1;
    }
    proof {
        assert(dv@.take(words@.len() as int) =~= dv@);
    }
    s
}

impl WordsDB {
    /// Generates the words of one random sentence: a random starter word,
    /// then random recorded successors, stopping at a word with no
    /// successors or after `max_words` words.  Fails exactly when the model
    /// has no starter word.
    pub fn gen_words(&self, max_words: usize) -> (r: Result<Vec<String>, EmptyModelError>)
        requires
            self.wf(),
            max_words >= 1,
        ensures
            r is Err <==> self.starters_view().len() == 0,
            r matches Ok(out) ==> {
                &&& valid_chain(*self, out.deep_view())
                &&& 1 <= out.deep_view().len() <= max_words
                &&& (out.deep_view().len() == max_words || entry_of(
                    self.words_view(),
                    out.deep_view().last(),
                ).next.len() == 0)
            },
    {
        let n = self.first_words.len();
        if n == 0 {
            return Err(EmptyModelError);
        }
        let first_index = random_below(n);
        let mut cur: String = self.first_words[first_index].clone();
        proof {
            assert(self.starters_view()[first_index as int] == cur@);
            assert(self.starters_view().contains(cur@));
        }
        let mut out: Vec<String> = Vec::new();
        let ghost prev = out.deep_view();
        out.push(cur.clone());
        proof {
            assert(out.deep_view() =~= prev.push(cur@));
        }
        loop
            invariant
                self.wf(),
                1 <= out.deep_view().len() <= max_words,
                valid_chain(*self, out.deep_view()),
                out.deep_view().last() == cur@,
                has_key(self.words_view(), cur@),
            decreases max_words - out.deep_view().len(),
        {
            if out.len() >= max_words {
                return Ok(out);
            }
            match find_word(&self.words, &cur) {
                Some(idx) => {
                    proof {
                        lemma_find_key(self.words_view(), cur@);
                    }
                    let m = self.words[idx].1.next_words.len();
                    if m == 0 {
                        proof {
                            assert(entry_of(self.words_view(), cur@).next.len() == 0);
                        }
                        return Ok(out);
                    }
                    let succ_index = random_below(m);
                    let nxt: String = self.words[idx].1.next_words[succ_index].clone();
                    proof {
                        let mv = self.words_view();
                        let e = entry_of(mv, cur@);
                        assert(e.next[succ_index as int] == nxt@);
                        assert(e.next.contains(nxt@));
                        assert(has_key(mv, nxt@));
                    }
                    let ghost prev2 = out.deep_view();
                    out.push(nxt.clone());
                    proof {
                        assert(out.deep_view() =~= prev2.push(nxt@));
                        assert forall|i: int| 0 <= i < out.deep_view().len() - 1 implies has_key(
                            self.words_view(),
                            #[trigger] out.deep_view()[i],
                        ) && entry_of(self.words_view(), out.deep_view()[i]).next.contains(
                            out.deep_view()[i + 1],
                        ) by {
                            if i < prev2.len() - 1 {
                                assert(out.deep_view()[i] == prev2[i]);
                                assert(out.deep_view()[i + 1] == prev2[i + 1]);
                            } else {
                                assert(out.deep_view()[i] == cur@);
                                assert(out.deep_view()[i + 1] == nxt@);
                            }
                        }
                    }
                    cur = nxt;
                },
                None => {
                    proof {
                        assert(false);
                    }
                    return Ok(out);
                },
            }
        }
    }

    /// Generates one random sentence: the generated words joined by single
    /// spaces.  Fails exactly when the model has no starter word.
    pub fn gen_sentence(&self, max_words: usize) -> (r: Result<String, EmptyModelError>)
        requires
            self.wf(),
            max_words >= 1,
        ensures
            r is Err <==> self.starters_view().len() == 0,
            r matches Ok(s) ==> exists|ws: Seq<Seq<char>>|
                valid_chain(*self, ws) && 1 <= ws.len() <= max_words && (ws.len() == max_words
                    || entry_of(self.words_view(), ws.last()).next.len() == 0) && s@
                    == #[trigger] joined(ws),
    {
        match self.gen_words(max_words) {
            Ok(ws) => {
                let s = join_words(&ws);
                proof {
                    let w = ws.deep_view();
                    assert(valid_chain(*self, w) && 1 <= w.len() <= max_words && (w.len()
                        == max_words || entry_of(self.words_view(), w.last()).next.len() == 0)
                        && s@ == joined(w));
                }
                Ok(s)
            },
            Err(e) => Err(e),
        }
    }
}

} // verus!

