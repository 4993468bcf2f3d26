//! Whitespace tokenization of corpus lines.
//!
//! A word is a maximal run of non-whitespace characters; surrounding
//! whitespace is discarded.  Trailing punctuation stays part of the word.

use vstd::prelude::*;

verus! {

/// The characters treated as word separators.
pub open spec fn is_space(c: char) -> bool {
    c == ' ' || c == '\t' || c == '\r' || c == '\n'
}

/// The words of `s` from left to right, `cur` being the partial word read so
/// far.  A separator or the end of the line flushes a non-empty partial word.
pub open spec fn split_acc(s: Seq<char>, cur: Seq<char>) -> Seq<Seq<char>>
    decreases s.len(),
{
    if s.len() == 0 {
        if cur.len() == 0 {
            Seq::empty()
        } else {
            seq![cur]
        }
    } else if is_space(s[0]) {
        if cur.len() == 0 {
            split_acc(s.skip(1), Seq::empty())
        } else {
            seq![cur] + split_acc(s.skip(1), Seq::empty())
        }
    } else {
        split_acc(s.skip(1), cur.push(s[0]))
    }
}

/// The sequence of words of a line, in order.
pub open spec fn tokens_of(s: Seq<char>) -> Seq<Seq<char>> {
    split_acc(s, Seq::empty())
}

proof fn lemma_tokens_nonempty_helper(s: Seq<char>, cur: Seq<char>)
    ensures
        forall|k: int| 0 <= k < split_acc(s, cur).len() ==> #[trigger] split_acc(s, cur)[k].len()
            > 0,
    decreases s.len(),
{
    if s.len() == 0 {
    } else if is_space(s[0]) {
        lemma_tokens_nonempty_helper(s.skip(1), Seq::<char>::empty());
        let rec = split_acc(s.skip(1), Seq::<char>::empty());
        assert forall|k: int| 0 <= k < split_acc(s, cur).len() implies #[trigger] split_acc(
            s,
            cur,
        )[k].len() > 0 by {
            if cur.len() == 0 {
                assert(split_acc(s, cur)[k] == rec[k]);
            } else if k == 0 {
                assert(split_acc(s, cur)[0] == cur);
            } else {
                assert(split_acc(s, cur)[k] == rec[k - 1]);
            }
        }
    } else {
        lemma_tokens_nonempty_helper(s.skip(1), cur.push(s[0]));
        let rec = split_acc(s.skip(1), cur.push(s[0]));
        assert forall|k: int| 0 <= k < split_acc(s, cur).len() implies #[trigger] split_acc(
            s,
            cur,
        )[k].len() > 0 by {
            assert(split_acc(s, cur)[k] == rec[k]);
        }
    }
}

/// Every word of a tokenized line is non-empty.
pub proof fn lemma_tokens_nonempty(s: Seq<char>)
    ensures
        forall|k: int| 0 <= k < tokens_of(s).len() ==> #[trigger] tokens_of(s)[k].len() > 0,
{
    lemma_tokens_nonempty_helper(s, Seq::<char>::empty());
}

/// Splits a line into its whitespace-delimited words.
pub fn tokenize(line: &str) -> (toks: Vec<String>)
    ensures
        toks.deep_view() == tokens_of(line@),
{
    let n = line.unicode_len();
    let mut toks: Vec<String> = Vec::new();
    let mut i: usize = 0;
    let mut start: usize = 0;
    let mut in_tok: bool = false;
    proof {
        assert(line@.skip(0) =~= line@);
        assert(toks.deep_view() =~= Seq::<Seq<char>>::empty());
        assert(toks.deep_view() + tokens_of(line@) =~= tokens_of(line@));
    }
    while i < n
        invariant
            i <= n,
            n == line@.len(),
            in_tok ==> start < i,
            tokens_of(line@) == toks.deep_view() + split_acc(
                line@.skip(i as int),
                if in_tok {
                    line@.subrange(start as int, i as int)
                } else {
                    Seq::<char>::empty()
                },
            ),
        decreases n - i,
    {
        let ghost cur: Seq<char> = if in_tok {
            line@.subrange(start as int, i as int)
        } else {
            Seq::<char>::empty()
        };
        proof {
            assert(line@.skip(i as int)[0] == line@[i as int]);
            assert(line@.skip(i as int).skip(1) =~= line@.skip(i + 1));
        }
        let c = line.get_char(i);
        if c == ' ' || c == '\t' || c == '\r' || c == '\n' {
            if in_tok {
                let t = line.substring_char(start, i).to_owned();
                proof {
                    let prev = toks.deep_view();
                    assert(toks.deep_view().push(t@) =~= prev.push(cur));
                }
                let ghost prev = toks.deep_view();
                toks.push(t);
                proof {
                    assert(toks.deep_view() =~= prev.push(cur));
                    assert(prev.push(cur) =~= prev + seq![cur]);
                }
                in_tok = false;
            }
            i = i + 1;
        } else {
            if !in_tok {
                start = i;
                in_tok = true;
            }
            proof {
                assert(cur.push(line@[i as int]) =~= line@.subrange(start as int, i + 1));
            }
            i = i + 1;
        }
    }
    proof {
        assert(line@.skip(n as int).len() == 0);
    }
    if in_tok {
        let ghost cur = line@.subrange(start as int, i as int);
        let t = line.substring_char(start, n).to_owned();
        let ghost prev = toks.deep_view();
        toks.push(t);
        proof {
            assert(toks.deep_view() =~= prev.push(cur));
            assert(prev.push(cur) =~= prev + seq![cur]);
            assert(toks.deep_view() =~= tokens_of(line@));
        }
    } else {
        proof {
            assert(toks.deep_view() =~= tokens_of(line@));
        }
    }
    toks
}

} // verus!
