//! Text normalization and n-gram extraction.
//!
//! A raw text is normalized into an ordered sequence of lowercase
//! alphanumeric word tokens: every character outside `[A-Za-z0-9]` acts as
//! a separator, ASCII uppercase letters are folded to lowercase, and the
//! tokens are the maximal non-empty runs that remain.

use vstd::prelude::*;
use vstd::string::StrSliceExecFns;
use vstd::string::StringExecFns;

verus! {

/// A character that survives normalization: lowercase ASCII letters and
/// ASCII digits.
pub open spec fn is_keep_char(c: char) -> bool {
    ('a' <= c && c <= 'z') || ('0' <= c && c <= '9')
}

/// ASCII lowercasing of a single character; other characters are unchanged.
pub open spec fn norm_char(c: char) -> char {
    if 'A' <= c && c <= 'Z' {
        (((c as u8) + 32) as char)
    } else {
        c
    }
}

/// Left fold of the tokenizer over a character sequence: returns the
/// completed tokens together with the pending partial token.
pub open spec fn token_fold(s: Seq<char>) -> (Seq<Seq<char>>, Seq<char>)
    decreases s.len(),
{
    if s.len() == 0 {
        (Seq::empty(), Seq::empty())
    } else {
        let prev = token_fold(s.drop_last());
        let c = norm_char(s.last());
        if is_keep_char(c) {
            (prev.0, prev.1.push(c))
        } else if prev.1.len() > 0 {
            (prev.0.push(prev.1), Seq::empty())
        } else {
            (prev.0, Seq::empty())
        }
    }
}

/// The normalized token sequence of a text: maximal runs of alphanumeric
/// characters, ASCII-lowercased, in order of appearance.
pub open spec fn tokens_of(s: Seq<char>) -> Seq<Seq<char>> {
    let fold = token_fold(s);
    if fold.1.len() > 0 {
        fold.0.push(fold.1)
    } else {
        fold.0
    }
}

/// Relies on String::push: appends one character at the end of the string.
#[verifier::external_body]
fn push_char(s: &mut String, c: char)
    ensures
        final(s)@ == old(s)@.push(c),
{
    s.push(c);
}

/// Removes nonalphanumeric characters, redundant spaces and newlines,
/// converts to lowercase and trims the text, returning the word tokens.
pub fn clean_text(text: &str) -> (r: Vec<String>)
    ensures
        r.deep_view() == tokens_of(text@),
{
    let len = text.unicode_len();
    let mut words: Vec<String> = Vec::new();
    let mut cur = String::new();
    let mut i: usize = 0;
    while i < len
        invariant
            len == text@.len(),
            i <= len,
            words.deep_view() == token_fold(text@.take(i as int)).0,
            cur@ == token_fold(text@.take(i as int)).1,
        decreases len - i,
    {
        let ghost prev_words = words.deep_view();
        let ghost prev_cur = cur@;
        let c = text.get_char(i);
        let nc = if 'A' <= c && c <= 'Z' {
            (((c as u8) + 32) as char)
        } else {
            c
        };
        assert(nc == norm_char(c));
        proof {
            assert(text@.take(i + 1 as int).drop_last() =~= text@.take(i as int));
            assert(text@.take(i + 1 as int).last() == c);
        }
        if ('a' <= nc && nc <= 'z') || ('0' <= nc && nc <= '9') {
            push_char(&mut cur, nc);
        } else if !cur.as_str().is_empty() {
            words.push(cur);
            cur = String::new();
            assert(words.deep_view() =~= prev_words.push(prev_cur));
        }
        i = i + 1;
    }
    proof {
        assert(text@.take(len as int) =~= text@);
    }
    if !cur.as_str().is_empty() {
        let ghost prev_words = words.deep_view();
        let ghost prev_cur = cur@;
        words.push(cur);
        assert(words.deep_view() =~= prev_words.push(prev_cur));
    }
    words
}

/// The given word sequence joined into one string with single spaces
/// between consecutive words.
pub open spec fn join_words(ws: Seq<Seq<char>>) -> Seq<char>
    decreases ws.len(),
{
    if ws.len() == 0 {
        Seq::empty()
    } else if ws.len() == 1 {
        ws[0]
    } else {
        join_words(ws.drop_last()) + seq![' '] + ws.last()
    }
}

/// Joining one or more non-empty words yields a non-empty string.
pub proof fn lemma_join_words_nonempty(ws: Seq<Seq<char>>)
    requires
        ws.len() > 0,
        forall|i: int| 0 <= i < ws.len() ==> (#[trigger] ws[i]).len() > 0,
    ensures
        join_words(ws).len() > 0,
    decreases ws.len(),
{
    if ws.len() == 1 {
        assert(ws[0].len() > 0);
    } else {
        assert forall|i: int| 0 <= i < ws.drop_last().len() implies (
        #[trigger] ws.drop_last()[i]).len() > 0 by {
            assert(ws[i].len() > 0);
        }
        lemma_join_words_nonempty(ws.drop_last());
    }
}

/// The sequence of n-gram fragment strings of a word sequence: for each
/// window position, the n consecutive words joined with single spaces.
/// A window wider than the word sequence produces no fragments.
pub open spec fn ngram_seq(ws: Seq<Seq<char>>, n: nat) -> Seq<Seq<char>> {
    if n > ws.len() {
        Seq::empty()
    } else {
        Seq::new((ws.len() - n + 1) as nat, |i: int| join_words(ws.subrange(i, i + n)))
    }
}

/// Joins words[start..start + n] with single spaces.
pub(crate) fn join_range(words: &Vec<String>, start: usize, n: usize) -> (r: String)
    requires
        n >= 1,
        start + n <= words@.len(),
    ensures
        r@ == join_words(words.deep_view().subrange(start as int, start + n)),
{
    let mut r = String::new();
    let wlen = words.len();
    let mut j: usize = 0;
    while j < n
        invariant
            start + n <= words@.len(),
            wlen == words@.len(),
            j <= n,
            r@ == join_words(words.deep_view().subrange(start as int, start + j)),
        decreases n - j,
    {
        proof {
            let ws = words.deep_view();
            assert(ws.subrange(start as int, start + j + 1).drop_last() =~= ws.subrange(
                start as int,
                start + j,
            ));
        }
        if j > 0 {
            push_char(&mut r, ' ');
            let w: &String = &words[start + j];
            r.append(w.as_str());
            proof {
                let sub = words.deep_view().subrange(start as int, start + j + 1);
                assert(sub.len() >= 2);
                assert(r@ == join_words(sub.drop_last()) + seq![' '] + sub.last());
            }
        } else {
            let w: &String = &words[start];
            r.append(w.as_str());
            proof {
                let sub = words.deep_view().subrange(start as int, start + 1);
                assert(sub.len() == 1);
                assert(r@ =~= sub[0]);
            }
        }
        j = j + 1;
    }
    r
}

/// Extracts the list of n-gram fragments (n consecutive words joined with
/// single spaces) for every window position over the given words.
pub fn extract_clean_word_ngrams(words: &Vec<String>, n: usize) -> (r: Vec<String>)
    requires
        n >= 1,
    ensures
        r.deep_view() == ngram_seq(words.deep_view(), n as nat),
{
    let mut output: Vec<String> = Vec::new();
    // No way to find plagiarism if the chunk size exceeds the word count
    if n > words.len() {
        assert(output.deep_view() =~= ngram_seq(words.deep_view(), n as nat));
        return output;
    }
    let count = words.len() - n + 1;
    let mut i: usize = 0;
    while i < count
        invariant
            1 <= n <= words@.len(),
            count == words@.len() - n + 1,
            i <= count,
            output.deep_view() =~= ngram_seq(words.deep_view(), n as nat).take(i as int),
        decreases count - i,
    {
        let ghost prev = output.deep_view();
        let g = join_range(words, i, n);
        output.push(g);
        proof {
            let full = ngram_seq(words.deep_view(), n as nat);
            assert(g@ == full[i as int]);
            assert(output.deep_view() =~= prev.push(g@));
            assert(full.take(i + 1 as int) =~= full.take(i as int).push(full[i as int]));
        }
        i = i + 1;
    }
    proof {
        assert(output.deep_view() =~= ngram_seq(words.deep_view(), n as nat));
    }
    output
}

} // verus!
