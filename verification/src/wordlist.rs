//! Word-list loading: raw text lines run through a normalization policy and
//! into a fresh trie.
//!
//! Two policies exist and must not be mixed. The default one, [`load`], folds
//! every line to uppercase and inserts it unconditionally — blank lines
//! included, so the empty string counts as a word. The alternative,
//! [`load_filtered`], accepts a line only when it is empty or all-lowercase
//! of length three or more, and inserts it unchanged. A caller picks one
//! policy and applies it to every source it reads. Building the dictionary
//! once and passing it around by shared reference replaces any process-wide
//! mutable state.

use vstd::prelude::*;

use crate::lex::lemma_sorted_no_dup;
use crate::lex::sorted_strict;
use crate::trie::lemma_word_enumeration;
use crate::trie::Trie;

verus! {

/// When the bundled resource carries a fixed-length header, this many bytes
/// stand before the first word line; a reader skips them before splitting
/// the rest into lines.
pub const WORDLIST_HEADER_LEN: usize = 1686;

/// What `str::to_uppercase` returns for a given character sequence.
pub uninterp spec fn upper_of(s: Seq<char>) -> Seq<char>;

/// Relies on `str::to_uppercase` of the standard library: its result is a
/// function of the input characters alone.
#[verifier::external_body]
fn to_upper(s: &str) -> (r: String)
    ensures
        r@ == upper_of(s@),
{
    s.to_uppercase()
}

/// Load under the uppercase policy: fold every line to uppercase and insert
/// it, blank lines included.
pub fn load(wordlist: &[&str]) -> (t: Trie)
    ensures
        t.wf(),
        forall|w: Seq<char>|
            #[trigger] t.contains_word(w) <==> exists|i: int|
                0 <= i < wordlist@.len() && w == upper_of(wordlist@[i]@),
{
    let mut t = Trie::new();
    let n = wordlist.len();
    let mut i: usize = 0;
    while i < n
        invariant
            n == wordlist@.len(),
            i <= n,
            t.wf(),
            forall|w: Seq<char>|
                #[trigger] t.contains_word(w) <==> exists|k: int|
                    0 <= k < i && w == upper_of(wordlist@[k]@),
        decreases n - i,
    {
        let up = to_upper(wordlist[i]);
        let ghost t_old = t;
        t.insert(up.as_str());
        proof {
            assert forall|w: Seq<char>|
                #[trigger] t.contains_word(w) <==> exists|k: int|
                    0 <= k < i + 1 && w == upper_of(wordlist@[k]@) by {
                if t.contains_word(w) {
                    if w == up@ {
                        assert(w == upper_of(wordlist@[i as int]@));
                    }
                }
                if exists|k: int| 0 <= k < i + 1 && w == upper_of(wordlist@[k]@) {
                    let k = choose|k: int| 0 <= k < i + 1 && w == upper_of(wordlist@[k]@);
                    if k == i {
                        assert(w == up@);
                    } else {
                        assert(t_old.contains_word(w));
                    }
                }
            }
        }
        i = i + 1;
    }
    t
}

/// A line the filtering policy accepts: empty, or at least three characters
/// all between `'a'` and `'z'`.
pub open spec fn accepted(s: Seq<char>) -> bool {
    s.len() == 0 || (s.len() >= 3 && forall|i: int|
        0 <= i < s.len() ==> 'a' <= #[trigger] s[i] && s[i] <= 'z')
}

/// Decide the filtering policy for one line.
pub fn is_accepted(line: &str) -> (r: bool)
    ensures
        r == accepted(line@),
{
    let n = line.unicode_len();
    if n == 0 {
        return true;
    }
    if n < 3 {
        return false;
    }
    let mut k: usize = 0;
    while k < n
        invariant
            k <= n,
            n == line@.len(),
            forall|m: int| 0 <= m < k ==> 'a' <= #[trigger] line@[m] && line@[m] <= 'z',
        decreases n - k,
    {
        let c = line.get_char(k);
        if c < 'a' || c > 'z' {
            return false;
        }
        k = k + 1;
    }
    true
}

/// Load under the filtering policy: keep only accepted lines, unchanged.
pub fn load_filtered(lines: &[&str]) -> (t: Trie)
    ensures
        t.wf(),
        forall|w: Seq<char>|
            #[trigger] t.contains_word(w) <==> (accepted(w) && exists|i: int|
                0 <= i < lines@.len() && w == lines@[i]@),
{
    let mut t = Trie::new();
    let n = lines.len();
    let mut i: usize = 0;
    while i < n
        invariant
            n == lines@.len(),
            i <= n,
            t.wf(),
            forall|w: Seq<char>|
                #[trigger] t.contains_word(w) <==> (accepted(w) && exists|k: int|
                    0 <= k < i && w == lines@[k]@),
        decreases n - i,
    {
        let line = lines[i];
        let ghost t_old = t;
        if is_accepted(line) {
            t.insert(line);
        }
        proof {
            assert forall|w: Seq<char>|
                #[trigger] t.contains_word(w) <==> (accepted(w) && exists|k: int|
                    0 <= k < i + 1 && w == lines@[k]@) by {
                if t.contains_word(w) {
                    if !t_old.contains_word(w) {
                        assert(w == lines@[i as int]@);
                    }
                }
                if accepted(w) && exists|k: int| 0 <= k < i + 1 && w == lines@[k]@ {
                    let k = choose|k: int| 0 <= k < i + 1 && w == lines@[k]@;
                    if k < i {
                        assert(t_old.contains_word(w));
                    }
                }
            }
        }
        i = i + 1;
    }
    t
}

/// Round trip under the uppercase policy: the enumeration of a freshly
/// loaded trie is sorted without duplicates and holds exactly the set of
/// normalized input lines. `t` is the result of `load` on `lines`.
pub proof fn lemma_load_round_trip(t: Trie, lines: Seq<Seq<char>>)
    requires
        t.wf(),
        forall|w: Seq<char>|
            #[trigger] t.contains_word(w) <==> exists|i: int|
                0 <= i < lines.len() && w == upper_of(lines[i]),
    ensures
        sorted_strict(t.word_seq()),
        t.word_seq().no_duplicates(),
        t.word_seq().to_set() =~= lines.map_values(|l: Seq<char>| upper_of(l)).to_set(),
{
    lemma_word_enumeration(t);
    lemma_sorted_no_dup(t.word_seq());
    let mapped = lines.map_values(|l: Seq<char>| upper_of(l));
    assert forall|x: Seq<char>|
        t.word_seq().to_set().contains(x) <==> mapped.to_set().contains(x) by {
        assert(t.word_seq().to_set().contains(x) <==> t.word_seq().contains(x));
        assert(mapped.to_set().contains(x) <==> mapped.contains(x));
        if t.word_seq().contains(x) {
            let i = choose|i: int| 0 <= i < lines.len() && x == upper_of(lines[i]);
            assert(mapped[i] == x);
        }
        if mapped.contains(x) {
            let i = choose|i: int| 0 <= i < mapped.len() && mapped[i] == x;
            assert(x == upper_of(lines[i]));
            assert(t.contains_word(x));
        }
    }
    assert(t.word_seq().to_set() =~= mapped.to_set());
}

} // verus!
