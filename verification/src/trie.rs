//! A prefix tree (trie) storing a set of character sequences.
//!
//! Each node owns a child map from a single character to a subtree, kept as a
//! vector of pairs with strictly increasing keys, and a flag marking whether
//! the path from the root to the node spells a complete stored word.

use vstd::prelude::*;

use crate::lex::lex_lt;
use crate::lex::sorted_strict;

verus! {

/// One prefix position: a child per next character, and a mark set exactly on
/// the nodes whose path from the root was inserted as a word.
#[derive(Debug)]
pub struct Trie {
    children: Vec<(char, Trie)>,
    is_end: bool,
}

impl Default for Trie {
    /// The default trie is empty.
    fn default() -> (t: Trie)
        ensures
            t.wf(),
            forall|w: Seq<char>| !t.contains_word(w),
            t.word_seq() == Seq::<Seq<char>>::empty(),
    {
        Trie::new()
    }
}

/// Child keys strictly increase, so each key occurs at most once.
spec fn keys_sorted(s: Seq<(char, Trie)>) -> bool {
    forall|i: int, j: int| 0 <= i < j < s.len() ==> (#[trigger] s[i]).0 < (#[trigger] s[j]).0
}

/// Every word of `ws`, led by the common prefix `p`.
pub open spec fn prepend_all(p: Seq<char>, ws: Seq<Seq<char>>) -> Seq<Seq<char>> {
    ws.map_values(|w: Seq<char>| p + w)
}

/// The character sequences of a sequence of strings.
pub open spec fn views_of(s: Seq<String>) -> Seq<Seq<char>> {
    s.map_values(|x: String| x@)
}

/// The given words, each followed by a newline.
pub open spec fn lines_render(ws: Seq<Seq<char>>) -> Seq<char>
    decreases ws.len(),
{
    if ws.len() == 0 {
        Seq::<char>::empty()
    } else {
        ws[0] + seq!['\n'] + lines_render(ws.drop_first())
    }
}

/// Rendering one more word appends it and a newline.
proof fn lemma_lines_push(ws: Seq<Seq<char>>, x: Seq<char>)
    ensures
        lines_render(ws.push(x)) == lines_render(ws) + x + seq!['\n'],
    decreases ws.len(),
{
    if ws.len() == 0 {
        assert(ws.push(x)[0] == x);
        assert(ws.push(x).drop_first() =~= Seq::<Seq<char>>::empty());
        assert(lines_render(Seq::<Seq<char>>::empty()) == Seq::<char>::empty());
        assert(lines_render(ws.push(x)) =~= lines_render(ws) + x + seq!['\n']);
    } else {
        assert(ws.push(x)[0] == ws[0]);
        assert(ws.push(x).drop_first() =~= ws.drop_first().push(x));
        lemma_lines_push(ws.drop_first(), x);
        assert(lines_render(ws.push(x)) =~= lines_render(ws) + x + seq!['\n']);
    }
}

/// The annotation after a character whose node ends a word.
pub open spec fn end_mark() -> Seq<char> {
    seq![' ', '(', 'e', 'n', 'd', ')']
}

/// One indentation step.
pub open spec fn two_spaces() -> Seq<char> {
    seq![' ', ' ']
}

/// `n` spaces.
pub open spec fn spaces(n: nat) -> Seq<char> {
    Seq::new(n, |i: int| ' ')
}

/// Append the characters of `src` to `dst`.
fn append_chars(dst: &mut Vec<char>, src: &Vec<char>)
    ensures
        final(dst)@ == old(dst)@ + src@,
{
    let ghost dst0 = dst@;
    let n = src.len();
    let mut k: usize = 0;
    while k < n
        invariant
            n == src@.len(),
            k <= n,
            dst@ == dst0 + src@.subrange(0, k as int),
        decreases n - k,
    {
        dst.push(src[k]);
        proof {
            assert(dst@ =~= dst0 + src@.subrange(0, k as int + 1));
        }
        k = k + 1;
    }
    proof {
        assert(dst@ =~= dst0 + src@);
    }
}

/// Two nonempty words are equal exactly when their heads and tails are.
proof fn lemma_seq_head_eq(x: Seq<char>, y: Seq<char>)
    requires
        x.len() > 0,
        y.len() > 0,
    ensures
        (x == y) <==> (x[0] == y[0] && x.drop_first() == y.drop_first()),
{
    if x[0] == y[0] && x.drop_first() == y.drop_first() {
        assert(x.drop_first().len() == x.len() - 1);
        assert(y.drop_first().len() == y.len() - 1);
        assert(x.len() == y.len());
        assert forall|k: int| 0 <= k < x.len() implies x[k] == y[k] by {
            if k > 0 {
                assert(x[k] == x.drop_first()[k - 1]);
                assert(y[k] == y.drop_first()[k - 1]);
            }
        }
        assert(x =~= y);
    }
}

/// A nonempty prefix relation steps through the heads and the tails.
proof fn lemma_prefix_step(q: Seq<char>, r: Seq<char>)
    requires
        q.len() > 0,
        r.len() > 0,
    ensures
        q.is_prefix_of(r) <==> (q[0] == r[0] && q.drop_first().is_prefix_of(r.drop_first())),
{
    if q.is_prefix_of(r) {
        assert(q[0] == r.subrange(0, q.len() as int)[0]);
        assert forall|k: int| 0 <= k < q.drop_first().len() implies q.drop_first()[k]
            == r.drop_first().subrange(0, q.len() - 1)[k] by {
            assert(q.drop_first()[k] == q[k + 1]);
            assert(q[k + 1] == r.subrange(0, q.len() as int)[k + 1]);
        }
        assert(q.drop_first() =~= r.drop_first().subrange(0, q.len() - 1));
    }
    if q[0] == r[0] && q.drop_first().is_prefix_of(r.drop_first()) {
        assert forall|k: int| 0 <= k < q.len() implies q[k] == r.subrange(0, q.len() as int)[k] by {
            if k > 0 {
                assert(q.drop_first()[k - 1] == r.drop_first().subrange(0, q.len() - 1)[k - 1]);
                assert(q.drop_first()[k - 1] == q[k]);
                assert(r.drop_first()[k - 1] == r[k]);
            }
        }
        assert(q =~= r.subrange(0, q.len() as int));
    }
}

impl Trie {
    /// Well-formed: child keys strictly increase (so each key occurs once),
    /// every subtree is well-formed, and every subtree holds at least one
    /// word (nodes only come into being on the path of an inserted word).
    pub closed spec fn wf(self) -> bool
        decreases self,
    {
        &&& keys_sorted(self.children@)
        &&& forall|i: int|
            0 <= i < self.children@.len() ==> (#[trigger] self.children@[i]).1.wf()
        &&& forall|i: int|
            0 <= i < self.children@.len() ==> (#[trigger] self.children@[i]).1.has_word()
    }

    /// Some word is stored in this subtree.
    pub closed spec fn has_word(self) -> bool
        decreases self,
    {
        self.is_end || exists|i: int|
            0 <= i < self.children@.len() && (#[trigger] self.children@[i]).1.has_word()
    }

    /// How many distinct child characters this node has.
    pub closed spec fn child_count(self) -> nat {
        self.children@.len()
    }

    /// The child reached by one character, if any.
    pub closed spec fn spec_child(self, c: char) -> Option<Trie> {
        if exists|i: int| 0 <= i < self.children@.len() && (#[trigger] self.children@[i]).0 == c {
            let i = choose|i: int|
                0 <= i < self.children@.len() && (#[trigger] self.children@[i]).0 == c;
            Some(self.children@[i].1)
        } else {
            None
        }
    }

    /// The node reached by walking the characters of `p` from this node.
    pub closed spec fn descend(self, p: Seq<char>) -> Option<Trie>
        decreases p.len(),
    {
        if p.len() == 0 {
            Some(self)
        } else {
            match self.spec_child(p[0]) {
                Some(t) => t.descend(p.drop_first()),
                None => None,
            }
        }
    }

    /// `w` is a stored word: its whole path exists and ends on a marked node.
    pub closed spec fn contains_word(self, w: Seq<char>) -> bool {
        match self.descend(w) {
            Some(t) => t.is_end,
            None => false,
        }
    }

    /// The path for `p` exists, marked or not.
    pub closed spec fn has_path(self, p: Seq<char>) -> bool {
        self.descend(p) is Some
    }

    /// All stored words, in lexicographic order: the empty word first when
    /// this node is marked, then the words of each child in key order, each
    /// led by the child's character.
    pub closed spec fn word_seq(self) -> Seq<Seq<char>>
        decreases self, self.child_count() + 1nat,
    {
        (if self.is_end {
            seq![Seq::<char>::empty()]
        } else {
            Seq::<Seq<char>>::empty()
        }) + self.words_from(0)
    }

    /// The words of the child at position `k`, each led by its character.
    pub closed spec fn child_block(self, k: int) -> Seq<Seq<char>> {
        prepend_all(seq![self.children@[k].0], self.children@[k].1.word_seq())
    }

    /// The words of the children from index `i` on.
    pub closed spec fn words_from(self, i: int) -> Seq<Seq<char>>
        decreases self, self.child_count() - i,
    {
        if i < 0 || i >= self.children@.len() {
            Seq::<Seq<char>>::empty()
        } else {
            prepend_all(seq![self.children@[i].0], self.children@[i].1.word_seq())
                + self.words_from(i + 1)
        }
    }

    /// The words of the children before index `i`.
    pub closed spec fn words_upto(self, i: int) -> Seq<Seq<char>>
        decreases self, (if i < 0 {
            0int
        } else {
            i
        }),
    {
        if i <= 0 {
            Seq::<Seq<char>>::empty()
        } else {
            self.words_upto(i - 1) + prepend_all(
                seq![self.children@[i - 1].0],
                self.children@[i - 1].1.word_seq(),
            )
        }
    }

    /// Create an empty trie: no word is stored, not even the empty one, and
    /// only the empty path exists.
    pub fn new() -> (t: Trie)
        ensures
            t.wf(),
            t.word_seq() == Seq::<Seq<char>>::empty(),
            forall|w: Seq<char>| !t.contains_word(w),
            forall|q: Seq<char>| t.has_path(q) <==> q.len() == 0,
            !t.has_word(),
    {
        let t = Trie { children: Vec::new(), is_end: false };
        proof {
            assert(t.word_seq() =~= Seq::<Seq<char>>::empty());
            assert forall|w: Seq<char>| !t.contains_word(w) by {
                if w.len() > 0 {
                    assert(t.spec_child(w[0]) is None);
                }
            }
            assert forall|q: Seq<char>| t.has_path(q) <==> q.len() == 0 by {
                if q.len() > 0 {
                    assert(t.spec_child(q[0]) is None);
                }
            }
        }
        t
    }

    /// The first position whose key is not below `c`; every earlier key is
    /// below `c`.
    fn child_pos(&self, c: char) -> (j: usize)
        ensures
            j <= self.children@.len(),
            forall|k: int| 0 <= k < j ==> (#[trigger] self.children@[k]).0 < c,
            j < self.children@.len() ==> !(self.children@[j as int].0 < c),
    {
        let mut j: usize = 0;
        while j < self.children.len() && self.children[j].0 < c
            invariant
                j <= self.children@.len(),
                forall|k: int| 0 <= k < j ==> (#[trigger] self.children@[k]).0 < c,
            decreases self.children@.len() - j,
        {
            j = j + 1;
        }
        j
    }

    /// Insert the suffix of `word` that starts at `i`, walking and extending
    /// the path one character at a time.
    #[verifier::rlimit(100)]
    fn insert_from(&mut self, word: &Vec<char>, i: usize)
        requires
            old(self).wf(),
            i <= word@.len(),
        ensures
            final(self).wf(),
            final(self).has_word(),
            final(self).is_end == (old(self).is_end || i == word@.len()),
            forall|x: Seq<char>|
                final(self).contains_word(x) <==> (old(self).contains_word(x) || x == word@.skip(
                    i as int,
                )),
            forall|q: Seq<char>|
                final(self).has_path(q) <==> (old(self).has_path(q) || q.is_prefix_of(
                    word@.skip(i as int),
                )),
        decreases word@.len() - i,
    {
        let ghost rest = word@.skip(i as int);
        if i == word.len() {
            self.is_end = true;
            proof {
                let t0 = *old(self);
                let t2 = *self;
                assert(rest =~= Seq::<char>::empty());
                assert forall|x: Seq<char>|
                    t2.contains_word(x) <==> (t0.contains_word(x) || x == rest) by {
                    if x.len() == 0 {
                        assert(x =~= rest);
                    } else {
                        assert(t2.spec_child(x[0]) == t0.spec_child(x[0]));
                        assert(x != rest);
                    }
                }
                assert forall|q: Seq<char>|
                    t2.has_path(q) <==> (t0.has_path(q) || q.is_prefix_of(rest)) by {
                    if q.len() > 0 {
                        assert(t2.spec_child(q[0]) == t0.spec_child(q[0]));
                        assert(!q.is_prefix_of(rest));
                    }
                }
            }
        } else {
            let ghost rest1 = word@.skip(i as int + 1);
            proof {
                assert(rest.len() > 0);
                assert(rest[0] == word@[i as int]);
                assert(rest.drop_first() =~= rest1);
            }
            let c = word[i];
            let j = self.child_pos(c);
            let ghost t0 = *self;
            let is_new = j == self.children.len() || self.children[j].0 != c;
            if is_new {
                let empty_child = Trie::new();
                proof {
                    assert forall|k: int| j <= k < t0.children@.len() implies c < (
                    #[trigger] t0.children@[k]).0 by {
                        if k > j {
                            assert(t0.children@[j as int].0 < t0.children@[k].0);
                        }
                    }
                }
                self.children.insert(j, (c, empty_child));
            }
            let ghost t1 = *self;
            let mut entry = self.children.remove(j);
            let ghost old_child = entry.1;
            entry.1.insert_from(word, i + 1);
            let ghost nc = entry.1;
            self.children.insert(j, entry);
            proof {
                let t2 = *self;
                assert(t2.is_end == t0.is_end);
                assert(t2.children@ =~= t1.children@.update(j as int, (c, nc)));
                if is_new {
                    assert(t1.children@ == t0.children@.insert(j as int, (c, old_child)));
                    assert(t2.children@ =~= t0.children@.insert(j as int, (c, nc)));
                    lemma_child_insert(t0, t2, j as int, c, nc);
                    assert(!old_child.contains_word(rest1) || false == t0.contains_word(rest));
                } else {
                    assert(t0.children@[j as int].0 == c);
                    assert(t2.children@ =~= t0.children@.update(j as int, (c, nc)));
                    lemma_child_update(t0, t2, j as int, c, nc);
                    lemma_child_at(t0, j as int);
                    assert(t0.spec_child(c) == Some(old_child));
                }
                // membership
                assert forall|x: Seq<char>|
                    t2.contains_word(x) <==> (t0.contains_word(x) || x == rest) by {
                    if x.len() == 0 {
                        assert(t2.descend(x) == Some(t2));
                        assert(t0.descend(x) == Some(t0));
                        assert(x != rest);
                    } else {
                        lemma_seq_head_eq(x, rest);
                        if x[0] == c {
                            assert(t2.spec_child(c) == Some(nc));
                            assert(t2.contains_word(x) == nc.contains_word(x.drop_first()));
                            assert(nc.contains_word(x.drop_first()) <==> (old_child.contains_word(
                                x.drop_first(),
                            ) || x.drop_first() == rest1));
                            if is_new {
                                assert(t0.spec_child(c) is None);
                                assert(!t0.contains_word(x));
                                assert(!old_child.contains_word(x.drop_first()));
                            } else {
                                assert(t0.contains_word(x) == old_child.contains_word(
                                    x.drop_first(),
                                ));
                            }
                        } else {
                            assert(t2.spec_child(x[0]) == t0.spec_child(x[0]));
                            match t0.spec_child(x[0]) {
                                Some(ch) => {
                                    assert(t2.contains_word(x) == ch.contains_word(
                                        x.drop_first(),
                                    ));
                                    assert(t0.contains_word(x) == ch.contains_word(
                                        x.drop_first(),
                                    ));
                                },
                                None => {
                                    assert(!t2.contains_word(x));
                                    assert(!t0.contains_word(x));
                                },
                            }
                            assert(x != rest);
                        }
                    }
                }
                // paths
                assert forall|q: Seq<char>|
                    t2.has_path(q) <==> (t0.has_path(q) || q.is_prefix_of(rest)) by {
                    if q.len() == 0 {
                        assert(t2.descend(q) == Some(t2));
                        assert(t0.descend(q) == Some(t0));
                    } else {
                        lemma_prefix_step(q, rest);
                        if q[0] == c {
                            assert(t2.spec_child(c) == Some(nc));
                            assert(t2.has_path(q) == nc.has_path(q.drop_first()));
                            assert(nc.has_path(q.drop_first()) <==> (old_child.has_path(
                                q.drop_first(),
                            ) || q.drop_first().is_prefix_of(rest1)));
                            if is_new {
                                assert(t0.spec_child(c) is None);
                                assert(!t0.has_path(q));
                                assert(old_child.has_path(q.drop_first()) <==> q.drop_first().len()
                                    == 0);
                                if q.drop_first().len() == 0 {
                                    assert(q.drop_first().is_prefix_of(rest1));
                                }
                            } else {
                                assert(t0.has_path(q) == old_child.has_path(q.drop_first()));
                            }
                        } else {
                            assert(t2.spec_child(q[0]) == t0.spec_child(q[0]));
                            match t0.spec_child(q[0]) {
                                Some(ch) => {
                                    assert(t2.has_path(q) == ch.has_path(q.drop_first()));
                                    assert(t0.has_path(q) == ch.has_path(q.drop_first()));
                                },
                                None => {
                                    assert(!t2.has_path(q));
                                    assert(!t0.has_path(q));
                                },
                            }
                            assert(!q.is_prefix_of(rest));
                        }
                    }
                }
                // well-formedness
                assert forall|k: int| 0 <= k < t2.children@.len() implies (
                #[trigger] t2.children@[k]).1.wf() && t2.children@[k].1.has_word() by {
                    if k == j {
                        assert(t2.children@[k].1 == nc);
                    } else {
                        let k0 = if is_new && k > j { k - 1 } else { k };
                        assert(t2.children@[k] == t0.children@[k0]);
                    }
                }
                assert(t2.wf());
                assert(t2.children@[j as int].1.has_word());
                assert(t2.has_word());
            }
        }
    }

    /// The child holding key `c`, found by scanning the key vector.
    fn find_child(&self, c: char) -> (r: Option<&Trie>)
        requires
            keys_sorted(self.children@),
        ensures
            match r {
                Some(t) => self.spec_child(c) == Some(*t),
                None => self.spec_child(c) is None,
            },
    {
        let mut k: usize = 0;
        while k < self.children.len()
            invariant
                k <= self.children@.len(),
                keys_sorted(self.children@),
                forall|m: int| 0 <= m < k ==> (#[trigger] self.children@[m]).0 != c,
            decreases self.children@.len() - k,
        {
            if self.children[k].0 == c {
                proof {
                    lemma_child_at(*self, k as int);
                }
                return Some(&self.children[k].1);
            }
            k = k + 1;
        }
        proof {
            assert(forall|m: int|
                0 <= m < self.children@.len() ==> (#[trigger] self.children@[m]).0 != c);
        }
        None
    }

    /// Search the suffix of `word` that starts at `i` below this node.
    fn search_from(&self, word: &Vec<char>, i: usize) -> (r: bool)
        requires
            self.wf(),
            i <= word@.len(),
        ensures
            r == self.contains_word(word@.skip(i as int)),
        decreases word@.len() - i,
    {
        if i == word.len() {
            proof {
                assert(word@.skip(i as int) =~= Seq::<char>::empty());
            }
            self.is_end
        } else {
            let c = word[i];
            proof {
                assert(word@.skip(i as int)[0] == c);
                assert(word@.skip(i as int).drop_first() =~= word@.skip(i as int + 1));
            }
            match self.find_child(c) {
                Some(t) => {
                    proof {
                        lemma_spec_child_wf(*self, c);
                    }
                    t.search_from(word, i + 1)
                },
                None => false,
            }
        }
    }

    /// Exact membership: true only for words that were inserted.
    pub fn search(&self, word: &str) -> (r: bool)
        requires
            self.wf(),
        ensures
            r == self.contains_word(word@),
    {
        let chars = chars_of(word);
        proof {
            assert(chars@.skip(0) =~= word@);
        }
        self.search_from(&chars, 0)
    }

    /// Walk the suffix of `prefix` that starts at `i` below this node.
    fn path_from(&self, prefix: &Vec<char>, i: usize) -> (r: bool)
        requires
            self.wf(),
            i <= prefix@.len(),
        ensures
            r == self.has_path(prefix@.skip(i as int)),
        decreases prefix@.len() - i,
    {
        if i == prefix.len() {
            proof {
                assert(prefix@.skip(i as int) =~= Seq::<char>::empty());
            }
            true
        } else {
            let c = prefix[i];
            proof {
                assert(prefix@.skip(i as int)[0] == c);
                assert(prefix@.skip(i as int).drop_first() =~= prefix@.skip(i as int + 1));
            }
            match self.find_child(c) {
                Some(t) => {
                    proof {
                        lemma_spec_child_wf(*self, c);
                    }
                    t.path_from(prefix, i + 1)
                },
                None => false,
            }
        }
    }

    /// True exactly when some stored word starts with `prefix` — with the one
    /// exception of the empty prefix, for which the root path always exists.
    pub fn starts_with(&self, prefix: &str) -> (r: bool)
        requires
            self.wf(),
        ensures
            r == self.has_path(prefix@),
    {
        let chars = chars_of(prefix);
        proof {
            assert(chars@.skip(0) =~= prefix@);
        }
        self.path_from(&chars, 0)
    }

    /// Append every word below this node to `out`, each one led by the path
    /// walked so far, children in key order.
    fn collect_words(&self, path: &mut Vec<char>, out: &mut Vec<String>)
        ensures
            final(path)@ == old(path)@,
            views_of(final(out)@) == views_of(old(out)@) + prepend_all(
                old(path)@,
                self.word_seq(),
            ),
        decreases *self,
    {
        let ghost path0 = path@;
        let ghost out0 = out@;
        let ghost head = if self.is_end {
            seq![Seq::<char>::empty()]
        } else {
            Seq::<Seq<char>>::empty()
        };
        let ghost base = views_of(out0) + prepend_all(path0, head);
        if self.is_end {
            let s = string_from_chars(path);
            out.push(s);
            proof {
                assert(path0 + Seq::<char>::empty() =~= path0);
                assert(views_of(out@) =~= base);
            }
        } else {
            proof {
                assert(views_of(out@) =~= base);
            }
        }
        let mut j: usize = 0;
        proof {
            assert(views_of(out@) =~= base + prepend_all(path0, self.words_upto(0)));
        }
        while j < self.children.len()
            invariant
                j <= self.children@.len(),
                path@ == path0,
                views_of(out@) == base + prepend_all(path0, self.words_upto(j as int)),
            decreases self.children@.len() - j,
        {
            let c = self.children[j].0;
            path.push(c);
            proof {
                assert(path@ =~= path0 + seq![c]);
            }
            let ghost out_mid = out@;
            self.children[j].1.collect_words(path, out);
            proof {
                let ch = self.children@[j as int].1;
                assert forall|k: int| 0 <= k < ch.word_seq().len() implies prepend_all(
                    path0,
                    self.child_block(j as int),
                )[k] == prepend_all(path0 + seq![c], ch.word_seq())[k] by {
                    let ws = ch.word_seq()[k];
                    assert(self.child_block(j as int)[k] == seq![c] + ws);
                    assert(path0 + (seq![c] + ws) =~= (path0 + seq![c]) + ws);
                }
                assert(prepend_all(path0, self.child_block(j as int)) =~= prepend_all(
                    path0 + seq![c],
                    ch.word_seq(),
                ));
                assert(self.words_upto(j as int + 1) == self.words_upto(j as int)
                    + self.child_block(j as int));
                assert(prepend_all(path0, self.words_upto(j as int + 1)) =~= prepend_all(
                    path0,
                    self.words_upto(j as int),
                ) + prepend_all(path0, self.child_block(j as int)));
                assert(views_of(out@) =~= base + prepend_all(
                    path0,
                    self.words_upto(j as int + 1),
                ));
            }
            let _ = path.pop();
            proof {
                assert(path@ =~= path0);
            }
            j = j + 1;
        }
        proof {
            let n = self.children@.len() as int;
            lemma_upto_from(*self, n);
            assert(self.words_from(n) =~= Seq::<Seq<char>>::empty());
            assert(self.words_upto(n) =~= self.words_upto(n) + self.words_from(n));
            assert(self.word_seq() == head + self.words_from(0));
            assert(prepend_all(path0, head + self.words_upto(n)) =~= prepend_all(path0, head)
                + prepend_all(path0, self.words_upto(n)));
            assert(views_of(out@) =~= views_of(out0) + prepend_all(path0, self.word_seq()));
        }
    }

    /// Every stored word, exactly once each, in lexicographic order.
    pub fn words(&self) -> (r: Vec<String>)
        requires
            self.wf(),
        ensures
            views_of(r@) == self.word_seq(),
            sorted_strict(views_of(r@)),
            forall|w: Seq<char>| #[trigger] views_of(r@).contains(w) <==> self.contains_word(w),
    {
        let mut path: Vec<char> = Vec::new();
        let mut out: Vec<String> = Vec::new();
        self.collect_words(&mut path, &mut out);
        proof {
            lemma_word_enumeration(*self);
        }
        proof {
            assert forall|k: int| 0 <= k < self.word_seq().len() implies prepend_all(
                Seq::<char>::empty(),
                self.word_seq(),
            )[k] == self.word_seq()[k] by {
                assert(Seq::<char>::empty() + self.word_seq()[k] =~= self.word_seq()[k]);
            }
            assert(views_of(out@) =~= self.word_seq());
        }
        out
    }

    /// How many distinct words are stored.
    pub fn word_count(&self) -> (n: usize)
        requires
            self.wf(),
        ensures
            n == self.word_seq().len(),
    {
        let ws = self.words();
        ws.len()
    }

    /// The flat rendering: every stored word on a line of its own, in
    /// lexicographic order.
    pub fn flat_format(&self) -> (r: String)
        requires
            self.wf(),
        ensures
            r@ == lines_render(self.word_seq()),
    {
        let ws = self.words();
        let mut out = String::new();
        let n = ws.len();
        let mut i: usize = 0;
        proof {
            assert(self.word_seq().take(0) =~= Seq::<Seq<char>>::empty());
        }
        while i < n
            invariant
                n == ws@.len(),
                i <= n,
                views_of(ws@) == self.word_seq(),
                out@ == lines_render(self.word_seq().take(i as int)),
            decreases n - i,
        {
            out.append(ws[i].as_str());
            out.append("\n");
            proof {
                reveal_strlit("\n");
                assert("\n"@ =~= seq!['\n']);
                let prefix = self.word_seq().take(i as int);
                let w = self.word_seq()[i as int];
                assert(ws@[i as int]@ == w);
                lemma_lines_push(prefix, w);
                assert(self.word_seq().take(i as int + 1) =~= prefix.push(w));
            }
            i = i + 1;
        }
        proof {
            assert(self.word_seq().take(n as int) =~= self.word_seq());
        }
        out
    }

    /// The hierarchical rendering of the children from position `j` on: one
    /// padded line per child character, marked when the child ends a word,
    /// each child's own children below it with two more spaces of padding.
    pub closed spec fn indent_from(self, pad: Seq<char>, j: int) -> Seq<char>
        decreases self, self.child_count() - j,
    {
        if j < 0 || j >= self.children@.len() {
            Seq::<char>::empty()
        } else {
            pad + seq![self.children@[j].0] + (if self.children@[j].1.is_end {
                end_mark()
            } else {
                Seq::<char>::empty()
            }) + seq!['\n'] + self.children@[j].1.indent_from(pad + two_spaces(), 0)
                + self.indent_from(pad, j + 1)
        }
    }

    /// Render this node's subtree as an indented hierarchy, starting from the
    /// given padding.
    fn indent_collect(&self, j: usize, pad: &mut Vec<char>, buf: &mut Vec<char>)
        ensures
            final(pad)@ == old(pad)@,
            final(buf)@ == old(buf)@ + self.indent_from(old(pad)@, j as int),
        decreases *self, self.children@.len() - j,
    {
        let ghost pad0 = pad@;
        let ghost buf0 = buf@;
        if j < self.children.len() {
            append_chars(buf, pad);
            buf.push(self.children[j].0);
            let ghost mark = if self.children@[j as int].1.is_end {
                end_mark()
            } else {
                Seq::<char>::empty()
            };
            if self.children[j].1.is_end {
                buf.push(' ');
                buf.push('(');
                buf.push('e');
                buf.push('n');
                buf.push('d');
                buf.push(')');
                proof {
                    assert(buf@ =~= buf0 + pad0 + seq![self.children@[j as int].0] + mark);
                }
            } else {
                proof {
                    assert(buf@ =~= buf0 + pad0 + seq![self.children@[j as int].0] + mark);
                }
            }
            buf.push('\n');
            pad.push(' ');
            pad.push(' ');
            proof {
                assert(pad@ =~= pad0 + two_spaces());
            }
            let ghost buf1 = buf@;
            self.children[j].1.indent_collect(0, pad, buf);
            proof {
                assert(buf@ == buf1 + self.children@[j as int].1.indent_from(
                    pad0 + two_spaces(),
                    0,
                ));
            }
            let _ = pad.pop();
            let _ = pad.pop();
            proof {
                assert(pad@ =~= pad0);
            }
            let ghost buf2 = buf@;
            self.indent_collect(j + 1, pad, buf);
            proof {
                assert(buf@ == buf2 + self.indent_from(pad0, j as int + 1));
                assert(buf@ =~= buf0 + self.indent_from(pad0, j as int));
            }
        } else {
            proof {
                assert(self.indent_from(pad0, j as int) =~= Seq::<char>::empty());
                assert(buf@ =~= buf0 + self.indent_from(pad0, j as int));
            }
        }
    }

    /// The hierarchical rendering: one line per character, nested by depth,
    /// annotated where a node ends a word, starting `indent_level` steps in.
    pub fn indent_format(&self, indent_level: usize) -> (r: String)
        requires
            indent_level <= usize::MAX / 2,
        ensures
            r@ == self.indent_from(spaces((2 * indent_level) as nat), 0),
    {
        let width: usize = 2 * indent_level;
        let mut pad: Vec<char> = Vec::new();
        let mut k: usize = 0;
        while k < width
            invariant
                k <= width,
                pad@ =~= spaces(k as nat),
            decreases width - k,
        {
            pad.push(' ');
            proof {
                assert(pad@ =~= spaces(k as nat + 1));
            }
            k = k + 1;
        }
        let mut buf: Vec<char> = Vec::new();
        self.indent_collect(0, &mut pad, &mut buf);
        proof {
            assert(buf@ =~= self.indent_from(spaces(width as nat), 0));
        }
        string_from_chars(&buf)
    }

    /// Walk the suffix of `p` that starts at `i` and hand back the node it
    /// reaches, if its path exists.
    fn descend_node(&self, p: &Vec<char>, i: usize) -> (r: Option<&Trie>)
        requires
            self.wf(),
            i <= p@.len(),
        ensures
            match r {
                Some(n) => self.descend(p@.skip(i as int)) == Some(*n) && n.wf(),
                None => self.descend(p@.skip(i as int)) is None,
            },
        decreases p@.len() - i,
    {
        if i == p.len() {
            proof {
                assert(p@.skip(i as int) =~= Seq::<char>::empty());
            }
            Some(self)
        } else {
            let c = p[i];
            proof {
                assert(p@.skip(i as int)[0] == c);
                assert(p@.skip(i as int).drop_first() =~= p@.skip(i as int + 1));
            }
            match self.find_child(c) {
                Some(t) => {
                    proof {
                        lemma_spec_child_wf(*self, c);
                    }
                    t.descend_node(p, i + 1)
                },
                None => None,
            }
        }
    }

    /// Every stored word that starts with `word`, in lexicographic order;
    /// empty when no stored word does.
    pub fn predictive_search(&self, word: &str) -> (r: Vec<String>)
        requires
            self.wf(),
        ensures
            sorted_strict(views_of(r@)),
            forall|w: Seq<char>|
                #[trigger] views_of(r@).contains(w) <==> (self.contains_word(w)
                    && word@.is_prefix_of(w)),
    {
        let mut chars = chars_of(word);
        proof {
            assert(chars@.skip(0) =~= word@);
        }
        let node_opt = self.descend_node(&chars, 0);
        match node_opt {
            None => {
                let r: Vec<String> = Vec::new();
                proof {
                    assert(views_of(r@) =~= Seq::<Seq<char>>::empty());
                    assert forall|w: Seq<char>|
                        !(self.contains_word(w) && #[trigger] word@.is_prefix_of(w)) by {
                        if self.contains_word(w) && word@.is_prefix_of(w) {
                            assert(w =~= word@ + w.skip(word@.len() as int));
                            lemma_descend_concat(*self, word@, w.skip(word@.len() as int));
                        }
                    }
                }
                r
            },
            Some(n) => {
                let mut out: Vec<String> = Vec::new();
                n.collect_words(&mut chars, &mut out);
                proof {
                    assert(views_of(out@) =~= prepend_all(word@, n.word_seq()));
                    lemma_word_enumeration(*n);
                    let mapped = prepend_all(word@, n.word_seq());
                    assert forall|a: int, b: int| 0 <= a < b < mapped.len() implies lex_lt(
                        #[trigger] mapped[a],
                        #[trigger] mapped[b],
                    ) by {
                        let wa = n.word_seq()[a];
                        let wb = n.word_seq()[b];
                        assert(lex_lt(wa, wb));
                        crate::lex::lemma_lex_prefix(word@, wa, wb);
                    }
                    assert forall|w: Seq<char>|
                        #[trigger] mapped.contains(w) <==> (self.contains_word(w)
                            && word@.is_prefix_of(w)) by {
                        if mapped.contains(w) {
                            let idx = choose|idx: int|
                                0 <= idx < mapped.len() && mapped[idx] == w;
                            let ws = n.word_seq()[idx];
                            assert(w == word@ + ws);
                            assert(w.subrange(0, word@.len() as int) =~= word@);
                            assert(word@.is_prefix_of(w));
                            assert(w.skip(word@.len() as int) =~= ws);
                            assert(n.word_seq().contains(ws));
                            assert(n.contains_word(ws));
                            lemma_descend_concat(*self, word@, ws);
                            assert(self.contains_word(w));
                        }
                        if self.contains_word(w) && word@.is_prefix_of(w) {
                            let ws = w.skip(word@.len() as int);
                            assert(w =~= word@ + ws);
                            lemma_descend_concat(*self, word@, ws);
                            assert(n.contains_word(ws));
                            assert(n.word_seq().contains(ws));
                            let idx = choose|idx: int|
                                0 <= idx < n.word_seq().len() && n.word_seq()[idx] == ws;
                            assert(mapped[idx] == word@ + ws);
                            assert(mapped[idx] == w);
                        }
                    }
                }
                out
            },
        }
    }

    /// Insert a word, creating missing nodes along its path and marking the
    /// final node; inserting a word already present changes nothing.
    pub fn insert(&mut self, word: &str)
        requires
            old(self).wf(),
        ensures
            final(self).wf(),
            final(self).contains_word(word@),
            forall|x: Seq<char>|
                final(self).contains_word(x) <==> (old(self).contains_word(x) || x == word@),
            forall|q: Seq<char>|
                final(self).has_path(q) <==> (old(self).has_path(q) || q.is_prefix_of(word@)),
            final(self).word_seq().len() == old(self).word_seq().len() + (
            if old(self).contains_word(word@) {
                0int
            } else {
                1int
            }),
    {
        let chars = chars_of(word);
        proof {
            assert(chars@.skip(0) =~= word@);
        }
        self.insert_from(&chars, 0);
        proof {
            lemma_count_distinct(*old(self), *self, word@);
        }
    }
}

/// Relies on the standard library's `FromIterator` for `String`: collecting
/// the characters of a vector yields the string of exactly those characters,
/// in order.
#[verifier::external_body]
fn string_from_chars(v: &Vec<char>) -> (r: String)
    ensures
        r@ == v@,
{
    v.iter().collect()
}

/// The words before position `i` and the words from it on together make all
/// child words.
proof fn lemma_upto_from(t: Trie, i: int)
    requires
        0 <= i <= t.children@.len(),
    ensures
        t.words_upto(i) + t.words_from(i) == t.words_from(0),
    decreases i,
{
    if i == 0 {
        assert(t.words_upto(0) + t.words_from(0) =~= t.words_from(0));
    } else {
        lemma_upto_from(t, i - 1);
        assert(t.words_from(i - 1) == t.child_block(i - 1) + t.words_from(i));
        assert(t.words_upto(i) == t.words_upto(i - 1) + t.child_block(i - 1));
        assert(t.words_upto(i) + t.words_from(i) =~= t.words_upto(i - 1) + t.words_from(i - 1));
    }
}

/// The characters of a string slice, in order, as a vector.
fn chars_of(s: &str) -> (v: Vec<char>)
    ensures
        v@ == s@,
{
    let n = s.unicode_len();
    let mut v: Vec<char> = Vec::new();
    let mut k: usize = 0;
    while k < n
        invariant
            k <= n,
            n == s@.len(),
            v@ == s@.subrange(0, k as int),
        decreases n - k,
    {
        let c = s.get_char(k);
        v.push(c);
        proof {
            assert(v@ =~= s@.subrange(0, k as int + 1));
        }
        k = k + 1;
    }
    proof {
        assert(v@ =~= s@);
    }
    v
}

/// A well-formed node hands out only well-formed, nonempty children.
proof fn lemma_spec_child_wf(t: Trie, c: char)
    requires
        t.wf(),
        t.spec_child(c) is Some,
    ensures
        t.spec_child(c).unwrap().wf(),
        t.spec_child(c).unwrap().has_word(),
{
    let i = choose|i: int| 0 <= i < t.children@.len() && (#[trigger] t.children@[i]).0 == c;
    assert(t.children@[i].1.wf());
    assert(t.children@[i].1.has_word());
}

/// Walking a concatenation walks its parts one after the other.
proof fn lemma_descend_concat(t: Trie, p: Seq<char>, s: Seq<char>)
    ensures
        t.descend(p + s) == (match t.descend(p) {
            Some(n) => n.descend(s),
            None => None,
        }),
    decreases p.len(),
{
    if p.len() == 0 {
        assert(p + s =~= s);
    } else {
        assert((p + s)[0] == p[0]);
        assert((p + s).drop_first() =~= p.drop_first() + s);
        match t.spec_child(p[0]) {
            Some(ch) => {
                lemma_descend_concat(ch, p.drop_first(), s);
            },
            None => {},
        }
    }
}

/// Every node reached by a nonempty path of a well-formed trie is itself
/// well-formed and holds at least one word below it.
proof fn lemma_descend_wf(t: Trie, p: Seq<char>)
    requires
        t.wf(),
        t.descend(p) is Some,
    ensures
        t.descend(p).unwrap().wf(),
        p.len() > 0 ==> t.descend(p).unwrap().has_word(),
    decreases p.len(),
{
    if p.len() > 0 {
        let ch = t.spec_child(p[0]).unwrap();
        lemma_spec_child_wf(t, p[0]);
        if p.len() == 1 {
            assert(p.drop_first() =~= Seq::<char>::empty());
        } else {
            lemma_descend_wf(ch, p.drop_first());
        }
    }
}

/// A subtree holding some word holds a word one can point to.
proof fn lemma_has_word_witness(t: Trie)
    requires
        t.wf(),
        t.has_word(),
    ensures
        exists|w: Seq<char>| t.contains_word(w),
    decreases t,
{
    if t.is_end {
        assert(t.descend(Seq::<char>::empty()) == Some(t));
        assert(t.contains_word(Seq::<char>::empty()));
    } else {
        let i = choose|i: int|
            0 <= i < t.children@.len() && (#[trigger] t.children@[i]).1.has_word();
        let ch = t.children@[i].1;
        lemma_has_word_witness(ch);
        let w0 = choose|w0: Seq<char>| ch.contains_word(w0);
        let c = t.children@[i].0;
        let w = seq![c] + w0;
        lemma_child_at(t, i);
        assert(w[0] == c);
        assert(w.drop_first() =~= w0);
        assert(t.contains_word(w));
    }
}

/// A prefix path exists exactly when some stored word extends it — except the
/// empty prefix, whose path is the root and always exists.
pub proof fn lemma_prefix_path(t: Trie, p: Seq<char>)
    requires
        t.wf(),
    ensures
        t.has_path(p) <==> (p.len() == 0 || exists|w: Seq<char>|
            t.contains_word(w) && #[trigger] p.is_prefix_of(w)),
{
    if t.has_path(p) && p.len() > 0 {
        let n = t.descend(p).unwrap();
        lemma_descend_wf(t, p);
        lemma_has_word_witness(n);
        let w0 = choose|w0: Seq<char>| n.contains_word(w0);
        let w = p + w0;
        lemma_descend_concat(t, p, w0);
        assert(t.contains_word(w));
        assert(w.subrange(0, p.len() as int) =~= p);
        assert(p.is_prefix_of(w));
    }
    if p.len() > 0 && exists|w: Seq<char>| t.contains_word(w) && #[trigger] p.is_prefix_of(w) {
        let w = choose|w: Seq<char>| t.contains_word(w) && #[trigger] p.is_prefix_of(w);
        assert(w =~= p + w.skip(p.len() as int));
        lemma_descend_concat(t, p, w.skip(p.len() as int));
        assert(t.descend(w) is Some);
        assert(t.has_path(p));
    }
}

/// The words from child position `i` on are strictly sorted, and are exactly
/// the nonempty words led by one of those children's keys whose tail is
/// stored below that child.
proof fn lemma_words_from(t: Trie, i: int)
    requires
        t.wf(),
        0 <= i <= t.children@.len(),
    ensures
        sorted_strict(t.words_from(i)),
        forall|w: Seq<char>|
            #[trigger] t.words_from(i).contains(w) <==> (w.len() > 0 && exists|k: int|
                i <= k < t.children@.len() && (#[trigger] t.children@[k]).0 == w[0]
                    && t.children@[k].1.contains_word(w.drop_first())),
    decreases t, t.child_count() - i,
{
    if i == t.children@.len() {
        assert(t.words_from(i) =~= Seq::<Seq<char>>::empty());
    } else {
        let c = t.children@[i].0;
        let ch = t.children@[i].1;
        assert(ch.wf());
        lemma_word_enumeration(ch);
        lemma_words_from(t, i + 1);
        let block = t.child_block(i);
        let rest = t.words_from(i + 1);
        assert(t.words_from(i) == block + rest);
        assert forall|w: Seq<char>|
            #[trigger] block.contains(w) <==> (w.len() > 0 && w[0] == c && ch.contains_word(
                w.drop_first(),
            )) by {
            if block.contains(w) {
                let idx = choose|idx: int| 0 <= idx < block.len() && block[idx] == w;
                let ws = ch.word_seq()[idx];
                assert(w == seq![c] + ws);
                assert(w[0] == c);
                assert(w.drop_first() =~= ws);
                assert(ch.word_seq().contains(ws));
            }
            if w.len() > 0 && w[0] == c && ch.contains_word(w.drop_first()) {
                assert(ch.word_seq().contains(w.drop_first()));
                let idx = choose|idx: int|
                    0 <= idx < ch.word_seq().len() && ch.word_seq()[idx] == w.drop_first();
                assert(block[idx] == seq![c] + w.drop_first());
                assert(seq![c] + w.drop_first() =~= w);
                assert(block[idx] == w);
            }
        }
        assert forall|a: int, b: int| 0 <= a < b < block.len() implies lex_lt(
            block[a],
            block[b],
        ) by {
            let wa = ch.word_seq()[a];
            let wb = ch.word_seq()[b];
            assert(lex_lt(wa, wb));
            crate::lex::lemma_lex_prefix(seq![c], wa, wb);
            assert(block[a] == seq![c] + wa);
            assert(block[b] == seq![c] + wb);
        }
        assert forall|a: int, b: int|
            0 <= a < b < t.words_from(i).len() implies lex_lt(
            #[trigger] t.words_from(i)[a],
            #[trigger] t.words_from(i)[b],
        ) by {
            let n0 = block.len() as int;
            if b < n0 {
                assert(t.words_from(i)[a] == block[a]);
                assert(t.words_from(i)[b] == block[b]);
            } else if a >= n0 {
                assert(t.words_from(i)[a] == rest[a - n0]);
                assert(t.words_from(i)[b] == rest[b - n0]);
            } else {
                let x = block[a];
                let y = rest[b - n0];
                assert(t.words_from(i)[a] == x);
                assert(t.words_from(i)[b] == y);
                assert(x == seq![c] + ch.word_seq()[a]);
                assert(x[0] == c);
                assert(rest.contains(y));
                let k = choose|k: int|
                    i + 1 <= k < t.children@.len() && (#[trigger] t.children@[k]).0 == y[0]
                        && t.children@[k].1.contains_word(y.drop_first());
                assert(c < t.children@[k].0);
                assert(x.len() > 0 && y.len() > 0 && x[0] < y[0]);
                assert(lex_lt(x, y));
            }
        }
        assert forall|w: Seq<char>|
            #[trigger] t.words_from(i).contains(w) <==> (w.len() > 0 && exists|k: int|
                i <= k < t.children@.len() && (#[trigger] t.children@[k]).0 == w[0]
                    && t.children@[k].1.contains_word(w.drop_first())) by {
            let n0 = block.len() as int;
            if t.words_from(i).contains(w) {
                let idx = choose|idx: int|
                    0 <= idx < t.words_from(i).len() && t.words_from(i)[idx] == w;
                if idx < n0 {
                    assert(block[idx] == w);
                    assert(block.contains(w));
                    assert(t.children@[i].0 == w[0] && t.children@[i].1.contains_word(
                        w.drop_first(),
                    ));
                } else {
                    assert(rest[idx - n0] == w);
                    assert(rest.contains(w));
                }
            }
            if w.len() > 0 && exists|k: int|
                i <= k < t.children@.len() && (#[trigger] t.children@[k]).0 == w[0]
                    && t.children@[k].1.contains_word(w.drop_first()) {
                let k = choose|k: int|
                    i <= k < t.children@.len() && (#[trigger] t.children@[k]).0 == w[0]
                        && t.children@[k].1.contains_word(w.drop_first());
                if k == i {
                    assert(block.contains(w));
                    let idx = choose|idx: int| 0 <= idx < block.len() && block[idx] == w;
                    assert(t.words_from(i)[idx] == w);
                } else {
                    assert(rest.contains(w));
                    let idx = choose|idx: int| 0 <= idx < rest.len() && rest[idx] == w;
                    assert(t.words_from(i)[n0 + idx] == w);
                }
            }
        }
    }
}

/// The word enumeration of a well-formed trie is strictly sorted and holds
/// exactly the stored words.
pub proof fn lemma_word_enumeration(t: Trie)
    requires
        t.wf(),
    ensures
        sorted_strict(t.word_seq()),
        forall|w: Seq<char>| #[trigger] t.word_seq().contains(w) <==> t.contains_word(w),
    decreases t, t.child_count() + 1nat,
{
    lemma_words_from(t, 0);
    let head = if t.is_end {
        seq![Seq::<char>::empty()]
    } else {
        Seq::<Seq<char>>::empty()
    };
    let rest = t.words_from(0);
    assert(t.word_seq() == head + rest);
    let n0 = head.len() as int;
    assert forall|w: Seq<char>| #[trigger] t.word_seq().contains(w) <==> t.contains_word(w) by {
        assert(t.descend(Seq::<char>::empty()) == Some(t));
        if t.word_seq().contains(w) {
            let idx = choose|idx: int| 0 <= idx < t.word_seq().len() && t.word_seq()[idx] == w;
            if idx < n0 {
                assert(w == Seq::<char>::empty());
            } else {
                assert(rest[idx - n0] == w);
                assert(rest.contains(w));
                let k = choose|k: int|
                    0 <= k < t.children@.len() && (#[trigger] t.children@[k]).0 == w[0]
                        && t.children@[k].1.contains_word(w.drop_first());
                lemma_child_at(t, k);
                assert(t.spec_child(w[0]) == Some(t.children@[k].1));
                assert(t.contains_word(w));
            }
        }
        if t.contains_word(w) {
            if w.len() == 0 {
                assert(t.is_end);
                assert(t.word_seq()[0] == Seq::<char>::empty());
                assert(w =~= Seq::<char>::empty());
                assert(t.word_seq()[0] == w);
            } else {
                let ch = t.spec_child(w[0]);
                assert(ch is Some);
                let k = choose|k: int|
                    0 <= k < t.children@.len() && (#[trigger] t.children@[k]).0 == w[0];
                lemma_child_at(t, k);
                assert(t.children@[k].1.contains_word(w.drop_first()));
                assert(rest.contains(w));
                let idx = choose|idx: int| 0 <= idx < rest.len() && rest[idx] == w;
                assert(t.word_seq()[n0 + idx] == w);
            }
        }
    }
    assert forall|a: int, b: int|
        0 <= a < b < t.word_seq().len() implies lex_lt(
        #[trigger] t.word_seq()[a],
        #[trigger] t.word_seq()[b],
    ) by {
        if a >= n0 {
            assert(t.word_seq()[a] == rest[a - n0]);
            assert(t.word_seq()[b] == rest[b - n0]);
        } else {
            assert(t.word_seq()[a] == Seq::<char>::empty());
            let y = rest[b - n0];
            assert(t.word_seq()[b] == y);
            assert(rest.contains(y));
            assert(y.len() > 0);
            assert(lex_lt(Seq::<char>::empty(), y));
        }
    }
}

/// A word just inserted is found, and stays found after any later insertion:
/// `t1` is `t0` after inserting `w`, `t2` is `t1` after inserting `w2`, and
/// `w` is a member of both.
pub proof fn lemma_insert_keeps_words(t0: Trie, t1: Trie, t2: Trie, w: Seq<char>, w2: Seq<char>)
    requires
        forall|x: Seq<char>| #[trigger] t1.contains_word(x) <==> (t0.contains_word(x) || x == w),
        forall|x: Seq<char>| #[trigger] t2.contains_word(x) <==> (t1.contains_word(x) || x == w2),
    ensures
        t1.contains_word(w),
        t2.contains_word(w),
{
}

/// Duplicates count once: inserting a word that was already present leaves
/// the word count unchanged, and inserting an absent word raises it by
/// exactly one. `t2` is `t1` after inserting `w`.
pub proof fn lemma_count_distinct(t1: Trie, t2: Trie, w: Seq<char>)
    requires
        t1.wf(),
        t2.wf(),
        forall|x: Seq<char>| #[trigger] t2.contains_word(x) <==> (t1.contains_word(x) || x == w),
    ensures
        t1.contains_word(w) ==> t2.word_seq().len() == t1.word_seq().len(),
        !t1.contains_word(w) ==> t2.word_seq().len() == t1.word_seq().len() + 1,
{
    broadcast use vstd::set::group_set_axioms;
    broadcast use vstd::seq_lib::seq_to_set_is_finite;

    lemma_word_enumeration(t1);
    lemma_word_enumeration(t2);
    crate::lex::lemma_sorted_no_dup(t1.word_seq());
    crate::lex::lemma_sorted_no_dup(t2.word_seq());
    t1.word_seq().unique_seq_to_set();
    t2.word_seq().unique_seq_to_set();
    assert forall|x: Seq<char>|
        t2.word_seq().to_set().contains(x) <==> t1.word_seq().to_set().insert(w).contains(
            x,
        ) by {
        assert(t2.word_seq().contains(x) <==> t2.contains_word(x));
        assert(t1.word_seq().contains(x) <==> t1.contains_word(x));
    }
    assert(t2.word_seq().to_set() =~= t1.word_seq().to_set().insert(w));
    assert(t1.word_seq().to_set().contains(w) <==> t1.contains_word(w));
}

/// Looking up the key that stands at position `k` finds exactly that entry.
proof fn lemma_child_at(t: Trie, k: int)
    requires
        keys_sorted(t.children@),
        0 <= k < t.children@.len(),
    ensures
        t.spec_child(t.children@[k].0) == Some(t.children@[k].1),
{
    let c = t.children@[k].0;
    assert(exists|i: int| 0 <= i < t.children@.len() && (#[trigger] t.children@[i]).0 == c) by {
        assert((t.children@[k]).0 == c);
    }
    let i = choose|i: int| 0 <= i < t.children@.len() && (#[trigger] t.children@[i]).0 == c;
    if i < k {
        assert(t.children@[i].0 < t.children@[k].0);
    }
    if i > k {
        assert(t.children@[k].0 < t.children@[i].0);
    }
}

/// Replacing the subtree under one key changes no other lookup.
proof fn lemma_child_update(t0: Trie, t2: Trie, j: int, c: char, nc: Trie)
    requires
        keys_sorted(t0.children@),
        0 <= j < t0.children@.len(),
        t0.children@[j].0 == c,
        t2.children@ == t0.children@.update(j, (c, nc)),
    ensures
        keys_sorted(t2.children@),
        t2.spec_child(c) == Some(nc),
        forall|d: char| d != c ==> t2.spec_child(d) == t0.spec_child(d),
{
    assert forall|k: int| 0 <= k < t2.children@.len() implies (#[trigger] t2.children@[k]).0
        == t0.children@[k].0 by {}
    assert(keys_sorted(t2.children@));
    lemma_child_at(t2, j);
    assert forall|d: char| d != c implies t2.spec_child(d) == t0.spec_child(d) by {
        if exists|k: int| 0 <= k < t0.children@.len() && (#[trigger] t0.children@[k]).0 == d {
            let k = choose|k: int|
                0 <= k < t0.children@.len() && (#[trigger] t0.children@[k]).0 == d;
            lemma_child_at(t0, k);
            assert(t2.children@[k] == t0.children@[k]);
            lemma_child_at(t2, k);
        } else {
            assert(t0.spec_child(d) is None);
            assert(forall|k: int|
                0 <= k < t2.children@.len() ==> (#[trigger] t2.children@[k]).0 != d);
            assert(t2.spec_child(d) is None);
        }
    }
}

/// Adding a key where none stood changes no other lookup.
proof fn lemma_child_insert(t0: Trie, t2: Trie, j: int, c: char, nc: Trie)
    requires
        keys_sorted(t0.children@),
        0 <= j <= t0.children@.len(),
        forall|k: int| 0 <= k < j ==> (#[trigger] t0.children@[k]).0 < c,
        forall|k: int| j <= k < t0.children@.len() ==> c < (#[trigger] t0.children@[k]).0,
        t2.children@ == t0.children@.insert(j, (c, nc)),
    ensures
        keys_sorted(t2.children@),
        t2.spec_child(c) == Some(nc),
        t0.spec_child(c) is None,
        forall|d: char| d != c ==> t2.spec_child(d) == t0.spec_child(d),
{
    assert(t2.children@.len() == t0.children@.len() + 1);
    assert(t2.children@[j] == (c, nc));
    assert forall|k: int| 0 <= k < j implies t2.children@[k] == t0.children@[k] by {}
    assert forall|k: int| j < k < t2.children@.len() implies (#[trigger] t2.children@[k])
        == t0.children@[k - 1] by {}
    assert forall|a: int, b: int| 0 <= a < b < t2.children@.len() implies (
    #[trigger] t2.children@[a]).0 < (#[trigger] t2.children@[b]).0 by {
        if a < j && b == j {
        } else if a == j && b > j {
        } else if a < j && b > j {
            assert(t0.children@[a].0 < c);
            assert(c < t0.children@[b - 1].0);
        }
    }
    assert(keys_sorted(t2.children@));
    lemma_child_at(t2, j);
    assert(forall|k: int| 0 <= k < t0.children@.len() ==> (#[trigger] t0.children@[k]).0 != c);
    assert(t0.spec_child(c) is None);
    assert forall|d: char| d != c implies t2.spec_child(d) == t0.spec_child(d) by {
        if exists|k: int| 0 <= k < t0.children@.len() && (#[trigger] t0.children@[k]).0 == d {
            let k = choose|k: int|
                0 <= k < t0.children@.len() && (#[trigger] t0.children@[k]).0 == d;
            lemma_child_at(t0, k);
            let k2 = if k < j {
                k
            } else {
                k + 1
            };
            assert(t2.children@[k2] == t0.children@[k]);
            lemma_child_at(t2, k2);
        } else {
            assert(t0.spec_child(d) is None);
            assert forall|k: int|
                0 <= k < t2.children@.len() implies (#[trigger] t2.children@[k]).0 != d by {
                if k < j {
                    assert(t2.children@[k] == t0.children@[k]);
                } else if k > j {
                    assert(t2.children@[k] == t0.children@[k - 1]);
                }
            }
            assert(t2.spec_child(d) is None);
        }
    }
}

} // verus!
