use vstd::prelude::*;

use crate::errors::HotSaxError;

verus! {

/// An augmented trie over fixed-length words. Every branch node keys its
/// children by one letter; every path of the common word length ends in
/// an index node listing, in insertion order, the window starts whose
/// word spells that path.
pub enum AugmentedTrie {
    /// Any node of the trie that is not a final one: its branches, each
    /// letter at most once.
    NestedNode(Vec<(u8, AugmentedTrie)>),
    /// A final node: the starts of the windows that produced the word
    /// spelled by the path to it.
    IndexNode(Vec<usize>),
}

/// The branch of an association list at a letter: the first pair with
/// that letter, scanned from the front.
pub open spec fn assoc_find(ch: Seq<(u8, AugmentedTrie)>, c: u8) -> Option<AugmentedTrie>
    decreases ch.len(),
{
    if ch.len() == 0 {
        None
    } else if ch[0].0 == c {
        Some(ch[0].1)
    } else {
        assoc_find(ch.drop_first(), c)
    }
}

/// Each letter keys at most one branch.
pub open spec fn keys_distinct(ch: Seq<(u8, AugmentedTrie)>) -> bool {
    forall|k1: int, k2: int| 0 <= k1 < k2 < ch.len() ==> (#[trigger] ch[k1].0) != (#[trigger] ch[k2].0)
}

/// What looking a word up in the trie means: follow one branch per
/// letter; a word ends exactly at an index node, whose starts it names.
/// `None` stands for a word the trie does not hold at its depth.
pub open spec fn get_spec(t: AugmentedTrie, word: Seq<u8>) -> Option<Seq<usize>>
    decreases word.len(),
{
    match t {
        AugmentedTrie::IndexNode(v) => {
            if word.len() == 0 {
                Some(v@)
            } else {
                None
            }
        },
        AugmentedTrie::NestedNode(ch) => {
            if word.len() == 0 {
                None
            } else {
                match assoc_find(ch@, word[0]) {
                    Some(sub) => get_spec(sub, word.drop_first()),
                    None => None,
                }
            }
        },
    }
}

/// A well-formed trie of the given depth: index nodes at the bottom,
/// branch nodes with distinct letters above, all paths equally long.
pub open spec fn trie_wf(t: AugmentedTrie, depth: nat) -> bool
    decreases depth,
{
    if depth == 0 {
        t is IndexNode
    } else {
        match t {
            AugmentedTrie::NestedNode(ch) => keys_distinct(ch@) && (forall|k: int|
                0 <= k < ch@.len() ==> trie_wf((#[trigger] ch@[k]).1, (depth - 1) as nat)),
            AugmentedTrie::IndexNode(v) => false,
        }
    }
}

/// Scanning from the front finds the first pair with the letter.
proof fn lemma_assoc_find_at(ch: Seq<(u8, AugmentedTrie)>, k: int)
    requires
        0 <= k < ch.len(),
        forall|q: int| 0 <= q < k ==> (#[trigger] ch[q]).0 != ch[k].0,
    ensures
        assoc_find(ch, ch[k].0) == Some(ch[k].1),
    decreases k,
{
    if k > 0 {
        lemma_assoc_find_at(ch.drop_first(), k - 1);
    }
}

/// A letter on no pair finds no branch.
proof fn lemma_assoc_find_none(ch: Seq<(u8, AugmentedTrie)>, c: u8)
    requires
        forall|q: int| 0 <= q < ch.len() ==> (#[trigger] ch[q]).0 != c,
    ensures
        assoc_find(ch, c) == None::<AugmentedTrie>,
    decreases ch.len(),
{
    if ch.len() > 0 {
        lemma_assoc_find_none(ch.drop_first(), c);
    }
}

/// Replacing the subtree of one pair moves only that letter's branch.
proof fn lemma_assoc_find_update(ch: Seq<(u8, AugmentedTrie)>, k: int, sub: AugmentedTrie)
    requires
        0 <= k < ch.len(),
        keys_distinct(ch),
    ensures
        assoc_find(ch.update(k, (ch[k].0, sub)), ch[k].0) == Some(sub),
        forall|c2: u8| c2 != ch[k].0 ==> assoc_find(ch.update(k, (ch[k].0, sub)), c2) == assoc_find(ch, c2),
        keys_distinct(ch.update(k, (ch[k].0, sub))),
    decreases k,
{
    let ch2 = ch.update(k, (ch[k].0, sub));
    assert forall|k1: int, k2: int| 0 <= k1 < k2 < ch2.len() implies (#[trigger] ch2[k1].0)
        != (#[trigger] ch2[k2].0) by {
        assert(ch[k1].0 != ch[k2].0);
    }
    if k == 0 {
        assert forall|c2: u8| c2 != ch[k].0 implies assoc_find(ch2, c2) == assoc_find(ch, c2) by {
            assert(ch2.drop_first() =~= ch.drop_first());
        }
    } else {
        lemma_assoc_find_update(ch.drop_first(), k - 1, sub);
        assert(ch2.drop_first() =~= ch.drop_first().update(k - 1, (ch[k].0, sub)));
        assert(ch2[0] == ch[0]);
        assert(ch[0].0 != ch[k].0);
        assert(ch.drop_first()[k - 1] == ch[k]);
        assert(assoc_find(ch2, ch[k].0) == Some(sub));
        assert forall|c2: u8| c2 != ch[k].0 implies assoc_find(ch2, c2) == assoc_find(ch, c2) by {
            if ch[0].0 == c2 {
            } else {
                assert(assoc_find(ch2, c2) == assoc_find(ch2.drop_first(), c2));
                assert(assoc_find(ch2.drop_first(), c2) == assoc_find(ch.drop_first(), c2));
                assert(assoc_find(ch, c2) == assoc_find(ch.drop_first(), c2));
            }
        }
    }
}

/// Appending a pair with a fresh letter adds only that letter's branch.
proof fn lemma_assoc_find_push(ch: Seq<(u8, AugmentedTrie)>, c: u8, sub: AugmentedTrie)
    requires
        forall|q: int| 0 <= q < ch.len() ==> (#[trigger] ch[q]).0 != c,
    ensures
        assoc_find(ch.push((c, sub)), c) == Some(sub),
        forall|c2: u8| c2 != c ==> assoc_find(ch.push((c, sub)), c2) == assoc_find(ch, c2),
        keys_distinct(ch) ==> keys_distinct(ch.push((c, sub))),
    decreases ch.len(),
{
    let ch2 = ch.push((c, sub));
    if ch.len() == 0 {
        assert(ch2.len() == 1 && ch2[0] == (c, sub));
        assert forall|c2: u8| c2 != c implies assoc_find(ch2, c2) == assoc_find(ch, c2) by {
            assert(ch2.drop_first() =~= Seq::<(u8, AugmentedTrie)>::empty());
            assert(assoc_find(ch2, c2) == assoc_find(ch2.drop_first(), c2));
            assert(assoc_find(ch2.drop_first(), c2) == None::<AugmentedTrie>);
            assert(assoc_find(ch, c2) == None::<AugmentedTrie>);
        }
    } else {
        lemma_assoc_find_push(ch.drop_first(), c, sub);
        assert(ch2.drop_first() =~= ch.drop_first().push((c, sub)));
        assert(ch2[0] == ch[0]);
        assert(ch[0].0 != c);
        assert(assoc_find(ch2, c) == Some(sub));
        assert forall|c2: u8| c2 != c implies assoc_find(ch2, c2) == assoc_find(ch, c2) by {
            if ch[0].0 == c2 {
            } else {
                assert(assoc_find(ch2, c2) == assoc_find(ch2.drop_first(), c2));
                assert(assoc_find(ch2.drop_first(), c2) == assoc_find(ch.drop_first(), c2));
                assert(assoc_find(ch, c2) == assoc_find(ch.drop_first(), c2));
            }
        }
    }
    if keys_distinct(ch) {
        assert forall|k1: int, k2: int| 0 <= k1 < k2 < ch2.len() implies (#[trigger] ch2[k1].0)
            != (#[trigger] ch2[k2].0) by {
            if k2 < ch.len() {
                assert(ch[k1].0 != ch[k2].0);
            } else {
                assert(ch2[k2] == (c, sub));
                assert(ch[k1].0 != c);
            }
        }
    }
}

/// Two words with the same first letter and the same tail are the same
/// word.
proof fn lemma_eq_first_tail(a: Seq<u8>, b: Seq<u8>)
    requires
        a.len() >= 1,
        b.len() >= 1,
        a[0] == b[0],
        a.drop_first() == b.drop_first(),
    ensures
        a == b,
{
    assert(a.drop_first().len() == a.len() - 1);
    assert(b.drop_first().len() == b.len() - 1);
    assert(a.len() == b.len());
    assert forall|i: int| 0 <= i < a.len() implies a[i] == b[i] by {
        if i >= 1 {
            assert(a[i] == a.drop_first()[i - 1]);
            assert(b[i] == b.drop_first()[i - 1]);
        }
    }
    assert(a =~= b);
}

/// A fresh single-branch spine holding the tail of a word from `pos` on,
/// ending in an index node with the one start.
fn make_chain(word: &Vec<u8>, pos: usize, index: usize) -> (r: AugmentedTrie)
    requires
        pos <= word@.len(),
    ensures
        trie_wf(r, (word@.len() - pos) as nat),
        get_spec(r, word@.skip(pos as int)) == Some(seq![index]),
        forall|w2: Seq<u8>|
            w2 != word@.skip(pos as int) ==> get_spec(r, w2) == None::<Seq<usize>>,
    decreases word@.len() - pos,
{
    let wl = word.len();
    if pos == wl {
        let mut v: Vec<usize> = Vec::new();
        v.push(index);
        let r = AugmentedTrie::IndexNode(v);
        proof {
            assert(v@ =~= seq![index]);
            assert(word@.skip(pos as int) =~= Seq::<u8>::empty());
            assert forall|w2: Seq<u8>| w2 != word@.skip(pos as int) implies get_spec(r, w2)
                == None::<Seq<usize>> by {
                if w2.len() == 0 {
                    assert(w2 =~= word@.skip(pos as int));
                }
            }
        }
        r
    } else {
        let c = word[pos];
        let sub = make_chain(word, pos + 1, index);
        let mut ch: Vec<(u8, AugmentedTrie)> = Vec::new();
        ch.push((c, sub));
        let r = AugmentedTrie::NestedNode(ch);
        proof {
            let w = word@.skip(pos as int);
            assert(w.len() >= 1);
            assert(w[0] == c);
            assert(ch@ =~= seq![(c, sub)]);
            assert(ch@.drop_first() =~= Seq::<(u8, AugmentedTrie)>::empty());
            assert(assoc_find(ch@, c) == Some(sub));
            assert(w.drop_first() =~= word@.skip(pos as int + 1));
            assert(get_spec(r, w) == Some(seq![index]));
            assert forall|w2: Seq<u8>| w2 != w implies get_spec(r, w2) == None::<Seq<usize>> by {
                if w2.len() == 0 {
                } else if w2[0] != c {
                    assert(assoc_find(ch@, w2[0]) == assoc_find(ch@.drop_first(), w2[0]));
                    assert(assoc_find(ch@.drop_first(), w2[0]) == None::<AugmentedTrie>);
                } else {
                    assert(assoc_find(ch@, w2[0]) == Some(sub));
                    if w2.drop_first() == word@.skip(pos as int + 1) {
                        lemma_eq_first_tail(w2, w);
                    }
                    assert(w2.drop_first() != word@.skip(pos as int + 1));
                    assert(get_spec(sub, w2.drop_first()) == None::<Seq<usize>>);
                    assert(get_spec(r, w2) == get_spec(sub, w2.drop_first()));
                }
            }
            assert forall|k: int| 0 <= k < ch@.len() implies trie_wf(
                (#[trigger] ch@[k]).1,
                (word@.len() - pos - 1) as nat,
            ) by {}
        }
        r
    }
}

/// Finds the position of the branch keyed by the letter, if any.
fn find_branch(ch: &Vec<(u8, AugmentedTrie)>, c: u8) -> (r: Option<usize>)
    ensures
        r matches Some(k) ==> k < ch@.len() && ch@[k as int].0 == c && (forall|q: int|
            0 <= q < k ==> (#[trigger] ch@[q]).0 != c),
        r is None ==> (forall|q: int| 0 <= q < ch@.len() ==> (#[trigger] ch@[q]).0 != c),
{
    let mut k: usize = 0;
    while k < ch.len()
        invariant
            k <= ch@.len(),
            forall|q: int| 0 <= q < k ==> (#[trigger] ch@[q]).0 != c,
        decreases ch@.len() - k,
    {
        if ch[k].0 == c {
            return Some(k);
        }
        k += 1;
    }
    None
}

/// Adds the tail of the word from `pos` on into a node of matching
/// depth, appending the index at the word's end.
fn add_word_rec(node: AugmentedTrie, word: &Vec<u8>, pos: usize, index: usize) -> (r: AugmentedTrie)
    requires
        pos < word@.len(),
        trie_wf(node, (word@.len() - pos) as nat),
    ensures
        trie_wf(r, (word@.len() - pos) as nat),
        get_spec(r, word@.skip(pos as int)) == Some(
            match get_spec(node, word@.skip(pos as int)) {
                Some(s) => s.push(index),
                None => seq![index],
            },
        ),
        forall|w2: Seq<u8>|
            w2 != word@.skip(pos as int) ==> get_spec(r, w2) == get_spec(node, w2),
    decreases word@.len() - pos,
{
    let ghost w = word@.skip(pos as int);
    let wl = word.len();
    let c = word[pos];
    proof {
        assert(w.len() >= 1);
        assert(w[0] == c);
        assert(w.drop_first() =~= word@.skip(pos as int + 1));
    }
    match node {
        AugmentedTrie::NestedNode(mut ch) => {
            let ghost ch0 = ch@;
            match find_branch(&ch, c) {
                Some(k) => {
                    let (_, sub) = ch.remove(k);
                    proof {
                        lemma_assoc_find_at(ch0, k as int);
                        assert(trie_wf(sub, (word@.len() - pos - 1) as nat));
                    }
                    let sub2 = if pos + 1 == wl {
                        proof {
                            assert(w.drop_first() =~= Seq::<u8>::empty());
                        }
                        add_index_leaf(sub, index)
                    } else {
                        add_word_rec(sub, word, pos + 1, index)
                    };
                    ch.insert(k, (c, sub2));
                    proof {
                        vstd::seq_lib::lemma_update_is_remove_insert(ch0, k as int, (c, sub2));
                        assert(ch@ =~= ch0.update(k as int, (c, sub2)));
                        lemma_assoc_find_update(ch0, k as int, sub2);
                    }
                    let r = AugmentedTrie::NestedNode(ch);
                    proof {
                        assert(assoc_find(ch@, c) == Some(sub2));
                        assert(assoc_find(ch0, c) == Some(sub));
                        assert(get_spec(r, w) == get_spec(sub2, w.drop_first()));
                        assert(get_spec(node, w) == get_spec(sub, w.drop_first()));
                        assert(get_spec(sub2, w.drop_first()) == Some(
                            match get_spec(sub, w.drop_first()) {
                                Some(s) => s.push(index),
                                None => seq![index],
                            },
                        ));
                        assert forall|w2: Seq<u8>| w2 != w implies get_spec(r, w2) == get_spec(
                            node,
                            w2,
                        ) by {
                            if w2.len() == 0 {
                            } else if w2[0] != c {
                                assert(assoc_find(ch@, w2[0]) == assoc_find(ch0, w2[0]));
                            } else {
                                if w2.drop_first() == w.drop_first() {
                                    lemma_eq_first_tail(w2, w);
                                }
                                assert(get_spec(r, w2) == get_spec(sub2, w2.drop_first()));
                                assert(get_spec(node, w2) == get_spec(sub, w2.drop_first()));
                            }
                        }
                        assert forall|q: int| 0 <= q < ch@.len() implies trie_wf(
                            (#[trigger] ch@[q]).1,
                            (word@.len() - pos - 1) as nat,
                        ) by {
                            if q != k {
                                assert(ch@[q] == ch0[q]);
                            }
                        }
                    }
                    r
                },
                None => {
                    let sub = make_chain(word, pos + 1, index);
                    ch.push((c, sub));
                    proof {
                        lemma_assoc_find_none(ch0, c);
                        lemma_assoc_find_push(ch0, c, sub);
                        assert(ch@ =~= ch0.push((c, sub)));
                    }
                    let r = AugmentedTrie::NestedNode(ch);
                    proof {
                        assert(assoc_find(ch@, c) == Some(sub));
                        assert(get_spec(r, w) == get_spec(sub, w.drop_first()));
                        assert(get_spec(sub, word@.skip(pos as int + 1)) == Some(seq![index]));
                        assert(get_spec(node, w) == None::<Seq<usize>>) by {
                            assert(assoc_find(ch0, c) == None::<AugmentedTrie>);
                        }
                        assert forall|w2: Seq<u8>| w2 != w implies get_spec(r, w2) == get_spec(
                            node,
                            w2,
                        ) by {
                            if w2.len() == 0 {
                            } else if w2[0] != c {
                                assert(assoc_find(ch@, w2[0]) == assoc_find(ch0, w2[0]));
                            } else {
                                assert(assoc_find(ch0, c) == None::<AugmentedTrie>);
                                if w2.drop_first() == w.drop_first() {
                                    lemma_eq_first_tail(w2, w);
                                }
                                assert(get_spec(r, w2) == get_spec(sub, w2.drop_first()));
                                assert(get_spec(sub, w2.drop_first()) == None::<Seq<usize>>);
                            }
                        }
                        assert forall|q: int| 0 <= q < ch@.len() implies trie_wf(
                            (#[trigger] ch@[q]).1,
                            (word@.len() - pos - 1) as nat,
                        ) by {
                            if q < ch0.len() {
                                assert(ch@[q] == ch0[q]);
                            } else {
                                assert(ch@[q] == (c, sub));
                            }
                        }
                    }
                    r
                },
            }
        },
        AugmentedTrie::IndexNode(v) => {
            proof {
                assert(false);
            }
            AugmentedTrie::IndexNode(v)
        },
    }
}

/// A fresh copy of a start list.
fn copy_indices(v: &Vec<usize>) -> (r: Vec<usize>)
    ensures
        r@ == v@,
{
    let mut r: Vec<usize> = Vec::new();
    let mut k: usize = 0;
    while k < v.len()
        invariant
            k <= v@.len(),
            r@ == v@.take(k as int),
        decreases v@.len() - k,
    {
        r.push(v[k]);
        proof {
            assert(r@ =~= v@.take(k as int + 1));
        }
        k += 1;
    }
    proof {
        assert(r@ =~= v@);
    }
    r
}

/// Walks the trie along the tail of the word from `pos` on.
fn get_indexes_rec(t: &AugmentedTrie, word: &Vec<u8>, pos: usize) -> (r: Result<
    Vec<usize>,
    HotSaxError,
>)
    requires
        pos <= word@.len(),
    ensures
        r matches Ok(v) ==> get_spec(*t, word@.skip(pos as int)) == Some(v@),
        r is Err ==> r == Err::<Vec<usize>, HotSaxError>(HotSaxError::LookupMiscompare)
            && get_spec(*t, word@.skip(pos as int)) == None::<Seq<usize>>,
    decreases word@.len() - pos,
{
    let ghost w = word@.skip(pos as int);
    match t {
        AugmentedTrie::IndexNode(v) => {
            if pos == word.len() {
                proof {
                    assert(w =~= Seq::<u8>::empty());
                }
                Ok(copy_indices(v))
            } else {
                proof {
                    assert(w.len() != 0);
                }
                Err(HotSaxError::LookupMiscompare)
            }
        },
        AugmentedTrie::NestedNode(ch) => {
            if pos == word.len() {
                proof {
                    assert(w.len() == 0);
                }
                Err(HotSaxError::LookupMiscompare)
            } else {
                let c = word[pos];
                proof {
                    assert(w.len() >= 1);
                    assert(w[0] == c);
                    assert(w.drop_first() =~= word@.skip(pos as int + 1));
                }
                match find_branch(ch, c) {
                    Some(k) => {
                        proof {
                            lemma_assoc_find_at(ch@, k as int);
                        }
                        let sub = &ch[k].1;
                        get_indexes_rec(sub, word, pos + 1)
                    },
                    None => {
                        proof {
                            lemma_assoc_find_none(ch@, c);
                        }
                        Err(HotSaxError::LookupMiscompare)
                    },
                }
            }
        },
    }
}

/// The starts, in input order, of the entries that carry the word.
pub open spec fn occ_spec(entries: Seq<(usize, Vec<u8>)>, w: Seq<u8>) -> Seq<usize>
    decreases entries.len(),
{
    if entries.len() == 0 {
        Seq::empty()
    } else {
        let prev = occ_spec(entries.drop_last(), w);
        if entries.last().1@ == w {
            prev.push(entries.last().0)
        } else {
            prev
        }
    }
}

impl AugmentedTrie {
    /// A new trie with an empty branching root: well formed at every
    /// positive depth, holding no word at all.
    pub fn new() -> (r: AugmentedTrie)
        ensures
            forall|d: nat| d >= 1 ==> trie_wf(r, d),
            forall|w: Seq<u8>| get_spec(r, w) == None::<Seq<usize>>,
    {
        let ch: Vec<(u8, AugmentedTrie)> = Vec::new();
        let r = AugmentedTrie::NestedNode(ch);
        proof {
            assert forall|d: nat| d >= 1 implies trie_wf(r, d) by {
                assert(keys_distinct(ch@));
            }
            assert forall|w: Seq<u8>| get_spec(r, w) == None::<Seq<usize>> by {
                if w.len() != 0 {
                    assert(assoc_find(ch@, w[0]) == None::<AugmentedTrie>);
                }
            }
        }
        r
    }

    /// Adds one word, appending the given start to the list at its end;
    /// every other word of the trie is left as it was.
    pub fn add_word(&mut self, word: &Vec<u8>, index: usize)
        requires
            word@.len() >= 1,
            trie_wf(*old(self), word@.len()),
        ensures
            trie_wf(*final(self), word@.len()),
            get_spec(*final(self), word@) == Some(
                match get_spec(*old(self), word@) {
                    Some(s) => s.push(index),
                    None => seq![index],
                },
            ),
            forall|w2: Seq<u8>| w2 != word@ ==> get_spec(*final(self), w2) == get_spec(
                *old(self),
                w2,
            ),
    {
        let mut tmp = AugmentedTrie::IndexNode(Vec::new());
        core::mem::swap(self, &mut tmp);
        proof {
            assert(word@.skip(0) =~= word@);
        }
        let r = add_word_rec(tmp, word, 0, index);
        *self = r;
    }

    /// Builds the trie of a list of (start, word) entries, inserted in
    /// list order. Every entry must carry a word of the one common,
    /// positive length.
    pub fn from_words(words: &Vec<(usize, Vec<u8>)>) -> (r: AugmentedTrie)
        requires
            forall|k: int| 0 <= k < words@.len() ==> (#[trigger] words@[k]).1@.len() >= 1,
            forall|k1: int, k2: int|
                0 <= k1 < words@.len() && 0 <= k2 < words@.len() ==> (#[trigger] words@[k1]).1@.len()
                    == (#[trigger] words@[k2]).1@.len(),
        ensures
            forall|w: Seq<u8>|
                #[trigger] get_spec(r, w) == (if occ_spec(words@, w).len() > 0 {
                    Some(occ_spec(words@, w))
                } else {
                    None::<Seq<usize>>
                }),
            words@.len() > 0 ==> trie_wf(r, words@[0].1@.len()),
            forall|d: nat| d >= 1 && words@.len() == 0 ==> trie_wf(r, d),
    {
        let mut r = AugmentedTrie::new();
        let mut k: usize = 0;
        while k < words.len()
            invariant
                k <= words@.len(),
                forall|q: int| 0 <= q < words@.len() ==> (#[trigger] words@[q]).1@.len() >= 1,
                forall|k1: int, k2: int|
                    0 <= k1 < words@.len() && 0 <= k2 < words@.len() ==> (#[trigger] words@[k1]).1@.len()
                        == (#[trigger] words@[k2]).1@.len(),
                words@.len() > 0 ==> trie_wf(r, words@[0].1@.len()),
                words@.len() == 0 ==> (forall|d: nat| d >= 1 ==> trie_wf(r, d)),
                forall|w: Seq<u8>|
                    #[trigger] get_spec(r, w) == (if occ_spec(words@.take(k as int), w).len() > 0 {
                        Some(occ_spec(words@.take(k as int), w))
                    } else {
                        None::<Seq<usize>>
                    }),
            decreases words@.len() - k,
        {
            let ghost r0 = r;
            let entry = &words[k];
            let ghost wseq = entry.1@;
            r.add_word(&entry.1, entry.0);
            proof {
                assert(words@.take(k as int + 1).drop_last() =~= words@.take(k as int));
                assert(words@.take(k as int + 1).last() == words@[k as int]);
                assert forall|w: Seq<u8>| #[trigger] get_spec(r, w) == (if occ_spec(
                    words@.take(k as int + 1),
                    w,
                ).len() > 0 {
                    Some(occ_spec(words@.take(k as int + 1), w))
                } else {
                    None::<Seq<usize>>
                }) by {
                    if w == wseq {
                        assert(occ_spec(words@.take(k as int + 1), w) == occ_spec(
                            words@.take(k as int),
                            w,
                        ).push(entry.0));
                    } else {
                        assert(get_spec(r, w) == get_spec(r0, w));
                        assert(occ_spec(words@.take(k as int + 1), w) == occ_spec(
                            words@.take(k as int),
                            w,
                        ));
                    }
                }
            }
            k += 1;
        }
        proof {
            assert(words@.take(words@.len() as int) =~= words@);
        }
        r
    }

    /// Looks a word up: the starts recorded at its end, or the lookup
    /// miscompare error where the trie holds no such word at its depth.
    pub fn get_indexes(&self, word: &Vec<u8>) -> (r: Result<Vec<usize>, HotSaxError>)
        ensures
            r matches Ok(v) ==> get_spec(*self, word@) == Some(v@),
            r is Err ==> r == Err::<Vec<usize>, HotSaxError>(HotSaxError::LookupMiscompare)
                && get_spec(*self, word@) == None::<Seq<usize>>,
    {
        proof {
            assert(word@.skip(0) =~= word@);
        }
        get_indexes_rec(self, word, 0)
    }
}

/// Appends a start to the index node at a word's end.
fn add_index_leaf(node: AugmentedTrie, index: usize) -> (r: AugmentedTrie)
    requires
        trie_wf(node, 0),
    ensures
        trie_wf(r, 0),
        get_spec(r, Seq::<u8>::empty()) == Some(
            match get_spec(node, Seq::<u8>::empty()) {
                Some(s) => s.push(index),
                None => seq![index],
            },
        ),
        forall|w2: Seq<u8>| w2 != Seq::<u8>::empty() ==> get_spec(r, w2) == get_spec(node, w2),
{
    match node {
        AugmentedTrie::IndexNode(mut v) => {
            let ghost v0 = v@;
            v.push(index);
            let r = AugmentedTrie::IndexNode(v);
            proof {
                assert(get_spec(node, Seq::<u8>::empty()) == Some(v0));
                assert(get_spec(r, Seq::<u8>::empty()) == Some(v0.push(index)));
                assert forall|w2: Seq<u8>| w2 != Seq::<u8>::empty() implies get_spec(r, w2)
                    == get_spec(node, w2) by {
                    if w2.len() == 0 {
                        assert(w2 =~= Seq::<u8>::empty());
                    }
                }
            }
            r
        },
        AugmentedTrie::NestedNode(ch) => {
            proof {
                assert(false);
            }
            AugmentedTrie::NestedNode(ch)
        },
    }
}

} // verus!
