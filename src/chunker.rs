use vstd::prelude::*;
use crate::text::{
    chars_of, copy_chars, copy_words, is_space, join_with_spaces, join_words, lemma_words_nonempty,
    split_words, string_from_chars, words_of, words_view,
};
use regex::Regex;

verus! {

/// A chunk with at least this many words is bisected near its middle.
pub const CENTER_SPLIT_MIN_WORDS: usize = 12;

/// Center splitting recurses at most this deep.
pub const CENTER_SPLIT_MAX_DEPTH: usize = 3;

/// Only the first this-many chunks of the sentence pass may be bisected at a comma.
pub const COMMA_SPLIT_CHUNKS: usize = 2;

/// The character sequences that a list of chunks, each a list of words, holds.
pub open spec fn chunks_view(v: Seq<Vec<Vec<char>>>) -> Seq<Seq<Seq<char>>> {
    v.map_values(|c: Vec<Vec<char>>| words_view(c@))
}

pub open spec fn ends_with_char(w: Seq<char>, c: char) -> bool {
    w.len() > 0 && w.last() == c
}

/// A word that always closes a chunk: it ends in `.`, `!`, `?`, `:` or `;`.
pub open spec fn ends_hard(w: Seq<char>) -> bool {
    ||| ends_with_char(w, '.')
    ||| ends_with_char(w, '!')
    ||| ends_with_char(w, '?')
    ||| ends_with_char(w, ':')
    ||| ends_with_char(w, ';')
}

/// A word that closes a chunk once it holds enough words: it ends in a comma.
pub open spec fn ends_comma(w: Seq<char>) -> bool {
    ends_with_char(w, ',')
}

pub open spec fn is_digit(c: char) -> bool {
    '0' <= c <= '9'
}

/// A list marker such as `1.`, `2)`, `3:`, `(4)` or `(5),`: the whole word matches
/// `^\(?[0-9]+[.):],?$`.
pub open spec fn is_numbered_item(w: Seq<char>) -> bool {
    let a: int = if w.len() > 0 && w[0] == '(' { 1 } else { 0 };
    let b: int = if ends_comma(w) { w.len() - 1 } else { w.len() as int };
    &&& b - a >= 2
    &&& forall|i: int| a <= i < b - 1 ==> is_digit(#[trigger] w[i])
    &&& (w[b - 1] == '.' || w[b - 1] == ')' || w[b - 1] == ':')
}

/// `c` is `t`, or its ASCII capital when `t` is a lowercase ASCII letter.
pub open spec fn char_matches_lower(c: char, t: char) -> bool {
    c == t || ('a' <= t <= 'z' && (c as u32) + 32 == (t as u32))
}

/// `w` lowercases to `t`, where `t` is made of lowercase ASCII letters and `&`. Only
/// ASCII capitals lowercase to such characters, so comparing letter by letter is exact.
pub open spec fn matches_lower(w: Seq<char>, t: Seq<char>) -> bool {
    w.len() == t.len() && forall|i: int| 0 <= i < w.len() ==> char_matches_lower(w[i], t[i])
}

/// The connectives before which a long chunk may be broken.
pub open spec fn break_words() -> Seq<Seq<char>> {
    seq![
        seq!['a', 'n', 'd'],
        seq!['o', 'r'],
        seq!['b', 'u', 't'],
        seq!['&'],
        seq!['b', 'e', 'c', 'a', 'u', 's', 'e'],
        seq!['i', 'f'],
        seq!['s', 'i', 'n', 'c', 'e'],
        seq!['t', 'h', 'o', 'u', 'g', 'h'],
        seq!['a', 'l', 't', 'h', 'o', 'u', 'g', 'h'],
        seq!['h', 'o', 'w', 'e', 'v', 'e', 'r'],
        seq!['w', 'h', 'i', 'c', 'h'],
    ]
}

/// The word is a connective, in any letter case.
pub open spec fn is_break_word(w: Seq<char>) -> bool {
    exists|k: int| 0 <= k < break_words().len() && matches_lower(w, #[trigger] break_words()[k])
}

/// The sentence pass after the first `ws.len()` words: the chunks closed so far and the
/// words of the open chunk.
pub open spec fn sentence_state(ws: Seq<Seq<char>>, n: nat) -> (Seq<Seq<Seq<char>>>, Seq<Seq<char>>)
    decreases ws.len(),
{
    if ws.len() == 0 {
        (seq![], seq![])
    } else {
        let st = sentence_state(ws.drop_last(), n);
        let w = ws.last();
        let numbered = is_numbered_item(w);
        let done = if numbered && st.1.len() > 0 { st.0.push(st.1) } else { st.0 };
        let cur = if numbered && st.1.len() > 0 { seq![w] } else { st.1.push(w) };
        if ends_hard(w) || numbered || (ends_comma(w) && cur.len() >= n) {
            (done.push(cur), seq![])
        } else {
            (done, cur)
        }
    }
}

/// The closed chunks, then the open one if it holds a word.
pub open spec fn close_state(st: (Seq<Seq<Seq<char>>>, Seq<Seq<char>>)) -> Seq<Seq<Seq<char>>> {
    if st.1.len() > 0 {
        st.0.push(st.1)
    } else {
        st.0
    }
}

/// The word-count pass after the first `ws.len()` words: groups of `n` words (one word
/// each when `n` is 0).
pub open spec fn count_state(ws: Seq<Seq<char>>, n: nat) -> (Seq<Seq<Seq<char>>>, Seq<Seq<char>>)
    decreases ws.len(),
{
    if ws.len() == 0 {
        (seq![], seq![])
    } else {
        let st = count_state(ws.drop_last(), n);
        let w = ws.last();
        if st.1.len() + 1 <= n {
            (st.0, st.1.push(w))
        } else if st.1.len() > 0 {
            (st.0.push(st.1), seq![w])
        } else {
            (st.0, seq![w])
        }
    }
}

/// Some word ends a sentence.
pub open spec fn has_sentence_end(ws: Seq<Seq<char>>) -> bool {
    exists|i: int| 0 <= i < ws.len() && ends_hard(#[trigger] ws[i])
}

/// The first pass: break at sentence punctuation, list markers and (once the chunk holds
/// `n` words) commas; with no sentence punctuation at all, break every `n` words.
pub open spec fn first_pass(ws: Seq<Seq<char>>, n: nat) -> Seq<Seq<Seq<char>>> {
    if has_sentence_end(ws) {
        close_state(sentence_state(ws, n))
    } else {
        close_state(count_state(ws, n))
    }
}

pub open spec fn distance(i: nat, center: nat) -> nat {
    if i < center {
        (center - i) as nat
    } else {
        (i - center) as nat
    }
}

/// Among the first `k` words, the index of the comma-ended word nearest `center`
/// (the first such word on a tie).
pub open spec fn closest_comma(ws: Seq<Seq<char>>, center: nat, k: nat) -> Option<nat>
    decreases k,
{
    if k == 0 {
        None
    } else {
        let prev = closest_comma(ws, center, (k - 1) as nat);
        let i = (k - 1) as nat;
        if ends_comma(ws[i as int]) && (prev is None || distance(i, center) < distance(
            prev->0,
            center,
        )) {
            Some(i)
        } else {
            prev
        }
    }
}

/// Among the first `k` words, the index of the connective nearest `center` (the first
/// such word on a tie).
pub open spec fn closest_break(ws: Seq<Seq<char>>, center: nat, k: nat) -> Option<nat>
    decreases k,
{
    if k == 0 {
        None
    } else {
        let prev = closest_break(ws, center, (k - 1) as nat);
        let i = (k - 1) as nat;
        if is_break_word(ws[i as int]) && (prev is None || distance(i, center) < distance(
            prev->0,
            center,
        )) {
            Some(i)
        } else {
            prev
        }
    }
}

/// Where a chunk of words is bisected, if anywhere: after the comma nearest its middle
/// (when commas may be used), else before the connective nearest its middle; a cut must
/// leave at least three words in front and one behind.
pub open spec fn cut_point(ws: Seq<Seq<char>>, use_comma: bool) -> Option<nat> {
    let center = ws.len() / 2;
    let pc = closest_comma(ws, center, ws.len());
    let pb = closest_break(ws, center, ws.len());
    if use_comma && pc is Some && 3 <= pc->0 + 1 < ws.len() {
        Some(pc->0 + 1)
    } else if pb is Some && 3 <= pb->0 < ws.len() {
        Some(pb->0)
    } else {
        None
    }
}

/// A chunk bisected recursively while it holds at least `threshold` words and a cut
/// point exists, down to depth 3.
pub open spec fn split_long(ws: Seq<Seq<char>>, threshold: nat, use_comma: bool, depth: nat) -> Seq<
    Seq<Seq<char>>,
>
    decreases 3 - depth,
{
    if depth >= CENTER_SPLIT_MAX_DEPTH || ws.len() < threshold {
        seq![ws]
    } else {
        match cut_point(ws, use_comma) {
            Some(p) => split_long(ws.take(p as int), threshold, use_comma, depth + 1) + split_long(
                ws.skip(p as int),
                threshold,
                use_comma,
                depth + 1,
            ),
            None => seq![ws],
        }
    }
}

/// The second pass over the first `k` chunks: each is bisected near its middle while
/// long; commas count only for the first two.
pub open spec fn center_pass(cs: Seq<Seq<Seq<char>>>, k: nat) -> Seq<Seq<Seq<char>>>
    decreases k,
{
    if k == 0 {
        seq![]
    } else {
        center_pass(cs, (k - 1) as nat) + split_long(
            cs[k - 1],
            CENTER_SPLIT_MIN_WORDS as nat,
            k - 1 < COMMA_SPLIT_CHUNKS,
            0,
        )
    }
}

/// A chunk of more than one word that ends in a connective hands it to the next chunk.
pub open spec fn migrate_at(cs: Seq<Seq<Seq<char>>>, i: int) -> Seq<Seq<Seq<char>>> {
    let c = cs[i];
    if i + 1 < cs.len() && c.len() > 1 && is_break_word(c.last()) {
        cs.update(i, c.drop_last()).update(i + 1, seq![c.last()] + cs[i + 1])
    } else {
        cs
    }
}

/// The third pass after its first `k` steps, taken from the first chunk onward.
pub open spec fn migrate_upto(cs: Seq<Seq<Seq<char>>>, k: nat) -> Seq<Seq<Seq<char>>>
    decreases k,
{
    if k == 0 {
        cs
    } else {
        migrate_at(migrate_upto(cs, (k - 1) as nat), k - 1)
    }
}

pub open spec fn migrate_pass(cs: Seq<Seq<Seq<char>>>) -> Seq<Seq<Seq<char>>> {
    if cs.len() == 0 {
        cs
    } else {
        migrate_upto(cs, (cs.len() - 1) as nat)
    }
}

/// The chunks of `text`, as word lists, for a target of `n` words per chunk.
pub open spec fn chunk_words(text: Seq<char>, n: nat) -> Seq<Seq<Seq<char>>> {
    let first = first_pass(words_of(text), n);
    migrate_pass(center_pass(first, first.len()))
}

/// The speech chunks of `text`, each its words joined by single spaces.
pub open spec fn speech_chunks(text: Seq<char>, n: nat) -> Seq<Seq<char>> {
    chunk_words(text, n).map_values(|c: Seq<Seq<char>>| join_words(c))
}


/// Relies on `regex::Regex::new` and `Regex::is_match`: this pattern compiles, and being
/// anchored at both ends it matches exactly the words that `is_numbered_item` describes.
#[verifier::external_body]
fn is_numbered_list_item(word: &str) -> (r: bool)
    ensures
        r == is_numbered_item(word@),
{
    Regex::new(r"^\(?[0-9]+[.\)\:],?$").unwrap().is_match(word)
}

fn word_is_numbered(w: &Vec<char>) -> (r: bool)
    ensures
        r == is_numbered_item(w@),
{
    let s = string_from_chars(w);
    is_numbered_list_item(s.as_str())
}

fn ends_with(w: &Vec<char>, c: char) -> (r: bool)
    ensures
        r == ends_with_char(w@, c),
{
    w.len() > 0 && w[w.len() - 1] == c
}

fn word_ends_hard(w: &Vec<char>) -> (r: bool)
    ensures
        r == ends_hard(w@),
{
    ends_with(w, '.') || ends_with(w, '!') || ends_with(w, '?') || ends_with(w, ':') || ends_with(
        w,
        ';',
    )
}

fn break_word_list() -> (r: Vec<Vec<char>>)
    ensures
        words_view(r@) == break_words(),
{
    let r = vec![
        vec!['a', 'n', 'd'],
        vec!['o', 'r'],
        vec!['b', 'u', 't'],
        vec!['&'],
        vec!['b', 'e', 'c', 'a', 'u', 's', 'e'],
        vec!['i', 'f'],
        vec!['s', 'i', 'n', 'c', 'e'],
        vec!['t', 'h', 'o', 'u', 'g', 'h'],
        vec!['a', 'l', 't', 'h', 'o', 'u', 'g', 'h'],
        vec!['h', 'o', 'w', 'e', 'v', 'e', 'r'],
        vec!['w', 'h', 'i', 'c', 'h'],
    ];
    assert(r@[0]@ =~= break_words()[0]);
    assert(r@[1]@ =~= break_words()[1]);
    assert(r@[2]@ =~= break_words()[2]);
    assert(r@[3]@ =~= break_words()[3]);
    assert(r@[4]@ =~= break_words()[4]);
    assert(r@[5]@ =~= break_words()[5]);
    assert(r@[6]@ =~= break_words()[6]);
    assert(r@[7]@ =~= break_words()[7]);
    assert(r@[8]@ =~= break_words()[8]);
    assert(r@[9]@ =~= break_words()[9]);
    assert(r@[10]@ =~= break_words()[10]);
    assert(words_view(r@) =~= break_words());
    r
}

fn lower_matches(w: &Vec<char>, t: &Vec<char>) -> (r: bool)
    ensures
        r == matches_lower(w@, t@),
{
    if w.len() != t.len() {
        return false;
    }
    let mut i: usize = 0;
    while i < w.len()
        invariant
            w@.len() == t@.len(),
            i <= w@.len(),
            forall|j: int| 0 <= j < i ==> char_matches_lower(w@[j], t@[j]),
        decreases w@.len() - i,
    {
        let c = w[i];
        let d = t[i];
        if !(c == d || ('a' <= d && d <= 'z' && c as u32 == d as u32 - 32)) {
            return false;
        }
        i = i + 1;
    }
    true
}

/// Tells whether a word is a connective, in any letter case.
fn is_connective(w: &Vec<char>, list: &Vec<Vec<char>>) -> (r: bool)
    requires
        words_view(list@) == break_words(),
    ensures
        r == is_break_word(w@),
{
    let mut k: usize = 0;
    while k < list.len()
        invariant
            words_view(list@) == break_words(),
            k <= list@.len(),
            forall|j: int| 0 <= j < k ==> !matches_lower(w@, #[trigger] break_words()[j]),
        decreases list@.len() - k,
    {
        if lower_matches(w, &list[k]) {
            assert(matches_lower(w@, break_words()[k as int]));
            return true;
        }
        k = k + 1;
    }
    false
}

fn has_sentence_end_words(ws: &Vec<Vec<char>>) -> (r: bool)
    ensures
        r == has_sentence_end(words_view(ws@)),
{
    let mut i: usize = 0;
    while i < ws.len()
        invariant
            i <= ws@.len(),
            forall|j: int| 0 <= j < i ==> !ends_hard(#[trigger] words_view(ws@)[j]),
        decreases ws@.len() - i,
    {
        if word_ends_hard(&ws[i]) {
            assert(ends_hard(words_view(ws@)[i as int]));
            return true;
        }
        i = i + 1;
    }
    false
}

fn push_chunk(done: &mut Vec<Vec<Vec<char>>>, c: Vec<Vec<char>>)
    ensures
        chunks_view(final(done)@) == chunks_view(old(done)@).push(words_view(c@)),
{
    let ghost prev = done@;
    done.push(c);
    assert(chunks_view(done@) =~= chunks_view(prev).push(words_view(c@)));
}

fn push_word(cur: &mut Vec<Vec<char>>, w: Vec<char>)
    ensures
        words_view(final(cur)@) == words_view(old(cur)@).push(w@),
{
    let ghost prev = cur@;
    cur.push(w);
    assert(words_view(cur@) =~= words_view(prev).push(w@));
}

/// The sentence pass: a chunk closes after a word ending a sentence, around a list
/// marker, and after a comma once it holds `n` words.
fn sentence_pass(ws: &Vec<Vec<char>>, n: usize) -> (r: Vec<Vec<Vec<char>>>)
    ensures
        chunks_view(r@) == close_state(sentence_state(words_view(ws@), n as nat)),
{
    let mut done: Vec<Vec<Vec<char>>> = Vec::new();
    let mut cur: Vec<Vec<char>> = Vec::new();
    for i in 0..ws.len()
        invariant
            sentence_state(words_view(ws@).take(i as int), n as nat) == (
            chunks_view(done@),
            words_view(cur@),
            ),
    {
        assert(words_view(ws@).take(i + 1).drop_last() =~= words_view(ws@).take(i as int));
        let w = copy_chars(&ws[i]);
        let numbered = word_is_numbered(&w);
        if numbered && cur.len() > 0 {
            push_chunk(&mut done, cur);
            cur = Vec::new();
            assert(words_view(cur@) =~= seq![]);
        }
        let hard = word_ends_hard(&w);
        let comma = ends_with(&w, ',');
        push_word(&mut cur, w);
        if hard || numbered || (comma && cur.len() >= n) {
            push_chunk(&mut done, cur);
            cur = Vec::new();
            assert(words_view(cur@) =~= seq![]);
        }
    }
    assert(words_view(ws@).take(ws@.len() as int) =~= words_view(ws@));
    if cur.len() > 0 {
        push_chunk(&mut done, cur);
    }
    done
}

/// The word-count pass: groups of `n` words, one word each when `n` is 0.
pub(crate) fn count_pass(ws: &Vec<Vec<char>>, n: usize) -> (r: Vec<Vec<Vec<char>>>)
    ensures
        chunks_view(r@) == close_state(count_state(words_view(ws@), n as nat)),
{
    let mut done: Vec<Vec<Vec<char>>> = Vec::new();
    let mut cur: Vec<Vec<char>> = Vec::new();
    for i in 0..ws.len()
        invariant
            count_state(words_view(ws@).take(i as int), n as nat) == (
            chunks_view(done@),
            words_view(cur@),
            ),
    {
        assert(words_view(ws@).take(i + 1).drop_last() =~= words_view(ws@).take(i as int));
        let w = copy_chars(&ws[i]);
        if cur.len() < n {
            push_word(&mut cur, w);
        } else {
            if cur.len() > 0 {
                push_chunk(&mut done, cur);
            }
            cur = Vec::new();
            push_word(&mut cur, w);
            assert(words_view(cur@) =~= seq![w@]);
        }
    }
    assert(words_view(ws@).take(ws@.len() as int) =~= words_view(ws@));
    if cur.len() > 0 {
        push_chunk(&mut done, cur);
    }
    done
}


/// The words of a list of chunks, in order.
pub open spec fn flatten(cs: Seq<Seq<Seq<char>>>) -> Seq<Seq<char>>
    decreases cs.len(),
{
    if cs.len() == 0 {
        seq![]
    } else {
        flatten(cs.drop_last()) + cs.last()
    }
}

/// Every chunk holds at least one word.
pub open spec fn all_nonempty(cs: Seq<Seq<Seq<char>>>) -> bool {
    forall|i: int| 0 <= i < cs.len() ==> (#[trigger] cs[i]).len() > 0
}

proof fn lemma_flatten_push(cs: Seq<Seq<Seq<char>>>, c: Seq<Seq<char>>)
    ensures
        flatten(cs.push(c)) == flatten(cs) + c,
{
    assert(cs.push(c).drop_last() =~= cs);
}

proof fn lemma_flatten_concat(a: Seq<Seq<Seq<char>>>, b: Seq<Seq<Seq<char>>>)
    ensures
        flatten(a + b) == flatten(a) + flatten(b),
    decreases b.len(),
{
    if b.len() == 0 {
        assert(a + b =~= a);
        assert(flatten(a) + flatten(b) =~= flatten(a));
    } else {
        lemma_flatten_concat(a, b.drop_last());
        assert((a + b).drop_last() =~= a + b.drop_last());
        assert(flatten(a) + (flatten(b.drop_last()) + b.last()) =~= (flatten(a) + flatten(
            b.drop_last(),
        )) + b.last());
    }
}

proof fn lemma_close_state(st: (Seq<Seq<Seq<char>>>, Seq<Seq<char>>))
    ensures
        flatten(close_state(st)) == flatten(st.0) + st.1,
        all_nonempty(st.0) ==> all_nonempty(close_state(st)),
{
    if st.1.len() > 0 {
        lemma_flatten_push(st.0, st.1);
    } else {
        assert(flatten(st.0) + st.1 =~= flatten(st.0));
    }
}

proof fn lemma_sentence_state(ws: Seq<Seq<char>>, n: nat)
    ensures
        flatten(sentence_state(ws, n).0) + sentence_state(ws, n).1 == ws,
        all_nonempty(sentence_state(ws, n).0),
    decreases ws.len(),
{
    if ws.len() == 0 {
        assert(flatten(Seq::<Seq<Seq<char>>>::empty()) + Seq::<Seq<char>>::empty() =~= ws);
    } else {
        let prev = ws.drop_last();
        lemma_sentence_state(prev, n);
        let st = sentence_state(prev, n);
        let w = ws.last();
        assert(prev.push(w) =~= ws);
        let numbered = is_numbered_item(w);
        let done = if numbered && st.1.len() > 0 {
            st.0.push(st.1)
        } else {
            st.0
        };
        let cur = if numbered && st.1.len() > 0 {
            seq![w]
        } else {
            st.1.push(w)
        };
        if numbered && st.1.len() > 0 {
            lemma_flatten_push(st.0, st.1);
            assert(flatten(done) + cur =~= ws);
        } else {
            assert(flatten(done) + cur =~= ws);
        }
        assert(all_nonempty(done));
        if ends_hard(w) || numbered || (ends_comma(w) && cur.len() >= n) {
            lemma_flatten_push(done, cur);
            assert(flatten(done.push(cur)) + Seq::<Seq<char>>::empty() =~= ws);
            assert(all_nonempty(done.push(cur)));
        }
    }
}

proof fn lemma_count_state(ws: Seq<Seq<char>>, n: nat)
    ensures
        flatten(count_state(ws, n).0) + count_state(ws, n).1 == ws,
        all_nonempty(count_state(ws, n).0),
    decreases ws.len(),
{
    if ws.len() == 0 {
        assert(flatten(Seq::<Seq<Seq<char>>>::empty()) + Seq::<Seq<char>>::empty() =~= ws);
    } else {
        let prev = ws.drop_last();
        lemma_count_state(prev, n);
        let st = count_state(prev, n);
        let w = ws.last();
        assert(prev.push(w) =~= ws);
        if st.1.len() + 1 <= n {
            assert(flatten(st.0) + st.1.push(w) =~= ws);
        } else if st.1.len() > 0 {
            lemma_flatten_push(st.0, st.1);
            assert(flatten(st.0.push(st.1)) + seq![w] =~= ws);
            assert(all_nonempty(st.0.push(st.1)));
        } else {
            assert(flatten(st.0) + seq![w] =~= ws);
        }
    }
}

proof fn lemma_first_pass(ws: Seq<Seq<char>>, n: nat)
    ensures
        flatten(first_pass(ws, n)) == ws,
        all_nonempty(first_pass(ws, n)),
{
    lemma_sentence_state(ws, n);
    lemma_count_state(ws, n);
    lemma_close_state(sentence_state(ws, n));
    lemma_close_state(count_state(ws, n));
}

proof fn lemma_split_long(ws: Seq<Seq<char>>, threshold: nat, use_comma: bool, depth: nat)
    requires
        ws.len() > 0,
    ensures
        flatten(split_long(ws, threshold, use_comma, depth)) == ws,
        all_nonempty(split_long(ws, threshold, use_comma, depth)),
    decreases 3 - depth,
{
    lemma_flatten_push(Seq::<Seq<Seq<char>>>::empty(), ws);
    assert(Seq::<Seq<Seq<char>>>::empty().push(ws) =~= seq![ws]);
    assert(Seq::<Seq<char>>::empty() + ws =~= ws);
    if !(depth >= CENTER_SPLIT_MAX_DEPTH || ws.len() < threshold) {
        match cut_point(ws, use_comma) {
            Some(p) => {
                let a = ws.take(p as int);
                let b = ws.skip(p as int);
                lemma_split_long(a, threshold, use_comma, depth + 1);
                lemma_split_long(b, threshold, use_comma, depth + 1);
                let sa = split_long(a, threshold, use_comma, depth + 1);
                let sb = split_long(b, threshold, use_comma, depth + 1);
                lemma_flatten_concat(sa, sb);
                assert(a + b =~= ws);
                assert forall|i: int| 0 <= i < (sa + sb).len() implies (#[trigger] (sa
                    + sb)[i]).len() > 0 by {
                    if i >= sa.len() {
                        assert((sa + sb)[i] == sb[i - sa.len()]);
                    }
                }
            },
            None => {},
        }
    }
}

proof fn lemma_center_pass(cs: Seq<Seq<Seq<char>>>, k: nat)
    requires
        k <= cs.len(),
        all_nonempty(cs),
    ensures
        flatten(center_pass(cs, k)) == flatten(cs.take(k as int)),
        all_nonempty(center_pass(cs, k)),
    decreases k,
{
    if k == 0 {
        assert(cs.take(0) =~= Seq::<Seq<Seq<char>>>::empty());
    } else {
        lemma_center_pass(cs, (k - 1) as nat);
        let prev = center_pass(cs, (k - 1) as nat);
        let c = cs[k - 1];
        let pieces = split_long(c, CENTER_SPLIT_MIN_WORDS as nat, k - 1 < COMMA_SPLIT_CHUNKS, 0);
        lemma_split_long(c, CENTER_SPLIT_MIN_WORDS as nat, k - 1 < COMMA_SPLIT_CHUNKS, 0);
        lemma_flatten_concat(prev, pieces);
        assert(cs.take(k as int).drop_last() =~= cs.take(k - 1));
        assert forall|i: int| 0 <= i < (prev + pieces).len() implies (#[trigger] (prev
            + pieces)[i]).len() > 0 by {
            if i >= prev.len() {
                assert((prev + pieces)[i] == pieces[i - prev.len()]);
            }
        }
    }
}

proof fn lemma_flatten_split(cs: Seq<Seq<Seq<char>>>, i: int)
    requires
        0 <= i,
        i + 1 < cs.len(),
    ensures
        flatten(cs) == flatten(cs.take(i)) + (cs[i] + cs[i + 1]) + flatten(cs.skip(i + 2)),
{
    let a = cs.take(i);
    let mid = seq![cs[i], cs[i + 1]];
    let b = cs.skip(i + 2);
    assert(cs =~= a + mid + b);
    lemma_flatten_concat(a + mid, b);
    lemma_flatten_concat(a, mid);
    lemma_flatten_push(seq![cs[i]], cs[i + 1]);
    lemma_flatten_push(Seq::<Seq<Seq<char>>>::empty(), cs[i]);
    assert(Seq::<Seq<Seq<char>>>::empty().push(cs[i]) =~= seq![cs[i]]);
    assert(seq![cs[i]].push(cs[i + 1]) =~= mid);
    assert(Seq::<Seq<char>>::empty() + cs[i] =~= cs[i]);
}

proof fn lemma_migrate_at(cs: Seq<Seq<Seq<char>>>, i: int)
    requires
        0 <= i < cs.len(),
        all_nonempty(cs),
    ensures
        migrate_at(cs, i).len() == cs.len(),
        flatten(migrate_at(cs, i)) == flatten(cs),
        all_nonempty(migrate_at(cs, i)),
{
    let c = cs[i];
    if i + 1 < cs.len() && c.len() > 1 && is_break_word(c.last()) {
        let m = migrate_at(cs, i);
        lemma_flatten_split(cs, i);
        lemma_flatten_split(m, i);
        assert(m.take(i) =~= cs.take(i));
        assert(m.skip(i + 2) =~= cs.skip(i + 2));
        assert(c.drop_last() + (seq![c.last()] + cs[i + 1]) =~= c + cs[i + 1]);
        assert forall|j: int| 0 <= j < m.len() implies (#[trigger] m[j]).len() > 0 by {
            if j != i && j != i + 1 {
                assert(m[j] == cs[j]);
            }
        }
    }
}

proof fn lemma_migrate_upto(cs: Seq<Seq<Seq<char>>>, k: nat)
    requires
        k < cs.len() || (k == 0),
        all_nonempty(cs),
    ensures
        migrate_upto(cs, k).len() == cs.len(),
        flatten(migrate_upto(cs, k)) == flatten(cs),
        all_nonempty(migrate_upto(cs, k)),
    decreases k,
{
    if k > 0 {
        lemma_migrate_upto(cs, (k - 1) as nat);
        lemma_migrate_at(migrate_upto(cs, (k - 1) as nat), k - 1);
    }
}

/// Splitting loses, adds and reorders no word: the chunks, read in order, hold exactly
/// the words of the text, and every chunk holds at least one word.
pub proof fn lemma_chunks_keep_words(text: Seq<char>, n: nat)
    ensures
        flatten(chunk_words(text, n)) == words_of(text),
        all_nonempty(chunk_words(text, n)),
        forall|i: int|
            0 <= i < speech_chunks(text, n).len() ==> (#[trigger] speech_chunks(text, n)[i]).len()
                > 0,
{
    let ws = words_of(text);
    lemma_first_pass(ws, n);
    let first = first_pass(ws, n);
    lemma_center_pass(first, first.len());
    assert(first.take(first.len() as int) =~= first);
    let second = center_pass(first, first.len());
    if second.len() > 0 {
        lemma_migrate_upto(second, (second.len() - 1) as nat);
    }
    lemma_words_nonempty(text);
    let cw = chunk_words(text, n);
    assert forall|i: int| 0 <= i < speech_chunks(text, n).len() implies (
    #[trigger] speech_chunks(text, n)[i]).len() > 0 by {
        lemma_flatten_has(cw, i);
        assert(cw[i].len() > 0);
        assert(flatten(cw).contains(cw[i][0]));
        assert(cw[i][0].len() > 0);
        lemma_join_nonempty(cw[i]);
    }
}

proof fn lemma_flatten_has(cs: Seq<Seq<Seq<char>>>, i: int)
    requires
        0 <= i < cs.len(),
    ensures
        forall|j: int| 0 <= j < cs[i].len() ==> flatten(cs).contains(#[trigger] cs[i][j]),
    decreases cs.len(),
{
    let prev = cs.drop_last();
    if i < cs.len() - 1 {
        lemma_flatten_has(prev, i);
        assert forall|j: int| 0 <= j < cs[i].len() implies flatten(cs).contains(
            #[trigger] cs[i][j],
        ) by {
            let k = choose|k: int| 0 <= k < flatten(prev).len() && flatten(prev)[k] == prev[i][j];
            assert(flatten(cs)[k] == flatten(prev)[k]);
        }
    } else {
        assert forall|j: int| 0 <= j < cs[i].len() implies flatten(cs).contains(
            #[trigger] cs[i][j],
        ) by {
            assert(flatten(cs)[flatten(prev).len() + j] == cs.last()[j]);
        }
    }
}

proof fn lemma_join_nonempty(ws: Seq<Seq<char>>)
    requires
        ws.len() > 0,
        ws[0].len() > 0,
    ensures
        join_words(ws).len() > 0,
    decreases ws.len(),
{
    if ws.len() > 1 {
        lemma_join_nonempty(ws.drop_last());
    }
}

proof fn lemma_count_state_short(ws: Seq<Seq<char>>, n: nat)
    requires
        1 <= ws.len() <= n,
    ensures
        count_state(ws, n) == (Seq::<Seq<Seq<char>>>::empty(), ws),
    decreases ws.len(),
{
    if ws.len() == 1 {
        assert(ws.drop_last() =~= Seq::<Seq<char>>::empty());
        assert(count_state(ws.drop_last(), n) == (
            Seq::<Seq<Seq<char>>>::empty(),
            Seq::<Seq<char>>::empty(),
        ));
        assert(seq![ws.last()] =~= ws);
        assert(Seq::<Seq<char>>::empty().push(ws.last()) =~= ws);
    } else {
        lemma_count_state_short(ws.drop_last(), n);
        assert(ws.drop_last().push(ws.last()) =~= ws);
    }
}

proof fn lemma_no_comma(ws: Seq<Seq<char>>, center: nat, k: nat)
    requires
        k <= ws.len(),
        forall|i: int| 0 <= i < ws.len() ==> !ends_comma(#[trigger] ws[i]),
    ensures
        closest_comma(ws, center, k) is None,
    decreases k,
{
    if k > 0 {
        lemma_no_comma(ws, center, (k - 1) as nat);
    }
}

proof fn lemma_no_break(ws: Seq<Seq<char>>, center: nat, k: nat)
    requires
        k <= ws.len(),
        forall|i: int| 0 <= i < ws.len() ==> !is_break_word(#[trigger] ws[i]),
    ensures
        closest_break(ws, center, k) is None,
    decreases k,
{
    if k > 0 {
        lemma_no_break(ws, center, (k - 1) as nat);
    }
}

/// Text of one to `n` words where no word ends in punctuation (`. ! ? : ; ,`) comes
/// back as exactly one chunk, its words joined by single spaces, when it is shorter than
/// twelve words or holds no connective (longer text is bisected at a connective).
pub proof fn lemma_short_text_single_chunk(text: Seq<char>, n: nat)
    requires
        1 <= words_of(text).len() <= n,
        forall|i: int|
            0 <= i < words_of(text).len() ==> !ends_hard(#[trigger] words_of(text)[i])
                && !ends_comma(words_of(text)[i]),
        words_of(text).len() < CENTER_SPLIT_MIN_WORDS || forall|i: int|
            0 <= i < words_of(text).len() ==> !is_break_word(#[trigger] words_of(text)[i]),
    ensures
        speech_chunks(text, n) == seq![join_words(words_of(text))],
{
    let ws = words_of(text);
    assert(!has_sentence_end(ws));
    lemma_count_state_short(ws, n);
    let first = first_pass(ws, n);
    assert(first =~= seq![ws]);
    let center = ws.len() / 2;
    lemma_no_comma(ws, center, ws.len());
    if ws.len() >= CENTER_SPLIT_MIN_WORDS {
        lemma_no_break(ws, center, ws.len());
    }
    assert(split_long(ws, CENTER_SPLIT_MIN_WORDS as nat, true, 0) == seq![ws]);
    assert(center_pass(first, 0) =~= Seq::<Seq<Seq<char>>>::empty());
    assert(center_pass(first, 1) =~= seq![ws]);
    assert(migrate_pass(seq![ws]) == seq![ws]);
    assert(chunk_words(text, n) == seq![ws]);
    assert(speech_chunks(text, n) =~= seq![join_words(ws)]);
}

/// The index just past the comma-ended word nearest `center`, if any word ends in a comma.
fn find_closest_punctuation(words: &Vec<Vec<char>>, center: usize) -> (r: Option<usize>)
    ensures
        match closest_comma(words_view(words@), center as nat, words@.len() as nat) {
            Some(i) => r is Some && r->0 == i + 1,
            None => r is None,
        },
{
    let mut closest: Option<usize> = None;
    let mut min_distance: usize = 0;
    for i in 0..words.len()
        invariant
            closest_comma(words_view(words@), center as nat, i as nat) == match closest {
                Some(j) => Some(j as nat),
                None => None::<nat>,
            },
            closest is Some ==> closest->0 < i && min_distance == distance(
                closest->0 as nat,
                center as nat,
            ),
    {
        if ends_with(&words[i], ',') {
            let d = if i < center {
                center - i
            } else {
                i - center
            };
            if closest.is_none() || d < min_distance {
                min_distance = d;
                closest = Some(i);
            }
        }
    }
    match closest {
        Some(j) => Some(j + 1),
        None => None,
    }
}

/// The index of the connective nearest `center`, if any word is one.
fn find_closest_break_word(words: &Vec<Vec<char>>, center: usize, list: &Vec<Vec<char>>) -> (r:
    Option<usize>)
    requires
        words_view(list@) == break_words(),
    ensures
        match closest_break(words_view(words@), center as nat, words@.len() as nat) {
            Some(i) => r is Some && r->0 == i,
            None => r is None,
        },
{
    let mut closest: Option<usize> = None;
    let mut min_distance: usize = 0;
    for i in 0..words.len()
        invariant
            words_view(list@) == break_words(),
            closest_break(words_view(words@), center as nat, i as nat) == match closest {
                Some(j) => Some(j as nat),
                None => None::<nat>,
            },
            closest is Some ==> closest->0 < i && min_distance == distance(
                closest->0 as nat,
                center as nat,
            ),
    {
        if is_connective(&words[i], list) {
            let d = if i < center {
                center - i
            } else {
                i - center
            };
            if closest.is_none() || d < min_distance {
                min_distance = d;
                closest = Some(i);
            }
        }
    }
    closest
}

fn append_chunks(r: &mut Vec<Vec<Vec<char>>>, more: Vec<Vec<Vec<char>>>)
    ensures
        chunks_view(final(r)@) == chunks_view(old(r)@) + chunks_view(more@),
{
    let mut more = more;
    let ghost a = r@;
    let ghost b = more@;
    r.append(&mut more);
    assert(chunks_view(r@) =~= chunks_view(a) + chunks_view(b));
}

/// Bisects a long chunk near its middle, recursively, as `split_long` describes.
fn split_long_chunk_with_depth(
    words: &Vec<Vec<char>>,
    threshold: usize,
    use_punctuation: bool,
    depth: usize,
    list: &Vec<Vec<char>>,
) -> (r: Vec<Vec<Vec<char>>>)
    requires
        words_view(list@) == break_words(),
    ensures
        chunks_view(r@) == split_long(
            words_view(words@),
            threshold as nat,
            use_punctuation,
            depth as nat,
        ),
    decreases 3 - depth,
{
    let ghost ws = words_view(words@);
    if depth >= CENTER_SPLIT_MAX_DEPTH || words.len() < threshold {
        let mut r: Vec<Vec<Vec<char>>> = Vec::new();
        push_chunk(&mut r, copy_words(words, 0, words.len()));
        assert(ws.subrange(0, ws.len() as int) =~= ws);
        assert(chunks_view(r@) =~= seq![ws]);
        return r;
    }
    let center = words.len() / 2;
    assert(ws.len() == words@.len());
    assert(center as nat == ws.len() / 2);
    let ghost pc = closest_comma(ws, center as nat, ws.len());
    let ghost pb = closest_break(ws, center as nat, ws.len());
    let mut cut: Option<usize> = None;
    if use_punctuation {
        let found = find_closest_punctuation(words, center);
        assert(found is Some <==> pc is Some);
        assert(found is Some ==> found->0 == pc->0 + 1);
        match found {
            Some(pos) => {
                if pos >= 3 && pos < words.len() {
                    cut = Some(pos);
                }
            },
            None => {},
        }
    }
    assert(cut is Some ==> use_punctuation && pc is Some && 3 <= pc->0 + 1 < ws.len() && cut->0
        == pc->0 + 1);
    assert(cut is None ==> !(use_punctuation && pc is Some && 3 <= pc->0 + 1 < ws.len()));
    if cut.is_none() {
        let found = find_closest_break_word(words, center, list);
        assert(found is Some <==> pb is Some);
        assert(found is Some ==> found->0 == pb->0);
        match found {
            Some(pos) => {
                if pos >= 3 && pos < words.len() {
                    cut = Some(pos);
                }
            },
            None => {},
        }
    }
    match cut {
        Some(pos) => {
            assert(cut_point(ws, use_punctuation) == Some(pos as nat));
            let first = copy_words(words, 0, pos);
            let second = copy_words(words, pos, words.len());
            assert(words_view(first@) =~= ws.take(pos as int));
            assert(words_view(second@) =~= ws.skip(pos as int));
            let mut r = split_long_chunk_with_depth(
                &first,
                threshold,
                use_punctuation,
                depth + 1,
                list,
            );
            let rest = split_long_chunk_with_depth(
                &second,
                threshold,
                use_punctuation,
                depth + 1,
                list,
            );
            append_chunks(&mut r, rest);
            r
        },
        None => {
            assert(cut_point(ws, use_punctuation) is None);
            let mut r: Vec<Vec<Vec<char>>> = Vec::new();
            push_chunk(&mut r, copy_words(words, 0, words.len()));
            assert(ws.subrange(0, ws.len() as int) =~= ws);
            assert(chunks_view(r@) =~= seq![ws]);
            r
        },
    }
}

/// The second pass: every chunk bisected near its middle while long.
fn center_split_pass(cs: &Vec<Vec<Vec<char>>>, list: &Vec<Vec<char>>) -> (r: Vec<
    Vec<Vec<char>>,
>)
    requires
        words_view(list@) == break_words(),
    ensures
        chunks_view(r@) == center_pass(chunks_view(cs@), cs@.len() as nat),
{
    let mut r: Vec<Vec<Vec<char>>> = Vec::new();
    for i in 0..cs.len()
        invariant
            words_view(list@) == break_words(),
            chunks_view(r@) == center_pass(chunks_view(cs@), i as nat),
    {
        let pieces = split_long_chunk_with_depth(
            &cs[i],
            CENTER_SPLIT_MIN_WORDS,
            i < COMMA_SPLIT_CHUNKS,
            0,
            list,
        );
        append_chunks(&mut r, pieces);
    }
    r
}

/// `w` followed by the words of `c`.
fn prepend_word(w: Vec<char>, c: &Vec<Vec<char>>) -> (r: Vec<Vec<char>>)
    ensures
        words_view(r@) == seq![w@] + words_view(c@),
{
    let mut r: Vec<Vec<char>> = Vec::new();
    push_word(&mut r, w);
    let mut rest = copy_words(c, 0, c.len());
    let ghost a = r@;
    let ghost b = rest@;
    r.append(&mut rest);
    assert(words_view(c@).subrange(0, c@.len() as int) =~= words_view(c@));
    assert(words_view(r@) =~= words_view(a) + words_view(b));
    r
}

/// The third pass: a chunk that ends in a connective hands it to the next chunk.
fn migrate_break_words(cs: Vec<Vec<Vec<char>>>, list: &Vec<Vec<char>>) -> (r: Vec<
    Vec<Vec<char>>,
>)
    requires
        words_view(list@) == break_words(),
    ensures
        chunks_view(r@) == migrate_pass(chunks_view(cs@)),
{
    let mut cs = cs;
    if cs.len() == 0 {
        return cs;
    }
    let ghost orig = chunks_view(cs@);
    let len = cs.len();
    for i in 0..len - 1
        invariant
            words_view(list@) == break_words(),
            len == cs@.len(),
            len > 0,
            chunks_view(cs@) == migrate_upto(orig, i as nat),
    {
        let n = cs[i].len();
        if n > 1 && is_connective(&cs[i][n - 1], list) {
            let ghost before = chunks_view(cs@);
            let last = copy_chars(&cs[i][n - 1]);
            let head = copy_words(&cs[i], 0, n - 1);
            let next = prepend_word(last, &cs[i + 1]);
            cs[i] = head;
            cs[i + 1] = next;
            assert(chunks_view(cs@) =~= migrate_at(before, i as int));
        }
    }
    cs
}

/// Splits text into speech-ready chunks of about `words_per_chunk` words.
///
/// Chunks close at sentence punctuation (`. ! ? : ;`), around list markers, and at a
/// comma once the chunk holds `words_per_chunk` words; text without sentence
/// punctuation is cut every `words_per_chunk` words instead. Chunks of twelve or more
/// words are then bisected near their middle, and a connective left at the end of a
/// chunk moves to the front of the next one. Text without words gives no chunks.
pub fn split_text_into_speech_chunks(text: &str, words_per_chunk: usize) -> (r: Vec<String>)
    ensures
        r@.map_values(|s: String| s@) == speech_chunks(text@, words_per_chunk as nat),
        forall|i: int| 0 <= i < r@.len() ==> (#[trigger] r@[i])@.len() > 0,
{
    proof {
        lemma_chunks_keep_words(text@, words_per_chunk as nat);
    }
    let chars = chars_of(text);
    let words = split_words(&chars);
    let first = if has_sentence_end_words(&words) {
        sentence_pass(&words, words_per_chunk)
    } else {
        count_pass(&words, words_per_chunk)
    };
    let list = break_word_list();
    let second = center_split_pass(&first, &list);
    let third = migrate_break_words(second, &list);
    let ghost cw = chunks_view(third@);
    let mut out: Vec<String> = Vec::new();
    for i in 0..third.len()
        invariant
            cw == chunks_view(third@),
            out@.len() == i,
            forall|j: int| 0 <= j < i ==> (#[trigger] out@[j])@ == join_words(cw[j]),
    {
        let s = string_from_chars(&join_with_spaces(&third[i]));
        assert(s@ == join_words(cw[i as int]));
        out.push(s);
    }
    assert(out@.map_values(|s: String| s@) =~= cw.map_values(|c: Seq<Seq<char>>| join_words(c)));
    assert forall|i: int| 0 <= i < out@.len() implies (#[trigger] out@[i])@.len() > 0 by {
        assert(out@[i]@ == speech_chunks(text@, words_per_chunk as nat)[i]);
    }
    out
}

} // verus!
