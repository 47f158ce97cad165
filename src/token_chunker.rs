use vstd::prelude::*;
use crate::clauses::{is_sentence_stop, trim, trim_chars, trimmed_nonblank};
use crate::text::{
    chars_of, copy_chars, lemma_word_of_words, lemma_words_spaced, split_words, string_from_chars,
    words_of, words_view,
};

verus! {

/// What the chunker waits for.
#[derive(PartialEq, Eq, Structural, Debug, Clone, Copy)]
pub enum Phase {
    /// The token count of the current sentence.
    Sentence,
    /// The token count of the open chunk with the current sentence appended.
    Append,
    /// The token count of the word chunk with the next word appended.
    Word,
    /// Nothing: every sentence is placed.
    Done,
}

/// The chunker's state in mathematical terms.
pub struct TokenChunkState {
    pub sentences: Seq<Seq<char>>,
    pub max: nat,
    pub next: nat,
    pub chunks: Seq<Seq<char>>,
    pub current: Seq<char>,
    pub words: Seq<Seq<char>>,
    pub next_word: nat,
    pub word_chunk: Seq<char>,
    pub pending: Seq<char>,
    pub phase: Phase,
}

/// The pieces of `s` between `.`, `?`, `!` and `;`, empty ones included.
pub open spec fn split_at_ends(s: Seq<char>) -> Seq<Seq<char>>
    decreases s.len(),
{
    if s.len() == 0 {
        seq![seq![]]
    } else {
        let p = split_at_ends(s.drop_last());
        if is_sentence_stop(s.last()) || s.last() == ';' {
            p.push(seq![])
        } else {
            p.update(p.len() - 1, p.last().push(s.last()))
        }
    }
}

/// The sentences of `text`, trimmed, non-blank, each closed with a period.
pub open spec fn token_sentences(text: Seq<char>) -> Seq<Seq<char>> {
    trimmed_nonblank(split_at_ends(text)).map_values(|s: Seq<char>| s.push('.'))
}

/// `a` and `b` joined by a space, or `b` alone when `a` is empty.
pub open spec fn extend(a: Seq<char>, b: Seq<char>) -> Seq<char> {
    if a.len() == 0 {
        b
    } else {
        a + seq![' '] + b
    }
}

/// Moves on to the next sentence, or closes the open chunk when none is left.
pub open spec fn advance(s: TokenChunkState) -> TokenChunkState {
    if s.next >= s.sentences.len() {
        TokenChunkState {
            chunks: if s.current.len() > 0 {
                s.chunks.push(s.current)
            } else {
                s.chunks
            },
            current: seq![],
            pending: seq![],
            phase: Phase::Done,
            ..s
        }
    } else {
        TokenChunkState { pending: s.sentences[s.next as int], phase: Phase::Sentence, ..s }
    }
}

/// Asks for the next word of a long sentence, or closes its word chunk and moves on.
pub open spec fn next_word_step(s: TokenChunkState) -> TokenChunkState {
    if s.next_word < s.words.len() {
        TokenChunkState {
            pending: extend(s.word_chunk, s.words[s.next_word as int]),
            phase: Phase::Word,
            ..s
        }
    } else {
        advance(
            TokenChunkState {
                chunks: if s.word_chunk.len() > 0 {
                    s.chunks.push(s.word_chunk)
                } else {
                    s.chunks
                },
                word_chunk: seq![],
                next: s.next + 1,
                ..s
            },
        )
    }
}

/// The state after the awaited text turned out to have `n` tokens. A sentence over the
/// limit closes the open chunk and is cut word by word, its pieces closed as they fill;
/// a sentence within the limit joins the open chunk while the two together stay within
/// it. Chunks close in text order.
pub open spec fn step(s: TokenChunkState, n: nat) -> TokenChunkState {
    match s.phase {
        Phase::Sentence => {
            let sentence = s.sentences[s.next as int];
            if n > s.max {
                next_word_step(
                    TokenChunkState {
                        chunks: if s.current.len() > 0 {
                            s.chunks.push(s.current)
                        } else {
                            s.chunks
                        },
                        current: seq![],
                        words: words_of(sentence),
                        next_word: 0,
                        word_chunk: seq![],
                        ..s
                    },
                )
            } else if s.current.len() > 0 {
                TokenChunkState {
                    pending: s.current + seq![' '] + sentence,
                    phase: Phase::Append,
                    ..s
                }
            } else {
                advance(TokenChunkState { current: sentence, next: s.next + 1, ..s })
            }
        },
        Phase::Append => {
            if n > s.max {
                advance(
                    TokenChunkState {
                        chunks: s.chunks.push(s.current),
                        current: s.sentences[s.next as int],
                        next: s.next + 1,
                        ..s
                    },
                )
            } else {
                advance(TokenChunkState { current: s.pending, next: s.next + 1, ..s })
            }
        },
        Phase::Word => {
            let w = s.words[s.next_word as int];
            if n > s.max {
                next_word_step(
                    TokenChunkState {
                        chunks: if s.word_chunk.len() > 0 {
                            s.chunks.push(s.word_chunk)
                        } else {
                            s.chunks
                        },
                        word_chunk: w,
                        next_word: s.next_word + 1,
                        ..s
                    },
                )
            } else {
                next_word_step(
                    TokenChunkState { word_chunk: s.pending, next_word: s.next_word + 1, ..s },
                )
            }
        },
        Phase::Done => s,
    }
}

/// The state before any count: the first sentence awaited.
pub open spec fn initial(text: Seq<char>, max: nat) -> TokenChunkState {
    advance(
        TokenChunkState {
            sentences: token_sentences(text),
            max,
            next: 0,
            chunks: seq![],
            current: seq![],
            words: seq![],
            next_word: 0,
            word_chunk: seq![],
            pending: seq![],
            phase: Phase::Sentence,
        },
    )
}

/// The words of a list of texts, in order.
pub open spec fn words_in(ts: Seq<Seq<char>>) -> Seq<Seq<char>>
    decreases ts.len(),
{
    if ts.len() == 0 {
        seq![]
    } else {
        words_in(ts.drop_last()) + words_of(ts.last())
    }
}

/// The closed chunks, then the open one, hold exactly the words of the sentences placed
/// so far, in order.
pub open spec fn placed_in_order(s: TokenChunkState) -> bool {
    words_in(s.chunks) + words_of(s.current) == words_in(s.sentences.take(s.next as int))
}

/// The states the chunker passes through: what is awaited matches the phase, and no
/// word has been lost, added or moved.
pub open spec fn keeps_order(s: TokenChunkState) -> bool {
    &&& s.next <= s.sentences.len()
    &&& match s.phase {
        Phase::Sentence => s.next < s.sentences.len() && s.pending == s.sentences[s.next as int]
            && placed_in_order(s),
        Phase::Append => s.next < s.sentences.len() && s.pending == s.current + seq![' ']
            + s.sentences[s.next as int] && placed_in_order(s),
        Phase::Word => {
            &&& s.next < s.sentences.len()
            &&& s.current.len() == 0
            &&& s.words == words_of(s.sentences[s.next as int])
            &&& s.next_word < s.words.len()
            &&& s.pending == extend(s.word_chunk, s.words[s.next_word as int])
            &&& words_in(s.chunks) + words_of(s.word_chunk) == words_in(
                s.sentences.take(s.next as int),
            ) + s.words.take(s.next_word as int)
        },
        Phase::Done => s.next == s.sentences.len() && s.current.len() == 0 && words_in(s.chunks)
            == words_in(s.sentences),
    }
}

proof fn lemma_words_in_push(ts: Seq<Seq<char>>, t: Seq<char>)
    ensures
        words_in(ts.push(t)) == words_in(ts) + words_of(t),
{
    assert(ts.push(t).drop_last() =~= ts);
}

proof fn lemma_words_in_take(ss: Seq<Seq<char>>, k: int)
    requires
        0 <= k < ss.len(),
    ensures
        words_in(ss.take(k + 1)) == words_in(ss.take(k)) + words_of(ss[k]),
{
    assert(ss.take(k + 1).drop_last() =~= ss.take(k));
}

proof fn lemma_extend_words(a: Seq<char>, b: Seq<char>)
    ensures
        words_of(extend(a, b)) == words_of(a) + words_of(b),
{
    if a.len() == 0 {
        assert(words_of(a) + words_of(b) =~= words_of(b));
    } else {
        lemma_words_spaced(a, b);
    }
}

proof fn lemma_empty_words()
    ensures
        words_of(Seq::<char>::empty()) == Seq::<Seq<char>>::empty(),
{
}

proof fn lemma_advance(s: TokenChunkState)
    requires
        s.next <= s.sentences.len(),
        placed_in_order(s),
    ensures
        keeps_order(advance(s)),
{
    lemma_empty_words();
    if s.next >= s.sentences.len() {
        assert(s.sentences.take(s.sentences.len() as int) =~= s.sentences);
        if s.current.len() > 0 {
            lemma_words_in_push(s.chunks, s.current);
        } else {
            assert(words_in(s.chunks) + words_of(s.current) =~= words_in(s.chunks));
        }
    }
}

proof fn lemma_next_word_step(s: TokenChunkState)
    requires
        s.next < s.sentences.len(),
        s.current.len() == 0,
        s.words == words_of(s.sentences[s.next as int]),
        s.next_word <= s.words.len(),
        words_in(s.chunks) + words_of(s.word_chunk) == words_in(s.sentences.take(s.next as int))
            + s.words.take(s.next_word as int),
    ensures
        keeps_order(next_word_step(s)),
{
    lemma_empty_words();
    if s.next_word >= s.words.len() {
        let chunks = if s.word_chunk.len() > 0 {
            s.chunks.push(s.word_chunk)
        } else {
            s.chunks
        };
        if s.word_chunk.len() > 0 {
            lemma_words_in_push(s.chunks, s.word_chunk);
        } else {
            assert(words_in(s.chunks) + words_of(s.word_chunk) =~= words_in(s.chunks));
        }
        lemma_words_in_take(s.sentences, s.next as int);
        assert(s.words.take(s.next_word as int) =~= s.words);
        assert(words_in(chunks) + words_of(Seq::<char>::empty()) =~= words_in(chunks));
        let t = TokenChunkState { chunks, word_chunk: seq![], next: s.next + 1, ..s };
        assert(placed_in_order(t));
        lemma_advance(t);
    }
}

proof fn lemma_step(s: TokenChunkState, n: nat)
    requires
        keeps_order(s),
    ensures
        keeps_order(step(s, n)),
{
    lemma_empty_words();
    match s.phase {
        Phase::Sentence => {
            let sentence = s.sentences[s.next as int];
            if n > s.max {
                let chunks = if s.current.len() > 0 {
                    s.chunks.push(s.current)
                } else {
                    s.chunks
                };
                if s.current.len() > 0 {
                    lemma_words_in_push(s.chunks, s.current);
                } else {
                    assert(words_in(s.chunks) + words_of(s.current) =~= words_in(s.chunks));
                }
                let t = TokenChunkState {
                    chunks,
                    current: seq![],
                    words: words_of(sentence),
                    next_word: 0,
                    word_chunk: seq![],
                    ..s
                };
                assert(words_in(chunks) + words_of(t.word_chunk) =~= words_in(
                    s.sentences.take(s.next as int),
                ) + t.words.take(0));
                lemma_next_word_step(t);
            } else if s.current.len() == 0 {
                lemma_words_in_take(s.sentences, s.next as int);
                assert(words_in(s.chunks) + words_of(s.current) =~= words_in(s.chunks));
                lemma_advance(TokenChunkState { current: sentence, next: s.next + 1, ..s });
            }
        },
        Phase::Append => {
            let sentence = s.sentences[s.next as int];
            lemma_words_in_take(s.sentences, s.next as int);
            if n > s.max {
                lemma_words_in_push(s.chunks, s.current);
                lemma_advance(
                    TokenChunkState {
                        chunks: s.chunks.push(s.current),
                        current: sentence,
                        next: s.next + 1,
                        ..s
                    },
                );
            } else {
                lemma_words_spaced(s.current, sentence);
                assert(words_in(s.chunks) + words_of(s.pending) =~= words_in(s.chunks) + words_of(
                    s.current,
                ) + words_of(sentence));
                lemma_advance(TokenChunkState { current: s.pending, next: s.next + 1, ..s });
            }
        },
        Phase::Word => {
            let w = s.words[s.next_word as int];
            lemma_word_of_words(s.sentences[s.next as int], s.next_word as int);
            assert(s.words.take(s.next_word as int + 1) =~= s.words.take(s.next_word as int).push(w));
            if n > s.max {
                let chunks = if s.word_chunk.len() > 0 {
                    s.chunks.push(s.word_chunk)
                } else {
                    s.chunks
                };
                if s.word_chunk.len() > 0 {
                    lemma_words_in_push(s.chunks, s.word_chunk);
                } else {
                    assert(words_in(s.chunks) + words_of(s.word_chunk) =~= words_in(s.chunks));
                }
                assert(words_in(chunks) + words_of(w) =~= words_in(s.sentences.take(s.next as int))
                    + s.words.take(s.next_word as int + 1));
                lemma_next_word_step(
                    TokenChunkState { chunks, word_chunk: w, next_word: s.next_word + 1, ..s },
                );
            } else {
                lemma_extend_words(s.word_chunk, w);
                assert(words_of(s.pending) == words_of(s.word_chunk) + seq![w]);
                assert(words_in(s.chunks) + (words_of(s.word_chunk) + seq![w]) =~= (words_in(
                    s.chunks,
                ) + words_of(s.word_chunk)) + seq![w]);
                assert(words_in(s.chunks) + words_of(s.pending) =~= words_in(
                    s.sentences.take(s.next as int),
                ) + s.words.take(s.next_word as int + 1));
                lemma_next_word_step(
                    TokenChunkState { word_chunk: s.pending, next_word: s.next_word + 1, ..s },
                );
            }
        },
        Phase::Done => {},
    }
}

proof fn lemma_initial(text: Seq<char>, max: nat)
    ensures
        keeps_order(initial(text, max)),
{
    lemma_empty_words();
    let s = TokenChunkState {
        sentences: token_sentences(text),
        max,
        next: 0,
        chunks: seq![],
        current: seq![],
        words: seq![],
        next_word: 0,
        word_chunk: seq![],
        pending: seq![],
        phase: Phase::Sentence,
    };
    assert(s.sentences.take(0) =~= Seq::<Seq<char>>::empty());
    assert(words_in(s.chunks) + words_of(s.current) =~= Seq::<Seq<char>>::empty());
    lemma_advance(s);
}

/// Chunks keep text order: once every sentence is placed, the chunks, read in order,
/// hold exactly the words of the sentences, in order.
pub proof fn lemma_chunks_in_text_order(s: TokenChunkState)
    requires
        keeps_order(s),
        s.phase == Phase::Done,
    ensures
        words_in(s.chunks) == words_in(s.sentences),
{
}

/// Packs sentences into chunks of at most `max_tokens` tokens, where only the caller
/// can count tokens: it asks for the count of one text at a time.
pub struct TokenChunker {
    sentences: Vec<Vec<char>>,
    max_tokens: usize,
    next: usize,
    chunks: Vec<Vec<char>>,
    current: Vec<char>,
    words: Vec<Vec<char>>,
    next_word: usize,
    word_chunk: Vec<char>,
    pending: Vec<char>,
    phase: Phase,
}

impl TokenChunker {
    pub closed spec fn view(&self) -> TokenChunkState {
        TokenChunkState {
            sentences: words_view(self.sentences@),
            max: self.max_tokens as nat,
            next: self.next as nat,
            chunks: words_view(self.chunks@),
            current: self.current@,
            words: words_view(self.words@),
            next_word: self.next_word as nat,
            word_chunk: self.word_chunk@,
            pending: self.pending@,
            phase: self.phase,
        }
    }

    /// The chunker is in one of the states it passes through: see `keeps_order`.
    pub closed spec fn wf(&self) -> bool {
        keeps_order(self@)
    }

    closed spec fn shape(&self) -> bool {
        &&& self.next <= self.sentences@.len()
        &&& (self.phase == Phase::Sentence || self.phase == Phase::Append) ==> self.next
            < self.sentences@.len()
        &&& self.phase == Phase::Word ==> self.next < self.sentences@.len() && self.next_word
            < self.words@.len()
    }

    fn push_text(v: &mut Vec<Vec<char>>, t: Vec<char>)
        ensures
            words_view(final(v)@) == words_view(old(v)@).push(t@),
    {
        let ghost prev = v@;
        v.push(t);
        assert(words_view(v@) =~= words_view(prev).push(t@));
    }

    fn joined(a: &Vec<char>, b: &Vec<char>) -> (r: Vec<char>)
        ensures
            r@ == extend(a@, b@),
    {
        if a.len() == 0 {
            return copy_chars(b);
        }
        let mut r = copy_chars(a);
        r.push(' ');
        let ghost mid = r@;
        for i in 0..b.len()
            invariant
                r@ == mid + b@.take(i as int),
        {
            r.push(b[i]);
            assert(r@ =~= mid + b@.take(i + 1));
        }
        assert(b@.take(b@.len() as int) =~= b@);
        r
    }

    fn advance_exec(&mut self)
        requires
            old(self).next <= old(self).sentences@.len(),
        ensures
            final(self)@ == advance(old(self)@),
            final(self).shape(),
    {
        if self.next >= self.sentences.len() {
            if self.current.len() > 0 {
                let cur = copy_chars(&self.current);
                Self::push_text(&mut self.chunks, cur);
            }
            self.current = Vec::new();
            self.pending = Vec::new();
            self.phase = Phase::Done;
        } else {
            self.pending = copy_chars(&self.sentences[self.next]);
            self.phase = Phase::Sentence;
        }
        assert(self@ == advance(old(self)@));
    }

    fn next_word_exec(&mut self)
        requires
            old(self).next < old(self).sentences@.len(),
            old(self).next_word <= old(self).words@.len(),
        ensures
            final(self)@ == next_word_step(old(self)@),
            final(self).shape(),
    {
        if self.next_word < self.words.len() {
            self.pending = Self::joined(&self.word_chunk, &self.words[self.next_word]);
            self.phase = Phase::Word;
            assert(self@ == next_word_step(old(self)@));
        } else {
            if self.word_chunk.len() > 0 {
                let wc = copy_chars(&self.word_chunk);
                Self::push_text(&mut self.chunks, wc);
            }
            self.word_chunk = Vec::new();
            let count = self.sentences.len();
            assert(self.next < count);
            self.next = self.next + 1;
            let ghost mid = self@;
            self.advance_exec();
            assert(mid == TokenChunkState {
                chunks: if old(self)@.word_chunk.len() > 0 {
                    old(self)@.chunks.push(old(self)@.word_chunk)
                } else {
                    old(self)@.chunks
                },
                word_chunk: seq![],
                next: old(self)@.next + 1,
                ..old(self)@
            });
        }
    }

    /// A chunker for `text` with a limit of `max_tokens` tokens per chunk.
    pub fn new(text: &str, max_tokens: usize) -> (r: Self)
        ensures
            r@ == initial(text@, max_tokens as nat),
            r.wf(),
    {
        proof {
            lemma_initial(text@, max_tokens as nat);
        }
        let chars = chars_of(text);
        let pieces = split_ends(&chars);
        let mut sentences: Vec<Vec<char>> = Vec::new();
        let ghost tn = trimmed_nonblank(words_view(pieces@));
        let mut kept: Vec<Vec<char>> = Vec::new();
        for i in 0..pieces.len()
            invariant
                words_view(kept@) == trimmed_nonblank(words_view(pieces@).take(i as int)),
        {
            assert(words_view(pieces@).take(i + 1).drop_last() =~= words_view(pieces@).take(
                i as int,
            ));
            let t = trim_chars(&pieces[i]);
            if t.len() > 0 {
                Self::push_text(&mut kept, t);
            }
        }
        assert(words_view(pieces@).take(pieces@.len() as int) =~= words_view(pieces@));
        for i in 0..kept.len()
            invariant
                words_view(kept@) == tn,
                words_view(sentences@) == tn.take(i as int).map_values(|s: Seq<char>| s.push('.')),
        {
            let mut s = copy_chars(&kept[i]);
            s.push('.');
            Self::push_text(&mut sentences, s);
            assert(words_view(sentences@) =~= tn.take(i + 1).map_values(
                |s: Seq<char>| s.push('.'),
            ));
        }
        assert(tn.take(kept@.len() as int) =~= tn);
        let mut r = TokenChunker {
            sentences,
            max_tokens,
            next: 0,
            chunks: Vec::new(),
            current: Vec::new(),
            words: Vec::new(),
            next_word: 0,
            word_chunk: Vec::new(),
            pending: Vec::new(),
            phase: Phase::Sentence,
        };
        assert(words_view(r.chunks@) =~= seq![]);
        assert(words_view(r.words@) =~= seq![]);
        r.advance_exec();
        r
    }

    /// Once every sentence is placed, the chunks hold exactly the words of the sentences,
    /// in text order.
    pub proof fn lemma_finished_in_order(&self)
        requires
            self.wf(),
            self@.phase == Phase::Done,
        ensures
            words_in(self@.chunks) == words_in(self@.sentences),
    {
    }

    /// The text whose token count is needed next, if any.
    pub fn pending_text(&self) -> (r: Option<String>)
        ensures
            self@.phase == Phase::Done ==> r is None,
            self@.phase != Phase::Done ==> (r matches Some(t) && t@ == self@.pending),
    {
        if self.phase == Phase::Done {
            None
        } else {
            Some(string_from_chars(&self.pending))
        }
    }

    /// Takes the token count of the pending text and moves on.
    pub fn answer(&mut self, token_count: usize)
        requires
            old(self).wf(),
        ensures
            final(self).wf(),
            final(self)@ == step(old(self)@, token_count as nat),
    {
        proof {
            lemma_step(old(self)@, token_count as nat);
        }
        match self.phase {
            Phase::Sentence => {
                if token_count > self.max_tokens {
                    if self.current.len() > 0 {
                        let cur = copy_chars(&self.current);
                        Self::push_text(&mut self.chunks, cur);
                    }
                    self.current = Vec::new();
                    self.words = split_words(&self.sentences[self.next]);
                    self.next_word = 0;
                    self.word_chunk = Vec::new();
                    self.next_word_exec();
                } else if self.current.len() > 0 {
                    self.pending = Self::joined(&self.current, &self.sentences[self.next]);
                    self.phase = Phase::Append;
                    assert(self@ == step(old(self)@, token_count as nat));
                } else {
                    self.current = copy_chars(&self.sentences[self.next]);
                    let count = self.sentences.len();
                    assert(self.next < count);
                    self.next = self.next + 1;
                    self.advance_exec();
                }
            },
            Phase::Append => {
                if token_count > self.max_tokens {
                    let cur = copy_chars(&self.current);
                    Self::push_text(&mut self.chunks, cur);
                    self.current = copy_chars(&self.sentences[self.next]);
                } else {
                    self.current = copy_chars(&self.pending);
                }
                let count = self.sentences.len();
                assert(self.next < count);
                self.next = self.next + 1;
                self.advance_exec();
            },
            Phase::Word => {
                if token_count > self.max_tokens {
                    if self.word_chunk.len() > 0 {
                        let wc = copy_chars(&self.word_chunk);
                        Self::push_text(&mut self.chunks, wc);
                    }
                    self.word_chunk = copy_chars(&self.words[self.next_word]);
                } else {
                    self.word_chunk = copy_chars(&self.pending);
                }
                let count = self.words.len();
                assert(self.next_word < count);
                self.next_word = self.next_word + 1;
                self.next_word_exec();
            },
            Phase::Done => {},
        }
    }

    /// The chunks, once every sentence is placed.
    pub fn finish(self) -> (r: Vec<String>)
        ensures
            r@.map_values(|s: String| s@) == self@.chunks,
    {
        let mut out: Vec<String> = Vec::new();
        for i in 0..self.chunks.len()
            invariant
                out@.len() == i,
                forall|j: int| 0 <= j < i ==> (#[trigger] out@[j])@ == self.chunks@[j]@,
        {
            out.push(string_from_chars(&self.chunks[i]));
        }
        assert(out@.map_values(|s: String| s@) =~= words_view(self.chunks@));
        out
    }
}

/// The pieces of `s` between `.`, `?`, `!` and `;`.
fn split_ends(s: &Vec<char>) -> (r: Vec<Vec<char>>)
    ensures
        words_view(r@) == split_at_ends(s@),
{
    let mut r: Vec<Vec<char>> = Vec::new();
    let mut cur: Vec<char> = Vec::new();
    for i in 0..s.len()
        invariant
            split_at_ends(s@.take(i as int)) == words_view(r@).push(cur@),
    {
        assert(s@.take(i + 1).drop_last() =~= s@.take(i as int));
        let ghost rv = words_view(r@);
        let c = s[i];
        if c == '.' || c == '!' || c == '?' || c == ';' {
            let piece = cur;
            r.push(piece);
            cur = Vec::new();
            assert(words_view(r@) =~= rv.push(piece@));
            assert(cur@ =~= seq![]);
        } else {
            let ghost old_cur = cur@;
            cur.push(c);
            assert(rv.push(old_cur).update(rv.len() as int, old_cur.push(c)) =~= rv.push(cur@));
        }
    }
    assert(s@.take(s@.len() as int) =~= s@);
    let ghost rv = words_view(r@);
    let piece = cur;
    r.push(piece);
    assert(words_view(r@) =~= rv.push(piece@));
    r
}

} // verus!
