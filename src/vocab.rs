use vstd::prelude::*;
use crate::text::{chars_of, string_from_chars};
use std::collections::HashMap;

verus! {

broadcast use vstd::std_specs::hash::group_hash_axioms;

/// The phoneme symbols, in token order: the pad, punctuation, Latin letters, then IPA.
pub open spec fn symbols() -> Seq<char> {
    seq![
        '$', ';', ':', ',', '.', '!', '?', '¡', '¿', '—', '…', '"',
        '«', '»', '“', '”', ' ', 'A', 'B', 'C', 'D', 'E', 'F', 'G',
        'H', 'I', 'J', 'K', 'L', 'M', 'N', 'O', 'P', 'Q', 'R', 'S',
        'T', 'U', 'V', 'W', 'X', 'Y', 'Z', 'a', 'b', 'c', 'd', 'e',
        'f', 'g', 'h', 'i', 'j', 'k', 'l', 'm', 'n', 'o', 'p', 'q',
        'r', 's', 't', 'u', 'v', 'w', 'x', 'y', 'z', 'ɑ', 'ɐ', 'ɒ',
        'æ', 'ɓ', 'ʙ', 'β', 'ɔ', 'ɕ', 'ç', 'ɗ', 'ɖ', 'ð', 'ʤ', 'ə',
        'ɘ', 'ɚ', 'ɛ', 'ɜ', 'ɝ', 'ɞ', 'ɟ', 'ʄ', 'ɡ', 'ɠ', 'ɢ', 'ʛ',
        'ɦ', 'ɧ', 'ħ', 'ɥ', 'ʜ', 'ɨ', 'ɪ', 'ʝ', 'ɭ', 'ɬ', 'ɫ', 'ɮ',
        'ʟ', 'ɱ', 'ɯ', 'ɰ', 'ŋ', 'ɳ', 'ɲ', 'ɴ', 'ø', 'ɵ', 'ɸ', 'θ',
        'œ', 'ɶ', 'ʘ', 'ɹ', 'ɺ', 'ɾ', 'ɻ', 'ʀ', 'ʁ', 'ɽ', 'ʂ', 'ʃ',
        'ʈ', 'ʧ', 'ʉ', 'ʊ', 'ʋ', 'ⱱ', 'ʌ', 'ɣ', 'ɤ', 'ʍ', 'χ', 'ʎ',
        'ʏ', 'ʑ', 'ʐ', 'ʒ', 'ʔ', 'ʡ', 'ʕ', 'ʢ', 'ǀ', 'ǁ', 'ǂ', 'ǃ',
        'ˈ', 'ˌ', 'ː', 'ˑ', 'ʼ', 'ʴ', 'ʰ', 'ʱ', 'ʲ', 'ʷ', 'ˠ', 'ˤ',
        '˞', '↓', '↑', '→', '↗', '↘', '\'', '\u{329}', '\'', 'ᵻ',
    ]
}

/// The index of the first `c` in `s`.
pub open spec fn first_index(s: Seq<char>, c: char) -> Option<nat>
    decreases s.len(),
{
    if s.len() == 0 {
        None
    } else {
        match first_index(s.drop_last(), c) {
            Some(i) => Some(i),
            None => if s.last() == c {
                Some((s.len() - 1) as nat)
            } else {
                None
            },
        }
    }
}

/// The token of a phoneme character: its first position among the symbols.
pub open spec fn token_of(c: char) -> Option<nat> {
    first_index(symbols(), c)
}

pub open spec fn in_vocab(c: char) -> bool {
    token_of(c) is Some
}

/// The character of a token, for every token that some character maps to.
pub open spec fn symbol_of(t: int) -> Option<char> {
    if 0 <= t < symbols().len() && token_of(symbols()[t]) == Some(t as nat) {
        Some(symbols()[t])
    } else {
        None
    }
}

/// The tokens of a phoneme string; characters outside the vocabulary are dropped.
pub open spec fn encode(s: Seq<char>) -> Seq<i64>
    decreases s.len(),
{
    if s.len() == 0 {
        seq![]
    } else {
        match token_of(s.last()) {
            Some(t) => encode(s.drop_last()).push(t as i64),
            None => encode(s.drop_last()),
        }
    }
}

/// The phoneme string of a token sequence; tokens without a character are dropped.
pub open spec fn decode(ts: Seq<i64>) -> Seq<char>
    decreases ts.len(),
{
    if ts.len() == 0 {
        seq![]
    } else {
        match symbol_of(ts.last() as int) {
            Some(c) => decode(ts.drop_last()).push(c),
            None => decode(ts.drop_last()),
        }
    }
}

/// The code-point map that `get_vocab` builds from the first `n` symbols.
pub open spec fn vocab_map_upto(n: nat) -> Map<u32, usize>
    decreases n,
{
    if n == 0 {
        Map::empty()
    } else {
        let m = vocab_map_upto((n - 1) as nat);
        let c = symbols()[n - 1];
        if m.contains_key(c as u32) {
            m
        } else {
            m.insert(c as u32, (n - 1) as usize)
        }
    }
}

proof fn lemma_first_index(s: Seq<char>, c: char)
    ensures
        match first_index(s, c) {
            Some(i) => i < s.len() && s[i as int] == c && forall|j: int|
                0 <= j < i ==> s[j] != c,
            None => forall|j: int| 0 <= j < s.len() ==> s[j] != c,
        },
    decreases s.len(),
{
    if s.len() > 0 {
        let p = s.drop_last();
        lemma_first_index(p, c);
        assert forall|j: int| 0 <= j < p.len() implies p[j] == s[j] by {}
    }
}

/// A character of the vocabulary maps back to itself through its token.
pub proof fn lemma_symbol_of_token(c: char)
    requires
        in_vocab(c),
    ensures
        symbol_of(token_of(c)->0 as int) == Some(c),
{
    lemma_first_index(symbols(), c);
}

/// Encoding a phoneme string and decoding the tokens gives back exactly its characters
/// that lie in the vocabulary, in order: the others are dropped, never replaced.
pub proof fn lemma_round_trip(s: Seq<char>)
    ensures
        decode(encode(s)) == s.filter(|c: char| in_vocab(c)),
    decreases s.len(),
{
    reveal(Seq::filter);
    if s.len() > 0 {
        lemma_round_trip(s.drop_last());
        let p = encode(s.drop_last());
        match token_of(s.last()) {
            Some(t) => {
                lemma_symbol_of_token(s.last());
                assert(p.push(t as i64).drop_last() =~= p);
            },
            None => {},
        }
    }
}

proof fn lemma_vocab_map(n: nat, c: char)
    requires
        n <= symbols().len(),
    ensures
        vocab_map_upto(n).contains_key(c as u32) == (first_index(symbols().take(n as int), c) is Some),
        vocab_map_upto(n).contains_key(c as u32) ==> vocab_map_upto(n)[c as u32] as nat
            == first_index(symbols().take(n as int), c)->0,
    decreases n,
{
    if n > 0 {
        let d = symbols()[n - 1];
        lemma_vocab_map((n - 1) as nat, c);
        lemma_vocab_map((n - 1) as nat, d);
        assert(symbols().take(n as int).drop_last() =~= symbols().take(n - 1));
        assert(symbols().take(n as int).last() == d);
    } else {
        assert(symbols().take(0) =~= Seq::<char>::empty());
    }
}

/// The symbol table, in token order.
pub(crate) fn symbol_table() -> (r: Vec<char>)
    ensures
        r@ == symbols(),
{
    let r = vec![
        '$', ';', ':', ',', '.', '!', '?', '¡', '¿', '—', '…', '"',
        '«', '»', '“', '”', ' ', 'A', 'B', 'C', 'D', 'E', 'F', 'G',
        'H', 'I', 'J', 'K', 'L', 'M', 'N', 'O', 'P', 'Q', 'R', 'S',
        'T', 'U', 'V', 'W', 'X', 'Y', 'Z', 'a', 'b', 'c', 'd', 'e',
        'f', 'g', 'h', 'i', 'j', 'k', 'l', 'm', 'n', 'o', 'p', 'q',
        'r', 's', 't', 'u', 'v', 'w', 'x', 'y', 'z', 'ɑ', 'ɐ', 'ɒ',
        'æ', 'ɓ', 'ʙ', 'β', 'ɔ', 'ɕ', 'ç', 'ɗ', 'ɖ', 'ð', 'ʤ', 'ə',
        'ɘ', 'ɚ', 'ɛ', 'ɜ', 'ɝ', 'ɞ', 'ɟ', 'ʄ', 'ɡ', 'ɠ', 'ɢ', 'ʛ',
        'ɦ', 'ɧ', 'ħ', 'ɥ', 'ʜ', 'ɨ', 'ɪ', 'ʝ', 'ɭ', 'ɬ', 'ɫ', 'ɮ',
        'ʟ', 'ɱ', 'ɯ', 'ɰ', 'ŋ', 'ɳ', 'ɲ', 'ɴ', 'ø', 'ɵ', 'ɸ', 'θ',
        'œ', 'ɶ', 'ʘ', 'ɹ', 'ɺ', 'ɾ', 'ɻ', 'ʀ', 'ʁ', 'ɽ', 'ʂ', 'ʃ',
        'ʈ', 'ʧ', 'ʉ', 'ʊ', 'ʋ', 'ⱱ', 'ʌ', 'ɣ', 'ɤ', 'ʍ', 'χ', 'ʎ',
        'ʏ', 'ʑ', 'ʐ', 'ʒ', 'ʔ', 'ʡ', 'ʕ', 'ʢ', 'ǀ', 'ǁ', 'ǂ', 'ǃ',
        'ˈ', 'ˌ', 'ː', 'ˑ', 'ʼ', 'ʴ', 'ʰ', 'ʱ', 'ʲ', 'ʷ', 'ˠ', 'ˤ',
        '˞', '↓', '↑', '→', '↗', '↘', '\'', '\u{329}', '\'', 'ᵻ',
    ];
    assert(r@ =~= symbols());
    r
}

/// The token of `c`, looked up in the symbol table.
pub(crate) fn token_index(table: &Vec<char>, c: char) -> (r: Option<usize>)
    requires
        table@ == symbols(),
    ensures
        match token_of(c) {
            Some(t) => r == Some(t as usize) && t < symbols().len(),
            None => r is None,
        },
{
    let mut i: usize = 0;
    while i < table.len()
        invariant
            table@ == symbols(),
            i <= table@.len(),
            forall|j: int| 0 <= j < i ==> table@[j] != c,
        decreases table@.len() - i,
    {
        if table[i] == c {
            proof {
                lemma_first_index(symbols(), c);
                match token_of(c) {
                    Some(k) => {
                        if k < i {
                            assert(table@[k as int] != c);
                        } else if k > i {
                            assert(symbols()[i as int] != c);
                        }
                    },
                    None => {
                        assert(symbols()[i as int] != c);
                    },
                }
            }
            return Some(i);
        }
        i = i + 1;
    }
    proof {
        lemma_first_index(symbols(), c);
        match token_of(c) {
            Some(k) => {
                assert(table@[k as int] != c);
            },
            None => {},
        }
    }
    None
}

/// The vocabulary: the token of each phoneme character, keyed by its code point.
pub fn get_vocab() -> (r: HashMap<u32, usize>)
    ensures
        r@ == vocab_map_upto(symbols().len()),
        forall|c: char| #[trigger] r@.contains_key(c as u32) <==> in_vocab(c),
        forall|c: char| in_vocab(c) ==> r@[c as u32] as nat == token_of(c)->0,
{
    let table = symbol_table();
    let mut m: HashMap<u32, usize> = HashMap::new();
    for i in 0..table.len()
        invariant
            table@ == symbols(),
            m@ == vocab_map_upto(i as nat),
    {
        let key = table[i] as u32;
        if !m.contains_key(&key) {
            m.insert(key, i);
        }
    }
    proof {
        assert(symbols().take(symbols().len() as int) =~= symbols());
        assert forall|c: char| #[trigger] m@.contains_key(c as u32) <==> in_vocab(c) by {
            lemma_vocab_map(symbols().len(), c);
        }
        assert forall|c: char| in_vocab(c) implies m@[c as u32] as nat == token_of(c)->0 by {
            lemma_vocab_map(symbols().len(), c);
        }
    }
    m
}

/// The reverse vocabulary: the character of each token that a character maps to.
pub fn get_reverse_vocab() -> (r: HashMap<usize, char>)
    ensures
        forall|t: usize| #[trigger] r@.contains_key(t) <==> symbol_of(t as int) is Some,
        forall|t: usize| r@.contains_key(t) ==> Some(#[trigger] r@[t]) == symbol_of(t as int),
{
    let table = symbol_table();
    let mut m: HashMap<usize, char> = HashMap::new();
    for i in 0..table.len()
        invariant
            table@ == symbols(),
            forall|t: usize| #[trigger]
                m@.contains_key(t) <==> (t < i && symbol_of(t as int) is Some),
            forall|t: usize| m@.contains_key(t) ==> Some(#[trigger] m@[t]) == symbol_of(t as int),
    {
        let ghost before = m@;
        if token_index(&table, table[i]) == Some(i) {
            m.insert(i, table[i]);
            assert(symbol_of(i as int) == Some(table@[i as int]));
        } else {
            assert(symbol_of(i as int) is None);
        }
        assert forall|t: usize| #[trigger] m@.contains_key(t) <==> (t < i + 1 && symbol_of(
            t as int,
        ) is Some) by {
            if t != i {
                assert(m@.contains_key(t) == before.contains_key(t));
            }
        }
        assert forall|t: usize| m@.contains_key(t) implies Some(#[trigger] m@[t]) == symbol_of(
            t as int,
        ) by {
            if t != i {
                assert(m@[t] == before[t]);
            }
        }
    }
    m
}

/// Maps each phoneme character to its token; characters outside the vocabulary are
/// dropped.
pub fn tokenize(phonemes: &str) -> (r: Vec<i64>)
    ensures
        r@ == encode(phonemes@),
{
    let table = symbol_table();
    let chars = chars_of(phonemes);
    let mut r: Vec<i64> = Vec::new();
    for i in 0..chars.len()
        invariant
            table@ == symbols(),
            chars@ == phonemes@,
            r@ == encode(chars@.take(i as int)),
    {
        assert(chars@.take(i + 1).drop_last() =~= chars@.take(i as int));
        match token_index(&table, chars[i]) {
            Some(t) => r.push(t as i64),
            None => {},
        }
    }
    assert(chars@.take(chars.len() as int) =~= chars@);
    r
}

/// Maps each token back to its phoneme character; tokens without one are dropped.
pub fn tokens_to_phonemes(tokens: &[i64]) -> (r: String)
    ensures
        r@ == decode(tokens@),
{
    let table = symbol_table();
    let mut out: Vec<char> = Vec::new();
    for i in 0..tokens.len()
        invariant
            table@ == symbols(),
            out@ == decode(tokens@.take(i as int)),
    {
        assert(tokens@.take(i + 1).drop_last() =~= tokens@.take(i as int));
        let t = tokens[i];
        if 0 <= t && t < table.len() as i64 {
            let k = t as usize;
            if token_index(&table, table[k]) == Some(k) {
                out.push(table[k]);
            }
        }
    }
    assert(tokens@.take(tokens@.len() as int) =~= tokens@);
    string_from_chars(&out)
}

} // verus!
