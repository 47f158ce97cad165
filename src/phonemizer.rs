use vstd::prelude::*;
use vstd::string::StringExecFns;
use crate::clauses::trim;
use crate::text::{chars_of, string_from_chars};
use crate::vocab::{in_vocab, symbol_table, token_index};

verus! {

/// The spelling of the model's name as espeak gives it, in American English.
pub open spec fn kokoro_us() -> Seq<char> {
    seq!['k', 'ə', 'k', 'ˈ', 'o', 'ː', 'ɹ', 'o', 'ʊ']
}

/// The spelling of the model's name as it should be read, in American English.
pub open spec fn kokoro_us_fixed() -> Seq<char> {
    seq!['k', 'ˈ', 'o', 'ʊ', 'k', 'ə', 'ɹ', 'o', 'ʊ']
}

/// The spelling of the model's name as espeak gives it, in British English.
pub open spec fn kokoro_gb() -> Seq<char> {
    seq!['k', 'ə', 'k', 'ˈ', 'ɔ', 'ː', 'ɹ', 'ə', 'ʊ']
}

/// The spelling of the model's name as it should be read, in British English.
pub open spec fn kokoro_gb_fixed() -> Seq<char> {
    seq!['k', 'ˈ', 'ə', 'ʊ', 'k', 'ə', 'ɹ', 'ə', 'ʊ']
}

/// "hundred", before which a space is inserted after a letter, `ɹ` or `ː`.
pub open spec fn hundred() -> Seq<char> {
    seq!['h', 'ˈ', 'ʌ', 'n', 'd', 'ɹ', 'ɪ', 'd']
}

/// "nine", after which `ti` is read `di` in American English.
pub open spec fn nine() -> Seq<char> {
    seq!['n', 'ˈ', 'a', 'ɪ', 'n']
}

/// `s` with every occurrence of `pat` replaced by `rep`, left to right, without overlaps.
pub open spec fn replace_all(s: Seq<char>, pat: Seq<char>, rep: Seq<char>) -> Seq<char>
    decreases s.len(),
{
    if s.len() == 0 {
        s
    } else if pat.len() > 0 && s.len() >= pat.len() && s.take(pat.len() as int) == pat {
        rep + replace_all(s.skip(pat.len() as int), pat, rep)
    } else {
        seq![s[0]] + replace_all(s.skip(1), pat, rep)
    }
}

/// The single-character substitutions: `ʲ` to `j`, `r` to `ɹ`, `x` to `k`, `ɬ` to `l`.
pub open spec fn substitute(c: char) -> char {
    if c == 'ʲ' {
        'j'
    } else if c == 'r' {
        'ɹ'
    } else if c == 'x' {
        'k'
    } else if c == 'ɬ' {
        'l'
    } else {
        c
    }
}

pub open spec fn occurs_at(s: Seq<char>, i: int, pat: Seq<char>) -> bool {
    0 <= i && i + pat.len() <= s.len() && s.subrange(i, i + pat.len()) == pat
}

/// A space goes before position `i`: "hundred" starts there, after a lowercase ASCII
/// letter, `ɹ` or `ː`.
pub open spec fn space_before(s: Seq<char>, i: int) -> bool {
    i >= 1 && occurs_at(s, i, hundred()) && (('a' <= s[i - 1] && s[i - 1] <= 'z') || s[i - 1]
        == 'ɹ' || s[i - 1] == 'ː')
}

/// The characters after which a detached `z` is joined to the previous word.
pub open spec fn z_follower(c: char) -> bool {
    c == ';' || c == ':' || c == ',' || c == '.' || c == '!' || c == '?' || c == '¡' || c == '¿'
        || c == '—' || c == '…' || c == '"' || c == '«' || c == '»' || c == ' '
}

/// The space at `i` is dropped: it is followed by a `z` that ends the text or comes
/// before punctuation or a space.
pub open spec fn drop_space(s: Seq<char>, i: int) -> bool {
    s[i] == ' ' && i + 1 < s.len() && s[i + 1] == 'z' && (i + 2 == s.len() || z_follower(s[i + 2]))
}

/// The `t` at `i` is read `d`: `ti` after "nine", not followed by `ː`.
pub open spec fn nine_t(s: Seq<char>, i: int) -> bool {
    s[i] == 't' && i + 1 < s.len() && s[i + 1] == 'i' && i >= 5 && occurs_at(s, i - 5, nine())
        && !(i + 2 < s.len() && s[i + 2] == 'ː')
}

/// The first `k` characters of `s` with spaces inserted before "hundred".
pub open spec fn spaced_upto(s: Seq<char>, k: nat) -> Seq<char>
    decreases k,
{
    if k == 0 {
        seq![]
    } else {
        let prev = spaced_upto(s, (k - 1) as nat);
        if space_before(s, k - 1) {
            prev.push(' ').push(s[k - 1])
        } else {
            prev.push(s[k - 1])
        }
    }
}

/// The first `k` characters of `s` with detached `z`s joined.
pub open spec fn joined_upto(s: Seq<char>, k: nat) -> Seq<char>
    decreases k,
{
    if k == 0 {
        seq![]
    } else if drop_space(s, k - 1) {
        joined_upto(s, (k - 1) as nat)
    } else {
        joined_upto(s, (k - 1) as nat).push(s[k - 1])
    }
}

/// The first `k` characters of `s` with `ti` after "nine" read `di`.
pub open spec fn ninety_upto(s: Seq<char>, k: nat) -> Seq<char>
    decreases k,
{
    if k == 0 {
        seq![]
    } else if nine_t(s, k - 1) {
        ninety_upto(s, (k - 1) as nat).push('d')
    } else {
        ninety_upto(s, (k - 1) as nat).push(s[k - 1])
    }
}

/// The phoneme string the model is given for the backend's output `raw`: the model's
/// name respelled, single characters substituted, "hundred" set apart, detached `z`s
/// joined, `ti` after "nine" read `di` in American English, characters outside the
/// vocabulary dropped, and whitespace trimmed from both ends.
pub open spec fn finish_phonemes(raw: Seq<char>, american: bool) -> Seq<char> {
    let s1 = replace_all(replace_all(raw, kokoro_us(), kokoro_us_fixed()), kokoro_gb(), kokoro_gb_fixed());
    let s2 = s1.map_values(|c: char| substitute(c));
    let s3 = spaced_upto(s2, s2.len());
    let s4 = joined_upto(s3, s3.len());
    let s5 = if american {
        ninety_upto(s4, s4.len())
    } else {
        s4
    };
    trim(s5.filter(|c: char| in_vocab(c)))
}

fn lit_kokoro_us() -> (r: Vec<char>)
    ensures
        r@ == kokoro_us(),
{
    let r = vec!['k', 'ə', 'k', 'ˈ', 'o', 'ː', 'ɹ', 'o', 'ʊ'];
    assert(r@ =~= kokoro_us());
    r
}

fn lit_kokoro_us_fixed() -> (r: Vec<char>)
    ensures
        r@ == kokoro_us_fixed(),
{
    let r = vec!['k', 'ˈ', 'o', 'ʊ', 'k', 'ə', 'ɹ', 'o', 'ʊ'];
    assert(r@ =~= kokoro_us_fixed());
    r
}

fn lit_kokoro_gb() -> (r: Vec<char>)
    ensures
        r@ == kokoro_gb(),
{
    let r = vec!['k', 'ə', 'k', 'ˈ', 'ɔ', 'ː', 'ɹ', 'ə', 'ʊ'];
    assert(r@ =~= kokoro_gb());
    r
}

fn lit_kokoro_gb_fixed() -> (r: Vec<char>)
    ensures
        r@ == kokoro_gb_fixed(),
{
    let r = vec!['k', 'ˈ', 'ə', 'ʊ', 'k', 'ə', 'ɹ', 'ə', 'ʊ'];
    assert(r@ =~= kokoro_gb_fixed());
    r
}

fn lit_hundred() -> (r: Vec<char>)
    ensures
        r@ == hundred(),
{
    let r = vec!['h', 'ˈ', 'ʌ', 'n', 'd', 'ɹ', 'ɪ', 'd'];
    assert(r@ =~= hundred());
    r
}

fn lit_nine() -> (r: Vec<char>)
    ensures
        r@ == nine(),
{
    let r = vec!['n', 'ˈ', 'a', 'ɪ', 'n'];
    assert(r@ =~= nine());
    r
}

/// Whether `pat` occurs in `s` at `i`.
fn occurs(s: &Vec<char>, i: usize, pat: &Vec<char>) -> (r: bool)
    ensures
        r == occurs_at(s@, i as int, pat@),
{
    if i > s.len() || pat.len() > s.len() - i {
        return false;
    }
    let n = s.len();
    for j in 0..pat.len()
        invariant
            n == s@.len(),
            i + pat@.len() <= s@.len(),
            forall|k: int| 0 <= k < j ==> s@[i + k] == pat@[k],
    {
        assert(i + j < s@.len());
        if s[i + j] != pat[j] {
            assert(s@.subrange(i as int, i + pat@.len())[j as int] != pat@[j as int]);
            return false;
        }
    }
    assert(s@.subrange(i as int, i + pat@.len()) =~= pat@);
    true
}

fn replace_all_chars(s: &Vec<char>, pat: &Vec<char>, rep: &Vec<char>) -> (r: Vec<char>)
    ensures
        r@ == replace_all(s@, pat@, rep@),
{
    let mut out: Vec<char> = Vec::new();
    let mut i: usize = 0;
    assert(s@.skip(0) =~= s@);
    assert(out@ + replace_all(s@, pat@, rep@) =~= replace_all(s@, pat@, rep@));
    while i < s.len()
        invariant
            i <= s@.len(),
            replace_all(s@, pat@, rep@) == out@ + replace_all(s@.skip(i as int), pat@, rep@),
        decreases s@.len() - i,
    {
        let ghost rest = s@.skip(i as int);
        if pat.len() > 0 && occurs(s, i, pat) {
            assert(rest.take(pat@.len() as int) =~= s@.subrange(i as int, i + pat@.len()));
            assert(rest.skip(pat@.len() as int) =~= s@.skip(i + pat@.len()));
            let ghost before = out@;
            for j in 0..rep.len()
                invariant
                    out@ == before + rep@.take(j as int),
            {
                out.push(rep[j]);
                assert(out@ =~= before + rep@.take(j + 1));
            }
            assert(rep@.take(rep@.len() as int) =~= rep@);
            assert(before + (rep@ + replace_all(rest.skip(pat@.len() as int), pat@, rep@)) =~= out@
                + replace_all(s@.skip(i + pat@.len()), pat@, rep@));
            i = i + pat.len();
        } else {
            assert(!(pat@.len() > 0 && rest.len() >= pat@.len() && rest.take(pat@.len() as int)
                == pat@)) by {
                if pat@.len() > 0 && rest.len() >= pat@.len() {
                    assert(rest.take(pat@.len() as int) =~= s@.subrange(i as int, i + pat@.len()));
                }
            }
            assert(rest.skip(1) =~= s@.skip(i + 1));
            let ghost before = out@;
            out.push(s[i]);
            assert(before + (seq![rest[0]] + replace_all(rest.skip(1), pat@, rep@)) =~= out@
                + replace_all(s@.skip(i + 1), pat@, rep@));
            i = i + 1;
        }
    }
    assert(s@.skip(i as int) =~= seq![]);
    assert(out@ + seq![] =~= out@);
    out
}

fn substitute_char(c: char) -> (r: char)
    ensures
        r == substitute(c),
{
    if c == 'ʲ' {
        'j'
    } else if c == 'r' {
        'ɹ'
    } else if c == 'x' {
        'k'
    } else if c == 'ɬ' {
        'l'
    } else {
        c
    }
}

fn is_z_follower(c: char) -> (r: bool)
    ensures
        r == z_follower(c),
{
    c == ';' || c == ':' || c == ',' || c == '.' || c == '!' || c == '?' || c == '¡' || c == '¿'
        || c == '—' || c == '…' || c == '"' || c == '«' || c == '»' || c == ' '
}

/// The stages between the backend's output and the vocabulary filter.
fn rewrite(raw: &Vec<char>, american: bool) -> (r: Vec<char>)
    ensures
        ({
            let s1 = replace_all(
                replace_all(raw@, kokoro_us(), kokoro_us_fixed()),
                kokoro_gb(),
                kokoro_gb_fixed(),
            );
            let s2 = s1.map_values(|c: char| substitute(c));
            let s3 = spaced_upto(s2, s2.len());
            let s4 = joined_upto(s3, s3.len());
            r@ == if american {
                ninety_upto(s4, s4.len())
            } else {
                s4
            }
        }),
{
    let a = replace_all_chars(raw, &lit_kokoro_us(), &lit_kokoro_us_fixed());
    let s1 = replace_all_chars(&a, &lit_kokoro_gb(), &lit_kokoro_gb_fixed());
    let mut s2: Vec<char> = Vec::new();
    for i in 0..s1.len()
        invariant
            s2@ == s1@.take(i as int).map_values(|c: char| substitute(c)),
    {
        s2.push(substitute_char(s1[i]));
        assert(s2@ =~= s1@.take(i + 1).map_values(|c: char| substitute(c)));
    }
    assert(s1@.take(s1@.len() as int) =~= s1@);
    let h = lit_hundred();
    let mut s3: Vec<char> = Vec::new();
    for i in 0..s2.len()
        invariant
            h@ == hundred(),
            s3@ == spaced_upto(s2@, i as nat),
    {
        let c = s2[i];
        if i >= 1 && occurs(&s2, i, &h) {
            let p = s2[i - 1];
            if ('a' <= p && p <= 'z') || p == 'ɹ' || p == 'ː' {
                s3.push(' ');
            }
        }
        s3.push(c);
    }
    let mut s4: Vec<char> = Vec::new();
    for i in 0..s3.len()
        invariant
            s4@ == joined_upto(s3@, i as nat),
    {
        let c = s3[i];
        let drop = c == ' ' && i + 1 < s3.len() && s3[i + 1] == 'z' && (i + 2 == s3.len()
            || is_z_follower(s3[i + 2]));
        if !drop {
            s4.push(c);
        }
    }
    if !american {
        return s4;
    }
    let n = lit_nine();
    let mut s5: Vec<char> = Vec::new();
    for i in 0..s4.len()
        invariant
            n@ == nine(),
            s5@ == ninety_upto(s4@, i as nat),
    {
        let c = s4[i];
        let is_d = c == 't' && i + 1 < s4.len() && s4[i + 1] == 'i' && i >= 5 && occurs(
            &s4,
            i - 5,
            &n,
        ) && !(i + 2 < s4.len() && s4[i + 2] == 'ː');
        if is_d {
            s5.push('d');
        } else {
            s5.push(c);
        }
    }
    s5
}

/// Turns the output of the phonemization backend into the phoneme string of the model.
pub struct Phonemizer {
    lang: String,
}

impl Phonemizer {
    /// The supported languages: `a` for American and `b` for British English.
    pub open spec fn supported(lang: Seq<char>) -> bool {
        lang == seq!['a'] || lang == seq!['b']
    }

    pub closed spec fn lang(&self) -> Seq<char> {
        self.lang@
    }

    pub fn new(lang: &str) -> (r: Self)
        requires
            Self::supported(lang@),
        ensures
            r.lang() == lang@,
    {
        Phonemizer { lang: String::from_str(lang) }
    }

    /// The espeak voice for this language.
    pub fn backend_language(&self) -> (r: &'static str)
        ensures
            r@ == if self.lang() == seq!['a'] {
                "en-us"@
            } else {
                "en-gb"@
            },
    {
        if self.is_american() {
            "en-us"
        } else {
            "en-gb"
        }
    }

    fn is_american(&self) -> (r: bool)
        ensures
            r == (self.lang() == seq!['a']),
    {
        let l = chars_of(self.lang.as_str());
        let r = l.len() == 1 && l[0] == 'a';
        assert(r ==> l@ =~= seq!['a']);
        r
    }

    /// The model's phoneme string for what the backend made of a text.
    pub fn phonemize(&self, raw: &str) -> (r: String)
        ensures
            r@ == finish_phonemes(raw@, self.lang() == seq!['a']),
    {
        let american = self.is_american();
        let s = rewrite(&chars_of(raw), american);
        let table = symbol_table();
        let mut kept: Vec<char> = Vec::new();
        for i in 0..s.len()
            invariant
                table@ == crate::vocab::symbols(),
                kept@ == s@.take(i as int).filter(|c: char| in_vocab(c)),
        {
            reveal(Seq::filter);
            assert(s@.take(i + 1).drop_last() =~= s@.take(i as int));
            if token_index(&table, s[i]).is_some() {
                kept.push(s[i]);
            }
        }
        assert(s@.take(s@.len() as int) =~= s@);
        string_from_chars(&crate::clauses::trim_chars(&kept))
    }
}

} // verus!
