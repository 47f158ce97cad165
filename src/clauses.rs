use vstd::prelude::*;
use crate::chunker::{chunks_view, close_state, count_pass, count_state};
use crate::text::{
    chars_of, copy_chars, is_space, is_space_char, join_with_spaces, join_words, split_words,
    string_from_chars, words_of, words_view,
};

verus! {

/// `s` without its leading whitespace.
pub open spec fn trim_start(s: Seq<char>) -> Seq<char>
    decreases s.len(),
{
    if s.len() > 0 && is_space(s[0]) {
        trim_start(s.skip(1))
    } else {
        s
    }
}

/// `s` without its trailing whitespace.
pub open spec fn trim_end(s: Seq<char>) -> Seq<char>
    decreases s.len(),
{
    if s.len() > 0 && is_space(s.last()) {
        trim_end(s.drop_last())
    } else {
        s
    }
}

/// `s` without leading and trailing whitespace, as `str::trim` gives it.
pub open spec fn trim(s: Seq<char>) -> Seq<char> {
    trim_end(trim_start(s))
}

pub open spec fn is_sentence_stop(c: char) -> bool {
    c == '.' || c == '!' || c == '?'
}

pub open spec fn is_clause_mark(c: char) -> bool {
    c == ',' || c == ';' || c == ':'
}

/// The pieces of `s` between sentence stops, empty ones included.
pub open spec fn split_at_stops(s: Seq<char>) -> Seq<Seq<char>>
    decreases s.len(),
{
    if s.len() == 0 {
        seq![seq![]]
    } else {
        let p = split_at_stops(s.drop_last());
        if is_sentence_stop(s.last()) {
            p.push(seq![])
        } else {
            p.update(p.len() - 1, p.last().push(s.last()))
        }
    }
}

/// The trimmed pieces that are not blank, in order.
pub open spec fn trimmed_nonblank(ps: Seq<Seq<char>>) -> Seq<Seq<char>>
    decreases ps.len(),
{
    if ps.len() == 0 {
        seq![]
    } else if trim(ps.last()).len() > 0 {
        trimmed_nonblank(ps.drop_last()).push(trim(ps.last()))
    } else {
        trimmed_nonblank(ps.drop_last())
    }
}

/// Cutting a sentence after each clause mark (`,` `;` `:`), over its first `k`
/// characters: the clauses cut so far, each with its mark, and where the next begins.
/// A mark right after the previous cut yields no clause.
pub open spec fn clause_state(s: Seq<char>, k: nat) -> (Seq<Seq<char>>, nat)
    decreases k,
{
    if k == 0 {
        (seq![], 0)
    } else {
        let st = clause_state(s, (k - 1) as nat);
        let i = (k - 1) as nat;
        if is_clause_mark(s[i as int]) {
            if i > st.1 {
                (st.0.push(s.subrange(st.1 as int, i as int).push(s[i as int])), i + 1)
            } else {
                (st.0, i + 1)
            }
        } else {
            st
        }
    }
}

/// The clauses of a sentence, trimmed, without blank ones.
pub open spec fn clauses_of(s: Seq<char>) -> Seq<Seq<char>> {
    let st = clause_state(s, s.len());
    let raw = if st.1 < s.len() {
        st.0.push(s.skip(st.1 as int))
    } else {
        st.0
    };
    trimmed_nonblank(raw)
}

/// Packing clauses greedily into chunks of at most `max` words (a longer clause stands
/// alone): the chunks closed so far, the open chunk, and its word count.
pub open spec fn pack_state(cs: Seq<Seq<char>>, max: nat) -> (Seq<Seq<char>>, Seq<char>, nat)
    decreases cs.len(),
{
    if cs.len() == 0 {
        (seq![], seq![], 0)
    } else {
        let st = pack_state(cs.drop_last(), max);
        let c = cs.last();
        let n = words_of(c).len();
        if st.2 + n <= max {
            (st.0, if st.1.len() == 0 {
                c
            } else {
                st.1 + seq![' '] + c
            }, st.2 + n)
        } else {
            (if st.1.len() > 0 {
                st.0.push(st.1)
            } else {
                st.0
            }, c, n)
        }
    }
}

/// The chunks of one trimmed sentence: the sentence and a period when it has at most
/// `max` words, else its clauses packed into chunks of at most `max` words.
pub open spec fn sentence_chunks(s: Seq<char>, max: nat) -> Seq<Seq<char>> {
    if words_of(s).len() <= max {
        seq![s.push('.')]
    } else {
        let st = pack_state(clauses_of(s), max);
        if st.1.len() > 0 {
            st.0.push(st.1)
        } else {
            st.0
        }
    }
}

/// The chunks of the first `k` sentences.
pub open spec fn all_sentence_chunks(ss: Seq<Seq<char>>, max: nat, k: nat) -> Seq<Seq<char>>
    decreases k,
{
    if k == 0 {
        seq![]
    } else {
        all_sentence_chunks(ss, max, (k - 1) as nat) + sentence_chunks(ss[k - 1], max)
    }
}

/// Chunks of `text` made sentence by sentence and clause by clause, of at most `max`
/// words where a clause allows it; text without any sentence falls back to groups of
/// `max` words.
pub open spec fn clause_chunks(text: Seq<char>, max: nat) -> Seq<Seq<char>> {
    let ss = trimmed_nonblank(split_at_stops(text));
    let cs = all_sentence_chunks(ss, max, ss.len());
    if cs.len() > 0 {
        cs
    } else {
        close_state(count_state(words_of(text), max)).map_values(
            |c: Seq<Seq<char>>| join_words(c),
        )
    }
}

pub open spec fn strings_view(v: Seq<String>) -> Seq<Seq<char>> {
    v.map_values(|s: String| s@)
}

fn slice_of(s: &Vec<char>, from: usize, to: usize) -> (r: Vec<char>)
    requires
        from <= to <= s@.len(),
    ensures
        r@ == s@.subrange(from as int, to as int),
{
    let mut r: Vec<char> = Vec::new();
    for i in from..to
        invariant
            from <= to <= s@.len(),
            r@ == s@.subrange(from as int, i as int),
    {
        r.push(s[i]);
        assert(r@ =~= s@.subrange(from as int, i + 1));
    }
    r
}

/// `s` without leading and trailing whitespace.
pub(crate) fn trim_chars(s: &Vec<char>) -> (r: Vec<char>)
    ensures
        r@ == trim(s@),
{
    let mut a: usize = 0;
    assert(s@.skip(0) =~= s@);
    while a < s.len() && is_space_char(s[a])
        invariant
            a <= s@.len(),
            trim_start(s@) == trim_start(s@.skip(a as int)),
        decreases s@.len() - a,
    {
        assert(s@.skip(a as int).skip(1) =~= s@.skip(a + 1));
        a = a + 1;
    }
    let ghost t = s@.skip(a as int);
    assert(trim_start(t) == t);
    let mut b: usize = s.len();
    assert(t.take(b - a) =~= t);
    while b > a && is_space_char(s[b - 1])
        invariant
            a <= b <= s@.len(),
            trim_end(t) == trim_end(t.take(b - a)),
            t == s@.skip(a as int),
        decreases b,
    {
        assert(t.take(b - a).drop_last() =~= t.take(b - a - 1));
        b = b - 1;
    }
    assert(t.take(b - a) =~= s@.subrange(a as int, b as int));
    slice_of(s, a, b)
}

/// The pieces of `s` between sentence stops.
fn split_stops(s: &Vec<char>) -> (r: Vec<Vec<char>>)
    ensures
        words_view(r@) == split_at_stops(s@),
{
    let mut r: Vec<Vec<char>> = Vec::new();
    let mut cur: Vec<char> = Vec::new();
    for i in 0..s.len()
        invariant
            split_at_stops(s@.take(i as int)) == words_view(r@).push(cur@),
    {
        assert(s@.take(i + 1).drop_last() =~= s@.take(i as int));
        let ghost rv = words_view(r@);
        let c = s[i];
        if c == '.' || c == '!' || c == '?' {
            let piece = cur;
            r.push(piece);
            cur = Vec::new();
            assert(words_view(r@) =~= rv.push(piece@));
            assert(cur@ =~= seq![]);
        } else {
            let ghost old_cur = cur@;
            cur.push(c);
            assert(rv.push(old_cur).update(rv.len() as int, old_cur.push(c)) =~= rv.push(cur@));
        }
    }
    assert(s@.take(s@.len() as int) =~= s@);
    let ghost rv = words_view(r@);
    let piece = cur;
    r.push(piece);
    assert(words_view(r@) =~= rv.push(piece@));
    r
}

/// The trimmed pieces that are not blank.
fn keep_trimmed_nonblank(ps: &Vec<Vec<char>>) -> (r: Vec<Vec<char>>)
    ensures
        words_view(r@) == trimmed_nonblank(words_view(ps@)),
{
    let mut r: Vec<Vec<char>> = Vec::new();
    for i in 0..ps.len()
        invariant
            words_view(r@) == trimmed_nonblank(words_view(ps@).take(i as int)),
    {
        assert(words_view(ps@).take(i + 1).drop_last() =~= words_view(ps@).take(i as int));
        let t = trim_chars(&ps[i]);
        if t.len() > 0 {
            let ghost rv = words_view(r@);
            r.push(t);
            assert(words_view(r@) =~= rv.push(t@));
        }
    }
    assert(words_view(ps@).take(ps@.len() as int) =~= words_view(ps@));
    r
}

/// The clauses of a sentence, trimmed, without blank ones.
fn clauses(s: &Vec<char>) -> (r: Vec<Vec<char>>)
    ensures
        words_view(r@) == clauses_of(s@),
{
    let mut raw: Vec<Vec<char>> = Vec::new();
    let mut pos: usize = 0;
    for i in 0..s.len()
        invariant
            clause_state(s@, i as nat) == (words_view(raw@), pos as nat),
            pos <= i,
    {
        let c = s[i];
        if c == ',' || c == ';' || c == ':' {
            if i > pos {
                let mut piece = slice_of(s, pos, i);
                piece.push(c);
                let ghost rv = words_view(raw@);
                raw.push(piece);
                assert(words_view(raw@) =~= rv.push(s@.subrange(pos as int, i as int).push(c)));
            }
            pos = i + 1;
        }
    }
    if pos < s.len() {
        let ghost rv = words_view(raw@);
        let rest = slice_of(s, pos, s.len());
        raw.push(rest);
        assert(s@.subrange(pos as int, s@.len() as int) =~= s@.skip(pos as int));
        assert(words_view(raw@) =~= rv.push(s@.skip(pos as int)));
    }
    keep_trimmed_nonblank(&raw)
}

fn word_count(s: &Vec<char>) -> (r: usize)
    ensures
        r == words_of(s@).len(),
{
    let ws = split_words(s);
    assert(words_view(ws@).len() == ws@.len());
    ws.len()
}

/// `a`, a space, then `b`.
fn concat_spaced(a: &Vec<char>, b: &Vec<char>) -> (r: Vec<char>)
    ensures
        r@ == a@ + seq![' '] + b@,
{
    let mut r = copy_chars(a);
    r.push(' ');
    let ghost mid = r@;
    for i in 0..b.len()
        invariant
            r@ == mid + b@.take(i as int),
    {
        r.push(b[i]);
        assert(r@ =~= mid + b@.take(i + 1));
    }
    assert(b@.take(b@.len() as int) =~= b@);
    assert(r@ =~= a@ + seq![' '] + b@);
    r
}

fn push_piece(out: &mut Vec<Vec<char>>, p: Vec<char>)
    ensures
        words_view(final(out)@) == words_view(old(out)@).push(p@),
{
    let ghost prev = out@;
    out.push(p);
    assert(words_view(out@) =~= words_view(prev).push(p@));
}

/// The chunks of one trimmed sentence.
fn chunks_of_sentence(s: &Vec<char>, max_words: usize, out: &mut Vec<Vec<char>>)
    ensures
        words_view(final(out)@) == words_view(old(out)@) + sentence_chunks(s@, max_words as nat),
{
    let ghost start = words_view(out@);
    if word_count(s) <= max_words {
        let mut c = copy_chars(s);
        c.push('.');
        push_piece(out, c);
        assert(words_view(out@) =~= start + seq![s@.push('.')]);
        return;
    }
    let cs = clauses(s);
    let ghost cv = words_view(cs@);
    let mut done: Vec<Vec<char>> = Vec::new();
    let mut cur: Vec<char> = Vec::new();
    let mut count: usize = 0;
    for i in 0..cs.len()
        invariant
            cv == words_view(cs@),
            pack_state(cv.take(i as int), max_words as nat) == (
            words_view(done@),
            cur@,
            count as nat,
            ),
            count <= max_words || cur@.len() > 0,
    {
        assert(cv.take(i + 1).drop_last() =~= cv.take(i as int));
        let clause = &cs[i];
        let n = word_count(clause);
        if n <= max_words && count <= max_words - n {
            if cur.len() == 0 {
                cur = copy_chars(clause);
            } else {
                cur = concat_spaced(&cur, clause);
            }
            count = count + n;
        } else {
            if cur.len() > 0 {
                push_piece(&mut done, cur);
            }
            cur = copy_chars(clause);
            count = n;
        }
    }
    assert(cv.take(cs@.len() as int) =~= cv);
    if cur.len() > 0 {
        push_piece(&mut done, cur);
    }
    let ghost before = words_view(out@);
    let mut done = done;
    let ghost dv = words_view(done@);
    out.append(&mut done);
    assert(words_view(out@) =~= before + dv);
}

/// Splits text into chunks sentence by sentence: a sentence of at most `max_words`
/// words becomes one chunk ending in a period; a longer one is cut after its clause
/// marks (`,` `;` `:`) and the clauses are packed greedily into chunks of at most
/// `max_words` words. Text without any sentence is cut every `max_words` words.
pub fn split_text_into_speech_chunks(text: &str, max_words: usize) -> (r: Vec<String>)
    ensures
        strings_view(r@) == clause_chunks(text@, max_words as nat),
{
    let chars = chars_of(text);
    let sentences = keep_trimmed_nonblank(&split_stops(&chars));
    let ghost ss = words_view(sentences@);
    let mut out: Vec<Vec<char>> = Vec::new();
    for i in 0..sentences.len()
        invariant
            ss == words_view(sentences@),
            words_view(out@) == all_sentence_chunks(ss, max_words as nat, i as nat),
    {
        chunks_of_sentence(&sentences[i], max_words, &mut out);
    }
    let mut result: Vec<String> = Vec::new();
    if out.len() > 0 {
        for i in 0..out.len()
            invariant
                result@.len() == i,
                forall|j: int| 0 <= j < i ==> (#[trigger] result@[j])@ == out@[j]@,
        {
            result.push(string_from_chars(&out[i]));
        }
        assert(strings_view(result@) =~= words_view(out@));
        return result;
    }
    let words = split_words(&chars);
    let groups = count_pass(&words, max_words);
    let ghost gv = chunks_view(groups@);
    for i in 0..groups.len()
        invariant
            gv == chunks_view(groups@),
            result@.len() == i,
            forall|j: int| 0 <= j < i ==> (#[trigger] result@[j])@ == join_words(gv[j]),
    {
        result.push(string_from_chars(&join_with_spaces(&groups[i])));
    }
    assert(strings_view(result@) =~= close_state(count_state(words_of(text@), max_words as nat)).map_values(
        |c: Seq<Seq<char>>| join_words(c),
    ));
    result
}

} // verus!
