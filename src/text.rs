use vstd::prelude::*;

verus! {

broadcast use vstd::string::group_string_axioms;

/// Whitespace as `char::is_whitespace` defines it (Unicode White_Space).
pub open spec fn is_space(c: char) -> bool {
    let u = c as u32;
    ||| 0x09 <= u <= 0x0d
    ||| u == 0x20
    ||| u == 0x85
    ||| u == 0xa0
    ||| u == 0x1680
    ||| 0x2000 <= u <= 0x200a
    ||| u == 0x2028
    ||| u == 0x2029
    ||| u == 0x202f
    ||| u == 0x205f
    ||| u == 0x3000
}

pub fn is_space_char(c: char) -> (r: bool)
    ensures
        r == is_space(c),
{
    let u = c as u32;
    (0x09 <= u && u <= 0x0d) || u == 0x20 || u == 0x85 || u == 0xa0 || u == 0x1680 || (0x2000
        <= u && u <= 0x200a) || u == 0x2028 || u == 0x2029 || u == 0x202f || u == 0x205f || u
        == 0x3000
}

/// The characters of a string, in order.
pub fn chars_of(s: &str) -> (r: Vec<char>)
    ensures
        r@ == s@,
{
    let mut r: Vec<char> = Vec::new();
    for c in it: s.chars()
        invariant
            it.seq() == s@,
            r@ == it.seq().take(it.index() as int),
    {
        r.push(c);
        assert(r@ =~= it.seq().take(it.index() as int + 1));
    }
    assert(r@ =~= s@);
    r
}


/// The whitespace-separated words of `s`: its maximal runs of non-space characters.
pub open spec fn words_of(s: Seq<char>) -> Seq<Seq<char>>
    decreases s.len(),
{
    if s.len() == 0 {
        seq![]
    } else {
        let prev = words_of(s.drop_last());
        let c = s.last();
        if is_space(c) {
            prev
        } else if s.len() >= 2 && !is_space(s[s.len() - 2]) {
            prev.update(prev.len() - 1, prev.last().push(c))
        } else {
            prev.push(seq![c])
        }
    }
}

/// The character sequences that a list of words holds.
pub open spec fn words_view(v: Seq<Vec<char>>) -> Seq<Seq<char>> {
    v.map_values(|w: Vec<char>| w@)
}

/// Every word holds at least one character.
pub proof fn lemma_words_nonempty(s: Seq<char>)
    ensures
        forall|i: int| 0 <= i < words_of(s).len() ==> (#[trigger] words_of(s)[i]).len() > 0,
    decreases s.len(),
{
    if s.len() > 0 {
        let p = s.drop_last();
        lemma_words_nonempty(p);
        if !is_space(s.last()) && s.len() >= 2 && !is_space(s[s.len() - 2]) {
            lemma_words_end(p);
            let prev = words_of(p);
            assert forall|i: int| 0 <= i < words_of(s).len() implies (#[trigger] words_of(
                s,
            )[i]).len() > 0 by {
                if i < prev.len() - 1 {
                    assert(words_of(s)[i] == prev[i]);
                }
            }
        }
    }
}

proof fn lemma_words_end(s: Seq<char>)
    requires
        s.len() > 0,
        !is_space(s.last()),
    ensures
        words_of(s).len() > 0,
    decreases s.len(),
{
    if s.len() >= 2 && !is_space(s[s.len() - 2]) {
        lemma_words_end(s.drop_last());
    }
}

/// No word holds a space.
pub proof fn lemma_words_no_space(s: Seq<char>)
    ensures
        forall|i: int, j: int|
            0 <= i < words_of(s).len() && 0 <= j < words_of(s)[i].len() ==> !is_space(
                #[trigger] words_of(s)[i][j],
            ),
    decreases s.len(),
{
    if s.len() > 0 {
        let p = s.drop_last();
        lemma_words_no_space(p);
        let prev = words_of(p);
        if !is_space(s.last()) && s.len() >= 2 && !is_space(s[s.len() - 2]) {
            lemma_words_end(p);
            assert forall|i: int, j: int|
                0 <= i < words_of(s).len() && 0 <= j < words_of(s)[i].len() implies !is_space(
                #[trigger] words_of(s)[i][j],
            ) by {
                if i < prev.len() - 1 {
                    assert(words_of(s)[i] == prev[i]);
                } else if j < prev.last().len() {
                    assert(words_of(s)[i][j] == prev[i][j]);
                }
            }
        } else if !is_space(s.last()) {
            assert forall|i: int, j: int|
                0 <= i < words_of(s).len() && 0 <= j < words_of(s)[i].len() implies !is_space(
                #[trigger] words_of(s)[i][j],
            ) by {
                if i < prev.len() {
                    assert(words_of(s)[i] == prev[i]);
                }
            }
        }
    }
}

/// A non-empty run of non-space characters is a single word.
pub proof fn lemma_single_word(w: Seq<char>)
    requires
        w.len() > 0,
        forall|j: int| 0 <= j < w.len() ==> !is_space(#[trigger] w[j]),
    ensures
        words_of(w) == seq![w],
    decreases w.len(),
{
    if w.len() == 1 {
        assert(w.drop_last() =~= Seq::<char>::empty());
        assert(words_of(w.drop_last()) == Seq::<Seq<char>>::empty());
        assert(seq![w.last()] =~= w);
        assert(Seq::<Seq<char>>::empty().push(seq![w.last()]) =~= seq![w]);
    } else {
        assert(!is_space(w[w.len() - 2]));
        assert(!is_space(w.last()));
        assert forall|j: int| 0 <= j < w.drop_last().len() implies !is_space(
            #[trigger] w.drop_last()[j],
        ) by {
            assert(w.drop_last()[j] == w[j]);
        }
        lemma_single_word(w.drop_last());
        assert(w.drop_last().push(w.last()) =~= w);
        assert(seq![w.drop_last()].update(0, w.drop_last().push(w.last())) =~= seq![w]);
    }
}

/// Each word of a text is, on its own, a text of exactly that one word.
pub proof fn lemma_word_of_words(s: Seq<char>, i: int)
    requires
        0 <= i < words_of(s).len(),
    ensures
        words_of(words_of(s)[i]) == seq![words_of(s)[i]],
{
    lemma_words_nonempty(s);
    lemma_words_no_space(s);
    let w = words_of(s)[i];
    assert forall|j: int| 0 <= j < w.len() implies !is_space(#[trigger] w[j]) by {
        assert(!is_space(words_of(s)[i][j]));
    }
    lemma_single_word(w);
}

/// The words of two texts joined by a space are the words of the first, then those of
/// the second.
pub proof fn lemma_words_spaced(a: Seq<char>, b: Seq<char>)
    ensures
        words_of(a + seq![' '] + b) == words_of(a) + words_of(b),
    decreases b.len(),
{
    let x = a + seq![' '] + b;
    if b.len() == 0 {
        assert(x.drop_last() =~= a);
        assert(words_of(a) + words_of(b) =~= words_of(a));
    } else {
        let bd = b.drop_last();
        lemma_words_spaced(a, bd);
        let xd = a + seq![' '] + bd;
        assert(x.drop_last() =~= xd);
        let c = b.last();
        assert(x.last() == c);
        if is_space(c) {
        } else if b.len() >= 2 && !is_space(b[b.len() - 2]) {
            assert(x[x.len() - 2] == b[b.len() - 2]);
            assert(bd.last() == b[b.len() - 2]);
            lemma_words_end(bd);
            let wa = words_of(a);
            let wb = words_of(bd);
            assert((wa + wb).update((wa + wb).len() - 1, (wa + wb).last().push(c)) =~= wa + wb.update(
                wb.len() - 1,
                wb.last().push(c),
            ));
        } else {
            assert(x[x.len() - 2] == if b.len() >= 2 {
                b[b.len() - 2]
            } else {
                ' '
            });
            assert((words_of(a) + words_of(bd)).push(seq![c]) =~= words_of(a) + words_of(bd).push(
                seq![c],
            ));
        }
    }
}

/// Splits a character sequence at whitespace, as `str::split_whitespace` does.
pub fn split_words(s: &Vec<char>) -> (r: Vec<Vec<char>>)
    ensures
        words_view(r@) == words_of(s@),
{
    let mut r: Vec<Vec<char>> = Vec::new();
    let mut cur: Vec<char> = Vec::new();
    let mut i: usize = 0;
    while i < s.len()
        invariant
            i <= s.len(),
            cur@.len() > 0 <==> (i > 0 && !is_space(s@[i - 1])),
            words_of(s@.take(i as int)) == if cur@.len() == 0 {
                words_view(r@)
            } else {
                words_view(r@).push(cur@)
            },
        decreases s.len() - i,
    {
        let c = s[i];
        assert(s@.take(i + 1).drop_last() =~= s@.take(i as int));
        if is_space_char(c) {
            if cur.len() > 0 {
                let ghost prev = r@;
                let w = cur;
                r.push(w);
                cur = Vec::new();
                assert(words_view(r@) =~= words_view(prev).push(w@));
            }
        } else {
            let ghost old_cur = cur@;
            cur.push(c);
            if i > 0 && !is_space_char(s[i - 1]) {
                assert(words_view(r@).push(old_cur).update(
                    words_view(r@).len() as int,
                    old_cur.push(c),
                ) =~= words_view(r@).push(cur@));
            } else {
                assert(cur@ =~= seq![c]);
            }
        }
        i = i + 1;
    }
    assert(s@.take(s.len() as int) =~= s@);
    if cur.len() > 0 {
        let ghost prev = r@;
        let w = cur;
        r.push(w);
        assert(words_view(r@) =~= words_view(prev).push(w@));
    }
    r
}


/// Words joined by single spaces.
pub open spec fn join_words(ws: Seq<Seq<char>>) -> Seq<char>
    decreases ws.len(),
{
    if ws.len() == 0 {
        seq![]
    } else if ws.len() == 1 {
        ws[0]
    } else {
        join_words(ws.drop_last()) + seq![' '] + ws.last()
    }
}

/// A copy of a character vector.
pub fn copy_chars(w: &Vec<char>) -> (r: Vec<char>)
    ensures
        r@ == w@,
{
    let mut r: Vec<char> = Vec::new();
    for i in 0..w.len()
        invariant
            r@ == w@.take(i as int),
    {
        r.push(w[i]);
        assert(r@ =~= w@.take(i + 1));
    }
    assert(r@ =~= w@);
    r
}

/// Copies the words `ws[from..to]`.
pub fn copy_words(ws: &Vec<Vec<char>>, from: usize, to: usize) -> (r: Vec<Vec<char>>)
    requires
        from <= to <= ws@.len(),
    ensures
        words_view(r@) == words_view(ws@).subrange(from as int, to as int),
{
    let mut r: Vec<Vec<char>> = Vec::new();
    for i in from..to
        invariant
            from <= to <= ws@.len(),
            words_view(r@) == words_view(ws@).subrange(from as int, i as int),
    {
        let ghost prev = r@;
        r.push(copy_chars(&ws[i]));
        assert(words_view(r@) =~= words_view(prev).push(ws@[i as int]@));
        assert(words_view(r@) =~= words_view(ws@).subrange(from as int, i + 1));
    }
    r
}

/// The words of `ws` joined by single spaces.
pub fn join_with_spaces(ws: &Vec<Vec<char>>) -> (r: Vec<char>)
    ensures
        r@ == join_words(words_view(ws@)),
{
    let mut r: Vec<char> = Vec::new();
    for i in 0..ws.len()
        invariant
            r@ == join_words(words_view(ws@).take(i as int)),
    {
        let ghost before = words_view(ws@).take(i as int);
        assert(words_view(ws@).take(i + 1).drop_last() =~= before);
        if i > 0 {
            r.push(' ');
        }
        let w = &ws[i];
        let ghost mid = r@;
        for j in 0..w.len()
            invariant
                r@ == mid + w@.take(j as int),
        {
            r.push(w[j]);
            assert(r@ =~= mid + w@.take(j + 1));
        }
        assert(w@.take(w@.len() as int) =~= w@);
        if i == 0 {
            assert(r@ =~= words_view(ws@).take(1)[0]);
        }
    }
    assert(words_view(ws@).take(ws@.len() as int) =~= words_view(ws@));
    r
}

/// Relies on `FromIterator<char>` for `String`: the string holds the characters in order.
#[verifier::external_body]
pub fn string_from_chars(v: &Vec<char>) -> (r: String)
    ensures
        r@ == v@,
{
    v.iter().collect()
}

} // verus!
