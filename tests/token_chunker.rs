use kokoros::token_chunker::TokenChunker;

/// Runs the chunker with the character count standing in for the token count.
fn run(text: &str, max: usize) -> (Vec<String>, Vec<String>) {
    let mut c = TokenChunker::new(text, max);
    let mut asked = Vec::new();
    while let Some(t) = c.pending_text() {
        c.answer(t.chars().count());
        asked.push(t);
    }
    (c.finish(), asked)
}

#[test]
fn sentences_are_joined_while_within_the_limit() {
    let (chunks, asked) = run("Hi. Yo! Ok?", 10);
    assert_eq!(chunks, vec!["Hi. Yo.", "Ok."]);
    assert_eq!(asked, vec!["Hi.", "Yo.", "Hi. Yo.", "Ok.", "Hi. Yo. Ok."]);
}

#[test]
fn sentences_stay_apart_when_the_pair_is_too_long() {
    let (chunks, _) = run("Hi. Yo! Ok?", 6);
    assert_eq!(chunks, vec!["Hi.", "Yo.", "Ok."]);
}

#[test]
fn a_long_sentence_is_cut_by_words() {
    let (chunks, _) = run("one two three four five six; seven.", 12);
    assert_eq!(chunks, vec!["one two", "three four", "five six.", "seven."]);
}

#[test]
fn the_open_chunk_closes_before_a_long_sentence() {
    let (chunks, _) = run("A short one. then a considerably longer sentence follows here; end", 15);
    assert_eq!(
        chunks,
        vec!["A short one.", "then a", "considerably", "longer sentence", "follows here.", "end."]
    );
    let (chunks, _) = run("Hi. Incomprehensibilities", 10);
    assert_eq!(chunks, vec!["Hi.", "Incomprehensibilities."]);
}

#[test]
fn text_without_sentences_gives_no_chunks() {
    assert!(run("", 5).0.is_empty());
    assert!(run("  ;;; ", 5).0.is_empty());
    let c = TokenChunker::new("", 5);
    assert!(c.pending_text().is_none());
}
