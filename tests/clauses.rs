use kokoros::clauses::split_text_into_speech_chunks;

fn chunks(text: &str, n: usize) -> Vec<String> {
    split_text_into_speech_chunks(text, n)
}

#[test]
fn short_sentences_end_in_a_period() {
    assert_eq!(chunks("Hello world! How are you today?", 10), vec!["Hello world.", "How are you today."]);
}

#[test]
fn long_sentences_are_packed_by_clause() {
    assert_eq!(
        chunks("This sentence is long, it has clauses; several of them: really many words here, and more.", 5),
        vec!["This sentence is long,", "it has clauses;", "several of them:", "really many words here,", "and more"]
    );
    assert_eq!(
        chunks("One, two, three, four, five, six, seven, eight.", 3),
        vec!["One, two, three,", "four, five, six,", "seven, eight"]
    );
}

#[test]
fn an_overlong_clause_stands_alone() {
    assert_eq!(
        chunks("Alpha beta gamma delta epsilon zeta, eta theta", 3),
        vec!["Alpha beta gamma delta epsilon zeta,", "eta theta"]
    );
    assert_eq!(chunks("a b c d e", 0), vec!["a b c d e"]);
}

#[test]
fn text_without_sentences_falls_back_to_words() {
    assert_eq!(chunks("...", 2), vec!["..."]);
    assert!(chunks("", 3).is_empty());
    assert!(chunks("  \n ", 3).is_empty());
}

#[test]
fn inner_spacing_is_kept_and_ends_are_trimmed() {
    assert_eq!(
        chunks("  Spaced   out  text  .  Another one!", 10),
        vec!["Spaced   out  text.", "Another one."]
    );
}

#[test]
fn a_mark_right_after_a_cut_opens_no_clause() {
    assert_eq!(
        chunks("Short. ,leading comma clause here and more words, tail", 3),
        vec!["Short.", "leading comma clause here and more words,", "tail"]
    );
}
