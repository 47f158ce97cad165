use kokoros::chunker::split_text_into_speech_chunks;

fn chunks(text: &str, n: usize) -> Vec<String> {
    split_text_into_speech_chunks(text, n)
}

#[test]
fn splits_at_period_and_keeps_commas_below_target() {
    assert_eq!(
        chunks("Hello world. This is a test, and it continues, because reasons.", 10),
        vec!["Hello world.", "This is a test, and it continues, because reasons."]
    );
}

#[test]
fn short_unpunctuated_text_is_one_chunk() {
    assert_eq!(chunks("the quick brown fox jumps", 10), vec!["the quick brown fox jumps"]);
    let once = chunks("the   quick\tbrown fox", 4);
    assert_eq!(once, vec!["the quick brown fox"]);
    assert_eq!(chunks(&once.join(" "), 4), once);
}

#[test]
fn empty_input_gives_no_chunks() {
    assert!(chunks("", 10).is_empty());
    assert!(chunks("   \n\t ", 10).is_empty());
}

#[test]
fn unpunctuated_text_falls_back_to_word_count() {
    assert_eq!(
        chunks("one two three four five six seven", 3),
        vec!["one two three", "four five six", "seven"]
    );
}

#[test]
fn zero_target_gives_one_word_per_chunk_without_punctuation() {
    assert_eq!(chunks("one two three", 0), vec!["one", "two", "three"]);
}

#[test]
fn list_markers_stand_alone() {
    assert_eq!(
        chunks("Steps: 1. mix the flour 2) add water (3), bake it.", 10),
        vec!["Steps:", "1.", "mix the flour", "2)", "add water", "(3),", "bake it."]
    );
}

#[test]
fn long_chunk_is_bisected_before_a_connective() {
    assert_eq!(
        chunks("We went to the market and we bought apples and pears and then we went home.", 10),
        vec!["We went to the market and we bought apples", "and pears and then we went home."]
    );
    assert_eq!(
        chunks("I wanted to go to the park today but it rained so I stayed home because of that.", 10),
        vec!["I wanted to go to the park today", "but it rained so I stayed home because of that."]
    );
}

#[test]
fn first_chunks_are_bisected_after_a_comma() {
    assert_eq!(
        chunks("First, we gather the tools, then we build the frame, and finally we paint the whole thing.", 10),
        vec!["First, we gather the tools, then we build the frame,", "and finally we paint the whole thing."]
    );
}

#[test]
fn trailing_connective_moves_to_next_chunk() {
    assert_eq!(chunks("one two and three four", 3), vec!["one two", "and three four"]);
    assert_eq!(chunks("Alpha But beta gamma", 2), vec!["Alpha", "But beta gamma"]);
}

#[test]
fn connective_with_punctuation_stays() {
    assert_eq!(chunks("Yes and. No or maybe.", 10), vec!["Yes and.", "No or maybe."]);
    assert_eq!(chunks("Wait. I said AND. OK.", 10), vec!["Wait.", "I said AND.", "OK."]);
}

#[test]
fn last_chunk_keeps_its_connective() {
    assert_eq!(chunks("This is fine and", 10), vec!["This is fine and"]);
}

#[test]
fn comma_breaks_once_target_reached() {
    assert_eq!(
        chunks("He said hello,  and  she   waved, and they left together quickly.", 3),
        vec!["He said hello,", "and she waved,", "and they left together quickly."]
    );
}

#[test]
fn chunks_preserve_word_order() {
    let text = "We went to the market and we bought apples and pears and then we went home. Then, tired, we slept.";
    let out = chunks(text, 10);
    let rejoined: Vec<String> = out.join(" ").split_whitespace().map(|s| s.to_string()).collect();
    let words: Vec<String> = text.split_whitespace().map(|s| s.to_string()).collect();
    assert_eq!(rejoined, words);
    assert!(out.iter().all(|c| !c.is_empty()));
}
