use kokoros::phonemizer::Phonemizer;

#[test]
fn model_name_is_respelled() {
    assert_eq!(Phonemizer::new("a").phonemize("həlˈoʊ kəkˈoːɹoʊ"), "həlˈoʊ kˈoʊkəɹoʊ");
    assert_eq!(Phonemizer::new("b").phonemize("kəkˈɔːɹəʊ"), "kˈəʊkəɹəʊ");
}

#[test]
fn single_characters_are_substituted() {
    assert_eq!(Phonemizer::new("a").phonemize("ɹʲr x ɬ"), "ɹjɹ k l");
}

#[test]
fn hundred_is_set_apart_after_a_letter() {
    assert_eq!(Phonemizer::new("a").phonemize("faɪvhˈʌndɹɪd"), "faɪv hˈʌndɹɪd");
    assert_eq!(Phonemizer::new("a").phonemize("ðəhˈʌndɹɪd"), "ðəhˈʌndɹɪd");
}

#[test]
fn detached_z_is_joined() {
    assert_eq!(Phonemizer::new("a").phonemize("ɪts z. bˈʌz z"), "ɪtsz. bˈʌzz");
    assert_eq!(Phonemizer::new("a").phonemize("a zb"), "a zb");
}

#[test]
fn ninety_is_read_with_d_in_american_english() {
    assert_eq!(Phonemizer::new("a").phonemize("nˈaɪnti"), "nˈaɪndi");
    assert_eq!(Phonemizer::new("b").phonemize("nˈaɪnti"), "nˈaɪnti");
    assert_eq!(Phonemizer::new("a").phonemize("nˈaɪntiː"), "nˈaɪntiː");
}

#[test]
fn characters_outside_the_vocabulary_are_dropped_and_ends_trimmed() {
    assert_eq!(Phonemizer::new("a").phonemize("  1həlˈoʊ2 "), "həlˈoʊ");
    assert_eq!(Phonemizer::new("a").phonemize(""), "");
}

#[test]
fn backend_languages() {
    assert_eq!(Phonemizer::new("a").backend_language(), "en-us");
    assert_eq!(Phonemizer::new("b").backend_language(), "en-gb");
}
