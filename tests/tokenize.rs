use kokoros::vocab::{get_reverse_vocab, get_vocab, tokenize, tokens_to_phonemes};

#[test]
fn test_tokenize() {
    let text = "heɪ ðɪs ɪz ˈlʌvliː!";
    let tokens = tokenize(text);

    // Expected tokens based on the vocabulary mapping defined in get_vocab(): one token
    // per character, spaces included ([24, 47, 54, 54, 57, 5] are the tokens of "Hello!").
    let expected = vec![50, 47, 102, 16, 81, 102, 61, 16, 102, 68, 16, 156, 54, 138, 64, 54, 51, 158, 5];

    assert_eq!(tokens, expected);

    // Test empty string
    let empty = "";
    let empty_tokens = tokenize(empty);
    assert!(empty_tokens.is_empty());

    // Test punctuation
    let punct = "...";
    let punct_tokens = tokenize(punct);
    assert_eq!(punct_tokens.len(), 3);
}

#[test]
fn test_tokens_to_phonemes() {
    let tokens = vec![24, 47, 54, 54, 57, 5];
    let text = tokens_to_phonemes(&tokens);
    assert_eq!(text, "Hello!");

    let tokens = vec![
        0, 50, 83, 54, 156, 57, 135, 3, 16, 65, 156, 87, 158, 54, 46, 5, 0,
    ];

    let text = tokens_to_phonemes(&tokens);
    assert_eq!(text, "$həlˈoʊ, wˈɜːld!$");

    // Test empty vector
    let empty_tokens: Vec<i64> = vec![];
    assert_eq!(tokens_to_phonemes(&empty_tokens), "");
}

#[test]
fn tokenize_maps_each_vocabulary_character() {
    assert_eq!(
        tokenize("heɪ ðɪs ɪz ˈlʌvliː!"),
        vec![50, 47, 102, 16, 81, 102, 61, 16, 102, 68, 16, 156, 54, 138, 64, 54, 51, 158, 5]
    );
    assert_eq!(tokenize("Hello!"), vec![24, 47, 54, 54, 57, 5]);
}

#[test]
fn tokenize_drops_characters_outside_the_vocabulary() {
    assert_eq!(tokenize("a1b\u{4e2d}c"), vec![43, 44, 45]);
    assert_eq!(tokenize("123"), Vec::<i64>::new());
}

#[test]
fn round_trip_keeps_only_vocabulary_characters() {
    let s = "h\u{e9}llo, w0rld! \u{263a}";
    assert_eq!(tokens_to_phonemes(&tokenize(s)), "hllo, wrld! ");
    let ipa = "$həlˈoʊ, wˈɜːld!$";
    assert_eq!(tokens_to_phonemes(&tokenize(ipa)), ipa);
}

#[test]
fn apostrophe_uses_its_first_position() {
    assert_eq!(tokenize("'"), vec![174]);
    assert_eq!(tokens_to_phonemes(&[174]), "'");
    assert_eq!(tokens_to_phonemes(&[176]), "");
    assert_eq!(tokens_to_phonemes(&[177]), "ᵻ");
}

#[test]
fn tokens_out_of_range_are_dropped() {
    assert_eq!(tokens_to_phonemes(&[-1, 178, 1000, 43]), "a");
}

#[test]
fn vocab_maps_by_code_point() {
    let v = get_vocab();
    assert_eq!(v.len(), 177);
    assert_eq!(v.get(&('$' as u32)), Some(&0));
    assert_eq!(v.get(&('H' as u32)), Some(&24));
    assert_eq!(v.get(&('\'' as u32)), Some(&174));
    assert_eq!(v.get(&('ᵻ' as u32)), Some(&177));
    assert_eq!(v.get(&('1' as u32)), None);
}

#[test]
fn reverse_vocab_inverts_vocab() {
    let r = get_reverse_vocab();
    assert_eq!(r.len(), 177);
    assert_eq!(r.get(&0), Some(&'$'));
    assert_eq!(r.get(&46), Some(&'d'));
    assert_eq!(r.get(&174), Some(&'\''));
    assert_eq!(r.get(&176), None);
    let v = get_vocab();
    for (t, c) in r.iter() {
        assert_eq!(v.get(&(*c as u32)), Some(t));
    }
}
