use ngram_index::error::IndexError;
use ngram_index::ngram::{
    count_windows, ngrams, token_text, Ngram, NgramIterator, TokinizedChars,
};

#[test]
fn test_ngram_ascii() {
    let text = "hello";
    let n = 2;
    let expected = vec!["he", "el", "ll", "lo"];
    assert_eq!(ngrams(n, text).unwrap(), expected);
}

#[test]
fn test_ngram_japanese() {
    let text = "こんにちは日本語";
    let n = 2;
    let expected = vec!["こん", "んに", "にち", "ちは", "は日", "日本", "本語"];
    assert_eq!(ngrams(n, text).unwrap(), expected);
}

#[test]
fn ngrams_of_a_short_text_are_none() {
    assert_eq!(ngrams(3, "ab").unwrap(), Vec::<String>::new());
    assert_eq!(ngrams(1, "").unwrap(), Vec::<String>::new());
    assert_eq!(ngrams(2, "").unwrap(), Vec::<String>::new());
}

#[test]
fn ngrams_of_a_text_of_the_width_are_one() {
    assert_eq!(ngrams(5, "hello").unwrap(), vec!["hello"]);
    assert_eq!(ngrams(1, "x").unwrap(), vec!["x"]);
}

#[test]
fn ngrams_count_is_length_minus_width_plus_one() {
    let text = "abcdefghij";
    for n in 1..=10usize {
        let grams = ngrams(n, text).unwrap();
        assert_eq!(grams.len(), 10 - n + 1);
        for (i, gram) in grams.iter().enumerate() {
            assert_eq!(gram.chars().count(), n);
            assert_eq!(gram.as_str(), &text[i..i + n]);
        }
    }
    assert_eq!(ngrams(11, text).unwrap().len(), 0);
}

#[test]
fn ngrams_of_width_three() {
    assert_eq!(ngrams(3, "hello").unwrap(), vec!["hel", "ell", "llo"]);
}

#[test]
fn ngrams_of_width_zero_are_refused() {
    assert_eq!(ngrams(0, "hello"), Err(IndexError::InvalidWindowWidth));
    assert_eq!(ngrams(0, ""), Err(IndexError::InvalidWindowWidth));
}

#[test]
fn ngram_iterator_of_width_zero_is_refused() {
    assert!(matches!(
        NgramIterator::new(TokinizedChars::new("abc"), 0),
        Err(IndexError::InvalidWindowWidth)
    ));
    assert!(matches!(
        TokinizedChars::new("abc").ngrams(0),
        Err(IndexError::InvalidWindowWidth)
    ));
}

#[test]
fn reader_hands_out_characters_in_order() {
    let mut reader = TokinizedChars::new("aé本");
    assert_eq!(reader.next(), Some('a'));
    assert_eq!(reader.next(), Some('é'));
    assert_eq!(reader.next(), Some('本'));
    assert_eq!(reader.next(), None);
    assert_eq!(reader.next(), None);
}

#[test]
fn ngram_iterator_steps_by_one_character() {
    let mut grams = TokinizedChars::new("abcd").ngrams(3).unwrap();
    assert_eq!(grams.next(), Some(vec!['a', 'b', 'c']));
    assert_eq!(grams.next(), Some(vec!['b', 'c', 'd']));
    assert_eq!(grams.next(), None);
    assert_eq!(grams.next(), None);
}

#[test]
fn ngram_iterator_starts_where_the_reader_stands() {
    let mut reader = TokinizedChars::new("xabc");
    assert_eq!(reader.next(), Some('x'));
    let mut grams = NgramIterator::new(reader, 2).unwrap();
    assert_eq!(grams.next(), Some(vec!['a', 'b']));
    assert_eq!(grams.next(), Some(vec!['b', 'c']));
    assert_eq!(grams.next(), None);
}

#[test]
fn tokenizer_is_restartable() {
    let text = "hello";
    let first = ngrams(2, text).unwrap();
    let second = ngrams(2, text).unwrap();
    assert_eq!(first, second);
    assert_eq!(text, "hello");
}

#[test]
fn token_text_joins_the_characters() {
    assert_eq!(token_text(&vec!['日', '本']), "日本");
    assert_eq!(token_text(&Vec::new()), "");
}

#[test]
fn reader_from_a_text_starts_at_its_first_character() {
    let mut reader = TokinizedChars::from("ab");
    assert_eq!(reader.next(), Some('a'));
    assert_eq!(reader.next(), Some('b'));
    assert_eq!(reader.next(), None);
}

#[test]
fn windows_are_counted_by_characters() {
    assert_eq!(count_windows("hello", 2), 4);
    assert_eq!(count_windows("hello", 5), 1);
    assert_eq!(count_windows("hello", 6), 0);
    assert_eq!(count_windows("hello", 0), 0);
    assert_eq!(count_windows("", 1), 0);
    assert_eq!(count_windows("こんにちは日本語", 2), 7);
}
