use text_ingest::chunk::{chunk, split_tokens, DEFAULT_MAX_TOKENS};
use text_ingest::error::IngestError;

#[test]
fn nine_thousand_tokens_fall_into_two_windows() {
    let tokens: Vec<u32> = (0..9000).collect();
    let windows = split_tokens(&tokens, 4500).unwrap();
    assert_eq!(windows.len(), 2);
    assert!(windows[1].len() <= windows[0].len());
    assert_eq!(windows[0], (0..4500).collect::<Vec<u32>>());
    assert_eq!(windows[1], (4500..9000).collect::<Vec<u32>>());
}

#[test]
fn the_last_window_holds_what_is_left() {
    let tokens: Vec<u32> = (0..10).collect();
    let windows = split_tokens(&tokens, 4).unwrap();
    assert_eq!(windows, vec![vec![0, 1, 2, 3], vec![4, 5, 6, 7], vec![8, 9]]);
}

#[test]
fn windows_put_together_are_the_tokens() {
    let tokens: Vec<u32> = (0..1000).map(|i| i * 7 % 13).collect();
    for max in [1usize, 2, 3, 7, 999, 1000, 1001, usize::MAX] {
        let windows = split_tokens(&tokens, max).unwrap();
        assert_eq!(windows.concat(), tokens);
        assert_eq!(windows.len(), (tokens.len() + max.min(tokens.len()) - 1) / max.min(tokens.len()));
        assert!(windows.iter().all(|w| !w.is_empty() && w.len() <= max));
    }
}

#[test]
fn no_tokens_give_no_windows() {
    assert_eq!(split_tokens(&Vec::new(), 5).unwrap(), Vec::<Vec<u32>>::new());
}

#[test]
fn a_budget_of_zero_is_refused() {
    assert_eq!(split_tokens(&vec![1, 2, 3], 0), Err(IngestError::InvalidArgument));
    assert!(matches!(chunk("some text", 0), Err(IngestError::InvalidArgument)));
}

#[test]
fn text_within_the_budget_is_one_chunk() {
    let chunks = chunk("hello world", 4500).unwrap();
    assert_eq!(chunks.len(), 1);
    assert_eq!(chunks[0].text, "hello world");
    assert_eq!(chunks[0].token_len, 2);
    assert_eq!(chunks[0].index, 0);
}

#[test]
fn text_is_cut_at_token_boundaries() {
    let chunks = chunk("hello world", 1).unwrap();
    assert_eq!(chunks.len(), 2);
    assert_eq!(chunks[0].text, "hello");
    assert_eq!(chunks[1].text, " world");
    assert_eq!((chunks[0].token_len, chunks[1].token_len), (1, 1));
    assert_eq!((chunks[0].index, chunks[1].index), (0, 1));
}

#[test]
fn empty_text_has_no_chunks() {
    assert!(chunk("", 10).unwrap().is_empty());
}

#[test]
fn chunks_put_together_are_the_text() {
    let text = "The quick brown fox jumps over the lazy dog. fn main() { println!(\"{}\", 42); }\n"
        .repeat(20);
    for max in [1usize, 3, 10, 64, 100000] {
        let chunks = chunk(&text, max).unwrap();
        let joined: String = chunks.iter().map(|c| c.text.as_str()).collect();
        assert_eq!(joined, text);
        assert!(chunks.iter().all(|c| c.token_len >= 1 && c.token_len <= max));
        assert!(chunks.iter().enumerate().all(|(i, c)| c.index == i));
        assert!(chunks[..chunks.len() - 1].iter().all(|c| c.token_len == max));
    }
}

#[test]
fn nine_thousand_tokens_of_text_fall_into_two_chunks() {
    let text = " hello".repeat(9000);
    let chunks = chunk(&text, 4500).unwrap();
    assert_eq!(chunks.iter().map(|c| c.token_len).sum::<usize>(), 9000);
    assert_eq!(chunks.len(), 2);
    assert!(chunks[1].token_len <= chunks[0].token_len);
    assert_eq!(chunks[0].text, " hello".repeat(4500));
    assert_eq!(chunks[1].text, " hello".repeat(4500));
}

#[test]
fn a_window_that_ends_inside_a_character_is_an_encoding_error() {
    assert_eq!(chunk("𓀀", 1).map(|c| c.len()), Err(IngestError::Encoding { chunk: 0 }));
    assert_eq!(chunk("ok 𓀀", 2).map(|c| c.len()), Err(IngestError::Encoding { chunk: 1 }));
}

#[test]
fn the_default_budget_is_four_thousand_five_hundred_tokens() {
    assert_eq!(DEFAULT_MAX_TOKENS, 4500);
}

#[test]
fn text_that_the_tokenizer_gives_up_on_is_a_tokenizing_error() {
    let text = " ".repeat(2_500_000) + "a";
    assert_eq!(chunk(&text, 4500).map(|c| c.len()), Err(IngestError::Tokenizing));
}

#[test]
fn a_budget_of_zero_is_refused_before_the_text_is_looked_at() {
    let text = " ".repeat(2_500_000) + "a";
    assert_eq!(chunk(&text, 0).map(|c| c.len()), Err(IngestError::InvalidArgument));
}

#[test]
fn a_long_text_of_ordinary_words_is_cut_without_loss() {
    let text = "It was the best of times, it was the worst of times. ".repeat(20_000);
    let chunks = chunk(&text, 4500).unwrap();
    let joined: String = chunks.iter().map(|c| c.text.as_str()).collect();
    assert_eq!(joined, text);
    assert!(chunks.len() > 1);
    assert!(chunks[..chunks.len() - 1].iter().all(|c| c.token_len == 4500));
}
