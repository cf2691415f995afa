use text_ingest::segment::{
    chars_of, segmenter_request, segments_of, split_segments, split_text, SEGMENTER_INSTRUCTIONS,
    SEGMENTER_PROMPT_HEAD, SEGMENTER_PROMPT_TAIL,
};

#[test]
fn reply_is_cut_at_each_delimiter() {
    assert_eq!(split_segments("one~>_^~two~>_^~three"), vec!["one", "two", "three"]);
}

#[test]
fn reply_without_delimiter_is_one_segment() {
    assert_eq!(split_segments("just one sentence."), vec!["just one sentence."]);
}

#[test]
fn empty_reply_is_one_empty_segment() {
    assert_eq!(split_segments(""), vec![""]);
}

#[test]
fn delimiters_at_the_ends_and_in_a_row_give_empty_segments() {
    assert_eq!(split_segments("~>_^~a~>_^~~>_^~b~>_^~"), vec!["", "a", "", "b", ""]);
}

#[test]
fn parts_of_the_delimiter_stay_in_the_text() {
    assert_eq!(split_segments("a~>b_^~c~>_^d"), vec!["a~>b_^~c~>_^d"]);
    assert_eq!(split_segments("~>_^~>_^~"), vec!["", ">_^~"]);
}

#[test]
fn white_space_and_other_scripts_are_kept() {
    assert_eq!(split_segments(" a \n~>_^~ café 日本 "), vec![" a \n", " café 日本 "]);
}

#[test]
fn split_agrees_with_std() {
    let texts = ["", "abc", "a,b,,c,", ",,", "aXXbXXXc", "日本,語"];
    let patterns = [",", "XX", "b", "語"];
    for text in texts {
        for pattern in patterns {
            let expected: Vec<String> = text.split(pattern).map(|p| p.to_string()).collect();
            assert_eq!(split_text(text, pattern), expected);
        }
    }
}

#[test]
fn empty_pattern_cuts_nothing() {
    assert_eq!(split_text("abc", ""), vec!["abc"]);
}

#[test]
fn joining_the_segments_gives_the_reply_back() {
    let reply = "~>_^~first~>_^~second ~>_ third~>_^~~>_^~";
    assert_eq!(split_segments(reply).join("~>_^~"), reply);
}

#[test]
fn chars_of_lists_the_characters() {
    assert_eq!(chars_of("aé😀"), vec!['a', 'é', '😀']);
}

#[test]
fn request_to_the_segmenter_wraps_the_chunk_in_the_fixed_prompt() {
    let messages = segmenter_request("Call me Ishmael.");
    assert_eq!(messages.len(), 2);
    assert_eq!(messages[0].role, "system");
    assert_eq!(messages[0].content, SEGMENTER_INSTRUCTIONS);
    assert_eq!(messages[1].role, "user");
    assert_eq!(
        messages[1].content,
        format!("{}Call me Ishmael.{}", SEGMENTER_PROMPT_HEAD, SEGMENTER_PROMPT_TAIL)
    );
    assert!(messages[1].content.starts_with("You are examining Chapter 1 of a book."));
    assert!(messages[1].content.contains("here is the text from the chapter:Call me Ishmael.\"."));
    assert!(messages[1]
        .content
        .ends_with("Please reply in this format:\n```\n<sentence>~>_^~<sentence>~>_^~<sentence>\n```"));
    assert!(messages[0].content.ends_with("```<sentence>~>_^~<sentence>~>_^~<sentence>```"));
}

#[test]
fn segments_carry_the_index_of_their_chunk() {
    let segments = segments_of("one~>_^~two", 7);
    let found: Vec<(&str, usize)> = segments.iter().map(|s| (s.text.as_str(), s.chunk)).collect();
    assert_eq!(found, vec![("one", 7), ("two", 7)]);
}
