use srtgen::subtitle::build_subtitles;
use srtgen::subtitle::is_blank;
use srtgen::subtitle::render_srt;
use srtgen::subtitle::SubtitleEntry;
use srtgen::subtitle::Word;
use srtgen::time_format::dec_string;
use srtgen::time_format::format_time;

use std::time::Duration;

fn word(text: &str, start_ms: u64, end_ms: u64) -> Word {
    Word { text: text.to_owned(), start_ms, end_ms }
}

#[test]
fn format_time_zero() {
    assert_eq!(format_time(0), "00:00:00,000");
}

#[test]
fn format_time_mixed_fields() {
    assert_eq!(format_time(3_725_001), "01:02:05,001");
}

#[test]
fn format_time_sub_second() {
    assert_eq!(format_time(540), "00:00:00,540");
}

#[test]
fn format_time_field_maxima() {
    assert_eq!(format_time(3_599_999), "00:59:59,999");
}

#[test]
fn format_time_hours_widen_past_two_digits() {
    assert_eq!(format_time(100 * 3_600_000 + 1), "100:00:00,001");
}

#[test]
fn dec_string_examples() {
    assert_eq!(dec_string(0), "0");
    assert_eq!(dec_string(7), "7");
    assert_eq!(dec_string(42), "42");
    assert_eq!(dec_string(1_000_000), "1000000");
}

#[test]
fn is_blank_cases() {
    assert!(is_blank(""));
    assert!(is_blank(" \t\r\n"));
    assert!(is_blank("\u{a0}\u{2003}"));
    assert!(!is_blank("hi"));
    assert!(!is_blank("  a  "));
}

#[test]
fn entry_serialization_exact() {
    let entry = SubtitleEntry { index: 1, start_ms: 0, end_ms: 540, text: "hello".to_owned() };
    assert_eq!(entry.to_srt(), "1\n00:00:00,000 --> 00:00:00,540\nhello\n\n");
}

#[test]
fn indices_stay_contiguous_past_skipped_words() {
    let alts = vec![vec![
        word("one", 0, 100),
        word("", 100, 110),
        word("two", 110, 200),
        word("   ", 200, 210),
        word("three", 210, 300),
    ]];
    let entries = build_subtitles(&alts);
    assert_eq!(entries.len(), 3);
    let indices: Vec<usize> = entries.iter().map(|e| e.index).collect();
    assert_eq!(indices, vec![1, 2, 3]);
    let texts: Vec<&str> = entries.iter().map(|e| e.text.as_str()).collect();
    assert_eq!(texts, vec!["one", "two", "three"]);
}

#[test]
fn indices_run_on_across_alternatives() {
    let alts = vec![
        vec![word("a", 0, 100), word("", 100, 200)],
        vec![],
        vec![word("b", 50, 150), word("c", 150, 250)],
    ];
    let entries = build_subtitles(&alts);
    let indices: Vec<usize> = entries.iter().map(|e| e.index).collect();
    assert_eq!(indices, vec![1, 2, 3]);
    let texts: Vec<&str> = entries.iter().map(|e| e.text.as_str()).collect();
    assert_eq!(texts, vec!["a", "b", "c"]);
}

#[test]
fn order_follows_encounter_order_not_time() {
    // The second alternative's words overlap the first's in time; the output
    // keeps encounter order, so timestamps may run backwards between entries.
    let alts = vec![
        vec![word("late", 500, 900)],
        vec![word("early", 0, 400)],
    ];
    let entries = build_subtitles(&alts);
    assert_eq!(entries.len(), 2);
    assert_eq!(entries[0].text, "late");
    assert_eq!(entries[0].start_ms, 500);
    assert_eq!(entries[1].text, "early");
    assert_eq!(entries[1].start_ms, 0);
}

#[test]
fn timing_is_copied_through() {
    let alts = vec![vec![word("hello", 120, 540), word("world", 600, 1010)]];
    let entries = build_subtitles(&alts);
    assert_eq!(entries[0].start_ms, 120);
    assert_eq!(entries[0].end_ms, 540);
    assert_eq!(entries[1].start_ms, 600);
    assert_eq!(entries[1].end_ms, 1010);
    let text = render_srt(&entries);
    assert_eq!(
        text,
        "1\n00:00:00,120 --> 00:00:00,540\nhello\n\n2\n00:00:00,600 --> 00:00:01,010\nworld\n\n"
    );
}

#[test]
fn two_entry_file_from_words_with_a_blank() {
    // Offsets come from the recognizer in fractional seconds; convert them
    // the same way the pipeline does before handing them to the library.
    let spoken = [("hi", 0.0f32, 0.3f32), ("", 0.3, 0.31), ("there", 0.31, 0.8)];
    let words: Vec<Word> = spoken
        .iter()
        .map(|&(text, start, end)| Word {
            text: text.to_owned(),
            start_ms: Duration::from_secs_f32(start).as_millis() as u64,
            end_ms: Duration::from_secs_f32(end).as_millis() as u64,
        })
        .collect();
    let entries = build_subtitles(&vec![words]);
    let text = render_srt(&entries);
    assert_eq!(
        text,
        "1\n00:00:00,000 --> 00:00:00,300\nhi\n\n2\n00:00:00,310 --> 00:00:00,800\nthere\n\n"
    );
}

#[test]
fn empty_result_renders_zero_bytes() {
    let alts: Vec<Vec<Word>> = vec![vec![], vec![]];
    let entries = build_subtitles(&alts);
    assert_eq!(entries.len(), 0);
    let text = render_srt(&entries);
    assert_eq!(text.len(), 0);
}

#[test]
fn all_blank_words_render_zero_bytes() {
    let alts = vec![vec![word("", 0, 10), word("  ", 10, 20)]];
    let entries = build_subtitles(&alts);
    assert!(entries.is_empty());
    assert_eq!(render_srt(&entries), "");
}
