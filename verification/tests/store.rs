use persistence::store::{push, read_all, trim, write_all};
use persistence::DecodeError;

fn line(text: &str) -> String {
    text.to_string()
}

fn lines(texts: &[&str]) -> Vec<String> {
    texts.iter().map(|text| text.to_string()).collect()
}

#[test]
fn a_missing_file_reads_as_an_empty_history() {
    let read: Result<Vec<String>, DecodeError> = read_all(None);
    assert_eq!(read, Ok(Vec::new()));
}

#[test]
fn an_empty_file_reads_as_an_empty_history() {
    let read: Result<Vec<String>, DecodeError> = read_all(Some(&[]));
    assert_eq!(read, Ok(Vec::new()));
}

#[test]
fn pushes_are_read_back_in_call_order() {
    let mut file: Vec<u8> = Vec::new();
    for text in ["first", "second", "third"] {
        file.extend(push(&line(text)));
    }
    let read: Vec<String> = read_all(Some(&file)).unwrap();
    assert_eq!(read, lines(&["first", "second", "third"]));
}

#[test]
fn a_push_leaves_what_the_file_held_in_place() {
    let before = write_all(&lines(&["one", "two"]));
    let mut after = before.clone();
    after.extend(push(&line("three")));
    assert_eq!(&after[..before.len()], &before[..]);
    let read: Vec<String> = read_all(Some(&after)).unwrap();
    assert_eq!(read, lines(&["one", "two", "three"]));
}

#[test]
fn a_line_is_its_length_and_its_bytes() {
    assert_eq!(push(&line("1")), vec![1, 0, 0, 0, 0, 0, 0, 0, b'1']);
    assert_eq!(push(&line("")), vec![0, 0, 0, 0, 0, 0, 0, 0]);
    assert_eq!(
        write_all(&lines(&["ab", ""])),
        vec![2, 0, 0, 0, 0, 0, 0, 0, b'a', b'b', 0, 0, 0, 0, 0, 0, 0, 0]
    );
}

#[test]
fn the_length_of_a_line_counts_bytes_not_characters() {
    let encoded = push(&line("é√"));
    assert_eq!(encoded, vec![5, 0, 0, 0, 0, 0, 0, 0, 0xc3, 0xa9, 0xe2, 0x88, 0x9a]);
    let read: Vec<String> = read_all(Some(&encoded)).unwrap();
    assert_eq!(read, lines(&["é√"]));
}

#[test]
fn a_long_line_has_its_length_in_little_endian() {
    let text = "x".repeat(0x0102);
    let encoded = push(&text);
    assert_eq!(&encoded[..8], &[0x02, 0x01, 0, 0, 0, 0, 0, 0]);
    assert_eq!(encoded.len(), 8 + 0x0102);
    let read: Vec<String> = read_all(Some(&encoded)).unwrap();
    assert_eq!(read, vec![text]);
}

#[test]
fn writing_all_is_the_same_as_pushing_each() {
    let records = lines(&["a", "bc", "", "def"]);
    let mut pushed: Vec<u8> = Vec::new();
    for record in &records {
        pushed.extend(push(record));
    }
    assert_eq!(write_all(&records), pushed);
    assert_eq!(write_all(&Vec::<String>::new()), Vec::<u8>::new());
}

#[test]
fn what_is_written_is_read_back() {
    let records = lines(&["", "a", "two words", "ünïcödé", "line\nbreak", "\0"]);
    let read: Vec<String> = read_all(Some(&write_all(&records))).unwrap();
    assert_eq!(read, records);
}

#[test]
fn trim_keeps_the_last_entries() {
    let file = write_all(&lines(&["a", "1", "2", "3"]));
    let trimmed = trim::<String>(Some(&file), 3).unwrap().unwrap();
    assert_eq!(trimmed, b"\x01\0\0\0\0\0\0\x001\x01\0\0\0\0\0\0\x002\x01\0\0\0\0\0\0\x003");
    let read: Vec<String> = read_all(Some(&trimmed)).unwrap();
    assert_eq!(read, lines(&["1", "2", "3"]));
}

#[test]
fn trim_keeps_the_bytes_of_what_survives() {
    let file = write_all(&lines(&["drop me", "keep", "this"]));
    let trimmed = trim::<String>(Some(&file), 2).unwrap().unwrap();
    assert_eq!(&trimmed[..], &file[file.len() - trimmed.len()..]);
}

#[test]
fn trim_within_the_cap_leaves_the_file_as_it_is() {
    let file = write_all(&lines(&["1", "2", "3"]));
    assert_eq!(trim::<String>(Some(&file), 3), Ok(None));
    assert_eq!(trim::<String>(Some(&file), 4), Ok(None));
    assert_eq!(trim::<String>(Some(&file), usize::MAX), Ok(None));
    assert_eq!(trim::<String>(Some(&[]), 0), Ok(None));
    assert_eq!(trim::<String>(None, 0), Ok(None));
    assert_eq!(trim::<String>(None, 5), Ok(None));
}

#[test]
fn trim_to_nothing_empties_the_file() {
    let file = write_all(&lines(&["1", "2"]));
    assert_eq!(trim::<String>(Some(&file), 0), Ok(Some(Vec::new())));
}

#[test]
fn trim_to_one_keeps_the_newest() {
    let file = write_all(&lines(&["old", "older", "newest"]));
    let trimmed = trim::<String>(Some(&file), 1).unwrap().unwrap();
    assert_eq!(trimmed, push(&line("newest")));
}

#[test]
fn trimming_twice_changes_nothing_more() {
    let file = write_all(&lines(&["a", "b", "c", "d", "e"]));
    let once = trim::<String>(Some(&file), 2).unwrap().unwrap();
    assert_eq!(trim::<String>(Some(&once), 2), Ok(None));
}

#[test]
fn a_truncated_record_fails_the_read() {
    let mut file = write_all(&lines(&["abc", "de"]));
    file.pop();
    let read: Result<Vec<String>, DecodeError> = read_all(Some(&file));
    assert_eq!(read, Err(DecodeError { offset: 11 }));
}

#[test]
fn a_truncated_length_fails_the_read() {
    let read: Result<Vec<String>, DecodeError> = read_all(Some(&[1, 0, 0]));
    assert_eq!(read, Err(DecodeError { offset: 0 }));
}

#[test]
fn a_length_beyond_the_end_fails_the_read() {
    let file = [0xff, 0xff, 0xff, 0xff, 0xff, 0xff, 0xff, 0xff, b'a'];
    let read: Result<Vec<String>, DecodeError> = read_all(Some(&file));
    assert_eq!(read, Err(DecodeError { offset: 0 }));
}

#[test]
fn bytes_that_are_not_text_fail_the_read() {
    let mut file = push(&line("ok"));
    file.extend([2, 0, 0, 0, 0, 0, 0, 0, 0xff, 0xfe]);
    let read: Result<Vec<String>, DecodeError> = read_all(Some(&file));
    assert_eq!(read, Err(DecodeError { offset: 10 }));
}

#[test]
fn an_overlong_or_cut_character_fails_the_read() {
    let overlong = [2, 0, 0, 0, 0, 0, 0, 0, 0xc0, 0x80];
    let read: Result<Vec<String>, DecodeError> = read_all(Some(&overlong));
    assert_eq!(read, Err(DecodeError { offset: 0 }));
    let cut = [1, 0, 0, 0, 0, 0, 0, 0, 0xc3];
    let read: Result<Vec<String>, DecodeError> = read_all(Some(&cut));
    assert_eq!(read, Err(DecodeError { offset: 0 }));
}

#[test]
fn a_file_that_cannot_be_read_is_not_trimmed() {
    let mut file = write_all(&lines(&["a", "b", "c"]));
    file.push(7);
    assert_eq!(trim::<String>(Some(&file), 1), Err(DecodeError { offset: 27 }));
}
