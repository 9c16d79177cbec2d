//! Tests of the history ingestion pipeline and the ranker.

use hui::ingest::decode_entries;
use hui::ingest::process_history;
use hui::ingest::remove_duplicates;
use hui::ingest::remove_empty;
use hui::ingest::remove_timestamps;
use hui::ingest::reverse;
use hui::ingest::split_entries;
use hui::ingest::unmetafy;
use hui::ingest::HistoryError;
use hui::ingest::ShellKind;
use hui::rank::rank;

fn strings(v: &[&str]) -> Vec<String> {
    v.iter().map(|s| s.to_string()).collect()
}

#[test]
fn unmetafy_single_escape() {
    let input = vec![b'a', b'b', b'c', 0x83, 0x10, b'e', b'f'];
    let out = unmetafy(input);
    assert_eq!(out, vec![b'a', b'b', b'c', 0x10 ^ 32, b'e', b'f']);
}

#[test]
fn unmetafy_length_drops_one_byte_per_marker() {
    let input = vec![0x83, 0x41, b'x', 0x83, 0x42];
    let out = unmetafy(input);
    assert_eq!(out.len(), 3);
    assert_eq!(out, vec![0x41 ^ 32, b'x', 0x42 ^ 32]);
}

#[test]
fn unmetafy_without_markers_is_identity() {
    let input = b"plain command".to_vec();
    assert_eq!(unmetafy(input.clone()), input);
}

#[test]
fn dedup_is_idempotent() {
    let v = strings(&["ls", "cd", "ls", "pwd", "cd"]);
    let once = remove_duplicates(v);
    let twice = remove_duplicates(once.clone());
    assert_eq!(once, twice);
    assert_eq!(once, strings(&["ls", "cd", "pwd"]));
}

#[test]
fn dedup_before_reverse_keeps_first_occurrence_at_tail() {
    let corpus = process_history(b"cmd1\ncmd2\ncmd1".to_vec(), ShellKind::Bash).unwrap();
    assert_eq!(corpus, strings(&["cmd2", "cmd1"]));
}

#[test]
fn decode_is_deterministic() {
    let bytes = b"one\ntwo\nthree\ntwo\n".to_vec();
    let a = process_history(bytes.clone(), ShellKind::Bash).unwrap();
    let b = process_history(bytes, ShellKind::Bash).unwrap();
    assert_eq!(a, b);
}

#[test]
fn bash_history_is_split_deduplicated_and_reversed() {
    let corpus = process_history(b"ls\ncd /tmp\nls\n".to_vec(), ShellKind::Bash).unwrap();
    assert_eq!(corpus, strings(&["cd /tmp", "ls"]));
}

#[test]
fn bash_empty_file_yields_empty_corpus() {
    let corpus = process_history(Vec::new(), ShellKind::Bash).unwrap();
    assert!(corpus.is_empty());
}

#[test]
fn invalid_utf8_is_a_fatal_ingestion_error() {
    let r = process_history(vec![b'o', b'k', b'\n', 0xff, 0xfe], ShellKind::Bash);
    assert_eq!(r, Err(HistoryError::InvalidUtf8));
}

#[test]
fn zsh_history_strips_timestamps() {
    let bytes = b": 1330648651:0;sudo reboot\n: 1330648652:0;ls -la".to_vec();
    let corpus = process_history(bytes, ShellKind::Zsh).unwrap();
    assert_eq!(corpus, strings(&["ls -la", "sudo reboot"]));
}

#[test]
fn zsh_multiline_command_stays_one_entry() {
    let bytes = b": 1330648651:0;echo a\necho b\n: 1330648652:0;pwd".to_vec();
    let corpus = process_history(bytes, ShellKind::Zsh).unwrap();
    assert_eq!(corpus, strings(&["pwd", "echo a\necho b"]));
}

#[test]
fn zsh_metafied_bytes_are_unescaped_before_split() {
    // 0x83, 0xa0 unescapes to 0x80, a continuation byte completing a
    // two-byte UTF-8 character with the 0xc3 that precedes it.
    let bytes = vec![
        b':', b' ', b'1', b'2', b'3', b'4', b'5', b'6', b'7', b'8', b'9', b'0', b':', b'0', b';',
        b'l', b's', b' ', 0xc3, 0x83, 0xa0,
    ];
    let corpus = process_history(bytes, ShellKind::Zsh).unwrap();
    assert_eq!(corpus, vec!["ls \u{c0}".to_string()]);
}

#[test]
fn split_keeps_empty_pieces() {
    let pieces = split_entries(&b"a\n\nb".to_vec(), &vec![b'\n']);
    assert_eq!(pieces, vec![b"a".to_vec(), b"".to_vec(), b"b".to_vec()]);
}

#[test]
fn split_on_multibyte_delimiter() {
    let pieces = split_entries(&b"one\n: two\n: three".to_vec(), &b"\n: ".to_vec());
    assert_eq!(pieces, vec![b"one".to_vec(), b"two".to_vec(), b"three".to_vec()]);
}

#[test]
fn remove_timestamps_strips_first_and_rest() {
    let entries = vec![
        b": 1234567890:0;first".to_vec(),
        b"1234567890:1;rest".to_vec(),
        b"no prefix".to_vec(),
    ];
    let stripped = remove_timestamps(entries);
    assert_eq!(
        stripped,
        vec![b"first".to_vec(), b"rest".to_vec(), b"no prefix".to_vec()]
    );
}

#[test]
fn decode_entries_rejects_invalid_bytes() {
    assert_eq!(decode_entries(vec![b"ok".to_vec(), vec![0xff]]), None);
    assert_eq!(
        decode_entries(vec![b"ok".to_vec()]),
        Some(vec!["ok".to_string()])
    );
}

#[test]
fn remove_empty_drops_only_empty_entries() {
    let v = strings(&["a", "", "b", ""]);
    assert_eq!(remove_empty(v), strings(&["a", "b"]));
}

#[test]
fn reverse_reverses() {
    let v = strings(&["a", "b", "c"]);
    assert_eq!(reverse(v), strings(&["c", "b", "a"]));
}

#[test]
fn empty_query_returns_corpus_unchanged() {
    let corpus = strings(&["git status", "ls -la", "cargo build"]);
    let ranked = rank(&corpus, &String::new());
    assert_eq!(ranked, corpus);
}

#[test]
fn non_matching_entries_are_excluded() {
    let corpus = strings(&["ls -la"]);
    let ranked = rank(&corpus, &"gc".to_string());
    assert!(ranked.is_empty());
}

#[test]
fn end_to_end_query_ranks_subsequence_match() {
    let corpus = strings(&["git status", "git commit -m fix", "ls -la"]);
    let ranked = rank(&corpus, &"gc".to_string());
    assert!(ranked.contains(&"git commit -m fix".to_string()));
    assert!(!ranked.contains(&"ls -la".to_string()));
}

#[test]
fn exact_substring_outranks_scattered_subsequence() {
    let corpus = strings(&["g-i-t", "git"]);
    let ranked = rank(&corpus, &"git".to_string());
    assert_eq!(ranked[0], "git".to_string());
    assert_eq!(ranked.len(), 2);
}

#[test]
fn lowercase_query_matches_case_insensitively() {
    let corpus = strings(&["Git Status"]);
    let ranked = rank(&corpus, &"gs".to_string());
    assert_eq!(ranked.len(), 1);
}

#[test]
fn uppercase_query_matches_case_sensitively() {
    let corpus = strings(&["git status"]);
    let ranked = rank(&corpus, &"GS".to_string());
    assert!(ranked.is_empty());
}
