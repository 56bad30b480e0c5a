use memlyzer::memory::{entry, entry_idexes, magic_number, messages, Snapshot};

#[test]
fn test_loot_entries() {
    let raw_memory = "01234Loot of a sandcrawler: 4 gold coin".as_bytes();
    assert_eq!(5, entry_idexes(raw_memory, "Loot of")[0]);
}

#[test]
fn test_entry() {
    let msg = "Loot of a sandcrawler: 4 gold coin ".as_bytes();
    let mut raw_memory = vec![128u8, 128u8, 128u8];
    raw_memory.extend_from_slice(msg);
    raw_memory.extend_from_slice(&[128u8, 128u8, 128u8]);
    assert_eq!(
        "Loot of a sandcrawler: 4 gold coin",
        &entry(&raw_memory[3..])
    );
}

#[test]
fn test_entry_artifacts_on_end_of_text() {
    let msg = "Loot of a x: x xl".as_bytes();
    let mut raw_memory = vec![128u8, 128u8, 128u8];
    raw_memory.extend_from_slice(msg);
    raw_memory.extend_from_slice(&[128u8, 128u8, 128u8]);
    assert_eq!("Loot of a x: x", &entry(&raw_memory[3..]));
}

#[test]
fn entry_idexes_finds_every_occurrence_but_one_at_the_very_end() {
    let raw = b"abab ab";
    assert_eq!(entry_idexes(raw, "ab"), vec![0, 2]);
    assert_eq!(entry_idexes(b"abx", "ab"), vec![0]);
    assert_eq!(entry_idexes(b"", "ab"), Vec::<usize>::new());
}

#[test]
fn entry_skips_zero_bytes_and_keeps_text_without_space() {
    assert_eq!(entry(&[b'a', 0, b'b', 200, b'c']), "ab");
    assert_eq!(entry(&[b'a', b' ', 0, b' ', b'b', b'x']), "a");
    assert_eq!(entry(&[]), "");
    assert_eq!(entry(&[b' ', b' ', b'a', b' ', b'q']), "a");
}

#[test]
fn magic_number_sums_window() {
    let mut raw = vec![1u8; 15];
    raw.extend_from_slice(b"ab");
    raw.push(5);
    assert_eq!(magic_number(&raw, 15, "ab"), 15 + 97 + 98);
}

fn memory_with(messages: &[(&[u8], &str)]) -> Vec<u8> {
    let mut raw = Vec::new();
    for (prefix, text) in messages {
        raw.extend_from_slice(prefix);
        raw.extend_from_slice(text.as_bytes());
        raw.extend_from_slice(b" xq");
        raw.push(200);
    }
    raw
}

#[test]
fn snapshot_keys_messages_by_checksum() {
    let raw = memory_with(&[(&[0u8; 15], "Loot of a rat: cheese")]);
    assert!(Snapshot::accepts(&raw));
    let snap = Snapshot::from(&raw);
    assert_eq!(snap.messages.len(), 1);
    let (k, m) = snap.messages.iter().next().unwrap();
    assert_eq!(*k, m.magic_number);
    assert_eq!(m.content, "Loot of a rat: cheese");
    let expected: u32 = "Loot of a rat: cheese".bytes().map(|b| b as u32).sum();
    assert_eq!(*k, expected);
    assert_eq!(messages(&raw).len(), 1);
}

#[test]
fn snapshot_refuses_messages_too_close_to_the_start() {
    let raw = memory_with(&[(&[0u8; 3], "Loot of a rat: cheese")]);
    assert!(!Snapshot::accepts(&raw));
}

#[test]
fn diff_reports_new_texts_sorted_and_once() {
    let old_raw = memory_with(&[(&[0u8; 15], "Loot of a rat: cheese")]);
    let new_raw = memory_with(&[
        (&[0u8; 15], "Loot of a rat: cheese"),
        (&[1u8; 15], "Loot of a wolf: meat"),
        (&[2u8; 15], "Loot of a bat: wing"),
        (&[3u8; 15], "Loot of a bat: wing"),
    ]);
    let old = Snapshot::from(&old_raw);
    let new = Snapshot::from(&new_raw);
    let d = old.diff(&new);
    assert!(!d.is_empty());
    assert_eq!(d.messages, vec!["Loot of a bat: wing".to_string(), "Loot of a wolf: meat".to_string()]);
}

#[test]
fn diff_of_a_snapshot_with_itself_is_empty() {
    let raw = memory_with(&[(&[0u8; 15], "Loot of a rat: cheese"), (&[9u8; 15], "Loot of a cat: fur")]);
    let snap = Snapshot::from(&raw);
    let d = snap.diff(&snap.clone());
    assert!(d.is_empty());
    assert!(d.messages.is_empty());
}

#[test]
fn diff_ignores_messages_that_disappeared() {
    let old_raw = memory_with(&[(&[0u8; 15], "Loot of a rat: cheese"), (&[9u8; 15], "Loot of a cat: fur")]);
    let new_raw = memory_with(&[(&[0u8; 15], "Loot of a rat: cheese")]);
    let d = Snapshot::from(&old_raw).diff(&Snapshot::from(&new_raw));
    assert!(d.is_empty());
}
