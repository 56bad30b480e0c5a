use memlyzer::watch::Watch;

fn memory_with(messages: &[(&[u8], &str)]) -> Vec<u8> {
    let mut raw = Vec::new();
    for (prefix, text) in messages {
        raw.extend_from_slice(prefix);
        raw.extend_from_slice(text.as_bytes());
        raw.extend_from_slice(b" xq");
        raw.push(200);
    }
    raw
}

#[test]
fn watcher_reports_new_messages_and_starts_over() {
    let first = memory_with(&[(&[0u8; 15], "Loot of a rat: cheese")]);
    let second = memory_with(&[(&[0u8; 15], "Loot of a rat: cheese"), (&[1u8; 15], "Loot of a bat: wing")]);

    let s = Watch::start().step(Err("Couldn't read memory"));
    assert!(matches!(s.watch, Watch::Baseline));
    assert!(s.report.is_none());
    assert!(s.pauses_ms.is_empty());

    let s = s.watch.step(Ok(first.clone()));
    assert!(matches!(s.watch, Watch::Watching(_)));
    assert_eq!(s.pauses_ms, vec![200]);

    let s = s.watch.step(Err("Couldn't read memory"));
    assert!(matches!(s.watch, Watch::Watching(_)));
    assert_eq!(s.pauses_ms, vec![5000, 200]);

    let s = s.watch.step(Ok(first));
    assert!(s.report.is_none());
    assert_eq!(s.pauses_ms, vec![200]);

    let s = s.watch.step(Ok(second));
    assert!(matches!(s.watch, Watch::Baseline));
    assert_eq!(s.report, Some(vec!["Loot of a bat: wing".to_string()]));
    assert!(s.pauses_ms.is_empty());
}
