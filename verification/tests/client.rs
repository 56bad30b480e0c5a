use memlyzer::client::{heap, heap_parses, pid, pid_parses_exec, raw_memory, MemoryRegion};
use memlyzer::configuration::Configuration;

fn lines(text: &[&str]) -> Vec<String> {
    text.iter().map(|s| s.to_string()).collect()
}

#[test]
fn heap_is_read_from_the_first_heap_line() {
    let maps = lines(&[
        "55d0c0000000-55d0c0021000 r--p 00000000 08:01 1 /usr/bin/client",
        "55d0c1a3e000-55d0c1c4f000 rw-p 00000000 00:00 0 [heap]",
        "7f00-7fff rw-p 00000000 00:00 0 [heap]",
    ]);
    assert!(heap_parses(&maps));
    assert_eq!(heap(&maps), Some(MemoryRegion { start: 0x55d0c1a3e000, end: 0x55d0c1c4f000 }));
}

#[test]
fn heap_without_range_or_line_is_none() {
    assert_eq!(heap(&lines(&["abc rw-p [heap]"])), None);
    assert_eq!(heap(&lines(&["1-2 rw-p [stack]"])), None);
    assert_eq!(heap(&lines(&[])), None);
    assert!(!heap_parses(&lines(&["zz-10 [heap]"])));
    assert_eq!(heap(&lines(&["+A-b-c [heap]"])), Some(MemoryRegion { start: 10, end: 11 }));
}

#[test]
fn pid_is_read_from_the_client_row() {
    let ps = "  PID TTY STAT TIME COMMAND\n1 ? Ss 0:01 /sbin/init\n4321 ? Sl 1:00 /home/u/Tibia/bin/client --package-is-up-to-date\n1234 ? Sl 1:00 /home/u/Tibia/bin/client\n";
    assert!(pid_parses_exec(ps));
    assert_eq!(pid(ps), Some(1234));
}

#[test]
fn pid_falls_back_to_the_second_field() {
    assert_eq!(pid(" 987 ? Sl 0:00 Tibia/bin/client"), Some(987));
    assert!(!pid_parses_exec("  98 ? Sl 0:00 Tibia/bin/client"));
    assert_eq!(pid("Tibia/bin/client"), None);
    assert_eq!(pid("nothing here"), None);
}

#[test]
fn raw_memory_passes_the_heap_on() {
    assert_eq!(raw_memory(Some(5), |p| Some(vec![p as u8])), Ok(vec![5u8]));
    assert_eq!(raw_memory(Some(5), |_| None), Err("Couldn't read memory"));
    assert_eq!(raw_memory(None, |_| Some(vec![1u8])), Err("Couldn't read memory"));
}

#[test]
fn configuration_keeps_the_list() {
    let c = Configuration::new(vec![String::from("gold coin")]);
    assert_eq!(c.loot_list, vec![String::from("gold coin")]);
}
