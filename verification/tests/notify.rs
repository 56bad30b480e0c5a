use memlyzer::notify::Who;

#[test]
fn session_is_the_first_two_words_of_who() {
    let (user, display) = Who::session("alice    :0  2024-01-01 10:00 (:0)\n").unwrap();
    assert_eq!(user, "alice");
    assert_eq!(display, ":0");
    assert!(Who::session("  alice\n").is_none());
    assert!(Who::session("").is_none());
}

#[test]
fn uid_is_read_trimmed() {
    assert!(Who::uid_parses("1000\n"));
    assert_eq!(Who::parse_uid(" 1000\n"), 1000);
    assert!(!Who::uid_parses("alice\n"));
    assert!(!Who::uid_parses("\n"));
}

#[test]
fn notify_command_names_user_display_and_bus() {
    let who = Who { username: String::from("alice"), display: String::from(":0"), uid: 1000 };
    assert_eq!(
        who.notify_command("rat", "cheese, gold"),
        vec![
            "-ualice".to_string(),
            "DISPLAY=:0".to_string(),
            "DBUS_SESSION_BUS_ADDRESS=unix:path=/run/user/1000/bus".to_string(),
            "notify-send".to_string(),
            "rat".to_string(),
            "cheese, gold".to_string(),
        ]
    );
    let root = Who { username: String::from("root"), display: String::from(":1"), uid: 0 };
    assert_eq!(root.notify_command("a", "b")[2], "DBUS_SESSION_BUS_ADDRESS=unix:path=/run/user/0/bus");
}
