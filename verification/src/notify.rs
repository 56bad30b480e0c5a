//! Who is logged in to the desktop, and the command that shows them a
//! notification.
use vstd::prelude::*;

use crate::client::dec_u32;
use crate::number::parse_unsigned_chars;
use crate::text::{
    chars_of, decimal, decimal_chars, string_from_chars, string_views, trim, trim_range, words,
    words_of,
};

verus! {

/// The user logged in to the desktop: name, display and user id.
#[derive(Debug)]
pub struct Who {
    pub username: String,
    pub display: String,
    pub uid: u32,
}

/// The user name and the display that the output of `who` gives: its first
/// two words; none where it has fewer.
pub open spec fn session_of(who_output: Seq<char>) -> Option<(Seq<char>, Seq<char>)> {
    let w = words(who_output);
    if w.len() <= 1 {
        None
    } else {
        Some((w[0], w[1]))
    }
}

/// Whether the output of `id -u` is a user id: a decimal number that fits
/// in a `u32`, once trimmed.
pub open spec fn uid_parses(id_output: Seq<char>) -> bool {
    dec_u32(trim(id_output)) is Some
}

/// The arguments to `sudo` that show the notification `title` / `msg` on
/// the user's desktop.
pub open spec fn notify_arguments(
    username: Seq<char>,
    display: Seq<char>,
    uid: u32,
    title: Seq<char>,
    msg: Seq<char>,
) -> Seq<Seq<char>> {
    seq![
        "-u"@ + username,
        "DISPLAY="@ + display,
        "DBUS_SESSION_BUS_ADDRESS=unix:path=/run/user/"@ + decimal(uid as nat) + "/bus"@,
        "notify-send"@,
        title,
        msg,
    ]
}

impl Who {
    /// The user name and display that the output of `who` gives (see
    /// [`session_of`]).
    pub fn session(who_output: &str) -> (r: Option<(String, String)>)
        ensures
            match session_of(who_output@) {
                None => r is None,
                Some((user, display)) => r matches Some((u, d)) && u@ == user && d@ == display,
            },
    {
        let text = chars_of(who_output);
        let w = words_of(text.as_slice());
        if w.len() <= 1 {
            return None;
        }
        Some((string_from_chars(w[0].as_slice()), string_from_chars(w[1].as_slice())))
    }

    /// Whether the output of `id -u` holds a user id (see [`uid_parses`]).
    pub fn uid_parses(id_output: &str) -> (b: bool)
        ensures
            b == uid_parses(id_output@),
    {
        let text = chars_of(id_output);
        let t = trim_range(text.as_slice(), 0, text.len());
        assert(text@.subrange(0, text@.len() as int) =~= text@);
        parse_unsigned_chars(t.as_slice(), 10, u32::MAX as u64).is_some()
    }

    /// The user id that the output of `id -u` gives, read once trimmed.
    pub fn parse_uid(id_output: &str) -> (uid: u32)
        requires
            uid_parses(id_output@),
        ensures
            uid == dec_u32(trim(id_output@))->0,
    {
        let text = chars_of(id_output);
        let t = trim_range(text.as_slice(), 0, text.len());
        assert(text@.subrange(0, text@.len() as int) =~= text@);
        parse_unsigned_chars(t.as_slice(), 10, u32::MAX as u64).unwrap() as u32
    }

    /// The arguments to `sudo` that show a notification to this user (see
    /// [`notify_arguments`]).
    pub fn notify_command(&self, title: &str, msg: &str) -> (args: Vec<String>)
        ensures
            string_views(args@) == notify_arguments(
                self.username@,
                self.display@,
                self.uid,
                title@,
                msg@,
            ),
    {
        let mut user = String::from_str("-u");
        user.append(self.username.as_str());
        let mut display = String::from_str("DISPLAY=");
        display.append(self.display.as_str());
        let mut bus = String::from_str("DBUS_SESSION_BUS_ADDRESS=unix:path=/run/user/");
        let digits = string_from_chars(decimal_chars(self.uid).as_slice());
        bus.append(digits.as_str());
        bus.append("/bus");
        let mut args: Vec<String> = Vec::new();
        args.push(user);
        args.push(display);
        args.push(bus);
        args.push(String::from_str("notify-send"));
        args.push(String::from_str(title));
        args.push(String::from_str(msg));
        assert(string_views(args@) =~= notify_arguments(
            self.username@,
            self.display@,
            self.uid,
            title@,
            msg@,
        ));
        args
    }
}

} // verus!
