//! A loot message taken apart into the monster and the items it dropped,
//! and the items of it that a wish list asks for.
use regex::Regex;
use vstd::prelude::*;
use vstd::utf8::is_ascii_chars;

use crate::text::{
    chars_of, find, join, lemma_remove_all_absent, remove_all, remove_all_chars, split, split_chars, string_from_chars,
    string_views, trim, trim_range, views,
};

verus! {

/// The monster and the items of one loot message.
#[derive(Debug)]
pub struct Loot {
    pub monster: String,
    pub items: Vec<String>,
}

/// The words that introduce the monster of a loot message.
pub open spec fn loot_header() -> Seq<char> {
    "Loot of a"@
}

/// The two sides of the first colon after the first `Loot of a` of a
/// message (up to the next `Loot of a`).
pub open spec fn loot_sides(message: Seq<char>) -> Seq<Seq<char>> {
    split(split(message, loot_header())[1], ":"@)
}

/// Whether a message can be taken apart: it holds `Loot of a`, and a colon
/// follows it.
pub open spec fn loot_parses(message: Seq<char>) -> bool {
    &&& split(message, loot_header()).len() >= 2
    &&& loot_sides(message).len() >= 2
}

/// The monster named by a message, trimmed.
pub open spec fn loot_monster(message: Seq<char>) -> Seq<char> {
    trim(loot_sides(message)[0])
}

/// The items named by a message: what follows the colon, cut at the commas,
/// each piece trimmed.
pub open spec fn loot_items(message: Seq<char>) -> Seq<Seq<char>> {
    split(loot_sides(message)[1], ","@).map_values(|s: Seq<char>| trim(s))
}

/// An ASCII decimal digit.
pub open spec fn is_ascii_digit(c: char) -> bool {
    '0' <= c && c <= '9'
}

/// The number of ASCII digits that open `h`.
pub open spec fn digit_run(h: Seq<char>) -> nat
    decreases h.len(),
{
    if h.len() > 0 && is_ascii_digit(h[0]) {
        1 + digit_run(h.drop_first())
    } else {
        0
    }
}

/// The run of digits that opens a text lies in it, and what follows it is
/// no digit.
pub proof fn lemma_digit_run(h: Seq<char>)
    ensures
        digit_run(h) <= h.len(),
        h.len() > 0 && is_ascii_digit(h[0]) ==> digit_run(h) >= 1,
        forall|i: int| 0 <= i < digit_run(h) ==> is_ascii_digit(#[trigger] h[i]),
        digit_run(h) < h.len() ==> !is_ascii_digit(h[digit_run(h) as int]),
    decreases h.len(),
{
    if h.len() > 0 && is_ascii_digit(h[0]) {
        let t = h.drop_first();
        lemma_digit_run(t);
        assert forall|i: int| 0 <= i < digit_run(h) implies is_ascii_digit(#[trigger] h[i]) by {
            if i > 0 {
                assert(h[i] == t[i - 1]);
            }
        }
    }
}

/// An ASCII text with every run of digits that a space follows taken out
/// together with that space.
pub open spec fn remove_counts(h: Seq<char>) -> Seq<char>
    decreases h.len(),
{
    if h.len() == 0 {
        h
    } else if is_ascii_digit(h[0]) {
        let r = digit_run(h);
        proof {
            lemma_digit_run(h);
        }
        if r < h.len() && h[r as int] == ' ' {
            remove_counts(h.skip(r + 1int))
        } else {
            h.take(r as int) + remove_counts(h.skip(r as int))
        }
    } else {
        seq![h[0]] + remove_counts(h.drop_first())
    }
}

/// The last position at which a non-empty `k` occurs in `h`.
pub open spec fn rfind(h: Seq<char>, k: Seq<char>) -> Option<int>
    decreases h.len(),
{
    if k.len() == 0 {
        Some(h.len() as int)
    } else if h.len() < k.len() {
        None
    } else if h.skip(h.len() - k.len()) == k {
        Some(h.len() - k.len())
    } else {
        rfind(h.drop_last(), k)
    }
}

/// `h` with the last occurrence of `k` taken out; `h` itself where `k`
/// does not occur.
pub open spec fn cut_last(h: Seq<char>, k: Seq<char>) -> Seq<char> {
    match rfind(h, k) {
        Some(p) => h.take(p) + h.skip(p + k.len()),
        None => h,
    }
}

/// A non-empty word of lower-case ASCII letters (which a regex matches
/// literally).
pub open spec fn is_lower_word(k: Seq<char>) -> bool {
    &&& k.len() > 0
    &&& forall|i: int| 0 <= i < k.len() ==> 'a' <= #[trigger] k[i] && k[i] <= 'z'
}

/// Where a text has no digit that a space follows, no count is taken out.
pub proof fn lemma_remove_counts_plain(h: Seq<char>)
    requires
        forall|i: int| 0 <= i < h.len() - 1 ==> !(is_ascii_digit(#[trigger] h[i]) && h[i + 1] == ' '),
    ensures
        remove_counts(h) == h,
    decreases h.len(),
{
    if h.len() > 0 {
        if is_ascii_digit(h[0]) {
            let r = digit_run(h);
            lemma_digit_run(h);
            if r < h.len() {
                assert(is_ascii_digit(h[r - 1]));
                assert(h[r as int] != ' ');
            }
            let t = h.skip(r as int);
            assert forall|i: int| 0 <= i < t.len() - 1 implies !(is_ascii_digit(#[trigger] t[i]) && t[i + 1]
                == ' ') by {
                assert(t[i] == h[i + r] && t[i + 1] == h[i + r + 1]);
            }
            lemma_remove_counts_plain(t);
            assert(h.take(r as int) + t =~= h);
        } else {
            let t = h.drop_first();
            assert forall|i: int| 0 <= i < t.len() - 1 implies !(is_ascii_digit(#[trigger] t[i]) && t[i + 1]
                == ' ') by {
                assert(t[i] == h[i + 1] && t[i + 1] == h[i + 2]);
            }
            lemma_remove_counts_plain(t);
            assert(seq![h[0]] + t =~= h);
        }
    }
}

/// A count of digits and a space in front of a text is taken out.
pub proof fn lemma_remove_counts_count(count: Seq<char>, name: Seq<char>)
    requires
        count.len() > 0,
        forall|i: int| 0 <= i < count.len() ==> is_ascii_digit(#[trigger] count[i]),
        forall|i: int| 0 <= i < name.len() - 1 ==> !(is_ascii_digit(#[trigger] name[i]) && name[i + 1]
            == ' '),
    ensures
        remove_counts(count + " "@ + name) == name,
{
    reveal_strlit(" ");
    let h = count + " "@ + name;
    lemma_digit_run(h);
    lemma_digit_run_is(count, " "@ + name);
    assert(h[count.len() as int] == ' ');
    assert(h.skip(count.len() + 1int) =~= name);
    lemma_remove_counts_plain(name);
}

proof fn lemma_digit_run_is(count: Seq<char>, rest: Seq<char>)
    requires
        forall|i: int| 0 <= i < count.len() ==> is_ascii_digit(#[trigger] count[i]),
        rest.len() > 0,
        !is_ascii_digit(rest[0]),
    ensures
        digit_run(count + rest) == count.len(),
    decreases count.len(),
{
    if count.len() == 0 {
        assert(count + rest =~= rest);
    } else {
        let t = count.drop_first();
        assert forall|i: int| 0 <= i < t.len() implies is_ascii_digit(#[trigger] t[i]) by {
            assert(t[i] == count[i + 1]);
        }
        lemma_digit_run_is(t, rest);
        assert((count + rest).drop_first() =~= t + rest);
    }
}

/// Cutting the last occurrence of the word that ends a text leaves what
/// precedes it.
pub proof fn lemma_cut_last_suffix(stem: Seq<char>, k: Seq<char>)
    requires
        k.len() > 0,
    ensures
        cut_last(stem + k, k) == stem,
{
    let h = stem + k;
    assert(h.skip(h.len() - k.len()) =~= k);
    assert(rfind(h, k) == Some(stem.len() as int));
    assert(h.take(stem.len() as int) + h.skip((stem.len() + k.len()) as int) =~= stem);
}

/// The plural suffixes of English item names that filtering knows, each with
/// its singular replacement, by number.
pub open spec fn english_plural(r: int) -> (Seq<char>, Seq<char>) {
    if r == 0 {
        ("ches"@, "ch"@)
    } else if r == 1 {
        ("shes"@, "sh"@)
    } else if r == 2 {
        ("ies"@, "y"@)
    } else if r == 3 {
        ("ves"@, "fe"@)
    } else if r == 4 {
        ("oes"@, "o"@)
    } else if r == 5 {
        ("zes"@, "z"@)
    } else {
        ("s"@, ""@)
    }
}

/// Whether an item is `count`, a space, `stem` and the plural suffix number
/// `r`: the count ASCII digits, the whole ASCII without a line break, no
/// digit after the count followed by a space, and no article `a ` or `an `
/// in it.
pub open spec fn counted_plural(item: Seq<char>, count: Seq<char>, stem: Seq<char>, r: int) -> bool {
    let name = stem + english_plural(r).0;
    &&& 0 <= r < 7
    &&& count.len() > 0
    &&& forall|i: int| 0 <= i < count.len() ==> is_ascii_digit(#[trigger] count[i])
    &&& item == count + " "@ + name
    &&& is_ascii_chars(item)
    &&& !name.contains('\n')
    &&& forall|i: int|
        0 <= i < name.len() - 1 ==> !(is_ascii_digit(#[trigger] name[i]) && name[i + 1] == ' ')
    &&& find(item, "a "@) is None
    &&& find(item, "an "@) is None
}

/// Whether an item is the article `a ` followed by `name`, which holds no
/// further article.
pub open spec fn with_article(item: Seq<char>, name: Seq<char>) -> bool {
    &&& item == "a "@ + name
    &&& find(name, "a "@) is None
    &&& find(name, "an "@) is None
}

proof fn lemma_article_stripped(name: Seq<char>)
    requires
        find(name, "a "@) is None,
        find(name, "an "@) is None,
    ensures
        strip_articles("a "@ + name) == name,
{
    reveal_strlit("a ");
    reveal_strlit("an ");
    let s = "a "@ + name;
    assert(s.take(2) =~= "a "@);
    assert(s.skip(2) =~= name);
    lemma_remove_all_absent(name, "a "@);
    lemma_remove_all_absent(name, "an "@);
}

proof fn lemma_english_plurals()
    ensures
        forall|r: int| 0 <= r < 7 ==> #[trigger] plural_suffixes()[r] == english_plural(r),
        plural_suffixes().len() == 7,
        forall|r: int| 0 <= r < 7 ==> is_lower_word(#[trigger] english_plural(r).0),
{
    reveal_strlit("ches");
    reveal_strlit("shes");
    reveal_strlit("ies");
    reveal_strlit("ves");
    reveal_strlit("oes");
    reveal_strlit("zes");
    reveal_strlit("s");
    assert forall|r: int| 0 <= r < 7 implies #[trigger] plural_suffixes()[r] == english_plural(r) by {
    }
    assert forall|r: int| 0 <= r < 7 implies is_lower_word(#[trigger] english_plural(r).0) by {
    }
}

/// Whether Regex::new accepts the pattern.
pub uninterp spec fn regex_compiles(pattern: Seq<char>) -> bool;

/// What Regex::replace_all gives for the haystack, the pattern compiled.
pub uninterp spec fn regex_replace_all_result(
    pattern: Seq<char>,
    haystack: Seq<char>,
    replacement: Seq<char>,
) -> Seq<char>;

/// Compiles `pattern` with `regex::Regex::new` and, where that succeeds,
/// replaces every match in `haystack` with `replacement` through
/// `regex::Regex::replace_all`.
///
/// Trusted: the result is `None` exactly when the pattern does not compile
/// (which depends on the pattern alone), and otherwise it is named by
/// [`regex_replace_all_result`] over the three texts. Of two patterns it
/// also states what the regex crate's documentation gives (matches are
/// leftmost-first and do not overlap, `+` and `*` are greedy, `\d` matches
/// the Unicode decimal digits, of which the ASCII ones are `0` to `9`, `.`
/// matches any character but `\n`, and `$w` in a replacement stands for the
/// group named `w`):
/// - `\d+ ` replaced by nothing in an ASCII text takes out every run of
///   digits that a space follows, with that space ([`remove_counts`]);
/// - `(?P<w>.*)` followed by a word of lower-case letters, replaced by `$w`
///   in a text without `\n`, takes out the last occurrence of the word
///   ([`cut_last`]): the greedy group runs up to it from the start.
/// Of other patterns and texts nothing is stated beyond the name.
#[verifier::external_body]
fn regex_replace_all(pattern: &str, haystack: &str, replacement: &str) -> (r: Option<String>)
    ensures
        r is Some <==> regex_compiles(pattern@),
        r matches Some(s) ==> s@ == regex_replace_all_result(pattern@, haystack@, replacement@),
        pattern@ == "\\d+ "@ && replacement@ == ""@ && is_ascii_chars(haystack@) ==> (r is Some
            && r->0@ == remove_counts(haystack@)),
        pattern@.len() > 9 && pattern@.take(9) == "(?P<w>.*)"@ && is_lower_word(pattern@.skip(9))
            && replacement@ == "$w"@ && !haystack@.contains('\n') ==> (r is Some && r->0@
            == cut_last(haystack@, pattern@.skip(9))),
{
    match Regex::new(pattern) {
        Ok(re) => Some(re.replace_all(haystack, replacement).into_owned()),
        Err(_) => None,
    }
}

/// An item with every `a ` and then every `an ` taken out.
pub open spec fn strip_articles(item: Seq<char>) -> Seq<char> {
    remove_all(remove_all(item, "a "@), "an "@)
}

/// The pattern of a count in front of an item, such as the `2 ` of `2 as`.
pub open spec fn count_pattern() -> Seq<char> {
    "\\d+ "@
}

/// The pattern that keeps what precedes a plural suffix.
pub open spec fn suffix_pattern(suffix: Seq<char>) -> Seq<char> {
    "(?P<w>.*)"@ + suffix
}

/// The replacement that keeps what precedes the suffix.
pub open spec fn stem_replacement() -> Seq<char> {
    "$w"@
}

/// The plural suffixes of English item names with what replaces each in the
/// singular.
pub open spec fn plural_suffixes() -> Seq<(Seq<char>, Seq<char>)> {
    seq![
        ("ches"@, "ch"@),
        ("shes"@, "sh"@),
        ("ies"@, "y"@),
        ("ves"@, "fe"@),
        ("oes"@, "o"@),
        ("zes"@, "z"@),
        ("s"@, ""@),
    ]
}

/// Whether every pattern that filtering may compile compiles.
pub open spec fn filter_patterns_compile() -> bool {
    &&& regex_compiles(count_pattern())
    &&& forall|j: int|
        0 <= j < plural_suffixes().len() ==> regex_compiles(
            suffix_pattern(#[trigger] plural_suffixes()[j].0),
        )
}

/// The singular of `item` that the suffix at position `j` of the table
/// gives, after the count in front of it is taken out.
pub open spec fn singular(item: Seq<char>, j: int) -> Seq<char> {
    let uncounted = regex_replace_all_result(count_pattern(), item, ""@);
    regex_replace_all_result(suffix_pattern(plural_suffixes()[j].0), uncounted, stem_replacement())
        + plural_suffixes()[j].1
}

/// Whether the wish list asks for an item (its articles already taken out):
/// the item itself is on it, or one of its singulars is.
pub open spec fn wanted(list: Seq<Seq<char>>, item: Seq<char>) -> bool {
    ||| list.contains(item)
    ||| exists|j: int| 0 <= j < plural_suffixes().len() && list.contains(#[trigger] singular(item, j))
}

/// The items, their articles taken out, that the wish list asks for, in
/// their order.
pub open spec fn filter_items(list: Seq<Seq<char>>, items: Seq<Seq<char>>) -> Seq<Seq<char>> {
    items.map_values(|i: Seq<char>| strip_articles(i)).filter(wanted_by(list))
}

/// The test of [`wanted`] for a given list.
pub open spec fn wanted_by(list: Seq<Seq<char>>) -> spec_fn(Seq<char>) -> bool {
    |i: Seq<char>| wanted(list, i)
}

/// Filtering never adds an item.
pub proof fn law_filter_never_adds(list: Seq<Seq<char>>, items: Seq<Seq<char>>)
    ensures
        filter_items(list, items).len() <= items.len(),
{
    items.map_values(|i: Seq<char>| strip_articles(i)).lemma_filter_len(wanted_by(list));
}

/// An item that is on the list once its articles are taken out is kept.
pub proof fn law_listed_item_is_kept(list: Seq<Seq<char>>, items: Seq<Seq<char>>, i: int)
    requires
        0 <= i < items.len(),
        list.contains(strip_articles(items[i])),
    ensures
        filter_items(list, items).contains(strip_articles(items[i])),
{
    let stripped = items.map_values(|i: Seq<char>| strip_articles(i));
    assert(stripped[i] == strip_articles(items[i]));
    stripped.lemma_filter_contains(wanted_by(list), i);
}

/// With an empty wish list nothing is kept.
pub proof fn law_empty_list_keeps_nothing(items: Seq<Seq<char>>)
    ensures
        filter_items(Seq::empty(), items).len() == 0,
{
    let list = Seq::<Seq<char>>::empty();
    let f = filter_items(list, items);
    if f.len() > 0 {
        let stripped = items.map_values(|i: Seq<char>| strip_articles(i));
        stripped.lemma_filter_pred(wanted_by(list), 0);
        assert(wanted(list, f[0]));
    }
}

/// Every item kept is an item of the loot, its articles taken out, that
/// the list asks for.
pub proof fn law_kept_items_are_wanted(list: Seq<Seq<char>>, items: Seq<Seq<char>>, i: int)
    requires
        0 <= i < filter_items(list, items).len(),
    ensures
        wanted(list, filter_items(list, items)[i]),
        items.map_values(|i: Seq<char>| strip_articles(i)).contains(filter_items(list, items)[i]),
{
    let stripped = items.map_values(|i: Seq<char>| strip_articles(i));
    stripped.lemma_filter_pred(wanted_by(list), i);
    assert(stripped.filter(wanted_by(list)).contains(filter_items(list, items)[i]));
    stripped.lemma_filter_contains_rev(wanted_by(list), filter_items(list, items)[i]);
}

/// The plural suffixes and their singular replacements (see
/// [`plural_suffixes`]).
fn plural_suffix_table() -> (t: Vec<(&'static str, &'static str)>)
    ensures
        t@.map_values(|p: (&str, &str)| (p.0@, p.1@)) == plural_suffixes(),
{
    let t = vec![
        ("ches", "ch"),
        ("shes", "sh"),
        ("ies", "y"),
        ("ves", "fe"),
        ("oes", "o"),
        ("zes", "z"),
        ("s", ""),
    ];
    assert(t@.map_values(|p: (&str, &str)| (p.0@, p.1@)) =~= plural_suffixes());
    t
}

/// Whether `item` is on the list.
fn listed(list: &[String], item: &String) -> (b: bool)
    ensures
        b == string_views(list@).contains(item@),
{
    let mut j: usize = 0;
    while j < list.len()
        invariant
            j <= list@.len(),
            forall|k: int| 0 <= k < j ==> list@[k]@ != item@,
        decreases list@.len() - j,
    {
        if list[j] == *item {
            assert(string_views(list@)[j as int] == item@);
            return true;
        }
        j = j + 1;
    }
    assert forall|k: int| 0 <= k < string_views(list@).len() implies string_views(list@)[k]
        != item@ by {
        assert(string_views(list@)[k] == list@[k]@);
    }
    false
}

/// Whether the list asks for the item (see [`wanted`]).
fn is_wanted(list: &[String], item: &String) -> (b: bool)
    requires
        filter_patterns_compile(),
    ensures
        b == wanted(string_views(list@), item@),
        forall|count: Seq<char>, stem: Seq<char>, r: int|
            #[trigger] counted_plural(item@, count, stem, r) && string_views(list@).contains(
                stem + english_plural(r).1,
            ) ==> b,
{
    if listed(list, item) {
        return true;
    }
    let uncounted = regex_replace_all("\\d+ ", item.as_str(), "").unwrap();
    proof {
        lemma_english_plurals();
        assert forall|count: Seq<char>, stem: Seq<char>, r: int| #[trigger]
            counted_plural(item@, count, stem, r) implies uncounted@ == stem + english_plural(r).0 by {
            lemma_remove_counts_count(count, stem + english_plural(r).0);
        }
    }
    let table = plural_suffix_table();
    let mut j: usize = 0;
    while j < table.len()
        invariant
            filter_patterns_compile(),
            table@.map_values(|p: (&str, &str)| (p.0@, p.1@)) == plural_suffixes(),
            plural_suffixes().len() == 7,
            forall|r: int| 0 <= r < 7 ==> #[trigger] plural_suffixes()[r] == english_plural(r),
            forall|r: int| 0 <= r < 7 ==> is_lower_word(#[trigger] english_plural(r).0),
            uncounted@ == regex_replace_all_result(count_pattern(), item@, ""@),
            forall|count: Seq<char>, stem: Seq<char>, r: int| #[trigger]
                counted_plural(item@, count, stem, r) ==> uncounted@ == stem + english_plural(r).0,
            j <= table@.len(),
            forall|k: int| 0 <= k < j ==> !string_views(list@).contains(#[trigger] singular(item@, k)),
            forall|count: Seq<char>, stem: Seq<char>, r: int|
                #[trigger] counted_plural(item@, count, stem, r) && r < j ==> !string_views(
                    list@,
                ).contains(stem + english_plural(r).1),
        decreases table@.len() - j,
    {
        let (suffix, replacement) = table[j];
        assert(suffix@ == plural_suffixes()[j as int].0);
        assert(replacement@ == plural_suffixes()[j as int].1);
        let mut pattern = String::from_str("(?P<w>.*)");
        pattern.append(suffix);
        let stem = regex_replace_all(pattern.as_str(), uncounted.as_str(), "$w").unwrap();
        let candidate = stem.concat(replacement);
        assert(candidate@ == singular(item@, j as int));
        proof {
            reveal_strlit("(?P<w>.*)");
            assert(pattern@.take(9) =~= "(?P<w>.*)"@);
            assert(pattern@.skip(9) =~= suffix@);
            assert forall|count: Seq<char>, stem2: Seq<char>, r: int| #[trigger]
                counted_plural(item@, count, stem2, r) && r == j implies candidate@ == stem2
                + english_plural(r).1 by {
                lemma_cut_last_suffix(stem2, english_plural(r).0);
            }
        }
        if listed(list, &candidate) {
            return true;
        }
        j = j + 1;
    }
    false
}

impl Loot {
    /// Whether [`Loot::from`] can take the message apart (see
    /// [`loot_parses`]).
    pub fn parses(message: &str) -> (b: bool)
        ensures
            b == loot_parses(message@),
    {
        let m = chars_of(message);
        let header = chars_of("Loot of a");
        proof {
            reveal_strlit("Loot of a");
        }
        let pieces = split_chars(m.as_slice(), header.as_slice());
        if pieces.len() < 2 {
            return false;
        }
        let colon = chars_of(":");
        proof {
            reveal_strlit(":");
        }
        let sides = split_chars(pieces[1].as_slice(), colon.as_slice());
        sides.len() >= 2
    }

    /// The monster and the items of a loot message: the text after the first
    /// `Loot of a` is cut at its first colon; before it stands the monster,
    /// after it (up to a further colon) the items, separated by commas; all
    /// are trimmed.
    pub fn from(message: &str) -> (loot: Self)
        requires
            loot_parses(message@),
        ensures
            loot.monster@ == loot_monster(message@),
            string_views(loot.items@) == loot_items(message@),
    {
        let m = chars_of(message);
        let header = chars_of("Loot of a");
        let colon = chars_of(":");
        let comma = chars_of(",");
        proof {
            reveal_strlit("Loot of a");
            reveal_strlit(":");
            reveal_strlit(",");
        }
        let pieces = split_chars(m.as_slice(), header.as_slice());
        let sides = split_chars(pieces[1].as_slice(), colon.as_slice());
        let monster = trim_range(sides[0].as_slice(), 0, sides[0].len());
        assert(sides[0]@.subrange(0, sides[0]@.len() as int) =~= sides[0]@);
        let raw_items = split_chars(sides[1].as_slice(), comma.as_slice());
        let mut items: Vec<String> = Vec::new();
        let mut j: usize = 0;
        while j < raw_items.len()
            invariant
                j <= raw_items@.len(),
                string_views(items@) == views(raw_items@).take(j as int).map_values(
                    |s: Seq<char>| trim(s),
                ),
            decreases raw_items@.len() - j,
        {
            let piece = &raw_items[j];
            let t = trim_range(piece.as_slice(), 0, piece.len());
            assert(piece@.subrange(0, piece@.len() as int) =~= piece@);
            let ghost before = string_views(items@);
            items.push(string_from_chars(t.as_slice()));
            assert(string_views(items@) =~= before.push(trim(piece@)));
            j = j + 1;
            assert(views(raw_items@).take(j as int).map_values(|s: Seq<char>| trim(s)) =~= before.push(
                trim(piece@),
            ));
        }
        assert(views(raw_items@).take(j as int) =~= views(raw_items@));
        Loot { monster: string_from_chars(monster.as_slice()), items }
    }

    /// Keeps the items that the wish list asks for, each with every `a `
    /// and then every `an ` taken out; an item is kept when it is on the
    /// list, or when, with the count in front of it taken out, one of its
    /// singulars is (see [`wanted`]).
    pub fn filter(self, loot_list: &[String]) -> (loot: Self)
        requires
            filter_patterns_compile(),
        ensures
            loot.monster == self.monster,
            string_views(loot.items@) == filter_items(
                string_views(loot_list@),
                string_views(self.items@),
            ),
            forall|i: int, count: Seq<char>, stem: Seq<char>, r: int|
                0 <= i < self.items@.len() && #[trigger] counted_plural(
                    self.items@[i]@,
                    count,
                    stem,
                    r,
                ) && string_views(loot_list@).contains(stem + english_plural(r).1)
                    ==> string_views(loot.items@).contains(self.items@[i]@),
            forall|i: int, name: Seq<char>|
                0 <= i < self.items@.len() && #[trigger] with_article(self.items@[i]@, name)
                    && string_views(loot_list@).contains(name) ==> string_views(
                    loot.items@,
                ).contains(name),
    {
        let ghost list = string_views(loot_list@);
        let ghost all = string_views(self.items@);
        let mut kept: Vec<String> = Vec::new();
        let mut j: usize = 0;
        while j < self.items.len()
            invariant
                filter_patterns_compile(),
                list == string_views(loot_list@),
                all == string_views(self.items@),
                j <= self.items@.len(),
                string_views(kept@) == filter_items(list, all.take(j as int)),
                forall|i: int, count: Seq<char>, stem: Seq<char>, r: int|
                    0 <= i < j && #[trigger] counted_plural(self.items@[i]@, count, stem, r)
                        && list.contains(stem + english_plural(r).1) ==> string_views(
                        kept@,
                    ).contains(self.items@[i]@),
                forall|i: int, name: Seq<char>|
                    0 <= i < j && #[trigger] with_article(self.items@[i]@, name) && list.contains(
                        name,
                    ) ==> string_views(kept@).contains(name),
            decreases self.items@.len() - j,
        {
            let item = chars_of(self.items[j].as_str());
            let a = chars_of("a ");
            let an = chars_of("an ");
            let without_a = remove_all_chars(item.as_slice(), a.as_slice());
            let stripped = remove_all_chars(without_a.as_slice(), an.as_slice());
            let s = string_from_chars(stripped.as_slice());
            proof {
                reveal_strlit("a ");
                reveal_strlit("an ");
                assert forall|count: Seq<char>, stem: Seq<char>, r: int| #[trigger]
                    counted_plural(self.items@[j as int]@, count, stem, r) implies s@
                    == self.items@[j as int]@ by {
                    lemma_remove_all_absent(item@, a@);
                    lemma_remove_all_absent(item@, an@);
                }
                assert forall|name: Seq<char>| #[trigger]
                    with_article(self.items@[j as int]@, name) implies s@ == name by {
                    lemma_article_stripped(name);
                }
            }
            let ghost before = string_views(kept@);
            let keep = is_wanted(loot_list, &s);
            if keep {
                kept.push(s);
                proof {
                    assert(string_views(kept@) =~= before.push(s@));
                    assert forall|c: Seq<char>| before.contains(c) implies string_views(kept@).contains(c) by {
                        let k = choose|k: int| 0 <= k < before.len() && before[k] == c;
                        assert(string_views(kept@)[k] == c);
                    }
                    assert(string_views(kept@)[before.len() as int] == s@);
                }
            }
            proof {
                let t = all.take(j + 1);
                assert(t.drop_last() =~= all.take(j as int));
                let mapped = t.map_values(|i: Seq<char>| strip_articles(i));
                assert(mapped.drop_last() =~= all.take(j as int).map_values(
                    |i: Seq<char>| strip_articles(i),
                ));
                assert(mapped.last() == s@);
                reveal(Seq::filter);
                assert(string_views(kept@) =~= filter_items(list, t));
            }
            j = j + 1;
        }
        assert(all.take(j as int) =~= all);
        Loot { monster: self.monster, items: kept }
    }

    /// Filters the items as [`Loot::filter`] does where every pattern that
    /// filtering may compile compiles, and gives `None` where one does not.
    pub fn filter_checked(self, loot_list: &[String]) -> (r: Option<Self>)
        ensures
            r is Some <==> filter_patterns_compile(),
            r matches Some(loot) ==> loot.monster == self.monster && string_views(loot.items@)
                == filter_items(string_views(loot_list@), string_views(self.items@)),
            r matches Some(loot) ==> forall|i: int, count: Seq<char>, stem: Seq<char>, row: int|
                0 <= i < self.items@.len() && #[trigger] counted_plural(
                    self.items@[i]@,
                    count,
                    stem,
                    row,
                ) && string_views(loot_list@).contains(stem + english_plural(row).1)
                    ==> string_views(loot.items@).contains(self.items@[i]@),
            r matches Some(loot) ==> forall|i: int, name: Seq<char>|
                0 <= i < self.items@.len() && #[trigger] with_article(self.items@[i]@, name)
                    && string_views(loot_list@).contains(name) ==> string_views(
                    loot.items@,
                ).contains(name),
    {
        if regex_replace_all("\\d+ ", "", "").is_none() {
            return None;
        }
        let table = plural_suffix_table();
        let mut j: usize = 0;
        while j < table.len()
            invariant
                regex_compiles(count_pattern()),
                table@.map_values(|p: (&str, &str)| (p.0@, p.1@)) == plural_suffixes(),
                j <= table@.len(),
                forall|k: int|
                    0 <= k < j ==> regex_compiles(suffix_pattern(#[trigger] plural_suffixes()[k].0)),
            decreases table@.len() - j,
        {
            let (suffix, _) = table[j];
            assert(suffix@ == plural_suffixes()[j as int].0);
            let mut pattern = String::from_str("(?P<w>.*)");
            pattern.append(suffix);
            if regex_replace_all(pattern.as_str(), "", "").is_none() {
                return None;
            }
            j = j + 1;
        }
        Some(self.filter(loot_list))
    }

    /// The name of the monster.
    pub fn monster_name<'a>(&'a self) -> (name: &'a str)
        ensures
            name@ == self.monster@,
    {
        self.monster.as_str()
    }

    /// The items, separated by `, `.
    pub fn looted_items<'a>(&'a self) -> (text: String)
        ensures
            text@ == join(string_views(self.items@), ", "@),
    {
        let mut text = String::new();
        let mut j: usize = 0;
        while j < self.items.len()
            invariant
                j <= self.items@.len(),
                text@ == join(string_views(self.items@).take(j as int), ", "@),
            decreases self.items@.len() - j,
        {
            let ghost t = string_views(self.items@).take(j + 1);
            assert(t.drop_last() =~= string_views(self.items@).take(j as int));
            if j > 0 {
                text.append(", ");
            } else {
                assert(join(string_views(self.items@).take(0), ", "@) =~= seq![]);
            }
            text.append(self.items[j].as_str());
            j = j + 1;
        }
        assert(string_views(self.items@).take(j as int) =~= string_views(self.items@));
        text
    }
}

} // verus!
