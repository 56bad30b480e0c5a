//! Character-sequence helpers shared by the parsers of the library.
use vstd::prelude::*;

verus! {

/// The characters that carry the Unicode `White_Space` property, which is
/// what `char::is_whitespace` (and so `str::trim`) documents.
pub open spec fn is_space(c: char) -> bool {
    ||| ('\u{9}' <= c && c <= '\u{d}')
    ||| c == ' '
    ||| c == '\u{85}'
    ||| c == '\u{a0}'
    ||| c == '\u{1680}'
    ||| ('\u{2000}' <= c && c <= '\u{200a}')
    ||| c == '\u{2028}'
    ||| c == '\u{2029}'
    ||| c == '\u{202f}'
    ||| c == '\u{205f}'
    ||| c == '\u{3000}'
}

/// Whether `c` is white space in the sense of [`is_space`].
pub fn is_space_char(c: char) -> (b: bool)
    ensures
        b == is_space(c),
{
    ('\u{9}' <= c && c <= '\u{d}') || c == ' ' || c == '\u{85}' || c == '\u{a0}' || c == '\u{1680}'
        || ('\u{2000}' <= c && c <= '\u{200a}') || c == '\u{2028}' || c == '\u{2029}' || c
        == '\u{202f}' || c == '\u{205f}' || c == '\u{3000}'
}

/// The characters of a string slice, in order.
pub fn chars_of(s: &str) -> (v: Vec<char>)
    ensures
        v@ == s@,
{
    let mut v: Vec<char> = Vec::new();
    for c in it: s.chars()
        invariant
            v@ == it.seq().take(it.index() as int),
    {
        v.push(c);
    }
    v
}

/// A byte below 128 read as the character with that code.
pub fn byte_char(b: u8) -> (c: char)
    requires
        b < 128,
    ensures
        c == (b as char),
{
    b as char
}


/// The string made of the given characters, in order.
///
/// Trusted: calls std's `FromIterator<&char> for String` (`collect`), which
/// documents that the characters are appended one by one in iteration order.
#[verifier::external_body]
pub fn string_from_chars(chars: &[char]) -> (s: String)
    ensures
        s@ == chars@,
{
    chars.iter().collect()
}

/// `s` without its leading white space.
pub open spec fn trim_start(s: Seq<char>) -> Seq<char>
    decreases s.len(),
{
    if s.len() > 0 && is_space(s[0]) {
        trim_start(s.drop_first())
    } else {
        s
    }
}

/// `s` without its trailing white space.
pub open spec fn trim_end(s: Seq<char>) -> Seq<char>
    decreases s.len(),
{
    if s.len() > 0 && is_space(s.last()) {
        trim_end(s.drop_last())
    } else {
        s
    }
}

/// `s` without leading and trailing white space, as `str::trim` gives it.
pub open spec fn trim(s: Seq<char>) -> Seq<char> {
    trim_end(trim_start(s))
}

proof fn lemma_trim_start_skip(s: Seq<char>, i: int)
    requires
        0 <= i < s.len(),
        is_space(s[i]),
    ensures
        trim_start(s.skip(i)) == trim_start(s.skip(i + 1)),
{
    assert(s.skip(i).drop_first() =~= s.skip(i + 1));
}

proof fn lemma_trim_end_sub(s: Seq<char>, j: int)
    requires
        0 < j <= s.len(),
        is_space(s[j - 1]),
    ensures
        trim_end(s.take(j)) == trim_end(s.take(j - 1)),
{
    assert(s.take(j).drop_last() =~= s.take(j - 1));
}

/// `trim_start(s)` is a suffix of `s`.
pub proof fn lemma_trim_start_suffix(s: Seq<char>) -> (k: int)
    ensures
        0 <= k <= s.len(),
        trim_start(s) == s.skip(k),
    decreases s.len(),
{
    if s.len() > 0 && is_space(s[0]) {
        let k = lemma_trim_start_suffix(s.drop_first());
        assert(s.drop_first().skip(k) =~= s.skip(k + 1));
        k + 1
    } else {
        assert(s.skip(0) =~= s);
        0
    }
}

/// `trim_end(s)` is a prefix of `s`.
pub proof fn lemma_trim_end_prefix(s: Seq<char>) -> (k: int)
    ensures
        0 <= k <= s.len(),
        trim_end(s) == s.take(k),
    decreases s.len(),
{
    if s.len() > 0 && is_space(s.last()) {
        let k = lemma_trim_end_prefix(s.drop_last());
        assert(s.drop_last().take(k) =~= s.take(k));
        k
    } else {
        assert(s.take(s.len() as int) =~= s);
        s.len() as int
    }
}

/// `trim(s)` is a piece of `s`.
pub proof fn lemma_trim_piece(s: Seq<char>) -> (r: (int, int))
    ensures
        0 <= r.0 <= r.1 <= s.len(),
        trim(s) == s.subrange(r.0, r.1),
{
    let a = lemma_trim_start_suffix(s);
    let b = lemma_trim_end_prefix(s.skip(a));
    assert(s.skip(a).take(b) =~= s.subrange(a, a + b));
    (a, a + b)
}

/// The characters of `s[from..to]` without leading and trailing white space.
pub fn trim_range(s: &[char], from: usize, to: usize) -> (v: Vec<char>)
    requires
        from <= to <= s@.len(),
    ensures
        v@ == trim(s@.subrange(from as int, to as int)),
{
    let ghost w = s@.subrange(from as int, to as int);
    let mut i = from;
    assert(w.skip(0) =~= w);
    while i < to && is_space_char(s[i])
        invariant
            from <= i <= to <= s@.len(),
            w == s@.subrange(from as int, to as int),
            trim_start(w) == trim_start(w.skip(i - from)),
        decreases to - i,
    {
        proof {
            lemma_trim_start_skip(w, i - from);
        }
        i = i + 1;
    }
    let ghost u = w.skip(i - from);
    assert(trim_start(u) == u);
    let mut j = to;
    assert(u.take(u.len() as int) =~= u);
    while j > i && is_space_char(s[j - 1])
        invariant
            from <= i <= j <= to <= s@.len(),
            w == s@.subrange(from as int, to as int),
            u == w.skip(i - from),
            trim(w) == trim_end(u.take(j - i)),
        decreases j,
    {
        proof {
            lemma_trim_end_sub(u, j - i);
        }
        j = j - 1;
    }
    let ghost t = u.take(j - i);
    assert(trim_end(t) == t);
    let mut v: Vec<char> = Vec::new();
    let mut k = i;
    while k < j
        invariant
            i <= k <= j <= s@.len(),
            v@ == s@.subrange(i as int, k as int),
        decreases j - k,
    {
        v.push(s[k]);
        k = k + 1;
        assert(v@ =~= s@.subrange(i as int, k as int));
    }
    assert(t =~= s@.subrange(i as int, j as int));
    v
}

/// The first position at which `p` occurs in `s`, if any.
pub open spec fn find(s: Seq<char>, p: Seq<char>) -> Option<int>
    decreases s.len(),
{
    if p.len() == 0 {
        Some(0)
    } else if s.len() < p.len() {
        None
    } else if s.take(p.len() as int) == p {
        Some(0)
    } else {
        match find(s.drop_first(), p) {
            Some(k) => Some(k + 1),
            None => None,
        }
    }
}

/// The pieces of `s` between the occurrences of a non-empty `p`, as
/// `str::split` yields them.
pub open spec fn split(s: Seq<char>, p: Seq<char>) -> Seq<Seq<char>>
    decreases s.len(),
{
    if p.len() == 0 {
        seq![s]
    } else {
        match find(s, p) {
            Some(k) => if 0 <= k && k + p.len() <= s.len() {
                seq![s.take(k)] + split(s.skip(k + p.len()), p)
            } else {
                seq![s]
            },
            None => seq![s],
        }
    }
}

proof fn lemma_find_bounds(s: Seq<char>, p: Seq<char>)
    ensures
        find(s, p) matches Some(k) ==> 0 <= k && k + p.len() <= s.len() && s.subrange(
            k,
            k + p.len(),
        ) == p,
    decreases s.len(),
{
    if p.len() == 0 {
        assert(s.subrange(0, 0) =~= p);
    } else if s.len() >= p.len() && s.take(p.len() as int) != p {
        let t = s.drop_first();
        lemma_find_bounds(t, p);
        match find(t, p) {
            Some(k) => {
                assert(find(s, p) == Some(k + 1));
                assert(0 <= k && k + p.len() <= t.len());
                assert(s.subrange(k + 1, k + 1 + p.len()) =~= t.subrange(k, k + p.len()));
            },
            None => {},
        }
    } else if s.len() >= p.len() {
        assert(s.subrange(0, p.len() as int) =~= s.take(p.len() as int));
    }
}

/// Whether `p` occurs in `s` at position `i`.
pub fn occurs_at(s: &[char], i: usize, p: &[char]) -> (b: bool)
    requires
        i <= s@.len(),
    ensures
        b == (p@.len() <= s@.len() - i && s@.subrange(i as int, i + p@.len()) == p@),
{
    let n = s.len();
    if p.len() > n - i {
        return false;
    }
    let ghost w = s@.subrange(i as int, i + p@.len());
    let mut k: usize = 0;
    while k < p.len()
        invariant
            n == s@.len(),
            i <= n,
            p@.len() <= n - i,
            w == s@.subrange(i as int, i + p@.len()),
            k <= p@.len(),
            forall|m: int| 0 <= m < k ==> s@[i + m] == p@[m],
        decreases p@.len() - k,
    {
        if s[i + k] != p[k] {
            assert(w[k as int] != p@[k as int]);
            return false;
        }
        k = k + 1;
    }
    assert(s@.subrange(i as int, i + p@.len()) =~= p@);
    true
}

/// The first position at or after `from` at which `p` occurs in `s`.
pub fn find_from(s: &[char], from: usize, p: &[char]) -> (r: Option<usize>)
    requires
        from <= s@.len(),
    ensures
        match find(s@.skip(from as int), p@) {
            Some(k) => r is Some && r->0 == from + k,
            None => r is None,
        },
{
    let mut i = from;
    while i <= s.len()
        invariant
            from <= i <= s@.len() + 1,
            i <= s@.len() ==> (find(s@.skip(from as int), p@) == match find(
                s@.skip(i as int),
                p@,
            ) {
                Some(k) => Some(k + (i - from)),
                None => None,
            }),
            i > s@.len() ==> find(s@.skip(from as int), p@) is None,
        decreases s@.len() + 1 - i,
    {
        let ghost t = s@.skip(i as int);
        if p.len() > s.len() - i {
            return None;
        }
        if occurs_at(s, i, p) {
            assert(t.take(p@.len() as int) =~= s@.subrange(i as int, i + p@.len()));
            return Some(i);
        }
        assert(t.take(p@.len() as int) =~= s@.subrange(i as int, i + p@.len()));
        if i == s.len() {
            assert(t.len() == 0);
            assert(p@.len() == 0);
            assert(t.take(0) =~= p@);
            assert(false);
        }
        assert(t.drop_first() =~= s@.skip(i + 1));
        i = i + 1;
    }
    None
}

/// The character sequences held by a vector of character vectors.
pub open spec fn views(v: Seq<Vec<char>>) -> Seq<Seq<char>> {
    v.map_values(|x: Vec<char>| x@)
}

/// The pieces of `s` between the occurrences of `p`, as `str::split` yields
/// them.
pub fn split_chars(s: &[char], p: &[char]) -> (parts: Vec<Vec<char>>)
    requires
        p@.len() > 0,
    ensures
        views(parts@) == split(s@, p@),
{
    let mut parts: Vec<Vec<char>> = Vec::new();
    let mut start: usize = 0;
    let n = s.len();
    assert(s@.skip(0) =~= s@);
    loop
        invariant
            n == s@.len(),
            p@.len() > 0,
            start <= s@.len(),
            split(s@, p@) == views(parts@) + split(s@.skip(start as int), p@),
        decreases s@.len() - start,
    {
        let ghost t = s@.skip(start as int);
        proof {
            lemma_find_bounds(t, p@);
        }
        match find_from(s, start, p) {
            Some(k) => {
                let mut piece: Vec<char> = Vec::new();
                let mut m = start;
                while m < k
                    invariant
                        start <= m <= k <= s@.len(),
                        piece@ == s@.subrange(start as int, m as int),
                    decreases k - m,
                {
                    piece.push(s[m]);
                    m = m + 1;
                    assert(piece@ =~= s@.subrange(start as int, m as int));
                }
                let ghost old_parts = views(parts@);
                assert(piece@ =~= t.take(k - start));
                assert(t.skip(k - start + p@.len()) =~= s@.skip(k + p@.len()));
                parts.push(piece);
                assert(views(parts@) =~= old_parts.push(piece@));
                start = k + p.len();
                assert(split(s@, p@) =~= views(parts@) + split(s@.skip(start as int), p@));
            },
            None => {
                let mut piece: Vec<char> = Vec::new();
                let mut m = start;
                while m < s.len()
                    invariant
                        start <= m <= s@.len(),
                        piece@ == s@.subrange(start as int, m as int),
                    decreases s@.len() - m,
                {
                    piece.push(s[m]);
                    m = m + 1;
                    assert(piece@ =~= s@.subrange(start as int, m as int));
                }
                let ghost old_parts = views(parts@);
                assert(piece@ =~= t);
                parts.push(piece);
                assert(views(parts@) =~= old_parts.push(piece@));
                assert(split(s@, p@) =~= views(parts@));
                return parts;
            },
        }
    }
}

/// `s` with every occurrence of a non-empty `p` taken out, the occurrences
/// found from left to right without overlap, as `str::replace(p, "")` does.
pub open spec fn remove_all(s: Seq<char>, p: Seq<char>) -> Seq<char>
    decreases s.len(),
{
    if s.len() == 0 {
        s
    } else if 0 < p.len() <= s.len() && s.take(p.len() as int) == p {
        remove_all(s.skip(p.len() as int), p)
    } else {
        seq![s[0]] + remove_all(s.drop_first(), p)
    }
}

/// Where `p` does not occur, nothing is taken out.
pub proof fn lemma_remove_all_absent(s: Seq<char>, p: Seq<char>)
    requires
        p.len() > 0,
        find(s, p) is None,
    ensures
        remove_all(s, p) == s,
    decreases s.len(),
{
    if s.len() > 0 {
        let t = s.drop_first();
        if s.len() >= p.len() {
            assert(s.take(p.len() as int) != p);
        }
        assert(find(t, p) is None);
        lemma_remove_all_absent(t, p);
        assert(s =~= seq![s[0]] + t);
    }
}

/// `s` with every occurrence of `p` taken out (see [`remove_all`]).
pub fn remove_all_chars(s: &[char], p: &[char]) -> (r: Vec<char>)
    ensures
        r@ == remove_all(s@, p@),
{
    let n = s.len();
    let mut r: Vec<char> = Vec::new();
    let mut i: usize = 0;
    assert(s@.skip(0) =~= s@);
    while i < n
        invariant
            n == s@.len(),
            i <= n,
            remove_all(s@, p@) == r@ + remove_all(s@.skip(i as int), p@),
        decreases n - i,
    {
        let ghost t = s@.skip(i as int);
        if p.len() > 0 && occurs_at(s, i, p) {
            assert(t.take(p@.len() as int) =~= s@.subrange(i as int, i + p@.len()));
            assert(t.skip(p@.len() as int) =~= s@.skip(i + p@.len()));
            i = i + p.len();
        } else {
            assert(p@.len() > 0 && p@.len() <= t.len() ==> t.take(p@.len() as int) =~= s@.subrange(
                i as int,
                i + p@.len(),
            ));
            assert(t.drop_first() =~= s@.skip(i + 1));
            let ghost before = r@;
            r.push(s[i]);
            assert(before + (seq![t[0]] + remove_all(t.drop_first(), p@)) =~= r@ + remove_all(
                t.drop_first(),
                p@,
            ));
            i = i + 1;
        }
    }
    assert(s@.skip(n as int) =~= seq![]);
    assert(r@ + remove_all(seq![], p@) =~= r@);
    r
}

/// The sequences of `list` joined with `sep` between them, as `join` on a
/// slice of strings gives them.
pub open spec fn join(list: Seq<Seq<char>>, sep: Seq<char>) -> Seq<char>
    decreases list.len(),
{
    if list.len() == 0 {
        seq![]
    } else if list.len() == 1 {
        list[0]
    } else {
        join(list.drop_last(), sep) + sep + list.last()
    }
}

/// The texts held by a sequence of strings.
pub open spec fn string_views(v: Seq<String>) -> Seq<Seq<char>> {
    v.map_values(|s: String| s@)
}

/// The length of the run of non-white-space characters that opens `s`.
pub open spec fn word_len(s: Seq<char>) -> nat
    decreases s.len(),
{
    if s.len() == 0 || is_space(s[0]) {
        0
    } else {
        1 + word_len(s.drop_first())
    }
}

/// A word is no longer than the text it opens.
pub proof fn lemma_word_len(s: Seq<char>)
    ensures
        word_len(s) <= s.len(),
    decreases s.len(),
{
    if s.len() > 0 && !is_space(s[0]) {
        lemma_word_len(s.drop_first());
    }
}

/// The words of `s`, its maximal runs of non-white-space characters, as
/// `str::split_whitespace` yields them.
pub open spec fn words(s: Seq<char>) -> Seq<Seq<char>>
    decreases s.len(),
{
    if s.len() == 0 {
        seq![]
    } else if is_space(s[0]) {
        words(s.drop_first())
    } else {
        let k = word_len(s);
        proof {
            lemma_word_len(s);
        }
        seq![s.take(k as int)] + words(s.skip(k as int))
    }
}

/// The words of `s` (see [`words`]).
pub fn words_of(s: &[char]) -> (w: Vec<Vec<char>>)
    ensures
        views(w@) == words(s@),
{
    let n = s.len();
    let mut w: Vec<Vec<char>> = Vec::new();
    let mut i: usize = 0;
    assert(s@.skip(0) =~= s@);
    while i < n
        invariant
            n == s@.len(),
            i <= n,
            words(s@) == views(w@) + words(s@.skip(i as int)),
        decreases n - i,
    {
        let ghost t = s@.skip(i as int);
        if is_space_char(s[i]) {
            assert(t.drop_first() =~= s@.skip(i + 1));
            i = i + 1;
        } else {
            let mut j = i;
            let mut word: Vec<char> = Vec::new();
            while j < n && !is_space_char(s[j])
                invariant
                    n == s@.len(),
                    i <= j <= n,
                    t == s@.skip(i as int),
                    word@ == s@.subrange(i as int, j as int),
                    word_len(t) == (j - i) + word_len(s@.skip(j as int)),
                decreases n - j,
            {
                assert(s@.skip(j as int).drop_first() =~= s@.skip(j + 1));
                word.push(s[j]);
                j = j + 1;
                assert(word@ =~= s@.subrange(i as int, j as int));
            }
            assert(word_len(s@.skip(j as int)) == 0);
            proof {
                lemma_word_len(t);
            }
            assert(word@ =~= t.take(word_len(t) as int));
            assert(t.skip(word_len(t) as int) =~= s@.skip(j as int));
            let ghost before = views(w@);
            w.push(word);
            assert(views(w@) =~= before.push(t.take(word_len(t) as int)));
            i = j;
        }
    }
    assert(s@.skip(n as int) =~= seq![]);
    assert(views(w@) + words(seq![]) =~= views(w@));
    w
}

/// The character of a decimal digit.
pub open spec fn digit_char(d: nat) -> char {
    if d == 0 {
        '0'
    } else if d == 1 {
        '1'
    } else if d == 2 {
        '2'
    } else if d == 3 {
        '3'
    } else if d == 4 {
        '4'
    } else if d == 5 {
        '5'
    } else if d == 6 {
        '6'
    } else if d == 7 {
        '7'
    } else if d == 8 {
        '8'
    } else {
        '9'
    }
}

/// A number written in decimal without leading zeros, as `{}` formats it.
pub open spec fn decimal(n: nat) -> Seq<char>
    decreases n,
{
    if n < 10 {
        seq![digit_char(n)]
    } else {
        decimal(n / 10).push(digit_char(n % 10))
    }
}

/// The character of a decimal digit (see [`digit_char`]).
fn digit_char_of(d: u32) -> (c: char)
    requires
        d < 10,
    ensures
        c == digit_char(d as nat),
{
    if d == 0 {
        '0'
    } else if d == 1 {
        '1'
    } else if d == 2 {
        '2'
    } else if d == 3 {
        '3'
    } else if d == 4 {
        '4'
    } else if d == 5 {
        '5'
    } else if d == 6 {
        '6'
    } else if d == 7 {
        '7'
    } else if d == 8 {
        '8'
    } else {
        '9'
    }
}

/// A number written in decimal (see [`decimal`]).
pub fn decimal_chars(n: u32) -> (v: Vec<char>)
    ensures
        v@ == decimal(n as nat),
    decreases n,
{
    if n < 10 {
        let mut v: Vec<char> = Vec::new();
        v.push(digit_char_of(n));
        assert(v@ =~= seq![digit_char(n as nat)]);
        v
    } else {
        let mut v = decimal_chars(n / 10);
        v.push(digit_char_of(n % 10));
        v
    }
}

/// Lexicographic order on character sequences, by code point: the order of
/// `str`'s `Ord`, since UTF-8 keeps the order of code points.
pub open spec fn lex_lt(a: Seq<char>, b: Seq<char>) -> bool
    decreases a.len(),
{
    if a.len() == 0 {
        b.len() > 0
    } else if b.len() == 0 {
        false
    } else if a[0] != b[0] {
        a[0] < b[0]
    } else {
        lex_lt(a.drop_first(), b.drop_first())
    }
}

/// Whether the sequences are in strictly increasing lexicographic order
/// (so none occurs twice).
pub open spec fn strictly_sorted(s: Seq<Seq<char>>) -> bool {
    forall|i: int, j: int| 0 <= i < j < s.len() ==> lex_lt(#[trigger] s[i], #[trigger] s[j])
}

/// No sequence comes before itself.
pub proof fn lemma_lex_irreflexive(a: Seq<char>)
    ensures
        !lex_lt(a, a),
    decreases a.len(),
{
    if a.len() > 0 {
        lemma_lex_irreflexive(a.drop_first());
    }
}

/// Whether `a` comes before `b` in the order of `str`: at the first position
/// where they differ `a` has the smaller character (characters compare by
/// code point), or `a` is a proper prefix of `b`.
pub open spec fn str_order_lt(a: Seq<char>, b: Seq<char>) -> bool {
    ||| exists|i: int|
        0 <= i < a.len() && i < b.len() && #[trigger] a.take(i) == b.take(i) && a[i] < b[i]
    ||| a.len() < b.len() && b.take(a.len() as int) == a
}

/// The order in which sorted texts are reported is the order of `str`:
/// the first differing character decides by its code point, and a proper
/// prefix comes first.
pub proof fn law_lex_order_is_str_order(a: Seq<char>, b: Seq<char>)
    ensures
        lex_lt(a, b) <==> str_order_lt(a, b),
    decreases a.len(),
{
    if a.len() == 0 {
        assert(b.take(0) =~= a);
    } else if b.len() == 0 {
    } else if a[0] != b[0] {
        assert(a.take(0) =~= b.take(0));
        if str_order_lt(a, b) {
            if exists|i: int|
                0 <= i < a.len() && i < b.len() && #[trigger] a.take(i) == b.take(i) && a[i] < b[i] {
                let i = choose|i: int|
                    0 <= i < a.len() && i < b.len() && #[trigger] a.take(i) == b.take(i) && a[i] < b[i];
                if i > 0 {
                    assert(a.take(i)[0] == b.take(i)[0]);
                }
            } else {
                assert(b.take(a.len() as int)[0] == a[0]);
            }
        }
    } else {
        let a1 = a.drop_first();
        let b1 = b.drop_first();
        law_lex_order_is_str_order(a1, b1);
        if str_order_lt(a, b) {
            if exists|i: int|
                0 <= i < a.len() && i < b.len() && #[trigger] a.take(i) == b.take(i) && a[i] < b[i] {
                let i = choose|i: int|
                    0 <= i < a.len() && i < b.len() && #[trigger] a.take(i) == b.take(i) && a[i] < b[i];
                assert(i > 0);
                assert(a1.take(i - 1) =~= a.take(i).drop_first());
                assert(b1.take(i - 1) =~= b.take(i).drop_first());
                assert(a1[i - 1] == a[i] && b1[i - 1] == b[i]);
                assert(str_order_lt(a1, b1));
            } else {
                assert(b1.take(a1.len() as int) =~= b.take(a.len() as int).drop_first());
                assert(str_order_lt(a1, b1));
            }
        }
        if str_order_lt(a1, b1) {
            if exists|i: int|
                0 <= i < a1.len() && i < b1.len() && #[trigger] a1.take(i) == b1.take(i) && a1[i] < b1[i] {
                let i = choose|i: int|
                    0 <= i < a1.len() && i < b1.len() && #[trigger] a1.take(i) == b1.take(i) && a1[i] < b1[i];
                assert(a.take(i + 1) =~= seq![a[0]] + a1.take(i));
                assert(b.take(i + 1) =~= seq![b[0]] + b1.take(i));
                assert(a.take(i + 1) == b.take(i + 1));
                assert(a[i + 1] == a1[i] && b[i + 1] == b1[i]);
            } else {
                assert(b.take(a.len() as int) =~= seq![b[0]] + b1.take(a1.len() as int));
                assert(a =~= seq![a[0]] + a1);
            }
            assert(str_order_lt(a, b));
        }
    }
}

/// A strictly sorted sequence holds no text twice.
pub proof fn law_strictly_sorted_has_no_duplicates(s: Seq<Seq<char>>)
    requires
        strictly_sorted(s),
    ensures
        s.no_duplicates(),
{
    assert forall|i: int, j: int| 0 <= i < s.len() && 0 <= j < s.len() && i != j implies s[i]
        != s[j] by {
        if i < j {
            lemma_lex_irreflexive(s[i]);
        } else {
            lemma_lex_irreflexive(s[j]);
        }
    }
}

/// Of two different sequences, one comes first.
pub proof fn lemma_lex_total(a: Seq<char>, b: Seq<char>)
    ensures
        a != b ==> lex_lt(a, b) || lex_lt(b, a),
    decreases a.len(),
{
    if a.len() == 0 && b.len() == 0 {
        assert(a =~= b);
    } else if a.len() > 0 && b.len() > 0 && a[0] == b[0] {
        lemma_lex_total(a.drop_first(), b.drop_first());
        if a.drop_first() == b.drop_first() {
            assert(a =~= seq![a[0]] + a.drop_first());
            assert(b =~= seq![b[0]] + b.drop_first());
        }
    }
}

/// The order is transitive.
pub proof fn lemma_lex_transitive(a: Seq<char>, b: Seq<char>, c: Seq<char>)
    requires
        lex_lt(a, b),
        lex_lt(b, c),
    ensures
        lex_lt(a, c),
    decreases a.len(),
{
    if a.len() > 0 && b.len() > 0 && c.len() > 0 && a[0] == b[0] && b[0] == c[0] {
        lemma_lex_transitive(a.drop_first(), b.drop_first(), c.drop_first());
    }
}

/// Whether `a` comes before `b` in lexicographic order.
pub fn lex_less(a: &[char], b: &[char]) -> (r: bool)
    ensures
        r == lex_lt(a@, b@),
{
    let mut i: usize = 0;
    assert(a@.skip(0) =~= a@);
    assert(b@.skip(0) =~= b@);
    while i < a.len() && i < b.len() && a[i] == b[i]
        invariant
            i <= a@.len(),
            i <= b@.len(),
            lex_lt(a@, b@) == lex_lt(a@.skip(i as int), b@.skip(i as int)),
        decreases a@.len() - i,
    {
        assert(a@.skip(i as int).drop_first() =~= a@.skip(i + 1));
        assert(b@.skip(i as int).drop_first() =~= b@.skip(i + 1));
        i = i + 1;
    }
    if i == a.len() {
        i < b.len()
    } else if i == b.len() {
        false
    } else {
        a[i] < b[i]
    }
}

/// Puts `x` into its place among the strictly sorted `v`, unless it is
/// there already.
pub fn insert_sorted(v: &mut Vec<Vec<char>>, x: Vec<char>)
    requires
        strictly_sorted(views(old(v)@)),
    ensures
        strictly_sorted(views(final(v)@)),
        views(final(v)@).to_set() == views(old(v)@).to_set().insert(x@),
{
    let ghost s0 = views(v@);
    let mut i: usize = 0;
    while i < v.len() && lex_less(v[i].as_slice(), x.as_slice())
        invariant
            i <= v@.len(),
            views(v@) == s0,
            strictly_sorted(s0),
            forall|k: int| 0 <= k < i ==> lex_lt(#[trigger] s0[k], x@),
        decreases v@.len() - i,
    {
        i = i + 1;
    }
    if i < v.len() && !lex_less(x.as_slice(), v[i].as_slice()) {
        proof {
            lemma_lex_total(s0[i as int], x@);
        }
        assert(s0[i as int] == x@);
        assert(s0.to_set() =~= s0.to_set().insert(x@));
        return;
    }
    proof {
        if i < v@.len() {
            assert forall|k: int| i <= k < s0.len() implies lex_lt(x@, #[trigger] s0[k]) by {
                if k > i {
                    lemma_lex_transitive(x@, s0[i as int], s0[k]);
                }
            }
        }
    }
    v.insert(i, x);
    let ghost s1 = views(v@);
    assert(s1 =~= s0.insert(i as int, x@));
    assert forall|a: int, b: int| 0 <= a < b < s1.len() implies lex_lt(
        #[trigger] s1[a],
        #[trigger] s1[b],
    ) by {
        if b < i {
        } else if b == i {
        } else if a < i {
            assert(s1[b] == s0[b - 1]);
            assert(lex_lt(s0[a], x@));
            lemma_lex_transitive(s0[a], x@, s0[b - 1]);
        } else if a == i {
            assert(s1[b] == s0[b - 1]);
        } else {
            assert(s1[a] == s0[a - 1]);
            assert(s1[b] == s0[b - 1]);
        }
    }
    assert forall|c: Seq<char>| s1.to_set().contains(c) <==> s0.to_set().insert(x@).contains(c) by {
        if s1.to_set().contains(c) {
            let k = choose|k: int| 0 <= k < s1.len() && s1[k] == c;
            if k < i {
                assert(s0[k] == c);
            } else if k > i {
                assert(s0[k - 1] == c);
            }
        }
        if s0.to_set().contains(c) {
            let k = choose|k: int| 0 <= k < s0.len() && s0[k] == c;
            if k < i {
                assert(s1[k] == c);
            } else {
                assert(s1[k + 1] == c);
            }
        }
        if c == x@ {
            assert(s1[i as int] == c);
        }
    }
    assert(s1.to_set() =~= s0.to_set().insert(x@));
}

} // verus!
