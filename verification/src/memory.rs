//! Loot messages found in a copy of the client's heap, and what is new
//! between two such copies.
use std::collections::BTreeMap;
use vstd::prelude::*;
use vstd::std_specs::btree::spec_btree_map_iter;
use vstd::std_specs::iter::IteratorSpec;
use vstd::string::StringSliceAdditionalSpecFns;
use vstd::utf8::{encode_utf8, is_ascii_chars, is_ascii_chars_encode_utf8};

use crate::message::Message;
use crate::text::{
    byte_char, chars_of, insert_sorted, law_lex_order_is_str_order, lemma_trim_piece, str_order_lt,
    string_from_chars, strictly_sorted, string_views, trim, trim_range, views,
};

verus! {

/// Whether the bytes `kw` stand at position `i` of `raw` with at least one
/// byte after them (the scan only reports an occurrence that the buffer
/// continues past).
pub open spec fn keyword_at(raw: Seq<u8>, kw: Seq<u8>, i: int) -> bool {
    &&& 0 <= i
    &&& raw.len() - i > kw.len()
    &&& raw.subrange(i, i + kw.len()) == kw
}

/// The positions below `n` at which `kw` stands in `raw`, in increasing order.
pub open spec fn keyword_positions(raw: Seq<u8>, kw: Seq<u8>, n: int) -> Seq<usize>
    decreases n,
{
    if n <= 0 {
        seq![]
    } else if keyword_at(raw, kw, n - 1) {
        keyword_positions(raw, kw, n - 1).push((n - 1) as usize)
    } else {
        keyword_positions(raw, kw, n - 1)
    }
}

/// Whether the bytes of `kw` stand in `raw` at position `i`.
fn bytes_at(raw: &[u8], i: usize, kw: &[u8]) -> (b: bool)
    requires
        i <= raw@.len(),
    ensures
        b == (kw@.len() <= raw@.len() - i && raw@.subrange(i as int, i + kw@.len()) == kw@),
{
    let n = raw.len();
    if kw.len() > n - i {
        return false;
    }
    let ghost w = raw@.subrange(i as int, i + kw@.len());
    let mut k: usize = 0;
    while k < kw.len()
        invariant
            n == raw@.len(),
            i <= n,
            kw@.len() <= n - i,
            w == raw@.subrange(i as int, i + kw@.len()),
            k <= kw@.len(),
            forall|m: int| 0 <= m < k ==> raw@[i + m] == kw@[m],
        decreases kw@.len() - k,
    {
        if raw[i + k] != kw[k] {
            assert(w[k as int] != kw@[k as int]);
            return false;
        }
        k = k + 1;
    }
    assert(w =~= kw@);
    true
}

/// The positions in `raw_memory` at which the bytes of `keyword` start, in
/// increasing order; an occurrence that ends exactly at the end of the
/// buffer is not reported.
pub fn entry_idexes(raw_memory: &[u8], keyword: &str) -> (indexes: Vec<usize>)
    requires
        raw_memory@.len() > 0 ==> keyword.spec_bytes().len() > 0,
    ensures
        indexes@ == keyword_positions(raw_memory@, keyword.spec_bytes(), raw_memory@.len() as int),
{
    let mut indexes: Vec<usize> = Vec::new();
    let keyword_bytes = keyword.as_bytes();
    let n = raw_memory.len();
    let mut idx: usize = 0;
    while idx < n
        invariant
            n == raw_memory@.len(),
            idx <= n,
            keyword_bytes@ == keyword.spec_bytes(),
            n > 0 ==> keyword_bytes@.len() > 0,
            indexes@ == keyword_positions(raw_memory@, keyword_bytes@, idx as int),
        decreases n - idx,
    {
        if raw_memory[idx] == keyword_bytes[0] {
            if n - idx > keyword_bytes.len() {
                if bytes_at(raw_memory, idx, keyword_bytes) {
                    indexes.push(idx);
                }
            }
        } else {
            assert(!keyword_at(raw_memory@, keyword_bytes@, idx as int)) by {
                if keyword_at(raw_memory@, keyword_bytes@, idx as int) {
                    assert(raw_memory@.subrange(idx as int, idx + keyword_bytes@.len())[0]
                        == raw_memory@[idx as int]);
                }
            }
        }
        idx = idx + 1;
    }
    indexes
}

/// The bytes that the text of an entry is read from: the bytes of `chunk`
/// up to its first byte of 127 or more, with the zero bytes left out.
pub open spec fn printable_run(chunk: Seq<u8>) -> Seq<u8>
    decreases chunk.len(),
{
    if chunk.len() == 0 {
        seq![]
    } else if chunk[0] == 0 {
        printable_run(chunk.drop_first())
    } else if chunk[0] >= 127 {
        seq![]
    } else {
        seq![chunk[0]] + printable_run(chunk.drop_first())
    }
}

/// Bytes below 128 read as ASCII characters.
pub open spec fn ascii_text(b: Seq<u8>) -> Seq<char> {
    b.map_values(|x: u8| x as char)
}

/// The last position of `c` in `s`, if any.
pub open spec fn last_index_of(s: Seq<char>, c: char) -> Option<int>
    decreases s.len(),
{
    if s.len() == 0 {
        None
    } else if s.last() == c {
        Some(s.len() - 1)
    } else {
        last_index_of(s.drop_last(), c)
    }
}

/// The text of the entry that starts a chunk of memory: the printable run,
/// cut at its last space (which drops the artifact that follows a message
/// in memory) and then trimmed; a run without a space is taken whole.
pub open spec fn entry_text(chunk: Seq<u8>) -> Seq<char> {
    let t = ascii_text(printable_run(chunk));
    match last_index_of(t, ' ') {
        Some(k) => trim(t.take(k)),
        None => t,
    }
}

proof fn lemma_printable_run_step(chunk: Seq<u8>, i: int)
    requires
        0 <= i < chunk.len(),
    ensures
        chunk.skip(i).drop_first() == chunk.skip(i + 1),
        printable_run(chunk.skip(i)) == if chunk[i] == 0 {
            printable_run(chunk.skip(i + 1))
        } else if chunk[i] >= 127 {
            seq![]
        } else {
            seq![chunk[i]] + printable_run(chunk.skip(i + 1))
        },
{
    assert(chunk.skip(i).drop_first() =~= chunk.skip(i + 1));
}

proof fn lemma_last_index_bounds(s: Seq<char>, c: char)
    ensures
        last_index_of(s, c) matches Some(k) ==> 0 <= k < s.len() && s[k] == c,
    decreases s.len(),
{
    if s.len() > 0 && s.last() != c {
        lemma_last_index_bounds(s.drop_last(), c);
    }
}

/// The text of the entry at the start of `chunk` (see [`entry_text`]).
pub fn entry(chunk: &[u8]) -> (text: String)
    ensures
        text@ == entry_text(chunk@),
{
    let mut t: Vec<char> = Vec::new();
    let n = chunk.len();
    let mut i: usize = 0;
    assert(chunk@.skip(0) =~= chunk@);
    while i < n
        invariant
            n == chunk@.len(),
            i <= n,
            ascii_text(printable_run(chunk@)) == t@ + ascii_text(printable_run(chunk@.skip(i as int))),
        ensures
            ascii_text(printable_run(chunk@)) == t@,
        decreases n - i,
    {
        let b = chunk[i];
        proof {
            lemma_printable_run_step(chunk@, i as int);
        }
        if b >= 127 {
            assert(t@ + ascii_text(seq![]) =~= t@);
            break;
        }
        if b != 0 {
            let ghost rest = printable_run(chunk@.skip(i + 1));
            let ghost before = t@;
            assert(ascii_text(seq![b] + rest) =~= seq![b as char] + ascii_text(rest));
            t.push(byte_char(b));
            assert(t@ + ascii_text(rest) =~= before + (seq![b as char] + ascii_text(rest)));
        }
        i = i + 1;
        if i == n {
            assert(chunk@.skip(n as int) =~= seq![]);
            assert(t@ + ascii_text(seq![]) =~= t@);
        }
    }
    let ghost tv = t@;
    assert(tv.take(tv.len() as int) =~= tv);
    let mut k = t.len();
    while k > 0 && t[k - 1] != ' '
        invariant
            k <= t@.len(),
            t@ == tv,
            last_index_of(tv, ' ') == last_index_of(tv.take(k as int), ' '),
        decreases k,
    {
        assert(tv.take(k as int).drop_last() =~= tv.take(k - 1));
        k = k - 1;
    }
    if k == 0 {
        assert(tv.take(0) =~= seq![]);
        string_from_chars(t.as_slice())
    } else {
        assert(tv.take(k as int).last() == ' ');
        let v = trim_range(t.as_slice(), 0, k - 1);
        assert(tv.subrange(0, k - 1) =~= tv.take(k - 1));
        string_from_chars(v.as_slice())
    }
}

proof fn lemma_printable_run_range(chunk: Seq<u8>)
    ensures
        forall|i: int|
            0 <= i < printable_run(chunk).len() ==> 0 < #[trigger] printable_run(chunk)[i] < 127,
    decreases chunk.len(),
{
    if chunk.len() > 0 {
        let rest = chunk.drop_first();
        lemma_printable_run_range(rest);
        if chunk[0] != 0 && chunk[0] < 127 {
            assert forall|i: int| 0 <= i < printable_run(chunk).len() implies 0
                < #[trigger] printable_run(chunk)[i] < 127 by {
                if i > 0 {
                    assert(printable_run(chunk)[i] == printable_run(rest)[i - 1]);
                }
            }
        }
    }
}

/// The text of an entry is ASCII, so its UTF-8 encoding has one byte per
/// character.
pub proof fn lemma_entry_text_ascii(chunk: Seq<u8>)
    ensures
        is_ascii_chars(entry_text(chunk)),
        encode_utf8(entry_text(chunk)).len() == entry_text(chunk).len(),
{
    let t = ascii_text(printable_run(chunk));
    lemma_printable_run_range(chunk);
    assert(is_ascii_chars(t)) by {
        assert forall|i| 0 <= i < t.len() implies '\0' <= #[trigger] t[i] <= '\u{7f}' by {
            let b = printable_run(chunk)[i];
            assert(0 < b < 127);
            assert(t[i] == (b as char));
        }
    }
    match last_index_of(t, ' ') {
        Some(k) => {
            lemma_last_index_bounds(t, ' ');
            let u = t.take(k);
            let (a, b) = lemma_trim_piece(u);
            assert forall|i| 0 <= i < trim(u).len() implies '\0' <= #[trigger] trim(u)[i] <= '\u{7f}' by {
                assert(trim(u)[i] == t[a + i]);
            }
        },
        None => {},
    }
    is_ascii_chars_encode_utf8(entry_text(chunk));
}

/// The sum of a sequence of bytes.
pub open spec fn byte_sum(s: Seq<u8>) -> nat
    decreases s.len(),
{
    if s.len() == 0 {
        0
    } else {
        byte_sum(s.drop_last()) + (s.last() as nat)
    }
}

proof fn lemma_byte_sum_prefix(s: Seq<u8>, k: int)
    requires
        0 <= k <= s.len(),
    ensures
        byte_sum(s.take(k)) <= byte_sum(s),
    decreases s.len(),
{
    if k < s.len() {
        assert(s.drop_last().take(k) =~= s.take(k));
        lemma_byte_sum_prefix(s.drop_last(), k);
    } else {
        assert(s.take(k) =~= s);
    }
}

/// The checksum of the message whose entry starts at `idx` and is `len`
/// bytes long: the sum of the bytes from 15 bytes before the entry to its end.
pub open spec fn window_sum(raw: Seq<u8>, idx: int, len: int) -> nat {
    byte_sum(raw.subrange(idx - 15, idx + len))
}

/// The checksum of the entry `entry` found at `idx` in `raw_memory`: the sum
/// of the bytes from 15 before `idx` to the end of the entry.
pub fn magic_number(raw_memory: &[u8], idx: usize, entry: &str) -> (sum: u32)
    requires
        15 <= idx,
        idx + entry.spec_bytes().len() <= raw_memory@.len(),
        window_sum(raw_memory@, idx as int, entry.spec_bytes().len() as int) <= u32::MAX,
    ensures
        sum == window_sum(raw_memory@, idx as int, entry.spec_bytes().len() as int),
{
    let n = raw_memory.len();
    let len = entry.len();
    assert(len == entry.spec_bytes().len());
    let end = len + idx;
    let start = idx - 15;
    let ghost w = raw_memory@.subrange(start as int, end as int);
    let mut sum: u32 = 0;
    let mut i = start;
    while i < end
        invariant
            start <= i <= end <= raw_memory@.len(),
            w == raw_memory@.subrange(start as int, end as int),
            byte_sum(w) <= u32::MAX,
            sum == byte_sum(w.take(i - start)),
        decreases end - i,
    {
        proof {
            assert(w.take(i - start + 1).drop_last() =~= w.take(i - start));
            lemma_byte_sum_prefix(w, i - start + 1);
        }
        sum = sum + raw_memory[i] as u32;
        i = i + 1;
    }
    assert(w.take(end - start) =~= w);
    sum
}

proof fn lemma_printable_run_len(chunk: Seq<u8>)
    ensures
        printable_run(chunk).len() <= chunk.len(),
    decreases chunk.len(),
{
    if chunk.len() > 0 {
        lemma_printable_run_len(chunk.drop_first());
    }
}

/// An entry is never longer than the chunk it is read from.
pub proof fn lemma_entry_text_len(chunk: Seq<u8>)
    ensures
        entry_text(chunk).len() <= chunk.len(),
{
    lemma_printable_run_len(chunk);
    let t = ascii_text(printable_run(chunk));
    match last_index_of(t, ' ') {
        Some(k) => {
            lemma_last_index_bounds(t, ' ');
            lemma_trim_piece(t.take(k));
        },
        None => {},
    }
}

/// Every reported position holds the keyword and lies below the bound, and
/// the positions increase.
pub proof fn lemma_keyword_positions(raw: Seq<u8>, kw: Seq<u8>, n: int)
    requires
        raw.len() <= usize::MAX,
    ensures
        forall|j: int|
            0 <= j < keyword_positions(raw, kw, n).len() ==> {
                let p = #[trigger] keyword_positions(raw, kw, n)[j];
                &&& keyword_at(raw, kw, p as int)
                &&& p < n
            },
        forall|i: int, j: int|
            0 <= i < j < keyword_positions(raw, kw, n).len() ==> keyword_positions(raw, kw, n)[i]
                < keyword_positions(raw, kw, n)[j],
    decreases n,
{
    if n > 0 {
        lemma_keyword_positions(raw, kw, n - 1);
        let prev = keyword_positions(raw, kw, n - 1);
        if keyword_at(raw, kw, n - 1) {
            let cur = keyword_positions(raw, kw, n);
            assert(cur == prev.push((n - 1) as usize));
            assert forall|j: int| 0 <= j < cur.len() implies {
                let p = #[trigger] cur[j];
                &&& keyword_at(raw, kw, p as int)
                &&& p < n
            } by {
                if j < prev.len() {
                    assert(cur[j] == prev[j]);
                }
            }
            assert forall|i: int, j: int| 0 <= i < j < cur.len() implies cur[i] < cur[j] by {
                assert(cur[i] == prev[i]);
                if j < prev.len() {
                    assert(cur[j] == prev[j]);
                }
            }
        }
    }
}

/// The bytes of the word that opens every loot message, `Loot of`.
pub open spec fn loot_keyword() -> Seq<u8> {
    encode_utf8("Loot of"@)
}

/// The positions in `raw` at which loot messages start.
pub open spec fn loot_positions(raw: Seq<u8>) -> Seq<usize> {
    keyword_positions(raw, loot_keyword(), raw.len() as int)
}

/// The text of the entry at position `idx` of `raw`.
pub open spec fn entry_at(raw: Seq<u8>, idx: int) -> Seq<char> {
    entry_text(raw.skip(idx))
}

/// The checksum of the entry at position `idx` of `raw`.
pub open spec fn magic_at(raw: Seq<u8>, idx: int) -> nat {
    window_sum(raw, idx, entry_at(raw, idx).len() as int)
}

/// The messages found at the positions `idxs`, by checksum: where two
/// messages share a checksum, the one found later is kept.
pub open spec fn message_map(raw: Seq<u8>, idxs: Seq<usize>) -> Map<u32, Seq<char>>
    decreases idxs.len(),
{
    if idxs.len() == 0 {
        Map::empty()
    } else {
        message_map(raw, idxs.drop_last()).insert(
            magic_at(raw, idxs.last() as int) as u32,
            entry_at(raw, idxs.last() as int),
        )
    }
}

/// Every message found at a position is held under the sum of the bytes
/// from 15 before that position to the end of its text, and every key held
/// is such a sum for some position, with that position's text.
pub proof fn law_message_keys_are_window_sums(raw: Seq<u8>, idxs: Seq<usize>)
    ensures
        forall|j: int|
            0 <= j < idxs.len() ==> message_map(raw, idxs).contains_key(
                byte_sum(
                    raw.subrange(
                        idxs[j] - 15,
                        idxs[j] + entry_text(raw.skip(#[trigger] idxs[j] as int)).len(),
                    ),
                ) as u32,
            ),
        forall|k: u32| #[trigger]
            message_map(raw, idxs).contains_key(k) ==> exists|j: int|
                0 <= j < idxs.len() && k == byte_sum(
                    raw.subrange(
                        idxs[j] - 15,
                        idxs[j] + entry_text(raw.skip(#[trigger] idxs[j] as int)).len(),
                    ),
                ) as u32 && message_map(raw, idxs)[k] == entry_text(raw.skip(idxs[j] as int)),
    decreases idxs.len(),
{
    if idxs.len() > 0 {
        let prev = idxs.drop_last();
        law_message_keys_are_window_sums(raw, prev);
        let m = message_map(raw, idxs);
        let last = idxs.last();
        assert forall|j: int| 0 <= j < idxs.len() implies m.contains_key(
            byte_sum(
                raw.subrange(idxs[j] - 15, idxs[j] + entry_text(raw.skip(#[trigger] idxs[j] as int)).len()),
            ) as u32,
        ) by {
            if j < prev.len() {
                assert(prev[j] == idxs[j]);
            }
        }
        assert forall|k: u32| #[trigger] m.contains_key(k) implies exists|j: int|
            0 <= j < idxs.len() && k == byte_sum(
                raw.subrange(idxs[j] - 15, idxs[j] + entry_text(raw.skip(#[trigger] idxs[j] as int)).len()),
            ) as u32 && m[k] == entry_text(raw.skip(idxs[j] as int)) by {
            let lk = magic_at(raw, last as int) as u32;
            if k == lk {
                assert(idxs[idxs.len() - 1] == last);
            } else {
                let j = choose|j: int|
                    0 <= j < prev.len() && k == byte_sum(
                        raw.subrange(
                            prev[j] - 15,
                            prev[j] + entry_text(raw.skip(#[trigger] prev[j] as int)).len(),
                        ),
                    ) as u32 && message_map(raw, prev)[k] == entry_text(raw.skip(prev[j] as int));
                assert(idxs[j] == prev[j]);
            }
        }
    }
}

/// Whether a copy of memory can be read into a snapshot: every loot message
/// in it starts at least 15 bytes in, and its checksum fits in a `u32`.
pub open spec fn snapshot_accepts(raw: Seq<u8>) -> bool {
    forall|j: int|
        0 <= j < loot_positions(raw).len() ==> {
            let p = #[trigger] loot_positions(raw)[j];
            15 <= p && magic_at(raw, p as int) <= u32::MAX
        }
}

/// The texts of messages held by checksum.
pub open spec fn contents(m: Map<u32, Message>) -> Map<u32, Seq<char>> {
    m.map_values(|x: Message| x.content@)
}

/// Whether every message is held under its own checksum.
pub open spec fn keyed_by_checksum(m: Map<u32, Message>) -> bool {
    forall|k: u32| #[trigger] m.contains_key(k) ==> m[k].magic_number == k
}

proof fn lemma_loot_keyword()
    ensures
        loot_keyword().len() == 7,
{
    reveal_strlit("Loot of");
    assert(is_ascii_chars("Loot of"@));
    is_ascii_chars_encode_utf8("Loot of"@);
}

/// The positions of `Loot of` in `raw_memory`.
fn loot_indexes(raw_memory: &[u8]) -> (indexes: Vec<usize>)
    ensures
        indexes@ == loot_positions(raw_memory@),
{
    proof {
        lemma_loot_keyword();
    }
    entry_idexes(raw_memory, "Loot of")
}

/// The loot messages of a copy of memory, each under its checksum.
pub fn messages(raw_memory: &[u8]) -> (msgs: BTreeMap<u32, Message>)
    requires
        snapshot_accepts(raw_memory@),
    ensures
        contents(msgs@) == message_map(raw_memory@, loot_positions(raw_memory@)),
        keyed_by_checksum(msgs@),
{
    let positions = loot_indexes(raw_memory);
    let n = raw_memory.len();
    let mut msgs: BTreeMap<u32, Message> = BTreeMap::new();
    proof {
        lemma_keyword_positions(raw_memory@, loot_keyword(), n as int);
    }
    let mut j: usize = 0;
    while j < positions.len()
        invariant
            n == raw_memory@.len(),
            j <= positions@.len(),
            positions@ == loot_positions(raw_memory@),
            snapshot_accepts(raw_memory@),
            forall|i: int|
                0 <= i < positions@.len() ==> #[trigger] positions@[i] < n,
            contents(msgs@) == message_map(raw_memory@, positions@.take(j as int)),
            keyed_by_checksum(msgs@),
        decreases positions@.len() - j,
    {
        let idx = positions[j];
        assert(15 <= idx && magic_at(raw_memory@, idx as int) <= u32::MAX);
        let chunk = &raw_memory[idx..n];
        let e = entry(chunk);
        proof {
            assert(chunk@ =~= raw_memory@.skip(idx as int));
            lemma_entry_text_ascii(chunk@);
            lemma_entry_text_len(chunk@);
        }
        let m = magic_number(raw_memory, idx, e.as_str());
        let ghost before = msgs@;
        msgs.insert(m, Message::from(e.as_str(), m));
        proof {
            assert(positions@.take(j + 1).drop_last() =~= positions@.take(j as int));
            assert(contents(msgs@) =~= contents(before).insert(m, e@));
        }
        j = j + 1;
    }
    assert(positions@.take(positions@.len() as int) =~= positions@);
    msgs
}

/// The messages of one read of memory, each under its checksum.
#[derive(Debug, Clone)]
pub struct Snapshot {
    pub messages: BTreeMap<u32, Message>,
}

/// The texts of the messages that are new in a later read, sorted, each once.
#[derive(Debug, Clone)]
pub struct Difference {
    pub messages: Vec<String>,
}

/// The texts of the messages of `new` whose checksums `old` does not hold.
pub open spec fn fresh_contents(old: Map<u32, Seq<char>>, new: Map<u32, Seq<char>>) -> Set<
    Seq<char>,
> {
    Set::new(
        |c: Seq<char>|
            exists|k: u32| #[trigger] new.contains_key(k) && !old.contains_key(k) && new[k] == c,
    )
}

/// Whether `texts` is what a diff of `old` and `new` reports: the texts of
/// the messages of `new` whose checksums `old` does not hold, in increasing
/// order and each once.
pub open spec fn reports_fresh(
    old: Map<u32, Seq<char>>,
    new: Map<u32, Seq<char>>,
    texts: Seq<Seq<char>>,
) -> bool {
    &&& strictly_sorted(texts)
    &&& texts.to_set() == fresh_contents(old, new)
}

/// Nothing is new between a snapshot and itself.
pub proof fn law_diff_with_itself_is_empty(m: Map<u32, Seq<char>>)
    ensures
        fresh_contents(m, m) == Set::<Seq<char>>::empty(),
        forall|texts: Seq<Seq<char>>| reports_fresh(m, m, texts) ==> texts.len() == 0,
{
    assert(fresh_contents(m, m) =~= Set::<Seq<char>>::empty());
    assert forall|texts: Seq<Seq<char>>| reports_fresh(m, m, texts) implies texts.len() == 0 by {
        if texts.len() > 0 {
            assert(texts.to_set().contains(texts[0]));
        }
    }
}

/// A diff reports only texts of the newer snapshot, and every text of it
/// whose checksum the older one lacks.
pub proof fn law_diff_reports_new_texts(
    old: Map<u32, Seq<char>>,
    new: Map<u32, Seq<char>>,
    texts: Seq<Seq<char>>,
)
    requires
        reports_fresh(old, new, texts),
    ensures
        forall|i: int| 0 <= i < texts.len() ==> new.values().contains(#[trigger] texts[i]),
        forall|k: u32|
            #[trigger] new.contains_key(k) && !old.contains_key(k) ==> texts.contains(new[k]),
{
    assert forall|i: int| 0 <= i < texts.len() implies new.values().contains(#[trigger] texts[i]) by {
        assert(texts.to_set().contains(texts[i]));
        let k = choose|k: u32| #[trigger]
            new.contains_key(k) && !old.contains_key(k) && new[k] == texts[i];
        assert(new.dom().contains(k));
    }
    assert forall|k: u32| #[trigger] new.contains_key(k) && !old.contains_key(k) implies texts.contains(
        new[k],
    ) by {
        assert(fresh_contents(old, new).contains(new[k]));
        assert(texts.to_set().contains(new[k]));
    }
}

impl View for Snapshot {
    type V = Map<u32, Seq<char>>;

    /// A snapshot is seen as the texts of its messages by checksum.
    open spec fn view(&self) -> Map<u32, Seq<char>> {
        contents(self.messages@)
    }
}

impl Difference {
    /// Whether no message is new.
    pub fn is_empty(&self) -> (b: bool)
        ensures
            b == (self.messages@.len() == 0),
    {
        return self.messages.is_empty();
    }
}

impl Snapshot {
    /// Whether [`Snapshot::from`] accepts this copy of memory (see
    /// [`snapshot_accepts`]).
    pub fn accepts(raw_memory: &[u8]) -> (b: bool)
        ensures
            b == snapshot_accepts(raw_memory@),
    {
        let positions = loot_indexes(raw_memory);
        let n = raw_memory.len();
        proof {
            lemma_keyword_positions(raw_memory@, loot_keyword(), n as int);
        }
        let mut j: usize = 0;
        while j < positions.len()
            invariant
                n == raw_memory@.len(),
                j <= positions@.len(),
                positions@ == loot_positions(raw_memory@),
                forall|i: int| 0 <= i < positions@.len() ==> #[trigger] positions@[i] < n,
                forall|i: int|
                    0 <= i < j ==> {
                        let p = #[trigger] positions@[i];
                        15 <= p && magic_at(raw_memory@, p as int) <= u32::MAX
                    },
            decreases positions@.len() - j,
        {
            let idx = positions[j];
            if idx < 15 {
                return false;
            }
            let chunk = &raw_memory[idx..n];
            let e = entry(chunk);
            proof {
                assert(chunk@ =~= raw_memory@.skip(idx as int));
                lemma_entry_text_ascii(chunk@);
                lemma_entry_text_len(chunk@);
            }
            if window_sum_fits(raw_memory, idx, e.as_str().len()).is_none() {
                return false;
            }
            j = j + 1;
        }
        true
    }

    /// The loot messages of a copy of the client's heap, each under its
    /// checksum; of two messages with one checksum the later is kept.
    pub fn from(raw_memory: &[u8]) -> (s: Self)
        requires
            snapshot_accepts(raw_memory@),
        ensures
            s@ == message_map(raw_memory@, loot_positions(raw_memory@)),
            keyed_by_checksum(s.messages@),
            forall|j: int|
                0 <= j < loot_positions(raw_memory@).len() ==> s@.contains_key(
                    byte_sum(
                        raw_memory@.subrange(
                            loot_positions(raw_memory@)[j] - 15,
                            loot_positions(raw_memory@)[j] + entry_text(
                                raw_memory@.skip(#[trigger] loot_positions(raw_memory@)[j] as int),
                            ).len(),
                        ),
                    ) as u32,
                ),
    {
        proof {
            law_message_keys_are_window_sums(raw_memory@, loot_positions(raw_memory@));
        }
        Self { messages: messages(raw_memory) }
    }

    /// The texts of the messages of `new` whose checksums this snapshot does
    /// not hold, in increasing order and each once.
    pub fn diff(&self, new: &Snapshot) -> (d: Difference)
        ensures
            reports_fresh(self@, new@, string_views(d.messages@)),
            d.messages@.len() == 0 <==> new@.dom().subset_of(self@.dom()),
            forall|i: int, j: int|
                0 <= i < j < d.messages@.len() ==> str_order_lt(
                    #[trigger] d.messages@[i]@,
                    #[trigger] d.messages@[j]@,
                ),
    {
        let mut sorted: Vec<Vec<char>> = Vec::new();
        let ghost old_map = self@;
        let ghost all = spec_btree_map_iter(&new.messages).remaining();
        for kv in it: new.messages.iter()
            invariant
                old_map == self@,
                all == spec_btree_map_iter(&new.messages).remaining(),
                it.seq() == all,
                strictly_sorted(views(sorted@)),
                views(sorted@).to_set() == fresh_prefix(old_map, all, it.index()),
        {
            let (k, m) = kv;
            let ghost before = views(sorted@).to_set();
            let ghost j = it.index();
            if !self.messages.contains_key(k) {
                let cs = chars_of(m.content.as_str());
                insert_sorted(&mut sorted, cs);
                assert(fresh_prefix(old_map, all, j + 1) =~= before.insert(m.content@));
            } else {
                assert(fresh_prefix(old_map, all, j + 1) =~= before);
            }
        }
        proof {
            lemma_fresh_prefix_all(old_map, new);
        }
        let mut out: Vec<String> = Vec::new();
        let mut i: usize = 0;
        while i < sorted.len()
            invariant
                i <= sorted@.len(),
                string_views(out@) == views(sorted@).take(i as int),
            decreases sorted@.len() - i,
        {
            let st = string_from_chars(sorted[i].as_slice());
            assert(st@ == views(sorted@)[i as int]);
            let ghost before = string_views(out@);
            out.push(st);
            assert(string_views(out@) =~= before.push(st@));
            i = i + 1;
            assert(string_views(out@) =~= views(sorted@).take(i as int));
        }
        assert(views(sorted@).take(i as int) =~= views(sorted@));
        proof {
            let sv = string_views(out@);
            assert forall|i: int, j: int| 0 <= i < j < out@.len() implies str_order_lt(
                #[trigger] out@[i]@,
                #[trigger] out@[j]@,
            ) by {
                assert(sv[i] == out@[i]@ && sv[j] == out@[j]@);
                law_lex_order_is_str_order(out@[i]@, out@[j]@);
            }
            let f = fresh_contents(self@, new@);
            if sv.len() == 0 {
                assert(sv.to_set() =~= Set::empty());
                assert forall|k: u32| new@.dom().contains(k) implies self@.dom().contains(k) by {
                    if !self@.contains_key(k) {
                        assert(f.contains(new@[k]));
                    }
                }
            } else {
                assert(sv.to_set().contains(sv[0]));
                let k = choose|k: u32| #[trigger]
                    new@.contains_key(k) && !self@.contains_key(k) && new@[k] == sv[0];
                assert(!self@.dom().contains(k));
            }
        }
        Difference { messages: out }
    }
}

/// The texts of the messages among the first `n` pairs of `pairs` whose
/// checksums `old` does not hold.
pub open spec fn fresh_prefix(
    old: Map<u32, Seq<char>>,
    pairs: Seq<(&u32, &Message)>,
    n: int,
) -> Set<Seq<char>> {
    Set::new(
        |c: Seq<char>|
            exists|j: int|
                0 <= j < n && !old.contains_key(*pairs[j].0) && (*#[trigger] pairs[j].1).content@
                    == c,
    )
}

proof fn lemma_fresh_prefix_all(old: Map<u32, Seq<char>>, new: &Snapshot)
    ensures
        ({
            let all = spec_btree_map_iter(&new.messages).remaining();
            fresh_prefix(old, all, all.len() as int) == fresh_contents(old, new@)
        }),
{
    let all = spec_btree_map_iter(&new.messages).remaining();
    let m = new.messages@;
    assert forall|c: Seq<char>| #[trigger]
        fresh_prefix(old, all, all.len() as int).contains(c) <==> fresh_contents(
            old,
            new@,
        ).contains(c) by {
        if fresh_prefix(old, all, all.len() as int).contains(c) {
            let j = choose|j: int|
                0 <= j < all.len() && !old.contains_key(*all[j].0) && (*#[trigger] all[j].1).content@
                    == c;
            assert(m.contains_key(*all[j].0));
            assert(new@.contains_key(*all[j].0));
        }
        if fresh_contents(old, new@).contains(c) {
            let k = choose|k: u32| #[trigger]
                new@.contains_key(k) && !old.contains_key(k) && new@[k] == c;
            assert(m.contains_key(k));
            assert(all.contains((&k, &m[k])));
            let j = choose|j: int| 0 <= j < all.len() && all[j] == (&k, &m[k]);
            assert((*all[j].1).content@ == c);
        }
    }
    assert(fresh_prefix(old, all, all.len() as int) =~= fresh_contents(old, new@));
}

/// The sum of the checksum window of an entry of `len` bytes at `idx`, if it
/// fits in a `u32`.
fn window_sum_fits(raw_memory: &[u8], idx: usize, len: usize) -> (r: Option<u32>)
    requires
        15 <= idx,
        idx + len <= raw_memory@.len(),
    ensures
        match r {
            Some(v) => v == window_sum(raw_memory@, idx as int, len as int),
            None => window_sum(raw_memory@, idx as int, len as int) > u32::MAX,
        },
{
    let n = raw_memory.len();
    let end = idx + len;
    let start = idx - 15;
    let ghost w = raw_memory@.subrange(start as int, end as int);
    let mut sum: u32 = 0;
    let mut i = start;
    while i < end
        invariant
            start == idx - 15,
            end == idx + len,
            start <= i <= end <= raw_memory@.len(),
            w == raw_memory@.subrange(start as int, end as int),
            sum == byte_sum(w.take(i - start)),
        decreases end - i,
    {
        proof {
            assert(w.take(i - start + 1).drop_last() =~= w.take(i - start));
            assert(w.take(i - start + 1).last() == raw_memory@[i as int]);
            assert(byte_sum(w.take(i - start + 1)) == byte_sum(w.take(i - start))
                + raw_memory@[i as int]);
            lemma_byte_sum_prefix(w, i - start + 1);
        }
        match sum.checked_add(raw_memory[i] as u32) {
            Some(v) => sum = v,
            None => {
                assert(byte_sum(w) > u32::MAX);
                return None;
            },
        }
        i = i + 1;
    }
    assert(w.take(end - start) =~= w);
    Some(sum)
}

} // verus!
