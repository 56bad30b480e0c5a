//! What the library reads from the game client's process: its id, found in
//! the process list, and the place of its heap, found in its memory map.
use vstd::prelude::*;

use crate::number::{parse_unsigned, parse_unsigned_chars};
use crate::text::{chars_of, find, find_from, split, split_chars, string_views, views};

verus! {

/// A range of addresses in the client's memory.
#[derive(Debug, Copy, Clone, PartialEq, Eq, Structural)]
pub struct MemoryRegion {
    pub start: u64,
    pub end: u64,
}

/// The position of the first line for which `pred` holds.
pub open spec fn first_index(lines: Seq<Seq<char>>, pred: spec_fn(Seq<char>) -> bool) -> Option<
    int,
>
    decreases lines.len(),
{
    if lines.len() == 0 {
        None
    } else if pred(lines[0]) {
        Some(0)
    } else {
        match first_index(lines.drop_first(), pred) {
            Some(k) => Some(k + 1),
            None => None,
        }
    }
}

/// Whether a line of the memory map names the heap.
pub open spec fn names_heap(line: Seq<char>) -> bool {
    find(line, "heap"@) is Some
}

/// The test for a line that names the heap.
pub open spec fn heap_line() -> spec_fn(Seq<char>) -> bool {
    |l: Seq<char>| names_heap(l)
}

/// The line found by [`first_index`] lies in range and passes the test.
pub proof fn lemma_first_index(lines: Seq<Seq<char>>, pred: spec_fn(Seq<char>) -> bool)
    ensures
        first_index(lines, pred) matches Some(j) ==> 0 <= j < lines.len() && pred(lines[j]),
    decreases lines.len(),
{
    if lines.len() > 0 && !pred(lines[0]) {
        lemma_first_index(lines.drop_first(), pred);
    }
}

/// The two ends of the address range that opens a line of the memory map,
/// such as `1234-1235` in `1234-1235 rw-p 00000000 00:00 0 [heap]`.
pub open spec fn region_fields(line: Seq<char>) -> Seq<Seq<char>> {
    split(split(line, " "@)[0], "-"@)
}

/// A hexadecimal number that fits in a `u64`, as `u64::from_str_radix` reads
/// it.
pub open spec fn hex_u64(s: Seq<char>) -> Option<nat> {
    parse_unsigned(s, 16, u64::MAX as nat)
}

/// Whether [`heap`] can read the memory map: where the first line that names
/// the heap has an address range, both of its ends are hexadecimal numbers.
pub open spec fn heap_lines_parse(lines: Seq<Seq<char>>) -> bool {
    match first_index(lines, heap_line()) {
        None => true,
        Some(j) => {
            let f = region_fields(lines[j]);
            f.len() <= 1 || (hex_u64(f[0]) is Some && hex_u64(f[1]) is Some)
        },
    }
}

/// The heap's address range that the memory map gives: read from the first
/// line that names the heap; none where no line does, or where that line
/// has no `-` in its first field.
pub open spec fn heap_region(lines: Seq<Seq<char>>) -> Option<MemoryRegion> {
    match first_index(lines, heap_line()) {
        None => None,
        Some(j) => {
            let f = region_fields(lines[j]);
            if f.len() <= 1 {
                None
            } else {
                Some(
                    MemoryRegion {
                        start: hex_u64(f[0])->0 as u64,
                        end: hex_u64(f[1])->0 as u64,
                    },
                )
            }
        },
    }
}

/// Whether `p` occurs in `s`.
fn contains_chars(s: &[char], p: &[char]) -> (b: bool)
    ensures
        b == (find(s@, p@) is Some),
{
    assert(s@.skip(0) =~= s@);
    find_from(s, 0, p).is_some()
}

/// The position of the first line that names the heap.
fn first_heap_line(lines: &[String]) -> (r: Option<usize>)
    ensures
        match first_index(string_views(lines@), heap_line()) {
            Some(j) => r == Some(j as usize),
            None => r is None,
        },
{
    let heap = chars_of("heap");
    let ghost ls = string_views(lines@);
    let mut j: usize = 0;
    assert(ls.skip(0) =~= ls);
    while j < lines.len()
        invariant
            j <= lines@.len(),
            ls == string_views(lines@),
            heap@ == "heap"@,
            first_index(ls, heap_line()) == match first_index(
                ls.skip(j as int),
                heap_line(),
            ) {
                Some(k) => Some(k + j),
                None => None,
            },
        decreases lines@.len() - j,
    {
        let line = chars_of(lines[j].as_str());
        assert(ls.skip(j as int)[0] == line@);
        assert(ls.skip(j as int).drop_first() =~= ls.skip(j + 1));
        if contains_chars(line.as_slice(), heap.as_slice()) {
            return Some(j);
        }
        j = j + 1;
    }
    assert(ls.skip(j as int).len() == 0);
    None
}

/// Whether [`heap`] can read these lines (see [`heap_lines_parse`]).
pub fn heap_parses(maps: &[String]) -> (b: bool)
    ensures
        b == heap_lines_parse(string_views(maps@)),
{
    proof {
        lemma_first_index(string_views(maps@), heap_line());
    }
    match first_heap_line(maps) {
        None => true,
        Some(j) => {
            let line = chars_of(maps[j].as_str());
            assert(string_views(maps@)[j as int] == line@);
            let fields = region_fields_of(line.as_slice());
            if fields.len() <= 1 {
                true
            } else {
                parse_unsigned_chars(fields[0].as_slice(), 16, u64::MAX).is_some()
                    && parse_unsigned_chars(fields[1].as_slice(), 16, u64::MAX).is_some()
            }
        },
    }
}

/// The fields of the address range at the start of a line (see
/// [`region_fields`]).
fn region_fields_of(line: &[char]) -> (f: Vec<Vec<char>>)
    ensures
        views(f@) == region_fields(line@),
{
    let space = chars_of(" ");
    let dash = chars_of("-");
    proof {
        reveal_strlit(" ");
        reveal_strlit("-");
    }
    let words = split_chars(line, space.as_slice());
    proof {
        lemma_split_nonempty(line@, " "@);
    }
    split_chars(words[0].as_slice(), dash.as_slice())
}

/// A split always has a first piece.
pub proof fn lemma_split_nonempty(s: Seq<char>, p: Seq<char>)
    ensures
        split(s, p).len() >= 1,
{
}

/// The heap's address range, read from the lines of the client's memory map
/// (see [`heap_region`]).
pub fn heap(maps: &[String]) -> (r: Option<MemoryRegion>)
    requires
        heap_lines_parse(string_views(maps@)),
    ensures
        r == heap_region(string_views(maps@)),
{
    proof {
        lemma_first_index(string_views(maps@), heap_line());
    }
    match first_heap_line(maps) {
        None => None,
        Some(j) => {
            let line = chars_of(maps[j].as_str());
            assert(string_views(maps@)[j as int] == line@);
            let fields = region_fields_of(line.as_slice());
            if fields.len() <= 1 {
                return None;
            }
            let start = parse_unsigned_chars(fields[0].as_slice(), 16, u64::MAX).unwrap();
            let end = parse_unsigned_chars(fields[1].as_slice(), 16, u64::MAX).unwrap();
            Some(MemoryRegion { start, end })
        },
    }
}

/// Whether a row of the process list is the running game client (and not
/// its updater).
pub open spec fn is_client_row(row: Seq<char>) -> bool {
    &&& find(row, "Tibia/bin/client"@) is Some
    &&& find(row, "--package-is-up-to-date"@) is None
}

/// The test for the client's row.
pub open spec fn client_row() -> spec_fn(Seq<char>) -> bool {
    |r: Seq<char>| is_client_row(r)
}

/// The rows of the process list.
pub open spec fn ps_rows(ps_output: Seq<char>) -> Seq<Seq<char>> {
    split(ps_output, "\n"@)
}

/// A decimal number that fits in a `u32`, as `str::parse::<u32>` reads it.
pub open spec fn dec_u32(s: Seq<char>) -> Option<nat> {
    parse_unsigned(s, 10, u32::MAX as nat)
}

/// The fields of the client's row, cut at each single space.
pub open spec fn client_fields(ps_output: Seq<char>) -> Option<Seq<Seq<char>>> {
    match first_index(ps_rows(ps_output), client_row()) {
        None => None,
        Some(j) => Some(split(ps_rows(ps_output)[j], " "@)),
    }
}

/// Whether [`pid`] can read the process list: where the client's row has
/// two fields or more and its first is no number, its second is one.
pub open spec fn pid_parses(ps_output: Seq<char>) -> bool {
    match client_fields(ps_output) {
        None => true,
        Some(f) => f.len() <= 1 || dec_u32(f[0]) is Some || dec_u32(f[1]) is Some,
    }
}

/// The client's process id that the process list gives: the first field of
/// the first row that names the client, or its second field where the
/// first is no number; none where no row names the client or its row has
/// a single field.
pub open spec fn pid_of(ps_output: Seq<char>) -> Option<u32> {
    match client_fields(ps_output) {
        None => None,
        Some(f) => if f.len() <= 1 {
            None
        } else {
            match dec_u32(f[0]) {
                Some(p) => Some(p as u32),
                None => Some(dec_u32(f[1])->0 as u32),
            }
        },
    }
}

/// The fields of the client's row (see [`client_fields`]).
fn client_fields_of(ps_output: &str) -> (r: Option<Vec<Vec<char>>>)
    ensures
        match client_fields(ps_output@) {
            None => r is None,
            Some(f) => r matches Some(v) && views(v@) == f,
        },
{
    let text = chars_of(ps_output);
    let newline = chars_of("\n");
    let space = chars_of(" ");
    let client = chars_of("Tibia/bin/client");
    let updater = chars_of("--package-is-up-to-date");
    proof {
        reveal_strlit("\n");
        reveal_strlit(" ");
    }
    let rows = split_chars(text.as_slice(), newline.as_slice());
    let ghost rs = views(rows@);
    let mut j: usize = 0;
    assert(rs.skip(0) =~= rs);
    while j < rows.len()
        invariant
            j <= rows@.len(),
            rs == views(rows@),
            rs == ps_rows(ps_output@),
            client@ == "Tibia/bin/client"@,
            updater@ == "--package-is-up-to-date"@,
            space@ == " "@,
            space@.len() > 0,
            first_index(rs, client_row()) == match first_index(rs.skip(j as int), client_row()) {
                Some(k) => Some(k + j),
                None => None,
            },
        decreases rows@.len() - j,
    {
        let row = &rows[j];
        assert(rs.skip(j as int)[0] == row@);
        assert(rs.skip(j as int).drop_first() =~= rs.skip(j + 1));
        if contains_chars(row.as_slice(), client.as_slice()) && !contains_chars(
            row.as_slice(),
            updater.as_slice(),
        ) {
            return Some(split_chars(row.as_slice(), space.as_slice()));
        }
        j = j + 1;
    }
    assert(rs.skip(j as int).len() == 0);
    None
}

/// Whether [`pid`] can read this process list (see [`pid_parses`]).
pub fn pid_parses_exec(ps_output: &str) -> (b: bool)
    ensures
        b == pid_parses(ps_output@),
{
    match client_fields_of(ps_output) {
        None => true,
        Some(f) => {
            if f.len() <= 1 {
                true
            } else {
                parse_unsigned_chars(f[0].as_slice(), 10, u32::MAX as u64).is_some()
                    || parse_unsigned_chars(f[1].as_slice(), 10, u32::MAX as u64).is_some()
            }
        },
    }
}

/// The process id of the game client, read from the output of `ps ax`
/// (see [`pid_of`]).
pub fn pid(ps_output: &str) -> (r: Option<u32>)
    requires
        pid_parses(ps_output@),
    ensures
        r == pid_of(ps_output@),
{
    match client_fields_of(ps_output) {
        None => None,
        Some(f) => {
            if f.len() <= 1 {
                return None;
            }
            match parse_unsigned_chars(f[0].as_slice(), 10, u32::MAX as u64) {
                Some(p) => Some(p as u32),
                None => Some(parse_unsigned_chars(f[1].as_slice(), 10, u32::MAX as u64).unwrap() as u32),
            }
        },
    }
}

/// The copy of the client's heap: with no process id there is none; with
/// one, `read_heap` is asked for it, and its answer is passed on.
pub fn raw_memory<F: FnOnce(u32) -> Option<Vec<u8>>>(pid: Option<u32>, read_heap: F) -> (r:
    Result<Vec<u8>, &'static str>)
    requires
        pid matches Some(p) ==> read_heap.requires((p,)),
    ensures
        r matches Err(e) ==> e@ == "Couldn't read memory"@,
        pid is None ==> r is Err,
        pid matches Some(p) ==> exists|heap: Option<Vec<u8>>|
            #[trigger] read_heap.ensures((p,), heap) && match heap {
                Some(m) => r matches Ok(v) && v@ == m@,
                None => r is Err,
            },
{
    match pid {
        Some(pid) => match read_heap(pid) {
            Some(mem) => Ok(mem),
            None => Err("Couldn't read memory"),
        },
        None => Err("Couldn't read memory"),
    }
}

} // verus!
