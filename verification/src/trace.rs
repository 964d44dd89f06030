//! Reading one line of a memory trace.
//!
//! A line is either an instruction fetch, which starts with `I` and carries
//! no access, or a data access: an operation letter, white space, and an
//! address in hexadecimal, with or without a plus sign before it, that ends
//! at a comma, at white space or with the line. Whatever follows the address
//! (the size of the access) is not read.

use vstd::prelude::*;
use vstd::string::StrSliceExecFns;

verus! {

/// White space as Unicode defines it (the property `White_Space`).
pub open spec fn is_space(c: char) -> bool {
    let n = c as u32;
    ||| 0x09 <= n <= 0x0d
    ||| n == 0x20
    ||| n == 0x85
    ||| n == 0xa0
    ||| n == 0x1680
    ||| 0x2000 <= n <= 0x200a
    ||| n == 0x2028
    ||| n == 0x2029
    ||| n == 0x202f
    ||| n == 0x205f
    ||| n == 0x3000
}

/// The operation letters of a data access: load, store and modify.
pub open spec fn is_operation(c: char) -> bool {
    c == 'L' || c == 'S' || c == 'M'
}

/// The value of a hexadecimal digit, in either case.
pub open spec fn digit_value(c: char) -> Option<nat> {
    let n = c as u32;
    if 0x30 <= n <= 0x39 {
        Some((n - 0x30) as nat)
    } else if 0x61 <= n <= 0x66 {
        Some((n - 0x61 + 10) as nat)
    } else if 0x41 <= n <= 0x46 {
        Some((n - 0x41 + 10) as nat)
    } else {
        None
    }
}

/// Every character is a hexadecimal digit.
pub open spec fn all_hex(digits: Seq<char>) -> bool {
    forall|i: int| 0 <= i < digits.len() ==> digit_value(#[trigger] digits[i]) is Some
}

/// The number that `digits` write in base 16, most significant first. A
/// character that is no digit counts as zero.
pub open spec fn hex_value(digits: Seq<char>) -> nat
    decreases digits.len(),
{
    if digits.len() == 0 {
        0
    } else {
        16 * hex_value(digits.drop_last()) + match digit_value(digits.last()) {
            Some(d) => d,
            None => 0,
        }
    }
}

/// The first position at or after `from` that holds no white space.
pub open spec fn after_spaces(line: Seq<char>, from: int) -> int
    decreases line.len() - from,
{
    if 0 <= from < line.len() && is_space(line[from]) {
        after_spaces(line, from + 1)
    } else {
        from
    }
}

/// The first position at or after `from` that holds white space.
pub open spec fn word_end(line: Seq<char>, from: int) -> int
    decreases line.len() - from,
{
    if 0 <= from < line.len() && !is_space(line[from]) {
        word_end(line, from + 1)
    } else {
        from
    }
}

/// The first position at or after `from` that holds a comma or white space.
pub open spec fn field_end(line: Seq<char>, from: int) -> int
    decreases line.len() - from,
{
    if 0 <= from < line.len() && !is_space(line[from]) && line[from] != ',' {
        field_end(line, from + 1)
    } else {
        from
    }
}

/// The line is an instruction fetch: its very first character is `I`.
pub open spec fn is_fetch(line: Seq<char>) -> bool {
    line.len() > 0 && line[0] == 'I'
}

/// Where the first word of the line starts; its first character is the
/// operation.
pub open spec fn operation_at(line: Seq<char>) -> int {
    after_spaces(line, 0)
}

/// Where the second word of the line starts.
pub open spec fn address_at(line: Seq<char>) -> int {
    after_spaces(line, word_end(line, operation_at(line)))
}

/// Where the digits of the address start: at the second word, or behind
/// the plus sign that it starts with.
pub open spec fn digits_at(line: Seq<char>) -> int {
    let at = address_at(line);
    if at < line.len() && line[at] == '+' {
        at + 1
    } else {
        at
    }
}

/// The digits of the address: from where they start up to the first comma
/// or white space.
pub open spec fn address_digits(line: Seq<char>) -> Seq<char> {
    line.subrange(digits_at(line), field_end(line, digits_at(line)))
}

/// The line is a data access: its first word starts with an operation
/// letter and its second word starts with a hexadecimal number of at least
/// one digit that fits in 64 bits.
pub open spec fn is_access(line: Seq<char>) -> bool {
    &&& operation_at(line) < line.len()
    &&& is_operation(line[operation_at(line)])
    &&& address_digits(line).len() > 0
    &&& all_hex(address_digits(line))
    &&& hex_value(address_digits(line)) <= u64::MAX
}

/// The line is one that a trace may hold.
pub open spec fn well_formed_line(line: Seq<char>) -> bool {
    is_fetch(line) || is_access(line)
}

/// What a well-formed line says: nothing for an instruction fetch, else the
/// operation letter and the address.
pub open spec fn entry_of(line: Seq<char>) -> Option<(char, u64)> {
    if is_fetch(line) {
        None
    } else {
        Some((line[operation_at(line)], hex_value(address_digits(line)) as u64))
    }
}

/// The scanners never move backwards and never leave the line.
pub proof fn lemma_scan_bounds(line: Seq<char>, from: int)
    requires
        0 <= from <= line.len(),
    ensures
        from <= after_spaces(line, from) <= line.len(),
        from <= word_end(line, from) <= line.len(),
        from <= field_end(line, from) <= line.len(),
    decreases line.len() - from,
{
    if from < line.len() {
        lemma_scan_bounds(line, from + 1);
    }
}

/// A number does not shrink when more digits follow it.
pub proof fn lemma_hex_value_grows(digits: Seq<char>, n: int)
    requires
        0 <= n <= digits.len(),
    ensures
        hex_value(digits.take(n)) <= hex_value(digits),
    decreases digits.len() - n,
{
    if n < digits.len() {
        lemma_hex_value_grows(digits, n + 1);
        assert(digits.take(n + 1).drop_last() =~= digits.take(n));
    } else {
        assert(digits.take(n) =~= digits);
    }
}

fn space(c: char) -> (r: bool)
    ensures
        r == is_space(c),
{
    let n: u32 = c as u32;
    (0x09 <= n && n <= 0x0d) || n == 0x20 || n == 0x85 || n == 0xa0 || n == 0x1680 || (0x2000 <= n
        && n <= 0x200a) || n == 0x2028 || n == 0x2029 || n == 0x202f || n == 0x205f || n == 0x3000
}

fn digit(c: char) -> (r: Option<u64>)
    ensures
        match r {
            Some(d) => digit_value(c) == Some(d as nat) && d < 16,
            None => digit_value(c) is None,
        },
{
    let n: u32 = c as u32;
    if 0x30 <= n && n <= 0x39 {
        Some((n - 0x30) as u64)
    } else if 0x61 <= n && n <= 0x66 {
        Some((n - 0x61 + 10) as u64)
    } else if 0x41 <= n && n <= 0x46 {
        Some((n - 0x41 + 10) as u64)
    } else {
        None
    }
}

fn skip_spaces(line: &str, len: usize, from: usize) -> (r: usize)
    requires
        len == line@.len(),
        from <= len,
    ensures
        r == after_spaces(line@, from as int),
        from <= r <= len,
{
    let mut i: usize = from;
    while i < len
        invariant
            len == line@.len(),
            from <= i <= len,
            after_spaces(line@, from as int) == after_spaces(line@, i as int),
        decreases len - i,
    {
        if !space(line.get_char(i)) {
            return i;
        }
        i += 1;
    }
    i
}

fn skip_word(line: &str, len: usize, from: usize) -> (r: usize)
    requires
        len == line@.len(),
        from <= len,
    ensures
        r == word_end(line@, from as int),
        from <= r <= len,
{
    let mut i: usize = from;
    while i < len
        invariant
            len == line@.len(),
            from <= i <= len,
            word_end(line@, from as int) == word_end(line@, i as int),
        decreases len - i,
    {
        if space(line.get_char(i)) {
            return i;
        }
        i += 1;
    }
    i
}

fn skip_field(line: &str, len: usize, from: usize) -> (r: usize)
    requires
        len == line@.len(),
        from <= len,
    ensures
        r == field_end(line@, from as int),
        from <= r <= len,
{
    let mut i: usize = from;
    while i < len
        invariant
            len == line@.len(),
            from <= i <= len,
            field_end(line@, from as int) == field_end(line@, i as int),
        decreases len - i,
    {
        let c: char = line.get_char(i);
        if c == ',' || space(c) {
            return i;
        }
        i += 1;
    }
    i
}

/// Reads the number written in `line` from `from` up to `end`. Returns
/// nothing where there is no digit, where a character is no digit, or where
/// the number does not fit in 64 bits.
fn read_hex(line: &str, from: usize, end: usize) -> (r: Option<u64>)
    requires
        from <= end <= line@.len(),
    ensures
        ({
            let digits = line@.subrange(from as int, end as int);
            match r {
                Some(v) => digits.len() > 0 && all_hex(digits) && hex_value(digits) == v,
                None => !(digits.len() > 0 && all_hex(digits) && hex_value(digits) <= u64::MAX),
            }
        }),
{
    let ghost digits = line@.subrange(from as int, end as int);
    let mut value: u64 = 0;
    let mut i: usize = from;
    while i < end
        invariant
            from <= i <= end <= line@.len(),
            digits == line@.subrange(from as int, end as int),
            all_hex(digits.take(i - from)),
            hex_value(digits.take(i - from)) == value,
        decreases end - i,
    {
        proof {
            assert(digits.take(i + 1 - from).drop_last() =~= digits.take(i - from));
            lemma_hex_value_grows(digits, i + 1 - from);
        }
        match digit(line.get_char(i)) {
            None => {
                assert(digit_value(digits[i - from]) is None);
                return None;
            },
            Some(d) => {
                if value > (u64::MAX - d) / 16 {
                    return None;
                }
                value = value * 16 + d;
            },
        }
        i += 1;
    }
    assert(digits.take(i - from) =~= digits);
    if i == from {
        None
    } else {
        Some(value)
    }
}

/// Reads a line of any kind: the outer `None` says that it is not
/// well formed.
fn read_line(line: &str) -> (r: Option<Option<(char, u64)>>)
    ensures
        r is Some <==> well_formed_line(line@),
        r is Some ==> r->0 == entry_of(line@),
{
    let len: usize = line.unicode_len();
    if len > 0 && line.get_char(0) == 'I' {
        return Some(None);
    }
    let start: usize = skip_spaces(line, len, 0);
    if start >= len {
        return None;
    }
    let operation: char = line.get_char(start);
    if !(operation == 'L' || operation == 'S' || operation == 'M') {
        return None;
    }
    let word: usize = skip_word(line, len, start);
    let address: usize = skip_spaces(line, len, word);
    let first: usize = if address < len && line.get_char(address) == '+' {
        address + 1
    } else {
        address
    };
    let end: usize = skip_field(line, len, first);
    match read_hex(line, first, end) {
        Some(value) => Some(Some((operation, value))),
        None => None,
    }
}

/// Whether `line` is an instruction fetch or a data access that
/// `parse_trace_line` can read.
pub fn is_trace_line(line: &str) -> (ok: bool)
    ensures
        ok == well_formed_line(line@),
{
    read_line(line).is_some()
}

/// Returns the operation letter and the address of a data access, and
/// `None` for an instruction fetch.
pub fn parse_trace_line(line: &str) -> (entry: Option<(char, u64)>)
    requires
        well_formed_line(line@),
    ensures
        entry == entry_of(line@),
        entry is None <==> is_fetch(line@),
{
    match read_line(line) {
        Some(entry) => entry,
        None => None,
    }
}

} // verus!
