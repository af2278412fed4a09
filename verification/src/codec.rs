//! The snapshot text format: a bracketed list of `{"key":K,"value":N}`
//! records, one per store entry.
//!
//! Both directions are defined here: `snapshot_text` gives the exact text
//! written for a sequence of entries, and `snapshot_of` the entries read
//! back from a text, `None` standing for a malformed one.  Quotes and
//! backslashes in keys are escaped with a backslash, and control
//! characters as `\u00` followed by two lowercase hex digits.

use vstd::prelude::*;

use crate::store::Entry;

verus! {

/// A single record of the snapshot file, wrapping one store entry.
pub struct WrappedEntry(pub Entry);

impl View for WrappedEntry {
    type V = (Seq<char>, i64);

    open spec fn view(&self) -> (Seq<char>, i64) {
        self.0@
    }
}

/// The models of a sequence of snapshot records.
pub open spec fn wrapped_models(es: Seq<WrappedEntry>) -> Seq<(Seq<char>, i64)> {
    Seq::new(es.len(), |i: int| es[i]@)
}

pub open spec fn is_digit(c: char) -> bool {
    48 <= c as u32 && c as u32 <= 57
}

pub open spec fn digit_val(c: char) -> int {
    c as u32 - 48
}

pub open spec fn digit_char(d: int) -> char {
    if d == 0 {
        '0'
    } else if d == 1 {
        '1'
    } else if d == 2 {
        '2'
    } else if d == 3 {
        '3'
    } else if d == 4 {
        '4'
    } else if d == 5 {
        '5'
    } else if d == 6 {
        '6'
    } else if d == 7 {
        '7'
    } else if d == 8 {
        '8'
    } else {
        '9'
    }
}

pub open spec fn is_hex_lower(c: char) -> bool {
    is_digit(c) || (97 <= c as u32 && c as u32 <= 102)
}

pub open spec fn hex_val(c: char) -> int {
    if is_digit(c) {
        digit_val(c)
    } else {
        c as u32 - 87
    }
}

pub open spec fn hex_char(d: int) -> char {
    if d < 10 {
        digit_char(d)
    } else if d == 10 {
        'a'
    } else if d == 11 {
        'b'
    } else if d == 12 {
        'c'
    } else if d == 13 {
        'd'
    } else if d == 14 {
        'e'
    } else {
        'f'
    }
}

/// The escape of one key character in the snapshot text.
pub open spec fn escaped_char(c: char) -> Seq<char> {
    if c == '"' {
        seq!['\\', '"']
    } else if c == '\\' {
        seq!['\\', '\\']
    } else if (c as u32) < 32 {
        seq!['\\', 'u', '0', '0', hex_char(c as u32 as int / 16), hex_char(c as u32 as int % 16)]
    } else {
        seq![c]
    }
}

/// The escape of a whole key.
pub open spec fn escaped(s: Seq<char>) -> Seq<char>
    decreases s.len(),
{
    if s.len() == 0 {
        Seq::empty()
    } else {
        escaped(s.drop_last()) + escaped_char(s.last())
    }
}

/// The canonical decimal digits of a non-negative number.
pub open spec fn dec_u64(n: nat) -> Seq<char>
    decreases n,
{
    if n < 10 {
        seq![digit_char(n as int)]
    } else {
        dec_u64(n / 10).push(digit_char((n % 10) as int))
    }
}

/// The canonical decimal text of an integer, a leading minus when negative.
pub open spec fn dec_i64(v: int) -> Seq<char> {
    if v < 0 {
        seq!['-'] + dec_u64((-v) as nat)
    } else {
        dec_u64(v as nat)
    }
}

/// The text opening a record, up to and including the key's opening quote.
pub open spec fn key_label() -> Seq<char> {
    seq!['{', '"', 'k', 'e', 'y', '"', ':', '"']
}

/// The text between the key's closing quote and the value's digits.
pub open spec fn mid_label() -> Seq<char> {
    seq![',', '"', 'v', 'a', 'l', 'u', 'e', '"', ':']
}

/// The text of one record.
pub open spec fn record_text(k: Seq<char>, v: i64) -> Seq<char> {
    key_label() + escaped(k) + seq!['"'] + mid_label() + dec_i64(v as int) + seq!['}']
}

/// The comma-separated texts of a sequence of records.
pub open spec fn items_text(es: Seq<(Seq<char>, i64)>) -> Seq<char>
    decreases es.len(),
{
    if es.len() == 0 {
        Seq::empty()
    } else if es.len() == 1 {
        record_text(es[0].0, es[0].1)
    } else {
        items_text(es.drop_last()) + seq![','] + record_text(es.last().0, es.last().1)
    }
}

/// The full snapshot text for a sequence of records.
pub open spec fn snapshot_text(es: Seq<(Seq<char>, i64)>) -> Seq<char> {
    seq!['['] + items_text(es) + seq![']']
}

/// Reads a string body at `i`, the escapes undone, up to and past the
/// closing quote; `acc` holds the characters read so far.
pub open spec fn str_body(s: Seq<char>, i: int, acc: Seq<char>) -> Option<(Seq<char>, int)>
    decreases s.len() - i,
{
    if i < 0 || i >= s.len() {
        None
    } else if s[i] == '"' {
        Some((acc, i + 1))
    } else if s[i] == '\\' {
        if i + 1 < s.len() && (s[i + 1] == '"' || s[i + 1] == '\\') {
            str_body(s, i + 2, acc.push(s[i + 1]))
        } else if i + 5 < s.len() && s[i + 1] == 'u' && s[i + 2] == '0' && s[i + 3] == '0'
            && is_hex_lower(s[i + 4]) && is_hex_lower(s[i + 5]) && hex_val(s[i + 4]) * 16 + hex_val(
            s[i + 5],
        ) < 32 {
            str_body(s, i + 6, acc.push(((hex_val(s[i + 4]) * 16 + hex_val(s[i + 5])) as u8) as char))
        } else {
            None
        }
    } else {
        str_body(s, i + 1, acc.push(s[i]))
    }
}

/// Reads a run of digits at `i` into the magnitude `acc`, refusing one
/// that leaves the signed 64-bit range.
pub open spec fn uint_body(s: Seq<char>, i: int, acc: int) -> Option<(int, int)>
    decreases s.len() - i,
{
    if 0 <= i < s.len() && is_digit(s[i]) {
        if acc * 10 + digit_val(s[i]) > 0x8000_0000_0000_0000 {
            None
        } else {
            uint_body(s, i + 1, acc * 10 + digit_val(s[i]))
        }
    } else {
        Some((acc, i))
    }
}

/// Reads a decimal integer at `i`: an optional minus, then digits.
pub open spec fn int_at(s: Seq<char>, i: int) -> Option<(i64, int)> {
    if 0 <= i < s.len() && s[i] == '-' {
        if i + 1 < s.len() && is_digit(s[i + 1]) {
            match uint_body(s, i + 1, 0) {
                Some((m, j)) => Some(((-m) as i64, j)),
                None => None,
            }
        } else {
            None
        }
    } else if 0 <= i < s.len() && is_digit(s[i]) {
        match uint_body(s, i, 0) {
            Some((m, j)) => if m <= 0x7FFF_FFFF_FFFF_FFFF {
                Some((m as i64, j))
            } else {
                None
            },
            None => None,
        }
    } else {
        None
    }
}

/// Whether the text `lit` stands in `s` at position `i`.
pub open spec fn match_at(s: Seq<char>, i: int, lit: Seq<char>) -> bool {
    0 <= i && i + lit.len() <= s.len() && s.subrange(i, i + lit.len()) == lit
}

/// Reads one record at `i`, returning its model and the position past it.
pub open spec fn record_at(s: Seq<char>, i: int) -> Option<((Seq<char>, i64), int)> {
    if match_at(s, i, key_label()) {
        match str_body(s, i + 8, Seq::empty()) {
            Some((k, j)) => if match_at(s, j, mid_label()) {
                match int_at(s, j + 9) {
                    Some((v, m)) => if 0 <= m < s.len() && s[m] == '}' {
                        Some(((k, v), m + 1))
                    } else {
                        None
                    },
                    None => None,
                }
            } else {
                None
            },
            None => None,
        }
    } else {
        None
    }
}

/// Reads records separated by commas from `i` up to a closing bracket that
/// ends the text; `acc` holds the records read so far.
pub open spec fn items_at(s: Seq<char>, i: int, acc: Seq<(Seq<char>, i64)>) -> Option<
    Seq<(Seq<char>, i64)>,
>
    decreases s.len() - i,
{
    match record_at(s, i) {
        Some((r, j)) => if i < j && j < s.len() && s[j] == ',' {
            items_at(s, j + 1, acc.push(r))
        } else if 0 <= j && j + 1 == s.len() && s[j] == ']' {
            Some(acc.push(r))
        } else {
            None
        },
        None => None,
    }
}

/// The records read from a whole snapshot text, `None` for a malformed one.
pub open spec fn snapshot_of(s: Seq<char>) -> Option<Seq<(Seq<char>, i64)>> {
    if s.len() >= 2 && s[0] == '[' {
        if s.len() == 2 && s[1] == ']' {
            Some(Seq::empty())
        } else {
            items_at(s, 1, Seq::empty())
        }
    } else {
        None
    }
}

/// Relies on String::push: appends the given character to the end of the
/// string.
#[verifier::external_body]
fn push_char(s: &mut String, c: char)
    ensures
        final(s)@ == old(s)@.push(c),
{
    s.push(c);
}

fn hex_char_of(d: u32) -> (c: char)
    requires
        d < 16,
    ensures
        c == hex_char(d as int),
{
    if d == 0 {
        '0'
    } else if d == 1 {
        '1'
    } else if d == 2 {
        '2'
    } else if d == 3 {
        '3'
    } else if d == 4 {
        '4'
    } else if d == 5 {
        '5'
    } else if d == 6 {
        '6'
    } else if d == 7 {
        '7'
    } else if d == 8 {
        '8'
    } else if d == 9 {
        '9'
    } else if d == 10 {
        'a'
    } else if d == 11 {
        'b'
    } else if d == 12 {
        'c'
    } else if d == 13 {
        'd'
    } else if d == 14 {
        'e'
    } else {
        'f'
    }
}

proof fn lemma_escaped_snoc(s: Seq<char>, i: int)
    requires
        0 <= i < s.len(),
    ensures
        escaped(s.take(i + 1)) == escaped(s.take(i)) + escaped_char(s[i]),
{
    let t = s.take(i + 1);
    assert(t.drop_last() =~= s.take(i));
    assert(t.last() == s[i]);
}

fn push_escaped(out: &mut String, s: &str)
    ensures
        final(out)@ == old(out)@ + escaped(s@),
{
    let n = s.unicode_len();
    let mut i: usize = 0;
    proof {
        assert(s@.take(0) =~= Seq::<char>::empty());
        assert(out@ =~= out@ + escaped(s@.take(0)));
    }
    while i < n
        invariant
            i <= n,
            n == s@.len(),
            out@ == old(out)@ + escaped(s@.take(i as int)),
        decreases n - i,
    {
        let c = s.get_char(i);
        proof {
            lemma_escaped_snoc(s@, i as int);
        }
        if c == '"' {
            push_char(out, '\\');
            push_char(out, '"');
            proof {
                assert(out@ =~= old(out)@ + escaped(s@.take(i + 1)));
            }
        } else if c == '\\' {
            push_char(out, '\\');
            push_char(out, '\\');
            proof {
                assert(out@ =~= old(out)@ + escaped(s@.take(i + 1)));
            }
        } else if (c as u32) < 32 {
            let u = c as u32;
            push_char(out, '\\');
            push_char(out, 'u');
            push_char(out, '0');
            push_char(out, '0');
            push_char(out, hex_char_of(u / 16));
            push_char(out, hex_char_of(u % 16));
            proof {
                assert(out@ =~= old(out)@ + escaped(s@.take(i + 1)));
            }
        } else {
            push_char(out, c);
            proof {
                assert(out@ =~= old(out)@ + escaped(s@.take(i + 1)));
            }
        }
        i += 1;
    }
    proof {
        assert(s@.take(n as int) =~= s@);
    }
}

fn push_u64(out: &mut String, n: u64)
    ensures
        final(out)@ == old(out)@ + dec_u64(n as nat),
    decreases n,
{
    if n < 10 {
        let d = n as u32;
        push_char(out, hex_char_of(d));
        proof {
            assert(out@ =~= old(out)@ + dec_u64(n as nat));
        }
    } else {
        push_u64(out, n / 10);
        let d = (n % 10) as u32;
        push_char(out, hex_char_of(d));
        proof {
            assert(out@ =~= old(out)@ + dec_u64(n as nat));
        }
    }
}

fn push_i64(out: &mut String, v: i64)
    ensures
        final(out)@ == old(out)@ + dec_i64(v as int),
{
    if v >= 0 {
        push_u64(out, v as u64);
    } else {
        push_char(out, '-');
        let m: u64 = (-(v as i128)) as u64;
        push_u64(out, m);
        proof {
            assert(m as nat == (-(v as int)) as nat);
            assert(out@ =~= old(out)@ + dec_i64(v as int));
        }
    }
}

fn push_record(out: &mut String, e: &WrappedEntry)
    ensures
        final(out)@ == old(out)@ + record_text(e@.0, e@.1),
{
    push_char(out, '{');
    push_char(out, '"');
    push_char(out, 'k');
    push_char(out, 'e');
    push_char(out, 'y');
    push_char(out, '"');
    push_char(out, ':');
    push_char(out, '"');
    push_escaped(out, e.0.key.as_str());
    push_char(out, '"');
    push_char(out, ',');
    push_char(out, '"');
    push_char(out, 'v');
    push_char(out, 'a');
    push_char(out, 'l');
    push_char(out, 'u');
    push_char(out, 'e');
    push_char(out, '"');
    push_char(out, ':');
    push_i64(out, e.0.value);
    push_char(out, '}');
    proof {
        assert(out@ =~= old(out)@ + record_text(e@.0, e@.1));
    }
}

proof fn lemma_items_snoc(p: Seq<(Seq<char>, i64)>, r: (Seq<char>, i64))
    ensures
        p.len() == 0 ==> items_text(p.push(r)) == record_text(r.0, r.1),
        p.len() >= 1 ==> items_text(p.push(r)) == items_text(p) + seq![','] + record_text(
            r.0,
            r.1,
        ),
{
    let t = p.push(r);
    assert(t.last() == r);
    if p.len() == 0 {
        assert(t.len() == 1);
        assert(t[0] == r);
    } else {
        assert(t.drop_last() =~= p);
    }
}

/// Writes the snapshot text for the given records.
pub fn snapshot_string(entries: &Vec<WrappedEntry>) -> (r: String)
    ensures
        r@ == snapshot_text(wrapped_models(entries@)),
{
    let ghost es = wrapped_models(entries@);
    let mut out = String::new();
    push_char(&mut out, '[');
    let n = entries.len();
    let mut i: usize = 0;
    proof {
        assert(es.take(0) =~= Seq::<(Seq<char>, i64)>::empty());
        assert(out@ =~= seq!['['] + items_text(es.take(0)));
    }
    while i < n
        invariant
            i <= n,
            n == entries@.len(),
            es == wrapped_models(entries@),
            out@ == seq!['['] + items_text(es.take(i as int)),
        decreases n - i,
    {
        proof {
            assert(es.take(i + 1).drop_last() =~= es.take(i as int));
            assert(es.take(i + 1).last() == es[i as int]);
            lemma_items_snoc(es.take(i as int), es[i as int]);
        }
        if i > 0 {
            push_char(&mut out, ',');
        }
        push_record(&mut out, &entries[i]);
        proof {
            assert(es.take(i + 1) =~= es.take(i as int).push(es[i as int]));
            assert(out@ =~= seq!['['] + items_text(es.take(i + 1)));
        }
        i += 1;
    }
    push_char(&mut out, ']');
    proof {
        assert(es.take(n as int) =~= es);
        assert(out@ =~= snapshot_text(es));
    }
    out
}

fn is_digit_c(c: char) -> (r: bool)
    ensures
        r == is_digit(c),
{
    let u = c as u32;
    48 <= u && u <= 57
}

fn is_hex_lower_c(c: char) -> (r: bool)
    ensures
        r == is_hex_lower(c),
{
    let u = c as u32;
    (48 <= u && u <= 57) || (97 <= u && u <= 102)
}

fn hex_val_of(c: char) -> (v: u32)
    requires
        is_hex_lower(c),
    ensures
        v == hex_val(c),
        v < 16,
{
    let u = c as u32;
    if u <= 57 {
        u - 48
    } else {
        u - 87
    }
}

/// Collects the characters of a string slice.
fn chars_of(s: &str) -> (r: Vec<char>)
    ensures
        r@ == s@,
{
    let n = s.unicode_len();
    let mut out: Vec<char> = Vec::new();
    let mut i: usize = 0;
    while i < n
        invariant
            i <= n,
            n == s@.len(),
            out@ == s@.take(i as int),
        decreases n - i,
    {
        out.push(s.get_char(i));
        proof {
            assert(out@ =~= s@.take(i + 1));
        }
        i += 1;
    }
    proof {
        assert(s@.take(n as int) =~= s@);
    }
    out
}

/// Reads a string body at `start`, the escapes undone.
fn parse_str_body(s: &Vec<char>, start: usize) -> (r: Option<(String, usize)>)
    ensures
        match r {
            Some((k, j)) => str_body(s@, start as int, Seq::empty()) == Some((k@, j as int))
                && start < j <= s@.len(),
            None => str_body(s@, start as int, Seq::empty()) is None,
        },
{
    let len = s.len();
    let mut i = start;
    let mut out = String::new();
    loop
        invariant
            len == s@.len(),
            start <= i,
            str_body(s@, start as int, Seq::empty()) == str_body(s@, i as int, out@),
        decreases s@.len() - i,
    {
        if i >= len {
            return None;
        }
        let c = s[i];
        if c == '"' {
            return Some((out, i + 1));
        } else if c == '\\' {
            if len - i > 1 && (s[i + 1] == '"' || s[i + 1] == '\\') {
                push_char(&mut out, s[i + 1]);
                i = i + 2;
            } else if len - i > 5 && s[i + 1] == 'u' && s[i + 2] == '0' && s[i + 3] == '0'
                && is_hex_lower_c(s[i + 4]) && is_hex_lower_c(s[i + 5]) && hex_val_of(s[i + 4]) * 16
                + hex_val_of(s[i + 5]) < 32 {
                let v = hex_val_of(s[i + 4]) * 16 + hex_val_of(s[i + 5]);
                push_char(&mut out, (v as u8) as char);
                i = i + 6;
            } else {
                return None;
            }
        } else {
            push_char(&mut out, c);
            i = i + 1;
        }
    }
}

/// Reads a decimal integer at `start`.
fn parse_int(s: &Vec<char>, start: usize) -> (r: Option<(i64, usize)>)
    ensures
        match r {
            Some((v, j)) => int_at(s@, start as int) == Some((v, j as int)) && start < j
                <= s@.len(),
            None => int_at(s@, start as int) is None,
        },
{
    let len = s.len();
    if start >= len {
        return None;
    }
    let neg = s[start] == '-';
    let first = if neg {
        start + 1
    } else {
        start
    };
    if first >= len || !is_digit_c(s[first]) {
        return None;
    }
    let mut i = first;
    let mut acc: u64 = 0;
    loop
        invariant
            first <= i <= len,
            len == s@.len(),
            start < len,
            neg == (s@[start as int] == '-'),
            first == if neg { start as int + 1 } else { start as int },
            first < len,
            is_digit(s@[first as int]),
            acc <= 0x8000_0000_0000_0000,
            uint_body(s@, first as int, 0) == uint_body(s@, i as int, acc as int),
        ensures
            i <= len,
            uint_body(s@, first as int, 0) == uint_body(s@, i as int, acc as int),
            !(i < len && is_digit(s@[i as int])),
        decreases len - i,
    {
        if i >= len || !is_digit_c(s[i]) {
            break;
        }
        let d = (s[i] as u32) - 48;
        proof {
            assert(is_digit(s@[i as int]));
            assert(digit_val(s@[i as int]) == d);
        }
        let wide: u128 = (acc as u128) * 10 + (d as u128);
        if wide > 0x8000_0000_0000_0000u128 {
            proof {
                assert(digit_val(s@[i as int]) == d);
                assert(uint_body(s@, i as int, acc as int) is None);
                assert(uint_body(s@, first as int, 0) is None);
                assert(int_at(s@, start as int) is None);
            }
            return None;
        }
        acc = wide as u64;
        i = i + 1;
    }
    proof {
        assert(uint_body(s@, i as int, acc as int) == Some((acc as int, i as int)));
    }
    if neg {
        let v: i64 = if acc == 0x8000_0000_0000_0000 {
            i64::MIN
        } else {
            -(acc as i64)
        };
        Some((v, i))
    } else {
        if acc > 0x7FFF_FFFF_FFFF_FFFF {
            return None;
        }
        Some((acc as i64, i))
    }
}

/// Whether the record-opening text stands at `i`.
fn has_key_label(s: &Vec<char>, i: usize) -> (r: bool)
    ensures
        r == match_at(s@, i as int, key_label()),
{
    let len = s.len();
    if i >= len || len - i < 8 {
        return false;
    }
    let ok = s[i] == '{' && s[i + 1] == '"' && s[i + 2] == 'k' && s[i + 3] == 'e' && s[i + 4]
        == 'y' && s[i + 5] == '"' && s[i + 6] == ':' && s[i + 7] == '"';
    proof {
        let sub = s@.subrange(i as int, i as int + 8);
        if ok {
            assert(sub =~= key_label());
        }
        if match_at(s@, i as int, key_label()) {
            assert(s@[i as int] == sub[0]);
            assert(s@[i as int + 1] == sub[1]);
            assert(s@[i as int + 2] == sub[2]);
            assert(s@[i as int + 3] == sub[3]);
            assert(s@[i as int + 4] == sub[4]);
            assert(s@[i as int + 5] == sub[5]);
            assert(s@[i as int + 6] == sub[6]);
            assert(s@[i as int + 7] == sub[7]);
        }
    }
    ok
}

/// Whether the text between key and value stands at `i`.
fn has_mid_label(s: &Vec<char>, i: usize) -> (r: bool)
    ensures
        r == match_at(s@, i as int, mid_label()),
{
    let len = s.len();
    if i >= len || len - i < 9 {
        return false;
    }
    let ok = s[i] == ',' && s[i + 1] == '"' && s[i + 2] == 'v' && s[i + 3] == 'a' && s[i + 4]
        == 'l' && s[i + 5] == 'u' && s[i + 6] == 'e' && s[i + 7] == '"' && s[i + 8] == ':';
    proof {
        let sub = s@.subrange(i as int, i as int + 9);
        if ok {
            assert(sub =~= mid_label());
        }
        if match_at(s@, i as int, mid_label()) {
            assert(s@[i as int] == sub[0]);
            assert(s@[i as int + 1] == sub[1]);
            assert(s@[i as int + 2] == sub[2]);
            assert(s@[i as int + 3] == sub[3]);
            assert(s@[i as int + 4] == sub[4]);
            assert(s@[i as int + 5] == sub[5]);
            assert(s@[i as int + 6] == sub[6]);
            assert(s@[i as int + 7] == sub[7]);
            assert(s@[i as int + 8] == sub[8]);
        }
    }
    ok
}

/// Reads one record at `i`.
fn parse_record(s: &Vec<char>, i: usize) -> (r: Option<(WrappedEntry, usize)>)
    ensures
        match r {
            Some((e, j)) => record_at(s@, i as int) == Some((e@, j as int)) && i < j && j
                <= s@.len(),
            None => record_at(s@, i as int) is None,
        },
{
    let len = s.len();
    if !has_key_label(s, i) {
        return None;
    }
    proof {
        assert(i + 8 <= len);
    }
    match parse_str_body(s, i + 8) {
        None => None,
        Some((k, j)) => {
            if !has_mid_label(s, j) {
                return None;
            }
            proof {
                assert(j + 9 <= len);
            }
            match parse_int(s, j + 9) {
                None => None,
                Some((v, m)) => {
                    if m < s.len() && s[m] == '}' {
                        Some((WrappedEntry(Entry { key: k, value: v }), m + 1))
                    } else {
                        None
                    }
                },
            }
        },
    }
}

/// Reads a whole snapshot text back into its records; `None` for a
/// malformed one.
pub fn parse_snapshot(text: &str) -> (r: Option<Vec<WrappedEntry>>)
    ensures
        match r {
            Some(v) => snapshot_of(text@) == Some(wrapped_models(v@)),
            None => snapshot_of(text@) is None,
        },
{
    let s = chars_of(text);
    let len = s.len();
    if len < 2 || s[0] != '[' {
        return None;
    }
    if len == 2 && s[1] == ']' {
        let out: Vec<WrappedEntry> = Vec::new();
        proof {
            assert(wrapped_models(out@) =~= Seq::<(Seq<char>, i64)>::empty());
        }
        return Some(out);
    }
    let mut i: usize = 1;
    let mut out: Vec<WrappedEntry> = Vec::new();
    proof {
        assert(wrapped_models(out@) =~= Seq::<(Seq<char>, i64)>::empty());
    }
    loop
        invariant
            1 <= i <= len,
            len == s@.len(),
            s@ == text@,
            len > 2 || !(s@[1] == ']'),
            s@.len() >= 2 && s@[0] == '[',
            items_at(s@, 1, Seq::empty()) == items_at(s@, i as int, wrapped_models(out@)),
        decreases len - i,
    {
        match parse_record(&s, i) {
            None => {
                return None;
            },
            Some((e, j)) => {
                let ghost out0 = wrapped_models(out@);
                out.push(e);
                proof {
                    assert(wrapped_models(out@) =~= out0.push(e@));
                }
                if j < len && s[j] == ',' {
                    i = j + 1;
                } else if j < len && s[j] == ']' && j + 1 == len {
                    return Some(out);
                } else {
                    return None;
                }
            },
        }
    }
}

} // verus!
