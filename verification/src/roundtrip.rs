//! The round-trip law of the snapshot format: reading a written snapshot
//! text gives back exactly the records that were written.

use vstd::prelude::*;

use vstd::arithmetic::div_mod::lemma_fundamental_div_mod;

use crate::codec::dec_i64;
use crate::codec::dec_u64;
use crate::codec::digit_char;
use crate::codec::digit_val;
use crate::codec::escaped;
use crate::codec::escaped_char;
use crate::codec::hex_char;
use crate::codec::hex_val;
use crate::codec::int_at;
use crate::codec::is_digit;
use crate::codec::is_hex_lower;
use crate::codec::items_at;
use crate::codec::items_text;
use crate::codec::key_label;
use crate::codec::match_at;
use crate::codec::mid_label;
use crate::codec::record_at;
use crate::codec::record_text;
use crate::codec::snapshot_of;
use crate::codec::snapshot_text;
use crate::codec::str_body;
use crate::codec::uint_body;
use crate::persist::loaded_map;
use crate::persist::pairs_map;

verus! {

/// Ten to the `n`th.
pub open spec fn pow10(n: nat) -> int
    decreases n,
{
    if n == 0 {
        1
    } else {
        10 * pow10((n - 1) as nat)
    }
}

/// The number a sequence of digit characters stands for.
pub open spec fn digits_val(d: Seq<char>) -> int
    decreases d.len(),
{
    if d.len() == 0 {
        0
    } else {
        digits_val(d.drop_last()) * 10 + digit_val(d.last())
    }
}

/// Whether every character of `d` is a decimal digit.
pub open spec fn all_digits(d: Seq<char>) -> bool {
    forall|t: int| 0 <= t < d.len() ==> is_digit(d[t])
}

proof fn lemma_hex_char_facts(d: int)
    requires
        0 <= d < 16,
    ensures
        is_hex_lower(hex_char(d)),
        hex_val(hex_char(d)) == d,
        hex_char(d) != '"',
        hex_char(d) != '\\',
{
}

proof fn lemma_escaped_append(a: Seq<char>, b: Seq<char>)
    ensures
        escaped(a + b) == escaped(a) + escaped(b),
    decreases b.len(),
{
    if b.len() == 0 {
        assert(a + b =~= a);
        assert(escaped(b) =~= Seq::<char>::empty());
        assert(escaped(a) + escaped(b) =~= escaped(a));
    } else {
        assert((a + b).drop_last() =~= a + b.drop_last());
        assert((a + b).last() == b.last());
        lemma_escaped_append(a, b.drop_last());
        assert(escaped(a + b) =~= escaped(a) + escaped(b));
    }
}

proof fn lemma_escaped_first(k: Seq<char>)
    requires
        k.len() >= 1,
    ensures
        escaped(k) == escaped_char(k[0]) + escaped(k.subrange(1, k.len() as int)),
{
    let head = seq![k[0]];
    let rest = k.subrange(1, k.len() as int);
    assert(k =~= head + rest);
    lemma_escaped_append(head, rest);
    assert(head.drop_last() =~= Seq::<char>::empty());
    assert(head.last() == k[0]);
    assert(escaped(Seq::<char>::empty()) =~= Seq::<char>::empty());
    assert(escaped(head) =~= escaped_char(k[0]));
}

proof fn lemma_str_body_of_escaped(s: Seq<char>, p: int, acc: Seq<char>, k: Seq<char>)
    requires
        0 <= p,
        p + escaped(k).len() + 1 <= s.len(),
        s.subrange(p, p + escaped(k).len()) == escaped(k),
        s[p + escaped(k).len()] == '"',
    ensures
        str_body(s, p, acc) == Some((acc + k, p + escaped(k).len() + 1)),
    decreases k.len(),
{
    if k.len() == 0 {
        assert(escaped(k).len() == 0);
        assert(s[p] == '"');
        assert(acc + k =~= acc);
    } else {
        let c = k[0];
        let rest = k.subrange(1, k.len() as int);
        lemma_escaped_first(k);
        let ec = escaped_char(c);
        let le = ec.len() as int;
        let lr = escaped(rest).len() as int;
        assert(escaped(k).len() == le + lr);
        assert forall|t: int| 0 <= t < le implies s[p + t] == ec[t] by {
            assert(s[p + t] == s.subrange(p, p + le + lr)[t]);
            assert((ec + escaped(rest))[t] == ec[t]);
        }
        assert forall|t: int| 0 <= t < lr implies s[p + le + t] == escaped(rest)[t] by {
            assert(s[p + le + t] == s.subrange(p, p + le + lr)[le + t]);
            assert((ec + escaped(rest))[le + t] == escaped(rest)[t]);
        }
        assert(s.subrange(p + le, p + le + lr) =~= escaped(rest));
        assert(s[p + le + lr] == '"');
        lemma_str_body_of_escaped(s, p + le, acc.push(c), rest);
        assert(acc.push(c) + rest =~= acc + k);
        if c == '"' {
            assert(ec =~= seq!['\\', '"']);
            assert(s[p] == '\\' && s[p + 1] == '"');
            assert(str_body(s, p, acc) == str_body(s, p + 2, acc.push(c)));
        } else if c == '\\' {
            assert(ec =~= seq!['\\', '\\']);
            assert(s[p] == '\\' && s[p + 1] == '\\');
            assert(str_body(s, p, acc) == str_body(s, p + 2, acc.push(c)));
        } else if (c as u32) < 32 {
            let hi = c as u32 as int / 16;
            let lo = c as u32 as int % 16;
            assert(ec =~= seq!['\\', 'u', '0', '0', hex_char(hi), hex_char(lo)]);
            lemma_hex_char_facts(hi);
            lemma_hex_char_facts(lo);
            assert(s[p] == '\\' && s[p + 1] == 'u' && s[p + 2] == '0' && s[p + 3] == '0');
            assert(s[p + 4] == hex_char(hi) && s[p + 5] == hex_char(lo));
            lemma_fundamental_div_mod(c as u32 as int, 16);
            assert(hex_val(s[p + 4]) * 16 + hex_val(s[p + 5]) == c as u32);
            assert((((hex_val(s[p + 4]) * 16 + hex_val(s[p + 5])) as u8) as char) == c) by {
                let x = hex_val(s[p + 4]) * 16 + hex_val(s[p + 5]);
                assert(x == c as u32 as int);
                assert(0 <= x < 32);
                let y = (x as u8) as char;
                assert(y as u32 == x);
                assert(c as u32 == x);
                vstd::utf8::char_u32_cast(c, c as u32);
                vstd::utf8::char_u32_cast(y, y as u32);
                assert(y == c);
            }
            assert(str_body(s, p, acc) == str_body(s, p + 6, acc.push(c)));
        } else {
            assert(ec =~= seq![c]);
            assert(s[p] == s.subrange(p, p + le + lr)[0]);
            assert(s[p] == c);
            assert(str_body(s, p, acc) == str_body(s, p + 1, acc.push(c)));
        }
    }
}

proof fn lemma_dec_u64_digits(m: nat)
    ensures
        dec_u64(m).len() >= 1,
        all_digits(dec_u64(m)),
        digits_val(dec_u64(m)) == m,
    decreases m,
{
    if m < 10 {
        assert(digit_val(digit_char(m as int)) == m);
        assert(dec_u64(m) =~= seq![digit_char(m as int)]);
        assert(dec_u64(m).drop_last() =~= Seq::<char>::empty());
        assert(digits_val(Seq::<char>::empty()) == 0);
    } else {
        lemma_fundamental_div_mod(m as int, 10);
        lemma_dec_u64_digits(m / 10);
        let d = dec_u64(m);
        assert(d =~= dec_u64(m / 10).push(digit_char((m % 10) as int)));
        assert(d.drop_last() =~= dec_u64(m / 10));
        assert(digit_val(digit_char((m % 10) as int)) == m % 10);
        assert forall|t: int| 0 <= t < d.len() implies is_digit(d[t]) by {
            if t < d.len() - 1 {
                assert(d[t] == dec_u64(m / 10)[t]);
            }
        }
    }
}

proof fn lemma_pow10_pos(n: nat)
    ensures
        pow10(n) >= 1,
    decreases n,
{
    if n > 0 {
        lemma_pow10_pos((n - 1) as nat);
    }
}

proof fn lemma_digits_val_front(d: Seq<char>)
    requires
        d.len() >= 1,
    ensures
        digits_val(d) == digit_val(d[0]) * pow10((d.len() - 1) as nat) + digits_val(
            d.subrange(1, d.len() as int),
        ),
    decreases d.len(),
{
    if d.len() == 1 {
        assert(d.drop_last() =~= Seq::<char>::empty());
        assert(d.subrange(1, 1) =~= Seq::<char>::empty());
    } else {
        let p = d.drop_last();
        let q = d.subrange(1, d.len() as int);
        lemma_digits_val_front(p);
        assert(p[0] == d[0]);
        assert(p.subrange(1, p.len() as int) =~= q.drop_last());
        assert(q.last() == d.last());
        let n1 = (p.len() - 1) as nat;
        let a0 = digit_val(d[0]);
        let vr = digits_val(p.subrange(1, p.len() as int));
        assert(digits_val(p) == a0 * pow10(n1) + vr);
        assert(digits_val(d) == digits_val(p) * 10 + digit_val(d.last()));
        assert(digits_val(q) == vr * 10 + digit_val(d.last()));
        assert((a0 * pow10(n1) + vr) * 10 == a0 * pow10(n1) * 10 + vr * 10) by (nonlinear_arith);
        assert(a0 * pow10(n1) * 10 == a0 * (pow10(n1) * 10)) by (nonlinear_arith);
        assert(pow10(n1) * 10 == pow10((d.len() - 1) as nat));
        assert(digits_val(d) == a0 * pow10((d.len() - 1) as nat) + digits_val(q));
    }
}

proof fn lemma_uint_body_digits(s: Seq<char>, p: int, a: int, d: Seq<char>)
    requires
        0 <= p,
        0 <= a,
        p + d.len() <= s.len(),
        s.subrange(p, p + d.len()) == d,
        all_digits(d),
        p + d.len() == s.len() || !is_digit(s[p + d.len()]),
        a * pow10(d.len()) + digits_val(d) <= 0x8000_0000_0000_0000,
    ensures
        uint_body(s, p, a) == Some((a * pow10(d.len()) + digits_val(d), p + d.len())),
    decreases d.len(),
{
    lemma_pow10_pos(d.len());
    if d.len() == 0 {
        assert(a * 1 + 0 == a);
        if p < s.len() {
            assert(!is_digit(s[p]));
        }
    } else {
        let c = d[0];
        let rest = d.subrange(1, d.len() as int);
        assert(s[p] == s.subrange(p, p + d.len())[0]);
        assert(s[p] == c);
        assert(is_digit(c));
        lemma_digits_val_front(d);
        let a2 = a * 10 + digit_val(c);
        let n1 = (d.len() - 1) as nat;
        assert(digits_val(rest) >= 0) by {
            lemma_digits_val_nonneg(rest);
        }
        assert(a2 * pow10(n1) == a * 10 * pow10(n1) + digit_val(c) * pow10(n1))
            by (nonlinear_arith)
            requires
                a2 == a * 10 + digit_val(c),
        ;
        assert(a * 10 * pow10(n1) == a * (10 * pow10(n1))) by (nonlinear_arith);
        assert(10 * pow10(n1) == pow10(d.len()));
        assert(a2 * pow10(n1) + digits_val(rest) == a * pow10(d.len()) + digits_val(d))
            by (nonlinear_arith)
            requires
                a2 == a * 10 + digit_val(c),
                digits_val(d) == digit_val(c) * pow10(n1) + digits_val(rest),
                pow10(d.len()) == 10 * pow10(n1),
        ;
        lemma_pow10_pos(n1);
        assert(a2 <= a2 * pow10(n1)) by (nonlinear_arith)
            requires
                a2 >= 0,
                pow10(n1) >= 1,
        ;
        assert(a2 <= 0x8000_0000_0000_0000);
        assert forall|t: int| 0 <= t < rest.len() implies s[p + 1 + t] == rest[t] by {
            assert(s[p + 1 + t] == s.subrange(p, p + d.len())[1 + t]);
        }
        assert(s.subrange(p + 1, p + 1 + rest.len()) =~= rest);
        lemma_uint_body_digits(s, p + 1, a2, rest);
        assert(uint_body(s, p, a) == uint_body(s, p + 1, a2));
    }
}

proof fn lemma_digits_val_nonneg(d: Seq<char>)
    requires
        all_digits(d),
    ensures
        digits_val(d) >= 0,
    decreases d.len(),
{
    if d.len() > 0 {
        assert forall|t: int| 0 <= t < d.drop_last().len() implies is_digit(d.drop_last()[t]) by {
            assert(d.drop_last()[t] == d[t]);
        }
        lemma_digits_val_nonneg(d.drop_last());
        assert(is_digit(d.last()));
    }
}

proof fn lemma_int_at_of_dec(s: Seq<char>, p: int, v: i64)
    requires
        0 <= p,
        p + dec_i64(v as int).len() < s.len(),
        s.subrange(p, p + dec_i64(v as int).len()) == dec_i64(v as int),
        !is_digit(s[p + dec_i64(v as int).len()]),
    ensures
        int_at(s, p) == Some((v, p + dec_i64(v as int).len())),
{
    let num = dec_i64(v as int);
    if v < 0 {
        let m = (-(v as int)) as nat;
        let dm = dec_u64(m);
        lemma_dec_u64_digits(m);
        assert(num =~= seq!['-'] + dm);
        assert(s[p] == s.subrange(p, p + num.len())[0]);
        assert(s[p] == '-');
        assert forall|t: int| 0 <= t < dm.len() implies s[p + 1 + t] == dm[t] by {
            assert(s[p + 1 + t] == s.subrange(p, p + num.len())[1 + t]);
        }
        assert(s.subrange(p + 1, p + 1 + dm.len()) =~= dm);
        assert(s[p + 1] == dm[0]);
        assert(is_digit(s[p + 1]));
        assert(0 * pow10(dm.len()) + digits_val(dm) == m);
        lemma_uint_body_digits(s, p + 1, 0, dm);
        assert(uint_body(s, p + 1, 0) == Some((m as int, p + 1 + dm.len())));
        assert((-(m as int)) as i64 == v);
    } else {
        let m = v as nat;
        let dm = dec_u64(m);
        lemma_dec_u64_digits(m);
        assert(num =~= dm);
        assert(s[p] == s.subrange(p, p + num.len())[0]);
        assert(s[p] == dm[0]);
        assert(is_digit(s[p]));
        assert(s[p] != '-');
        assert(0 * pow10(dm.len()) + digits_val(dm) == m);
        lemma_uint_body_digits(s, p, 0, dm);
        assert(uint_body(s, p, 0) == Some((m as int, p + dm.len())));
        assert(m as int <= 0x7FFF_FFFF_FFFF_FFFF);
        assert(m as i64 == v);
    }
}

proof fn lemma_dec_i64_len(v: i64)
    ensures
        dec_i64(v as int).len() >= 1,
{
    if v < 0 {
        lemma_dec_u64_digits((-(v as int)) as nat);
    } else {
        lemma_dec_u64_digits(v as nat);
    }
}

proof fn lemma_record_at_of_text(s: Seq<char>, i: int, k: Seq<char>, v: i64)
    requires
        0 <= i,
        i + record_text(k, v).len() <= s.len(),
        s.subrange(i, i + record_text(k, v).len()) == record_text(k, v),
    ensures
        record_text(k, v).len() >= 20,
        record_at(s, i) == Some(((k, v), i + record_text(k, v).len())),
{
    let rt = record_text(k, v);
    let ek = escaped(k);
    let le = ek.len() as int;
    let num = dec_i64(v as int);
    let ln = num.len() as int;
    lemma_dec_i64_len(v);
    let part1 = key_label() + ek;
    let part2 = part1 + seq!['"'];
    let part3 = part2 + mid_label();
    let part4 = part3 + num;
    assert(rt =~= part4 + seq!['}']);
    assert(rt.len() == 19 + le + ln);
    assert forall|t: int| 0 <= t < rt.len() implies s[i + t] == rt[t] by {
        assert(s[i + t] == s.subrange(i, i + rt.len())[t]);
    }
    // The opening label.
    assert forall|t: int| 0 <= t < 8 implies s[i + t] == key_label()[t] by {
        assert(rt[t] == part4[t]);
        assert(part4[t] == part3[t]);
        assert(part3[t] == part2[t]);
        assert(part2[t] == part1[t]);
        assert(part1[t] == key_label()[t]);
    }
    assert(s.subrange(i, i + 8) =~= key_label());
    assert(match_at(s, i, key_label()));
    // The escaped key, then its closing quote.
    assert forall|t: int| 0 <= t < le implies s[i + 8 + t] == ek[t] by {
        assert(rt[8 + t] == part4[8 + t]);
        assert(part4[8 + t] == part3[8 + t]);
        assert(part3[8 + t] == part2[8 + t]);
        assert(part2[8 + t] == part1[8 + t]);
        assert(part1[8 + t] == ek[t]);
    }
    assert(s.subrange(i + 8, i + 8 + le) =~= ek);
    assert(s[i + 8 + le] == '"') by {
        assert(rt[8 + le] == part4[8 + le]);
        assert(part4[8 + le] == part3[8 + le]);
        assert(part3[8 + le] == part2[8 + le]);
        assert(part2[8 + le] == '"');
    }
    lemma_str_body_of_escaped(s, i + 8, Seq::empty(), k);
    assert(Seq::empty() + k =~= k);
    let j = i + 8 + le + 1;
    assert(str_body(s, i + 8, Seq::empty()) == Some((k, j)));
    // The label between key and value.
    assert forall|t: int| 0 <= t < 9 implies s[j + t] == mid_label()[t] by {
        assert(rt[9 + le + t] == part4[9 + le + t]);
        assert(part4[9 + le + t] == part3[9 + le + t]);
        assert(part3[9 + le + t] == mid_label()[t]);
    }
    assert(s.subrange(j, j + 9) =~= mid_label());
    assert(match_at(s, j, mid_label()));
    // The value's digits, then the closing brace.
    assert forall|t: int| 0 <= t < ln implies s[j + 9 + t] == num[t] by {
        assert(rt[18 + le + t] == part4[18 + le + t]);
        assert(part4[18 + le + t] == num[t]);
    }
    assert(s.subrange(j + 9, j + 9 + ln) =~= num);
    assert(s[j + 9 + ln] == '}') by {
        assert(part4.len() == 18 + le + ln);
        assert(rt[18 + le + ln] == '}');
    }
    assert(!is_digit('}'));
    lemma_int_at_of_dec(s, j + 9, v);
    assert(int_at(s, j + 9) == Some((v, j + 9 + ln)));
    let m = j + 9 + ln;
    assert(0 <= m < s.len() && s[m] == '}');
    assert(record_at(s, i) == Some(((k, v), m + 1)));
    assert(m + 1 == i + rt.len());
}

proof fn lemma_items_text_front(es: Seq<(Seq<char>, i64)>)
    requires
        es.len() >= 2,
    ensures
        items_text(es) == record_text(es[0].0, es[0].1) + seq![','] + items_text(
            es.subrange(1, es.len() as int),
        ),
    decreases es.len(),
{
    let rest = es.subrange(1, es.len() as int);
    if es.len() == 2 {
        assert(es.drop_last() =~= seq![es[0]]);
        assert(items_text(seq![es[0]]) == record_text(es[0].0, es[0].1));
        assert(rest =~= seq![es[1]]);
        assert(items_text(rest) == record_text(es[1].0, es[1].1));
    } else {
        let p = es.drop_last();
        lemma_items_text_front(p);
        assert(p[0] == es[0]);
        assert(p.subrange(1, p.len() as int) =~= rest.drop_last());
        assert(rest.last() == es.last());
        assert(rest.len() >= 2);
        assert(items_text(rest) == items_text(rest.drop_last()) + seq![','] + record_text(
            rest.last().0,
            rest.last().1,
        ));
        assert(items_text(es) =~= record_text(es[0].0, es[0].1) + seq![','] + items_text(rest));
    }
}

proof fn lemma_items_at_of_text(
    s: Seq<char>,
    i: int,
    acc: Seq<(Seq<char>, i64)>,
    es: Seq<(Seq<char>, i64)>,
)
    requires
        es.len() >= 1,
        0 <= i <= s.len(),
        s.subrange(i, s.len() as int) == items_text(es) + seq![']'],
    ensures
        items_at(s, i, acc) == Some(acc + es),
    decreases es.len(),
{
    let tail = items_text(es) + seq![']'];
    assert(s.len() - i == tail.len());
    assert forall|t: int| 0 <= t < tail.len() implies s[i + t] == tail[t] by {
        assert(s[i + t] == s.subrange(i, s.len() as int)[t]);
    }
    if es.len() == 1 {
        let rt = record_text(es[0].0, es[0].1);
        assert(items_text(es) == rt);
        assert forall|t: int| 0 <= t < rt.len() implies s[i + t] == rt[t] by {
            assert(tail[t] == rt[t]);
        }
        assert(s.subrange(i, i + rt.len()) =~= rt);
        lemma_record_at_of_text(s, i, es[0].0, es[0].1);
        let j = i + rt.len();
        assert(s[j] == ']') by {
            assert(tail[rt.len() as int] == ']');
        }
        assert(j + 1 == s.len());
        assert(']' != ',');
        assert(items_at(s, i, acc) == Some(acc.push(es[0])));
        assert(acc.push(es[0]) =~= acc + es);
    } else {
        lemma_items_text_front(es);
        let rest = es.subrange(1, es.len() as int);
        let rt = record_text(es[0].0, es[0].1);
        let mid = rt + seq![','];
        assert(tail =~= rt + seq![','] + (items_text(rest) + seq![']']));
        assert forall|t: int| 0 <= t < rt.len() implies s[i + t] == rt[t] by {
            assert(tail[t] == (rt + seq![','] + (items_text(rest) + seq![']']))[t]);
            assert(tail[t] == rt[t]);
        }
        assert(s.subrange(i, i + rt.len()) =~= rt);
        lemma_record_at_of_text(s, i, es[0].0, es[0].1);
        let j = i + rt.len();
        assert(s[j] == ',') by {
            assert(tail[rt.len() as int] == ',');
        }
        assert(j < s.len());
        assert forall|t: int| 0 <= t < items_text(rest).len() + 1 implies s[j + 1 + t]
            == (items_text(rest) + seq![']'])[t] by {
            assert(tail[rt.len() + 1 + t] == (items_text(rest) + seq![']'])[t]);
        }
        assert(s.subrange(j + 1, s.len() as int) =~= items_text(rest) + seq![']']);
        lemma_items_at_of_text(s, j + 1, acc.push(es[0]), rest);
        assert(items_at(s, i, acc) == items_at(s, j + 1, acc.push(es[0])));
        assert(acc.push(es[0]) + rest =~= acc + es);
    }
}

/// The round-trip law: the records read back from a written snapshot
/// text are exactly the records written.
pub proof fn lemma_snapshot_round_trip(es: Seq<(Seq<char>, i64)>)
    ensures
        snapshot_of(snapshot_text(es)) == Some(es),
{
    let s = snapshot_text(es);
    assert(s.len() == items_text(es).len() + 2);
    assert(s[0] == '[');
    if es.len() == 0 {
        assert(items_text(es) == Seq::<char>::empty());
        assert(s.len() == 2);
        assert(s[1] == ']');
        assert(snapshot_of(s) == Some(Seq::<(Seq<char>, i64)>::empty()));
        assert(es =~= Seq::<(Seq<char>, i64)>::empty());
    } else {
        if es.len() == 1 {
            assert(items_text(es) == record_text(es[0].0, es[0].1));
        } else {
            lemma_items_text_front(es);
        }
        assert(items_text(es).len() >= 1) by {
            if es.len() == 1 {
                assert(items_text(es) == record_text(es[0].0, es[0].1));
            }
        }
        assert(s.len() > 2);
        assert forall|t: int| 0 <= t < items_text(es).len() + 1 implies s[1 + t] == (items_text(es)
            + seq![']'])[t] by {
            assert(s[1 + t] == (seq!['['] + items_text(es) + seq![']'])[1 + t]);
        }
        assert(s.subrange(1, s.len() as int) =~= items_text(es) + seq![']']);
        lemma_items_at_of_text(s, 1, Seq::empty(), es);
        assert(Seq::empty() + es =~= es);
        assert(snapshot_of(s) == items_at(s, 1, Seq::empty()));
    }
}

/// Saving then loading: a written snapshot text loads back to exactly
/// the mapping of the records that were written.
pub proof fn lemma_save_then_load(es: Seq<(Seq<char>, i64)>)
    ensures
        loaded_map(Some(snapshot_text(es))) == pairs_map(es),
{
    lemma_snapshot_round_trip(es);
}

} // verus!
