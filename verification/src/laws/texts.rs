//! Texts: numbers and addresses as they are written, parts and white space, and dates.

use crate::addr::{
    dec_parts, hex, hex4, ip, ipv4, ipv4_text, ipv6, ipv6_full_text, ipv6_text, is_mapped,
    law_ipv4_text, longest_run, normal_text, segment, short_parts, zero_run, zeros, IpAddress,
};
use crate::logging::{
    begins, date_text, day_number, ends, is_date, is_leap, month_len, padded, year_len, year_start,
};
use crate::text::{
    all_digits, dec, dec_value, hex_char, hex_digit, hex_value, is_hex, is_white, join,
    lemma_dec, lemma_dec_unique, lemma_join_split, lemma_split_len, split, trim,
    trim_end, trim_start, u16_value,
};
use crate::wire::{be_bytes, be_value, lemma_be_bytes_len};
use vstd::prelude::*;

verus! {

// ── Parts ─────────────────────────────────────────────────────────────

/// Putting parts together: one part is itself, and each further one follows a separator.
pub proof fn law_joining(parts: Seq<Seq<char>>, more: Seq<char>, c: char)
    ensures
        join(Seq::empty(), c) == Seq::<char>::empty(),
        join(seq![more], c) == more,
        parts.len() > 0 ==> join(parts.push(more), c) == join(parts, c) + seq![c] + more,
{
    assert(parts.push(more).drop_last() =~= parts);
    if parts.len() > 0 {
        assert(join(parts, c).push(c) + more =~= join(parts, c) + seq![c] + more);
    }
}

/// Cutting a text at a separator is the reverse of putting parts together: there is one
/// part at least, none holds the separator, and together they are the text.
pub proof fn law_splitting(s: Seq<char>, c: char)
    ensures
        split(s, c).len() >= 1,
        join(split(s, c), c) == s,
        forall|i: int| 0 <= i < split(s, c).len() ==> !(#[trigger] split(s, c)[i]).contains(c),
    decreases s.len(),
{
    lemma_split_len(s, c);
    lemma_join_split(s, c);
    if s.len() == 0 {
        assert(!Seq::<char>::empty().contains(c));
    } else {
        let less = s.drop_last();
        law_splitting(less, c);
        let p = split(less, c);
        let q = split(s, c);
        assert forall|i: int| 0 <= i < q.len() implies !(#[trigger] q[i]).contains(c) by {
            if s.last() == c {
                if i < p.len() {
                    assert(q[i] == p[i]);
                }
            } else if i < p.len() - 1 {
                assert(q[i] == p[i]);
            } else {
                assert(!p[p.len() - 1].contains(c));
                let last = p.last().push(s.last());
                assert(q[i] == last);
                if last.contains(c) {
                    let j = last.index_of(c);
                    assert(p.last()[j] == c);
                }
            }
        }
    }
}

// ── Numbers ───────────────────────────────────────────────────────────

/// What a decimal digit more does to a number, and that a number is written in digits that
/// stand for it, without a leading zero; there is no other way to write it so.
pub proof fn law_decimal(s: Seq<char>, c: char, n: nat)
    ensures
        dec_value(Seq::empty()) == 0,
        '0' <= c <= '9' ==> dec_value(s.push(c)) == 10 * dec_value(s) + (c as u32 - '0' as u32),
        dec_value(dec(n)) == n,
        dec(n).len() >= 1,
        forall|i: int| 0 <= i < dec(n).len() ==> '0' <= #[trigger] dec(n)[i] <= '9',
        dec(n).len() > 1 ==> dec(n)[0] != '0',
        s.len() >= 1 && (forall|i: int| 0 <= i < s.len() ==> '0' <= #[trigger] s[i] <= '9') && (
        s.len() > 1 ==> s[0] != '0') && dec_value(s) == n ==> s == dec(n),
{
    assert(s.push(c).drop_last() =~= s);
    lemma_dec(n);
    if s.len() >= 1 && (forall|i: int| 0 <= i < s.len() ==> '0' <= #[trigger] s[i] <= '9') && (
    s.len() > 1 ==> s[0] != '0') {
        assert(all_digits(s));
        lemma_dec_unique(s);
    }
}

/// What a hexadecimal digit more does to a number, in lower or upper case.
pub proof fn law_hexadecimal(s: Seq<char>, c: char, n: nat)
    ensures
        hex_value(Seq::empty()) == 0,
        hex_value(s.push(c)) == 16 * hex_value(s) + hex_digit(c),
        '0' <= c <= '9' ==> hex_digit(c) == c as u32 - '0' as u32,
        'a' <= c <= 'f' ==> hex_digit(c) == 10 + (c as u32 - 'a' as u32),
        'A' <= c <= 'F' ==> hex_digit(c) == 10 + (c as u32 - 'A' as u32),
        is_hex(c) <==> '0' <= c <= '9' || 'a' <= c <= 'f' || 'A' <= c <= 'F',
        n < 16 ==> hex_digit(hex_char(n)) == n && ('0' <= hex_char(n) <= '9' || 'a' <= hex_char(n)
            <= 'f'),
{
    assert(s.push(c).drop_last() =~= s);
}

/// Which texts are port numbers: decimal digits, at least one, possibly behind a plus sign,
/// that stand for at most 65535.
pub proof fn law_port_numbers(d: Seq<char>)
    requires
        d.len() > 0 ==> d[0] != '+',
    ensures
        ({
            let good = d.len() >= 1 && (forall|i: int|
                0 <= i < d.len() ==> '0' <= #[trigger] d[i] <= '9') && dec_value(d) <= 65535;
            &&& u16_value(d) is Some <==> good
            &&& u16_value(seq!['+'] + d) is Some <==> good
            &&& good ==> u16_value(d)->Some_0 == dec_value(d)
            &&& good ==> u16_value(seq!['+'] + d)->Some_0 == dec_value(d)
        }),
{
    let p = seq!['+'] + d;
    assert(p.skip(1) =~= d);
    assert(p[0] == '+');
    assert(all_digits(d) <==> forall|i: int| 0 <= i < d.len() ==> '0' <= #[trigger] d[i] <= '9');
}

/// A second sign makes a text no number.
pub proof fn law_one_sign_at_most(d: Seq<char>)
    requires
        d.len() >= 2,
        d[0] == '+',
        d[1] == '+',
    ensures
        u16_value(d) is None,
{
    let rest = d.skip(1);
    assert(rest[0] == '+');
    if all_digits(rest) {
        assert(crate::text::is_digit(rest[0]));
    }
}

// ── White space ───────────────────────────────────────────────────────

/// White space around a text is taken away, and nothing else: what is left is the text,
/// which neither begins nor ends with white space.
pub proof fn law_trimming(before: Seq<char>, s: Seq<char>, after: Seq<char>)
    requires
        forall|i: int| 0 <= i < before.len() ==> is_white(#[trigger] before[i]),
        forall|i: int| 0 <= i < after.len() ==> is_white(#[trigger] after[i]),
        s.len() > 0,
        !is_white(s[0]),
        !is_white(s[s.len() - 1]),
    ensures
        trim(before + s + after) == s,
        trim(before) == Seq::<char>::empty(),
{
    lemma_trim_start(before, s + after);
    assert(before + s + after =~= before + (s + after));
    assert((s + after)[0] == s[0]);
    lemma_trim_end(s, after);
    lemma_trim_blank(before);
}

proof fn lemma_trim_start(before: Seq<char>, rest: Seq<char>)
    requires
        forall|i: int| 0 <= i < before.len() ==> is_white(#[trigger] before[i]),
        rest.len() > 0,
        !is_white(rest[0]),
    ensures
        trim_start(before + rest) == rest,
    decreases before.len(),
{
    let s = before + rest;
    if before.len() == 0 {
        assert(s =~= rest);
    } else {
        assert(s[0] == before[0]);
        let less = before.skip(1);
        assert(s.skip(1) =~= less + rest);
        assert forall|i: int| 0 <= i < less.len() implies is_white(#[trigger] less[i]) by {
            assert(less[i] == before[i + 1]);
        }
        lemma_trim_start(less, rest);
    }
}

proof fn lemma_trim_end(s: Seq<char>, after: Seq<char>)
    requires
        forall|i: int| 0 <= i < after.len() ==> is_white(#[trigger] after[i]),
        s.len() > 0,
        !is_white(s[s.len() - 1]),
    ensures
        trim_end(s + after) == s,
    decreases after.len(),
{
    let t = s + after;
    if after.len() == 0 {
        assert(t =~= s);
    } else {
        assert(t.last() == after[after.len() - 1]);
        let less = after.drop_last();
        assert(t.drop_last() =~= s + less);
        assert forall|i: int| 0 <= i < less.len() implies is_white(#[trigger] less[i]) by {
            assert(less[i] == after[i]);
        }
        lemma_trim_end(s, less);
    }
}

proof fn lemma_trim_blank(s: Seq<char>)
    requires
        forall|i: int| 0 <= i < s.len() ==> is_white(#[trigger] s[i]),
    ensures
        trim_start(s) == Seq::<char>::empty(),
        trim(s) == Seq::<char>::empty(),
    decreases s.len(),
{
    if s.len() > 0 {
        assert(is_white(s[0]));
        let less = s.skip(1);
        assert forall|i: int| 0 <= i < less.len() implies is_white(#[trigger] less[i]) by {
            assert(less[i] == s[i + 1]);
        }
        lemma_trim_blank(less);
    } else {
        assert(s =~= Seq::empty());
    }
}

/// Which characters are white space: the space, the tabs and line ends, and their kin
/// beyond ASCII; no other.
pub proof fn law_white_space(c: char)
    ensures
        ({
            let n = c as u32;
            let ascii = n == 32 || 9 <= n <= 13;
            let beyond = n == 133 || n == 160 || n == 5760 || 8192 <= n <= 8202 || n == 8232 || n
                == 8233 || n == 8239 || n == 8287 || n == 12288;
            is_white(c) <==> ascii || beyond
        }),
{
}

// ── Addresses ─────────────────────────────────────────────────────────

/// An IPv4 address is written as its four octets in decimal, with dots between them, and no
/// other text stands for it.
pub proof fn law_ipv4_is_written(a: u8, b: u8, c: u8, d: u8, s: Seq<char>)
    ensures
        ipv4_text(seq![a, b, c, d]) == dec(a as nat) + seq!['.'] + dec(b as nat) + seq!['.'] + dec(
            c as nat,
        ) + seq!['.'] + dec(d as nat),
        ipv4(s) == Some(seq![a, b, c, d]) <==> s == ipv4_text(seq![a, b, c, d]),
{
    let o = seq![a, b, c, d];
    law_ipv4_text(o, s);
    let p = dec_parts(o);
    let (w, x, y, z) = (dec(a as nat), dec(b as nat), dec(c as nat), dec(d as nat));
    assert(p =~= seq![w, x, y, z]);
    assert(p =~= seq![w, x, y].push(z));
    law_joining(seq![w, x, y], z, '.');
    assert(seq![w, x, y] =~= seq![w, x].push(y));
    law_joining(seq![w, x], y, '.');
    assert(seq![w, x] =~= seq![w].push(x));
    law_joining(seq![w], x, '.');
    law_joining(Seq::empty(), w, '.');
}

/// An IPv6 address that is written out in full has eight groups of four digits.
pub proof fn law_full_groups(octets: Seq<u8>, a: u8, b: u8)
    requires
        octets.len() == 16,
    ensures
        hex4(a, b).len() == 4,
        hex_digit(hex4(a, b)[0]) == a / 16 && hex_digit(hex4(a, b)[1]) == a % 16,
        hex_digit(hex4(a, b)[2]) == b / 16 && hex_digit(hex4(a, b)[3]) == b % 16,
        ipv6_full_text(octets) == join(
            Seq::new(8, |i: int| hex4(octets[2 * i], octets[2 * i + 1])),
            ':',
        ),
{
    assert(Seq::new(8, |i: int| hex4(octets[2 * i], octets[2 * i + 1]))
        =~= crate::addr::full_parts(octets));
}

/// The octets of an address are those of its number.
pub proof fn law_octets(v4: u32, v6: u128)
    ensures
        IpAddress::V4(v4).octets() == be_bytes(v4 as nat, 4),
        IpAddress::V6(v6).octets() == be_bytes(v6 as nat, 16),
        IpAddress::V4(v4).octets().len() == 4,
        IpAddress::V6(v6).octets().len() == 16,
{
    lemma_be_bytes_len(v4 as nat, 4);
    lemma_be_bytes_len(v6 as nat, 16);
}

/// Which address a text stands for: the IPv4 address of a dotted text, else the IPv6
/// address of a text with groups, and none otherwise.
pub proof fn law_which_address(s: Seq<char>)
    ensures
        ipv4(s) is Some ==> ip(s) == Some(IpAddress::V4(be_value(ipv4(s)->Some_0) as u32)),
        ipv4(s) is None && ipv6(s) is Some ==> ip(s) == Some(
            IpAddress::V6(be_value(ipv6(s)->Some_0) as u128),
        ),
        ipv4(s) is None && ipv6(s) is None ==> ip(s) is None,
{
}

/// How an address is written: IPv4, or IPv6 that holds an IPv4 address, with dots; any
/// other IPv6 address in its short form.
pub proof fn law_how_addresses_are_written(v4: u32, v6: u128)
    ensures
        normal_text(IpAddress::V4(v4)) == ipv4_text(IpAddress::V4(v4).octets()),
        ({
            let o = IpAddress::V6(v6).octets();
            let mapped = (forall|i: int| 0 <= i < 10 ==> #[trigger] o[i] == 0) && o[10] == 255
                && o[11] == 255;
            &&& mapped ==> normal_text(IpAddress::V6(v6)) == ipv4_text(o.skip(12))
            &&& !mapped ==> normal_text(IpAddress::V6(v6)) == ipv6_text(o)
        }),
{
    let o = IpAddress::V6(v6).octets();
    lemma_be_bytes_len(v6 as nat, 16);
    let m = zeros(10) + seq![255u8, 255u8];
    let mapped = (forall|i: int| 0 <= i < 10 ==> #[trigger] o[i] == 0) && o[10] == 255 && o[11]
        == 255;
    if mapped {
        assert(o.take(12) =~= m);
    }
    if is_mapped(o) {
        assert forall|i: int| 0 <= i < 10 implies #[trigger] o[i] == 0 by {
            assert(o.take(12)[i] == m[i]);
        }
        assert(o.take(12)[10] == m[10] && o.take(12)[11] == m[11]);
    }
}

/// The short form of an IPv6 address: groups without leading zeros, in lower case; and a
/// pair of colons where the first of the longest rows of two or more zero groups stands.
pub proof fn law_short_form(octets: Seq<u8>, i: int, n: nat)
    requires
        octets.len() == 16,
        0 <= i < 8,
    ensures
        segment(octets, i) == 256 * octets[2 * i] + octets[2 * i + 1],
        hex(n) == (if n < 16 {
            seq![hex_char(n)]
        } else {
            hex(n / 16).push(hex_char(n % 16))
        }),
        zero_run(octets, 8) == 0,
        zero_run(octets, i) == (if octets[2 * i] == 0 && octets[2 * i + 1] == 0 {
            1 + zero_run(octets, i + 1)
        } else {
            0
        }),
        ({
            let at = longest_run(octets);
            let run = zero_run(octets, at);
            &&& 0 <= at < 8
            &&& zero_run(octets, i) <= run
            &&& zero_run(octets, i) == run ==> at <= i
            &&& run >= 2 ==> ipv6_text(octets) == join(short_parts(octets, 0, at), ':') + seq![
                ':',
                ':',
            ] + join(short_parts(octets, at + run, 8), ':')
            &&& run < 2 ==> ipv6_text(octets) == join(short_parts(octets, 0, 8), ':')
        }),
        short_parts(octets, i, 8).len() == 8 - i,
        short_parts(octets, 0, i).len() == i,
        short_parts(octets, 0, 8)[i] == hex((256 * octets[2 * i] + octets[2 * i + 1]) as nat),
        short_parts(octets, i, 8) == short_parts(octets, 0, 8).skip(i),
        short_parts(octets, 0, i) == short_parts(octets, 0, 8).take(i),
{
    assert(short_parts(octets, i, 8) =~= short_parts(octets, 0, 8).skip(i));
    assert(short_parts(octets, 0, i) =~= short_parts(octets, 0, 8).take(i));
    let at = lemma_some_longest(octets, 0);
    assert(crate::addr::is_longest_run(octets, at));
}

proof fn lemma_some_longest(octets: Seq<u8>, i: int) -> (at: int)
    requires
        0 <= i < 8,
    ensures
        i <= at < 8,
        forall|j: int|
            i <= j < 8 ==> #[trigger] zero_run(octets, j) < zero_run(octets, at) || (zero_run(
                octets,
                j,
            ) == zero_run(octets, at) && at <= j),
    decreases 8 - i,
{
    if i == 7 {
        i
    } else {
        let at = lemma_some_longest(octets, i + 1);
        if zero_run(octets, i) >= zero_run(octets, at) {
            i
        } else {
            at
        }
    }
}

// ── Dates ─────────────────────────────────────────────────────────────

/// The calendar: every fourth year is a leap year, but of the full centuries only every
/// fourth; a year has the days of its twelve months.
pub proof fn law_calendar(y: int, m: int, d: int)
    ensures
        is_date(y, m, d) <==> 1 <= m <= 12 && 1 <= d <= month_len(y, m),
        is_leap(y) <==> y % 400 == 0 || (y % 4 == 0 && y % 100 != 0),
        year_len(y) == (if is_leap(y) {
            366int
        } else {
            365
        }),
        month_len(y, 1) == 31 && month_len(y, 3) == 31 && month_len(y, 5) == 31 && month_len(y, 7)
            == 31 && month_len(y, 8) == 31 && month_len(y, 10) == 31 && month_len(y, 12) == 31,
        month_len(y, 4) == 30 && month_len(y, 6) == 30 && month_len(y, 9) == 30 && month_len(y, 11)
            == 30,
        month_len(y, 2) == (if is_leap(y) {
            29int
        } else {
            28
        }),
        year_start(y + 1) == year_start(y) + year_len(y),
{
    let z = y + 1;
    if z > 1970 {
        assert(year_start(z) == year_start(z - 1) + year_len(z - 1));
    } else {
        assert(year_start(y) == year_start(y + 1) - year_len(y));
    }
}

/// Days are counted from the first of January 1970, one by one: the next day of a month, the
/// first of the next month after its last day, and the first of the next year after the
/// last of December.
pub proof fn law_days_follow_one_another(y: int, m: int, d: int)
    requires
        is_date(y, m, d),
    ensures
        1 <= m <= 12 && 1 <= d <= month_len(y, m),
        day_number(1970, 1, 1) == 0,
        d < month_len(y, m) ==> day_number(y, m, d + 1) == day_number(y, m, d) + 1,
        d == month_len(y, m) && m < 12 ==> day_number(y, m + 1, 1) == day_number(y, m, d) + 1,
        d == month_len(y, m) && m == 12 ==> day_number(y + 1, 1, 1) == day_number(y, m, d) + 1,
{
    reveal_with_fuel(crate::logging::month_start, 14);
    law_calendar(y, m, d);
}

/// A date is written as year, month and day with dashes between them; short numbers have
/// zeros before them, so that a year takes four characters and the others two.
pub proof fn law_dates_are_written(y: int, m: int, d: int)
    requires
        1 <= m <= 12,
        1 <= d <= 31,
        0 <= y <= 9999,
    ensures
        ({
            let s = date_text(y, m, d);
            &&& s.len() == 10
            &&& s[4] == '-' && s[7] == '-'
            &&& dec_value(s.take(4)) == y
            &&& dec_value(s.subrange(5, 7)) == m
            &&& dec_value(s.skip(8)) == d
        }),
{
    let s = date_text(y, m, d);
    lemma_padded(y as nat, 4);
    lemma_padded(m as nat, 2);
    lemma_padded(d as nat, 2);
    assert(s.take(4) =~= padded(y, 4));
    assert(s.subrange(5, 7) =~= padded(m, 2));
    assert(s.skip(8) =~= padded(d, 2));
}

/// A number is written with zeros before it until it takes up a width, and without any
/// where it is wide enough; the minus of a negative one counts, and comes first.
pub proof fn law_padding(n: nat, width: nat)
    ensures
        padded(n as int, width).len() == (if dec(n).len() >= width {
            dec(n).len()
        } else {
            width
        }),
        dec(n).len() >= width ==> padded(n as int, width) == dec(n),
        dec(n).len() < width ==> padded(n as int, width) == seq!['0'] + padded(
            n as int,
            (width - 1) as nat,
        ),
        n > 0 && width > 0 ==> padded(-n, width) == seq!['-'] + padded(
            n as int,
            (width - 1) as nat,
        ),
{
    let digits = dec(n);
    if digits.len() >= width {
        assert(padded(n as int, width) =~= digits);
    } else {
        assert(padded(n as int, width) =~= seq!['0'] + padded(n as int, (width - 1) as nat));
    }
    if n > 0 && width > 0 {
        assert(padded(-n, width) =~= seq!['-'] + padded(n as int, (width - 1) as nat));
    }
}

/// A date is its three numbers with dashes between them, whatever the year.
pub proof fn law_parts_of_dates(y: int, m: int, d: int)
    ensures
        date_text(y, m, d) == padded(y, 4) + seq!['-'] + padded(m, 2) + seq!['-'] + padded(d, 2),
{
}

proof fn lemma_padded(n: nat, width: nat)
    requires
        width == 2 && n < 100 || width == 4 && n < 10000,
    ensures
        padded(n as int, width).len() == width,
        dec_value(padded(n as int, width)) == n,
{
    let digits = dec(n);
    lemma_dec(n);
    reveal_with_fuel(dec, 5);
    let missing = (width - digits.len()) as nat;
    let zeros = Seq::new(missing, |i: int| '0');
    assert(padded(n as int, width) =~= zeros + digits);
    lemma_leading_zeros(zeros, digits);
}

proof fn lemma_leading_zeros(zeros: Seq<char>, s: Seq<char>)
    requires
        forall|i: int| 0 <= i < zeros.len() ==> #[trigger] zeros[i] == '0',
    ensures
        dec_value(zeros + s) == dec_value(s),
    decreases s.len(), zeros.len(),
{
    let all = zeros + s;
    if s.len() > 0 {
        assert(all.drop_last() =~= zeros + s.drop_last());
        assert(all.last() == s.last());
        lemma_leading_zeros(zeros, s.drop_last());
    } else if zeros.len() > 0 {
        let less = zeros.drop_last();
        assert forall|i: int| 0 <= i < less.len() implies #[trigger] less[i] == '0' by {
            assert(less[i] == zeros[i]);
        }
        assert(all.drop_last() =~= less + s);
        assert(all.last() == zeros[zeros.len() - 1]);
        lemma_leading_zeros(less, s);
        assert(s =~= Seq::empty());
        assert(dec_value(s) == 0);
    } else {
        assert(all =~= s);
    }
}

/// Which files are log files: those whose names begin with the prefix and end with the
/// suffix, whatever stands between.
pub proof fn law_beginnings_and_endings(s: Seq<char>, t: Seq<char>)
    ensures
        begins(s + t, s),
        ends(s + t, t),
        begins(s, t) ==> exists|rest: Seq<char>| s == #[trigger] (t + rest),
        ends(s, t) ==> exists|rest: Seq<char>| s == #[trigger] (rest + t),
{
    assert((s + t).take(s.len() as int) =~= s);
    assert((s + t).skip(s.len() as int) =~= t);
    if begins(s, t) {
        let rest = s.skip(t.len() as int);
        assert(s =~= t + rest);
    }
    if ends(s, t) {
        let rest = s.take(s.len() - t.len());
        assert(s =~= rest + t);
    }
}

} // verus!
