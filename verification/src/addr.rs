//! IP addresses and their text forms.
//!
//! An address is a run of octets: four of them for IPv4, sixteen for IPv6.

use crate::text::{
    all_digits, ascii_string, chars_of, dec, dec_value, hex_char, hex_digit, hex_value, is_digit, is_hex,
    join, lemma_dec, lemma_dec_unique, lemma_join_split, lemma_split_join, part_views, push_dec,
    read_digits, split, split_at, to_hex_char,
};
use crate::wire::{
    be_bytes, be_value, lemma_be_bytes_len, lemma_be_round_trip, lemma_be_round_trip_back,
    lemma_pow256_values, pow256,
};
use vstd::prelude::*;
use vstd::utf8::is_ascii_chars;

verus! {

// ── IPv4 ──────────────────────────────────────────────────────────────

/// The octet that a decimal number stands for. A leading zero is not accepted.
pub open spec fn octet(s: Seq<char>) -> Option<u8> {
    if 1 <= s.len() <= 3 && all_digits(s) && (s.len() > 1 ==> s[0] != '0') && dec_value(s) <= 255 {
        Some(dec_value(s) as u8)
    } else {
        None
    }
}

/// Every part of a dotted text is an octet.
pub open spec fn all_octets(parts: Seq<Seq<char>>) -> bool {
    forall|i: int| 0 <= i < parts.len() ==> octet(#[trigger] parts[i]) is Some
}

/// The four octets that a dotted text stands for.
pub open spec fn ipv4(s: Seq<char>) -> Option<Seq<u8>> {
    let parts = split(s, '.');
    if parts.len() == 4 && all_octets(parts) {
        Some(parts.map_values(|p: Seq<char>| octet(p)->Some_0))
    } else {
        None
    }
}

/// Octets in decimal.
pub open spec fn dec_parts(octets: Seq<u8>) -> Seq<Seq<char>> {
    octets.map_values(|o: u8| dec(o as nat))
}

/// The dotted text of four octets.
pub open spec fn ipv4_text(octets: Seq<u8>) -> Seq<char> {
    join(dec_parts(octets), '.')
}

/// Dotted texts and runs of four octets stand for one another.
pub proof fn law_ipv4_text(octets: Seq<u8>, s: Seq<char>)
    requires
        octets.len() == 4,
    ensures
        ipv4(ipv4_text(octets)) == Some(octets),
        ipv4(s) == Some(octets) ==> s == ipv4_text(octets),
{
    let parts = dec_parts(octets);
    assert forall|i: int| 0 <= i < parts.len() implies octet(#[trigger] parts[i]) == Some(
        octets[i],
    ) && !parts[i].contains('.') by {
        lemma_octet_dec(octets[i]);
    }
    lemma_split_join(parts, '.');
    assert(parts.map_values(|p: Seq<char>| octet(p)->Some_0) =~= octets);
    if ipv4(s) == Some(octets) {
        let given = split(s, '.');
        assert forall|i: int| 0 <= i < 4 implies #[trigger] given[i] == parts[i] by {
            assert(octet(given[i]) is Some);
            assert(given.map_values(|p: Seq<char>| octet(p)->Some_0)[i] == octets[i]);
            lemma_dec_unique(given[i]);
        }
        assert(given =~= parts);
        lemma_join_split(s, '.');
    }
}

/// An octet in decimal is an octet, and has no dot or colon in it.
proof fn lemma_octet_dec(o: u8)
    ensures
        octet(dec(o as nat)) == Some(o),
        !dec(o as nat).contains('.'),
        !dec(o as nat).contains(':'),
        1 <= dec(o as nat).len() <= 3,
{
    let s = dec(o as nat);
    lemma_dec(o as nat);
    reveal_with_fuel(dec, 4);
    if s.contains('.') {
        assert(is_digit(s[s.index_of('.')]));
    }
    if s.contains(':') {
        assert(is_digit(s[s.index_of(':')]));
    }
}

/// Reads an octet in decimal.
fn read_octet(s: &Vec<char>) -> (r: Option<u8>)
    ensures
        r == octet(s@),
{
    if s.len() < 1 || s.len() > 3 || (s.len() > 1 && s[0] == '0') {
        return None;
    }
    assert(s@.skip(0) =~= s@);
    match read_digits(s, 0, 255) {
        Some(v) => Some(v as u8),
        None => None,
    }
}

/// Reads a dotted text.
pub fn parse_ipv4(s: &Vec<char>) -> (r: Option<Vec<u8>>)
    ensures
        r is Some <==> ipv4(s@) is Some,
        r is Some ==> r->Some_0@ == ipv4(s@)->Some_0 && r->Some_0@.len() == 4,
{
    let parts = split_at(s, '.');
    let ghost want = split(s@, '.');
    if parts.len() != 4 {
        return None;
    }
    let mut octets: Vec<u8> = Vec::new();
    let mut i: usize = 0;
    while i < 4
        invariant
            i <= 4,
            parts@.len() == 4,
            want == part_views(parts@),
            want == split(s@, '.'),
            octets@.len() == i,
            forall|j: int| 0 <= j < i ==> octet(#[trigger] want[j]) == Some(octets@[j]),
        decreases 4 - i,
    {
        assert(want[i as int] == parts@[i as int]@);
        match read_octet(&parts[i]) {
            Some(o) => {
                octets.push(o);
            },
            None => {
                assert(!all_octets(want));
                return None;
            },
        }
        i = i + 1;
    }
    proof {
        assert(all_octets(want)) by {
            assert forall|j: int| 0 <= j < want.len() implies octet(#[trigger] want[j]) is Some by {
                assert(octet(want[j]) == Some(octets@[j]));
            }
        }
        assert(octets@ =~= ipv4(s@)->Some_0);
    }
    Some(octets)
}

/// Appends the dotted text of four octets.
pub fn push_ipv4(out: &mut Vec<char>, octets: &[u8])
    requires
        octets@.len() == 4,
    ensures
        final(out)@ == old(out)@ + ipv4_text(octets@),
{
    push_dec(out, octets[0] as u64);
    out.push('.');
    push_dec(out, octets[1] as u64);
    out.push('.');
    push_dec(out, octets[2] as u64);
    out.push('.');
    push_dec(out, octets[3] as u64);
    proof {
        let p = dec_parts(octets@);
        reveal_with_fuel(join, 5);
        assert(p.drop_last().drop_last().drop_last() =~= seq![p[0]]);
        assert(p.drop_last().drop_last() =~= seq![p[0], p[1]]);
        assert(p.drop_last() =~= seq![p[0], p[1], p[2]]);
        assert(out@ =~= old(out)@ + ipv4_text(octets@));
    }
}

// ── IPv6 ──────────────────────────────────────────────────────────────

/// Nothing but hexadecimal digits.
pub open spec fn all_hex(s: Seq<char>) -> bool {
    forall|i: int| 0 <= i < s.len() ==> is_hex(#[trigger] s[i])
}

/// The two octets that a group of one to four hexadecimal digits stands for.
pub open spec fn group(s: Seq<char>) -> Option<Seq<u8>> {
    if 1 <= s.len() <= 4 && all_hex(s) {
        Some(be_bytes(hex_value(s), 2))
    } else {
        None
    }
}

/// The octets of a list of groups.
pub open spec fn groups(parts: Seq<Seq<char>>) -> Option<Seq<u8>>
    decreases parts.len(),
{
    if parts.len() == 0 {
        Some(Seq::empty())
    } else {
        match (groups(parts.drop_last()), group(parts.last())) {
            (Some(before), Some(last)) => Some(before + last),
            _ => None,
        }
    }
}

/// The octets of a list of groups, the last of which may be a dotted IPv4 text.
pub open spec fn groups_v4(parts: Seq<Seq<char>>) -> Option<Seq<u8>> {
    if parts.len() > 0 && ipv4(parts.last()) is Some {
        match groups(parts.drop_last()) {
            Some(before) => Some(before + ipv4(parts.last())->Some_0),
            None => None,
        }
    } else {
        groups(parts)
    }
}

/// Where the first pair of colons at `from` or later begins, or the end of the text.
pub open spec fn colons(s: Seq<char>, from: int) -> int
    decreases s.len() - from,
{
    if from + 1 >= s.len() {
        s.len() as int
    } else if s[from] == ':' && s[from + 1] == ':' {
        from
    } else {
        colons(s, from + 1)
    }
}

/// The groups on one side of a pair of colons.
pub open spec fn side(s: Seq<char>) -> Seq<Seq<char>> {
    if s.len() == 0 {
        Seq::empty()
    } else {
        split(s, ':')
    }
}

/// As many zero octets.
pub open spec fn zeros(n: int) -> Seq<u8> {
    Seq::new(n as nat, |i: int| 0u8)
}

/// The sixteen octets that an IPv6 text stands for: eight groups, or fewer around a
/// pair of colons that stands for one zero group or more.
pub open spec fn ipv6(s: Seq<char>) -> Option<Seq<u8>> {
    let at = colons(s, 0);
    if at < s.len() {
        match (groups(side(s.take(at))), groups_v4(side(s.skip(at + 2)))) {
            (Some(head), Some(tail)) => if head.len() + tail.len() <= 14 {
                Some(head + zeros(16 - head.len() - tail.len()) + tail)
            } else {
                None
            },
            _ => None,
        }
    } else {
        match groups_v4(split(s, ':')) {
            Some(all) => if all.len() == 16 {
                Some(all)
            } else {
                None
            },
            None => None,
        }
    }
}

/// Reads a group.
fn read_group(s: &Vec<char>) -> (r: Option<(u8, u8)>)
    ensures
        r is Some <==> group(s@) is Some,
        r is Some ==> seq![r->Some_0.0, r->Some_0.1] == group(s@)->Some_0,
{
    if s.len() < 1 || s.len() > 4 {
        return None;
    }
    let mut v: u32 = 0;
    let mut i: usize = 0;
    assert(s@.take(0) =~= Seq::empty());
    while i < s.len()
        invariant
            i <= s@.len() <= 4,
            v == hex_value(s@.take(i as int)),
            i == 0 ==> v == 0,
            i == 1 ==> v < 16,
            i == 2 ==> v < 256,
            i == 3 ==> v < 4096,
            i == 4 ==> v < 65536,
            forall|j: int| 0 <= j < i ==> is_hex(#[trigger] s@[j]),
        decreases s.len() - i,
    {
        let c: char = s[i];
        let d: u32 = if c >= '0' && c <= '9' {
            c as u32 - 48
        } else if c >= 'a' && c <= 'f' {
            c as u32 - 87
        } else if c >= 'A' && c <= 'F' {
            c as u32 - 55
        } else {
            assert(!is_hex(s@[i as int]));
            return None;
        };
        assert(s@.take(i + 1).drop_last() =~= s@.take(i as int));
        v = v * 16 + d;
        i = i + 1;
    }
    proof {
        assert(s@.take(i as int) =~= s@);
        reveal_with_fuel(be_bytes, 3);
        assert(be_bytes(v as nat, 2) =~= seq![(v / 256) as u8, (v % 256) as u8]);
    }
    Some(((v / 256) as u8, (v % 256) as u8))
}

/// Reads the first `n` of a list of groups.
fn read_groups(parts: &Vec<Vec<char>>, n: usize) -> (r: Option<Vec<u8>>)
    requires
        n <= parts@.len(),
    ensures
        ({
            let want = groups(part_views(parts@).take(n as int));
            &&& r is Some <==> want is Some
            &&& r is Some ==> r->Some_0@ == want->Some_0 && r->Some_0@.len() == 2 * n
        }),
{
    let ghost all = part_views(parts@);
    let mut out: Vec<u8> = Vec::new();
    let mut i: usize = 0;
    assert(all.take(0) =~= Seq::empty());
    while i < n
        invariant
            i <= n <= parts@.len(),
            all == part_views(parts@),
            groups(all.take(i as int)) == Some(out@),
            out@.len() == 2 * i,
        decreases n - i,
    {
        proof {
            assert(all.take(i + 1).drop_last() =~= all.take(i as int));
            assert(all.take(i + 1).last() == parts@[i as int]@);
        }
        match read_group(&parts[i]) {
            Some((a, b)) => {
                let ghost was = out@;
                out.push(a);
                out.push(b);
                assert(out@ =~= was + seq![a, b]);
            },
            None => {
                proof {
                    lemma_groups_none(all, i + 1, n as int);
                }
                return None;
            },
        }
        i = i + 1;
    }
    Some(out)
}

/// A list of groups that begins with a bad one is bad.
proof fn lemma_groups_none(parts: Seq<Seq<char>>, n: int, m: int)
    requires
        0 <= n <= m <= parts.len(),
        groups(parts.take(n)) is None,
    ensures
        groups(parts.take(m)) is None,
    decreases m,
{
    if n < m {
        lemma_groups_none(parts, n, m - 1);
        assert(parts.take(m).drop_last() =~= parts.take(m - 1));
    }
}

/// Reads a list of groups, the last of which may be a dotted IPv4 text.
fn read_groups_v4(parts: &Vec<Vec<char>>) -> (r: Option<Vec<u8>>)
    ensures
        ({
            let want = groups_v4(part_views(parts@));
            &&& r is Some <==> want is Some
            &&& r is Some ==> r->Some_0@ == want->Some_0
        }),
{
    let ghost all = part_views(parts@);
    let n: usize = parts.len();
    assert(all.take(n as int) =~= all);
    if n > 0 {
        assert(all.last() == parts@[n - 1]@);
        match parse_ipv4(&parts[n - 1]) {
            Some(octets) => {
                assert(all.take(n - 1) =~= all.drop_last());
                let mut octets = octets;
                return match read_groups(parts, n - 1) {
                    Some(before) => {
                        let mut out = before;
                        out.append(&mut octets);
                        Some(out)
                    },
                    None => None,
                };
            },
            None => {},
        }
    }
    read_groups(parts, n)
}

/// Finds the first pair of colons.
fn find_colons(s: &Vec<char>) -> (r: usize)
    ensures
        r == colons(s@, 0),
        r <= s@.len(),
        r < s@.len() ==> r + 2 <= s@.len(),
{
    let mut i: usize = 0;
    while i < s.len() && s.len() - i > 1
        invariant
            i <= s@.len(),
            colons(s@, 0) == colons(s@, i as int),
        decreases s.len() - i,
    {
        if s[i] == ':' && s[i + 1] == ':' {
            return i;
        }
        i = i + 1;
    }
    s.len()
}

/// The groups of a part of a text on one side of a pair of colons.
fn side_parts(s: &Vec<char>, from: usize, to: usize) -> (r: Vec<Vec<char>>)
    requires
        from <= to <= s@.len(),
    ensures
        part_views(r@) == side(s@.subrange(from as int, to as int)),
{
    if from == to {
        let r: Vec<Vec<char>> = Vec::new();
        assert(part_views(r@) =~= Seq::empty());
        return r;
    }
    let piece = vstd::slice::slice_to_vec(vstd::slice::slice_subrange(s.as_slice(), from, to));
    split_at(&piece, ':')
}

/// Reads an IPv6 text.
pub fn parse_ipv6(s: &Vec<char>) -> (r: Option<Vec<u8>>)
    ensures
        r is Some <==> ipv6(s@) is Some,
        r is Some ==> r->Some_0@ == ipv6(s@)->Some_0 && r->Some_0@.len() == 16,
{
    let n: usize = s.len();
    let at: usize = find_colons(s);
    if at < n {
        assert(s@.take(at as int) =~= s@.subrange(0, at as int));
        assert(s@.skip(at + 2) =~= s@.subrange(at + 2, n as int));
        let left = side_parts(s, 0, at);
        let right = side_parts(s, at + 2, n);
        assert(part_views(left@).take(left@.len() as int) =~= part_views(left@));
        let head = match read_groups(&left, left.len()) {
            Some(head) => head,
            None => {
                return None;
            },
        };
        let mut tail = match read_groups_v4(&right) {
            Some(tail) => tail,
            None => {
                return None;
            },
        };
        if head.len() > 14 || tail.len() > 14 - head.len() {
            return None;
        }
        let total: usize = 16 - tail.len();
        let mut out = head;
        let ghost was = out@;
        while out.len() < total
            invariant
                was.len() <= out@.len() <= total,
                out@ == was + zeros(out@.len() - was.len()),
            decreases total - out.len(),
        {
            let ghost k = out@.len() - was.len();
            out.push(0);
            assert(out@ =~= was + zeros(k + 1));
        }
        assert(out@ =~= was + zeros(total - was.len()));
        out.append(&mut tail);
        return Some(out);
    }
    let parts = split_at(s, ':');
    match read_groups_v4(&parts) {
        Some(all) => if all.len() == 16 {
            Some(all)
        } else {
            None
        },
        None => None,
    }
}

/// Two octets as four hexadecimal digits.
pub open spec fn hex4(a: u8, b: u8) -> Seq<char> {
    seq![
        hex_char((a / 16) as nat),
        hex_char((a % 16) as nat),
        hex_char((b / 16) as nat),
        hex_char((b % 16) as nat),
    ]
}

/// Sixteen octets as eight groups of four hexadecimal digits.
pub open spec fn full_parts(octets: Seq<u8>) -> Seq<Seq<char>> {
    Seq::new(8, |i: int| hex4(octets[2 * i], octets[2 * i + 1]))
}

/// The IPv6 text of sixteen octets with every digit written out.
pub open spec fn ipv6_full_text(octets: Seq<u8>) -> Seq<char> {
    join(full_parts(octets), ':')
}

/// A list of parts that are neither empty nor hold a colon.
spec fn solid(parts: Seq<Seq<char>>) -> bool {
    forall|i: int|
        0 <= i < parts.len() ==> (#[trigger] parts[i]).len() >= 1 && !parts[i].contains(':')
}

/// Solid parts, joined by single colons, have no pair of colons among them, and
/// none at either end.
proof fn lemma_join_solid(parts: Seq<Seq<char>>)
    requires
        solid(parts),
    ensures
        parts.len() > 0 ==> ({
            let s = join(parts, ':');
            &&& s.len() >= 1
            &&& s[0] != ':'
            &&& s[s.len() - 1] != ':'
            &&& forall|i: int| 0 <= i < s.len() - 1 ==> !(#[trigger] s[i] == ':' && s[i + 1] == ':')
        }),
    decreases parts.len(),
{
    if parts.len() > 0 {
        let last = parts[parts.len() - 1];
        assert forall|i: int| 0 <= i < last.len() implies #[trigger] last[i] != ':' by {
            if last[i] == ':' {
                assert(last.contains(':'));
            }
        }
        if parts.len() > 1 {
            let less = parts.drop_last();
            assert(solid(less)) by {
                assert forall|i: int| 0 <= i < less.len() implies (#[trigger] less[i]).len() >= 1
                    && !less[i].contains(':') by {
                    assert(less[i] == parts[i]);
                }
            }
            lemma_join_solid(less);
            let h = join(less, ':');
            let s = join(parts, ':');
            assert(s =~= h.push(':') + last);
            assert forall|i: int| 0 <= i < s.len() - 1 implies !(#[trigger] s[i] == ':' && s[i + 1]
                == ':') by {
                if i < h.len() - 1 {
                    assert(s[i] == h[i] && s[i + 1] == h[i + 1]);
                } else if i == h.len() - 1 {
                    assert(s[i] == h[i]);
                } else if i == h.len() {
                    assert(s[i + 1] == last[0]);
                } else {
                    assert(s[i] == last[i - h.len() - 1]);
                }
            }
            assert(s[s.len() - 1] == last[last.len() - 1]);
            assert(s[0] == h[0]);
        }
    }
}

/// A text without a pair of colons before `at` has its first pair at `at`, or none
/// when `at` is its end.
proof fn lemma_colons_at(s: Seq<char>, from: int, at: int)
    requires
        0 <= from <= at <= s.len(),
        forall|i: int| from <= i < at && i + 1 < s.len() ==> !(#[trigger] s[i] == ':' && s[i + 1]
            == ':'),
        at == s.len() || (at + 1 < s.len() && s[at] == ':' && s[at + 1] == ':'),
    ensures
        colons(s, from) == at,
    decreases at - from,
{
    if from < at {
        if from + 1 < s.len() {
            assert(!(s[from] == ':' && s[from + 1] == ':'));
            lemma_colons_at(s, from + 1, at);
        }
    }
}

/// A text without a dot is not a dotted IPv4 text.
proof fn lemma_not_ipv4(s: Seq<char>)
    requires
        !s.contains('.'),
    ensures
        ipv4(s) is None,
{
    crate::text::lemma_split_plain(s, '.');
}

proof fn lemma_hex_char(n: nat)
    requires
        n < 16,
    ensures
        is_hex(hex_char(n)),
        hex_digit(hex_char(n)) == n,
        hex_char(n) != ':' && hex_char(n) != '.',
{
}

/// Two octets as four digits are a group that stands for them.
proof fn lemma_hex4(a: u8, b: u8)
    ensures
        group(hex4(a, b)) == Some(seq![a, b]),
        hex4(a, b).len() == 4,
        !hex4(a, b).contains(':'),
        !hex4(a, b).contains('.'),
{
    let s = hex4(a, b);
    lemma_hex_char((a / 16) as nat);
    lemma_hex_char((a % 16) as nat);
    lemma_hex_char((b / 16) as nat);
    lemma_hex_char((b % 16) as nat);
    reveal_with_fuel(hex_value, 5);
    assert(s.drop_last().drop_last().drop_last().drop_last() =~= Seq::empty());
    let v = a as nat * 256 + b as nat;
    assert(hex_value(s) == v);
    reveal_with_fuel(be_bytes, 3);
    assert(be_bytes(v, 2) =~= seq![a, b]);
}

/// Octets written out in full are read back.
pub proof fn law_ipv6_full_text(octets: Seq<u8>)
    requires
        octets.len() == 16,
    ensures
        ipv6(ipv6_full_text(octets)) == Some(octets),
{
    let parts = full_parts(octets);
    let s = join(parts, ':');
    assert forall|i: int| 0 <= i < 8 implies (#[trigger] parts[i]).len() >= 1
        && !parts[i].contains(':') by {
        lemma_hex4(octets[2 * i], octets[2 * i + 1]);
    }
    assert(solid(parts));
    lemma_join_solid(parts);
    lemma_colons_at(s, 0, s.len() as int);
    lemma_split_join(parts, ':');
    lemma_hex4(octets[14], octets[15]);
    lemma_not_ipv4(parts[7]);
    lemma_groups_full(octets, 8);
    assert(parts.take(8) =~= parts);
    assert(octets.take(16) =~= octets);
}

proof fn lemma_groups_full(octets: Seq<u8>, n: int)
    requires
        octets.len() == 16,
        0 <= n <= 8,
    ensures
        groups(full_parts(octets).take(n)) == Some(octets.take(2 * n)),
    decreases n,
{
    let parts = full_parts(octets).take(n);
    if n == 0 {
        assert(octets.take(0) =~= Seq::empty());
    } else {
        lemma_groups_full(octets, n - 1);
        assert(parts.drop_last() =~= full_parts(octets).take(n - 1));
        lemma_hex4(octets[2 * (n - 1)], octets[2 * (n - 1) + 1]);
        assert(octets.take(2 * n) =~= octets.take(2 * (n - 1)) + seq![
            octets[2 * (n - 1)],
            octets[2 * (n - 1) + 1],
        ]);
    }
}

/// Appends the IPv6 text of sixteen octets with every digit written out.
pub fn push_ipv6_full(out: &mut Vec<char>, octets: &[u8])
    requires
        octets@.len() == 16,
    ensures
        final(out)@ == old(out)@ + ipv6_full_text(octets@),
{
    let ghost parts = full_parts(octets@);
    let mut i: usize = 0;
    assert(parts.take(0) =~= Seq::empty());
    assert(out@ =~= old(out)@ + join(parts.take(0), ':'));
    while i < 8
        invariant
            i <= 8,
            octets@.len() == 16,
            parts == full_parts(octets@),
            out@ == old(out)@ + join(parts.take(i as int), ':'),
        decreases 8 - i,
    {
        let a: u8 = octets[2 * i];
        let b: u8 = octets[2 * i + 1];
        if i > 0 {
            out.push(':');
        }
        out.push(to_hex_char(a / 16));
        out.push(to_hex_char(a % 16));
        out.push(to_hex_char(b / 16));
        out.push(to_hex_char(b % 16));
        proof {
            let next = parts.take(i + 1);
            assert(next.drop_last() =~= parts.take(i as int));
            assert(next.last() == hex4(a, b));
            assert(out@ =~= old(out)@ + join(next, ':'));
        }
        i = i + 1;
    }
    assert(parts.take(8) =~= parts);
}

/// A number in lower-case hexadecimal, without leading zeros.
pub open spec fn hex(n: nat) -> Seq<char>
    decreases n,
{
    if n < 16 {
        seq![hex_char(n)]
    } else {
        hex(n / 16).push(hex_char(n % 16))
    }
}

/// The number in a pair of octets.
pub open spec fn segment(octets: Seq<u8>, i: int) -> nat {
    octets[2 * i] as nat * 256 + octets[2 * i + 1] as nat
}

/// Pairs of octets as groups without leading zeros.
pub open spec fn short_parts(octets: Seq<u8>, from: int, to: int) -> Seq<Seq<char>> {
    Seq::new((to - from) as nat, |i: int| hex(segment(octets, from + i)))
}

/// How many zero pairs of octets stand in a row from the `i`-th on.
pub open spec fn zero_run(octets: Seq<u8>, i: int) -> int
    decreases 8 - i,
{
    if 0 <= i < 8 && segment(octets, i) == 0 {
        1 + zero_run(octets, i + 1)
    } else {
        0
    }
}

/// No row of zero pairs is longer than the one at `at`, and none before it as long.
pub open spec fn is_longest_run(octets: Seq<u8>, at: int) -> bool {
    0 <= at < 8 && forall|j: int|
        0 <= j < 8 ==> #[trigger] zero_run(octets, j) < zero_run(octets, at) || (zero_run(octets, j)
            == zero_run(octets, at) && at <= j)
}

/// Where the first of the longest rows of zero pairs begins.
pub open spec fn longest_run(octets: Seq<u8>) -> int {
    choose|at: int| is_longest_run(octets, at)
}

/// The IPv6 text of sixteen octets in its short form: no leading zeros, and a pair of
/// colons for the first of the longest rows of zero groups, if it has two or more.
pub open spec fn ipv6_text(octets: Seq<u8>) -> Seq<char> {
    let at = longest_run(octets);
    let n = zero_run(octets, at);
    if n > 1 {
        join(short_parts(octets, 0, at), ':') + seq![':', ':'] + join(
            short_parts(octets, at + n, 8),
            ':',
        )
    } else {
        join(short_parts(octets, 0, 8), ':')
    }
}

/// An IP address.
#[derive(Debug, Clone, Copy, PartialEq, Eq, Structural)]
pub enum IpAddress {
    V4(u32),
    V6(u128),
}

impl IpAddress {
    /// The octets of the address.
    pub open spec fn octets(self) -> Seq<u8> {
        match self {
            IpAddress::V4(n) => be_bytes(n as nat, 4),
            IpAddress::V6(n) => be_bytes(n as nat, 16),
        }
    }

    /// The octets of the address.
    pub fn to_octets(&self) -> (r: Vec<u8>)
        ensures
            r@ == self.octets(),
            r@.len() == (if *self is V4 {
                4int
            } else {
                16
            }),
    {
        match *self {
            IpAddress::V4(n) => be_vec(n as u128, 4),
            IpAddress::V6(n) => be_vec(n, 16),
        }
    }
}

/// The last `k` bytes of a number, most significant byte first.
fn be_vec(n: u128, k: usize) -> (r: Vec<u8>)
    ensures
        r@ == be_bytes(n as nat, k as nat),
        r@.len() == k,
    decreases k,
{
    if k == 0 {
        let r: Vec<u8> = Vec::new();
        assert(r@ =~= be_bytes(n as nat, 0));
        return r;
    }
    let mut r = be_vec(n / 256, k - 1);
    r.push((n % 256) as u8);
    assert(r@ =~= be_bytes(n as nat, k as nat));
    r
}

/// An IP address and a port.
#[derive(Debug, Clone, Copy, PartialEq, Eq, Structural)]
pub struct SocketAddress {
    pub ip: IpAddress,
    pub port: u16,
}

/// The address that a text stands for.
pub open spec fn ip(s: Seq<char>) -> Option<IpAddress> {
    match (ipv4(s), ipv6(s)) {
        (Some(octets), _) => Some(IpAddress::V4(be_value(octets) as u32)),
        (None, Some(octets)) => Some(IpAddress::V6(be_value(octets) as u128)),
        (None, None) => None,
    }
}

/// Reads octets as a number.
fn read_octets(octets: &Vec<u8>) -> (r: u128)
    requires
        octets@.len() <= 16,
    ensures
        r == be_value(octets@),
{
    let mut r: u128 = 0;
    let mut i: usize = 0;
    assert(octets@.take(0) =~= Seq::empty());
    while i < octets.len()
        invariant
            i <= octets@.len() <= 16,
            r == be_value(octets@.take(i as int)),
        decreases octets.len() - i,
    {
        proof {
            let next = octets@.take(i + 1);
            assert(next.drop_last() =~= octets@.take(i as int));
            lemma_be_round_trip_back(next);
            lemma_pow256_16(next.len());
        }
        r = r * 256 + octets[i] as u128;
        i = i + 1;
    }
    assert(octets@.take(i as int) =~= octets@);
    r
}

proof fn lemma_pow256_16(k: nat)
    requires
        k <= 16,
    ensures
        pow256(k) <= 0x1_0000_0000_0000_0000_0000_0000_0000_0000,
        pow256(16) == 0x1_0000_0000_0000_0000_0000_0000_0000_0000,
{
    reveal_with_fuel(pow256, 17);
}

/// Reads the text of an address.
pub fn parse_ip(s: &str) -> (r: Option<IpAddress>)
    ensures
        r == ip(s@),
{
    let chars = chars_of(s);
    match parse_ipv4(&chars) {
        Some(octets) => {
            proof {
                lemma_be_round_trip_back(octets@);
                lemma_pow256_values();
            }
            return Some(IpAddress::V4(read_octets(&octets) as u32));
        },
        None => {},
    }
    match parse_ipv6(&chars) {
        Some(octets) => Some(IpAddress::V6(read_octets(&octets))),
        None => None,
    }
}

/// Sixteen octets stand for an IPv4 address in IPv6 form.
pub open spec fn is_mapped(octets: Seq<u8>) -> bool {
    octets.take(12) == zeros(10) + seq![255u8, 255u8]
}

/// The text of an address, an IPv4 address in IPv6 form being taken for IPv4.
pub open spec fn normal_text(ip: IpAddress) -> Seq<char> {
    let octets = ip.octets();
    if ip is V4 {
        ipv4_text(octets)
    } else if is_mapped(octets) {
        ipv4_text(octets.skip(12))
    } else {
        ipv6_text(octets)
    }
}

/// Finds the first of the longest rows of zero pairs, and its length.
fn find_longest_run(octets: &[u8]) -> (r: (usize, usize))
    requires
        octets@.len() == 16,
    ensures
        is_longest_run(octets@, r.0 as int),
        r.1 == zero_run(octets@, r.0 as int),
        r.0 == longest_run(octets@),
        r.0 + r.1 <= 8,
{
    // The rows are looked at from the last pair to the first.
    let mut i: usize = 8;
    let mut run: usize = 0;
    let mut best: usize = 0;
    let mut best_at: usize = 0;
    while i > 0
        invariant
            i <= 8,
            octets@.len() == 16,
            run == zero_run(octets@, i as int),
            i + run <= 8,
            i == 8 ==> best == 0 && best_at == 0,
            i < 8 ==> i <= best_at < 8 && best == zero_run(octets@, best_at as int) && best_at
                + best <= 8,
            forall|j: int|
                i <= j < 8 ==> #[trigger] zero_run(octets@, j) < best || (zero_run(octets@, j)
                    == best && best_at <= j),
        decreases i,
    {
        i = i - 1;
        if octets[2 * i] == 0 && octets[2 * i + 1] == 0 {
            run = run + 1;
        } else {
            run = 0;
        }
        if run >= best {
            best = run;
            best_at = i;
        }
    }
    proof {
        let other = longest_run(octets@);
        assert(is_longest_run(octets@, best_at as int));
        assert(zero_run(octets@, other) <= best);
    }
    (best_at, best)
}

/// Appends a number in lower-case hexadecimal.
fn push_hex(out: &mut Vec<char>, n: u32)
    ensures
        final(out)@ == old(out)@ + hex(n as nat),
    decreases n,
{
    if n >= 16 {
        push_hex(out, n / 16);
    }
    out.push(to_hex_char((n % 16) as u8));
    assert(out@ =~= old(out)@ + hex(n as nat));
}

/// Appends pairs of octets as groups without leading zeros.
fn push_short(out: &mut Vec<char>, octets: &[u8], from: usize, to: usize)
    requires
        octets@.len() == 16,
        from <= to <= 8,
    ensures
        final(out)@ == old(out)@ + join(short_parts(octets@, from as int, to as int), ':'),
{
    let mut i: usize = from;
    assert(short_parts(octets@, from as int, from as int) =~= Seq::empty());
    assert(out@ =~= old(out)@ + join(short_parts(octets@, from as int, from as int), ':'));
    while i < to
        invariant
            from <= i <= to <= 8,
            octets@.len() == 16,
            out@ == old(out)@ + join(short_parts(octets@, from as int, i as int), ':'),
        decreases to - i,
    {
        let n: u32 = octets[2 * i] as u32 * 256 + octets[2 * i + 1] as u32;
        if i > from {
            out.push(':');
        }
        push_hex(out, n);
        proof {
            let next = short_parts(octets@, from as int, i + 1);
            assert(next.drop_last() =~= short_parts(octets@, from as int, i as int));
            assert(next.last() == hex(n as nat));
            assert(out@ =~= old(out)@ + join(next, ':'));
        }
        i = i + 1;
    }
}

/// The text of an address, an IPv4 address in IPv6 form being taken for IPv4.
pub fn normalize_ip(ip: IpAddress) -> (r: String)
    ensures
        r@ == normal_text(ip),
{
    let octets = ip.to_octets();
    let mut out: Vec<char> = Vec::new();
    match ip {
        IpAddress::V4(_) => {
            push_ipv4(&mut out, octets.as_slice());
            proof {
                lemma_ipv4_text_ascii(octets@);
            }
        },
        IpAddress::V6(_) => {
            let mut mapped: bool = octets[10] == 255 && octets[11] == 255;
            let mut i: usize = 0;
            while i < 10
                invariant
                    i <= 10,
                    octets@.len() == 16,
                    mapped == (octets@[10] == 255 && octets@[11] == 255 && forall|j: int|
                        0 <= j < i ==> #[trigger] octets@[j] == 0),
                decreases 10 - i,
            {
                mapped = mapped && octets[i] == 0;
                i = i + 1;
            }
            proof {
                let want = zeros(10) + seq![255u8, 255u8];
                if mapped {
                    assert(octets@.take(12) =~= want);
                } else if octets@.take(12) == want {
                    assert(octets@[10] == want[10] && octets@[11] == want[11]);
                    assert forall|j: int| 0 <= j < 10 implies #[trigger] octets@[j] == 0 by {
                        assert(octets@.take(12)[j] == want[j]);
                    }
                }
            }
            if mapped {
                let v4 = vstd::slice::slice_subrange(octets.as_slice(), 12, 16);
                assert(v4@ =~= octets@.skip(12));
                push_ipv4(&mut out, v4);
                proof {
                    lemma_ipv4_text_ascii(v4@);
                }
            } else {
                let (at, n) = find_longest_run(octets.as_slice());
                if n > 1 {
                    push_short(&mut out, octets.as_slice(), 0, at);
                    out.push(':');
                    out.push(':');
                    push_short(&mut out, octets.as_slice(), at + n, 8);
                } else {
                    push_short(&mut out, octets.as_slice(), 0, 8);
                }
                assert(out@ =~= ipv6_text(octets@));
                proof {
                    lemma_short_ascii(octets@, 0, at as int);
                    lemma_short_ascii(octets@, at + n, 8);
                    lemma_short_ascii(octets@, 0, 8);
                }
            }
        },
    }
    assert(out@ =~= normal_text(ip));
    ascii_string(&out)
}

proof fn lemma_dec_ascii(n: nat)
    ensures
        is_ascii_chars(dec(n)),
{
    lemma_dec(n);
    assert forall|i: int| 0 <= i < dec(n).len() implies '\0' <= #[trigger] dec(n)[i] <= '\u{7f}' by {
        assert(is_digit(dec(n)[i]));
    }
}

/// A dotted text is ASCII.
pub proof fn lemma_ipv4_text_ascii(octets: Seq<u8>)
    ensures
        is_ascii_chars(ipv4_text(octets)),
{
    let parts = dec_parts(octets);
    assert forall|i: int| 0 <= i < parts.len() implies is_ascii_chars(#[trigger] parts[i]) by {
        lemma_dec_ascii(octets[i] as nat);
    }
    lemma_join_ascii(parts, '.');
}

/// An IPv6 text with every digit written out holds no dot.
pub proof fn lemma_full_text_has_no_dot(octets: Seq<u8>)
    requires
        octets.len() == 16,
    ensures
        !ipv6_full_text(octets).contains('.'),
{
    assert(full_parts(octets) =~= full_parts(octets).take(8));
    lemma_no_dot(full_parts(octets), octets);
}

proof fn lemma_no_dot(parts: Seq<Seq<char>>, octets: Seq<u8>)
    requires
        octets.len() == 16,
        parts.len() <= 8,
        parts == full_parts(octets).take(parts.len() as int),
    ensures
        !join(parts, ':').contains('.'),
    decreases parts.len(),
{
    if parts.len() > 0 {
        let n = parts.len() - 1;
        let less = parts.drop_last();
        let last = parts[n];
        assert(last == full_parts(octets)[n]);
        lemma_hex4(octets[2 * n], octets[2 * n + 1]);
        let s = join(parts, ':');
        if n > 0 {
            assert(less =~= full_parts(octets).take(n));
            lemma_no_dot(less, octets);
            let h = join(less, ':');
            assert(s =~= h.push(':') + last);
            if s.contains('.') {
                let i = s.index_of('.');
                if i < h.len() {
                    assert(h[i] == '.');
                } else {
                    assert(last[i - h.len() - 1] == '.');
                }
            }
        }
    }
}

/// An IPv6 text with every digit written out is ASCII.
pub proof fn lemma_ipv6_full_text_ascii(octets: Seq<u8>)
    requires
        octets.len() == 16,
    ensures
        is_ascii_chars(ipv6_full_text(octets)),
{
    let parts = full_parts(octets);
    assert forall|i: int| 0 <= i < parts.len() implies is_ascii_chars(#[trigger] parts[i]) by {
        let (a, b) = (octets[2 * i], octets[2 * i + 1]);
        lemma_hex_char((a / 16) as nat);
        lemma_hex_char((a % 16) as nat);
        lemma_hex_char((b / 16) as nat);
        lemma_hex_char((b % 16) as nat);
    }
    lemma_join_ascii(parts, ':');
}

proof fn lemma_join_ascii(parts: Seq<Seq<char>>, c: char)
    requires
        c == '.' || c == ':',
        forall|i: int| 0 <= i < parts.len() ==> is_ascii_chars(#[trigger] parts[i]),
    ensures
        is_ascii_chars(join(parts, c)),
    decreases parts.len(),
{
    if parts.len() > 1 {
        let less = parts.drop_last();
        assert forall|i: int| 0 <= i < less.len() implies is_ascii_chars(#[trigger] less[i]) by {
            assert(less[i] == parts[i]);
        }
        lemma_join_ascii(less, c);
        assert(is_ascii_chars(parts[parts.len() - 1]));
    } else if parts.len() == 1 {
        assert(is_ascii_chars(parts[0]));
    }
}

proof fn lemma_hex(n: nat)
    requires
        n < 65536,
    ensures
        1 <= hex(n).len() <= 4,
        all_hex(hex(n)),
        hex_value(hex(n)) == n,
        is_ascii_chars(hex(n)),
        !hex(n).contains(':'),
        !hex(n).contains('.'),
{
    lemma_hex_digits(n);
    let s = hex(n);
    reveal_with_fuel(hex, 5);
    assert(s.len() <= 4);
    if s.contains(':') {
        assert(is_hex(s[s.index_of(':')]));
    }
    if s.contains('.') {
        assert(is_hex(s[s.index_of('.')]));
    }
    assert forall|i: int| 0 <= i < s.len() implies '\0' <= #[trigger] s[i] <= '\u{7f}' by {
        assert(is_hex(s[i]));
    }
}

proof fn lemma_hex_digits(n: nat)
    ensures
        hex(n).len() >= 1,
        all_hex(hex(n)),
        hex_value(hex(n)) == n,
    decreases n,
{
    if n < 16 {
        lemma_hex_char(n);
        reveal_with_fuel(hex_value, 2);
        assert(hex(n).drop_last() =~= Seq::empty());
    } else {
        lemma_hex_digits(n / 16);
        lemma_hex_char(n % 16);
        assert(hex(n).drop_last() =~= hex(n / 16));
    }
}

proof fn lemma_short_ascii(octets: Seq<u8>, from: int, to: int)
    requires
        octets.len() == 16,
        0 <= from <= to <= 8,
    ensures
        is_ascii_chars(join(short_parts(octets, from, to), ':')),
{
    let parts = short_parts(octets, from, to);
    assert forall|i: int| 0 <= i < parts.len() implies is_ascii_chars(#[trigger] parts[i]) by {
        lemma_hex(segment(octets, from + i));
    }
    lemma_join_ascii(parts, ':');
}

proof fn lemma_groups_short(octets: Seq<u8>, from: int, to: int)
    requires
        octets.len() == 16,
        0 <= from <= to <= 8,
    ensures
        groups(short_parts(octets, from, to)) == Some(octets.subrange(2 * from, 2 * to)),
        solid(short_parts(octets, from, to)),
        forall|i: int|
            0 <= i < to - from ==> !(#[trigger] short_parts(octets, from, to)[i]).contains('.'),
    decreases to - from,
{
    let parts = short_parts(octets, from, to);
    if from == to {
        assert(octets.subrange(2 * from, 2 * to) =~= Seq::empty());
    } else {
        lemma_groups_short(octets, from, to - 1);
        let less = short_parts(octets, from, to - 1);
        assert(parts.drop_last() =~= less);
        let (a, b) = (octets[2 * (to - 1)], octets[2 * (to - 1) + 1]);
        let n = segment(octets, to - 1);
        lemma_hex(n);
        reveal_with_fuel(be_bytes, 3);
        assert(be_bytes(n, 2) =~= seq![a, b]);
        assert(octets.subrange(2 * from, 2 * to) =~= octets.subrange(2 * from, 2 * (to - 1)) + seq![
            a,
            b,
        ]);
        assert forall|i: int| 0 <= i < to - from implies (#[trigger] parts[i]).len() >= 1
            && !parts[i].contains(':') && !parts[i].contains('.') by {
            if i < to - 1 - from {
                assert(parts[i] == less[i]);
            }
        }
    }
}

proof fn lemma_zero_run(octets: Seq<u8>, at: int)
    requires
        octets.len() == 16,
        0 <= at <= 8,
    ensures
        0 <= zero_run(octets, at) <= 8 - at,
        octets.subrange(2 * at, 2 * (at + zero_run(octets, at))) == zeros(2 * zero_run(octets, at)),
    decreases 8 - at,
{
    let n = zero_run(octets, at);
    if at < 8 && segment(octets, at) == 0 {
        lemma_zero_run(octets, at + 1);
        let rest = octets.subrange(2 * (at + 1), 2 * (at + 1 + zero_run(octets, at + 1)));
        assert(octets[2 * at] == 0 && octets[2 * at + 1] == 0);
        assert forall|i: int| 0 <= i < 2 * n implies #[trigger] octets.subrange(
            2 * at,
            2 * (at + n),
        )[i] == 0 by {
            if i >= 2 {
                assert(rest[i - 2] == zeros(2 * (n - 1))[i - 2]);
            }
        }
    }
    assert(octets.subrange(2 * at, 2 * (at + n)) =~= zeros(2 * n));
}

/// A side of a pair of colons is split into the groups that it was joined from.
proof fn lemma_side(octets: Seq<u8>, from: int, to: int)
    requires
        octets.len() == 16,
        0 <= from <= to <= 8,
    ensures
        side(join(short_parts(octets, from, to), ':')) == short_parts(octets, from, to),
        groups_v4(short_parts(octets, from, to)) == groups(short_parts(octets, from, to)),
{
    let parts = short_parts(octets, from, to);
    lemma_groups_short(octets, from, to);
    if from < to {
        lemma_join_solid(parts);
        lemma_split_join(parts, ':');
        assert(!parts[parts.len() - 1].contains('.'));
        lemma_not_ipv4(parts.last());
    } else {
        assert(join(parts, ':') =~= Seq::empty());
        assert(parts =~= Seq::empty());
    }
}

/// Of the rows of zero pairs that begin at `i` or later, one is the first longest.
proof fn lemma_longest_from(octets: Seq<u8>, i: int) -> (at: int)
    requires
        0 <= i < 8,
    ensures
        i <= at < 8,
        forall|j: int|
            i <= j < 8 ==> #[trigger] zero_run(octets, j) < zero_run(octets, at) || (zero_run(
                octets,
                j,
            ) == zero_run(octets, at) && at <= j),
    decreases 8 - i,
{
    if i == 7 {
        i
    } else {
        let at = lemma_longest_from(octets, i + 1);
        if zero_run(octets, i) >= zero_run(octets, at) {
            i
        } else {
            at
        }
    }
}

/// The short form of sixteen octets is read back.
pub proof fn law_ipv6_text(octets: Seq<u8>)
    requires
        octets.len() == 16,
    ensures
        ipv6(ipv6_text(octets)) == Some(octets),
{
    let at = lemma_longest_from(octets, 0);
    assert(is_longest_run(octets, at));
    lemma_ipv6_text_at(octets, at);
}

proof fn lemma_ipv6_text_at(octets: Seq<u8>, at: int)
    requires
        octets.len() == 16,
        is_longest_run(octets, at),
    ensures
        ipv6(ipv6_text(octets)) == Some(octets),
{
    let other = longest_run(octets);
    assert(zero_run(octets, other) <= zero_run(octets, at));
    assert(other == at);
    let n = zero_run(octets, at);
    lemma_zero_run(octets, at);
    if n > 1 {
        lemma_read_around_gap(octets, at, n);
    } else {
        lemma_read_without_gap(octets);
    }
}

proof fn lemma_read_without_gap(octets: Seq<u8>)
    requires
        octets.len() == 16,
    ensures
        ipv6(join(short_parts(octets, 0, 8), ':')) == Some(octets),
{
    let parts = short_parts(octets, 0, 8);
    let s = join(parts, ':');
    lemma_side(octets, 0, 8);
    lemma_groups_short(octets, 0, 8);
    lemma_join_solid(parts);
    lemma_colons_at(s, 0, s.len() as int);
    assert(octets.subrange(0, 16) =~= octets);
}

proof fn lemma_read_around_gap(octets: Seq<u8>, at: int, n: int)
    requires
        octets.len() == 16,
        0 <= at,
        1 <= n,
        at + n <= 8,
        octets.subrange(2 * at, 2 * (at + n)) == zeros(2 * n),
    ensures
        ipv6(
            join(short_parts(octets, 0, at), ':') + seq![':', ':'] + join(
                short_parts(octets, at + n, 8),
                ':',
            ),
        ) == Some(octets),
{
    let h = join(short_parts(octets, 0, at), ':');
    let t = join(short_parts(octets, at + n, 8), ':');
    let s = h + seq![':', ':'] + t;
    let k = h.len() as int;
    lemma_colons_between(octets, at, h, t);
    assert(s.take(k) =~= h);
    assert(s.skip(k + 2) =~= t);
    lemma_side(octets, 0, at);
    lemma_side(octets, at + n, 8);
    lemma_groups_short(octets, 0, at);
    lemma_groups_short(octets, at + n, 8);
    lemma_fill_gap(octets, at, n);
    let head = octets.subrange(0, 2 * at);
    let tail = octets.subrange(2 * (at + n), 16);
    lemma_around_colons(s, k, head, tail);
    assert(16 - head.len() - tail.len() == 2 * n);
}

/// What a text with a pair of colons stands for, from what its two sides stand for.
proof fn lemma_around_colons(s: Seq<char>, k: int, head: Seq<u8>, tail: Seq<u8>)
    requires
        colons(s, 0) == k < s.len(),
        groups(side(s.take(k))) == Some(head),
        groups_v4(side(s.skip(k + 2))) == Some(tail),
        head.len() + tail.len() <= 14,
    ensures
        ipv6(s) == Some(head + zeros(16 - head.len() - tail.len()) + tail),
{
}

/// The octets on the two sides of a run of zeros, and the zeros between them.
proof fn lemma_fill_gap(octets: Seq<u8>, at: int, n: int)
    requires
        octets.len() == 16,
        0 <= at,
        1 <= n,
        at + n <= 8,
        octets.subrange(2 * at, 2 * (at + n)) == zeros(2 * n),
    ensures
        octets.subrange(0, 2 * at) + zeros(2 * n) + octets.subrange(2 * (at + n), 16) == octets,
{
    let gap = octets.subrange(2 * at, 2 * (at + n));
    assert forall|i: int| 2 * at <= i < 2 * (at + n) implies #[trigger] octets[i] == 0 by {
        let j = i - 2 * at;
        assert(gap[j] == octets[j + 2 * at]);
        assert(gap[j] == zeros(2 * n)[j]);
    }
    assert(octets.subrange(0, 2 * at) + zeros(2 * n) + octets.subrange(2 * (at + n), 16)
        =~= octets);
}

/// The first pair of colons after joined groups is the one that follows them.
proof fn lemma_colons_between(octets: Seq<u8>, at: int, h: Seq<char>, t: Seq<char>)
    requires
        octets.len() == 16,
        0 <= at <= 8,
        h == join(short_parts(octets, 0, at), ':'),
    ensures
        colons(h + seq![':', ':'] + t, 0) == h.len(),
{
    let s = h + seq![':', ':'] + t;
    let k = h.len() as int;
    lemma_groups_short(octets, 0, at);
    lemma_join_solid(short_parts(octets, 0, at));
    assert(at == 0 ==> h =~= Seq::empty());
    assert forall|i: int| 0 <= i < k && i + 1 < s.len() implies !(#[trigger] s[i] == ':' && s[i
        + 1] == ':') by {
        assert(s[i] == h[i]);
        if i + 1 < k {
            assert(s[i + 1] == h[i + 1]);
        }
    }
    assert(s[k] == ':' && s[k + 1] == ':');
    lemma_colons_at(s, 0, k);
}

/// Joined parts hold nothing but their own characters and the one between them.
proof fn lemma_join_holds(parts: Seq<Seq<char>>, c: char, x: char)
    requires
        x != c,
        forall|i: int| 0 <= i < parts.len() ==> !(#[trigger] parts[i]).contains(x),
    ensures
        !join(parts, c).contains(x),
    decreases parts.len(),
{
    let s = join(parts, c);
    if parts.len() > 1 {
        let less = parts.drop_last();
        assert forall|i: int| 0 <= i < less.len() implies !(#[trigger] less[i]).contains(x) by {
            assert(less[i] == parts[i]);
        }
        lemma_join_holds(less, c, x);
        let before = join(less, c);
        let last = parts[parts.len() - 1];
        assert(!last.contains(x));
        if s.contains(x) {
            let i = s.index_of(x);
            if i < before.len() {
                assert(before[i] == x);
            } else if i > before.len() {
                assert(last[i - before.len() - 1] == x);
            }
        }
    } else if parts.len() == 1 {
        assert(!parts[0].contains(x));
    }
}

/// No text stands for addresses of both families.
pub proof fn law_one_family(s: Seq<char>)
    ensures
        ipv4(s) is None || ipv6(s) is None,
{
    if ipv4(s) is Some {
        let octets = ipv4(s)->Some_0;
        law_ipv4_text(octets, s);
        let parts = dec_parts(octets);
        assert forall|i: int| 0 <= i < parts.len() implies !(#[trigger] parts[i]).contains(':') by {
            lemma_octet_dec(octets[i]);
        }
        lemma_join_holds(parts, '.', ':');
        assert forall|i: int| 0 <= i < s.len() && i + 1 < s.len() implies !(#[trigger] s[i] == ':'
            && s[i + 1] == ':') by {
            assert(s.contains(s[i]));
        }
        lemma_colons_at(s, 0, s.len() as int);
        crate::text::lemma_split_plain(s, ':');
        assert(seq![s].drop_last() =~= Seq::empty());
    }
}

/// The text of an address is read back as that address, or as the IPv4 address that
/// it holds in IPv6 form.
pub proof fn law_normal_text(address: IpAddress)
    ensures
        address is V4 || !is_mapped(address.octets()) ==> ip(normal_text(address)) == Some(address),
        address is V6 && is_mapped(address.octets()) ==> ip(normal_text(address)) == Some(
            IpAddress::V4(be_value(address.octets().skip(12)) as u32),
        ),
{
    let octets = address.octets();
    lemma_pow256_values();
    lemma_pow256_16(16);
    match address {
        IpAddress::V4(n) => {
            lemma_be_bytes_len(n as nat, 4);
            lemma_be_round_trip(n as nat, 4);
            law_ipv4_text(octets, normal_text(address));
        },
        IpAddress::V6(n) => {
            lemma_be_bytes_len(n as nat, 16);
            lemma_be_round_trip(n as nat, 16);
            law_ipv4_text(octets.skip(12), normal_text(address));
            law_ipv6_text(octets);
            law_one_family(normal_text(address));
        },
    }
}

// ── Forms of IPv6 texts ───────────────────────────────────────────────

/// One to four hexadecimal digits, in lower or upper case.
pub open spec fn is_group(p: Seq<char>) -> bool {
    1 <= p.len() <= 4 && forall|i: int|
        0 <= i < p.len() ==> '0' <= #[trigger] p[i] <= '9' || 'a' <= p[i] <= 'f' || 'A' <= p[i]
            <= 'F'
}

/// Groups stand for as many pairs of octets, from the `at`-th pair on.
pub open spec fn stand_at(parts: Seq<Seq<char>>, octets: Seq<u8>, at: int) -> bool {
    forall|i: int|
        0 <= i < parts.len() ==> hex_value(#[trigger] parts[i]) == 256 * octets[2 * (at + i)]
            + octets[2 * (at + i) + 1]
}

proof fn lemma_group_value(p: Seq<char>)
    requires
        is_group(p),
    ensures
        group(p) is Some,
        group(p)->Some_0.len() == 2,
        256 * group(p)->Some_0[0] + group(p)->Some_0[1] == hex_value(p),
        !p.contains(':') && !p.contains('.'),
{
    assert(all_hex(p));
    if p.contains(':') {
        assert(is_hex(p[p.index_of(':')]));
    }
    if p.contains('.') {
        assert(is_hex(p[p.index_of('.')]));
    }
    lemma_hex_value_bound(p);
    let v = hex_value(p);
    lemma_be_bytes_len(v, 2);
    lemma_pow256_values();
    lemma_be_round_trip(v, 2);
    let b = be_bytes(v, 2);
    assert(b =~= seq![b[0], b[1]]);
    crate::wire::lemma_be_value_2(b[0], b[1]);
}

proof fn lemma_hex_value_bound(p: Seq<char>)
    requires
        p.len() <= 4,
        all_hex(p),
    ensures
        hex_value(p) < 65536,
{
    reveal_with_fuel(hex_value, 5);
    assert forall|i: int| 0 <= i < p.len() implies hex_digit(#[trigger] p[i]) < 16 by {
        assert(is_hex(p[i]));
    }
    if p.len() >= 1 {
        assert(p.last() == p[p.len() - 1]);
        let q = p.drop_last();
        if q.len() >= 1 {
            assert(q.last() == p[p.len() - 2]);
            let r = q.drop_last();
            if r.len() >= 1 {
                assert(r.last() == p[p.len() - 3]);
                let t = r.drop_last();
                if t.len() >= 1 {
                    assert(t.last() == p[p.len() - 4]);
                }
            }
        }
    }
}

proof fn lemma_groups_values(parts: Seq<Seq<char>>)
    requires
        forall|i: int| 0 <= i < parts.len() ==> is_group(#[trigger] parts[i]),
    ensures
        groups(parts) is Some,
        groups(parts)->Some_0.len() == 2 * parts.len(),
        stand_at(parts, groups(parts)->Some_0, 0),
        solid(parts),
        forall|i: int| 0 <= i < parts.len() ==> !(#[trigger] parts[i]).contains('.'),
    decreases parts.len(),
{
    assert forall|i: int| 0 <= i < parts.len() implies (#[trigger] parts[i]).len() >= 1
        && !parts[i].contains(':') && !parts[i].contains('.') by {
        assert(is_group(parts[i]));
        lemma_group_value(parts[i]);
    }
    if parts.len() > 0 {
        let less = parts.drop_last();
        assert forall|i: int| 0 <= i < less.len() implies is_group(#[trigger] less[i]) by {
            assert(less[i] == parts[i]);
        }
        lemma_groups_values(less);
        let n = parts.len() - 1;
        assert(is_group(parts[n]));
        lemma_group_value(parts[n]);
        let before = groups(less)->Some_0;
        let all = groups(parts)->Some_0;
        assert(all == before + group(parts[n])->Some_0);
        assert forall|i: int| 0 <= i < parts.len() implies hex_value(#[trigger] parts[i]) == 256
            * all[2 * (0 + i)] + all[2 * (0 + i) + 1] by {
            if i < n {
                assert(less[i] == parts[i]);
                assert(hex_value(less[i]) == 256 * before[2 * (0 + i)] + before[2 * (0 + i) + 1]);
            }
        }
    }
}

/// Groups, and possibly a dotted IPv4 text behind them.
pub open spec fn with_dotted(parts: Seq<Seq<char>>, dotted: Option<Seq<u8>>) -> Seq<Seq<char>> {
    match dotted {
        Some(octets) => parts.push(ipv4_text(octets)),
        None => parts,
    }
}

/// The octets that may stand behind groups.
pub open spec fn dotted_octets(dotted: Option<Seq<u8>>) -> Seq<u8> {
    match dotted {
        Some(octets) => octets,
        None => Seq::empty(),
    }
}

proof fn lemma_tail_values(parts: Seq<Seq<char>>, dotted: Option<Seq<u8>>)
    requires
        forall|i: int| 0 <= i < parts.len() ==> is_group(#[trigger] parts[i]),
        dotted is Some ==> dotted->Some_0.len() == 4,
    ensures
        ({
            let all = with_dotted(parts, dotted);
            &&& solid(all)
            &&& groups_v4(all) == Some(groups(parts)->Some_0 + dotted_octets(dotted))
            &&& all.len() > 0 ==> split(join(all, ':'), ':') == all
            &&& side(join(all, ':')) == all
        }),
{
    lemma_groups_values(parts);
    let all = with_dotted(parts, dotted);
    if dotted is Some {
        let q = dotted->Some_0;
        let text = ipv4_text(q);
        law_ipv4_text(q, text);
        let ps = dec_parts(q);
        assert forall|i: int| 0 <= i < ps.len() implies !(#[trigger] ps[i]).contains(':') by {
            lemma_octet_dec(q[i]);
        }
        lemma_join_holds(ps, '.', ':');
        assert(text.len() >= 1) by {
            if text.len() == 0 {
                lemma_not_ipv4(text);
            }
        }
        assert(all.drop_last() =~= parts);
        assert(all.last() == text);
    } else {
        if parts.len() > 0 {
            assert(!parts[parts.len() - 1].contains('.'));
            lemma_not_ipv4(parts.last());
        }
        let g = groups(parts)->Some_0;
        assert(g + Seq::<u8>::empty() =~= g);
    }
    assert(solid(all));
    if all.len() > 0 {
        lemma_join_solid(all);
        lemma_split_join(all, ':');
    } else {
        assert(all =~= Seq::empty());
    }
}

/// Eight groups, in lower or upper case and with leading zeros or without, stand for their
/// numbers; the last two may be a dotted IPv4 text, which stands for its octets.
pub proof fn law_ipv6_groups(parts: Seq<Seq<char>>, dotted: Option<Seq<u8>>)
    requires
        forall|i: int| 0 <= i < parts.len() ==> is_group(#[trigger] parts[i]),
        dotted is None ==> parts.len() == 8,
        dotted is Some ==> parts.len() == 6 && dotted->Some_0.len() == 4,
    ensures
        ({
            let s = join(with_dotted(parts, dotted), ':');
            let octets = ipv6(s)->Some_0;
            &&& ipv6(s) is Some
            &&& octets.len() == 16
            &&& stand_at(parts, octets, 0)
            &&& dotted is Some ==> octets.skip(12) == dotted->Some_0
        }),
{
    lemma_groups_values(parts);
    lemma_tail_values(parts, dotted);
    let all = with_dotted(parts, dotted);
    let s = join(all, ':');
    lemma_join_solid(all);
    lemma_colons_at(s, 0, s.len() as int);
    let g = groups(parts)->Some_0;
    let e = dotted_octets(dotted);
    assert(ipv6(s) == Some(g + e));
    lemma_stand_apart(parts, Seq::empty(), g, Seq::empty(), Seq::empty(), e);
    assert(g + Seq::<u8>::empty() + (Seq::<u8>::empty() + e) =~= g + e);
    if dotted is Some {
        assert((g + e).skip(12) =~= e);
    }
}

/// A pair of colons stands for as many zeros as are missing, at least one group of them,
/// at whatever place: the groups before it are the first octets, those behind it the last,
/// and there the last two groups may be a dotted IPv4 text.
pub proof fn law_ipv6_gap(head: Seq<Seq<char>>, tail: Seq<Seq<char>>, dotted: Option<Seq<u8>>)
    requires
        forall|i: int| 0 <= i < head.len() ==> is_group(#[trigger] head[i]),
        forall|i: int| 0 <= i < tail.len() ==> is_group(#[trigger] tail[i]),
        dotted is Some ==> dotted->Some_0.len() == 4,
        2 * head.len() + 2 * tail.len() + dotted_octets(dotted).len() <= 14,
    ensures
        ({
            let s = join(head, ':') + seq![':', ':'] + join(with_dotted(tail, dotted), ':');
            let octets = ipv6(s)->Some_0;
            let e = dotted_octets(dotted).len() as int;
            let from = 16 - e - 2 * tail.len();
            &&& ipv6(s) is Some
            &&& octets.len() == 16
            &&& stand_at(head, octets, 0)
            &&& stand_at(tail, octets, from / 2)
            &&& forall|i: int| 2 * head.len() <= i < from ==> #[trigger] octets[i] == 0
            &&& octets.skip(16 - e) == dotted_octets(dotted)
        }),
{
    lemma_groups_values(head);
    lemma_groups_values(tail);
    lemma_tail_values(head, None);
    lemma_tail_values(tail, dotted);
    let h = join(head, ':');
    let t = join(with_dotted(tail, dotted), ':');
    let s = h + seq![':', ':'] + t;
    let k = h.len() as int;
    lemma_colons_behind(head, t);
    assert(s.take(k) =~= h);
    assert(s.skip(k + 2) =~= t);
    let a = groups(head)->Some_0;
    let b = groups(tail)->Some_0;
    let e = dotted_octets(dotted);
    assert(groups(side(s.take(k))) == Some(a)) by {
        assert(with_dotted(head, None) == head);
    }
    lemma_around_colons(s, k, a, b + e);
    lemma_stand_apart(head, tail, a, zeros(16 - a.len() - (b + e).len()), b, e);
}

/// The first pair of colons behind groups is the one that follows them.
proof fn lemma_colons_behind(head: Seq<Seq<char>>, t: Seq<char>)
    requires
        solid(head),
    ensures
        colons(join(head, ':') + seq![':', ':'] + t, 0) == join(head, ':').len(),
{
    let h = join(head, ':');
    let s = h + seq![':', ':'] + t;
    let k = h.len() as int;
    lemma_join_solid(head);
    assert(head.len() == 0 ==> h =~= Seq::empty());
    assert forall|i: int| 0 <= i < k && i + 1 < s.len() implies !(#[trigger] s[i] == ':' && s[i
        + 1] == ':') by {
        assert(s[i] == h[i]);
        if i + 1 < k {
            assert(s[i + 1] == h[i + 1]);
        }
    }
    assert(s[k] == ':' && s[k + 1] == ':');
    lemma_colons_at(s, 0, k);
}

/// Groups stand at the beginning of octets, and before their end.
proof fn lemma_stand_apart(
    head: Seq<Seq<char>>,
    tail: Seq<Seq<char>>,
    a: Seq<u8>,
    gap: Seq<u8>,
    b: Seq<u8>,
    e: Seq<u8>,
)
    requires
        a.len() == 2 * head.len(),
        b.len() == 2 * tail.len(),
        stand_at(head, a, 0),
        stand_at(tail, b, 0),
        a.len() + gap.len() + b.len() + e.len() == 16,
        e.len() % 2 == 0,
    ensures
        ({
            let octets = a + gap + (b + e);
            let from = 16 - e.len() - b.len();
            &&& octets.len() == 16
            &&& stand_at(head, octets, 0)
            &&& stand_at(tail, octets, from / 2)
            &&& gap == zeros(gap.len() as int) ==> forall|i: int|
                a.len() <= i < from ==> #[trigger] octets[i] == 0
            &&& octets.skip(16 - e.len()) == e
        }),
{
    let octets = a + gap + (b + e);
    let from = 16 - e.len() - b.len();
    assert(from == a.len() + gap.len());
    assert(2 * (from / 2) == from);
    assert forall|i: int| 0 <= i < head.len() implies hex_value(#[trigger] head[i]) == 256
        * octets[2 * (0 + i)] + octets[2 * (0 + i) + 1] by {
        assert(hex_value(head[i]) == 256 * a[2 * (0 + i)] + a[2 * (0 + i) + 1]);
    }
    assert forall|i: int| 0 <= i < tail.len() implies hex_value(#[trigger] tail[i]) == 256
        * octets[2 * (from / 2 + i)] + octets[2 * (from / 2 + i) + 1] by {
        assert(hex_value(tail[i]) == 256 * b[2 * (0 + i)] + b[2 * (0 + i) + 1]);
        assert(octets[from + 2 * i] == b[2 * i]);
        assert(octets[from + 2 * i + 1] == b[2 * i + 1]);
    }
    assert forall|i: int| gap == zeros(gap.len() as int) && a.len() <= i < from implies
    #[trigger] octets[i] == 0 by {
        assert(octets[i] == gap[i - a.len()]);
    }
    assert(octets.skip(16 - e.len()) =~= e);
}

proof fn lemma_only_groups(parts: Seq<Seq<char>>)
    requires
        groups(parts) is Some,
    ensures
        forall|i: int| 0 <= i < parts.len() ==> is_group(#[trigger] parts[i]),
        groups(parts)->Some_0.len() == 2 * parts.len(),
    decreases parts.len(),
{
    if parts.len() > 0 {
        let less = parts.drop_last();
        lemma_only_groups(less);
        let p = parts.last();
        assert(group(p) is Some);
        assert forall|j: int| 0 <= j < p.len() implies '0' <= #[trigger] p[j] <= '9' || 'a' <= p[j]
            <= 'f' || 'A' <= p[j] <= 'F' by {
            assert(is_hex(p[j]));
        }
        assert(is_group(p));
        lemma_be_bytes_len(hex_value(p), 2);
        assert forall|i: int| 0 <= i < parts.len() implies is_group(#[trigger] parts[i]) by {
            if i < less.len() {
                assert(less[i] == parts[i]);
            }
        }
    }
}

proof fn lemma_only_tails(parts: Seq<Seq<char>>) -> (r: (Seq<Seq<char>>, Option<Seq<u8>>))
    requires
        groups_v4(parts) is Some,
    ensures
        parts == with_dotted(r.0, r.1),
        forall|i: int| 0 <= i < r.0.len() ==> is_group(#[trigger] r.0[i]),
        r.1 is Some ==> r.1->Some_0.len() == 4,
        groups_v4(parts)->Some_0.len() == 2 * r.0.len() + dotted_octets(r.1).len(),
{
    if parts.len() > 0 && ipv4(parts.last()) is Some {
        let octets = ipv4(parts.last())->Some_0;
        law_ipv4_text(octets, parts.last());
        let less = parts.drop_last();
        lemma_only_groups(less);
        assert(less.push(ipv4_text(octets)) =~= parts);
        (less, Some(octets))
    } else {
        lemma_only_groups(parts);
        (parts, None)
    }
}

proof fn lemma_colons_stand(s: Seq<char>, from: int)
    requires
        0 <= from,
        colons(s, from) < s.len(),
    ensures
        from <= colons(s, from) < s.len() - 1,
        s[colons(s, from)] == ':' && s[colons(s, from) + 1] == ':',
    decreases s.len() - from,
{
    if from + 1 < s.len() && !(s[from] == ':' && s[from + 1] == ':') {
        lemma_colons_stand(s, from + 1);
    }
}

proof fn lemma_side_is(t: Seq<char>)
    ensures
        join(side(t), ':') == t,
{
    if t.len() > 0 {
        crate::text::lemma_join_split(t, ':');
    } else {
        assert(t =~= Seq::empty());
    }
}

/// No other text is an IPv6 address: one that is read consists of eight groups of one to
/// four hexadecimal digits, the last two of which may be a dotted IPv4 text, or of fewer
/// around a pair of colons. Gives whether there is such a pair, the groups before it or all
/// of them, those behind it, and the octets of the dotted text.
pub proof fn law_ipv6_no_other_form(s: Seq<char>) -> (r: (
    bool,
    Seq<Seq<char>>,
    Seq<Seq<char>>,
    Option<Seq<u8>>,
))
    requires
        ipv6(s) is Some,
    ensures
        ({
            let (gap, head, tail, dotted) = r;
            &&& forall|i: int| 0 <= i < head.len() ==> is_group(#[trigger] head[i])
            &&& forall|i: int| 0 <= i < tail.len() ==> is_group(#[trigger] tail[i])
            &&& dotted is Some ==> dotted->Some_0.len() == 4
            &&& gap ==> s == join(head, ':') + seq![':', ':'] + join(
                with_dotted(tail, dotted),
                ':',
            ) && 2 * head.len() + 2 * tail.len() + dotted_octets(dotted).len() <= 14
            &&& !gap ==> s == join(with_dotted(head, dotted), ':') && 2 * head.len()
                + dotted_octets(dotted).len() == 16
        }),
{
    let at = colons(s, 0);
    if at < s.len() {
        lemma_colons_stand(s, 0);
        let a = s.take(at);
        let b = s.skip(at + 2);
        let head = side(a);
        lemma_only_groups(head);
        let (tail, dotted) = lemma_only_tails(side(b));
        lemma_side_is(a);
        lemma_side_is(b);
        assert(s =~= a + seq![':', ':'] + b);
        (true, head, tail, dotted)
    } else {
        let (head, dotted) = lemma_only_tails(split(s, ':'));
        crate::text::lemma_join_split(s, ':');
        (false, head, Seq::empty(), dotted)
    }
}

} // verus!
