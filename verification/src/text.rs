//! Text as sequences of characters: splitting, joining and numbers.

use vstd::prelude::*;
use vstd::utf8::{decode_utf8, encode_utf8, is_ascii_chars, valid_utf8};

verus! {

/// `String::from_utf8` succeeds on UTF-8 alone, and the text is what the bytes
/// encode.
#[verifier::external_body]
pub(crate) fn string_from_utf8(bytes: Vec<u8>) -> (r: Option<String>)
    ensures
        r is Some <==> valid_utf8(bytes@),
        r is Some ==> r->Some_0@ == decode_utf8(bytes@),
{
    String::from_utf8(bytes).ok()
}

/// The characters of a text.
pub fn chars_of(s: &str) -> (r: Vec<char>)
    ensures
        r@ == s@,
{
    let mut r: Vec<char> = Vec::new();
    for c in it: s.chars()
        invariant
            r@ == it.seq().take(it.index() as int),
            it.seq() == s@,
    {
        r.push(c);
        assert(r@ =~= it.seq().take(it.index() as int + 1));
    }
    assert(r@ =~= s@);
    r
}

/// The text of a list of ASCII characters.
pub fn ascii_string(chars: &Vec<char>) -> (r: String)
    requires
        is_ascii_chars(chars@),
    ensures
        r@ == chars@,
{
    let mut bytes: Vec<u8> = Vec::new();
    let mut i: usize = 0;
    while i < chars.len()
        invariant
            i <= chars@.len(),
            bytes@.len() == i,
            forall|j: int| 0 <= j < i ==> #[trigger] bytes@[j] == chars@[j] as u8,
        decreases chars.len() - i,
    {
        bytes.push(chars[i] as u8);
        i = i + 1;
    }
    proof {
        vstd::utf8::is_ascii_chars_encode_utf8(chars@);
        assert(bytes@ =~= encode_utf8(chars@));
        vstd::utf8::encode_utf8_valid_utf8(chars@);
        vstd::utf8::encode_utf8_decode_utf8(chars@);
    }
    match string_from_utf8(bytes) {
        Some(s) => s,
        None => String::new(),
    }
}

// ── Splitting and joining ─────────────────────────────────────────────

/// A text cut at every `c`.
pub open spec fn split(s: Seq<char>, c: char) -> Seq<Seq<char>>
    decreases s.len(),
{
    if s.len() == 0 {
        seq![Seq::empty()]
    } else {
        let p = split(s.drop_last(), c);
        if s.last() == c {
            p.push(Seq::empty())
        } else {
            p.drop_last().push(p.last().push(s.last()))
        }
    }
}

/// Texts put together with a `c` between any two.
pub open spec fn join(parts: Seq<Seq<char>>, c: char) -> Seq<char>
    decreases parts.len(),
{
    if parts.len() == 0 {
        Seq::empty()
    } else if parts.len() == 1 {
        parts[0]
    } else {
        join(parts.drop_last(), c).push(c) + parts.last()
    }
}

/// A split has at least one part.
pub proof fn lemma_split_len(s: Seq<char>, c: char)
    ensures
        split(s, c).len() >= 1,
    decreases s.len(),
{
    if s.len() > 0 {
        lemma_split_len(s.drop_last(), c);
    }
}

/// A text without a `c` is one part.
pub proof fn lemma_split_plain(s: Seq<char>, c: char)
    requires
        !s.contains(c),
    ensures
        split(s, c) == seq![s],
    decreases s.len(),
{
    if s.len() == 0 {
        assert(s =~= Seq::empty());
    } else {
        assert(s.last() == s[s.len() - 1]);
        assert(!s.drop_last().contains(c)) by {
            if s.drop_last().contains(c) {
                let i = s.drop_last().index_of(c);
                assert(s[i] == c);
            }
        }
        lemma_split_plain(s.drop_last(), c);
        assert(s.drop_last().push(s.last()) =~= s);
        assert(split(s, c) =~= seq![s]);
    }
}

/// What follows the last `c` is the last part.
pub proof fn lemma_split_append(s: Seq<char>, piece: Seq<char>, c: char)
    requires
        !piece.contains(c),
    ensures
        split(s.push(c) + piece, c) == split(s, c).push(piece),
    decreases piece.len(),
{
    let t = s.push(c) + piece;
    if piece.len() == 0 {
        assert(t =~= s.push(c));
        assert(s.push(c).drop_last() =~= s);
        assert(piece =~= Seq::empty());
    } else {
        let less = piece.drop_last();
        assert(!less.contains(c)) by {
            if less.contains(c) {
                let i = less.index_of(c);
                assert(piece[i] == c);
            }
        }
        lemma_split_append(s, less, c);
        assert(t.drop_last() =~= s.push(c) + less);
        assert(t.last() == piece.last());
        assert(piece.last() == piece[piece.len() - 1]);
        assert(split(s, c).push(less).drop_last() =~= split(s, c));
        assert(less.push(piece.last()) =~= piece);
    }
}

/// Parts without a `c` come back from the text that joins them.
pub proof fn lemma_split_join(parts: Seq<Seq<char>>, c: char)
    requires
        parts.len() >= 1,
        forall|i: int| 0 <= i < parts.len() ==> !(#[trigger] parts[i]).contains(c),
    ensures
        split(join(parts, c), c) == parts,
    decreases parts.len(),
{
    if parts.len() == 1 {
        lemma_split_plain(parts[0], c);
        assert(seq![parts[0]] =~= parts);
    } else {
        let less = parts.drop_last();
        assert forall|i: int| 0 <= i < less.len() implies !(#[trigger] less[i]).contains(c) by {
            assert(less[i] == parts[i]);
        }
        lemma_split_join(less, c);
        assert(!parts[parts.len() - 1].contains(c));
        lemma_split_append(join(less, c), parts.last(), c);
        assert(less.push(parts.last()) =~= parts);
    }
}

/// Parts that were split give the text back.
pub proof fn lemma_join_split(s: Seq<char>, c: char)
    ensures
        join(split(s, c), c) == s,
    decreases s.len(),
{
    lemma_split_len(s, c);
    if s.len() == 0 {
        assert(s =~= Seq::empty());
    } else {
        let p = split(s.drop_last(), c);
        lemma_split_len(s.drop_last(), c);
        lemma_join_split(s.drop_last(), c);
        if s.last() == c {
            assert(p.push(Seq::<char>::empty()).drop_last() =~= p);
            assert(join(split(s, c), c) =~= s);
        } else {
            let q = p.drop_last().push(p.last().push(s.last()));
            assert(q.drop_last() =~= p.drop_last());
            if p.len() == 1 {
                assert(join(q, c) =~= s);
            } else {
                assert(join(q, c) =~= join(p, c).push(s.last()));
                assert(join(p, c).push(s.last()) =~= s);
            }
        }
    }
}

/// The parts of a list of lists of characters.
pub open spec fn part_views(parts: Seq<Vec<char>>) -> Seq<Seq<char>> {
    parts.map_values(|p: Vec<char>| p@)
}

/// Cuts a text at every `c`.
pub fn split_at(s: &Vec<char>, c: char) -> (r: Vec<Vec<char>>)
    ensures
        part_views(r@) == split(s@, c),
        r@.len() >= 1,
{
    let mut done: Vec<Vec<char>> = Vec::new();
    let mut last: Vec<char> = Vec::new();
    let mut i: usize = 0;
    assert(s@.take(0) =~= Seq::empty());
    assert(part_views(done@).push(last@) =~= split(s@.take(0), c));
    while i < s.len()
        invariant
            i <= s@.len(),
            part_views(done@).push(last@) == split(s@.take(i as int), c),
        decreases s.len() - i,
    {
        let x: char = s[i];
        let ghost before = part_views(done@).push(last@);
        proof {
            assert(s@.take(i + 1).drop_last() =~= s@.take(i as int));
            assert(before.drop_last() =~= part_views(done@));
            assert(before.last() == last@);
        }
        if x == c {
            let ghost was = done@;
            done.push(last);
            assert(part_views(done@) =~= part_views(was).push(last@));
            last = Vec::new();
            assert(part_views(done@).push(last@) =~= split(s@.take(i + 1), c));
        } else {
            last.push(x);
            assert(part_views(done@).push(last@) =~= split(s@.take(i + 1), c));
        }
        i = i + 1;
    }
    assert(s@.take(i as int) =~= s@);
    let ghost was = done@;
    done.push(last);
    assert(part_views(done@) =~= part_views(was).push(last@));
    done
}

// ── Numbers ───────────────────────────────────────────────────────────

/// A decimal digit.
pub open spec fn is_digit(c: char) -> bool {
    '0' <= c <= '9'
}

/// Nothing but decimal digits.
pub open spec fn all_digits(s: Seq<char>) -> bool {
    forall|i: int| 0 <= i < s.len() ==> is_digit(#[trigger] s[i])
}

/// The number that a run of decimal digits stands for.
pub open spec fn dec_value(s: Seq<char>) -> nat
    decreases s.len(),
{
    if s.len() == 0 {
        0
    } else {
        dec_value(s.drop_last()) * 10 + (s.last() as u32 - 48) as nat
    }
}

/// A number in decimal, without leading zeros.
pub open spec fn dec(n: nat) -> Seq<char>
    decreases n,
{
    if n < 10 {
        seq![(48 + n) as char]
    } else {
        dec(n / 10).push((48 + n % 10) as char)
    }
}

/// A number in decimal is made of digits, stands for itself and has no leading zero.
pub proof fn lemma_dec(n: nat)
    ensures
        dec(n).len() >= 1,
        all_digits(dec(n)),
        dec_value(dec(n)) == n,
        dec(n).len() > 1 ==> dec(n)[0] != '0',
        n > 0 ==> dec(n)[0] != '0',
    decreases n,
{
    if n < 10 {
        assert(dec(n).drop_last() =~= Seq::empty());
        reveal_with_fuel(dec_value, 2);
    } else {
        lemma_dec(n / 10);
        assert(dec(n).drop_last() =~= dec(n / 10));
        assert(dec(n)[0] == dec(n / 10)[0]);
    }
}

/// Digits without a leading zero are the number in decimal.
pub proof fn lemma_dec_unique(s: Seq<char>)
    requires
        s.len() >= 1,
        all_digits(s),
        s.len() > 1 ==> s[0] != '0',
    ensures
        s == dec(dec_value(s)),
    decreases s.len(),
{
    let d = (s.last() as u32 - 48) as nat;
    assert(is_digit(s[s.len() - 1]));
    if s.len() == 1 {
        assert(s.drop_last() =~= Seq::empty());
        reveal_with_fuel(dec_value, 2);
        assert(s =~= dec(d));
    } else {
        let less = s.drop_last();
        assert forall|i: int| 0 <= i < less.len() implies is_digit(#[trigger] less[i]) by {
            assert(less[i] == s[i]);
        }
        assert(less[0] == s[0]);
        lemma_dec_unique(less);
        lemma_dec(dec_value(less));
        if dec_value(less) == 0 {
            assert(less =~= dec(0));
            assert(dec(0)[0] == '0');
        }
        let n = dec_value(s);
        assert(n == dec_value(less) * 10 + d);
        assert(n / 10 == dec_value(less) && n % 10 == d);
        assert(s =~= less.push(s.last()));
    }
}

/// Longer runs of digits stand for numbers at least as large.
pub proof fn lemma_dec_value_prefix(s: Seq<char>, n: int)
    requires
        0 <= n <= s.len(),
        all_digits(s),
    ensures
        dec_value(s.take(n)) <= dec_value(s),
    decreases s.len(),
{
    if n < s.len() {
        let less = s.drop_last();
        assert forall|i: int| 0 <= i < less.len() implies is_digit(#[trigger] less[i]) by {
            assert(less[i] == s[i]);
        }
        lemma_dec_value_prefix(less, n);
        assert(less.take(n) =~= s.take(n));
        assert(is_digit(s[s.len() - 1]));
    } else {
        assert(s.take(n) =~= s);
    }
}

/// Reads decimal digits as a number of at most `max`.
pub fn read_digits(s: &Vec<char>, from: usize, max: u32) -> (r: Option<u32>)
    requires
        from <= s@.len(),
        max <= 0xffff,
    ensures
        ({
            let d = s@.skip(from as int);
            &&& r is Some <==> d.len() >= 1 && all_digits(d) && dec_value(d) <= max
            &&& r is Some ==> r->Some_0 == dec_value(d)
        }),
{
    let ghost d = s@.skip(from as int);
    if from == s.len() {
        return None;
    }
    let mut v: u32 = 0;
    let mut i: usize = from;
    assert(d.take(0) =~= Seq::empty());
    while i < s.len()
        invariant
            from <= i <= s@.len(),
            max <= 0xffff,
            d == s@.skip(from as int),
            v <= max,
            forall|j: int| 0 <= j < i - from ==> is_digit(#[trigger] d[j]),
            v == dec_value(d.take(i - from)),
        decreases s.len() - i,
    {
        let c: char = s[i];
        assert(d[i - from] == c);
        if !(c >= '0' && c <= '9') {
            return None;
        }
        let next: u32 = v * 10 + (c as u32 - 48);
        proof {
            assert(d.take(i - from + 1).drop_last() =~= d.take(i - from));
            assert(next == dec_value(d.take(i - from + 1)));
            if all_digits(d) {
                lemma_dec_value_prefix(d, i - from + 1);
            }
        }
        if next > max {
            return None;
        }
        v = next;
        i = i + 1;
    }
    assert(d.take(i - from) =~= d);
    Some(v)
}

/// A hexadecimal digit.
pub open spec fn is_hex(c: char) -> bool {
    is_digit(c) || 'a' <= c <= 'f' || 'A' <= c <= 'F'
}

/// What a hexadecimal digit stands for.
pub open spec fn hex_digit(c: char) -> nat {
    if is_digit(c) {
        (c as u32 - 48) as nat
    } else if 'a' <= c <= 'f' {
        (c as u32 - 87) as nat
    } else {
        (c as u32 - 55) as nat
    }
}

/// The number that a run of hexadecimal digits stands for.
pub open spec fn hex_value(s: Seq<char>) -> nat
    decreases s.len(),
{
    if s.len() == 0 {
        0
    } else {
        hex_value(s.drop_last()) * 16 + hex_digit(s.last())
    }
}

/// A number below 16 as a lower-case hexadecimal digit.
pub open spec fn hex_char(n: nat) -> char {
    if n < 10 {
        (48 + n) as char
    } else {
        (87 + n) as char
    }
}

/// A number below 16 as a lower-case hexadecimal digit.
pub fn to_hex_char(n: u8) -> (r: char)
    requires
        n < 16,
    ensures
        r == hex_char(n as nat),
        is_hex(r),
        hex_digit(r) == n,
{
    let c: u8 = if n < 10 {
        48 + n
    } else {
        87 + n
    };
    c as char
}

/// Appends a number in decimal.
pub fn push_dec(out: &mut Vec<char>, n: u64)
    ensures
        final(out)@ == old(out)@ + dec(n as nat),
    decreases n,
{
    if n >= 10 {
        push_dec(out, n / 10);
    }
    let d: u8 = (n % 10) as u8;
    out.push((48 + d) as char);
    assert(out@ =~= old(out)@ + dec(n as nat));
}

/// The number from 0 to 65535 that a text stands for: decimal digits, with a plus sign
/// before them or without.
pub open spec fn u16_value(s: Seq<char>) -> Option<u16> {
    let d = if s.len() > 0 && s[0] == '+' {
        s.skip(1)
    } else {
        s
    };
    if d.len() >= 1 && all_digits(d) && dec_value(d) <= 65535 {
        Some(dec_value(d) as u16)
    } else {
        None
    }
}

/// Reads a number from 0 to 65535.
pub fn parse_u16(s: &Vec<char>) -> (r: Option<u16>)
    ensures
        r == u16_value(s@),
{
    let from: usize = if s.len() > 0 && s[0] == '+' {
        1
    } else {
        0
    };
    assert(s@.skip(0) =~= s@);
    match read_digits(s, from, 65535) {
        Some(v) => Some(v as u16),
        None => None,
    }
}

// ── White space ───────────────────────────────────────────────────────

/// The characters with the Unicode property `White_Space`.
pub open spec fn is_white(c: char) -> bool {
    let n = c as u32;
    ||| 0x09 <= n <= 0x0d
    ||| n == 0x20
    ||| n == 0x85
    ||| n == 0xa0
    ||| n == 0x1680
    ||| 0x2000 <= n <= 0x200a
    ||| n == 0x2028
    ||| n == 0x2029
    ||| n == 0x202f
    ||| n == 0x205f
    ||| n == 0x3000
}

/// Whether a character is white space.
pub fn is_white_space(c: char) -> (r: bool)
    ensures
        r == is_white(c),
{
    let n: u32 = c as u32;
    (n >= 0x09 && n <= 0x0d) || n == 0x20 || n == 0x85 || n == 0xa0 || n == 0x1680 || (n >= 0x2000
        && n <= 0x200a) || n == 0x2028 || n == 0x2029 || n == 0x202f || n == 0x205f || n == 0x3000
}

/// A text without the white space that it begins with.
pub open spec fn trim_start(s: Seq<char>) -> Seq<char>
    decreases s.len(),
{
    if s.len() > 0 && is_white(s[0]) {
        trim_start(s.skip(1))
    } else {
        s
    }
}

/// A text without the white space that it ends with.
pub open spec fn trim_end(s: Seq<char>) -> Seq<char>
    decreases s.len(),
{
    if s.len() > 0 && is_white(s.last()) {
        trim_end(s.drop_last())
    } else {
        s
    }
}

/// A text without the white space around it.
pub open spec fn trim(s: Seq<char>) -> Seq<char> {
    trim_end(trim_start(s))
}

/// The part of a text from `from` to `to`, without the white space around it.
pub fn trimmed(s: &Vec<char>, from: usize, to: usize) -> (r: Vec<char>)
    requires
        from <= to <= s@.len(),
    ensures
        r@ == trim(s@.subrange(from as int, to as int)),
{
    let ghost whole = s@.subrange(from as int, to as int);
    let mut a: usize = from;
    while a < to && is_white_space(s[a])
        invariant
            from <= a <= to <= s@.len(),
            whole == s@.subrange(from as int, to as int),
            trim_start(whole) == trim_start(s@.subrange(a as int, to as int)),
        decreases to - a,
    {
        assert(s@.subrange(a as int, to as int).skip(1) =~= s@.subrange(a + 1, to as int));
        a = a + 1;
    }
    let ghost rest = s@.subrange(a as int, to as int);
    assert(trim_start(whole) == rest);
    let mut b: usize = to;
    while b > a && is_white_space(s[b - 1])
        invariant
            a <= b <= to <= s@.len(),
            rest == s@.subrange(a as int, to as int),
            trim_end(rest) == trim_end(s@.subrange(a as int, b as int)),
        decreases b - a,
    {
        assert(s@.subrange(a as int, b as int).drop_last() =~= s@.subrange(a as int, b - 1));
        b = b - 1;
    }
    assert(trim_end(rest) == s@.subrange(a as int, b as int));
    vstd::slice::slice_to_vec(vstd::slice::slice_subrange(s.as_slice(), a, b))
}

/// Whether two texts are the same.
pub fn same_text(a: &str, b: &str) -> (r: bool)
    ensures
        r == (a@ == b@),
{
    let x = chars_of(a);
    let y = chars_of(b);
    if x.len() != y.len() {
        return false;
    }
    let mut i: usize = 0;
    while i < x.len()
        invariant
            i <= x@.len(),
            x@ == a@,
            y@ == b@,
            x@.len() == y@.len(),
            forall|j: int| 0 <= j < i ==> #[trigger] x@[j] == y@[j],
        decreases x.len() - i,
    {
        if x[i] != y[i] {
            assert(x@[i as int] != y@[i as int]);
            return false;
        }
        i = i + 1;
    }
    assert(x@ =~= y@);
    true
}

} // verus!
