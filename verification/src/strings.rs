//! Text: comparing it, searching it, and building keys and messages from it.

use vstd::prelude::*;
use vstd::string::*;
use vstd::utf8::*;

use crate::order;
use crate::order::{compare_bytes, same_bytes, Order};

verus! {

/// `std::string::String::push` appends one character.
pub assume_specification[ std::string::String::push ](s: &mut std::string::String, c: char)
    ensures
        final(s)@ == old(s)@.push(c),
;

/// Calls `String::from_utf8`. Claimed: it succeeds exactly on valid UTF-8, and
/// then gives the text whose encoding the bytes are.
#[verifier::external_body]
fn string_from_utf8(bytes: Vec<u8>) -> (r: Option<String>)
    ensures
        r is Some == valid_utf8(bytes@),
        r is Some ==> encode_utf8(r->Some_0@) == bytes@,
{
    String::from_utf8(bytes).ok()
}

/// The text that valid UTF-8 encodes.
pub fn text_from_utf8(bytes: Vec<u8>) -> (r: Option<String>)
    ensures
        r is Some == valid_utf8(bytes@),
        r is Some ==> encode_utf8(r->Some_0@) == bytes@,
        r is Some ==> r->Some_0@ == decode_utf8(bytes@),
{
    let r = string_from_utf8(bytes);
    proof {
        if r is Some {
            encode_utf8_decode_utf8(r->Some_0@);
        }
    }
    r
}

/// Different texts have different encodings.
pub proof fn lemma_encoding_injective(a: Seq<char>, b: Seq<char>)
    requires
        encode_utf8(a) == encode_utf8(b),
    ensures
        a == b,
{
    encode_utf8_decode_utf8(a);
    encode_utf8_decode_utf8(b);
}

/// `a` sorts strictly before `b`, by the bytes of their encodings.
pub open spec fn text_lt(a: Seq<char>, b: Seq<char>) -> bool {
    order::lex_lt(encode_utf8(a), encode_utf8(b))
}

/// The order of `a` relative to `b`, by the bytes of their encodings.
pub open spec fn text_order(a: Seq<char>, b: Seq<char>) -> Order {
    if a == b {
        Order::Equal
    } else if text_lt(a, b) {
        Order::Less
    } else {
        Order::Greater
    }
}

/// The order of `a` relative to `b`.
pub fn compare_text(a: &str, b: &str) -> (o: Order)
    ensures
        o == text_order(a@, b@),
{
    proof {
        if encode_utf8(a@) == encode_utf8(b@) {
            lemma_encoding_injective(a@, b@);
        }
    }
    compare_bytes(a.as_bytes(), b.as_bytes())
}

/// Whether two texts are the same.
pub fn same_text(a: &str, b: &str) -> (same: bool)
    ensures
        same == (a@ == b@),
{
    proof {
        if encode_utf8(a@) == encode_utf8(b@) {
            lemma_encoding_injective(a@, b@);
        }
    }
    same_bytes(a.as_bytes(), b.as_bytes())
}

/// The characters of a text.
pub fn chars_of(s: &str) -> (v: Vec<char>)
    ensures
        v@ == s@,
{
    let mut v: Vec<char> = Vec::new();
    for c in it: s.chars()
        invariant
            v@ == it.seq().take(it.index() as int),
            it.seq() == s@,
    {
        let ghost before = v@;
        v.push(c);
        assert(v@ =~= it.seq().take(it.index() + 1));
    }
    assert(v@ =~= s@);
    v
}

/// A text with the given characters.
pub fn text_of(chars: &[char]) -> (s: String)
    ensures
        s@ == chars@,
{
    let mut s = String::new();
    let mut i: usize = 0;
    while i < chars.len()
        invariant
            i <= chars@.len(),
            s@ == chars@.take(i as int),
        decreases chars@.len() - i,
    {
        s.push(chars[i]);
        i = i + 1;
        assert(s@ =~= chars@.take(i as int));
    }
    assert(s@ =~= chars@);
    s
}

/// A text made of two.
pub fn text2(a: &str, b: &str) -> (s: String)
    ensures
        s@ == a@ + b@,
{
    let mut s = a.to_owned();
    s.append(b);
    s
}

/// A text made of three.
pub fn text3(a: &str, b: &str, c: &str) -> (s: String)
    ensures
        s@ == a@ + b@ + c@,
{
    let mut s = a.to_owned();
    s.append(b);
    s.append(c);
    s
}

/// Whether `s` begins with `prefix`.
pub open spec fn has_prefix(s: Seq<char>, prefix: Seq<char>) -> bool {
    prefix.len() <= s.len() && s.subrange(0, prefix.len() as int) == prefix
}

/// Whether `needle` occurs in `s` at `i`.
pub open spec fn occurs_at(s: Seq<char>, needle: Seq<char>, i: int) -> bool {
    0 <= i && i + needle.len() <= s.len() && s.subrange(i, (i + needle.len()) as int) == needle
}

/// Whether `needle` occurs in `s`.
pub open spec fn occurs_in(s: Seq<char>, needle: Seq<char>) -> bool {
    exists|i: int| #[trigger] occurs_at(s, needle, i)
}

fn occurs_here(s: &Vec<char>, needle: &Vec<char>, at: usize) -> (b: bool)
    requires
        at + needle@.len() <= s@.len(),
    ensures
        b == occurs_at(s@, needle@, at as int),
{
    let total: usize = s.len();
    let mut k: usize = 0;
    while k < needle.len()
        invariant
            k <= needle@.len(),
            total == s@.len(),
            at + needle@.len() <= total,
            forall|j: int| 0 <= j < k ==> s@[at + j] == needle@[j],
        decreases needle@.len() - k,
    {
        if s[at + k] != needle[k] {
            assert(s@.subrange(at as int, (at + needle@.len()) as int)[k as int] != needle@[k as int]);
            return false;
        }
        k = k + 1;
    }
    assert(s@.subrange(at as int, (at + needle@.len()) as int) =~= needle@);
    true
}

/// Whether `s` begins with `prefix`.
pub fn starts_with(s: &str, prefix: &str) -> (b: bool)
    ensures
        b == has_prefix(s@, prefix@),
{
    let sc = chars_of(s);
    let pc = chars_of(prefix);
    if pc.len() > sc.len() {
        return false;
    }
    occurs_here(&sc, &pc, 0)
}

/// Whether `needle` occurs in `s`.
pub fn contains(s: &str, needle: &str) -> (b: bool)
    ensures
        b == occurs_in(s@, needle@),
{
    let sc = chars_of(s);
    let nc = chars_of(needle);
    if nc.len() > sc.len() {
        assert forall|j: int| !#[trigger] occurs_at(s@, needle@, j) by {}
        return false;
    }
    let last: usize = sc.len() - nc.len();
    let mut i: usize = 0;
    while i < last
        invariant
            i <= last,
            last == sc@.len() - nc@.len(),
            sc@ == s@,
            nc@ == needle@,
            forall|j: int| 0 <= j < i ==> !#[trigger] occurs_at(s@, needle@, j),
        decreases last - i,
    {
        if occurs_here(&sc, &nc, i) {
            return true;
        }
        i = i + 1;
    }
    let b = occurs_here(&sc, &nc, i);
    assert forall|j: int| #[trigger] occurs_at(s@, needle@, j) implies b by {
        assert(j <= last);
    }
    b
}

/// The digit `d` of ten.
pub open spec fn digit(d: nat) -> char {
    (48 + d) as char
}

/// `n` in decimal digits, without leading zeros.
pub open spec fn decimal(n: nat) -> Seq<char>
    decreases n,
{
    if n < 10 {
        seq![digit(n)]
    } else {
        decimal(n / 10).push(digit(n % 10))
    }
}

/// Appends `n` in decimal digits.
pub fn push_decimal(s: &mut String, n: u64)
    ensures
        final(s)@ == old(s)@ + decimal(n as nat),
    decreases n,
{
    if n >= 10 {
        push_decimal(s, n / 10);
    }
    let d: u8 = (n % 10) as u8;
    s.push((48 + d) as char);
    assert(s@ =~= old(s)@ + decimal(n as nat));
}

/// `n` in decimal digits.
pub fn decimal_text(n: u64) -> (s: String)
    ensures
        s@ == decimal(n as nat),
{
    let mut s = String::new();
    push_decimal(&mut s, n);
    assert(s@ =~= decimal(n as nat));
    s
}

/// The number that decimal digits stand for; `None` if one of the characters is
/// not a digit.
pub open spec fn digits_value(s: Seq<char>) -> Option<nat>
    decreases s.len(),
{
    if s.len() == 0 {
        Some(0)
    } else {
        match digits_value(s.drop_last()) {
            None => None,
            Some(v) => if '0' <= s.last() <= '9' {
                Some(10 * v + (s.last() as nat - 48) as nat)
            } else {
                None
            },
        }
    }
}

/// The digits behind an optional plus sign.
pub open spec fn unsigned_digits(s: Seq<char>) -> Seq<char> {
    if s.len() > 0 && s[0] == '+' {
        s.drop_first()
    } else {
        s
    }
}

/// The number that a text stands for: an optional plus sign and at least one
/// digit.
pub open spec fn unsigned_value(s: Seq<char>) -> Option<nat> {
    if unsigned_digits(s).len() == 0 {
        None
    } else {
        digits_value(unsigned_digits(s))
    }
}

proof fn lemma_digits_prefix(s: Seq<char>, n: int)
    requires
        0 <= n <= s.len(),
    ensures
        digits_value(s) is Some ==> digits_value(s.take(n)) is Some && digits_value(
            s.take(n),
        )->Some_0 <= digits_value(s)->Some_0,
    decreases s.len() - n,
{
    if n < s.len() {
        lemma_digits_prefix(s, n + 1);
        let t = s.take(n + 1);
        assert(t.drop_last() =~= s.take(n));
    } else {
        assert(s.take(n) =~= s);
    }
}

/// The number in the characters from `from` on, if they are digits and the
/// number is at most `max`.
fn parse_digits(chars: &Vec<char>, from: usize, max: u64) -> (r: Option<u64>)
    requires
        from <= chars@.len(),
    ensures
        match digits_value(chars@.skip(from as int)) {
            Some(v) => if v <= max {
                r is Some && r->Some_0 as nat == v
            } else {
                r is None
            },
            None => r is None,
        },
{
    let ghost s = chars@.skip(from as int);
    let mut v: u64 = 0;
    let mut i: usize = from;
    assert(s.take(0) =~= Seq::empty());
    while i < chars.len()
        invariant
            from <= i <= chars@.len(),
            s == chars@.skip(from as int),
            v <= max,
            digits_value(s.take(i - from)) == Some(v as nat),
        decreases chars@.len() - i,
    {
        let c = chars[i];
        let ghost t = s.take(i - from + 1);
        assert(t.drop_last() =~= s.take(i - from));
        assert(t.last() == c);
        proof {
            lemma_digits_prefix(s, i - from + 1);
        }
        if !('0' <= c && c <= '9') {
            return None;
        }
        let d: u64 = (c as u32 - 48) as u64;
        if v > max / 10 {
            return None;
        }
        if d > max || 10 * v > max - d {
            return None;
        }
        v = 10 * v + d;
        i = i + 1;
    }
    assert(s.take(i - from) =~= s);
    Some(v)
}

/// Parses an unsigned number of at most `max`.
pub fn parse_unsigned(s: &str, max: u64) -> (r: Option<u64>)
    ensures
        match unsigned_value(s@) {
            Some(v) => if v <= max {
                r is Some && r->Some_0 as nat == v
            } else {
                r is None
            },
            None => r is None,
        },
{
    let chars = chars_of(s);
    if chars.len() == 0 {
        return None;
    }
    let from: usize = if chars[0] == '+' {
        1
    } else {
        0
    };
    assert(chars@.skip(from as int) =~= unsigned_digits(s@));
    if chars.len() == from {
        return None;
    }
    parse_digits(&chars, from, max)
}

/// The number that a text stands for: an optional sign and at least one digit.
pub open spec fn signed_value(s: Seq<char>) -> Option<int> {
    if s.len() > 0 && s[0] == '-' {
        if s.len() == 1 {
            None
        } else {
            match digits_value(s.drop_first()) {
                None => None,
                Some(v) => Some(-(v as int)),
            }
        }
    } else {
        match unsigned_value(s) {
            None => None,
            Some(v) => Some(v as int),
        }
    }
}

/// Parses a signed 64-bit number.
pub fn parse_i64(s: &str) -> (r: Option<i64>)
    ensures
        match signed_value(s@) {
            Some(v) => if i64::MIN <= v <= i64::MAX {
                r is Some && r->Some_0 == v
            } else {
                r is None
            },
            None => r is None,
        },
{
    let chars = chars_of(s);
    if chars.len() > 0 && chars[0] == '-' {
        assert(chars@.skip(1) =~= s@.drop_first());
        if chars.len() == 1 {
            return None;
        }
        match parse_digits(&chars, 1, 0x8000_0000_0000_0000) {
            None => None,
            Some(v) => if v == 0x8000_0000_0000_0000 {
                Some(i64::MIN)
            } else {
                Some(-(v as i64))
            },
        }
    } else {
        match parse_unsigned(s, 0x7fff_ffff_ffff_ffff) {
            None => None,
            Some(v) => Some(v as i64),
        }
    }
}

/// The lowercase hexadecimal digit `d` of sixteen.
pub open spec fn hex_digit(d: nat) -> char {
    if d < 10 {
        (48 + d) as char
    } else {
        (87 + d) as char
    }
}

/// Each byte as two lowercase hexadecimal digits.
pub open spec fn hex_of(bytes: Seq<u8>) -> Seq<char>
    decreases bytes.len(),
{
    if bytes.len() == 0 {
        Seq::empty()
    } else {
        hex_of(bytes.drop_last()).push(hex_digit(bytes.last() as nat / 16)).push(
            hex_digit(bytes.last() as nat % 16),
        )
    }
}

/// The lowercase hexadecimal digit `d` of sixteen.
pub fn hex_char(d: u8) -> (c: char)
    requires
        d < 16,
    ensures
        c == hex_digit(d as nat),
{
    if d < 10 {
        (48 + d) as char
    } else {
        (87 + d) as char
    }
}

/// Each byte as two lowercase hexadecimal digits.
pub fn hex(bytes: &[u8]) -> (s: String)
    ensures
        s@ == hex_of(bytes@),
{
    let mut s = String::new();
    let mut i: usize = 0;
    assert(bytes@.take(0) =~= Seq::empty());
    while i < bytes.len()
        invariant
            i <= bytes@.len(),
            s@ == hex_of(bytes@.take(i as int)),
        decreases bytes@.len() - i,
    {
        let b = bytes[i];
        assert(bytes@.take(i + 1).drop_last() =~= bytes@.take(i as int));
        s.push(hex_char(b / 16));
        s.push(hex_char(b % 16));
        i = i + 1;
    }
    assert(bytes@.take(i as int) =~= bytes@);
    s
}

/// The characters from `from` up to, but without, `to`, as text.
pub fn text_between(chars: &Vec<char>, from: usize, to: usize) -> (s: String)
    requires
        from <= to <= chars@.len(),
    ensures
        s@ == chars@.subrange(from as int, to as int),
{
    text_of(vstd::slice::slice_subrange(chars.as_slice(), from, to))
}

/// Text without the `c`s that it starts with.
pub open spec fn trimmed_start(s: Seq<char>, c: char) -> Seq<char>
    decreases s.len(),
{
    if s.len() > 0 && s[0] == c {
        trimmed_start(s.drop_first(), c)
    } else {
        s
    }
}

/// Text without the `c`s that it ends with.
pub open spec fn trimmed_end(s: Seq<char>, c: char) -> Seq<char>
    decreases s.len(),
{
    if s.len() > 0 && s.last() == c {
        trimmed_end(s.drop_last(), c)
    } else {
        s
    }
}

/// Text without the `c`s that it starts and ends with.
pub fn trim_char(s: &str, c: char) -> (r: String)
    ensures
        r@ == trimmed_end(trimmed_start(s@, c), c),
{
    let chars = chars_of(s);
    let mut from: usize = 0;
    let len: usize = chars.len();
    assert(chars@.skip(0) =~= chars@);
    while from < len && chars[from] == c
        invariant
            from <= len,
            len == chars@.len(),
            trimmed_start(chars@, c) == trimmed_start(chars@.skip(from as int), c),
        decreases len - from,
    {
        assert(chars@.skip(from as int).drop_first() =~= chars@.skip(from + 1));
        from = from + 1;
    }
    let ghost front = chars@.skip(from as int);
    assert(trimmed_start(chars@, c) == front);
    let mut to: usize = len;
    assert(chars@.subrange(from as int, len as int) =~= front);
    while to > from && chars[to - 1] == c
        invariant
            from <= to <= len,
            len == chars@.len(),
            trimmed_end(front, c) == trimmed_end(chars@.subrange(from as int, to as int), c),
        decreases to - from,
    {
        assert(chars@.subrange(from as int, to as int).drop_last() =~= chars@.subrange(
            from as int,
            to - 1,
        ));
        to = to - 1;
    }
    text_between(&chars, from, to)
}

/// Text without the `c`s that it ends with.
pub fn trim_end_char(s: &str, c: char) -> (r: String)
    ensures
        r@ == trimmed_end(s@, c),
{
    let chars = chars_of(s);
    let len: usize = chars.len();
    let mut to: usize = len;
    assert(chars@.subrange(0, len as int) =~= chars@);
    while to > 0 && chars[to - 1] == c
        invariant
            to <= len,
            len == chars@.len(),
            trimmed_end(chars@, c) == trimmed_end(chars@.subrange(0, to as int), c),
        decreases to,
    {
        assert(chars@.subrange(0, to as int).drop_last() =~= chars@.subrange(0, to - 1));
        to = to - 1;
    }
    text_between(&chars, 0, to)
}

/// Whether `s` ends with `suffix`.
pub open spec fn has_suffix(s: Seq<char>, suffix: Seq<char>) -> bool {
    suffix.len() <= s.len() && s.subrange(s.len() - suffix.len(), s.len() as int) == suffix
}

/// Whether `s` ends with `suffix`.
pub fn ends_with(s: &str, suffix: &str) -> (b: bool)
    ensures
        b == has_suffix(s@, suffix@),
{
    let sc = chars_of(s);
    let xc = chars_of(suffix);
    if xc.len() > sc.len() {
        return false;
    }
    occurs_here(&sc, &xc, sc.len() - xc.len())
}

/// The first position of `c`; the length if there is none.
pub open spec fn first_char(s: Seq<char>, c: char) -> int
    decreases s.len(),
{
    if s.len() == 0 {
        0
    } else if s[0] == c {
        0
    } else {
        1 + first_char(s.drop_first(), c)
    }
}

proof fn lemma_first_char(s: Seq<char>, c: char, k: int)
    requires
        0 <= k <= s.len(),
        forall|j: int| 0 <= j < k ==> s[j] != c,
        k < s.len() ==> s[k] == c,
    ensures
        first_char(s, c) == k,
    decreases s.len(),
{
    if k > 0 {
        lemma_first_char(s.drop_first(), c, k - 1);
    }
}

/// The first position of `c`; the length if there is none.
pub fn find_char(chars: &Vec<char>, c: char) -> (k: usize)
    ensures
        k == first_char(chars@, c),
        k <= chars@.len(),
        k < chars@.len() ==> chars@[k as int] == c,
{
    let mut k: usize = 0;
    while k < chars.len()
        invariant
            k <= chars@.len(),
            forall|j: int| 0 <= j < k ==> chars@[j] != c,
        decreases chars@.len() - k,
    {
        if chars[k] == c {
            proof {
                lemma_first_char(chars@, c, k as int);
            }
            return k;
        }
        k = k + 1;
    }
    proof {
        lemma_first_char(chars@, c, k as int);
    }
    k
}

/// What follows the last `c`; `None` if there is none.
pub open spec fn after_last(s: Seq<char>, c: char) -> Option<Seq<char>>
    decreases s.len(),
{
    if s.len() == 0 {
        None
    } else if s.last() == c {
        Some(Seq::empty())
    } else {
        match after_last(s.drop_last(), c) {
            None => None,
            Some(rest) => Some(rest.push(s.last())),
        }
    }
}

proof fn lemma_after_last(s: Seq<char>, c: char, k: int)
    requires
        0 <= k < s.len(),
        s[k] == c,
        forall|j: int| k < j < s.len() ==> s[j] != c,
    ensures
        after_last(s, c) == Some(s.skip(k + 1)),
    decreases s.len(),
{
    if k < s.len() - 1 {
        lemma_after_last(s.drop_last(), c, k);
        assert(s.drop_last().skip(k + 1).push(s.last()) =~= s.skip(k + 1));
    } else {
        assert(s.skip(k + 1) =~= Seq::empty());
    }
}

proof fn lemma_no_last(s: Seq<char>, c: char)
    requires
        forall|j: int| 0 <= j < s.len() ==> s[j] != c,
    ensures
        after_last(s, c) is None,
    decreases s.len(),
{
    if s.len() > 0 {
        lemma_no_last(s.drop_last(), c);
    }
}

/// What follows the last `c`; `None` if there is none.
pub fn text_after_last(s: &str, c: char) -> (r: Option<String>)
    ensures
        match r {
            Some(t) => after_last(s@, c) == Some(t@),
            None => after_last(s@, c) is None,
        },
{
    let chars = chars_of(s);
    let len: usize = chars.len();
    let mut k: usize = len;
    while k > 0
        invariant
            k <= len,
            len == chars@.len(),
            chars@ == s@,
            forall|j: int| k <= j < len ==> chars@[j] != c,
        decreases k,
    {
        k = k - 1;
        if chars[k] == c {
            proof {
                lemma_after_last(s@, c, k as int);
                assert(chars@.subrange(k + 1, len as int) =~= s@.skip(k + 1));
            }
            return Some(text_between(&chars, k + 1, len));
        }
    }
    proof {
        lemma_no_last(s@, c);
    }
    None
}

// ---------------------------------------------------------------------------
// Laws
// ---------------------------------------------------------------------------

/// Reading the digits of a number gives it back, and they are nothing but digits.
pub proof fn law_decimal_reads_back(n: nat)
    ensures
        digits_value(decimal(n)) == Some(n),
        unsigned_value(decimal(n)) == Some(n),
        signed_value(decimal(n)) == Some(n as int),
        signed_value(seq!['-'] + decimal(n)) == Some(-(n as int)),
        decimal(n).len() > 0,
        n >= 10 ==> decimal(n)[0] != '0',
        forall|i: int| 0 <= i < decimal(n).len() ==> '0' <= (#[trigger] decimal(n)[i]) <= '9',
    decreases n,
{
    let d = decimal(n);
    if n >= 10 {
        law_decimal_reads_back(n / 10);
        if n / 10 < 10 {
            assert(decimal(n / 10)[0] == digit(n / 10));
        }
        assert(d.drop_last() =~= decimal(n / 10));
    } else {
        assert(d.drop_last() =~= Seq::empty());
        assert(d.last() == digit(n));
        reveal_with_fuel(digits_value, 2);
    }
    assert((seq!['-'] + d).drop_first() =~= d);
}

/// The only number that is written with some digits is the one that they read as.
pub proof fn law_numbers_are_written_apart(a: nat, b: nat)
    requires
        decimal(a) == decimal(b),
    ensures
        a == b,
{
    law_decimal_reads_back(a);
    law_decimal_reads_back(b);
}

/// Two texts that are alike and have parts without `c` before their first `c` have the
/// same parts.
pub proof fn lemma_same_split(a: Seq<char>, x: Seq<char>, b: Seq<char>, y: Seq<char>, c: char)
    requires
        a + x == b + y,
        !a.contains(c),
        !b.contains(c),
        x.len() > 0 && x[0] == c,
        y.len() > 0 && y[0] == c,
    ensures
        a == b,
        x == y,
{
    let all = a + x;
    if a.len() < b.len() {
        assert(all[a.len() as int] == c);
        assert((b + y)[a.len() as int] == b[a.len() as int]);
        assert(b.contains(b[a.len() as int]));
    } else if b.len() < a.len() {
        assert((b + y)[b.len() as int] == c);
        assert(all[b.len() as int] == a[b.len() as int]);
        assert(a.contains(a[b.len() as int]));
    }
    assert forall|i: int| 0 <= i < a.len() implies a[i] == b[i] by {
        assert(all[i] == a[i] && (b + y)[i] == b[i]);
    }
    assert(a =~= b);
    assert(all.skip(a.len() as int) =~= x);
    assert((b + y).skip(b.len() as int) =~= y);
}

/// Behind two numbers, each up to the same mark that is no digit, the texts are alike only
/// if the numbers are.
pub proof fn lemma_same_number(m: nat, x: Seq<char>, n: nat, y: Seq<char>, c: char)
    requires
        decimal(m) + x == decimal(n) + y,
        !('0' <= c <= '9'),
        x.len() > 0 && x[0] == c,
        y.len() > 0 && y[0] == c,
    ensures
        m == n,
        x == y,
{
    law_decimal_reads_back(m);
    law_decimal_reads_back(n);
    assert(!decimal(m).contains(c)) by {
        if decimal(m).contains(c) {
            let i = decimal(m).index_of(c);
            assert('0' <= decimal(m)[i] <= '9');
        }
    }
    assert(!decimal(n).contains(c)) by {
        if decimal(n).contains(c) {
            let i = decimal(n).index_of(c);
            assert('0' <= decimal(n)[i] <= '9');
        }
    }
    lemma_same_split(decimal(m), x, decimal(n), y, c);
}

/// The number that a hexadecimal digit stands for.
pub open spec fn hex_value(c: char) -> int {
    if c <= '9' {
        c as int - '0' as int
    } else {
        c as int - 'a' as int + 10
    }
}

/// Two hexadecimal digits for each byte, the first for its upper half, tell every byte.
pub proof fn law_hex_tells_the_bytes(bytes: Seq<u8>)
    ensures
        hex_of(bytes).len() == 2 * bytes.len(),
        forall|i: int|
            0 <= i < bytes.len() ==> 16 * hex_value(hex_of(bytes)[2 * i]) + hex_value(
                hex_of(bytes)[2 * i + 1],
            ) == #[trigger] bytes[i],
    decreases bytes.len(),
{
    if bytes.len() > 0 {
        let front = bytes.drop_last();
        law_hex_tells_the_bytes(front);
        let all = hex_of(bytes);
        assert forall|i: int| 0 <= i < bytes.len() implies 16 * hex_value(all[2 * i]) + hex_value(
            all[2 * i + 1],
        ) == #[trigger] bytes[i] by {
            if i < front.len() {
                assert(front[i] == bytes[i]);
                assert(all[2 * i] == hex_of(front)[2 * i]);
                assert(all[2 * i + 1] == hex_of(front)[2 * i + 1]);
            }
        }
    }
}

/// Bytes with the same hexadecimal digits are the same.
pub proof fn law_hex_is_told_apart(a: Seq<u8>, b: Seq<u8>)
    requires
        hex_of(a) == hex_of(b),
    ensures
        a == b,
{
    law_hex_tells_the_bytes(a);
    law_hex_tells_the_bytes(b);
    assert forall|i: int| 0 <= i < a.len() implies a[i] == b[i] by {
        assert(16 * hex_value(hex_of(a)[2 * i]) + hex_value(hex_of(a)[2 * i + 1]) == a[i]);
        assert(16 * hex_value(hex_of(b)[2 * i]) + hex_value(hex_of(b)[2 * i + 1]) == b[i]);
    }
    assert(a =~= b);
}

/// Trimming takes off what is the character, at that end alone, and leaves none there: what
/// is left has none at its end, and with what was taken off it is the whole text.
pub proof fn law_trimming_takes_off_the_ends(s: Seq<char>, c: char)
    ensures
        ({
            let r = trimmed_end(s, c);
            &&& r.len() <= s.len()
            &&& r == s.take(r.len() as int)
            &&& forall|i: int| r.len() <= i < s.len() ==> #[trigger] s[i] == c
            &&& r.len() > 0 ==> r.last() != c
        }),
        ({
            let r = trimmed_start(s, c);
            &&& r.len() <= s.len()
            &&& r == s.skip(s.len() - r.len())
            &&& forall|i: int| 0 <= i < s.len() - r.len() ==> #[trigger] s[i] == c
            &&& r.len() > 0 ==> r[0] != c
        }),
    decreases s.len(),
{
    if s.len() > 0 && s.last() == c {
        let front = s.drop_last();
        law_trimming_takes_off_the_ends(front, c);
        let r = trimmed_end(s, c);
        assert(r =~= s.take(r.len() as int));
        assert forall|i: int| r.len() <= i < s.len() implies #[trigger] s[i] == c by {
            if i < front.len() {
                assert(front[i] == s[i]);
            }
        }
    } else {
        assert(s.take(s.len() as int) =~= s);
    }
    if s.len() > 0 && s[0] == c {
        let rest = s.drop_first();
        law_trimming_takes_off_the_ends(rest, c);
        let r = trimmed_start(s, c);
        assert(r =~= s.skip(s.len() - r.len()));
        assert forall|i: int| 0 <= i < s.len() - r.len() implies #[trigger] s[i] == c by {
            if i > 0 {
                assert(rest[i - 1] == s[i]);
            }
        }
    } else {
        assert(s.skip(0) =~= s);
    }
}

/// A text begins with another one, ends with it or holds it exactly if it is made of it and
/// what stands around it.
pub proof fn law_parts_make_up_the_text(s: Seq<char>, part: Seq<char>)
    ensures
        has_prefix(s, part) <==> exists|rest: Seq<char>| s == #[trigger] (part + rest),
        has_suffix(s, part) <==> exists|front: Seq<char>| s == #[trigger] (front + part),
        occurs_in(s, part) <==> exists|front: Seq<char>, rest: Seq<char>|
            s == #[trigger] (front + part + rest),
{
    if has_prefix(s, part) {
        assert(s =~= part + s.skip(part.len() as int));
    }
    if exists|rest: Seq<char>| s == #[trigger] (part + rest) {
        assert(s.subrange(0, part.len() as int) =~= part);
    }
    if has_suffix(s, part) {
        assert(s =~= s.take(s.len() - part.len()) + part);
    }
    if exists|front: Seq<char>| s == #[trigger] (front + part) {
        assert(s.subrange(s.len() - part.len(), s.len() as int) =~= part);
    }
    if occurs_in(s, part) {
        let i = choose|i: int| #[trigger] occurs_at(s, part, i);
        assert(s =~= s.take(i) + part + s.skip(i + part.len()));
    }
    if exists|front: Seq<char>, rest: Seq<char>| s == #[trigger] (front + part + rest) {
        let (front, rest) = choose|front: Seq<char>, rest: Seq<char>|
            s == #[trigger] (front + part + rest);
        assert(s.subrange(front.len() as int, (front.len() + part.len()) as int) =~= part);
        assert(occurs_at(s, part, front.len() as int));
    }
}

/// Up to the first `c` there is none, and there it is; it is at the end if there is none.
/// Behind the last `c` there is none, and it is found wherever there is one at all.
pub proof fn law_first_and_last_are_found(s: Seq<char>, c: char)
    ensures
        0 <= first_char(s, c) <= s.len(),
        !s.take(first_char(s, c)).contains(c),
        first_char(s, c) < s.len() ==> s[first_char(s, c)] == c,
        after_last(s, c) is Some <==> s.contains(c),
        after_last(s, c) matches Some(rest) ==> {
            &&& !rest.contains(c)
            &&& rest.len() < s.len()
            &&& rest == s.skip(s.len() - rest.len())
            &&& s[s.len() - rest.len() - 1] == c
        },
    decreases s.len(),
{
    if s.len() > 0 {
        let rest = s.drop_first();
        law_first_and_last_are_found(rest, c);
        let k = first_char(s, c);
        if s[0] != c {
            assert forall|i: int| 0 <= i < k implies s.take(k)[i] != c by {
                if i > 0 {
                    assert(rest.take(k - 1)[i - 1] == s.take(k)[i]);
                    assert(rest.take(k - 1).contains(rest.take(k - 1)[i - 1]));
                }
            }
            if k < s.len() {
                assert(rest[k - 1] == s[k]);
            }
        }
        let front = s.drop_last();
        law_first_and_last_are_found(front, c);
        if s.last() == c {
            assert(s.contains(s[s.len() - 1]));
            assert(s.skip(s.len() as int) =~= Seq::empty());
        } else {
            if s.contains(c) {
                let i = s.index_of(c);
                assert(front[i] == c);
                assert(front.contains(c));
                let r = after_last(front, c)->Some_0;
                let all = r.push(s.last());
                assert(all =~= s.skip(s.len() - all.len()));
                assert forall|j: int| 0 <= j < all.len() implies all[j] != c by {
                    if j < r.len() {
                        assert(r.contains(r[j]));
                    }
                }
            } else {
                if front.contains(c) {
                    let i = front.index_of(c);
                    assert(s[i] == c);
                }
            }
        }
    }
}

} // verus!
