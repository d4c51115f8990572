//! Reading the `pgfault` counter out of the text of `/proc/vmstat`.
//!
//! The text is a list of lines `name value`. The counter is the value of the
//! first line that starts with `pgfault `, with surrounding whitespace
//! removed, read as a decimal `u64` with an optional leading `+`.

use vstd::prelude::*;

verus! {

/// A one-byte whitespace character: space, tab, line feed, vertical tab,
/// form feed or carriage return.
pub open spec fn is_ws1(b: u8) -> bool {
    b == 32 || (9 <= b && b <= 13)
}

/// A two-byte UTF-8 whitespace character: U+0085 or U+00A0.
pub open spec fn is_ws2(a: u8, b: u8) -> bool {
    a == 0xC2 && (b == 0x85 || b == 0xA0)
}

/// A three-byte UTF-8 whitespace character: U+1680, U+2000 to U+200A,
/// U+2028, U+2029, U+202F, U+205F or U+3000.
pub open spec fn is_ws3(a: u8, b: u8, c: u8) -> bool {
    (a == 0xE1 && b == 0x9A && c == 0x80) || (a == 0xE2 && b == 0x80 && ((0x80 <= c && c
        <= 0x8A) || c == 0xA8 || c == 0xA9 || c == 0xAF)) || (a == 0xE2 && b == 0x81 && c
        == 0x9F) || (a == 0xE3 && b == 0x80 && c == 0x80)
}

/// The byte length of the whitespace character that starts at `i` in `v`,
/// or zero where none does.
pub open spec fn ws_len_at(v: Seq<u8>, i: int) -> int {
    if 0 <= i < v.len() && is_ws1(v[i]) {
        1
    } else if 0 <= i && i + 2 <= v.len() && is_ws2(v[i], v[i + 1]) {
        2
    } else if 0 <= i && i + 3 <= v.len() && is_ws3(v[i], v[i + 1], v[i + 2]) {
        3
    } else {
        0
    }
}

/// The byte length of the whitespace character that ends just before `j`
/// in `v`, or zero where none does.
pub open spec fn ws_len_before(v: Seq<u8>, j: int) -> int {
    if 1 <= j <= v.len() && is_ws1(v[j - 1]) {
        1
    } else if 2 <= j <= v.len() && is_ws2(v[j - 2], v[j - 1]) {
        2
    } else if 3 <= j <= v.len() && is_ws3(v[j - 3], v[j - 2], v[j - 1]) {
        3
    } else {
        0
    }
}

/// An ASCII decimal digit.
pub open spec fn is_digit(b: u8) -> bool {
    48 <= b && b <= 57
}

/// The key that starts the counter's line: `pgfault ` in ASCII.
pub open spec fn pgfault_key() -> Seq<u8> {
    seq![112u8, 103u8, 102u8, 97u8, 117u8, 108u8, 116u8, 32u8]
}

/// The value of a string of decimal digits.
pub open spec fn digits_value(d: Seq<u8>) -> nat
    decreases d.len(),
{
    if d.len() == 0 {
        0
    } else {
        digits_value(d.drop_last()) * 10 + (d.last() - 48) as nat
    }
}

/// `d` without a leading `+`.
pub open spec fn unsigned_part(d: Seq<u8>) -> Seq<u8> {
    if d.len() > 0 && d[0] == 43 {
        d.skip(1)
    } else {
        d
    }
}

/// `d` read as a `u64`: an optional `+`, then one or more digits whose value
/// fits.
pub open spec fn parse_u64(d: Seq<u8>) -> Option<u64> {
    let ds = unsigned_part(d);
    if ds.len() > 0 && (forall|k: int| 0 <= k < ds.len() ==> is_digit(#[trigger] ds[k]))
        && digits_value(ds) <= u64::MAX {
        Some(digits_value(ds) as u64)
    } else {
        None
    }
}

/// Where the text `v` stops being whitespace, scanning forward from `i`:
/// the start of the first character that is not whitespace, or `v.len()`.
pub open spec fn trim_lo(v: Seq<u8>, i: int) -> int
    decreases v.len() - i,
{
    if i < 0 || i >= v.len() {
        v.len() as int
    } else if ws_len_at(v, i) > 0 {
        trim_lo(v, i + ws_len_at(v, i))
    } else {
        i
    }
}

/// Where the text `v` stops being whitespace, scanning backward from `j`:
/// the end of the last character before `j` that is not whitespace, or zero.
pub open spec fn trim_hi(v: Seq<u8>, j: int) -> int
    decreases j,
{
    if j <= 0 {
        0
    } else if ws_len_before(v, j) > 0 {
        trim_hi(v, j - ws_len_before(v, j))
    } else {
        j
    }
}

/// The UTF-8 text `v` without leading and trailing whitespace, Unicode
/// whitespace included.
pub open spec fn trim(v: Seq<u8>) -> Seq<u8> {
    let lo = trim_lo(v, 0);
    let hi = trim_hi(v, v.len() as int);
    if lo < hi {
        v.subrange(lo, hi)
    } else {
        Seq::empty()
    }
}

/// The index of the line feed that ends the line holding index `i`, or
/// `s.len()` where the last line has none.
pub open spec fn line_end(s: Seq<u8>, i: int) -> int
    decreases s.len() - i,
{
    if i >= s.len() {
        s.len() as int
    } else if s[i] == 10 {
        i
    } else {
        line_end(s, i + 1)
    }
}

/// The counter read from the lines of `s` that start at or after `i`.
pub open spec fn pgfault_from(s: Seq<u8>, i: int) -> Option<u64>
    decreases s.len() - i,
{
    if i < 0 || i >= s.len() {
        None
    } else {
        let e = line_end(s, i);
        if e < i {
            None
        } else if e - i >= 8 && s.subrange(i, i + 8) == pgfault_key() {
            parse_u64(trim(s.subrange(i + 8, e)))
        } else if e >= s.len() {
            None
        } else {
            pgfault_from(s, e + 1)
        }
    }
}

proof fn lemma_digits_grow(d: Seq<u8>, k: int)
    requires
        0 <= k < d.len(),
        forall|j: int| 0 <= j < d.len() ==> is_digit(#[trigger] d[j]),
    ensures
        digits_value(d.take(k + 1)) <= digits_value(d),
    decreases d.len() - k,
{
    if k + 1 < d.len() {
        lemma_digits_grow(d, k + 1);
        assert(d.take(k + 2).drop_last() =~= d.take(k + 1));
    } else {
        assert(d.take(k + 1) =~= d);
    }
}

/// `v` read as a `u64`.
fn parse_digits(v: &Vec<u8>) -> (r: Option<u64>)
    ensures
        r == parse_u64(v@),
{
    let ghost d = v@;
    let n = v.len();
    let start: usize = if n > 0 && v[0] == 43 {
        1
    } else {
        0
    };
    let ghost ds = unsigned_part(d);
    assert(ds =~= d.skip(start as int));
    if start >= n {
        return None;
    }
    let mut value: u64 = 0;
    let mut k: usize = start;
    while k < n
        invariant
            start <= k <= n,
            n == d.len(),
            d == v@,
            ds == unsigned_part(d),
            ds =~= d.skip(start as int),
            forall|j: int| start <= j < k ==> is_digit(#[trigger] d[j]),
            value == digits_value(ds.take(k - start)),
        decreases n - k,
    {
        let b = v[k];
        if b < 48 || b > 57 {
            assert(!is_digit(ds[k - start]));
            return None;
        }
        let digit: u64 = (b - 48) as u64;
        assert(ds.take(k - start + 1).drop_last() =~= ds.take(k - start));
        if value > (u64::MAX - digit) / 10 {
            proof {
                if forall|j: int| 0 <= j < ds.len() ==> is_digit(#[trigger] ds[j]) {
                    lemma_digits_grow(ds, k - start);
                }
            }
            return None;
        }
        value = value * 10 + digit;
        k += 1;
    }
    assert(ds.take(n - start) =~= ds);
    Some(value)
}

/// The length of the whitespace character starting at `i` in `v`, or zero.
fn ws_at(v: &Vec<u8>, i: usize) -> (r: usize)
    requires
        i <= v@.len(),
    ensures
        r == ws_len_at(v@, i as int),
{
    let n = v.len();
    if i < n && (v[i] == 32 || (9 <= v[i] && v[i] <= 13)) {
        1
    } else if n >= 2 && i <= n - 2 && v[i] == 0xC2 && (v[i + 1] == 0x85 || v[i + 1] == 0xA0) {
        2
    } else if n >= 3 && i <= n - 3 && ws3(v[i], v[i + 1], v[i + 2]) {
        3
    } else {
        0
    }
}

/// The length of the whitespace character ending just before `j` in `v`,
/// or zero.
fn ws_before(v: &Vec<u8>, j: usize) -> (r: usize)
    requires
        j <= v@.len(),
    ensures
        r == ws_len_before(v@, j as int),
{
    if j >= 1 && (v[j - 1] == 32 || (9 <= v[j - 1] && v[j - 1] <= 13)) {
        1
    } else if j >= 2 && v[j - 2] == 0xC2 && (v[j - 1] == 0x85 || v[j - 1] == 0xA0) {
        2
    } else if j >= 3 && ws3(v[j - 3], v[j - 2], v[j - 1]) {
        3
    } else {
        0
    }
}

/// Whether the three bytes encode a three-byte whitespace character.
fn ws3(a: u8, b: u8, c: u8) -> (r: bool)
    ensures
        r == is_ws3(a, b, c),
{
    (a == 0xE1 && b == 0x9A && c == 0x80) || (a == 0xE2 && b == 0x80 && ((0x80 <= c && c
        <= 0x8A) || c == 0xA8 || c == 0xA9 || c == 0xAF)) || (a == 0xE2 && b == 0x81 && c
        == 0x9F) || (a == 0xE3 && b == 0x80 && c == 0x80)
}

proof fn lemma_trim_hi_le(v: Seq<u8>, j: int)
    requires
        0 <= j <= v.len(),
    ensures
        0 <= trim_hi(v, j) <= j,
    decreases j,
{
    if j > 0 && ws_len_before(v, j) > 0 {
        lemma_trim_hi_le(v, j - ws_len_before(v, j));
    }
}

/// The bytes `content[lo..hi]` without surrounding whitespace.
fn trimmed_range(content: &[u8], lo: usize, hi: usize) -> (r: Vec<u8>)
    requires
        lo <= hi <= content@.len(),
    ensures
        r@ == trim(content@.subrange(lo as int, hi as int)),
{
    let mut v: Vec<u8> = Vec::new();
    let mut k: usize = lo;
    while k < hi
        invariant
            lo <= k <= hi,
            hi <= content@.len(),
            v@ == content@.subrange(lo as int, k as int),
        decreases hi - k,
    {
        v.push(content[k]);
        k += 1;
        assert(v@ =~= content@.subrange(lo as int, k as int));
    }
    let n = v.len();
    let mut a: usize = 0;
    let mut step = ws_at(&v, 0);
    while step > 0
        invariant
            n == v@.len(),
            a <= n,
            step == ws_len_at(v@, a as int),
            trim_lo(v@, a as int) == trim_lo(v@, 0),
        decreases n - a,
    {
        a = a + step;
        step = ws_at(&v, a);
    }
    let mut b: usize = n;
    let mut back = ws_before(&v, n);
    while back > 0
        invariant
            n == v@.len(),
            b <= n,
            back == ws_len_before(v@, b as int),
            trim_hi(v@, b as int) == trim_hi(v@, n as int),
        decreases b,
    {
        b = b - back;
        back = ws_before(&v, b);
    }
    proof {
        lemma_trim_hi_le(v@, b as int);
    }
    let mut out: Vec<u8> = Vec::new();
    if a < b {
        let mut k: usize = a;
        while k < b
            invariant
                a <= k <= b,
                b <= n,
                n == v@.len(),
                out@ == v@.subrange(a as int, k as int),
            decreases b - k,
        {
            out.push(v[k]);
            k += 1;
            assert(out@ =~= v@.subrange(a as int, k as int));
        }
    }
    proof {
        if !(a < b) {
            assert(out@ =~= Seq::<u8>::empty());
        }
    }
    out
}

/// Whether `content[i..i + 8]` is the key `pgfault `.
fn key_at(content: &[u8], i: usize) -> (r: bool)
    requires
        i + 8 <= content@.len(),
    ensures
        r == (content@.subrange(i as int, i + 8) == pgfault_key()),
{
    let r = content[i] == 112 && content[i + 1] == 103 && content[i + 2] == 102 && content[i
        + 3] == 97 && content[i + 4] == 117 && content[i + 5] == 108 && content[i + 6] == 116
        && content[i + 7] == 32;
    proof {
        let w = content@.subrange(i as int, i + 8);
        if r {
            assert(w =~= pgfault_key());
        } else if w == pgfault_key() {
            assert(w[0] == 112 && w[1] == 103 && w[2] == 102 && w[3] == 97);
            assert(w[4] == 117 && w[5] == 108 && w[6] == 116 && w[7] == 32);
        }
    }
    r
}

/// The `pgfault` counter in the text `content` of `/proc/vmstat`: the value
/// on the first line that starts with `pgfault `, or none where no line
/// does or that value does not read as a `u64`.
pub fn pgfault_count(content: &[u8]) -> (r: Option<u64>)
    ensures
        r == pgfault_from(content@, 0),
{
    let ghost s = content@;
    let n = content.len();
    let mut i: usize = 0;
    while i < n
        invariant
            n == s.len(),
            s == content@,
            i <= n,
            pgfault_from(s, i as int) == pgfault_from(s, 0),
        decreases n - i,
    {
        let mut e: usize = i;
        while e < n && content[e] != 10
            invariant
                i <= e <= n,
                n == s.len(),
                s == content@,
                line_end(s, e as int) == line_end(s, i as int),
            decreases n - e,
        {
            e += 1;
        }
        if e - i >= 8 && key_at(content, i) {
            let v = trimmed_range(content, i + 8, e);
            return parse_digits(&v);
        }
        if e >= n {
            return None;
        }
        i = e + 1;
    }
    None
}

} // verus!
