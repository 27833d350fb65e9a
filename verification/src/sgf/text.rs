//! Characters and numbers in SGF text: reading and writing unsigned numbers, decimal
//! numbers with one decimal, and board coordinates written as two letters.

use vstd::prelude::*;

verus! {

/// True for a decimal digit.
pub open spec fn is_digit(c: char) -> bool {
    '0' <= c && c <= '9'
}

/// True for an upper-case ASCII letter.
pub open spec fn is_upper(c: char) -> bool {
    'A' <= c && c <= 'Z'
}

/// The value of a digit.
pub open spec fn digit_val(c: char) -> int {
    c as int - '0' as int
}

/// The digit of a value below 10.
pub open spec fn digit_char(d: int) -> char {
    ('0' as int + d) as char
}

/// The upper-case letters of `s`, in order.
pub open spec fn upper_of(s: Seq<char>) -> Seq<char>
    decreases s.len(),
{
    if s.len() == 0 {
        s
    } else {
        let p = upper_of(s.drop_last());
        if is_upper(s.last()) {
            p.push(s.last())
        } else {
            p
        }
    }
}

/// Every character of `s` is a digit.
pub open spec fn all_digits(s: Seq<char>) -> bool {
    forall|i: int| 0 <= i < s.len() ==> #[trigger] is_digit(s[i])
}

/// The number that the digits of `s` write.
pub open spec fn num_value(s: Seq<char>) -> int
    decreases s.len(),
{
    if s.len() == 0 {
        0
    } else {
        10 * num_value(s.drop_last()) + digit_val(s.last())
    }
}

/// An unsigned number as Rust reads one: an optional `+`, then one digit or more, and a
/// value that fits in 32 bits.
pub open spec fn parse_u32(s: Seq<char>) -> Option<u32> {
    let d = if s.len() > 0 && s[0] == '+' {
        s.drop_first()
    } else {
        s
    };
    if d.len() > 0 && all_digits(d) && num_value(d) <= u32::MAX {
        Some(num_value(d) as u32)
    } else {
        None
    }
}

/// The decimal digits of `n`, without leading zeros.
pub open spec fn num_text(n: nat) -> Seq<char>
    decreases n,
{
    if n < 10 {
        seq![digit_char(n as int)]
    } else {
        num_text(n / 10).push(digit_char((n % 10) as int))
    }
}

/// The first index from `k` on where `s` holds `c`, or the length of `s`.
pub open spec fn find_char(s: Seq<char>, c: char, k: int) -> int
    decreases s.len() - k,
{
    if k >= s.len() {
        s.len() as int
    } else if s[k] == c {
        k
    } else {
        find_char(s, c, k + 1)
    }
}

/// The number that a run of digits writes, when it has one digit or more and fits in 32
/// bits.
pub open spec fn digits_value(s: Seq<char>) -> Option<u32> {
    if s.len() > 0 && all_digits(s) && num_value(s) <= u32::MAX {
        Some(num_value(s) as u32)
    } else {
        None
    }
}

/// A decimal number without its sign.
pub open spec fn tenths_body(s: Seq<char>) -> Seq<char> {
    if s.len() > 0 && (s[0] == '-' || s[0] == '+') {
        s.drop_first()
    } else {
        s
    }
}

/// The digits before the point.
pub open spec fn tenths_int(body: Seq<char>) -> Seq<char> {
    body.subrange(0, find_char(body, '.', 0))
}

/// True when the number has a point.
pub open spec fn tenths_has_dot(body: Seq<char>) -> bool {
    find_char(body, '.', 0) < body.len()
}

/// The digits after the point.
pub open spec fn tenths_frac(body: Seq<char>) -> Seq<char> {
    if tenths_has_dot(body) {
        body.subrange(find_char(body, '.', 0) + 1, body.len() as int)
    } else {
        Seq::empty()
    }
}

/// The value in tenths, without the sign.
pub open spec fn tenths_value(body: Seq<char>) -> int {
    10 * num_value(tenths_int(body)) + if tenths_frac(body).len() > 0 {
        digit_val(tenths_frac(body)[0])
    } else {
        0
    }
}

/// A number in tenths: an optional sign, one digit or more, and optionally a point with
/// one digit or more of which only the first may differ from `0`.
pub open spec fn parse_tenths(s: Seq<char>) -> Option<i32> {
    let body = tenths_body(s);
    let frac = tenths_frac(body);
    if tenths_int(body).len() > 0 && all_digits(tenths_int(body)) && (tenths_has_dot(body) ==> frac.len() > 0) && all_digits(frac) && (forall|i: int|
        1 <= i < frac.len() ==> #[trigger] frac[i] == '0') && tenths_value(body) <= i32::MAX {
        Some((if s.len() > 0 && s[0] == '-' {
            -tenths_value(body)
        } else {
            tenths_value(body)
        }) as i32)
    } else {
        None
    }
}

/// A number in tenths written out: a `-` when negative, the whole part, and the tenth
/// after a point when it is not zero.
pub open spec fn tenths_text(t: int) -> Seq<char> {
    let a = if t < 0 {
        -t
    } else {
        t
    };
    let sign = if t < 0 {
        seq!['-']
    } else {
        Seq::<char>::empty()
    };
    let whole = num_text((a / 10) as nat);
    if a % 10 == 0 {
        sign + whole
    } else {
        sign + whole + seq!['.', digit_char(a % 10)]
    }
}

/// The coordinate that a letter writes: `a` is 1, `z` is 26, in either case.
pub open spec fn letter_coord(c: char) -> Option<u8> {
    if 'a' <= c && c <= 'z' {
        Some((c as int - 'a' as int + 1) as u8)
    } else if 'A' <= c && c <= 'Z' {
        Some((c as int - 'A' as int + 1) as u8)
    } else {
        None
    }
}

/// The point that two letters write.
pub open spec fn parse_coord(s: Seq<char>) -> Option<(u8, u8)> {
    if s.len() == 2 && letter_coord(s[0]) is Some && letter_coord(s[1]) is Some {
        Some((letter_coord(s[0]).unwrap(), letter_coord(s[1]).unwrap()))
    } else {
        None
    }
}

/// The letter of a coordinate from 1 to 26.
pub open spec fn coord_letter(x: u8) -> char {
    ('a' as int + x - 1) as char
}

/// A point written as two letters.
pub open spec fn coord_text(c: (u8, u8)) -> Seq<char> {
    seq![coord_letter(c.0), coord_letter(c.1)]
}

/// The characters of a string slice.
pub fn chars_of(s: &str) -> (r: Vec<char>)
    ensures
        r@ == s@,
{
    let n = s.unicode_len();
    let mut res: Vec<char> = Vec::new();
    let mut i: usize = 0;
    while i < n
        invariant
            n == s@.len(),
            0 <= i <= n,
            res@ == s@.subrange(0, i as int),
        decreases n - i,
    {
        res.push(s.get_char(i));
        i += 1;
    }
    res
}

/// Collects characters into a `String` (`String::from_iter`).
#[verifier::external_body]
pub(crate) fn string_of(v: &[char]) -> (r: String)
    ensures
        r@ == v@,
{
    String::from_iter(v.iter())
}

/// The upper-case letters of `s`.
pub fn keep_upper(s: &[char]) -> (r: Vec<char>)
    ensures
        r@ == upper_of(s@),
{
    let mut res: Vec<char> = Vec::new();
    let mut i: usize = 0;
    while i < s.len()
        invariant
            0 <= i <= s@.len(),
            res@ == upper_of(s@.subrange(0, i as int)),
        decreases s@.len() - i,
    {
        proof {
            assert(s@.subrange(0, i + 1).drop_last() == s@.subrange(0, i as int));
        }
        let c = s[i];
        if 'A' <= c && c <= 'Z' {
            res.push(c);
        }
        i += 1;
    }
    proof {
        assert(s@.subrange(0, s@.len() as int) == s@);
    }
    res
}

/// Reads an unsigned number.
pub fn read_u32(s: &[char]) -> (r: Option<u32>)
    ensures
        r == parse_u32(s@),
{
    let start: usize = if s.len() > 0 && s[0] == '+' {
        1
    } else {
        0
    };
    let ghost d = s@.subrange(start as int, s@.len() as int);
    proof {
        if s@.len() > 0 && s@[0] == '+' {
            assert(d == s@.drop_first());
        } else {
            assert(d == s@);
        }
    }
    if start >= s.len() {
        return None;
    }
    let mut value: u64 = 0;
    let mut i: usize = start;
    while i < s.len()
        invariant
            start <= i <= s@.len(),
            d == s@.subrange(start as int, s@.len() as int),
            d == (if s@.len() > 0 && s@[0] == '+' {
                s@.drop_first()
            } else {
                s@
            }),
            all_digits(s@.subrange(start as int, i as int)),
            value == num_value(s@.subrange(start as int, i as int)),
            value <= u32::MAX,
        decreases s@.len() - i,
    {
        let c = s[i];
        proof {
            assert(s@.subrange(start as int, i + 1).drop_last() == s@.subrange(start as int, i as int));
            assert(s@.subrange(start as int, i + 1).last() == c);
        }
        if !('0' <= c && c <= '9') {
            proof {
                assert(d[i - start] == c);
                assert(!is_digit(d[i - start]));
                assert(!all_digits(d));
            }
            return None;
        }
        let next: u64 = value * 10 + (c as u64 - '0' as u64);
        if next > 4294967295 {
            proof {
                assert(d.subrange(0, i - start + 1) == s@.subrange(start as int, i + 1));
                if all_digits(d) {
                    lemma_num_value_grows(d, (i - start + 1) as int);
                }
            }
            return None;
        }
        value = next;
        i += 1;
    }
    proof {
        assert(s@.subrange(start as int, s@.len() as int) == d);
        assert(d.len() > 0);
    }
    Some(value as u32)
}

/// The value of a run of digits never decreases as it goes on.
pub proof fn lemma_num_value_grows(d: Seq<char>, k: int)
    requires
        0 <= k <= d.len(),
        all_digits(d),
    ensures
        num_value(d) >= num_value(d.subrange(0, k)),
        num_value(d.subrange(0, k)) >= 0,
    decreases d.len() - k,
{
    if k < d.len() {
        lemma_num_value_grows(d, k + 1);
        assert(d.subrange(0, k + 1).drop_last() == d.subrange(0, k));
        assert(is_digit(d[k]));
        lemma_num_value_nonneg(d.subrange(0, k));
    } else {
        assert(d.subrange(0, k) == d);
        lemma_num_value_nonneg(d);
    }
}

/// A run of digits writes a number of zero or more.
pub proof fn lemma_num_value_nonneg(d: Seq<char>)
    requires
        all_digits(d),
    ensures
        num_value(d) >= 0,
    decreases d.len(),
{
    if d.len() > 0 {
        assert(all_digits(d.drop_last())) by {
            assert forall|i: int| 0 <= i < d.drop_last().len() implies #[trigger] is_digit(d.drop_last()[i]) by {
                assert(is_digit(d[i]));
            }
        }
        lemma_num_value_nonneg(d.drop_last());
        assert(is_digit(d[d.len() - 1]));
    }
}

/// Writes a number in decimal.
pub fn write_num(n: u64) -> (r: Vec<char>)
    ensures
        r@ == num_text(n as nat),
    decreases n,
{
    if n < 10 {
        let mut v: Vec<char> = Vec::new();
        v.push(digit_of(n));
        v
    } else {
        let mut v = write_num(n / 10);
        v.push(digit_of(n % 10));
        v
    }
}

/// The digit of a value below 10.
fn digit_of(d: u64) -> (r: char)
    requires
        d < 10,
    ensures
        r == digit_char(d as int),
{
    if d == 0 {
        '0'
    } else if d == 1 {
        '1'
    } else if d == 2 {
        '2'
    } else if d == 3 {
        '3'
    } else if d == 4 {
        '4'
    } else if d == 5 {
        '5'
    } else if d == 6 {
        '6'
    } else if d == 7 {
        '7'
    } else if d == 8 {
        '8'
    } else {
        '9'
    }
}

/// Reads a point written as two letters.
pub fn read_coord(s: &[char]) -> (r: Option<(u8, u8)>)
    ensures
        r == parse_coord(s@),
{
    if s.len() != 2 {
        return None;
    }
    match (read_letter(s[0]), read_letter(s[1])) {
        (Some(x), Some(y)) => Some((x, y)),
        _ => None,
    }
}

/// The coordinate that a letter writes.
fn read_letter(c: char) -> (r: Option<u8>)
    ensures
        r == letter_coord(c),
{
    if 'a' <= c && c <= 'z' {
        Some((c as u32 - 'a' as u32 + 1) as u8)
    } else if 'A' <= c && c <= 'Z' {
        Some((c as u32 - 'A' as u32 + 1) as u8)
    } else {
        None
    }
}

/// Writes a point as two letters.
pub fn write_coord(c: (u8, u8)) -> (r: Vec<char>)
    requires
        1 <= c.0 <= 26,
        1 <= c.1 <= 26,
    ensures
        r@ == coord_text(c),
{
    let mut v: Vec<char> = Vec::new();
    v.push(letter_of(c.0));
    v.push(letter_of(c.1));
    v
}

/// The letter of a coordinate from 1 to 26.
fn letter_of(x: u8) -> (r: char)
    requires
        1 <= x <= 26,
    ensures
        r == coord_letter(x),
{
    ('a' as u8 + x - 1) as char
}

/// Reads the run of digits `s[from..to]`.
pub fn read_digits(s: &[char], from: usize, to: usize) -> (r: Option<u32>)
    requires
        from <= to <= s@.len(),
    ensures
        r == digits_value(s@.subrange(from as int, to as int)),
{
    let ghost d = s@.subrange(from as int, to as int);
    if from >= to {
        return None;
    }
    let mut value: u64 = 0;
    let mut i: usize = from;
    while i < to
        invariant
            from <= i <= to <= s@.len(),
            d == s@.subrange(from as int, to as int),
            all_digits(s@.subrange(from as int, i as int)),
            value == num_value(s@.subrange(from as int, i as int)),
            value <= u32::MAX,
        decreases to - i,
    {
        let c = s[i];
        proof {
            assert(s@.subrange(from as int, i + 1).drop_last() == s@.subrange(from as int, i as int));
            assert(s@.subrange(from as int, i + 1).last() == c);
        }
        if !('0' <= c && c <= '9') {
            proof {
                assert(d[i - from] == c);
                assert(!is_digit(d[i - from]));
                assert(!all_digits(d));
            }
            return None;
        }
        let next: u64 = value * 10 + (c as u64 - '0' as u64);
        if next > 4294967295 {
            proof {
                assert(d.subrange(0, i - from + 1) == s@.subrange(from as int, i + 1));
                if all_digits(d) {
                    lemma_num_value_grows(d, (i - from + 1) as int);
                }
            }
            return None;
        }
        value = next;
        i += 1;
    }
    Some(value as u32)
}

/// True when every character of `s[from..to]` is `0`.
pub fn all_zeros(s: &[char], from: usize, to: usize) -> (r: bool)
    requires
        from <= to <= s@.len(),
    ensures
        r == (forall|j: int| from <= j < to ==> s@[j] == '0'),
{
    let mut k: usize = from;
    while k < to
        invariant
            from <= k <= to <= s@.len(),
            forall|j: int| from <= j < k ==> s@[j] == '0',
        decreases to - k,
    {
        if s[k] != '0' {
            return false;
        }
        k += 1;
    }
    true
}

/// Reads a number in tenths.
pub fn read_tenths(s: &[char]) -> (r: Option<i32>)
    ensures
        r == parse_tenths(s@),
{
    let neg = s.len() > 0 && s[0] == '-';
    let start: usize = if s.len() > 0 && (s[0] == '-' || s[0] == '+') {
        1
    } else {
        0
    };
    let ghost body = s@.subrange(start as int, s@.len() as int);
    proof {
        if s@.len() > 0 && (s@[0] == '-' || s@[0] == '+') {
            assert(body == s@.drop_first());
        } else {
            assert(body == s@);
        }
        assert(body == tenths_body(s@));
    }
    let mut dot: usize = start;
    while dot < s.len() && s[dot] != '.'
        invariant
            start <= dot <= s@.len(),
            body == s@.subrange(start as int, s@.len() as int),
            find_char(body, '.', 0) == find_char(body, '.', dot - start),
        decreases s@.len() - dot,
    {
        dot += 1;
    }
    let ghost frac = tenths_frac(body);
    proof {
        assert(find_char(body, '.', 0) == dot - start);
        assert(tenths_int(body) == s@.subrange(start as int, dot as int));
        assert(tenths_has_dot(body) == (dot < s@.len()));
        if dot < s@.len() {
            assert(frac == s@.subrange(dot + 1, s@.len() as int));
        } else {
            assert(frac.len() == 0);
        }
    }
    let ip = read_digits(s, start, dot);
    let iv = match ip {
        None => {
            proof {
                let ipart = s@.subrange(start as int, dot as int);
                if ipart.len() > 0 && all_digits(ipart) {
                    lemma_num_value_nonneg(ipart);
                    if frac.len() > 0 && all_digits(frac) {
                        assert(is_digit(frac[0]));
                    }
                }
            }
            return None;
        },
        Some(iv) => iv,
    };
    proof {
        lemma_num_value_nonneg(s@.subrange(start as int, dot as int));
        assert(iv == num_value(tenths_int(body)));
    }
    let mut value: u64 = 10 * iv as u64;
    if dot < s.len() {
        if dot + 1 >= s.len() {
            return None;
        }
        let d0 = s[dot + 1];
        if !('0' <= d0 && d0 <= '9') {
            proof {
                assert(frac[0] == d0);
                assert(!is_digit(frac[0]));
            }
            return None;
        }
        if !all_zeros(s, dot + 2, s.len()) {
            proof {
                let j = choose|j: int| dot + 2 <= j < s@.len() && s@[j] != '0';
                assert(frac[j - dot - 1] == s@[j]);
            }
            return None;
        }
        value = value + (d0 as u64 - '0' as u64);
        proof {
            assert(frac[0] == d0);
            assert(frac.len() > 0);
            assert((d0 as u64 - '0' as u64) == digit_val(frac[0]));
            assert forall|i: int| 0 <= i < frac.len() implies #[trigger] is_digit(frac[i]) by {
                if i >= 1 {
                    assert(frac[i] == s@[dot + 1 + i]);
                }
            }
            assert forall|i: int| 1 <= i < frac.len() implies #[trigger] frac[i] == '0' by {
                assert(frac[i] == s@[dot + 1 + i]);
            }
        }
    }
    proof {
        assert(value == tenths_value(body));
    }
    if value > 2147483647 {
        return None;
    }
    if neg {
        Some(-(value as i32))
    } else {
        Some(value as i32)
    }
}

/// Writes a number in tenths.
pub fn write_tenths(t: i32) -> (r: Vec<char>)
    ensures
        r@ == tenths_text(t as int),
{
    let a: u64 = if t < 0 {
        (-(t as i64)) as u64
    } else {
        t as u64
    };
    let mut v: Vec<char> = Vec::new();
    if t < 0 {
        v.push('-');
    }
    let mut whole = write_num(a / 10);
    v.append(&mut whole);
    if a % 10 != 0 {
        v.push('.');
        v.push(digit_of(a % 10));
    }
    v
}

} // verus!
verus! {

/// True when the two character sequences are equal.
pub fn eq_chars(a: &[char], b: &[char]) -> (r: bool)
    ensures
        r == (a@ == b@),
{
    if a.len() != b.len() {
        return false;
    }
    let mut i: usize = 0;
    while i < a.len()
        invariant
            a@.len() == b@.len(),
            0 <= i <= a@.len(),
            forall|k: int| 0 <= k < i ==> a@[k] == b@[k],
        decreases a@.len() - i,
    {
        if a[i] != b[i] {
            return false;
        }
        i += 1;
    }
    assert(a@ =~= b@);
    true
}

/// The characters of `v[from..to]`.
pub fn sub_chars(v: &[char], from: usize, to: usize) -> (r: Vec<char>)
    requires
        from <= to <= v@.len(),
    ensures
        r@ == v@.subrange(from as int, to as int),
{
    let mut res: Vec<char> = Vec::new();
    let mut i: usize = from;
    while i < to
        invariant
            from <= i <= to <= v@.len(),
            res@ == v@.subrange(from as int, i as int),
        decreases to - i,
    {
        res.push(v[i]);
        i += 1;
    }
    res
}

/// The first index from `from` on where `s` holds `c`, or the length of `s`.
pub fn find(s: &[char], c: char, from: usize) -> (r: usize)
    requires
        from <= s@.len(),
    ensures
        r == find_char(s@, c, from as int),
{
    let mut k: usize = from;
    while k < s.len() && s[k] != c
        invariant
            from <= k <= s@.len(),
            find_char(s@, c, from as int) == find_char(s@, c, k as int),
        decreases s@.len() - k,
    {
        k += 1;
    }
    k
}

/// Reads an unsigned number from `s[from..to]`.
pub fn read_u32_at(s: &[char], from: usize, to: usize) -> (r: Option<u32>)
    requires
        from <= to <= s@.len(),
    ensures
        r == parse_u32(s@.subrange(from as int, to as int)),
{
    let ghost d = s@.subrange(from as int, to as int);
    if from < to && s[from] == '+' {
        proof {
            assert(d.drop_first() == s@.subrange(from + 1, to as int));
        }
        read_digits(s, from + 1, to)
    } else {
        read_digits(s, from, to)
    }
}

/// The digits of a number are one digit or more, and read back as the number.
pub proof fn lemma_num_text(n: nat)
    ensures
        num_text(n).len() > 0,
        all_digits(num_text(n)),
        num_value(num_text(n)) == n,
    decreases n,
{
    if n >= 10 {
        lemma_num_text(n / 10);
        let s = num_text(n / 10);
        let d = (n % 10) as int;
        let t = s.push(digit_char(d));
        assert(num_text(n) == t);
        assert(t.drop_last() =~= s);
        assert(t.last() == digit_char(d));
        assert(digit_val(digit_char(d)) == d);
        assert(num_value(t) == 10 * num_value(s) + d);
        assert(10 * ((n / 10) as int) + d == n);
        assert forall|i: int| 0 <= i < t.len() implies #[trigger] is_digit(t[i]) by {
            if i < s.len() {
                assert(t[i] == s[i]);
            }
        }
    } else {
        let t = seq![digit_char(n as int)];
        assert(num_text(n) == t);
        assert(digit_val(digit_char(n as int)) == n);
        assert(t.drop_last() =~= Seq::<char>::empty());
        assert(num_value(t.drop_last()) == 0);
        assert(num_value(t) == n);
    }
}

/// Reading the digits of a 32-bit number gives it back.
pub proof fn lemma_u32_round_trip(n: u32)
    ensures
        parse_u32(num_text(n as nat)) == Some(n),
{
    lemma_num_text(n as nat);
    let s = num_text(n as nat);
    assert(is_digit(s[0]));
}

/// The first `c` at or after `k` in `s`, when the places from `k` up to `m` hold other
/// characters and `m` holds `c` or is the length.
pub proof fn lemma_find_char(s: Seq<char>, c: char, k: int, m: int)
    requires
        0 <= k <= m <= s.len(),
        forall|i: int| k <= i < m ==> s[i] != c,
        m < s.len() ==> s[m] == c,
    ensures
        find_char(s, c, k) == m,
    decreases m - k,
{
    if k < m {
        lemma_find_char(s, c, k + 1, m);
    }
}

/// Reading a number in tenths written out gives it back.
pub proof fn lemma_tenths_round_trip(t: int)
    requires
        -(i32::MAX as int) <= t <= i32::MAX,
    ensures
        parse_tenths(tenths_text(t)) == Some(t as i32),
{
    let a = if t < 0 {
        -t
    } else {
        t
    };
    let whole = num_text((a / 10) as nat);
    lemma_num_text((a / 10) as nat);
    let text = tenths_text(t);
    let body = tenths_body(text);
    let tail: Seq<char> = if a % 10 == 0 {
        Seq::empty()
    } else {
        seq!['.', digit_char(a % 10)]
    };
    assert(body =~= whole + tail) by {
        if t < 0 {
            assert(text =~= seq!['-'] + (whole + tail));
            assert(text.drop_first() =~= whole + tail);
        } else {
            assert(text =~= whole + tail);
            assert(is_digit(whole[0]));
        }
    }
    assert forall|i: int| 0 <= i < whole.len() implies body[i] != '.' by {
        assert(body[i] == whole[i]);
        assert(is_digit(whole[i]));
    }
    lemma_find_char(body, '.', 0, whole.len() as int);
    assert(tenths_int(body) =~= whole);
    if a % 10 == 0 {
        assert(!tenths_has_dot(body));
        assert(tenths_frac(body) =~= Seq::<char>::empty());
    } else {
        assert(tenths_has_dot(body));
        assert(tenths_frac(body) =~= seq![digit_char(a % 10)]);
        assert(digit_val(digit_char(a % 10)) == a % 10);
    }
    assert(tenths_value(body) == a);
    if t < 0 {
        assert(text[0] == '-');
    } else {
        assert(text[0] == whole[0]);
        assert(is_digit(whole[0]));
    }
}

/// Reading a point written as two letters gives it back.
pub proof fn lemma_coord_round_trip(c: (u8, u8))
    requires
        1 <= c.0 <= 26,
        1 <= c.1 <= 26,
    ensures
        parse_coord(coord_text(c)) == Some(c),
{
}

/// A number in tenths that was read is above the least 32-bit number.
pub proof fn lemma_tenths_range(s: Seq<char>)
    ensures
        parse_tenths(s) matches Some(t) ==> -(i32::MAX as int) <= t,
{
    let body = tenths_body(s);
    if parse_tenths(s) is Some {
        lemma_num_value_nonneg(tenths_int(body));
        let frac = tenths_frac(body);
        if frac.len() > 0 {
            assert(is_digit(frac[0]));
        }
        assert(tenths_value(body) >= 0);
    }
}

} // verus!
