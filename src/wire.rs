//! Byte-level building blocks of the line protocol: a fixed frame buffer,
//! literal matching, field separators and signed decimal integers.
//!
//! Positions in the model are `int`; `pos` and `val_pos` lift an
//! executable result into the model.
use vstd::prelude::*;

verus! {

/// Capacity of one frame, in bytes.
pub const PROTOCOL_BUFFER_SIZE: usize = 256;

/// A frame: one newline-terminated message, written from offset zero.
pub type ProtocolBuffer = [u8; PROTOCOL_BUFFER_SIZE];

pub const CODE_MINUS: u8 = 45;
pub const CODE_SEPARATOR: u8 = 58;
pub const CODE_END: u8 = 10;
pub const CODE_ZERO: u8 = 48;

/// The largest magnitude of an `i32`, and of a negative one.
pub const I32_POSITIVE_LIMIT: u64 = 2147483647;
pub const I32_NEGATIVE_LIMIT: u64 = 2147483648;

// ----------------------------------------------------------------------------
// Model
// ----------------------------------------------------------------------------

/// `s` holds byte `c` at position `i`.
pub open spec fn byte_is(s: Seq<u8>, i: int, c: u8) -> bool {
    0 <= i < s.len() && s[i] == c
}

pub open spec fn is_digit(b: u8) -> bool {
    48 <= b <= 57
}

/// `s` holds a decimal digit at position `i`.
pub open spec fn digit_at(s: Seq<u8>, i: int) -> bool {
    0 <= i < s.len() && is_digit(s[i])
}

/// The bytes of an ASCII text.
pub open spec fn ascii(t: Seq<char>) -> Seq<u8> {
    t.map_values(|c: char| c as u8)
}

/// `s` with `t` written over it from position `i`.
pub open spec fn splice(s: Seq<u8>, i: int, t: Seq<u8>) -> Seq<u8> {
    s.take(i) + t + s.skip(i + t.len())
}

/// An executable position result, in the model.
pub open spec fn pos(r: Result<usize, usize>) -> Result<int, int> {
    match r {
        Ok(n) => Ok(n as int),
        Err(e) => Err(e as int),
    }
}

/// An executable value-and-position result, in the model.
pub open spec fn val_pos<T>(r: Result<(T, usize), usize>) -> Result<(T, int), int> {
    match r {
        Ok((v, n)) => Ok((v, n as int)),
        Err(e) => Err(e as int),
    }
}

/// Expect byte `c` at `i`: the next position, or `i` itself as the error.
pub open spec fn expect_byte(s: Seq<u8>, i: int, c: u8) -> Result<int, int> {
    if byte_is(s, i, c) {
        Ok(i + 1)
    } else {
        Err(i)
    }
}

/// Expect the literal `lit` from `i`: the position after it, or the
/// position of the first byte that differs.
pub open spec fn expect_lit(s: Seq<u8>, i: int, lit: Seq<u8>) -> Result<int, int>
    decreases lit.len(),
{
    if lit.len() == 0 {
        Ok(i)
    } else if byte_is(s, i, lit[0]) {
        expect_lit(s, i + 1, lit.drop_first())
    } else {
        Err(i)
    }
}

/// Reads the digit run from `j` on, starting from the value `acc`. The
/// first digit that takes the value over `bound` is the error.
pub open spec fn scan_digits(s: Seq<u8>, j: int, acc: int, bound: int) -> Result<(int, int), int>
    decreases s.len() - j,
{
    if digit_at(s, j) {
        let a = acc * 10 + (s[j] - CODE_ZERO);
        if a > bound {
            Err(j)
        } else {
            scan_digits(s, j + 1, a, bound)
        }
    } else {
        Ok((acc, j))
    }
}

/// A non-negative decimal at `i` no larger than `bound`: at least one digit;
/// leading zeros are accepted.
pub open spec fn read_magnitude(s: Seq<u8>, i: int, bound: int) -> Result<(int, int), int> {
    if digit_at(s, i) {
        scan_digits(s, i, 0, bound)
    } else {
        Err(i)
    }
}

/// A signed decimal at `i` that fits an `i32`.
pub open spec fn read_i32(s: Seq<u8>, i: int) -> Result<(i32, int), int> {
    if byte_is(s, i, CODE_MINUS) {
        match read_magnitude(s, i + 1, I32_NEGATIVE_LIMIT as int) {
            Ok((m, e)) => Ok(((-m) as i32, e)),
            Err(e) => Err(e),
        }
    } else {
        match read_magnitude(s, i, I32_POSITIVE_LIMIT as int) {
            Ok((m, e)) => Ok((m as i32, e)),
            Err(e) => Err(e),
        }
    }
}

/// A non-negative decimal at `i` that fits a `usize`.
pub open spec fn read_usize(s: Seq<u8>, i: int) -> Result<(usize, int), int> {
    match read_magnitude(s, i, usize::MAX as int) {
        Ok((m, e)) => Ok((m as usize, e)),
        Err(e) => Err(e),
    }
}

pub open spec fn digit_byte(d: int) -> u8 {
    (CODE_ZERO + d) as u8
}

/// Canonical decimal text of `n`: no leading zeros, `0` for zero.
pub open spec fn nat_text(n: nat) -> Seq<u8>
    decreases n,
{
    if n < 10 {
        seq![digit_byte(n as int)]
    } else {
        nat_text(n / 10).push(digit_byte((n % 10) as int))
    }
}

/// Canonical decimal text of `v`, with a leading `-` when negative.
pub open spec fn int_text(v: int) -> Seq<u8> {
    if v < 0 {
        seq![CODE_MINUS] + nat_text((-v) as nat)
    } else {
        nat_text(v as nat)
    }
}

pub open spec fn pow10(k: nat) -> nat
    decreases k,
{
    if k == 0 {
        1
    } else {
        10 * pow10((k - 1) as nat)
    }
}

// ----------------------------------------------------------------------------
// Lemmas
// ----------------------------------------------------------------------------

pub proof fn lemma_nat_text_len(n: nat, k: nat)
    requires
        1 <= k,
        n < pow10(k),
    ensures
        1 <= nat_text(n).len() <= k,
    decreases n,
{
    if n >= 10 {
        assert(k > 1) by {
            if k == 1 {
                reveal_with_fuel(pow10, 2);
            }
        }
        let p = pow10((k - 1) as nat);
        assert(n / 10 < p) by (nonlinear_arith)
            requires
                n < 10 * p,
        ;
        lemma_nat_text_len(n / 10, (k - 1) as nat);
    }
}

/// Decimal text lengths of the integers the codec writes.
pub proof fn lemma_text_lengths(v: i32, n: u64)
    ensures
        1 <= int_text(v as int).len() <= 11,
        1 <= nat_text(n as nat).len() <= 20,
{
    reveal_with_fuel(pow10, 21);
    assert(pow10(10) == 10000000000nat);
    assert(pow10(20) == 100000000000000000000nat);
    if v < 0 {
        lemma_nat_text_len((-v) as nat, 10);
    } else {
        lemma_nat_text_len(v as nat, 10);
    }
    lemma_nat_text_len(n as nat, 20);
}

pub proof fn lemma_nat_text_digits(n: nat)
    ensures
        forall|j: int| 0 <= j < nat_text(n).len() ==> is_digit(#[trigger] nat_text(n)[j]),
    decreases n,
{
    if n >= 10 {
        lemma_nat_text_digits(n / 10);
        let u = nat_text(n / 10);
        assert forall|j: int| 0 <= j < nat_text(n).len() implies is_digit(#[trigger] nat_text(n)[j]) by {
            if j < u.len() {
                assert(nat_text(n)[j] == u[j]);
            }
        }
    }
}

/// Reading over the canonical text of `m` moves the accumulator from zero
/// to `m`.
pub proof fn lemma_scan_text(s: Seq<u8>, i: int, m: nat, bound: int)
    requires
        0 <= i,
        i + nat_text(m).len() <= s.len(),
        s.subrange(i, i + nat_text(m).len()) == nat_text(m),
        m <= bound,
    ensures
        scan_digits(s, i, 0, bound) == scan_digits(s, i + nat_text(m).len(), m as int, bound),
    decreases m,
{
    let t = nat_text(m);
    assert(s[i + t.len() - 1] == t[t.len() - 1]);
    if m < 10 {
        assert(scan_digits(s, i + 1, m as int, bound) == scan_digits(s, i, 0, bound));
    } else {
        let u = nat_text(m / 10);
        assert(s.subrange(i, i + u.len()) =~= u) by {
            assert forall|j: int| 0 <= j < u.len() implies s.subrange(i, i + u.len())[j] == u[j] by {
                assert(s.subrange(i, i + t.len())[j] == t[j]);
            }
        }
        lemma_scan_text(s, i, m / 10, bound);
        assert((m / 10) * 10 + m % 10 == m);
        let j = i + u.len();
        assert(s[j] == digit_byte((m % 10) as int));
        assert(scan_digits(s, j, (m / 10) as int, bound) == scan_digits(s, j + 1, m as int, bound));
    }
}

/// A canonical decimal followed by a non-digit reads back as itself.
pub proof fn lemma_read_magnitude_text(s: Seq<u8>, i: int, m: nat, bound: int)
    requires
        0 <= i,
        i + nat_text(m).len() <= s.len(),
        s.subrange(i, i + nat_text(m).len()) == nat_text(m),
        !digit_at(s, i + nat_text(m).len()),
        m <= bound,
    ensures
        read_magnitude(s, i, bound) == Ok::<(int, int), int>((m as int, i + nat_text(m).len())),
{
    lemma_pow10_above(m);
    lemma_nat_text_len(m, m + 1);
    lemma_nat_text_digits(m);
    assert(s[i] == nat_text(m)[0]);
    lemma_scan_text(s, i, m, bound);
}

pub proof fn lemma_pow10_above(m: nat)
    ensures
        m < pow10(m + 1),
    decreases m,
{
    if m > 0 {
        lemma_pow10_above((m - 1) as nat);
    }
    reveal_with_fuel(pow10, 2);
}

/// The text of an `i32` reads back as that `i32`.
pub proof fn lemma_read_i32_text(s: Seq<u8>, i: int, v: i32)
    requires
        0 <= i,
        i + int_text(v as int).len() <= s.len(),
        s.subrange(i, i + int_text(v as int).len()) == int_text(v as int),
        !digit_at(s, i + int_text(v as int).len()),
    ensures
        read_i32(s, i) == Ok::<(i32, int), int>((v, i + int_text(v as int).len())),
{
    let t = int_text(v as int);
    lemma_text_lengths(v, 0);
    if v < 0 {
        let m = (-v) as nat;
        assert(s[i] == t[0]);
        assert(s.subrange(i + 1, i + 1 + nat_text(m).len()) =~= nat_text(m)) by {
            assert forall|j: int| 0 <= j < nat_text(m).len() implies
                s.subrange(i + 1, i + 1 + nat_text(m).len())[j] == nat_text(m)[j] by {
                assert(s.subrange(i, i + t.len())[j + 1] == t[j + 1]);
            }
        }
        lemma_read_magnitude_text(s, i + 1, m, I32_NEGATIVE_LIMIT as int);
    } else {
        let m = v as nat;
        lemma_nat_text_digits(m);
        assert(s[i] == t[0]);
        lemma_read_magnitude_text(s, i, m, I32_POSITIVE_LIMIT as int);
    }
}

/// The text of a `usize` reads back as that `usize`.
pub proof fn lemma_read_usize_text(s: Seq<u8>, i: int, n: usize)
    requires
        0 <= i,
        i + nat_text(n as nat).len() <= s.len(),
        s.subrange(i, i + nat_text(n as nat).len()) == nat_text(n as nat),
        !digit_at(s, i + nat_text(n as nat).len()),
    ensures
        read_usize(s, i) == Ok::<(usize, int), int>((n, i + nat_text(n as nat).len())),
{
    lemma_read_magnitude_text(s, i, n as nat, usize::MAX as int);
}

/// A literal that stands at `i` is matched whole.
pub proof fn lemma_expect_lit_present(s: Seq<u8>, i: int, lit: Seq<u8>)
    requires
        0 <= i,
        i + lit.len() <= s.len(),
        s.subrange(i, i + lit.len()) == lit,
    ensures
        expect_lit(s, i, lit) == Ok::<int, int>(i + lit.len()),
    decreases lit.len(),
{
    if lit.len() > 0 {
        assert(s[i] == s.subrange(i, i + lit.len())[0]);
        assert(s.subrange(i + 1, i + lit.len()) =~= lit.drop_first()) by {
            assert forall|j: int| 0 <= j < lit.len() - 1 implies
                s.subrange(i + 1, i + lit.len())[j] == lit.drop_first()[j] by {
                assert(s.subrange(i, i + lit.len())[j + 1] == lit[j + 1]);
            }
        }
        lemma_expect_lit_present(s, i + 1, lit.drop_first());
    }
}

/// A literal that agrees with `s` on its first `k` bytes and differs at the
/// next one fails there.
pub proof fn lemma_expect_lit_differs(s: Seq<u8>, i: int, lit: Seq<u8>, k: int)
    requires
        0 <= i,
        0 <= k < lit.len(),
        i + k < s.len(),
        forall|j: int| 0 <= j < k ==> s[i + j] == lit[j],
        s[i + k] != lit[k],
    ensures
        expect_lit(s, i, lit) == Err::<int, int>(i + k),
    decreases k,
{
    if k > 0 {
        assert(s[i + 0] == lit[0]);
        assert forall|j: int| 0 <= j < k - 1 implies s[(i + 1) + j] == lit.drop_first()[j] by {
            assert(s[i + (j + 1)] == lit[j + 1]);
        }
        lemma_expect_lit_differs(s, i + 1, lit.drop_first(), k - 1);
    }
}

/// A keyword that differs from the one written at `i` fails where they
/// first differ.
pub proof fn lemma_other_lit_fails(s: Seq<u8>, i: int, written: Seq<u8>, other: Seq<u8>, k: int)
    requires
        0 <= i,
        i + written.len() <= s.len(),
        s.subrange(i, i + written.len()) == written,
        0 <= k < written.len(),
        k < other.len(),
        forall|j: int| 0 <= j < k ==> written[j] == other[j],
        written[k] != other[k],
    ensures
        expect_lit(s, i, other) == Err::<int, int>(i + k),
{
    assert forall|j: int| 0 <= j < k implies s[i + j] == other[j] by {
        assert(s.subrange(i, i + written.len())[j] == written[j]);
    }
    assert(s.subrange(i, i + written.len())[k] == written[k]);
    lemma_expect_lit_differs(s, i, other, k);
}

/// The byte written at `i`.
pub proof fn lemma_byte_written(s: Seq<u8>, i: int, c: u8)
    requires
        0 <= i,
        i + 1 <= s.len(),
        s.subrange(i, i + 1) == seq![c],
    ensures
        s[i] == c,
        byte_is(s, i, c),
{
    assert(s.subrange(i, i + 1)[0] == c);
}

pub proof fn lemma_splice_concat(s: Seq<u8>, i: int, a: Seq<u8>, b: Seq<u8>)
    requires
        0 <= i,
        i + a.len() + b.len() <= s.len(),
    ensures
        splice(splice(s, i, a), i + a.len(), b) == splice(s, i, a + b),
        splice(s, i, a).len() == s.len(),
{
    assert(splice(splice(s, i, a), i + a.len(), b) =~= splice(s, i, a + b));
}

/// Two writes that follow each other are one write of both texts.
pub broadcast proof fn lemma_splice_then(s: Seq<u8>, i: int, a: Seq<u8>, j: int, b: Seq<u8>)
    requires
        0 <= i,
        j == i + a.len(),
        i + a.len() + b.len() <= s.len(),
    ensures
        #[trigger] splice(splice(s, i, a), j, b) == splice(s, i, a + b),
{
    lemma_splice_concat(s, i, a, b);
}

pub broadcast proof fn lemma_splice_len(s: Seq<u8>, i: int, a: Seq<u8>)
    requires
        0 <= i,
        i + a.len() <= s.len(),
    ensures
        #[trigger] splice(s, i, a).len() == s.len(),
{
}

/// What a write leaves at the positions it wrote.
pub broadcast proof fn lemma_splice_reads(s: Seq<u8>, i: int, a: Seq<u8>)
    requires
        0 <= i,
        i + a.len() <= s.len(),
    ensures
        #[trigger] splice(s, i, a).subrange(i, i + a.len()) == a,
{
    assert(splice(s, i, a).subrange(i, i + a.len()) =~= a);
}

// ----------------------------------------------------------------------------
// Executable primitives
// ----------------------------------------------------------------------------

/// A frame filled with zero bytes.
pub fn new_protocol_buffer() -> (r: ProtocolBuffer)
    ensures
        r@ == Seq::new(PROTOCOL_BUFFER_SIZE as nat, |i: int| 0u8),
{
    let r = [0u8; PROTOCOL_BUFFER_SIZE];
    assert(r@ =~= Seq::new(PROTOCOL_BUFFER_SIZE as nat, |i: int| 0u8));
    r
}

/// Writes `code` at `index`; returns the next position.
pub fn append_code(buf: &mut ProtocolBuffer, index: usize, code: u8) -> (r: usize)
    requires
        index < PROTOCOL_BUFFER_SIZE,
    ensures
        final(buf)@ == splice(old(buf)@, index as int, seq![code]),
        r == index + 1,
{
    buf[index] = code;
    assert(buf@ =~= splice(old(buf)@, index as int, seq![code]));
    index + 1
}

pub fn append_separator(buf: &mut ProtocolBuffer, index: usize) -> (r: usize)
    requires
        index < PROTOCOL_BUFFER_SIZE,
    ensures
        final(buf)@ == splice(old(buf)@, index as int, seq![CODE_SEPARATOR]),
        r == index + 1,
{
    append_code(buf, index, CODE_SEPARATOR)
}

pub fn append_end(buf: &mut ProtocolBuffer, index: usize) -> (r: usize)
    requires
        index < PROTOCOL_BUFFER_SIZE,
    ensures
        final(buf)@ == splice(old(buf)@, index as int, seq![CODE_END]),
        r == index + 1,
{
    append_code(buf, index, CODE_END)
}

/// Ok is the next position, Err the position of the wrong byte.
pub fn match_code(buf: &ProtocolBuffer, index: usize, code: u8) -> (r: Result<usize, usize>)
    ensures
        expect_byte(buf@, index as int, code) == pos(r),
        r matches Ok(n) ==> n <= PROTOCOL_BUFFER_SIZE,
{
    if index < PROTOCOL_BUFFER_SIZE && buf[index] == code {
        Ok(index + 1)
    } else {
        Err(index)
    }
}

pub fn match_separator(buf: &ProtocolBuffer, index: usize) -> (r: Result<usize, usize>)
    ensures
        expect_byte(buf@, index as int, CODE_SEPARATOR) == pos(r),
        r matches Ok(n) ==> n <= PROTOCOL_BUFFER_SIZE,
{
    match_code(buf, index, CODE_SEPARATOR)
}

pub fn match_end(buf: &ProtocolBuffer, index: usize) -> (r: Result<usize, usize>)
    ensures
        expect_byte(buf@, index as int, CODE_END) == pos(r),
        r matches Ok(n) ==> n <= PROTOCOL_BUFFER_SIZE,
{
    match_code(buf, index, CODE_END)
}

/// Writes the ASCII text `s` from `index`; returns the position after it.
pub fn write_string(buf: &mut ProtocolBuffer, index: usize, s: &str) -> (r: usize)
    requires
        s.is_ascii(),
        index + s@.len() <= PROTOCOL_BUFFER_SIZE,
    ensures
        final(buf)@ == splice(old(buf)@, index as int, ascii(s@)),
        r == index + s@.len(),
{
    let n = s.unicode_len();
    let mut k: usize = 0;
    assert(ascii(s@).take(0) =~= Seq::<u8>::empty());
    assert(splice(old(buf)@, index as int, Seq::<u8>::empty()) =~= old(buf)@);
    while k < n
        invariant
            n == s@.len(),
            s.is_ascii(),
            k <= n,
            index + n <= PROTOCOL_BUFFER_SIZE,
            buf@ == splice(old(buf)@, index as int, ascii(s@).take(k as int)),
        decreases n - k,
    {
        let c = s.get_ascii(k);
        buf[index + k] = c;
        assert(buf@ =~= splice(old(buf)@, index as int, ascii(s@).take(k + 1)));
        k += 1;
    }
    assert(ascii(s@).take(n as int) =~= ascii(s@));
    index + n
}

/// Ok is the position after the literal `s`, Err the position of the first
/// byte that differs from it.
pub fn match_string(buf: &ProtocolBuffer, index: usize, s: &str) -> (r: Result<usize, usize>)
    requires
        s.is_ascii(),
        s@.len() <= PROTOCOL_BUFFER_SIZE,
        index <= PROTOCOL_BUFFER_SIZE,
    ensures
        expect_lit(buf@, index as int, ascii(s@)) == pos(r),
        r matches Ok(n) ==> n == index + s@.len() && n <= PROTOCOL_BUFFER_SIZE,
{
    let n = s.unicode_len();
    let mut k: usize = 0;
    assert(ascii(s@).skip(0) =~= ascii(s@));
    while k < n
        invariant
            n == s@.len(),
            s.is_ascii(),
            k <= n <= PROTOCOL_BUFFER_SIZE,
            index + k <= PROTOCOL_BUFFER_SIZE,
            expect_lit(buf@, index as int, ascii(s@)) == expect_lit(
                buf@,
                index + k,
                ascii(s@).skip(k as int),
            ),
        decreases n - k,
    {
        let c = s.get_ascii(k);
        let i = index + k;
        if i >= PROTOCOL_BUFFER_SIZE || buf[i] != c {
            return Err(i);
        }
        assert(ascii(s@).skip(k as int).drop_first() =~= ascii(s@).skip(k + 1));
        k += 1;
    }
    assert(ascii(s@).skip(n as int) =~= Seq::<u8>::empty());
    Ok(index + n)
}

/// The value of a decimal digit byte.
pub fn digit_value(code: u8) -> (r: Option<u64>)
    ensures
        r == (if is_digit(code) {
            Some((code - CODE_ZERO) as u64)
        } else {
            None::<u64>
        }),
{
    if code >= CODE_ZERO && code <= 57 {
        Some((code - CODE_ZERO) as u64)
    } else {
        None
    }
}

/// The byte of decimal digit `digit`.
pub fn digit_code(digit: u64) -> (r: u8)
    requires
        digit < 10,
    ensures
        r == digit_byte(digit as int),
{
    digit as u8 + CODE_ZERO
}

/// Writes the canonical decimal text of `n` from `index`.
pub fn write_u64(buf: &mut ProtocolBuffer, index: usize, n: u64) -> (r: usize)
    requires
        index + nat_text(n as nat).len() <= PROTOCOL_BUFFER_SIZE,
    ensures
        final(buf)@ == splice(old(buf)@, index as int, nat_text(n as nat)),
        r == index + nat_text(n as nat).len(),
    decreases n,
{
    if n < 10 {
        append_code(buf, index, digit_code(n))
    } else {
        let ghost s0 = buf@;
        let i = write_u64(buf, index, n / 10);
        let r = append_code(buf, i, digit_code(n % 10));
        proof {
            lemma_splice_concat(s0, index as int, nat_text((n / 10) as nat), seq![digit_byte((n % 10) as int)]);
            assert(nat_text((n / 10) as nat) + seq![digit_byte((n % 10) as int)] =~= nat_text(n as nat));
        }
        r
    }
}

/// Writes the canonical decimal text of `value` from `index`.
pub fn write_i32(buf: &mut ProtocolBuffer, index: usize, value: i32) -> (r: usize)
    requires
        index + int_text(value as int).len() <= PROTOCOL_BUFFER_SIZE,
    ensures
        final(buf)@ == splice(old(buf)@, index as int, int_text(value as int)),
        r == index + int_text(value as int).len(),
{
    if value < 0 {
        let ghost s0 = buf@;
        let i = append_code(buf, index, CODE_MINUS);
        let magnitude = (-(value as i64)) as u64;
        let r = write_u64(buf, i, magnitude);
        proof {
            lemma_splice_concat(s0, index as int, seq![CODE_MINUS], nat_text(magnitude as nat));
        }
        r
    } else {
        write_u64(buf, index, value as u64)
    }
}

/// Writes the canonical decimal text of `value` from `index`.
pub fn write_usize(buf: &mut ProtocolBuffer, index: usize, value: usize) -> (r: usize)
    requires
        index + nat_text(value as nat).len() <= PROTOCOL_BUFFER_SIZE,
    ensures
        final(buf)@ == splice(old(buf)@, index as int, nat_text(value as nat)),
        r == index + nat_text(value as nat).len(),
{
    write_u64(buf, index, value as u64)
}

/// Reads a non-negative decimal of at most `bound` from `index`; Err is the
/// position of the byte that is missing or takes the value over `bound`.
pub fn match_magnitude(buf: &ProtocolBuffer, index: usize, bound: u64) -> (r: Result<(u64, usize), usize>)
    requires
        index <= PROTOCOL_BUFFER_SIZE,
        9 <= bound,
    ensures
        read_magnitude(buf@, index as int, bound as int) == (match r {
            Ok((v, n)) => Ok::<(int, int), int>((v as int, n as int)),
            Err(e) => Err(e as int),
        }),
        r matches Ok((v, n)) ==> v <= bound && n <= PROTOCOL_BUFFER_SIZE,
{
    if index >= PROTOCOL_BUFFER_SIZE {
        return Err(index);
    }
    let first = digit_value(buf[index]);
    if first.is_none() {
        return Err(index);
    }
    let mut value: u64 = 0;
    let mut i: usize = index;
    while i < PROTOCOL_BUFFER_SIZE
        invariant
            index <= i <= PROTOCOL_BUFFER_SIZE,
            digit_at(buf@, index as int),
            9 <= bound,
            value <= bound,
            scan_digits(buf@, index as int, 0, bound as int) == scan_digits(buf@, i as int, value as int, bound as int),
        decreases PROTOCOL_BUFFER_SIZE - i,
    {
        match digit_value(buf[i]) {
            None => {
                return Ok((value, i));
            },
            Some(d) => {
                if value > (bound - d) / 10 {
                    assert(value * 10 + d > bound) by (nonlinear_arith)
                        requires
                            value > (bound - d) / 10,
                            d <= bound || d > bound,
                    ;
                    return Err(i);
                }
                assert(value * 10 + d <= bound) by (nonlinear_arith)
                    requires
                        value <= (bound - d) / 10,
                        d <= 9,
                ;
                value = value * 10 + d;
                i += 1;
            },
        }
    }
    Ok((value, i))
}

/// Ok is the value and the next position, Err the position of the wrong
/// byte (a missing digit, or the digit that takes the value out of `i32`).
pub fn match_i32(buf: &ProtocolBuffer, index: usize) -> (r: Result<(i32, usize), usize>)
    requires
        index <= PROTOCOL_BUFFER_SIZE,
    ensures
        read_i32(buf@, index as int) == val_pos(r),
        r matches Ok((_, n)) ==> n <= PROTOCOL_BUFFER_SIZE,
{
    if index < PROTOCOL_BUFFER_SIZE && buf[index] == CODE_MINUS {
        match match_magnitude(buf, index + 1, I32_NEGATIVE_LIMIT) {
            Ok((m, next)) => Ok(((0i64 - m as i64) as i32, next)),
            Err(e) => Err(e),
        }
    } else {
        match match_magnitude(buf, index, I32_POSITIVE_LIMIT) {
            Ok((m, next)) => Ok((m as i32, next)),
            Err(e) => Err(e),
        }
    }
}

/// Ok is the value and the next position, Err the position of the wrong
/// byte (a missing digit, or the digit that takes the value out of `usize`).
pub fn match_usize(buf: &ProtocolBuffer, index: usize) -> (r: Result<(usize, usize), usize>)
    requires
        index <= PROTOCOL_BUFFER_SIZE,
    ensures
        read_usize(buf@, index as int) == val_pos(r),
        r matches Ok((_, n)) ==> n <= PROTOCOL_BUFFER_SIZE,
{
    match match_magnitude(buf, index, usize::MAX as u64) {
        Ok((m, next)) => Ok((m as usize, next)),
        Err(e) => Err(e),
    }
}

// ----------------------------------------------------------------------------
// Field lists: `:v1:v2...` of signed decimals
// ----------------------------------------------------------------------------

/// A separator followed by a signed decimal.
pub open spec fn read_field(s: Seq<u8>, i: int) -> Result<(i32, int), int> {
    match expect_byte(s, i, CODE_SEPARATOR) {
        Ok(j) => read_i32(s, j),
        Err(e) => Err(e),
    }
}

/// A separator followed by a non-negative decimal that fits a `usize`.
pub open spec fn read_usize_field(s: Seq<u8>, i: int) -> Result<(usize, int), int> {
    match expect_byte(s, i, CODE_SEPARATOR) {
        Ok(j) => read_usize(s, j),
        Err(e) => Err(e),
    }
}

/// The bytes of a keyword.
pub open spec fn kw(t: &str) -> Seq<u8> {
    ascii(t@)
}

/// A keyword alone on its line: the end of the line must follow.
pub open spec fn bare<T>(s: Seq<u8>, i: int, v: T) -> Result<T, int> {
    match expect_byte(s, i, CODE_END) {
        Ok(_) => Ok(v),
        Err(e) => Err(e),
    }
}

/// Where `lit` stops matching at `i` (`i` itself if it matches whole).
pub open spec fn miss(s: Seq<u8>, i: int, lit: Seq<u8>) -> int {
    match expect_lit(s, i, lit) {
        Ok(_) => i,
        Err(e) => e,
    }
}

pub open spec fn furthest(a: int, b: int) -> int {
    if a < b {
        b
    } else {
        a
    }
}

/// The furthest position any of `lits` matches to from `i` (`i` for none).
pub open spec fn furthest_miss(s: Seq<u8>, i: int, lits: Seq<Seq<u8>>) -> int
    decreases lits.len(),
{
    if lits.len() == 0 {
        i
    } else {
        furthest(furthest_miss(s, i, lits.drop_last()), miss(s, i, lits.last()))
    }
}

/// Where a literal stops matching: the frame agrees with it up to there,
/// and, when it fails, differs from it right there.
pub proof fn lemma_miss_facts(s: Seq<u8>, i: int, lit: Seq<u8>)
    requires
        0 <= i,
    ensures
        i <= miss(s, i, lit) <= i + lit.len(),
        forall|j: int| i <= j < miss(s, i, lit) ==> byte_is(s, j, #[trigger] lit[j - i]),
        expect_lit(s, i, lit) is Err ==> miss(s, i, lit) < i + lit.len() && !byte_is(
            s,
            miss(s, i, lit),
            lit[miss(s, i, lit) - i],
        ),
    decreases lit.len(),
{
    if lit.len() > 0 && byte_is(s, i, lit[0]) {
        lemma_miss_facts(s, i + 1, lit.drop_first());
        assert forall|j: int| i <= j < miss(s, i, lit) implies byte_is(s, j, #[trigger] lit[j - i]) by {
            if j > i {
                assert(lit[j - i] == lit.drop_first()[j - (i + 1)]);
            }
        }
        if expect_lit(s, i, lit) is Err {
            let m = miss(s, i, lit);
            assert(lit[m - i] == lit.drop_first()[m - (i + 1)]);
        }
    }
}

/// The furthest miss is the miss of one of the literals, and no literal's
/// miss lies beyond it.
pub proof fn lemma_furthest_miss(s: Seq<u8>, i: int, lits: Seq<Seq<u8>>)
    requires
        0 <= i,
        lits.len() > 0,
    ensures
        exists|k: int| 0 <= k < lits.len() && miss(s, i, lits[k]) == furthest_miss(s, i, lits),
        forall|k: int| 0 <= k < lits.len() ==> miss(s, i, #[trigger] lits[k]) <= furthest_miss(s, i, lits),
    decreases lits.len(),
{
    let last = lits.len() - 1;
    lemma_miss_facts(s, i, lits[last]);
    if lits.len() > 1 {
        let p = lits.drop_last();
        lemma_furthest_miss(s, i, p);
        assert forall|k: int| 0 <= k < lits.len() implies miss(s, i, #[trigger] lits[k]) <= furthest_miss(s, i, lits) by {
            if k < last {
                assert(lits[k] == p[k]);
            }
        }
        let k0 = choose|k: int| 0 <= k < p.len() && miss(s, i, p[k]) == furthest_miss(s, i, p);
        assert(lits[k0] == p[k0]);
        if furthest_miss(s, i, lits) == miss(s, i, lits[last]) {
            assert(0 <= last < lits.len() && miss(s, i, lits[last]) == furthest_miss(s, i, lits));
        } else {
            assert(0 <= k0 < lits.len() && miss(s, i, lits[k0]) == furthest_miss(s, i, lits));
        }
    } else {
        assert(lits.drop_last() =~= Seq::<Seq<u8>>::empty());
        assert(lits.last() == lits[last]);
        assert(furthest_miss(s, i, lits.drop_last()) == i);
        assert(0 <= last < lits.len() && miss(s, i, lits[last]) == furthest_miss(s, i, lits));
    }
}

/// When none of `lits` matches at `i`, the frame agrees with one of them up
/// to their furthest miss, and none of them agrees with it one byte further.
pub proof fn lemma_furthest_miss_is_first_mismatch(s: Seq<u8>, i: int, lits: Seq<Seq<u8>>)
    requires
        0 <= i,
        lits.len() > 0,
        forall|k: int| 0 <= k < lits.len() ==> expect_lit(s, i, #[trigger] lits[k]) is Err,
    ensures
        exists|k: int|
            0 <= k < lits.len() && furthest_miss(s, i, lits) < i + lits[k].len() && forall|j: int|
                i <= j < furthest_miss(s, i, lits) ==> byte_is(s, j, #[trigger] lits[k][j - i]),
        forall|k: int|
            0 <= k < lits.len() && furthest_miss(s, i, lits) < i + (#[trigger] lits[k]).len() ==> !(
            forall|j: int| i <= j <= furthest_miss(s, i, lits) ==> byte_is(s, j, #[trigger] lits[k][j - i])),
{
    lemma_furthest_miss(s, i, lits);
    let e = furthest_miss(s, i, lits);
    let k0 = choose|k: int| 0 <= k < lits.len() && miss(s, i, lits[k]) == e;
    lemma_miss_facts(s, i, lits[k0]);
    assert(0 <= k0 < lits.len() && e < i + lits[k0].len() && forall|j: int|
        i <= j < e ==> byte_is(s, j, #[trigger] lits[k0][j - i]));
    assert forall|k: int|
        0 <= k < lits.len() && e < i + (#[trigger] lits[k]).len() implies !(forall|j: int|
        i <= j <= e ==> byte_is(s, j, #[trigger] lits[k][j - i])) by {
        lemma_miss_facts(s, i, lits[k]);
        let m = miss(s, i, lits[k]);
        assert(m <= e);
        if forall|j: int| i <= j <= e ==> byte_is(s, j, #[trigger] lits[k][j - i]) {
            assert(byte_is(s, m, lits[k][m - i]));
        }
    }
}

/// The furthest position any of the literals `lits` matches to at `index`.
pub fn furthest_miss_position(buf: &ProtocolBuffer, index: usize, lits: &[&str]) -> (r: usize)
    requires
        index <= PROTOCOL_BUFFER_SIZE,
        forall|k: int| 0 <= k < lits@.len() ==> (#[trigger] lits@[k]).is_ascii() && lits@[k]@.len()
            <= PROTOCOL_BUFFER_SIZE,
    ensures
        r == furthest_miss(buf@, index as int, lits@.map_values(|t: &str| kw(t))),
{
    let mut r = index;
    let mut k: usize = 0;
    assert(lits@.map_values(|t: &str| kw(t)).take(0) =~= Seq::<Seq<u8>>::empty());
    while k < lits.len()
        invariant
            index <= PROTOCOL_BUFFER_SIZE,
            k <= lits@.len(),
            forall|q: int| 0 <= q < lits@.len() ==> (#[trigger] lits@[q]).is_ascii() && lits@[q]@.len()
                <= PROTOCOL_BUFFER_SIZE,
            r == furthest_miss(buf@, index as int, lits@.map_values(|t: &str| kw(t)).take(k as int)),
        decreases lits@.len() - k,
    {
        let m = match match_string(buf, index, lits[k]) {
            Ok(_) => index,
            Err(e) => e,
        };
        let ghost all = lits@.map_values(|t: &str| kw(t));
        assert(all.take(k + 1).drop_last() =~= all.take(k as int));
        assert(all.take(k + 1).last() == kw(lits@[k as int]));
        r = if r < m {
            m
        } else {
            r
        };
        k += 1;
    }
    assert(lits@.map_values(|t: &str| kw(t)).take(lits@.len() as int) =~= lits@.map_values(
        |t: &str| kw(t),
    ));
    r
}

/// A value and position followed by the end of the line: the value.
pub open spec fn then_end<T>(s: Seq<u8>, r: Result<(T, int), int>) -> Result<T, int> {
    match r {
        Ok((v, j)) => match expect_byte(s, j, CODE_END) {
            Ok(_) => Ok(v),
            Err(e) => Err(e),
        },
        Err(e) => Err(e),
    }
}

/// `n` fields in a row.
pub open spec fn read_fields(s: Seq<u8>, i: int, n: nat) -> Result<(Seq<i32>, int), int>
    decreases n,
{
    if n == 0 {
        Ok((Seq::empty(), i))
    } else {
        match read_fields(s, i, (n - 1) as nat) {
            Ok((v, j)) => match read_field(s, j) {
                Ok((x, k)) => Ok((v.push(x), k)),
                Err(e) => Err(e),
            },
            Err(e) => Err(e),
        }
    }
}

/// Text of a field list.
pub open spec fn fields_text(vs: Seq<i32>) -> Seq<u8>
    decreases vs.len(),
{
    if vs.len() == 0 {
        Seq::empty()
    } else {
        fields_text(vs.drop_last()) + seq![CODE_SEPARATOR] + int_text(vs.last() as int)
    }
}

/// A value written as a field.
pub open spec fn usize_field_text(n: usize) -> Seq<u8> {
    seq![CODE_SEPARATOR] + nat_text(n as nat)
}

pub proof fn lemma_fields_text_len(vs: Seq<i32>)
    ensures
        fields_text(vs).len() <= 12 * vs.len(),
    decreases vs.len(),
{
    if vs.len() > 0 {
        lemma_fields_text_len(vs.drop_last());
        lemma_text_lengths(vs.last(), 0);
    }
}

/// A field list starts with a separator.
pub proof fn lemma_fields_text_first(vs: Seq<i32>)
    requires
        vs.len() > 0,
    ensures
        fields_text(vs).len() > 0,
        fields_text(vs)[0] == CODE_SEPARATOR,
    decreases vs.len(),
{
    let p = fields_text(vs.drop_last());
    let t = p + seq![CODE_SEPARATOR] + int_text(vs.last() as int);
    assert(fields_text(vs) == t);
    if vs.len() > 1 {
        lemma_fields_text_first(vs.drop_last());
        assert(t[0] == p[0]);
    } else {
        assert(vs.drop_last() =~= Seq::<i32>::empty());
        assert(p.len() == 0);
        assert(t[0] == CODE_SEPARATOR);
    }
}

pub proof fn lemma_read_fields_err(s: Seq<u8>, i: int, m: nat, n: nat, e: int)
    requires
        m <= n,
        read_fields(s, i, m) == Err::<(Seq<i32>, int), int>(e),
    ensures
        read_fields(s, i, n) == Err::<(Seq<i32>, int), int>(e),
    decreases n,
{
    if n > m {
        lemma_read_fields_err(s, i, m, (n - 1) as nat, e);
    }
}

/// Sub-ranges of a sub-range.
pub proof fn lemma_subrange_of(s: Seq<u8>, i: int, t: Seq<u8>, a: int, b: int)
    requires
        0 <= i,
        i + t.len() <= s.len(),
        s.subrange(i, i + t.len()) == t,
        0 <= a <= b <= t.len(),
    ensures
        s.subrange(i + a, i + b) == t.subrange(a, b),
{
    assert(s.subrange(i + a, i + b) =~= t.subrange(a, b)) by {
        assert forall|j: int| 0 <= j < b - a implies s.subrange(i + a, i + b)[j] == t.subrange(a, b)[j] by {
            assert(s.subrange(i, i + t.len())[a + j] == t[a + j]);
        }
    }
}

/// A written field list followed by a non-digit reads back.
pub proof fn lemma_read_fields_text(s: Seq<u8>, i: int, vs: Seq<i32>)
    requires
        0 <= i,
        i + fields_text(vs).len() <= s.len(),
        s.subrange(i, i + fields_text(vs).len()) == fields_text(vs),
        !digit_at(s, i + fields_text(vs).len()),
    ensures
        read_fields(s, i, vs.len()) == Ok::<(Seq<i32>, int), int>((vs, i + fields_text(vs).len())),
    decreases vs.len(),
{
    if vs.len() > 0 {
        let p = fields_text(vs.drop_last());
        let t = fields_text(vs);
        let x = vs.last();
        let pl = p.len() as int;
        lemma_subrange_of(s, i, t, 0, pl);
        assert(t.subrange(0, pl) =~= p);
        assert(s[i + p.len()] == t[p.len() as int]);
        lemma_read_fields_text(s, i, vs.drop_last());
        let xt = int_text(x as int);
        lemma_subrange_of(s, i, t, pl + 1, t.len() as int);
        assert(t.subrange(pl + 1, t.len() as int) =~= xt);
        lemma_read_i32_text(s, i + pl + 1, x);
        assert(t[pl] == CODE_SEPARATOR);
        assert(read_field(s, i + pl) == Ok::<(i32, int), int>((x, i + t.len())));
        assert(read_fields(s, i, (vs.len() - 1) as nat) == Ok::<(Seq<i32>, int), int>((vs.drop_last(), i + pl)));
        assert(vs.drop_last().push(x) =~= vs);
    } else {
        assert(vs =~= Seq::<i32>::empty());
    }
}

/// A `usize` field followed by a non-digit reads back.
pub proof fn lemma_read_usize_field_text(s: Seq<u8>, i: int, n: usize)
    requires
        0 <= i,
        i + usize_field_text(n).len() <= s.len(),
        s.subrange(i, i + usize_field_text(n).len()) == usize_field_text(n),
        !digit_at(s, i + usize_field_text(n).len()),
    ensures
        read_usize_field(s, i) == Ok::<(usize, int), int>((n, i + usize_field_text(n).len())),
{
    let t = usize_field_text(n);
    assert(s[i] == t[0]);
    lemma_subrange_of(s, i, t, 1, t.len() as int);
    assert(t.subrange(1, t.len() as int) =~= nat_text(n as nat));
    lemma_read_usize_text(s, i + 1, n);
}

/// `s` holds `piece` at `a`, a part of the text `t` written from zero.
pub proof fn lemma_holds(s: Seq<u8>, t: Seq<u8>, a: int, piece: Seq<u8>)
    requires
        t.len() <= s.len(),
        s.subrange(0, t.len() as int) == t,
        0 <= a,
        a + piece.len() <= t.len(),
        t.subrange(a, a + piece.len()) == piece,
    ensures
        s.subrange(a, a + piece.len()) == piece,
{
    lemma_subrange_of(s, 0, t, a, a + piece.len());
}

/// A text `w` then `body`, written from zero: its two parts.
pub proof fn lemma_line_parts(s: Seq<u8>, w: Seq<u8>, body: Seq<u8>)
    requires
        w.len() + body.len() <= s.len(),
        s.subrange(0, w.len() + body.len() as int) == w + body,
    ensures
        s.subrange(0, w.len() as int) == w,
        s.subrange(w.len() as int, w.len() + body.len() as int) == body,
{
    let t = w + body;
    let a = w.len() as int;
    let b = a + body.len();
    assert(t.subrange(0, a) =~= w);
    assert(t.subrange(a, b) =~= body);
    lemma_holds(s, t, 0, w);
    lemma_holds(s, t, a, body);
}

/// Writes `vals` as a field list from `index`.
pub fn write_fields(buf: &mut ProtocolBuffer, index: usize, vals: &[i32]) -> (r: usize)
    requires
        index + fields_text(vals@).len() <= PROTOCOL_BUFFER_SIZE,
    ensures
        final(buf)@ == splice(old(buf)@, index as int, fields_text(vals@)),
        r == index + fields_text(vals@).len(),
{
    let mut i = index;
    let mut k: usize = 0;
    assert(vals@.take(0) =~= Seq::<i32>::empty());
    assert(splice(old(buf)@, index as int, Seq::<u8>::empty()) =~= old(buf)@);
    while k < vals.len()
        invariant
            k <= vals@.len(),
            index + fields_text(vals@).len() <= PROTOCOL_BUFFER_SIZE,
            i == index + fields_text(vals@.take(k as int)).len(),
            buf@ == splice(old(buf)@, index as int, fields_text(vals@.take(k as int))),
        decreases vals@.len() - k,
    {
        proof {
            lemma_fields_prefix_len(vals@, k as nat);
            lemma_text_lengths(vals@[k as int], 0);
        }
        let ghost before = buf@;
        let ghost w = fields_text(vals@.take(k as int));
        i = append_separator(buf, i);
        i = write_i32(buf, i, vals[k]);
        proof {
            let x = vals@[k as int];
            assert(vals@.take(k + 1).drop_last() =~= vals@.take(k as int));
            assert(fields_text(vals@.take(k + 1)) == w + seq![CODE_SEPARATOR] + int_text(x as int));
            lemma_splice_concat(old(buf)@, index as int, w, seq![CODE_SEPARATOR]);
            lemma_splice_concat(old(buf)@, index as int, w + seq![CODE_SEPARATOR], int_text(x as int));
        }
        k += 1;
    }
    assert(vals@.take(vals@.len() as int) =~= vals@);
    i
}

/// The text of a prefix of a field list is a prefix of its text.
pub proof fn lemma_fields_prefix_len(vs: Seq<i32>, k: nat)
    requires
        k < vs.len(),
    ensures
        fields_text(vs.take(k as int)).len() + 1 + int_text(vs[k as int] as int).len()
            <= fields_text(vs).len(),
    decreases vs.len(),
{
    let p = vs.drop_last();
    if k + 1 == vs.len() {
        assert(vs.take(k as int) =~= p);
    } else {
        lemma_fields_prefix_len(p, k);
        assert(p.take(k as int) =~= vs.take(k as int));
    }
}

/// Reads `n` fields from `index`; the first `n` entries of the array hold
/// them.
pub fn match_fields(buf: &ProtocolBuffer, index: usize, n: usize) -> (r: Result<([i32; 20], usize), usize>)
    requires
        index <= PROTOCOL_BUFFER_SIZE,
        n <= 20,
    ensures
        match read_fields(buf@, index as int, n as nat) {
            Ok((v, e)) => r matches Ok((a, j)) && a@.take(n as int) == v && j == e
                && j <= PROTOCOL_BUFFER_SIZE,
            Err(e) => r matches Err(x) && x == e,
        },
{
    let mut a: [i32; 20] = [0i32; 20];
    let mut i = index;
    let mut k: usize = 0;
    assert(a@.take(0) =~= Seq::<i32>::empty());
    while k < n
        invariant
            k <= n <= 20,
            i <= PROTOCOL_BUFFER_SIZE,
            read_fields(buf@, index as int, k as nat) == Ok::<(Seq<i32>, int), int>((a@.take(k as int), i as int)),
        decreases n - k,
    {
        let j = match match_separator(buf, i) {
            Ok(j) => j,
            Err(e) => {
                proof {
                    lemma_read_fields_err(buf@, index as int, (k + 1) as nat, n as nat, e as int);
                }
                return Err(e);
            },
        };
        match match_i32(buf, j) {
            Ok((x, next)) => {
                let ghost before = a@;
                a[k] = x;
                assert(a@.take(k + 1) =~= before.take(k as int).push(x));
                i = next;
            },
            Err(e) => {
                proof {
                    lemma_read_fields_err(buf@, index as int, (k + 1) as nat, n as nat, e as int);
                }
                return Err(e);
            },
        }
        k += 1;
    }
    Ok((a, i))
}

/// Reads `n` fields and the end of the line.
pub fn match_fields_line(buf: &ProtocolBuffer, index: usize, n: usize) -> (r: Result<[i32; 20], usize>)
    requires
        index <= PROTOCOL_BUFFER_SIZE,
        n <= 20,
    ensures
        match then_end(buf@, read_fields(buf@, index as int, n as nat)) {
            Ok(v) => r matches Ok(a) && a@.take(n as int) == v,
            Err(e) => r matches Err(x) && x == e,
        },
{
    match match_fields(buf, index, n) {
        Ok((a, next)) => match match_end(buf, next) {
            Ok(_) => Ok(a),
            Err(e) => Err(e),
        },
        Err(e) => Err(e),
    }
}

/// Reads a separator and a `usize` from `index`.
pub fn match_usize_field(buf: &ProtocolBuffer, index: usize) -> (r: Result<(usize, usize), usize>)
    requires
        index <= PROTOCOL_BUFFER_SIZE,
    ensures
        read_usize_field(buf@, index as int) == val_pos(r),
        r matches Ok((_, n)) ==> n <= PROTOCOL_BUFFER_SIZE,
{
    match match_separator(buf, index) {
        Ok(j) => match_usize(buf, j),
        Err(e) => Err(e),
    }
}

/// Writes a separator and `value` from `index`.
pub fn write_usize_field(buf: &mut ProtocolBuffer, index: usize, value: usize) -> (r: usize)
    requires
        index + usize_field_text(value).len() <= PROTOCOL_BUFFER_SIZE,
    ensures
        final(buf)@ == splice(old(buf)@, index as int, usize_field_text(value)),
        r == index + usize_field_text(value).len(),
{
    let i = append_separator(buf, index);
    let r = write_usize(buf, i, value);
    proof {
        lemma_splice_concat(old(buf)@, index as int, seq![CODE_SEPARATOR], nat_text(value as nat));
    }
    r
}

} // verus!
