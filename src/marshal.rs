//! Pure marshalling: diagnostic messages as UTF-8 bytes, and numbers read from
//! or written to little-endian byte sequences.
use vstd::prelude::*;
use vstd::string::*;

verus! {

/// The ASCII byte of a digit below sixteen (lower-case letters past nine).
pub open spec fn digit_char(d: nat) -> u8 {
    if d < 10 {
        (48 + d) as u8
    } else {
        (87 + d) as u8
    }
}

/// The decimal digits of `n`, most significant first, without leading zeros.
pub open spec fn decimal(n: nat) -> Seq<u8>
    decreases n,
{
    if n < 10 {
        seq![digit_char(n)]
    } else {
        decimal(n / 10).push(digit_char(n % 10))
    }
}

/// The lower-case hexadecimal digits of `n`, most significant first.
pub open spec fn hex(n: nat) -> Seq<u8>
    decreases n,
{
    if n < 16 {
        seq![digit_char(n)]
    } else {
        hex(n / 16).push(digit_char(n % 16))
    }
}

fn digit(d: u64) -> (r: u8)
    requires
        d < 16,
    ensures
        r == digit_char(d as nat),
{
    if d < 10 {
        48u8 + d as u8
    } else {
        87u8 + d as u8
    }
}

fn push_decimal(n: u64, out: &mut Vec<u8>)
    ensures
        final(out)@ == old(out)@ + decimal(n as nat),
    decreases n,
{
    if n >= 10 {
        push_decimal(n / 10, out);
    }
    out.push(digit(n % 10));
}

fn push_hex(n: u64, out: &mut Vec<u8>)
    ensures
        final(out)@ == old(out)@ + hex(n as nat),
    decreases n,
{
    if n >= 16 {
        push_hex(n / 16, out);
    }
    out.push(digit(n % 16));
}

fn push_text(s: &str, out: &mut Vec<u8>)
    ensures
        final(out)@ == old(out)@ + s.spec_bytes(),
{
    let b = s.as_bytes();
    let mut i: usize = 0;
    while i < b.len()
        invariant
            b@ == s.spec_bytes(),
            0 <= i <= b@.len(),
            out@ == old(out)@ + b@.subrange(0, i as int),
        decreases b@.len() - i,
    {
        out.push(b[i]);
        i = i + 1;
        assert(out@ =~= old(out)@ + b@.subrange(0, i as int));
    }
    assert(b@.subrange(0, i as int) =~= b@);
}

/// What every diagnostic line starts with.
pub const TAG: &'static str = "[wasm] ";

/// What the header of a byte dump starts with, before the address.
pub const DUMP_HEADER: &'static str = "[wasm] reading from 0x";

/// What the report of a wrongly sized number starts with, before the length.
pub const LENGTH_ERROR: &'static str = "[wasm] Error: Expected 8 bytes for f64, got ";

/// The greeting that the guest exports; it holds a character of four bytes.
pub const HELLO: &'static str = "Hello from Wasm! \u{1F49C}";

/// The UTF-8 bytes of the greeting.
pub open spec fn hello_bytes() -> Seq<u8> {
    HELLO.spec_bytes()
}

/// The UTF-8 bytes of the greeting, in a buffer of their own.
pub fn hello_payload() -> (r: Vec<u8>)
    ensures
        r@ == hello_bytes(),
{
    let mut out: Vec<u8> = Vec::new();
    push_text(HELLO, &mut out);
    out
}

/// The header line of a dump of the memory at `address`.
pub open spec fn header_line(address: nat) -> Seq<u8> {
    DUMP_HEADER.spec_bytes() + hex(address)
}

/// The line that reports one byte of a dump.
pub open spec fn byte_line(b: u8) -> Seq<u8> {
    TAG.spec_bytes() + decimal(b as nat)
}

/// The report of a number read with `length` bytes in place of eight.
pub open spec fn length_error_line(length: nat) -> Seq<u8> {
    LENGTH_ERROR.spec_bytes() + decimal(length)
}

/// The header line of a dump of the memory at `address`.
pub fn header_message(address: usize) -> (r: Vec<u8>)
    ensures
        r@ == header_line(address as nat),
{
    let mut out: Vec<u8> = Vec::new();
    push_text(DUMP_HEADER, &mut out);
    push_hex(address as u64, &mut out);
    out
}

/// The line that reports one byte of a dump.
pub fn byte_message(b: u8) -> (r: Vec<u8>)
    ensures
        r@ == byte_line(b),
{
    let mut out: Vec<u8> = Vec::new();
    push_text(TAG, &mut out);
    push_decimal(b as u64, &mut out);
    out
}

/// The report of a number read with `length` bytes in place of eight.
pub fn length_error_message(length: usize) -> (r: Vec<u8>)
    ensures
        r@ == length_error_line(length as nat),
{
    let mut out: Vec<u8> = Vec::new();
    push_text(LENGTH_ERROR, &mut out);
    push_decimal(length as u64, &mut out);
    out
}

/// The lines of a dump of `bytes`, found at `address`: a header, then one line
/// per byte in ascending address order.
pub open spec fn dump_lines(address: nat, bytes: Seq<u8>) -> Seq<Seq<u8>> {
    seq![header_line(address)] + bytes.map_values(|b: u8| byte_line(b))
}

/// The messages that a dump of `bytes`, found at `address`, sends to the host.
pub fn dump_messages(address: usize, bytes: &Vec<u8>) -> (r: Vec<Vec<u8>>)
    ensures
        r@.len() == bytes@.len() + 1,
        forall|i: int| 0 <= i < r@.len() ==> #[trigger] r@[i]@ == dump_lines(address as nat, bytes@)[i],
{
    let mut out: Vec<Vec<u8>> = Vec::new();
    out.push(header_message(address));
    let mut i: usize = 0;
    while i < bytes.len()
        invariant
            0 <= i <= bytes@.len(),
            out@.len() == i + 1,
            forall|j: int| 0 <= j < out@.len() ==> #[trigger] out@[j]@ == dump_lines(address as nat, bytes@)[j],
        decreases bytes@.len() - i,
    {
        out.push(byte_message(bytes[i]));
        i = i + 1;
    }
    out
}

/// The number that `b` encodes, least significant byte first.
pub open spec fn le_value(b: Seq<u8>) -> nat
    decreases b.len(),
{
    if b.len() == 0 {
        0
    } else {
        b[0] as nat + 256 * le_value(b.drop_first())
    }
}

/// The four bytes of `v`, least significant first.
pub open spec fn le32(v: u32) -> Seq<u8> {
    seq![
        (v % 256) as u8,
        (v / 256 % 256) as u8,
        (v / 65536 % 256) as u8,
        (v / 16777216) as u8,
    ]
}

proof fn lemma_le_value_bound(b: Seq<u8>, k: nat)
    requires
        b.len() <= k,
    ensures
        le_value(b) < pow256(k),
    decreases b.len(),
{
    if b.len() > 0 {
        lemma_le_value_bound(b.drop_first(), (k - 1) as nat);
        let rest = le_value(b.drop_first());
        assert(b[0] as nat + 256 * rest < 256 * pow256((k - 1) as nat)) by (nonlinear_arith)
            requires
                rest < pow256((k - 1) as nat),
                b[0] < 256,
        ;
    } else {
        lemma_pow256_positive(k);
    }
}

proof fn lemma_pow256_positive(k: nat)
    ensures
        pow256(k) > 0,
    decreases k,
{
    if k > 0 {
        lemma_pow256_positive((k - 1) as nat);
    }
}

/// Two hundred and fifty-six to the power `k`.
pub open spec fn pow256(k: nat) -> nat
    decreases k,
{
    if k == 0 {
        1
    } else {
        256 * pow256((k - 1) as nat)
    }
}

/// The bit pattern of the 8-byte number stored at the start of `b`, least
/// significant byte first (the byte order of a 32-bit WebAssembly guest).
pub fn number_bits(b: &Vec<u8>) -> (r: u64)
    requires
        b@.len() == 8,
    ensures
        r as nat == le_value(b@),
{
    let mut r: u64 = 0;
    let mut i: usize = 8;
    while i > 0
        invariant
            b@.len() == 8,
            0 <= i <= 8,
            r as nat == le_value(b@.subrange(i as int, 8)),
        decreases i,
    {
        let ghost tail = b@.subrange(i as int, 8);
        proof {
            lemma_le_value_bound(tail, (8 - i) as nat);
            reveal_with_fuel(pow256, 8);
        }
        assert(b@.subrange(i - 1, 8).drop_first() =~= tail);
        r = r * 256 + b[i - 1] as u64;
        i = i - 1;
    }
    assert(b@.subrange(0, 8) =~= b@);
    r
}

/// The four bytes of `v`, least significant first.
pub fn le32_bytes(v: u32) -> (r: Vec<u8>)
    ensures
        r@ == le32(v),
{
    let mut r: Vec<u8> = Vec::new();
    r.push((v % 256) as u8);
    r.push((v / 256 % 256) as u8);
    r.push((v / 65536 % 256) as u8);
    r.push((v / 16777216) as u8);
    assert(r@ =~= le32(v));
    r
}

/// Reading four bytes written by `le32` gives the value back.
pub proof fn lemma_le32_round_trip(v: u32)
    ensures
        le_value(le32(v)) == v,
{
    let b = le32(v);
    reveal_with_fuel(le_value, 5);
    assert(b.drop_first().drop_first().drop_first().drop_first().len() == 0);
    assert(v == v % 256 + 256 * (v / 256 % 256 + 256 * (v / 65536 % 256 + 256 * (v / 16777216)))) by (nonlinear_arith);
}

/// The `k` bytes of `v`, least significant first.
pub open spec fn le_bytes(v: nat, k: nat) -> Seq<u8>
    decreases k,
{
    if k == 0 {
        seq![]
    } else {
        seq![(v % 256) as u8] + le_bytes(v / 256, (k - 1) as nat)
    }
}

/// Reading back the `k` bytes of a value below `256^k` gives the value.
pub proof fn lemma_le_bytes_round_trip(v: nat, k: nat)
    requires
        v < pow256(k),
    ensures
        le_bytes(v, k).len() == k,
        le_value(le_bytes(v, k)) == v,
    decreases k,
{
    if k > 0 {
        let rest = pow256((k - 1) as nat);
        assert(v / 256 < rest) by (nonlinear_arith)
            requires
                v < 256 * rest,
        ;
        lemma_le_bytes_round_trip(v / 256, (k - 1) as nat);
        assert(le_bytes(v, k).drop_first() =~= le_bytes(v / 256, (k - 1) as nat));
        assert(v == v % 256 + 256 * (v / 256)) by (nonlinear_arith);
    }
}

/// Any bit pattern stored as eight bytes, least significant first, reads back
/// as the same pattern: decoding inverts encoding for every 8-byte number,
/// NaNs and infinities included.
pub proof fn lemma_number_round_trip(bits: u64)
    ensures
        le_bytes(bits as nat, 8).len() == 8,
        le_value(le_bytes(bits as nat, 8)) == bits,
{
    reveal_with_fuel(pow256, 9);
    lemma_le_bytes_round_trip(bits as nat, 8);
}

/// What reading an 8-byte number gives: its bit pattern, or, where the length
/// was not eight, the message that reports it (the caller answers with NaN).
pub enum NumberRead {
    Bits(u64),
    WrongLength(Vec<u8>),
}

/// Reads a number of `length` bytes whose bytes are `b`. Only the length is
/// checked: eight bytes give their bit pattern, any other length the report.
pub fn read_number(length: usize, b: &Vec<u8>) -> (r: NumberRead)
    requires
        length == 8 ==> b@.len() == 8,
    ensures
        length == 8 ==> (r matches NumberRead::Bits(bits) && bits as nat == le_value(b@)),
        length != 8 ==> (r matches NumberRead::WrongLength(m) && m@ == length_error_line(length as nat)),
{
    if length != 8 {
        NumberRead::WrongLength(length_error_message(length))
    } else {
        NumberRead::Bits(number_bits(b))
    }
}

} // verus!
