//! Variable-length unsigned integers.
//!
//! A number is cut into groups of seven bits, least significant group first.
//! Each group becomes one byte, the group standing in the upper seven bits.
//! The lowest bit of a byte is set when another byte follows.
use vstd::arithmetic::div_mod::{lemma_add_mod_noop, lemma_small_mod};
use vstd::prelude::*;

verus! {

/// The byte that carries seven payload bits and the continuation flag.
pub open spec fn varnum_byte(payload: nat, more: bool) -> u8 {
    (payload * 2 + if more { 1nat } else { 0nat }) as u8
}

/// The bytes that encode `value`.
pub open spec fn varnum_encoding(value: nat) -> Seq<u8>
    decreases value,
{
    if value < 128 {
        seq![varnum_byte(value, false)]
    } else {
        seq![varnum_byte(value % 128, true)] + varnum_encoding(value / 128)
    }
}

/// `128` to the power `k`: the weight of the `k`-th seven-bit group.
pub open spec fn group_weight(k: nat) -> nat
    decreases k,
{
    if k == 0 {
        1
    } else {
        128 * group_weight((k - 1) as nat)
    }
}

/// The number of bytes up to and including the first byte whose lowest bit
/// is clear, if there is one.
pub open spec fn varnum_span(s: Seq<u8>) -> Option<nat>
    decreases s.len(),
{
    if s.len() == 0 {
        None
    } else if s[0] % 2 == 0 {
        Some(1)
    } else {
        match varnum_span(s.drop_first()) {
            Some(n) => Some(n + 1),
            None => None,
        }
    }
}

/// The sum of the payloads of the first `n` bytes of `s`, each at its weight.
pub open spec fn varnum_sum(s: Seq<u8>, n: nat) -> nat
    decreases n,
{
    if n == 0 {
        0
    } else {
        varnum_sum(s, (n - 1) as nat) + (s[n - 1] / 2) as nat * group_weight((n - 1) as nat)
    }
}

/// The decoder reads at most five bytes: a stream can be read when it is
/// empty, or when its number ends within its first five bytes.
pub open spec fn varnum_readable(s: Seq<u8>) -> bool {
    s.len() == 0 || (varnum_span(s) matches Some(n) && n <= 5)
}

/// What the decoder yields from the first `n` bytes of `s`: the payloads
/// summed, kept to 32 bits.
pub open spec fn varnum_value(s: Seq<u8>, n: nat) -> nat {
    varnum_sum(s, n) % 0x1_0000_0000
}

/// How many bytes the decoder takes from `s`: none from an empty stream,
/// otherwise those up to the end of the first number.
pub open spec fn varnum_taken(s: Seq<u8>) -> nat {
    if s.len() == 0 {
        0
    } else {
        match varnum_span(s) {
            Some(n) => n,
            None => 0,
        }
    }
}

/// The error type of the standard reading and writing traits.
#[verifier::external_type_specification]
#[verifier::external_body]
pub struct ExIoError(std::io::Error);

/// Writing a number in the variable-length format.
pub trait WriteVarNum {
    /// Writes `num`; gives the number of bytes written.
    fn write_varnum(&mut self, num: u32) -> Result<usize, std::io::Error>;
}

/// Reading a number in the variable-length format.
pub trait ReadVarNum {
    /// Whether the reader holds what a read needs: the decoder takes at most
    /// five bytes, and a number cut short by the end of the input is not read.
    spec fn varnum_ready(&self) -> bool;

    /// Reads a number into `num`; gives the number of bytes read.
    fn read_varnum(&mut self, num: &mut u32) -> Result<usize, std::io::Error>
        requires
            old(self).varnum_ready(),
    ;
}

/// A growing byte buffer receives the encoding at its end; this never fails.
impl WriteVarNum for Vec<u8> {
    fn write_varnum(&mut self, num: u32) -> (res: Result<usize, std::io::Error>)
        ensures
            final(self)@ == old(self)@ + varnum_encoding(num as nat),
            res == Ok::<usize, std::io::Error>(varnum_encoding(num as nat).len() as usize),
    {
        let mut bytes = varnum_bytes(num);
        let count = bytes.len();
        self.append(&mut bytes);
        Ok(count)
    }
}

/// A byte slice is read from its front, and what was read is dropped from it.
impl<'a> ReadVarNum for &'a [u8] {
    open spec fn varnum_ready(&self) -> bool {
        varnum_readable(self@)
    }

    fn read_varnum(&mut self, num: &mut u32) -> (res: Result<usize, std::io::Error>)
        ensures
            res == Ok::<usize, std::io::Error>(varnum_taken(old(self)@) as usize),
            *final(num) == varnum_value(old(self)@, varnum_taken(old(self)@)),
            final(self)@ == old(self)@.skip(varnum_taken(old(self)@) as int),
    {
        let ghost s = self@;
        proof {
            if s.len() > 0 {
                lemma_span_shape(s);
            }
        }
        let mut decoder = VarNumDecoder::new();
        let mut bytes: usize = 0;
        let mut buf: u8 = 0;
        loop
            invariant
                decoder.wf(),
                decoder.taken() == bytes,
                bytes < 5,
                bytes <= s.len(),
                s == old(self)@,
                varnum_readable(s),
                s.len() > 0 ==> bytes < varnum_taken(s),
                self@ == s.skip(bytes as int),
                decoder.value() == varnum_value(s, bytes as nat),
                bytes == 0 ==> buf == 0,
            decreases 5 - bytes,
        {
            proof {
                if s.len() > 0 {
                    lemma_span_shape(s);
                }
            }
            let current: &'a [u8] = *self;
            if current.len() > 0 {
                buf = current[0];
                let rest: &'a [u8] = &current[1..current.len()];
                *self = rest;
                assert(buf == s[bytes as int]);
                assert(self@ =~= s.skip(bytes + 1));
                bytes = bytes + 1;
            }
            let last = decoder.take(buf);
            if last {
                *num = decoder.result();
                proof {
                    if s.len() > 0 {
                        lemma_value_step(s, (bytes - 1) as nat);
                        assert(bytes as nat == varnum_taken(s));
                    }
                }
                return Ok(bytes);
            }
            proof {
                lemma_value_step(s, (bytes - 1) as nat);
            }
        }
    }
}

/// The bytes of `value` in the variable-length format.
pub fn varnum_bytes(value: u32) -> (bytes: Vec<u8>)
    ensures
        bytes@ == varnum_encoding(value as nat),
{
    let mut bytes: Vec<u8> = Vec::with_capacity(4);
    let mut value = value;
    let ghost original = value as nat;
    loop
        invariant_except_break
            bytes@ + varnum_encoding(value as nat) == varnum_encoding(original),
        ensures
            bytes@ == varnum_encoding(original),
        decreases value,
    {
        let ghost before = bytes@;
        let current = value;
        let mut byte: u8 = ((value & 0x7F) << 1) as u8;
        assert(((value & 0x7F) << 1) as u8 == (value % 128) * 2) by (bit_vector);
        if value > 0x7F {
            assert(((value & 0x7F) << 1) as u8 | 1 == (value % 128) * 2 + 1) by (bit_vector);
            byte |= 1;
        }
        assert(byte == varnum_byte(current as nat % 128, current >= 128));
        bytes.push(byte);
        assert(value >> 7 == value / 128) by (bit_vector);
        value >>= 7;
        proof {
            if current >= 128 {
                assert(bytes@ + varnum_encoding(value as nat) =~= before + varnum_encoding(current as nat));
            } else {
                assert(bytes@ =~= before + varnum_encoding(current as nat));
            }
        }
        if value == 0 {
            break;
        }
    }
    bytes
}

/// A decoder fed one byte at a time: how many bytes it has taken, and the
/// number those bytes give so far.
pub struct VarNumDecoder {
    result: u32,
    shift: u32,
}

impl VarNumDecoder {
    /// The number of bytes taken so far.
    pub closed spec fn taken(&self) -> nat {
        (self.shift / 7) as nat
    }

    /// The number decoded so far.
    pub closed spec fn value(&self) -> nat {
        self.result as nat
    }

    /// At most five bytes are taken, and while fewer than five are, the value
    /// holds only the bits that they brought.
    pub closed spec fn wf(&self) -> bool {
        &&& self.shift % 7 == 0
        &&& self.shift <= 35
        &&& self.shift <= 28 ==> self.result < group_weight((self.shift / 7) as nat)
    }

    /// A decoder that has taken nothing.
    pub fn new() -> (decoder: Self)
        ensures
            decoder.wf(),
            decoder.taken() == 0,
            decoder.value() == 0,
    {
        VarNumDecoder { result: 0, shift: 0 }
    }

    /// Whether another byte may be taken: the format stops at five bytes.
    pub fn can_take(&self) -> (yes: bool)
        requires
            self.wf(),
        ensures
            yes == (self.taken() < 5),
    {
        self.shift < 32
    }

    /// Takes one byte; says whether it was the last byte of the number.
    pub fn take(&mut self, byte: u8) -> (last: bool)
        requires
            old(self).wf(),
            old(self).taken() < 5,
        ensures
            final(self).wf(),
            final(self).taken() == old(self).taken() + 1,
            final(self).value() == (old(self).value() + (byte / 2) as nat * group_weight(
                old(self).taken(),
            )) % 0x1_0000_0000,
            last == (byte % 2 == 0),
    {
        let payload: u32 = (byte as u32) >> 1;
        assert(payload == byte / 2) by (bit_vector)
            requires
                payload == (byte as u32) >> 1,
        ;
        let r = self.result;
        let shift = self.shift;
        proof {
            lemma_group_weights();
            lemma_merge_group(r, payload, shift);
        }
        self.result = r | (payload << shift);
        self.shift = shift + 7;
        proof {
            let k = (shift / 7) as nat;
            assert((shift + 7) / 7 == k + 1);
            if shift + 7 <= 28 {
                assert(group_weight(k + 1) == 128 * group_weight(k));
                assert(payload < 128);
                assert(r + payload * group_weight(k) < group_weight(k + 1)) by (nonlinear_arith)
                    requires
                        r < group_weight(k),
                        payload < 128,
                        group_weight(k + 1) == 128 * group_weight(k),
                ;
                assert(group_weight(k + 1) <= 0x1000_0000);
                lemma_small_mod(
                    (r + payload * group_weight(k)) as nat,
                    0x1_0000_0000,
                );
            }
        }
        assert(byte & 1 == 0 <==> byte % 2 == 0) by (bit_vector);
        byte & 1 == 0
    }

    /// The number decoded so far.
    pub fn result(&self) -> (value: u32)
        ensures
            value == self.value(),
    {
        self.result
    }
}

/// Reading back what was written: whatever follows the encoding of `value`,
/// the decoder can read it, takes exactly the bytes of the encoding, and
/// gives `value` again.
pub proof fn lemma_varnum_roundtrip(value: u32, rest: Seq<u8>)
    ensures
        varnum_readable(varnum_encoding(value as nat) + rest),
        varnum_taken(varnum_encoding(value as nat) + rest) == varnum_encoding(value as nat).len(),
        varnum_value(varnum_encoding(value as nat) + rest, varnum_encoding(value as nat).len())
            == value,
{
    let e = varnum_encoding(value as nat);
    lemma_encoding_span(value as nat, rest);
    lemma_encoding_sum(value as nat, rest);
    lemma_group_weights();
    lemma_encoding_length(value as nat, 5);
    lemma_small_mod(value as nat, 0x1_0000_0000);
}

/// The encoding ends at its last byte, whatever follows it.
proof fn lemma_encoding_span(value: nat, rest: Seq<u8>)
    ensures
        varnum_encoding(value).len() >= 1,
        varnum_span(varnum_encoding(value) + rest) == Some(varnum_encoding(value).len()),
    decreases value,
{
    let e = varnum_encoding(value);
    if value < 128 {
        assert((e + rest)[0] == varnum_byte(value, false));
        assert(varnum_byte(value, false) % 2 == 0);
    } else {
        let tail = varnum_encoding(value / 128);
        lemma_encoding_span(value / 128, rest);
        assert((e + rest).drop_first() =~= tail + rest);
        assert((e + rest)[0] == varnum_byte(value % 128, true));
        assert(varnum_byte(value % 128, true) % 2 == 1);
    }
}

/// The payloads of the encoding sum back to the value.
proof fn lemma_encoding_sum(value: nat, rest: Seq<u8>)
    ensures
        varnum_sum(varnum_encoding(value) + rest, varnum_encoding(value).len()) == value,
    decreases value,
{
    let e = varnum_encoding(value);
    lemma_encoding_span(value, rest);
    if value < 128 {
        let b = varnum_byte(value, false);
        assert(e + rest =~= seq![b] + rest);
        lemma_sum_prepend(b, rest, 0);
        assert(varnum_sum(rest, 0) == 0);
        assert(b / 2 == value);
    } else {
        let b = varnum_byte(value % 128, true);
        let tail = varnum_encoding(value / 128);
        lemma_encoding_sum(value / 128, rest);
        assert(e + rest =~= seq![b] + (tail + rest));
        lemma_sum_prepend(b, tail + rest, tail.len());
        assert(b / 2 == value % 128);
    }
}

/// A byte put in front of a stream adds its payload and moves the others up
/// one group.
proof fn lemma_sum_prepend(b: u8, t: Seq<u8>, n: nat)
    requires
        n <= t.len(),
    ensures
        varnum_sum(seq![b] + t, n + 1) == (b / 2) as nat + 128 * varnum_sum(t, n),
    decreases n,
{
    let s = seq![b] + t;
    if n == 0 {
        assert(varnum_sum(s, 1) == varnum_sum(s, 0) + (s[0] / 2) as nat * group_weight(0));
        assert(group_weight(0) == 1);
        assert(s[0] == b);
        assert(varnum_sum(t, 0) == 0);
        assert(varnum_sum(s, 0) == 0);
        assert((s[0] / 2) as nat * group_weight(0) == (b / 2) as nat) by (nonlinear_arith)
            requires
                group_weight(0) == 1,
                s[0] == b,
        ;
        assert(varnum_sum(s, 1) == (b / 2) as nat);
        assert(varnum_sum(s, n + 1) == (b / 2) as nat + 128 * varnum_sum(t, n));
    } else {
        lemma_sum_prepend(b, t, (n - 1) as nat);
        assert(s[n as int] == t[n - 1]);
        let x = (t[n - 1] / 2) as nat;
        let w = group_weight((n - 1) as nat);
        assert(group_weight(n) == 128 * w);
        assert(x * (128 * w) == 128 * (x * w)) by (nonlinear_arith);
        assert(varnum_sum(s, n + 1) == varnum_sum(s, n) + x * group_weight(n));
        assert(varnum_sum(t, n) == varnum_sum(t, (n - 1) as nat) + x * w);
        assert(128 * varnum_sum(t, n) == 128 * varnum_sum(t, (n - 1) as nat) + 128 * (x * w))
            by (nonlinear_arith)
            requires
                varnum_sum(t, n) == varnum_sum(t, (n - 1) as nat) + x * w,
        ;
    }
}

/// A value below the weight of group `k` takes at most `k` bytes.
proof fn lemma_encoding_length(value: nat, k: nat)
    requires
        k >= 1,
        value < group_weight(k),
    ensures
        varnum_encoding(value).len() <= k,
    decreases k,
{
    assert(group_weight(0) == 1);
    if value >= 128 {
        assert(group_weight(k) == 128 * group_weight((k - 1) as nat));
        assert(value / 128 < group_weight((k - 1) as nat)) by (nonlinear_arith)
            requires
                value < 128 * group_weight((k - 1) as nat),
        ;
        lemma_encoding_length(value / 128, (k - 1) as nat);
    }
}

/// The bytes a number spans: all but the last carry the continuation bit.
proof fn lemma_span_shape(s: Seq<u8>)
    requires
        varnum_span(s) is Some,
    ensures
        1 <= varnum_span(s)->Some_0 <= s.len(),
        s[varnum_span(s)->Some_0 - 1] % 2 == 0,
        forall|j: int| 0 <= j < varnum_span(s)->Some_0 - 1 ==> s[j] % 2 == 1,
    decreases s.len(),
{
    if s[0] % 2 != 0 {
        let t = s.drop_first();
        lemma_span_shape(t);
        assert forall|j: int| 0 <= j < varnum_span(s)->Some_0 - 1 implies s[j] % 2 == 1 by {
            if j > 0 {
                assert(s[j] == t[j - 1]);
            }
        }
    }
}

/// Decoding one more byte adds its payload at its weight, kept to 32 bits.
proof fn lemma_value_step(s: Seq<u8>, n: nat)
    ensures
        varnum_value(s, n + 1) == (varnum_value(s, n) + (s[n as int] / 2) as nat * group_weight(n))
            % 0x1_0000_0000,
{
    let x = varnum_sum(s, n) as int;
    let y = ((s[n as int] / 2) as nat * group_weight(n)) as int;
    assert(varnum_sum(s, n + 1) == x + y);
    lemma_add_mod_noop(x, y, 0x1_0000_0000);
    lemma_small_mod((y % 0x1_0000_0000) as nat, 0x1_0000_0000);
    lemma_add_mod_noop(x % 0x1_0000_0000, y, 0x1_0000_0000);
    lemma_small_mod((x % 0x1_0000_0000) as nat, 0x1_0000_0000);
}

/// The weights of the five groups a 32-bit number can have.
proof fn lemma_group_weights()
    ensures
        group_weight(0) == 1,
        group_weight(1) == 0x80,
        group_weight(2) == 0x4000,
        group_weight(3) == 0x20_0000,
        group_weight(4) == 0x1000_0000,
        group_weight(5) == 0x8_0000_0000,
{
    reveal_with_fuel(group_weight, 6);
}

/// Or-ing a group into the bits below it adds it at its weight, kept to 32 bits.
proof fn lemma_merge_group(r: u32, payload: u32, shift: u32)
    requires
        shift % 7 == 0,
        shift <= 28,
        r < group_weight((shift / 7) as nat),
        payload < 128,
    ensures
        (r | (payload << shift)) as nat == (r + payload * group_weight((shift / 7) as nat))
            % 0x1_0000_0000,
{
    lemma_group_weights();
    if shift == 0 {
        assert(r < 1 && payload < 128 ==> (r | (payload << 0)) == r + payload) by (bit_vector);
        lemma_small_mod((r + payload) as nat, 0x1_0000_0000);
    } else if shift == 7 {
        assert(r < 0x80 && payload < 128 ==> (r | (payload << 7)) == r + payload * 0x80)
            by (bit_vector);
        lemma_small_mod((r + payload * 0x80) as nat, 0x1_0000_0000);
    } else if shift == 14 {
        assert(r < 0x4000 && payload < 128 ==> (r | (payload << 14)) == r + payload * 0x4000)
            by (bit_vector);
        lemma_small_mod((r + payload * 0x4000) as nat, 0x1_0000_0000);
    } else if shift == 21 {
        assert(r < 0x20_0000 && payload < 128 ==> (r | (payload << 21)) == r + payload
            * 0x20_0000) by (bit_vector);
        lemma_small_mod((r + payload * 0x20_0000) as nat, 0x1_0000_0000);
    } else {
        assert(shift == 28);
        assert(r < 0x1000_0000 && payload < 128 ==> (r | (payload << 28)) as int == (r as int
            + payload as int * 0x1000_0000) % 0x1_0000_0000) by (bit_vector);
    }
}

} // verus!
