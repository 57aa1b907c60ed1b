//! Octet Encoding Rules (ITU-T X.696) for records made of integer fields.
use vstd::prelude::*;
use vstd::arithmetic::div_mod::*;

use crate::lexer::str_eq;

verus! {

/// How one field travels on the wire.
#[derive(Clone, Copy, Debug, PartialEq, Eq, Structural)]
pub enum WireType {
    /// A length octet, then that many octets of a two's-complement number.
    UnboundedInteger,
    /// An unsigned number in exactly this many big-endian octets.
    FixedUnsigned(usize),
    /// The fields of the sequence at this index of the schema, in order.
    Composite(usize),
}

/// A field of a resolved sequence.
pub struct WireField<'a> {
    pub name: &'a str,
    pub wire_type: WireType,
}

/// A resolved sequence: its name and its fields in wire order.
pub struct WireSequence<'a> {
    pub name: &'a str,
    pub fields: Vec<WireField<'a>>,
}

/// A resolved module: the wire layout of each of its sequences.
pub struct Schema<'a> {
    pub name: &'a str,
    pub sequences: Vec<WireSequence<'a>>,
}

/// The widths in octets that a fixed-size unsigned field can have.
pub open spec fn valid_width(w: int) -> bool {
    w == 1 || w == 2 || w == 4 || w == 8
}

impl<'a> Schema<'a> {
    pub open spec fn field_count(&self, s: int) -> int {
        self.sequences@[s].fields@.len() as int
    }

    pub open spec fn field_type(&self, s: int, k: int) -> WireType {
        self.sequences@[s].fields@[k].wire_type
    }

    /// Every fixed width is one of 1, 2, 4, 8 and every reference names a
    /// sequence of this schema.
    pub open spec fn wf(&self) -> bool {
        forall|s: int, k: int|
            0 <= s < self.sequences@.len() && 0 <= k < self.field_count(s) ==> match #[trigger] self.field_type(s, k) {
                WireType::FixedUnsigned(w) => valid_width(w as int),
                WireType::Composite(t) => t < self.sequences@.len(),
                WireType::UnboundedInteger => true,
            }
    }

    /// Index of the first sequence named `name` at or after `i`, or -1.
    pub open spec fn find_from(&self, name: Seq<char>, i: int) -> int
        decreases self.sequences@.len() - i,
    {
        if i < 0 || i >= self.sequences@.len() {
            -1
        } else if self.sequences@[i].name@ == name {
            i
        } else {
            self.find_from(name, i + 1)
        }
    }

    pub proof fn lemma_find_from_range(&self, name: Seq<char>, i: int)
        ensures
            self.find_from(name, i) == -1 || (i <= self.find_from(name, i) < self.sequences@.len()),
        decreases self.sequences@.len() - i,
    {
        if 0 <= i < self.sequences@.len() && self.sequences@[i].name@ != name {
            self.lemma_find_from_range(name, i + 1);
        }
    }

    /// Index of the sequence named `name`, or -1 where there is none.
    pub open spec fn index_of(&self, name: Seq<char>) -> int {
        self.find_from(name, 0)
    }
}

/// Why bytes could not be decoded.
#[derive(Clone, Copy, Debug, PartialEq, Eq, Structural)]
pub enum DecodeError {
    /// The input ended inside a field.
    UnexpectedEof,
    /// A length octet announced more octets than a 64-bit integer holds.
    Overflow,
    /// A length octet of zero.
    InvalidLength,
    /// Octets were left after the record.
    TrailingBytes,
    /// The schema has no sequence of that name.
    UnknownType,
    /// Sequences nest deeper than the schema has sequences: they refer to
    /// each other in a cycle.
    NestingTooDeep,
}

/// Why values could not be encoded.
#[derive(Clone, Copy, Debug, PartialEq, Eq, Structural)]
pub enum EncodeError {
    /// A value lies outside the range of its field.
    ValueOutOfRange,
    /// Fewer values than the record has integer fields.
    MissingValue,
    /// More values than the record has integer fields.
    ExtraValues,
    /// The schema has no sequence of that name.
    UnknownType,
    /// Sequences nest deeper than the schema has sequences.
    NestingTooDeep,
}

/// `256^n`: the number of values that `n` octets can hold.
pub open spec fn pow256(n: nat) -> nat
    decreases n,
{
    if n == 0 {
        1
    } else {
        256 * pow256((n - 1) as nat)
    }
}

/// The octets `s`, read as a big-endian unsigned number.
pub open spec fn be_value(s: Seq<u8>) -> nat
    decreases s.len(),
{
    if s.len() == 0 {
        0
    } else {
        (be_value(s.drop_last()) * 256 + s.last()) as nat
    }
}

/// The octets `s`, read as a big-endian two's-complement number.
pub open spec fn signed_value(s: Seq<u8>) -> int {
    let u = be_value(s);
    if u >= pow256(s.len()) / 2 {
        u - pow256(s.len())
    } else {
        u as int
    }
}

/// Octet `j` of `x`, counting from the least significant one.
pub open spec fn digit(x: nat, j: nat) -> u8 {
    ((x / pow256(j)) % 256) as u8
}

/// `x` written as `n` big-endian octets (its value modulo `256^n`).
pub open spec fn be_bytes(x: nat, n: nat) -> Seq<u8> {
    Seq::new(n, |i: int| digit(x, (n - 1 - i) as nat))
}

pub proof fn lemma_pow256_positive(n: nat)
    ensures
        pow256(n) > 0,
    decreases n,
{
    if n > 0 {
        lemma_pow256_positive((n - 1) as nat);
    }
}

pub proof fn lemma_pow256_mono(a: nat, b: nat)
    requires
        a <= b,
    ensures
        pow256(a) <= pow256(b),
    decreases b,
{
    lemma_pow256_positive(b);
    if a < b {
        lemma_pow256_mono(a, (b - 1) as nat);
    }
}

pub proof fn lemma_pow256_values()
    ensures
        pow256(1) == 0x100,
        pow256(2) == 0x1_0000,
        pow256(4) == 0x1_0000_0000,
        pow256(7) == 0x100_0000_0000_0000,
        pow256(8) == 0x1_0000_0000_0000_0000,
{
    reveal_with_fuel(pow256, 9);
}

pub proof fn lemma_be_value_bound(s: Seq<u8>)
    ensures
        be_value(s) < pow256(s.len()),
    decreases s.len(),
{
    if s.len() > 0 {
        let init = s.drop_last();
        lemma_be_value_bound(init);
        let a = be_value(init);
        let p = pow256(init.len());
        let b = s.last();
        assert(a * 256 + b < p * 256) by (nonlinear_arith)
            requires
                a < p,
                b < 256,
        ;
    }
}

/// Reading back `n` octets written from `x` gives `x`, for `x < 256^n`.
pub proof fn lemma_be_round_trip(x: nat, n: nat)
    requires
        x < pow256(n),
    ensures
        be_value(be_bytes(x, n)) == x,
    decreases n,
{
    if n > 0 {
        let s = be_bytes(x, n);
        let q = x / 256;
        lemma_pow256_positive((n - 1) as nat);
        assert(q < pow256((n - 1) as nat)) by {
            lemma_multiply_divide_lt(x as int, 256, pow256((n - 1) as nat) as int);
        }
        assert forall|i: int| 0 <= i < n - 1 implies #[trigger] s.drop_last()[i] == be_bytes(
            q,
            (n - 1) as nat,
        )[i] by {
            let j = (n - 2 - i) as nat;
            lemma_pow256_positive(j);
            lemma_div_denominator(x as int, 256, pow256(j) as int);
        }
        assert(s.drop_last() =~= be_bytes(q, (n - 1) as nat));
        lemma_be_round_trip(q, (n - 1) as nat);
        assert(pow256(0) == 1);
        assert(s.last() == digit(x, 0));
        assert(s.last() == x % 256);
        lemma_fundamental_div_mod(x as int, 256);
    } else {
        assert(be_bytes(x, n).len() == 0);
    }
}

/// Decodes an unbounded integer at `pos`: a length octet `L`, then `L`
/// octets of a two's-complement number; `L` must lie in `1..=8`, and a
/// buffer too short for the octets it announces ends early. Gives the value
/// and the position after it.
pub open spec fn dec_unbounded(b: Seq<u8>, pos: int) -> Result<(i128, int), DecodeError> {
    if pos < 0 || pos >= b.len() {
        Err(DecodeError::UnexpectedEof)
    } else {
        let l = b[pos] as int;
        if pos + 1 + l > b.len() {
            Err(DecodeError::UnexpectedEof)
        } else if l == 0 {
            Err(DecodeError::InvalidLength)
        } else if l > 8 {
            Err(DecodeError::Overflow)
        } else {
            Ok((signed_value(b.subrange(pos + 1, pos + 1 + l)) as i128, pos + 1 + l))
        }
    }
}

/// Decodes a fixed-size unsigned integer of `w` octets at `pos`.
pub open spec fn dec_fixed(b: Seq<u8>, pos: int, w: int) -> Result<(i128, int), DecodeError> {
    if pos < 0 || pos + w > b.len() {
        Err(DecodeError::UnexpectedEof)
    } else {
        Ok((be_value(b.subrange(pos, pos + w)) as i128, pos + w))
    }
}

/// `vs` put in front of the values that `r` decoded.
pub open spec fn prepend(vs: Seq<i128>, r: Result<(Seq<i128>, int), DecodeError>) -> Result<
    (Seq<i128>, int),
    DecodeError,
> {
    match r {
        Ok((ws, q)) => Ok((vs + ws, q)),
        Err(e) => Err(e),
    }
}

/// Decodes one field of wire type `ty` at `pos`: the integers it holds,
/// depth first, and the position after it. A composite field nests at most
/// `fuel` levels deep.
pub open spec fn dec_field(schema: Schema, ty: WireType, b: Seq<u8>, pos: int, fuel: nat) -> Result<
    (Seq<i128>, int),
    DecodeError,
>
    decreases fuel, 0int,
{
    match ty {
        WireType::UnboundedInteger => match dec_unbounded(b, pos) {
            Ok((v, p)) => Ok((seq![v], p)),
            Err(e) => Err(e),
        },
        WireType::FixedUnsigned(w) => match dec_fixed(b, pos, w as int) {
            Ok((v, p)) => Ok((seq![v], p)),
            Err(e) => Err(e),
        },
        WireType::Composite(t) => if fuel == 0 {
            Err(DecodeError::NestingTooDeep)
        } else {
            dec_fields(schema, t as int, 0, b, pos, (fuel - 1) as nat)
        },
    }
}

/// Decodes fields `k..` of sequence `s` from position `pos`, in order.
pub open spec fn dec_fields(
    schema: Schema,
    s: int,
    k: int,
    b: Seq<u8>,
    pos: int,
    fuel: nat,
) -> Result<(Seq<i128>, int), DecodeError>
    decreases fuel, schema.field_count(s) - k + 1,
{
    if s < 0 || s >= schema.sequences@.len() || k < 0 || k >= schema.field_count(s) {
        Ok((Seq::empty(), pos))
    } else {
        match dec_field(schema, schema.field_type(s, k), b, pos, fuel) {
            Ok((vs, p)) => prepend(vs, dec_fields(schema, s, k + 1, b, p, fuel)),
            Err(e) => Err(e),
        }
    }
}

/// Decodes a whole record of sequence `s` from `b`: every octet must be used.
pub open spec fn decode_record(schema: Schema, s: int, b: Seq<u8>) -> Result<Seq<i128>, DecodeError> {
    match dec_fields(schema, s, 0, b, 0, schema.sequences@.len()) {
        Ok((vs, p)) => if p == b.len() {
            Ok(vs)
        } else {
            Err(DecodeError::TrailingBytes)
        },
        Err(e) => Err(e),
    }
}

/// What decoding a record named `name` from `b` gives.
pub open spec fn decode_named(schema: Schema, name: Seq<char>, b: Seq<u8>) -> Result<Seq<i128>, DecodeError> {
    let s = schema.index_of(name);
    if s < 0 {
        Err(DecodeError::UnknownType)
    } else {
        decode_record(schema, s, b)
    }
}

/// `256^n` for `n <= 8`.
fn pow256_exec(n: usize) -> (r: u128)
    requires
        n <= 8,
    ensures
        r == pow256(n as nat),
{
    let mut r: u128 = 1;
    let mut i: usize = 0;
    while i < n
        invariant
            i <= n <= 8,
            r == pow256(i as nat),
        decreases n - i,
    {
        proof {
            lemma_pow256_mono((i + 1) as nat, 8);
            lemma_pow256_values();
        }
        r = r * 256;
        i = i + 1;
    }
    r
}

/// Reads `n <= 8` octets at `start` as a big-endian unsigned number.
fn read_be(bytes: &[u8], start: usize, n: usize) -> (r: u64)
    requires
        n <= 8,
        start + n <= bytes@.len(),
    ensures
        r == be_value(bytes@.subrange(start as int, start + n)),
{
    let mut acc: u64 = 0;
    let mut i: usize = 0;
    while i < n
        invariant
            i <= n <= 8,
            start + n <= bytes.len(),
            acc == be_value(bytes@.subrange(start as int, start + i)),
        decreases n - i,
    {
        let ghost next = bytes@.subrange(start as int, start + i + 1);
        assert(next.drop_last() =~= bytes@.subrange(start as int, start + i));
        proof {
            lemma_be_value_bound(bytes@.subrange(start as int, start + i));
            lemma_pow256_mono(i as nat, 7);
            lemma_pow256_values();
        }
        acc = acc * 256 + bytes[start + i] as u64;
        i = i + 1;
    }
    acc
}

/// Decodes the unbounded integer at `pos`: its value and the position after it.
pub fn decode_unbounded(bytes: &[u8], pos: usize) -> (r: Result<(i128, usize), DecodeError>)
    ensures
        match r {
            Ok((v, p)) => dec_unbounded(bytes@, pos as int) == Ok::<(i128, int), DecodeError>((v, p as int)),
            Err(e) => dec_unbounded(bytes@, pos as int) == Err::<(i128, int), DecodeError>(e),
        },
{
    if pos >= bytes.len() {
        return Err(DecodeError::UnexpectedEof);
    }
    let l = bytes[pos] as usize;
    if l > bytes.len() - pos - 1 {
        return Err(DecodeError::UnexpectedEof);
    }
    if l == 0 {
        return Err(DecodeError::InvalidLength);
    }
    if l > 8 {
        return Err(DecodeError::Overflow);
    }
    let u = read_be(bytes, pos + 1, l);
    let p = pow256_exec(l);
    proof {
        lemma_be_value_bound(bytes@.subrange(pos + 1, pos + 1 + l));
        lemma_pow256_mono(l as nat, 8);
        lemma_pow256_values();
    }
    let v: i128 = if u as u128 >= p / 2 {
        u as i128 - p as i128
    } else {
        u as i128
    };
    Ok((v, pos + 1 + l))
}

/// Decodes the `w`-octet unsigned integer at `pos`: its value and the
/// position after it.
pub fn decode_fixed(bytes: &[u8], pos: usize, w: usize) -> (r: Result<(i128, usize), DecodeError>)
    requires
        valid_width(w as int),
    ensures
        match r {
            Ok((v, p)) => dec_fixed(bytes@, pos as int, w as int) == Ok::<(i128, int), DecodeError>((v, p as int)),
            Err(e) => dec_fixed(bytes@, pos as int, w as int) == Err::<(i128, int), DecodeError>(e),
        },
{
    if pos > bytes.len() || w > bytes.len() - pos {
        return Err(DecodeError::UnexpectedEof);
    }
    let u = read_be(bytes, pos, w);
    Ok((u as i128, pos + w))
}

/// Decodes one field of wire type `ty` at `pos`, appending its integers to
/// `out`; gives the position after it.
fn decode_field(
    schema: &Schema,
    ty: WireType,
    bytes: &[u8],
    pos: usize,
    fuel: usize,
    out: &mut Vec<i128>,
) -> (r: Result<usize, DecodeError>)
    requires
        schema.wf(),
        match ty {
            WireType::FixedUnsigned(w) => valid_width(w as int),
            WireType::Composite(t) => t < schema.sequences@.len(),
            WireType::UnboundedInteger => true,
        },
    ensures
        match dec_field(*schema, ty, bytes@, pos as int, fuel as nat) {
            Ok((vs, q)) => r is Ok && r->Ok_0 as int == q && final(out)@ == old(out)@ + vs,
            Err(e) => r == Err::<usize, DecodeError>(e),
        },
    decreases fuel, 0int,
{
    match ty {
        WireType::UnboundedInteger => match decode_unbounded(bytes, pos) {
            Ok((v, p)) => {
                out.push(v);
                assert(out@ =~= old(out)@ + seq![v]);
                Ok(p)
            },
            Err(e) => Err(e),
        },
        WireType::FixedUnsigned(w) => match decode_fixed(bytes, pos, w) {
            Ok((v, p)) => {
                out.push(v);
                assert(out@ =~= old(out)@ + seq![v]);
                Ok(p)
            },
            Err(e) => Err(e),
        },
        WireType::Composite(t) => {
            if fuel == 0 {
                return Err(DecodeError::NestingTooDeep);
            }
            decode_from(schema, t, 0, bytes, pos, fuel - 1, out)
        },
    }
}

/// Decodes fields `k..` of sequence `s` at `pos`, appending their integers
/// to `out`; gives the position after them.
fn decode_from(
    schema: &Schema,
    s: usize,
    k: usize,
    bytes: &[u8],
    pos: usize,
    fuel: usize,
    out: &mut Vec<i128>,
) -> (r: Result<usize, DecodeError>)
    requires
        schema.wf(),
        s < schema.sequences@.len(),
    ensures
        match dec_fields(*schema, s as int, k as int, bytes@, pos as int, fuel as nat) {
            Ok((vs, q)) => r is Ok && r->Ok_0 as int == q && final(out)@ == old(out)@ + vs,
            Err(e) => r == Err::<usize, DecodeError>(e),
        },
    decreases fuel, schema.field_count(s as int) - k + 1,
{
    let fields = &schema.sequences[s].fields;
    if k >= fields.len() {
        assert(old(out)@ + Seq::<i128>::empty() =~= old(out)@);
        return Ok(pos);
    }
    let ty = fields[k].wire_type;
    assert(schema.field_type(s as int, k as int) == ty);
    let next = match decode_field(schema, ty, bytes, pos, fuel, out) {
        Ok(p) => p,
        Err(e) => return Err(e),
    };
    let ghost mid = out@;
    let r = decode_from(schema, s, k + 1, bytes, next, fuel, out);
    proof {
        if let Ok((vs, _)) = dec_field(*schema, ty, bytes@, pos as int, fuel as nat) {
            if let Ok((ws, _)) = dec_fields(*schema, s as int, k as int + 1, bytes@, next as int, fuel as nat) {
                assert(old(out)@ + (vs + ws) =~= mid + ws);
            }
        }
    }
    r
}

/// Index of the sequence named `name`.
fn find_sequence(schema: &Schema, name: &str) -> (r: Option<usize>)
    ensures
        match r {
            Some(i) => schema.index_of(name@) == i as int,
            None => schema.index_of(name@) == -1,
        },
{
    let mut i: usize = schema.sequences.len();
    // Search from the back, so that the first match wins.
    let mut found: Option<usize> = None;
    while i > 0
        invariant
            i <= schema.sequences@.len(),
            match found {
                Some(j) => schema.find_from(name@, i as int) == j as int,
                None => schema.find_from(name@, i as int) == -1,
            },
        decreases i,
    {
        i = i - 1;
        if str_eq(schema.sequences[i].name, name) {
            found = Some(i);
        }
    }
    found
}

/// Decodes one record of the sequence named `record_name` from `bytes`. The
/// integers of its fields come out in declared order, depth first through
/// nested sequences. Every octet must be used.
pub fn decode(schema: &Schema, record_name: &str, bytes: &[u8]) -> (r: Result<Vec<i128>, DecodeError>)
    requires
        schema.wf(),
    ensures
        match decode_named(*schema, record_name@, bytes@) {
            Ok(vs) => r is Ok && r->Ok_0@ == vs,
            Err(e) => r == Err::<Vec<i128>, DecodeError>(e),
        },
{
    let s = match find_sequence(schema, record_name) {
        Some(s) => s,
        None => return Err(DecodeError::UnknownType),
    };
    let mut out: Vec<i128> = Vec::new();
    proof {
        schema.lemma_find_from_range(record_name@, 0);
    }
    let end = match decode_from(schema, s, 0, bytes, 0, schema.sequences.len(), &mut out) {
        Ok(end) => end,
        Err(e) => return Err(e),
    };
    if end != bytes.len() {
        return Err(DecodeError::TrailingBytes);
    }
    proof {
        if let Ok((vs, _)) = dec_fields(*schema, s as int, 0, bytes@, 0, schema.sequences@.len()) {
            assert(Seq::<i128>::empty() + vs =~= vs);
        }
    }
    Ok(out)
}

/// Whether `v` fits a two's-complement number of `l` octets.
pub open spec fn fits_signed(v: int, l: nat) -> bool {
    -(pow256(l) / 2) <= v < pow256(l) / 2
}

/// The least length from `l` up to 8 whose octets hold `v`.
pub open spec fn min_len_from(v: int, l: nat) -> nat
    decreases 8 - l,
{
    if l >= 8 {
        8
    } else if fits_signed(v, l) {
        l
    } else {
        min_len_from(v, l + 1)
    }
}

/// The fewest octets, at least one, that hold `v` in two's complement.
pub open spec fn min_len(v: int) -> nat {
    min_len_from(v, 1)
}

/// `v` as the unsigned number whose `l` octets read as `v` in two's complement.
pub open spec fn twos(v: int, l: nat) -> nat {
    if v < 0 {
        (v + pow256(l)) as nat
    } else {
        v as nat
    }
}

/// The canonical encoding of an unbounded integer: the minimal length
/// octet, then that many octets of two's complement.
pub open spec fn enc_unbounded(v: int) -> Seq<u8> {
    let l = min_len(v);
    seq![l as u8] + be_bytes(twos(v, l), l)
}

/// Encodes one field of wire type `ty` from the integers `vals[i..]`:
/// its octets and the index of the first integer left.
pub open spec fn enc_field(schema: Schema, ty: WireType, vals: Seq<i128>, i: int, fuel: nat) -> Result<
    (Seq<u8>, int),
    EncodeError,
>
    decreases fuel, 0int,
{
    match ty {
        WireType::UnboundedInteger => if i < 0 || i >= vals.len() {
            Err(EncodeError::MissingValue)
        } else if vals[i] < i64::MIN || vals[i] > i64::MAX {
            Err(EncodeError::ValueOutOfRange)
        } else {
            Ok((enc_unbounded(vals[i] as int), i + 1))
        },
        WireType::FixedUnsigned(w) => if i < 0 || i >= vals.len() {
            Err(EncodeError::MissingValue)
        } else if vals[i] < 0 || vals[i] >= pow256(w as nat) {
            Err(EncodeError::ValueOutOfRange)
        } else {
            Ok((be_bytes(vals[i] as nat, w as nat), i + 1))
        },
        WireType::Composite(t) => if fuel == 0 {
            Err(EncodeError::NestingTooDeep)
        } else {
            enc_fields(schema, t as int, 0, vals, i, (fuel - 1) as nat)
        },
    }
}

/// Encodes fields `k..` of sequence `s` from the integers `vals[i..]`.
pub open spec fn enc_fields(schema: Schema, s: int, k: int, vals: Seq<i128>, i: int, fuel: nat) -> Result<
    (Seq<u8>, int),
    EncodeError,
>
    decreases fuel, schema.field_count(s) - k + 1,
{
    if s < 0 || s >= schema.sequences@.len() || k < 0 || k >= schema.field_count(s) {
        Ok((Seq::empty(), i))
    } else {
        match enc_field(schema, schema.field_type(s, k), vals, i, fuel) {
            Ok((b1, j)) => match enc_fields(schema, s, k + 1, vals, j, fuel) {
                Ok((b2, j2)) => Ok((b1 + b2, j2)),
                Err(e) => Err(e),
            },
            Err(e) => Err(e),
        }
    }
}

/// Encodes a record of sequence `s` from exactly the integers `vals`.
pub open spec fn encode_record(schema: Schema, s: int, vals: Seq<i128>) -> Result<Seq<u8>, EncodeError> {
    match enc_fields(schema, s, 0, vals, 0, schema.sequences@.len()) {
        Ok((b, j)) => if j == vals.len() {
            Ok(b)
        } else {
            Err(EncodeError::ExtraValues)
        },
        Err(e) => Err(e),
    }
}

/// What encoding a record named `name` from `vals` gives.
pub open spec fn encode_named(schema: Schema, name: Seq<char>, vals: Seq<i128>) -> Result<Seq<u8>, EncodeError> {
    let s = schema.index_of(name);
    if s < 0 {
        Err(EncodeError::UnknownType)
    } else {
        encode_record(schema, s, vals)
    }
}

pub proof fn lemma_min_len(v: int, l: nat)
    requires
        1 <= l <= 8,
        fits_signed(v, 8),
    ensures
        l <= min_len_from(v, l) <= 8,
        fits_signed(v, min_len_from(v, l)),
    decreases 8 - l,
{
    if l < 8 && !fits_signed(v, l) {
        lemma_min_len(v, l + 1);
    }
}

proof fn lemma_unbounded_round_trip(v: int, b: Seq<u8>, pos: int)
    requires
        i64::MIN <= v <= i64::MAX,
        0 <= pos,
        pos + enc_unbounded(v).len() <= b.len(),
        b.subrange(pos, pos + enc_unbounded(v).len()) == enc_unbounded(v),
    ensures
        dec_unbounded(b, pos) == Ok::<(i128, int), DecodeError>((v as i128, pos + enc_unbounded(v).len())),
{
    lemma_pow256_values();
    lemma_min_len(v, 1);
    let l = min_len(v);
    let p = pow256(l);
    lemma_pow256_positive(l);
    let x = twos(v, l);
    lemma_be_round_trip(x, l);
    let e = enc_unbounded(v);
    assert(b[pos] == e[0]);
    assert(b.subrange(pos + 1, pos + 1 + l) =~= be_bytes(x, l)) by {
        assert forall|i: int| 0 <= i < l implies #[trigger] b.subrange(pos + 1, pos + 1 + l)[i] == be_bytes(x, l)[i] by {
            assert(b.subrange(pos, pos + e.len())[i + 1] == e[i + 1]);
        }
    }
}

proof fn lemma_fixed_round_trip(x: nat, w: nat, b: Seq<u8>, pos: int)
    requires
        x < pow256(w),
        0 <= pos,
        pos + w <= b.len(),
        b.subrange(pos, pos + w) == be_bytes(x, w),
    ensures
        dec_fixed(b, pos, w as int) == Ok::<(i128, int), DecodeError>((x as i128, pos + w)),
{
    lemma_be_round_trip(x, w);
}

proof fn lemma_field_round_trip(
    schema: Schema,
    ty: WireType,
    vals: Seq<i128>,
    i: int,
    fuel: nat,
    b: Seq<u8>,
    pos: int,
)
    requires
        schema.wf(),
        match ty {
            WireType::FixedUnsigned(w) => valid_width(w as int),
            WireType::Composite(t) => t < schema.sequences@.len(),
            WireType::UnboundedInteger => true,
        },
        0 <= i <= vals.len(),
        enc_field(schema, ty, vals, i, fuel) is Ok,
        0 <= pos,
        pos + enc_field(schema, ty, vals, i, fuel)->Ok_0.0.len() <= b.len(),
        b.subrange(pos, pos + enc_field(schema, ty, vals, i, fuel)->Ok_0.0.len()) == enc_field(schema, ty, vals, i, fuel)->Ok_0.0,
    ensures
        ({
            let (e, j) = enc_field(schema, ty, vals, i, fuel)->Ok_0;
            &&& 0 <= i <= j <= vals.len()
            &&& dec_field(schema, ty, b, pos, fuel) == Ok::<(Seq<i128>, int), DecodeError>((vals.subrange(i, j), pos + e.len()))
        }),
    decreases fuel, 0int,
{
    match ty {
        WireType::UnboundedInteger => {
            lemma_unbounded_round_trip(vals[i] as int, b, pos);
            assert(vals.subrange(i, i + 1) =~= seq![vals[i]]);
            assert(dec_unbounded(b, pos) == Ok::<(i128, int), DecodeError>((vals[i], pos + enc_unbounded(vals[i] as int).len())));
        },
        WireType::FixedUnsigned(w) => {
            lemma_fixed_round_trip(vals[i] as nat, w as nat, b, pos);
            assert(vals.subrange(i, i + 1) =~= seq![vals[i]]);
            assert(dec_fixed(b, pos, w as int) == Ok::<(i128, int), DecodeError>((vals[i], pos + w)));
        },
        WireType::Composite(t) => {
            lemma_fields_round_trip(schema, t as int, 0, vals, i, (fuel - 1) as nat, b, pos);
        },
    }
}

proof fn lemma_fields_round_trip(
    schema: Schema,
    s: int,
    k: int,
    vals: Seq<i128>,
    i: int,
    fuel: nat,
    b: Seq<u8>,
    pos: int,
)
    requires
        schema.wf(),
        0 <= s < schema.sequences@.len(),
        0 <= i <= vals.len(),
        enc_fields(schema, s, k, vals, i, fuel) is Ok,
        0 <= pos,
        pos + enc_fields(schema, s, k, vals, i, fuel)->Ok_0.0.len() <= b.len(),
        b.subrange(pos, pos + enc_fields(schema, s, k, vals, i, fuel)->Ok_0.0.len()) == enc_fields(schema, s, k, vals, i, fuel)->Ok_0.0,
    ensures
        ({
            let (e, j) = enc_fields(schema, s, k, vals, i, fuel)->Ok_0;
            &&& i <= j <= vals.len()
            &&& dec_fields(schema, s, k, b, pos, fuel) == Ok::<(Seq<i128>, int), DecodeError>((vals.subrange(i, j), pos + e.len()))
        }),
    decreases fuel, schema.field_count(s) - k + 1,
{
    if k < 0 || k >= schema.field_count(s) {
        assert(vals.subrange(i, i) =~= Seq::<i128>::empty());
    } else {
        let ty = schema.field_type(s, k);
        let (e1, j1) = enc_field(schema, ty, vals, i, fuel)->Ok_0;
        let (e2, j2) = enc_fields(schema, s, k + 1, vals, j1, fuel)->Ok_0;
        let e = e1 + e2;
        assert(b.subrange(pos, pos + e1.len()) =~= e1) by {
            assert forall|x: int| 0 <= x < e1.len() implies #[trigger] b.subrange(pos, pos + e1.len())[x] == e1[x] by {
                assert(b.subrange(pos, pos + e.len())[x] == e[x]);
            }
        }
        lemma_field_round_trip(schema, ty, vals, i, fuel, b, pos);
        let p = pos + e1.len();
        assert(b.subrange(p, p + e2.len()) =~= e2) by {
            assert forall|x: int| 0 <= x < e2.len() implies #[trigger] b.subrange(p, p + e2.len())[x] == e2[x] by {
                assert(b.subrange(pos, pos + e.len())[e1.len() + x] == e[e1.len() + x]);
            }
        }
        lemma_fields_round_trip(schema, s, k + 1, vals, j1, fuel, b, p);
        assert(vals.subrange(i, j1) + vals.subrange(j1, j2) =~= vals.subrange(i, j2));
    }
}

/// Decoding what `encode` produced gives back the integers it was given:
/// for every record type of a well-formed schema and every list of integers
/// that encodes.
pub proof fn lemma_round_trip(schema: Schema, name: Seq<char>, vals: Seq<i128>)
    requires
        schema.wf(),
        encode_named(schema, name, vals) is Ok,
    ensures
        decode_named(schema, name, encode_named(schema, name, vals)->Ok_0) == Ok::<Seq<i128>, DecodeError>(vals),
{
    let s = schema.index_of(name);
    schema.lemma_find_from_range(name, 0);
    let b = encode_named(schema, name, vals)->Ok_0;
    assert(b.subrange(0, b.len() as int) =~= b);
    lemma_fields_round_trip(schema, s, 0, vals, 0, schema.sequences@.len(), b, 0);
    assert(vals.subrange(0, vals.len() as int) =~= vals);
}

/// Encoding is canonical: two lists of integers that encode to the same
/// octets are the same list, and one list always encodes to the same octets.
pub proof fn lemma_encode_canonical(schema: Schema, name: Seq<char>, v1: Seq<i128>, v2: Seq<i128>)
    requires
        schema.wf(),
        encode_named(schema, name, v1) is Ok,
        encode_named(schema, name, v2) is Ok,
    ensures
        encode_named(schema, name, v1) == encode_named(schema, name, v2) <==> v1 == v2,
{
    lemma_round_trip(schema, name, v1);
    lemma_round_trip(schema, name, v2);
}

/// The fewest octets, at least one, that hold `v` in two's complement.
fn min_len_exec(v: i64) -> (r: usize)
    ensures
        r == min_len(v as int),
        1 <= r <= 8,
        fits_signed(v as int, r as nat),
{
    proof {
        lemma_pow256_values();
        lemma_min_len(v as int, 1);
    }
    let mut l: usize = 1;
    while l < 8
        invariant
            1 <= l <= 8,
            min_len_from(v as int, l as nat) == min_len(v as int),
        decreases 8 - l,
    {
        let half = (pow256_exec(l) / 2) as i128;
        proof {
            lemma_pow256_mono(l as nat, 8);
        }
        if -half <= v as i128 && (v as i128) < half {
            return l;
        }
        l = l + 1;
    }
    l
}

/// Appends `x` as `n` big-endian octets.
fn write_be(x: u128, n: usize, out: &mut Vec<u8>)
    requires
        n <= 8,
    ensures
        final(out)@ == old(out)@ + be_bytes(x as nat, n as nat),
{
    let mut i: usize = 0;
    while i < n
        invariant
            i <= n <= 8,
            out@ == old(out)@ + be_bytes(x as nat, n as nat).take(i as int),
        decreases n - i,
    {
        let p = pow256_exec(n - 1 - i);
        proof {
            lemma_pow256_positive((n - 1 - i) as nat);
        }
        let octet = ((x / p) % 256) as u8;
        out.push(octet);
        assert(be_bytes(x as nat, n as nat).take(i + 1) =~= be_bytes(x as nat, n as nat).take(i as int).push(octet));
        i = i + 1;
    }
    assert(be_bytes(x as nat, n as nat).take(n as int) =~= be_bytes(x as nat, n as nat));
}

/// Appends the canonical encoding of an unbounded integer.
fn encode_unbounded(v: i64, out: &mut Vec<u8>)
    ensures
        final(out)@ == old(out)@ + enc_unbounded(v as int),
{
    let l = min_len_exec(v);
    let p = pow256_exec(l);
    proof {
        lemma_pow256_mono(l as nat, 8);
        lemma_pow256_values();
    }
    let x: u128 = if v < 0 {
        (v as i128 + p as i128) as u128
    } else {
        v as u128
    };
    out.push(l as u8);
    let ghost mid = out@;
    write_be(x, l, out);
    assert(out@ =~= old(out)@ + enc_unbounded(v as int));
}

/// Encodes one field of wire type `ty` from `vals[i..]`, appending its
/// octets to `out`; gives the index of the first integer left.
fn encode_field(
    schema: &Schema,
    ty: WireType,
    vals: &[i128],
    i: usize,
    fuel: usize,
    out: &mut Vec<u8>,
) -> (r: Result<usize, EncodeError>)
    requires
        schema.wf(),
        match ty {
            WireType::FixedUnsigned(w) => valid_width(w as int),
            WireType::Composite(t) => t < schema.sequences@.len(),
            WireType::UnboundedInteger => true,
        },
    ensures
        match enc_field(*schema, ty, vals@, i as int, fuel as nat) {
            Ok((b, j)) => r is Ok && r->Ok_0 as int == j && final(out)@ == old(out)@ + b,
            Err(e) => r == Err::<usize, EncodeError>(e),
        },
    decreases fuel, 0int,
{
    match ty {
        WireType::UnboundedInteger => {
            if i >= vals.len() {
                return Err(EncodeError::MissingValue);
            }
            let v = vals[i];
            if v < i64::MIN as i128 || v > i64::MAX as i128 {
                return Err(EncodeError::ValueOutOfRange);
            }
            encode_unbounded(v as i64, out);
            Ok(i + 1)
        },
        WireType::FixedUnsigned(w) => {
            if i >= vals.len() {
                return Err(EncodeError::MissingValue);
            }
            let v = vals[i];
            let p = pow256_exec(w);
            proof {
                lemma_pow256_mono(w as nat, 8);
                lemma_pow256_values();
            }
            if v < 0 || v as u128 >= p {
                return Err(EncodeError::ValueOutOfRange);
            }
            write_be(v as u128, w, out);
            Ok(i + 1)
        },
        WireType::Composite(t) => {
            if fuel == 0 {
                return Err(EncodeError::NestingTooDeep);
            }
            encode_from(schema, t, 0, vals, i, fuel - 1, out)
        },
    }
}

/// Encodes fields `k..` of sequence `s` from `vals[i..]`, appending their
/// octets to `out`; gives the index of the first integer left.
fn encode_from(
    schema: &Schema,
    s: usize,
    k: usize,
    vals: &[i128],
    i: usize,
    fuel: usize,
    out: &mut Vec<u8>,
) -> (r: Result<usize, EncodeError>)
    requires
        schema.wf(),
        s < schema.sequences@.len(),
    ensures
        match enc_fields(*schema, s as int, k as int, vals@, i as int, fuel as nat) {
            Ok((b, j)) => r is Ok && r->Ok_0 as int == j && final(out)@ == old(out)@ + b,
            Err(e) => r == Err::<usize, EncodeError>(e),
        },
    decreases fuel, schema.field_count(s as int) - k + 1,
{
    let fields = &schema.sequences[s].fields;
    if k >= fields.len() {
        assert(old(out)@ + Seq::<u8>::empty() =~= old(out)@);
        return Ok(i);
    }
    let ty = fields[k].wire_type;
    assert(schema.field_type(s as int, k as int) == ty);
    let next = match encode_field(schema, ty, vals, i, fuel, out) {
        Ok(j) => j,
        Err(e) => return Err(e),
    };
    let ghost mid = out@;
    let r = encode_from(schema, s, k + 1, vals, next, fuel, out);
    proof {
        if let Ok((b1, _)) = enc_field(*schema, ty, vals@, i as int, fuel as nat) {
            if let Ok((b2, _)) = enc_fields(*schema, s as int, k as int + 1, vals@, next as int, fuel as nat) {
                assert(old(out)@ + (b1 + b2) =~= mid + b2);
            }
        }
    }
    r
}

/// Encodes one record of the sequence named `record_name` from the integers
/// of its fields, listed in declared order, depth first through nested
/// sequences. Every integer must be used.
pub fn encode(schema: &Schema, record_name: &str, vals: &[i128]) -> (r: Result<Vec<u8>, EncodeError>)
    requires
        schema.wf(),
    ensures
        match encode_named(*schema, record_name@, vals@) {
            Ok(b) => r is Ok && r->Ok_0@ == b,
            Err(e) => r == Err::<Vec<u8>, EncodeError>(e),
        },
{
    let s = match find_sequence(schema, record_name) {
        Some(s) => s,
        None => return Err(EncodeError::UnknownType),
    };
    proof {
        schema.lemma_find_from_range(record_name@, 0);
    }
    let mut out: Vec<u8> = Vec::new();
    let used = match encode_from(schema, s, 0, vals, 0, schema.sequences.len(), &mut out) {
        Ok(used) => used,
        Err(e) => return Err(e),
    };
    if used != vals.len() {
        return Err(EncodeError::ExtraValues);
    }
    proof {
        if let Ok((b, _)) = enc_fields(*schema, s as int, 0, vals@, 0, schema.sequences@.len()) {
            assert(Seq::<u8>::empty() + b =~= b);
        }
    }
    Ok(out)
}

/// The name of the native type that holds a field of wire type `ty`.
pub open spec fn native_name(schema: Schema, ty: WireType) -> Seq<char> {
    match ty {
        WireType::UnboundedInteger => "i64"@,
        WireType::FixedUnsigned(w) => if w == 1 {
            "u8"@
        } else if w == 2 {
            "u16"@
        } else if w == 4 {
            "u32"@
        } else {
            "u64"@
        },
        WireType::Composite(t) => schema.sequences@[t as int].name@,
    }
}

impl<'a> Schema<'a> {
    /// The name of the native type that holds a field of wire type `ty`: a
    /// signed 64-bit integer, an unsigned integer of the field's width, or
    /// the referenced sequence's name.
    pub fn native_type_name(&self, ty: WireType) -> (r: &'a str)
        requires
            ty matches WireType::Composite(t) ==> t < self.sequences@.len(),
        ensures
            r@ == native_name(*self, ty),
    {
        match ty {
            WireType::UnboundedInteger => "i64",
            WireType::FixedUnsigned(w) => if w == 1 {
                "u8"
            } else if w == 2 {
                "u16"
            } else if w == 4 {
                "u32"
            } else {
                "u64"
            },
            WireType::Composite(t) => self.sequences[t].name,
        }
    }
}

/// Writing back the value of `n` octets gives those octets.
proof fn lemma_be_bytes_of_value(o: Seq<u8>)
    ensures
        be_bytes(be_value(o), o.len()) == o,
    decreases o.len(),
{
    let n = o.len();
    if n == 0 {
        assert(be_bytes(be_value(o), 0) =~= o);
    } else {
        let init = o.drop_last();
        let a = be_value(init);
        let l = o.last() as int;
        let x = be_value(o);
        assert(x == a * 256 + l);
        lemma_fundamental_div_mod_converse(x as int, 256, a as int, l);
        lemma_be_bytes_of_value(init);
        let r = be_bytes(x, n);
        assert(pow256(0) == 1);
        assert(r[n - 1] == digit(x, 0));
        assert forall|i: int| 0 <= i < n - 1 implies #[trigger] r[i] == init[i] by {
            let j = (n - 2 - i) as nat;
            lemma_pow256_positive(j);
            lemma_div_denominator(x as int, 256, pow256(j) as int);
            assert(be_bytes(a, (n - 1) as nat)[i] == init[i]);
        }
        assert(r =~= o);
    }
}

proof fn lemma_min_len_at_most(v: int, l: nat, big: nat)
    requires
        1 <= l <= big <= 8,
        fits_signed(v, big),
    ensures
        min_len_from(v, l) <= big,
    decreases 8 - l,
{
    if l < 8 && !fits_signed(v, l) {
        lemma_min_len_at_most(v, l + 1, big);
    }
}

/// What an unbounded integer decoded from the octets at `pos` re-encodes
/// to: no more octets, and the same octets where as many.
proof fn lemma_unbounded_canonical(b: Seq<u8>, pos: int)
    requires
        dec_unbounded(b, pos) is Ok,
    ensures
        ({
            let (v, p) = dec_unbounded(b, pos)->Ok_0;
            let e = enc_unbounded(v as int);
            &&& i64::MIN <= v <= i64::MAX
            &&& pos < p <= b.len()
            &&& e.len() <= p - pos
            &&& e.len() == p - pos ==> e == b.subrange(pos, p)
        }),
{
    let l = b[pos] as nat;
    let o = b.subrange(pos + 1, pos + 1 + l);
    let u = be_value(o);
    let big = pow256(l);
    lemma_be_value_bound(o);
    lemma_pow256_values();
    lemma_pow256_mono(l, 8);
    assert(big == 256 * pow256((l - 1) as nat));
    let v = signed_value(o);
    assert(fits_signed(v, l));
    assert(fits_signed(v, 8)) by {
        assert(big / 2 <= pow256(8) / 2);
    }
    lemma_min_len(v, 1);
    lemma_min_len_at_most(v, 1, l);
    let m = min_len(v);
    if m == l {
        assert(twos(v, l) == u);
        lemma_be_bytes_of_value(o);
        let e = enc_unbounded(v);
        assert(e =~= b.subrange(pos, pos + 1 + l));
    }
}

proof fn lemma_fixed_canonical(b: Seq<u8>, pos: int, w: nat)
    requires
        w <= 8,
        dec_fixed(b, pos, w as int) is Ok,
    ensures
        ({
            let (v, p) = dec_fixed(b, pos, w as int)->Ok_0;
            &&& 0 <= v < pow256(w)
            &&& p == pos + w <= b.len()
            &&& be_bytes(v as nat, w) == b.subrange(pos, p)
        }),
{
    let o = b.subrange(pos, pos + w);
    lemma_be_value_bound(o);
    lemma_be_bytes_of_value(o);
    lemma_pow256_mono(w, 8);
    lemma_pow256_values();
}

proof fn lemma_field_canonical(
    schema: Schema,
    ty: WireType,
    b: Seq<u8>,
    pos: int,
    fuel: nat,
    vals: Seq<i128>,
    i: int,
)
    requires
        schema.wf(),
        match ty {
            WireType::FixedUnsigned(w) => valid_width(w as int),
            WireType::Composite(t) => t < schema.sequences@.len(),
            WireType::UnboundedInteger => true,
        },
        0 <= pos <= b.len(),
        dec_field(schema, ty, b, pos, fuel) is Ok,
        0 <= i,
        i + dec_field(schema, ty, b, pos, fuel)->Ok_0.0.len() <= vals.len(),
        vals.subrange(i, i + dec_field(schema, ty, b, pos, fuel)->Ok_0.0.len()) == dec_field(schema, ty, b, pos, fuel)->Ok_0.0,
    ensures
        ({
            let (vs, p) = dec_field(schema, ty, b, pos, fuel)->Ok_0;
            &&& pos <= p <= b.len()
            &&& enc_field(schema, ty, vals, i, fuel) is Ok
            &&& enc_field(schema, ty, vals, i, fuel)->Ok_0.1 == i + vs.len()
            &&& enc_field(schema, ty, vals, i, fuel)->Ok_0.0.len() <= p - pos
            &&& enc_field(schema, ty, vals, i, fuel)->Ok_0.0.len() == p - pos ==> enc_field(schema, ty, vals, i, fuel)->Ok_0.0 == b.subrange(pos, p)
        }),
    decreases fuel, 0int,
{
    match ty {
        WireType::UnboundedInteger => {
            lemma_unbounded_canonical(b, pos);
            assert(vals[i] == vals.subrange(i, i + 1)[0]);
        },
        WireType::FixedUnsigned(w) => {
            lemma_fixed_canonical(b, pos, w as nat);
            assert(vals[i] == vals.subrange(i, i + 1)[0]);
        },
        WireType::Composite(t) => {
            lemma_fields_canonical(schema, t as int, 0, b, pos, (fuel - 1) as nat, vals, i);
        },
    }
}

proof fn lemma_fields_canonical(
    schema: Schema,
    s: int,
    k: int,
    b: Seq<u8>,
    pos: int,
    fuel: nat,
    vals: Seq<i128>,
    i: int,
)
    requires
        schema.wf(),
        0 <= s < schema.sequences@.len(),
        0 <= pos <= b.len(),
        dec_fields(schema, s, k, b, pos, fuel) is Ok,
        0 <= i,
        i + dec_fields(schema, s, k, b, pos, fuel)->Ok_0.0.len() <= vals.len(),
        vals.subrange(i, i + dec_fields(schema, s, k, b, pos, fuel)->Ok_0.0.len()) == dec_fields(schema, s, k, b, pos, fuel)->Ok_0.0,
    ensures
        ({
            let (vs, p) = dec_fields(schema, s, k, b, pos, fuel)->Ok_0;
            &&& pos <= p <= b.len()
            &&& enc_fields(schema, s, k, vals, i, fuel) is Ok
            &&& enc_fields(schema, s, k, vals, i, fuel)->Ok_0.1 == i + vs.len()
            &&& enc_fields(schema, s, k, vals, i, fuel)->Ok_0.0.len() <= p - pos
            &&& enc_fields(schema, s, k, vals, i, fuel)->Ok_0.0.len() == p - pos ==> enc_fields(schema, s, k, vals, i, fuel)->Ok_0.0 == b.subrange(pos, p)
        }),
    decreases fuel, schema.field_count(s) - k + 1,
{
    if k < 0 || k >= schema.field_count(s) {
        assert(b.subrange(pos, pos) =~= Seq::<u8>::empty());
    } else {
        let ty = schema.field_type(s, k);
        let (vs1, p1) = dec_field(schema, ty, b, pos, fuel)->Ok_0;
        let (vs2, p2) = dec_fields(schema, s, k + 1, b, p1, fuel)->Ok_0;
        let vs = vs1 + vs2;
        assert(vals.subrange(i, i + vs1.len()) =~= vs1) by {
            assert forall|x: int| 0 <= x < vs1.len() implies #[trigger] vals.subrange(i, i + vs1.len())[x] == vs1[x] by {
                assert(vals.subrange(i, i + vs.len())[x] == vs[x]);
            }
        }
        lemma_field_canonical(schema, ty, b, pos, fuel, vals, i);
        let j1 = i + vs1.len();
        assert(vals.subrange(j1, j1 + vs2.len()) =~= vs2) by {
            assert forall|x: int| 0 <= x < vs2.len() implies #[trigger] vals.subrange(j1, j1 + vs2.len())[x] == vs2[x] by {
                assert(vals.subrange(i, i + vs.len())[vs1.len() + x] == vs[vs1.len() + x]);
            }
        }
        lemma_fields_canonical(schema, s, k + 1, b, p1, fuel, vals, j1);
        let e1 = enc_field(schema, ty, vals, i, fuel)->Ok_0.0;
        let e2 = enc_fields(schema, s, k + 1, vals, j1, fuel)->Ok_0.0;
        if e1.len() + e2.len() == p2 - pos {
            assert(e1 + e2 =~= b.subrange(pos, p2));
        }
    }
}

/// The encoding is canonical: of all the octet strings that decode to some
/// integers, the one that `encode` produces from them is the shortest, and
/// the only one of its length.
pub proof fn lemma_encoding_is_shortest(schema: Schema, name: Seq<char>, b: Seq<u8>)
    requires
        schema.wf(),
        decode_named(schema, name, b) is Ok,
    ensures
        encode_named(schema, name, decode_named(schema, name, b)->Ok_0) is Ok,
        encode_named(schema, name, decode_named(schema, name, b)->Ok_0)->Ok_0.len() <= b.len(),
        encode_named(schema, name, decode_named(schema, name, b)->Ok_0)->Ok_0.len() == b.len()
            ==> encode_named(schema, name, decode_named(schema, name, b)->Ok_0)->Ok_0 == b,
{
    let s = schema.index_of(name);
    schema.lemma_find_from_range(name, 0);
    let v = decode_named(schema, name, b)->Ok_0;
    assert(v.subrange(0, v.len() as int) =~= v);
    lemma_fields_canonical(schema, s, 0, b, 0, schema.sequences@.len(), v, 0);
    assert(b.subrange(0, b.len() as int) =~= b);
}

} // verus!
