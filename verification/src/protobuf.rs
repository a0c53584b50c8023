//! The protobuf wire format: fields of a message, without their meaning.
//!
//! Two readers share it. The reader of messages follows the usual rules: keys of 32 bits, no tag
//! zero, varints of 64 bits at most, and fields of an unknown kind are skipped, groups among
//! them up to a nesting limit. The reader of transaction bodies takes varints and byte strings
//! only, and ignores what a varint has above 64 bits.
use vstd::prelude::*;

use crate::bytes::append;

verus! {

broadcast use vstd::array::group_array_axioms;

/// How deep groups and messages may nest.
pub const NESTING_LIMIT: u32 = 100;

/// The first number that takes more than 64 bits.
pub open spec fn two_to_64() -> nat {
    0x1_0000_0000_0000_0000nat
}

/// One field of a message, without its tag.
#[verifier::ext_equal]
pub enum Token {
    Varint(u64),
    Bytes(Seq<u8>),
    /// a field of another kind, which no message here has
    Skipped,
}

/// The number at the start of `bytes` and the bytes it takes, at most `room`.
pub open spec fn leb128(bytes: Seq<u8>, room: nat) -> Option<(nat, nat)>
    decreases room,
{
    if room == 0 || bytes.len() == 0 {
        None
    } else if bytes[0] < 128 {
        Some((bytes[0] as nat, 1nat))
    } else {
        match leb128(bytes.drop_first(), (room - 1) as nat) {
            None => None,
            Some(rest) => Some(((bytes[0] - 128 + 128 * rest.0) as nat, rest.1 + 1)),
        }
    }
}

/// The varint at the start of `bytes` and the bytes it takes. More than 64 bits are an error to
/// a strict reader and are cut off by another one.
pub open spec fn varint(bytes: Seq<u8>, strict: bool) -> Option<(u64, nat)> {
    match leb128(bytes, 10) {
        None => None,
        Some(v) => if strict && v.0 >= two_to_64() {
            None
        } else {
            Some(((v.0 % two_to_64()) as u64, v.1))
        },
    }
}

/// The shortest varint for a number.
pub open spec fn varint_bytes(v: nat) -> Seq<u8>
    decreases v,
{
    if v < 128 {
        seq![v as u8]
    } else {
        seq![(v % 128 + 128) as u8] + varint_bytes(v / 128)
    }
}

/// The key at the start of `bytes`: tag, wire type and the bytes it takes.
pub open spec fn field_key(bytes: Seq<u8>, strict: bool) -> Option<(u32, nat, nat)> {
    match varint(bytes, strict) {
        None => None,
        Some(v) => {
            let tag = v.0 as nat / 8;
            let wire = v.0 as nat % 8;
            if strict && (v.0 > u32::MAX || wire > 5 || tag == 0) {
                None
            } else if tag > u32::MAX {
                None
            } else {
                Some((tag as u32, wire, v.1))
            }
        },
    }
}

/// The bytes that a field of no interest takes after its key.
pub open spec fn skipped(bytes: Seq<u8>, tag: u32, wire: nat, depth: nat) -> Option<nat>
    decreases depth, bytes.len(), 1nat,
{
    if depth == 0 {
        None
    } else if wire == 0 {
        match varint(bytes, true) {
            None => None,
            Some(v) => Some(v.1),
        }
    } else if wire == 1 {
        if bytes.len() >= 8 {
            Some(8)
        } else {
            None
        }
    } else if wire == 5 {
        if bytes.len() >= 4 {
            Some(4)
        } else {
            None
        }
    } else if wire == 2 {
        match varint(bytes, true) {
            None => None,
            Some(v) => if v.1 + v.0 <= bytes.len() {
                Some((v.1 + v.0) as nat)
            } else {
                None
            },
        }
    } else if wire == 3 {
        skipped_group(bytes, tag, depth)
    } else {
        None
    }
}

/// The bytes that the rest of a group takes, its end included.
pub open spec fn skipped_group(bytes: Seq<u8>, tag: u32, depth: nat) -> Option<nat>
    decreases depth, bytes.len(), 0nat,
{
    if depth == 0 {
        None
    } else {
        match field_key(bytes, true) {
            None => None,
            Some(key) => if key.1 == 4 {
                if key.0 == tag {
                    Some(key.2)
                } else {
                    None
                }
            } else {
                match skipped(bytes.skip(key.2 as int), key.0, key.1, (depth - 1) as nat) {
                    None => None,
                    Some(n) => if key.2 == 0 || key.2 + n > bytes.len() {
                        None
                    } else {
                        match skipped_group(bytes.skip((key.2 + n) as int), tag, depth) {
                            None => None,
                            Some(m) => Some(key.2 + n + m),
                        }
                    },
                }
            },
        }
    }
}

/// The field after a key and the bytes it takes.
pub open spec fn field_value(
    bytes: Seq<u8>,
    tag: u32,
    wire: nat,
    strict: bool,
    depth: nat,
) -> Option<(Token, nat)> {
    if wire == 0 {
        match varint(bytes, strict) {
            None => None,
            Some(v) => Some((Token::Varint(v.0), v.1)),
        }
    } else if wire == 2 {
        match varint(bytes, strict) {
            None => None,
            Some(v) => if v.1 + v.0 <= bytes.len() {
                Some((Token::Bytes(bytes.subrange(v.1 as int, v.1 + v.0)), (v.1 + v.0) as nat))
            } else {
                None
            },
        }
    } else if strict {
        match skipped(bytes, tag, wire, depth) {
            None => None,
            Some(n) => Some((Token::Skipped, n)),
        }
    } else {
        None
    }
}

/// All fields of a message.
pub open spec fn tokens(bytes: Seq<u8>, strict: bool, depth: nat) -> Option<Seq<(u32, Token)>>
    decreases bytes.len(),
{
    if bytes.len() == 0 {
        Some(Seq::empty())
    } else {
        match field_key(bytes, strict) {
            None => None,
            Some(key) => match field_value(
                bytes.skip(key.2 as int),
                key.0,
                key.1,
                strict,
                depth,
            ) {
                None => None,
                Some(value) => if key.2 == 0 || key.2 + value.1 > bytes.len() {
                    None
                } else {
                    match tokens(bytes.skip((key.2 + value.1) as int), strict, depth) {
                        None => None,
                        Some(rest) => Some(seq![(key.0, value.0)] + rest),
                    }
                },
            },
        }
    }
}

/// The encoding of one field.
pub open spec fn token_bytes(tag: u32, token: Token) -> Seq<u8> {
    match token {
        Token::Varint(v) => varint_bytes(tag as nat * 8) + varint_bytes(v as nat),
        Token::Bytes(b) => varint_bytes(tag as nat * 8 + 2) + varint_bytes(b.len()) + b,
        Token::Skipped => Seq::empty(),
    }
}

/// The encoding of a message.
pub open spec fn message_bytes(fields: Seq<(u32, Token)>) -> Seq<u8>
    decreases fields.len(),
{
    if fields.len() == 0 {
        Seq::empty()
    } else {
        message_bytes(fields.drop_last()) + token_bytes(fields.last().0, fields.last().1)
    }
}

/// Fields that can be written: a tag, and a varint or a byte string.
pub open spec fn writable(fields: Seq<(u32, Token)>) -> bool {
    forall|i: int|
        0 <= i < fields.len() ==> {
            &&& 1 <= (#[trigger] fields[i]).0 < 0x2000_0000
            &&& !(fields[i].1 is Skipped)
            &&& fields[i].1 matches Token::Bytes(b) ==> b.len() < two_to_64()
        }
}

// ---------------------------------------------------------------------------------- functions

/// One field of a message, without its tag.
#[derive(Clone, Debug, PartialEq, Eq)]
pub enum Field {
    Varint(u64),
    Bytes(Vec<u8>),
    /// a field of another kind, which no message here has
    Skipped,
}

impl View for Field {
    type V = Token;

    open spec fn view(&self) -> Token {
        match *self {
            Field::Varint(v) => Token::Varint(v),
            Field::Bytes(b) => Token::Bytes(b@),
            Field::Skipped => Token::Skipped,
        }
    }
}

/// The fields with their tags.
pub open spec fn shown(fields: Seq<(u32, Field)>) -> Seq<(u32, Token)> {
    fields.map_values(|f: (u32, Field)| (f.0, f.1@))
}

pub proof fn lemma_leb128_bounds(bytes: Seq<u8>, room: nat)
    requires
        room <= 10,
    ensures
        leb128(bytes, room) matches Some(v) ==> 1 <= v.1 <= room && v.1 <= bytes.len() && v.0
            < 0x40_0000_0000_0000_0000,
        leb128(bytes, room) matches Some(v) ==> v.0 < power128(room),
    decreases room,
{
    reveal_with_fuel(power128, 11);
    if room > 0 && bytes.len() > 0 && bytes[0] >= 128 {
        lemma_leb128_bounds(bytes.drop_first(), (room - 1) as nat);
    }
    lemma_power128_monotone(room, 10);
}

pub open spec fn power128(n: nat) -> nat
    decreases n,
{
    if n == 0 {
        1
    } else {
        128 * power128((n - 1) as nat)
    }
}

proof fn lemma_power128_monotone(a: nat, b: nat)
    requires
        a <= b,
    ensures
        1 <= power128(a) <= power128(b),
    decreases b,
{
    if a < b {
        lemma_power128_monotone(a, (b - 1) as nat);
    } else if a > 0 {
        lemma_power128_monotone((a - 1) as nat, (b - 1) as nat);
    }
}

/// Reads the varint at `at`: its value and the position after it.
pub fn read_varint(bytes: &[u8], at: usize, strict: bool) -> (r: Option<(u64, usize)>)
    requires
        at <= bytes@.len(),
    ensures
        r is Some <==> varint(bytes@.skip(at as int), strict) is Some,
        r matches Some(v) ==> {
            &&& varint(bytes@.skip(at as int), strict) == Some((v.0, (v.1 - at) as nat))
            &&& at < v.1 <= bytes@.len()
        },
{
    let mut value: u128 = 0;
    let mut scale: u128 = 1;
    let mut i: usize = 0;
    let ghost start = bytes@.skip(at as int);
    proof {
        lemma_leb128_bounds(start, 10);
        assert(start.skip(0) =~= start);
        reveal_with_fuel(power128, 11);
    }
    while i < 10
        invariant
            i <= 10,
            at <= bytes.len(),
            start == bytes@.skip(at as int),
            i <= start.len(),
            scale as nat == power128(i as nat),
            value < scale,
            leb128(start, 10) == (match leb128(start.skip(i as int), (10 - i) as nat) {
                None => None,
                Some(rest) => Some(((value + scale * rest.0) as nat, rest.1 + i as nat)),
            }),
            leb128(start, 10) matches Some(v) ==> 1 <= v.1 <= 10 && v.1 <= start.len() && v.0
                < 0x40_0000_0000_0000_0000,
        decreases 10 - i,
    {
        if at + i >= bytes.len() {
            assert(start.skip(i as int).len() == 0);
            return None;
        }
        let byte: u8 = bytes[at + i];
        let ghost rest = start.skip(i as int);
        proof {
            assert(rest[0] == byte);
            assert(rest.drop_first() =~= start.skip(i + 1));
            lemma_power128_monotone(i as nat, 9);
            lemma_power128_monotone(i as nat + 1, 10);
            reveal_with_fuel(power128, 11);
            assert(power128(9) == 0x8000_0000_0000_0000);
            assert(power128(10) == 0x40_0000_0000_0000_0000);
            assert(power128(i as nat + 1) == 128 * power128(i as nat));
        }
        if byte < 128 {
            assert(scale * byte <= scale * 127) by (nonlinear_arith)
                requires
                    byte < 128,
            ;
            value = value + scale * (byte as u128);
            assert(leb128(start, 10) == Some((value as nat, i as nat + 1)));
            if strict && value >= 0x1_0000_0000_0000_0000 {
                return None;
            }
            return Some(((value % 0x1_0000_0000_0000_0000) as u64, at + i + 1));
        }
        let low: u8 = byte - 128;
        proof {
            assert(scale * low <= scale * 127) by (nonlinear_arith)
                requires
                    low < 128,
            ;
            match leb128(start.skip(i + 1), (10 - i - 1) as nat) {
                None => {},
                Some(v) => {
                    let x = v.0;
                    assert(value + scale * (low + 128 * x) == value + scale * low + (scale * 128)
                        * x) by (nonlinear_arith);
                },
            }
        }
        value = value + scale * (low as u128);
        scale = scale * 128;
        i = i + 1;
    }
    None
}

/// Appends the shortest varint for `v`.
pub fn push_varint(out: &mut Vec<u8>, v: u64)
    ensures
        final(out)@ == old(out)@ + varint_bytes(v as nat),
{
    let mut rest: u64 = v;
    let ghost before = out@;
    while rest >= 128
        invariant
            before + varint_bytes(v as nat) == out@ + varint_bytes(rest as nat),
        decreases rest,
    {
        out.push((rest % 128 + 128) as u8);
        proof {
            let whole = varint_bytes(rest as nat);
            let head = seq![(rest % 128 + 128) as u8];
            assert(whole == head + varint_bytes(rest as nat / 128));
            assert(out@ + varint_bytes(rest as nat / 128) =~= before + varint_bytes(v as nat));
        }
        rest = rest / 128;
    }
    out.push(rest as u8);
    assert(out@ =~= before + varint_bytes(v as nat));
}

/// Appends one field.
pub fn push_varint_field(out: &mut Vec<u8>, tag: u32, v: u64)
    requires
        tag < 0x2000_0000,
    ensures
        final(out)@ == old(out)@ + token_bytes(tag, Token::Varint(v)),
{
    let ghost before = out@;
    push_varint(out, tag as u64 * 8);
    push_varint(out, v);
    assert(out@ =~= before + token_bytes(tag, Token::Varint(v)));
}

/// Appends one field.
pub fn push_bytes_field(out: &mut Vec<u8>, tag: u32, b: &[u8])
    requires
        tag < 0x2000_0000,
    ensures
        final(out)@ == old(out)@ + token_bytes(tag, Token::Bytes(b@)),
{
    let ghost before = out@;
    push_varint(out, tag as u64 * 8 + 2);
    push_varint(out, b.len() as u64);
    append(out, b);
    assert(out@ =~= before + token_bytes(tag, Token::Bytes(b@)));
}

/// Reads the key at `at`: tag, wire type and the position after it.
fn read_key(bytes: &[u8], at: usize, strict: bool) -> (r: Option<(u32, u8, usize)>)
    requires
        at <= bytes@.len(),
    ensures
        r is Some <==> field_key(bytes@.skip(at as int), strict) is Some,
        r matches Some(k) ==> {
            &&& field_key(bytes@.skip(at as int), strict) == Some(
                (k.0, k.1 as nat, (k.2 - at) as nat),
            )
            &&& at < k.2 <= bytes@.len()
            &&& k.1 < 8
        },
{
    let (key, next) = read_varint(bytes, at, strict)?;
    let tag: u64 = key / 8;
    let wire: u8 = (key % 8) as u8;
    if strict && (key > u32::MAX as u64 || wire > 5 || tag == 0) {
        return None;
    }
    if tag > u32::MAX as u64 {
        return None;
    }
    Some((tag as u32, wire, next))
}

/// Skips the value of a field: the position after it.
fn skip_field(bytes: &[u8], at: usize, tag: u32, wire: u8, depth: u32) -> (r: Option<usize>)
    requires
        at <= bytes@.len(),
    ensures
        r is Some <==> skipped(bytes@.skip(at as int), tag, wire as nat, depth as nat) is Some,
        r matches Some(next) ==> {
            &&& skipped(bytes@.skip(at as int), tag, wire as nat, depth as nat) == Some(
                (next - at) as nat,
            )
            &&& at <= next <= bytes@.len()
        },
    decreases depth, bytes@.len() - at, 1nat,
{
    if depth == 0 {
        return None;
    }
    if wire == 0 {
        let (_, next) = read_varint(bytes, at, true)?;
        Some(next)
    } else if wire == 1 {
        if bytes.len() - at >= 8 {
            Some(at + 8)
        } else {
            None
        }
    } else if wire == 5 {
        if bytes.len() - at >= 4 {
            Some(at + 4)
        } else {
            None
        }
    } else if wire == 2 {
        let (len, next) = read_varint(bytes, at, true)?;
        if len <= (bytes.len() - next) as u64 {
            Some(next + len as usize)
        } else {
            None
        }
    } else if wire == 3 {
        skip_group(bytes, at, tag, depth)
    } else {
        None
    }
}

/// Skips the rest of a group: the position after its end.
fn skip_group(bytes: &[u8], at: usize, tag: u32, depth: u32) -> (r: Option<usize>)
    requires
        at <= bytes@.len(),
        depth > 0,
    ensures
        r is Some <==> skipped_group(bytes@.skip(at as int), tag, depth as nat) is Some,
        r matches Some(next) ==> {
            &&& skipped_group(bytes@.skip(at as int), tag, depth as nat) == Some((next - at) as nat)
            &&& at <= next <= bytes@.len()
        },
    decreases depth, bytes@.len() - at, 0nat,
{
    let ghost start = bytes@.skip(at as int);
    let (inner, wire, value) = read_key(bytes, at, true)?;
    if wire == 4 {
        return if inner == tag {
            Some(value)
        } else {
            None
        };
    }
    assert(start.skip(value - at) =~= bytes@.skip(value as int));
    let next = skip_field(bytes, value, inner, wire, depth - 1)?;
    assert(start.skip(next - at) =~= bytes@.skip(next as int));
    skip_group(bytes, next, tag, depth)
}

/// Reads the value of a field: the field and the position after it.
fn read_value(bytes: &[u8], at: usize, tag: u32, wire: u8, strict: bool, depth: u32) -> (r: Option<
    (Field, usize),
>)
    requires
        at <= bytes@.len(),
    ensures
        r is Some <==> field_value(
            bytes@.skip(at as int),
            tag,
            wire as nat,
            strict,
            depth as nat,
        ) is Some,
        r matches Some(f) ==> {
            &&& field_value(bytes@.skip(at as int), tag, wire as nat, strict, depth as nat) == Some(
                (f.0@, (f.1 - at) as nat),
            )
            &&& at <= f.1 <= bytes@.len()
        },
{
    let ghost tail = bytes@.skip(at as int);
    if wire == 0 {
        let (v, next) = read_varint(bytes, at, strict)?;
        Some((Field::Varint(v), next))
    } else if wire == 2 {
        let (len, from) = read_varint(bytes, at, strict)?;
        if len > (bytes.len() - from) as u64 {
            return None;
        }
        let to: usize = from + len as usize;
        let mut content: Vec<u8> = Vec::new();
        append(&mut content, &bytes[from..to]);
        assert(content@ =~= tail.subrange(from - at, to - at));
        Some((Field::Bytes(content), to))
    } else if strict {
        let next = skip_field(bytes, at, tag, wire, depth)?;
        Some((Field::Skipped, next))
    } else {
        None
    }
}

/// One field further.
proof fn lemma_tokens_step(
    bytes: Seq<u8>,
    strict: bool,
    depth: nat,
    tag: u32,
    wire: nat,
    k: nat,
    token: Token,
    n: nat,
)
    requires
        field_key(bytes, strict) == Some((tag, wire, k)),
        field_value(bytes.skip(k as int), tag, wire, strict, depth) == Some((token, n)),
        0 < k,
        k + n <= bytes.len(),
    ensures
        tokens(bytes, strict, depth) == (match tokens(
            bytes.skip((k + n) as int),
            strict,
            depth,
        ) {
            None => None,
            Some(rest) => Some(seq![(tag, token)] + rest),
        }),
{
}

/// A message that ends in the middle of a field, or has a field that cannot be read.
proof fn lemma_tokens_stop(bytes: Seq<u8>, strict: bool, depth: nat)
    requires
        bytes.len() > 0,
        field_key(bytes, strict) matches Some(key) ==> field_value(
            bytes.skip(key.2 as int),
            key.0,
            key.1,
            strict,
            depth,
        ) is None,
    ensures
        tokens(bytes, strict, depth) is None,
{
}

/// Reads all fields of a message.
pub fn read_fields(bytes: &[u8], strict: bool, depth: u32) -> (r: Option<Vec<(u32, Field)>>)
    ensures
        r is Some <==> tokens(bytes@, strict, depth as nat) is Some,
        r matches Some(f) ==> tokens(bytes@, strict, depth as nat) == Some(shown(f@)),
{
    let mut out: Vec<(u32, Field)> = Vec::new();
    let mut at: usize = 0;
    assert(bytes@.skip(0) =~= bytes@);
    assert(shown(out@) =~= Seq::empty());
    proof {
        match tokens(bytes@, strict, depth as nat) {
            None => {},
            Some(rest) => {
                assert(shown(out@) + rest =~= rest);
            },
        }
    }
    while at < bytes.len()
        invariant
            at <= bytes@.len(),
            tokens(bytes@, strict, depth as nat) == (match tokens(
                bytes@.skip(at as int),
                strict,
                depth as nat,
            ) {
                None => None,
                Some(rest) => Some(shown(out@) + rest),
            }),
        decreases bytes@.len() - at,
    {
        let ghost start = bytes@.skip(at as int);
        let ghost before = shown(out@);
        let (tag, wire, value) = match read_key(bytes, at, strict) {
            Some(key) => key,
            None => {
                proof {
                    lemma_tokens_stop(start, strict, depth as nat);
                }
                return None;
            },
        };
        assert(start.skip(value - at) =~= bytes@.skip(value as int));
        let (field, next) = match read_value(bytes, value, tag, wire, strict, depth) {
            Some(found) => found,
            None => {
                proof {
                    lemma_tokens_stop(start, strict, depth as nat);
                }
                return None;
            },
        };
        let ghost token = field@;
        assert(start.skip(next - at) =~= bytes@.skip(next as int));
        proof {
            lemma_tokens_step(
                start,
                strict,
                depth as nat,
                tag,
                wire as nat,
                (value - at) as nat,
                token,
                (next - value) as nat,
            );
        }
        out.push((tag, field));
        assert(shown(out@) =~= before.push((tag, token)));
        proof {
            match tokens(bytes@.skip(next as int), strict, depth as nat) {
                None => {},
                Some(rest) => {
                    assert(before + (seq![(tag, token)] + rest) =~= shown(out@) + rest);
                },
            }
        }
        at = next;
    }
    assert(bytes@.skip(at as int).len() == 0);
    assert(shown(out@) + Seq::<(u32, Token)>::empty() =~= shown(out@));
    Some(out)
}

// --------------------------------------------------------------------------------------- laws

proof fn lemma_varint_reads_back(v: nat, room: nat, rest: Seq<u8>)
    requires
        v < power128(room),
        room > 0,
    ensures
        leb128(varint_bytes(v) + rest, room) == Some((v, varint_bytes(v).len())),
        1 <= varint_bytes(v).len(),
    decreases v,
{
    let bytes = varint_bytes(v) + rest;
    if v < 128 {
        assert(bytes[0] == v as u8);
    } else {
        let head = seq![(v % 128 + 128) as u8];
        assert(power128(room) == 128 * power128((room - 1) as nat));
        assert(power128(0) == 1);
        assert(room > 1);
        lemma_varint_reads_back(v / 128, (room - 1) as nat, rest);
        assert(varint_bytes(v) == head + varint_bytes(v / 128));
        assert(bytes[0] == (v % 128 + 128) as u8);
        assert(bytes.drop_first() =~= varint_bytes(v / 128) + rest);
    }
}

proof fn lemma_varint_of(v: nat, rest: Seq<u8>, strict: bool)
    requires
        v < two_to_64(),
    ensures
        varint(varint_bytes(v) + rest, strict) == Some((v as u64, varint_bytes(v).len())),
        1 <= varint_bytes(v).len(),
{
    reveal_with_fuel(power128, 11);
    assert(power128(10) == 0x40_0000_0000_0000_0000);
    lemma_varint_reads_back(v, 10, rest);
}

/// Reading a written field gives the field back, and leaves what follows.
pub proof fn lemma_field_reads_back(
    tag: u32,
    token: Token,
    rest: Seq<u8>,
    strict: bool,
    depth: nat,
)
    requires
        1 <= tag < 0x2000_0000,
        !(token is Skipped),
        token matches Token::Bytes(b) ==> b.len() < two_to_64(),
    ensures
        tokens(token_bytes(tag, token) + rest, strict, depth) == (match tokens(
            rest,
            strict,
            depth,
        ) {
            None => None,
            Some(more) => Some(seq![(tag, token)] + more),
        }),
        token_bytes(tag, token).len() > 0,
{
    match token {
        Token::Varint(v) => {
            lemma_varint_field_reads_back(tag, v, rest, strict, depth);
        },
        Token::Bytes(b) => {
            lemma_bytes_field_reads_back(tag, b, rest, strict, depth);
        },
        Token::Skipped => {},
    }
}

proof fn lemma_key_reads_back(tag: u32, wire: nat, rest: Seq<u8>, strict: bool)
    requires
        1 <= tag < 0x2000_0000,
        wire <= 5,
    ensures
        field_key(varint_bytes(tag as nat * 8 + wire) + rest, strict) == Some(
            (tag, wire, varint_bytes(tag as nat * 8 + wire).len()),
        ),
        varint_bytes(tag as nat * 8 + wire).len() > 0,
{
    lemma_varint_of(tag as nat * 8 + wire, rest, strict);
}

proof fn lemma_content_reads_back(b: Seq<u8>, rest: Seq<u8>, tag: u32, strict: bool, depth: nat)
    requires
        b.len() < two_to_64(),
    ensures
        field_value(varint_bytes(b.len()) + (b + rest), tag, 2, strict, depth) == Some(
            (Token::Bytes(b), varint_bytes(b.len()).len() + b.len()),
        ),
{
    let n = varint_bytes(b.len());
    let after = n + (b + rest);
    lemma_varint_of(b.len(), b + rest, strict);
    assert(after.subrange(n.len() as int, (n.len() + b.len()) as int) =~= b);
}

proof fn lemma_varint_field_reads_back(
    tag: u32,
    v: u64,
    rest: Seq<u8>,
    strict: bool,
    depth: nat,
)
    requires
        1 <= tag < 0x2000_0000,
    ensures
        tokens(token_bytes(tag, Token::Varint(v)) + rest, strict, depth) == (match tokens(
            rest,
            strict,
            depth,
        ) {
            None => None,
            Some(more) => Some(seq![(tag, Token::Varint(v))] + more),
        }),
        token_bytes(tag, Token::Varint(v)).len() > 0,
{
    let bytes = token_bytes(tag, Token::Varint(v)) + rest;
    let k = varint_bytes(tag as nat * 8);
    let n = varint_bytes(v as nat);
    assert(bytes =~= k + (n + rest));
    lemma_key_reads_back(tag, 0, n + rest, strict);
    lemma_varint_of(v as nat, rest, strict);
    assert(bytes.skip(k.len() as int) =~= n + rest);
    assert(bytes.skip((k.len() + n.len()) as int) =~= rest);
    lemma_tokens_step(bytes, strict, depth, tag, 0, k.len(), Token::Varint(v), n.len());
}

proof fn lemma_bytes_field_reads_back(
    tag: u32,
    b: Seq<u8>,
    rest: Seq<u8>,
    strict: bool,
    depth: nat,
)
    requires
        1 <= tag < 0x2000_0000,
        b.len() < two_to_64(),
    ensures
        tokens(token_bytes(tag, Token::Bytes(b)) + rest, strict, depth) == (match tokens(
            rest,
            strict,
            depth,
        ) {
            None => None,
            Some(more) => Some(seq![(tag, Token::Bytes(b))] + more),
        }),
        token_bytes(tag, Token::Bytes(b)).len() > 0,
{
    let bytes = token_bytes(tag, Token::Bytes(b)) + rest;
    let k = varint_bytes(tag as nat * 8 + 2);
    let n = varint_bytes(b.len());
    let after = n + (b + rest);
    assert(bytes =~= k + after);
    lemma_key_reads_back(tag, 2, after, strict);
    lemma_content_reads_back(b, rest, tag, strict, depth);
    assert(bytes.skip(k.len() as int) =~= after);
    assert(bytes.skip((k.len() + (n.len() + b.len())) as int) =~= rest);
    lemma_tokens_step(
        bytes,
        strict,
        depth,
        tag,
        2,
        k.len(),
        Token::Bytes(b),
        n.len() + b.len(),
    );
}

/// Reading a written message gives its fields back.
pub proof fn written_message_reads_back(fields: Seq<(u32, Token)>, strict: bool, depth: nat)
    requires
        writable(fields),
    ensures
        tokens(message_bytes(fields), strict, depth) == Some(fields),
{
    lemma_message_then(fields, Seq::empty(), strict, depth);
    assert(message_bytes(fields) + Seq::<u8>::empty() =~= message_bytes(fields));
    assert(fields + Seq::<(u32, Token)>::empty() =~= fields);
}

proof fn lemma_message_then(
    fields: Seq<(u32, Token)>,
    rest: Seq<u8>,
    strict: bool,
    depth: nat,
)
    requires
        writable(fields),
    ensures
        tokens(message_bytes(fields) + rest, strict, depth) == (match tokens(rest, strict, depth) {
            None => None,
            Some(more) => Some(fields + more),
        }),
    decreases fields.len(),
{
    if fields.len() == 0 {
        assert(message_bytes(fields) + rest =~= rest);
        match tokens(rest, strict, depth) {
            None => {},
            Some(more) => {
                assert(fields + more =~= more);
            },
        }
    } else {
        let before = fields.drop_last();
        let last = fields.last();
        assert(fields[fields.len() - 1] == last);
        assert forall|i: int| 0 <= i < before.len() implies {
            &&& 1 <= (#[trigger] before[i]).0 < 0x2000_0000
            &&& !(before[i].1 is Skipped)
            &&& before[i].1 matches Token::Bytes(b) ==> b.len() < two_to_64()
        } by {
            assert(before[i] == fields[i]);
        }
        lemma_field_reads_back(last.0, last.1, rest, strict, depth);
        lemma_message_then(before, token_bytes(last.0, last.1) + rest, strict, depth);
        assert(message_bytes(fields) + rest =~= message_bytes(before) + (token_bytes(
            last.0,
            last.1,
        ) + rest));
        match tokens(rest, strict, depth) {
            None => {},
            Some(more) => {
                assert(before + (seq![last] + more) =~= fields + more);
            },
        }
    }
}

// ------------------------------------------------------------------------------ flat messages

/// What a field of a flat message holds.
#[derive(Clone, Copy, Debug, PartialEq, Eq, Structural)]
pub enum Kind {
    Bytes,
    Uint32,
    Uint64,
}

/// The content of one field of a flat message.
#[derive(Clone, Debug, PartialEq, Eq)]
pub enum Slot {
    Int(u64),
    Bytes(Vec<u8>),
}

/// The content of one field of a flat message.
#[verifier::ext_equal]
pub enum SlotModel {
    Int(u64),
    Bytes(Seq<u8>),
}

impl View for Slot {
    type V = SlotModel;

    open spec fn view(&self) -> SlotModel {
        match *self {
            Slot::Int(v) => SlotModel::Int(v),
            Slot::Bytes(b) => SlotModel::Bytes(b@),
        }
    }
}

/// The contents of all fields.
pub open spec fn contents(slots: Seq<Slot>) -> Seq<SlotModel> {
    slots.map_values(|s: Slot| s@)
}

/// An absent field.
pub open spec fn absent(kind: Kind) -> SlotModel {
    match kind {
        Kind::Bytes => SlotModel::Bytes(Seq::empty()),
        _ => SlotModel::Int(0),
    }
}

/// A message without any field.
pub open spec fn absent_all(schema: Seq<Kind>) -> Seq<SlotModel> {
    schema.map_values(|k: Kind| absent(k))
}

/// The content that a field of the given kind takes from the wire; `None` for the wrong kind.
pub open spec fn taken(kind: Kind, token: Token) -> Option<SlotModel> {
    match (kind, token) {
        (Kind::Bytes, Token::Bytes(b)) => Some(SlotModel::Bytes(b)),
        (Kind::Uint32, Token::Varint(v)) => Some(
            SlotModel::Int((v as nat % 0x1_0000_0000) as u64),
        ),
        (Kind::Uint64, Token::Varint(v)) => Some(SlotModel::Int(v)),
        _ => None,
    }
}

/// A flat message with the fields of another one written over it: field `i` has tag `i + 1`,
/// other tags are ignored.
pub open spec fn overwritten(
    schema: Seq<Kind>,
    base: Seq<SlotModel>,
    fields: Seq<(u32, Token)>,
) -> Option<Seq<SlotModel>>
    decreases fields.len(),
{
    if fields.len() == 0 {
        Some(base)
    } else {
        match overwritten(schema, base, fields.drop_last()) {
            None => None,
            Some(slots) => {
                let tag = fields.last().0;
                if 1 <= tag <= schema.len() {
                    match taken(schema[tag - 1], fields.last().1) {
                        None => None,
                        Some(slot) => Some(slots.update(tag - 1, slot)),
                    }
                } else {
                    Some(slots)
                }
            },
        }
    }
}

/// The fields of a flat message that are written: all but the absent ones.
pub open spec fn present(slots: Seq<SlotModel>) -> Seq<(u32, Token)>
    decreases slots.len(),
{
    if slots.len() == 0 {
        Seq::empty()
    } else {
        let before = present(slots.drop_last());
        match slots.last() {
            SlotModel::Int(v) => if v == 0 {
                before
            } else {
                before.push((slots.len() as u32, Token::Varint(v)))
            },
            SlotModel::Bytes(b) => if b.len() == 0 {
                before
            } else {
                before.push((slots.len() as u32, Token::Bytes(b)))
            },
        }
    }
}

/// The contents are of the kinds of the schema.
pub open spec fn fits(schema: Seq<Kind>, slots: Seq<SlotModel>) -> bool {
    &&& schema.len() == slots.len()
    &&& schema.len() < 100
    &&& forall|i: int|
        0 <= i < slots.len() ==> match (#[trigger] slots[i], schema[i]) {
            (SlotModel::Bytes(b), Kind::Bytes) => b.len() < two_to_64(),
            (SlotModel::Int(v), Kind::Uint32) => v <= u32::MAX,
            (SlotModel::Int(_), Kind::Uint64) => true,
            _ => false,
        }
}

/// The encoding of a flat message.
pub open spec fn flat_bytes(slots: Seq<SlotModel>) -> Seq<u8> {
    message_bytes(present(slots))
}

/// A flat message read over another one.
pub open spec fn flat_over(
    schema: Seq<Kind>,
    base: Seq<SlotModel>,
    bytes: Seq<u8>,
    depth: nat,
) -> Option<Seq<SlotModel>> {
    match tokens(bytes, true, depth) {
        None => None,
        Some(fields) => overwritten(schema, base, fields),
    }
}

/// Reads a flat message over another one.
pub fn read_flat(schema: &[Kind], base: Vec<Slot>, bytes: &[u8], depth: u32) -> (r: Option<
    Vec<Slot>,
>)
    requires
        schema@.len() == base@.len(),
        schema@.len() < 100,
    ensures
        r is Some <==> flat_over(schema@, contents(base@), bytes@, depth as nat) is Some,
        r matches Some(slots) ==> {
            &&& flat_over(schema@, contents(base@), bytes@, depth as nat) == Some(contents(slots@))
            &&& slots@.len() == schema@.len()
        },
{
    let fields = read_fields(bytes, true, depth)?;
    let ghost all = shown(fields@);
    let ghost start = contents(base@);
    let mut slots = base;
    let mut i: usize = 0;
    assert(all.take(0) =~= Seq::empty());
    while i < fields.len()
        invariant
            i <= fields@.len(),
            all == shown(fields@),
            start == contents(base@),
            schema@.len() < 100,
            slots@.len() == schema@.len(),
            tokens(bytes@, true, depth as nat) == Some(all),
            overwritten(schema@, start, all.take(i as int)) == Some(contents(slots@)),
        decreases fields@.len() - i,
    {
        proof {
            assert(all.take(i + 1).drop_last() =~= all.take(i as int));
            assert(all.take(i + 1).last() == (fields@[i as int].0, fields@[i as int].1@));
        }
        let tag = fields[i].0;
        if 1 <= tag && (tag as usize) <= schema.len() {
            let at: usize = tag as usize - 1;
            let slot = match take_field(schema[at], &fields[i].1) {
                Some(slot) => slot,
                None => {
                    proof {
                        lemma_overwritten_stops(schema@, start, all, i as int + 1);
                    }
                    return None;
                },
            };
            let ghost before = contents(slots@);
            slots.set(at, slot);
            assert(contents(slots@) =~= before.update(at as int, slot@));
        }
        i = i + 1;
    }
    assert(all.take(i as int) =~= all);
    Some(slots)
}

fn take_field(kind: Kind, field: &Field) -> (r: Option<Slot>)
    ensures
        r is Some <==> taken(kind, field@) is Some,
        r matches Some(s) ==> taken(kind, field@) == Some(s@),
{
    match (kind, field) {
        (Kind::Bytes, Field::Bytes(b)) => {
            let mut copy: Vec<u8> = Vec::new();
            append(&mut copy, b.as_slice());
            assert(copy@ =~= b@);
            Some(Slot::Bytes(copy))
        },
        (Kind::Uint32, Field::Varint(v)) => Some(Slot::Int(*v % 0x1_0000_0000)),
        (Kind::Uint64, Field::Varint(v)) => Some(Slot::Int(*v)),
        _ => None,
    }
}

proof fn lemma_overwritten_stops(
    schema: Seq<Kind>,
    base: Seq<SlotModel>,
    fields: Seq<(u32, Token)>,
    n: int,
)
    requires
        0 <= n <= fields.len(),
        overwritten(schema, base, fields.take(n)) is None,
    ensures
        overwritten(schema, base, fields) is None,
    decreases fields.len(),
{
    if n == fields.len() {
        assert(fields.take(n) =~= fields);
    } else {
        assert(fields.drop_last().take(n) =~= fields.take(n));
        lemma_overwritten_stops(schema, base, fields.drop_last(), n);
    }
}

/// Appends the fields of a flat message that are not absent.
pub fn push_flat(out: &mut Vec<u8>, slots: &[Slot])
    requires
        slots@.len() < 100,
    ensures
        final(out)@ == old(out)@ + flat_bytes(contents(slots@)),
{
    let ghost before = out@;
    let ghost all = contents(slots@);
    let mut i: usize = 0;
    assert(all.take(0) =~= Seq::empty());
    assert(before + Seq::<u8>::empty() =~= before);
    while i < slots.len()
        invariant
            i <= slots@.len() < 100,
            all == contents(slots@),
            out@ == before + flat_bytes(all.take(i as int)),
        decreases slots@.len() - i,
    {
        let ghost done = present(all.take(i as int));
        let ghost so_far = out@;
        proof {
            assert(all.take(i + 1).drop_last() =~= all.take(i as int));
            assert(all.take(i + 1).last() == slots@[i as int]@);
        }
        match &slots[i] {
            Slot::Int(v) => {
                if *v != 0 {
                    push_varint_field(out, i as u32 + 1, *v);
                    proof {
                        let next = done.push(((i + 1) as u32, Token::Varint(*v)));
                        assert(next.drop_last() =~= done);
                        assert(present(all.take(i + 1)) == next);
                        assert(out@ =~= before + message_bytes(next));
                    }
                }
            },
            Slot::Bytes(b) => {
                if b.len() != 0 {
                    push_bytes_field(out, i as u32 + 1, b.as_slice());
                    proof {
                        let next = done.push(((i + 1) as u32, Token::Bytes(b@)));
                        assert(next.drop_last() =~= done);
                        assert(present(all.take(i + 1)) == next);
                        assert(out@ =~= before + message_bytes(next));
                    }
                }
            },
        }
        i = i + 1;
    }
    assert(all.take(i as int) =~= all);
}

proof fn lemma_present_is_writable(schema: Seq<Kind>, slots: Seq<SlotModel>)
    requires
        fits(schema, slots),
    ensures
        writable(present(slots)),
    decreases slots.len(),
{
    if slots.len() > 0 {
        let s = slots.drop_last();
        let k = schema.drop_last();
        assert forall|i: int| 0 <= i < s.len() implies match (#[trigger] s[i], k[i]) {
            (SlotModel::Bytes(b), Kind::Bytes) => b.len() < two_to_64(),
            (SlotModel::Int(v), Kind::Uint32) => v <= u32::MAX,
            (SlotModel::Int(_), Kind::Uint64) => true,
            _ => false,
        } by {
            assert(s[i] == slots[i]);
        }
        lemma_present_is_writable(k, s);
        let last = slots[slots.len() - 1];
        assert(slots.last() == last);
    }
}

proof fn lemma_present_rebuilds(schema: Seq<Kind>, slots: Seq<SlotModel>, n: int)
    requires
        fits(schema, slots),
        0 <= n <= slots.len(),
    ensures
        overwritten(schema, absent_all(schema), present(slots.take(n))) == Some(
            slots.take(n) + absent_all(schema).skip(n),
        ),
    decreases n,
{
    let none = absent_all(schema);
    if n == 0 {
        assert(slots.take(0) =~= Seq::empty());
        assert(slots.take(0) + none.skip(0) =~= none);
    } else {
        lemma_present_rebuilds(schema, slots, n - 1);
        let before = slots.take(n - 1) + none.skip(n - 1);
        let after = slots.take(n) + none.skip(n);
        let s = slots[n - 1];
        assert(slots.take(n).drop_last() =~= slots.take(n - 1));
        assert(slots.take(n).last() == s);
        assert(none[n - 1] == absent(schema[n - 1]));
        let fields = present(slots.take(n - 1));
        match s {
            SlotModel::Int(v) => {
                if v == 0 {
                    assert(before =~= after);
                } else {
                    let next = fields.push((n as u32, Token::Varint(v)));
                    assert(next.drop_last() =~= fields);
                    assert(before.update(n - 1, s) =~= after);
                }
            },
            SlotModel::Bytes(b) => {
                if b.len() == 0 {
                    assert(b =~= Seq::empty());
                    assert(before =~= after);
                } else {
                    let next = fields.push((n as u32, Token::Bytes(b)));
                    assert(next.drop_last() =~= fields);
                    assert(before.update(n - 1, s) =~= after);
                }
            },
        }
    }
}

/// Reading a written flat message gives its contents back.
pub proof fn flat_message_reads_back(schema: Seq<Kind>, slots: Seq<SlotModel>, depth: nat)
    requires
        fits(schema, slots),
    ensures
        flat_over(schema, absent_all(schema), flat_bytes(slots), depth) == Some(slots),
{
    lemma_present_is_writable(schema, slots);
    written_message_reads_back(present(slots), true, depth);
    lemma_present_rebuilds(schema, slots, slots.len() as int);
    assert(slots.take(slots.len() as int) =~= slots);
    assert(slots + absent_all(schema).skip(slots.len() as int) =~= slots);
}

/// One more field.
pub proof fn lemma_message_push(fields: Seq<(u32, Token)>, tag: u32, token: Token)
    ensures
        message_bytes(fields.push((tag, token))) == message_bytes(fields) + token_bytes(tag, token),
{
    assert(fields.push((tag, token)).drop_last() =~= fields);
}

// ------------------------------------------------------------------------------ concatenation

proof fn lemma_leb128_extends(a: Seq<u8>, b: Seq<u8>, room: nat)
    requires
        leb128(a, room) is Some,
    ensures
        leb128(a + b, room) == leb128(a, room),
    decreases room,
{
    if a[0] >= 128 {
        lemma_leb128_extends(a.drop_first(), b, (room - 1) as nat);
        assert((a + b).drop_first() =~= a.drop_first() + b);
    }
}

/// A varint does not depend on what comes after it.
proof fn lemma_varint_extends(a: Seq<u8>, b: Seq<u8>, strict: bool)
    requires
        varint(a, strict) is Some,
    ensures
        varint(a + b, strict) == varint(a, strict),
        varint(a, strict) matches Some(v) && 1 <= v.1 <= a.len(),
{
    lemma_leb128_bounds(a, 10);
    lemma_leb128_extends(a, b, 10);
}

/// Nor does a field that is skipped.
proof fn lemma_skipped_extends(a: Seq<u8>, b: Seq<u8>, tag: u32, wire: nat, depth: nat)
    requires
        skipped(a, tag, wire, depth) is Some,
    ensures
        skipped(a + b, tag, wire, depth) == skipped(a, tag, wire, depth),
        skipped(a, tag, wire, depth)->0 <= a.len(),
    decreases depth, a.len(), 1nat,
{
    if wire == 0 || wire == 2 {
        lemma_varint_extends(a, b, true);
    } else if wire == 3 {
        lemma_group_extends(a, b, tag, depth);
    }
}

proof fn lemma_group_extends(a: Seq<u8>, b: Seq<u8>, tag: u32, depth: nat)
    requires
        skipped_group(a, tag, depth) is Some,
    ensures
        skipped_group(a + b, tag, depth) == skipped_group(a, tag, depth),
        skipped_group(a, tag, depth)->0 <= a.len(),
    decreases depth, a.len(), 0nat,
{
    lemma_varint_extends(a, b, true);
    let key = field_key(a, true)->0;
    assert(field_key(a + b, true) == Some(key));
    if key.1 != 4 {
        let tail = a.skip(key.2 as int);
        lemma_skipped_extends(tail, b, key.0, key.1, (depth - 1) as nat);
        assert((a + b).skip(key.2 as int) =~= tail + b);
        let n = skipped(tail, key.0, key.1, (depth - 1) as nat)->0;
        let rest = a.skip((key.2 + n) as int);
        assert((a + b).skip((key.2 + n) as int) =~= rest + b);
        lemma_group_extends(rest, b, tag, depth);
    }
}

/// Nor does the value of a field.
proof fn lemma_value_extends(
    a: Seq<u8>,
    b: Seq<u8>,
    tag: u32,
    wire: nat,
    strict: bool,
    depth: nat,
)
    requires
        field_value(a, tag, wire, strict, depth) is Some,
    ensures
        field_value(a + b, tag, wire, strict, depth) == field_value(a, tag, wire, strict, depth),
{
    if wire == 0 || wire == 2 {
        lemma_varint_extends(a, b, strict);
        if wire == 2 {
            let v = varint(a, strict)->0;
            assert((a + b).subrange(v.1 as int, v.1 + v.0) =~= a.subrange(v.1 as int, v.1 + v.0));
        }
    } else {
        lemma_skipped_extends(a, b, tag, wire, depth);
    }
}

/// The first field of a message and the bytes it takes, whatever comes after the message.
proof fn lemma_first_field_stays(a: Seq<u8>, b: Seq<u8>, strict: bool, depth: nat) -> (r: (
    int,
    (u32, Token),
))
    requires
        a.len() > 0,
        tokens(a, strict, depth) is Some,
    ensures
        0 < r.0 <= a.len(),
        tokens(a.skip(r.0), strict, depth) is Some,
        tokens(a, strict, depth) == Some(seq![r.1] + tokens(a.skip(r.0), strict, depth)->0),
        tokens(a + b, strict, depth) == (match tokens(a.skip(r.0) + b, strict, depth) {
            None => None,
            Some(rest) => Some(seq![r.1] + rest),
        }),
{
    lemma_varint_extends(a, b, strict);
    let key = field_key(a, strict)->0;
    assert(field_key(a + b, strict) == Some(key));
    let tail = a.skip(key.2 as int);
    let value = field_value(tail, key.0, key.1, strict, depth)->0;
    lemma_value_extends(tail, b, key.0, key.1, strict, depth);
    assert((a + b).skip(key.2 as int) =~= tail + b);
    let n = (key.2 + value.1) as int;
    assert((a + b).skip(n) =~= a.skip(n) + b);
    lemma_tokens_step(a + b, strict, depth, key.0, key.1, key.2, value.0, value.1);
    (n, (key.0, value.0))
}

/// The fields of a concatenation are those of the first part, in order, and then those of the
/// second; if the second cannot be read, neither can the concatenation.
pub proof fn concatenated_messages_have_all_fields(
    a: Seq<u8>,
    b: Seq<u8>,
    strict: bool,
    depth: nat,
)
    requires
        tokens(a, strict, depth) is Some,
    ensures
        tokens(Seq::<u8>::empty(), strict, depth) == Some(Seq::<(u32, Token)>::empty()),
        tokens(a + b, strict, depth) == (match tokens(b, strict, depth) {
            None => None,
            Some(fields) => Some(tokens(a, strict, depth)->0 + fields),
        }),
    decreases a.len(),
{
    if a.len() == 0 {
        assert(a + b =~= b);
        if tokens(b, strict, depth) is Some {
            let fields = tokens(b, strict, depth)->0;
            assert(tokens(a, strict, depth)->0 + fields =~= fields);
        }
    } else {
        let (n, field) = lemma_first_field_stays(a, b, strict, depth);
        let rest = a.skip(n);
        concatenated_messages_have_all_fields(rest, b, strict, depth);
        if tokens(b, strict, depth) is Some {
            let x = tokens(rest, strict, depth)->0;
            let y = tokens(b, strict, depth)->0;
            assert(seq![field] + (x + y) =~= (seq![field] + x) + y);
        }
    }
}

/// The number that groups of seven bits make, the lowest first.
pub open spec fn grouped(bytes: Seq<u8>) -> nat
    decreases bytes.len(),
{
    if bytes.len() == 0 {
        0
    } else {
        (bytes[0] % 128) as nat + 128 * grouped(bytes.drop_first())
    }
}

proof fn lemma_leb128_groups(bytes: Seq<u8>, room: nat)
    ensures
        match leb128(bytes, room) {
            Some((v, n)) => {
                &&& 1 <= n <= room && n <= bytes.len()
                &&& bytes[n - 1] < 128
                &&& forall|i: int| 0 <= i < n - 1 ==> #[trigger] bytes[i] >= 128
                &&& v == grouped(bytes.take(n as int))
            },
            None => forall|i: int|
                0 <= i < room && i < bytes.len() ==> #[trigger] bytes[i] >= 128,
        },
    decreases room,
{
    if room > 0 && bytes.len() > 0 {
        let rest = bytes.drop_first();
        lemma_leb128_groups(rest, (room - 1) as nat);
        assert(forall|i: int| 0 < i < bytes.len() ==> #[trigger] bytes[i] == rest[i - 1]);
        if bytes[0] < 128 {
            assert(bytes.take(1).drop_first() =~= Seq::empty());
            assert(grouped(bytes.take(1).drop_first()) == 0);
        } else {
            match leb128(rest, (room - 1) as nat) {
                Some((v, n)) => {
                    assert(bytes.take(n as int + 1).drop_first() =~= rest.take(n as int));
                    assert(bytes[n as int] == rest[n - 1]);
                },
                None => {},
            }
        }
    }
}

/// A varint is up to ten bytes, all but the last with the highest bit set, and its value is that
/// of their groups of seven bits, below 2^64: a strict reader refuses a larger one, and another
/// one keeps its low 64 bits.
pub proof fn a_varint_is_its_groups(bytes: Seq<u8>, strict: bool)
    ensures
        match varint(bytes, strict) {
            Some((v, n)) => {
                let value = grouped(bytes.take(n as int));
                &&& 1 <= n <= 10 && n <= bytes.len()
                &&& bytes[n - 1] < 128
                &&& forall|i: int| 0 <= i < n - 1 ==> #[trigger] bytes[i] >= 128
                &&& v == value % 0x1_0000_0000_0000_0000
                &&& strict ==> v == value
            },
            None => forall|n: int|
                1 <= n <= 10 && n <= bytes.len() && (#[trigger] bytes[n - 1]) < 128 ==> strict
                    && (exists|k: int|
                    1 <= k <= n && grouped(#[trigger] bytes.take(k)) >= 0x1_0000_0000_0000_0000),
        },
{
    lemma_leb128_groups(bytes, 10);
    if varint(bytes, strict) is None {
        assert forall|n: int| 1 <= n <= 10 && n <= bytes.len() && (#[trigger] bytes[n - 1])
            < 128 implies strict && (exists|k: int|
            1 <= k <= n && grouped(#[trigger] bytes.take(k)) >= 0x1_0000_0000_0000_0000) by {
            let (v, k) = leb128(bytes, 10)->0;
            assert(k <= n) by {
                if n < k {
                    assert(bytes[n - 1] >= 128);
                }
            }
            assert(grouped(bytes.take(k as int)) == v);
        }
    }
    if let Some((value, _)) = leb128(bytes, 10) {
        if value < two_to_64() {
            vstd::arithmetic::div_mod::lemma_small_mod(value, two_to_64());
        }
    }
}

/// A message is a key and its value, and then the rest of the message. The key is a varint of tag
/// and wire type; a varint or a counted byte string follows, and a strict reader skips what it
/// does not know and wants a tag and a key of 32 bits.
pub proof fn a_message_is_a_field_and_the_rest(bytes: Seq<u8>, strict: bool, depth: nat)
    requires
        bytes.len() > 0,
        tokens(bytes, strict, depth) is Some,
    ensures
        ({
            let fields = tokens(bytes, strict, depth)->0;
            let (key, k) = varint(bytes, strict)->0;
            let after = bytes.skip(k as int);
            let (number, n) = varint(after, strict)->0;
            let first = fields[0];
            &&& fields.len() > 0
            &&& varint(bytes, strict) is Some
            &&& first.0 == key / 8
            &&& strict ==> key <= 0xffff_ffff && key / 8 != 0 && key % 8 <= 5
            &&& key % 8 == 0 ==> {
                &&& varint(after, strict) is Some
                &&& first.1 == Token::Varint(number)
                &&& tokens(bytes.skip((k + n) as int), strict, depth) == Some(fields.drop_first())
            }
            &&& key % 8 == 2 ==> {
                &&& varint(after, strict) is Some
                &&& k + n + number <= bytes.len()
                &&& first.1 == Token::Bytes(bytes.subrange((k + n) as int, k + n + number))
                &&& tokens(bytes.skip((k + n + number) as int), strict, depth) == Some(
                    fields.drop_first(),
                )
            }
            &&& key % 8 != 0 && key % 8 != 2 ==> strict && first.1 is Skipped
            &&& key % 8 == 1 ==> tokens(bytes.skip((k + 8) as int), strict, depth) == Some(
                fields.drop_first(),
            )
            &&& key % 8 == 5 ==> tokens(bytes.skip((k + 4) as int), strict, depth) == Some(
                fields.drop_first(),
            )
            &&& key % 8 != 4
        }),
{
    let fields = tokens(bytes, strict, depth)->0;
    let key = field_key(bytes, strict)->0;
    let value = field_value(bytes.skip(key.2 as int), key.0, key.1, strict, depth)->0;
    let rest = tokens(bytes.skip((key.2 + value.1) as int), strict, depth)->0;
    assert(fields == seq![(key.0, value.0)] + rest);
    assert(fields.drop_first() =~= rest);
    lemma_leb128_groups(bytes, 10);
    if key.1 == 2 {
        let (number, n) = varint(bytes.skip(key.2 as int), strict)->0;
        lemma_leb128_groups(bytes.skip(key.2 as int), 10);
        assert(bytes.skip(key.2 as int).subrange(n as int, n + number) =~= bytes.subrange(
            (key.2 + n) as int,
            key.2 + n + number,
        ));
    }
}

/// Whether a field is the last one with its tag.
pub open spec fn is_last_of_its_tag(fields: Seq<(u32, Token)>, i: int) -> bool {
    &&& 0 <= i < fields.len()
    &&& forall|j: int| i < j < fields.len() ==> (#[trigger] fields[j]).0 != fields[i].0
}

/// Whether a field of a flat message has the kind that its schema wants.
pub open spec fn is_of_kind(kind: Kind, token: Token) -> bool {
    match token {
        Token::Bytes(_) => kind == Kind::Bytes,
        Token::Varint(_) => kind != Kind::Bytes,
        Token::Skipped => false,
    }
}

/// What a field of a flat message holds: bytes, or a number, of which a field of 32 bits keeps the
/// low ones.
pub open spec fn held(kind: Kind, token: Token) -> SlotModel {
    match token {
        Token::Bytes(b) => SlotModel::Bytes(b),
        Token::Varint(v) => SlotModel::Int(
            if kind == Kind::Uint32 {
                (v % 0x1_0000_0000) as u64
            } else {
                v
            },
        ),
        Token::Skipped => SlotModel::Int(0),
    }
}

/// A flat message is read where every field that the schema knows is of its kind. The last field
/// with a tag counts, a slot without a field stays as it was, and tags that the schema does not
/// know are passed over.
pub proof fn the_last_field_counts(
    schema: Seq<Kind>,
    base: Seq<SlotModel>,
    fields: Seq<(u32, Token)>,
)
    requires
        base.len() == schema.len(),
    ensures
        overwritten(schema, base, fields) is Some <==> forall|i: int|
            0 <= i < fields.len() && 1 <= (#[trigger] fields[i]).0 <= schema.len() ==> is_of_kind(
                schema[fields[i].0 - 1],
                fields[i].1,
            ),
        overwritten(schema, base, fields) matches Some(slots) ==> {
            &&& slots.len() == base.len()
            &&& forall|i: int|
                #[trigger] is_last_of_its_tag(fields, i) && 1 <= fields[i].0 <= schema.len()
                    ==> slots[fields[i].0 - 1] == held(schema[fields[i].0 - 1], fields[i].1)
            &&& forall|s: int|
                0 <= s < base.len() && (forall|i: int|
                    0 <= i < fields.len() ==> (#[trigger] fields[i]).0 != s + 1)
                    ==> #[trigger] slots[s] == base[s]
        },
    decreases fields.len(),
{
    if fields.len() > 0 {
        let front = fields.drop_last();
        let last = fields.last();
        the_last_field_counts(schema, base, front);
        assert(forall|i: int| 0 <= i < front.len() ==> front[i] == fields[i]);
        assert(fields[fields.len() - 1] == last);
        if let Some(slots) = overwritten(schema, base, fields) {
            let before = overwritten(schema, base, front)->0;
            assert forall|i: int|
                #[trigger] is_last_of_its_tag(fields, i) && 1 <= fields[i].0
                    <= schema.len() implies slots[fields[i].0 - 1] == held(
                schema[fields[i].0 - 1],
                fields[i].1,
            ) by {
                if i < front.len() {
                    assert(fields[fields.len() - 1].0 != fields[i].0);
                    assert(is_last_of_its_tag(front, i)) by {
                        assert forall|j: int| i < j < front.len() implies (#[trigger] front[j]).0
                            != front[i].0 by {
                            assert(front[j] == fields[j]);
                        }
                    }
                }
            }
            assert forall|s: int|
                0 <= s < base.len() && (forall|i: int|
                    0 <= i < fields.len() ==> (#[trigger] fields[i]).0 != s
                        + 1) implies #[trigger] slots[s] == base[s] by {
                assert forall|i: int| 0 <= i < front.len() implies (#[trigger] front[i]).0 != s
                    + 1 by {
                    assert(front[i] == fields[i]);
                }
                assert(before[s] == base[s]);
                assert(fields[fields.len() - 1].0 != s + 1);
            }
        } else {
            if forall|i: int|
                0 <= i < fields.len() && 1 <= (#[trigger] fields[i]).0 <= schema.len()
                    ==> is_of_kind(schema[fields[i].0 - 1], fields[i].1) {
                assert forall|i: int|
                    0 <= i < front.len() && 1 <= (#[trigger] front[i]).0
                        <= schema.len() implies is_of_kind(schema[front[i].0 - 1], front[i].1) by {
                    assert(front[i] == fields[i]);
                }
            }
        }
    }
}

/// A field that no message has is skipped whole: a varint, eight or four bytes, a counted byte
/// string, or a group up to its end, which has the tag of its start. There is nothing else to
/// skip, and groups nest no deeper than allowed.
pub proof fn an_unknown_field_is_skipped_whole(bytes: Seq<u8>, tag: u32, wire: nat, depth: nat)
    ensures
        depth == 0 ==> skipped(bytes, tag, wire, depth) is None,
        depth > 0 ==> {
            let number = varint(bytes, true);
            let r = skipped(bytes, tag, wire, depth);
            &&& wire == 0 ==> (r is Some <==> number is Some)
            &&& wire == 0 && r is Some ==> (number matches Some((_, n)) && r->0 == n)
            &&& wire == 1 ==> r == (if bytes.len() >= 8 {
                Some(8nat)
            } else {
                None
            })
            &&& wire == 5 ==> r == (if bytes.len() >= 4 {
                Some(4nat)
            } else {
                None
            })
            &&& wire == 2 ==> (r is Some <==> (number matches Some((v, n)) && n + v <= bytes.len()))
            &&& wire == 2 && r is Some ==> (number matches Some((v, n)) && r->0 == n + v)
            &&& wire == 4 || wire > 5 ==> r is None
            &&& wire == 3 ==> match number {
                None => r is None,
                Some((key, n)) => {
                    &&& key > 0xffff_ffff || key / 8 == 0 || key % 8 > 5 ==> r is None
                    &&& key <= 0xffff_ffff && key % 8 == 4 && key / 8 != 0 && key / 8 == tag ==> r
                        == Some(n)
                    &&& key <= 0xffff_ffff && key % 8 == 4 && key / 8 != tag ==> r is None
                    &&& key % 8 != 4 && depth == 1 ==> r is None
                },
            }
        },
{
    reveal_with_fuel(skipped, 2);
    reveal_with_fuel(skipped_group, 2);
}

} // verus!
