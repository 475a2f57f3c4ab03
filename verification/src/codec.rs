//! The binary wire format of the pipeline.
//!
//! Every message is a flat little-endian record. Strings are length-prefixed:
//! a `u32` character count followed by each character as a `u32` code point.
//! Executions are a tagged variant: INSERTED is 0, CANCELLED is 1, FILL is 2
//! and PARTIAL is 3; FILL and PARTIAL are followed by the trade price and
//! quantity as `u64`s.
//!
//! Encoding and decoding are exact inverses: `spec_parse_*` succeeds on a
//! byte string exactly when it is `spec_encode_*` of some value, and then
//! yields that value.

use vstd::prelude::*;
use vstd::bytes::*;

use crate::order::ExecuteMessage;
use crate::order::Execution;
use crate::order::OrderType;
use crate::order::OrderValue;
use crate::order::OrderValueView;
use crate::order::OrderView;
use crate::order::RawOrder;
use crate::order::Side;

verus! {

/// A message whose bytes are not an encoding of the expected type.
#[derive(Debug, Clone, Copy, PartialEq, Eq, Structural)]
pub enum CodecError {
    Malformed,
}

/// True of the code points that are unicode scalar values, i.e. of the
/// values a `char` can hold.
pub open spec fn is_scalar_value(w: u32) -> bool {
    w < 0xD800 || (0xE000 <= w && w <= 0x10FFFF)
}

/// Relies on char::from_u32: it returns `Some` exactly on unicode scalar
/// values, and then the `char` with that code point.
#[verifier::external_body]
fn char_from_u32(w: u32) -> (r: Option<char>)
    ensures
        r == (if is_scalar_value(w) {
            Some(w as char)
        } else {
            None::<char>
        }),
{
    char::from_u32(w)
}

/// Relies on String's FromIterator over `char`: collecting yields a string
/// of exactly those characters.
#[verifier::external_body]
fn string_from_chars(v: &Vec<char>) -> (r: String)
    ensures
        r@ == v@,
{
    v.iter().collect()
}

pub open spec fn side_tag(s: Side) -> u8 {
    match s {
        Side::ASK => 0u8,
        Side::BID => 1u8,
    }
}

pub open spec fn order_type_tag(t: OrderType) -> u8 {
    match t {
        OrderType::LIMIT => 0u8,
        OrderType::MARKET => 1u8,
    }
}

/// The characters of `s`, each encoded as its code point in four
/// little-endian bytes.
pub open spec fn spec_encode_chars(s: Seq<char>) -> Seq<u8>
    decreases s.len(),
{
    if s.len() == 0 {
        Seq::<u8>::empty()
    } else {
        spec_u32_to_le_bytes(s[0] as u32) + spec_encode_chars(s.drop_first())
    }
}

/// A length-prefixed string: the character count as a `u32`, then the
/// characters.
pub open spec fn spec_encode_str(s: Seq<char>) -> Seq<u8> {
    spec_u32_to_le_bytes(s.len() as u32) + spec_encode_chars(s)
}

pub open spec fn spec_encode_execution(e: Execution) -> Seq<u8> {
    match e {
        Execution::INSERTED => seq![0u8],
        Execution::CANCELLED => seq![1u8],
        Execution::FILL(p, q) => seq![2u8] + spec_u64_to_le_bytes(p) + spec_u64_to_le_bytes(q),
        Execution::PARTIAL(p, q) => seq![3u8] + spec_u64_to_le_bytes(p) + spec_u64_to_le_bytes(q),
    }
}

pub open spec fn spec_encode_execute_message(m: ExecuteMessage) -> Seq<u8> {
    spec_u128_to_le_bytes(m.seq_id) + spec_encode_execution(m.execution)
}

pub open spec fn spec_encode_raw_order(o: OrderView) -> Seq<u8> {
    spec_u128_to_le_bytes(o.seq_id) + spec_encode_str(o.order_id) + spec_encode_str(o.quote)
        + spec_u64_to_le_bytes(o.price) + spec_u64_to_le_bytes(o.size) + seq![side_tag(o.side)]
        + seq![order_type_tag(o.order_type)]
}

pub open spec fn spec_encode_order_value(o: OrderValueView) -> Seq<u8> {
    spec_encode_str(o.order_id) + spec_encode_str(o.quote) + spec_u64_to_le_bytes(o.price)
        + spec_u64_to_le_bytes(o.size) + seq![side_tag(o.side)] + seq![order_type_tag(
        o.order_type,
    )]
}

// ---------- parsing, as a deterministic spec ----------

/// Read a `u32` at `pos`; yields the value and the next position.
pub open spec fn parse_u32_at(b: Seq<u8>, pos: int) -> Option<(u32, int)> {
    if 0 <= pos && pos + 4 <= b.len() {
        Some((spec_u32_from_le_bytes(b.subrange(pos, pos + 4)), pos + 4))
    } else {
        None
    }
}

pub open spec fn parse_u64_at(b: Seq<u8>, pos: int) -> Option<(u64, int)> {
    if 0 <= pos && pos + 8 <= b.len() {
        Some((spec_u64_from_le_bytes(b.subrange(pos, pos + 8)), pos + 8))
    } else {
        None
    }
}

pub open spec fn parse_u128_at(b: Seq<u8>, pos: int) -> Option<(u128, int)> {
    if 0 <= pos && pos + 16 <= b.len() {
        Some((spec_u128_from_le_bytes(b.subrange(pos, pos + 16)), pos + 16))
    } else {
        None
    }
}

/// Read `n` characters, each a four-byte code point that must be a scalar
/// value.
pub open spec fn parse_chars_at(b: Seq<u8>, pos: int, n: nat) -> Option<(Seq<char>, int)>
    decreases n,
{
    if n == 0 {
        Some((Seq::<char>::empty(), pos))
    } else {
        match parse_u32_at(b, pos) {
            None => None,
            Some((w, p1)) => if is_scalar_value(w) {
                match parse_chars_at(b, p1, (n - 1) as nat) {
                    None => None,
                    Some((s, p2)) => Some((seq![w as char] + s, p2)),
                }
            } else {
                None
            },
        }
    }
}

/// Read a length-prefixed string.
pub open spec fn parse_str_at(b: Seq<u8>, pos: int) -> Option<(Seq<char>, int)> {
    match parse_u32_at(b, pos) {
        None => None,
        Some((n, p1)) => parse_chars_at(b, p1, n as nat),
    }
}

/// Read a tagged execution variant.
pub open spec fn parse_execution_at(b: Seq<u8>, pos: int) -> Option<(Execution, int)> {
    if 0 <= pos && pos + 1 <= b.len() {
        let tag = b[pos];
        if tag == 0u8 {
            Some((Execution::INSERTED, pos + 1))
        } else if tag == 1u8 {
            Some((Execution::CANCELLED, pos + 1))
        } else if tag == 2u8 || tag == 3u8 {
            match parse_u64_at(b, pos + 1) {
                None => None,
                Some((p, p1)) => match parse_u64_at(b, p1) {
                    None => None,
                    Some((q, p2)) => if tag == 2u8 {
                        Some((Execution::FILL(p, q), p2))
                    } else {
                        Some((Execution::PARTIAL(p, q), p2))
                    },
                },
            }
        } else {
            None
        }
    } else {
        None
    }
}

/// Parse a whole execute message; the bytes must be consumed exactly.
pub open spec fn spec_parse_execute_message(b: Seq<u8>) -> Option<ExecuteMessage> {
    match parse_u128_at(b, 0) {
        None => None,
        Some((seq_id, p1)) => match parse_execution_at(b, p1) {
            None => None,
            Some((e, p2)) => if p2 == b.len() {
                Some(ExecuteMessage { seq_id, execution: e })
            } else {
                None
            },
        },
    }
}

pub open spec fn parse_side_at(b: Seq<u8>, pos: int) -> Option<(Side, int)> {
    if 0 <= pos && pos + 1 <= b.len() {
        if b[pos] == 0u8 {
            Some((Side::ASK, pos + 1))
        } else if b[pos] == 1u8 {
            Some((Side::BID, pos + 1))
        } else {
            None
        }
    } else {
        None
    }
}

pub open spec fn parse_order_type_at(b: Seq<u8>, pos: int) -> Option<(OrderType, int)> {
    if 0 <= pos && pos + 1 <= b.len() {
        if b[pos] == 0u8 {
            Some((OrderType::LIMIT, pos + 1))
        } else if b[pos] == 1u8 {
            Some((OrderType::MARKET, pos + 1))
        } else {
            None
        }
    } else {
        None
    }
}

/// Parse a whole sequenced order; the bytes must be consumed exactly.
pub open spec fn spec_parse_raw_order(b: Seq<u8>) -> Option<OrderView> {
    match parse_u128_at(b, 0) {
        None => None,
        Some((seq_id, p1)) => match parse_str_at(b, p1) {
            None => None,
            Some((order_id, p2)) => match parse_str_at(b, p2) {
                None => None,
                Some((quote, p3)) => match parse_u64_at(b, p3) {
                    None => None,
                    Some((price, p4)) => match parse_u64_at(b, p4) {
                        None => None,
                        Some((size, p5)) => match parse_side_at(b, p5) {
                            None => None,
                            Some((side, p6)) => match parse_order_type_at(b, p6) {
                                None => None,
                                Some((order_type, p7)) => if p7 == b.len() {
                                    Some(
                                        OrderView {
                                            seq_id,
                                            order_id,
                                            quote,
                                            price,
                                            size,
                                            side,
                                            order_type,
                                        },
                                    )
                                } else {
                                    None
                                },
                            },
                        },
                    },
                },
            },
        },
    }
}

/// Parse a whole client submission; the bytes must be consumed exactly.
pub open spec fn spec_parse_order_value(b: Seq<u8>) -> Option<OrderValueView> {
    match parse_str_at(b, 0) {
        None => None,
        Some((order_id, p1)) => match parse_str_at(b, p1) {
            None => None,
            Some((quote, p2)) => match parse_u64_at(b, p2) {
                None => None,
                Some((price, p3)) => match parse_u64_at(b, p3) {
                    None => None,
                    Some((size, p4)) => match parse_side_at(b, p4) {
                        None => None,
                        Some((side, p5)) => match parse_order_type_at(b, p5) {
                            None => None,
                            Some((order_type, p6)) => if p6 == b.len() {
                                Some(
                                    OrderValueView {
                                        order_id,
                                        quote,
                                        price,
                                        size,
                                        side,
                                        order_type,
                                    },
                                )
                            } else {
                                None
                            },
                        },
                    },
                },
            },
        },
    }
}

} // verus!

// ---------- facts about the encoding ----------

verus! {

pub proof fn lemma_encode_chars_len(s: Seq<char>)
    ensures
        spec_encode_chars(s).len() == 4 * s.len(),
    decreases s.len(),
{
    vstd::bytes::lemma_auto_spec_u32_to_from_le_bytes();
    if s.len() > 0 {
        lemma_encode_chars_len(s.drop_first());
    }
}

pub proof fn lemma_encode_chars_concat(a: Seq<char>, b: Seq<char>)
    ensures
        spec_encode_chars(a + b) == spec_encode_chars(a) + spec_encode_chars(b),
    decreases a.len(),
{
    if a.len() == 0 {
        assert(a + b =~= b);
        assert(spec_encode_chars(a) + spec_encode_chars(b) =~= spec_encode_chars(b));
    } else {
        assert((a + b).drop_first() =~= a.drop_first() + b);
        lemma_encode_chars_concat(a.drop_first(), b);
        assert(spec_u32_to_le_bytes((a + b)[0] as u32) + (spec_encode_chars(a.drop_first())
            + spec_encode_chars(b)) =~= (spec_u32_to_le_bytes(a[0] as u32) + spec_encode_chars(
            a.drop_first(),
        )) + spec_encode_chars(b));
    }
}

/// Reading back `n` characters from their own encoding yields them exactly.
pub proof fn lemma_parse_chars_of_encode(b: Seq<u8>, pos: int, s: Seq<char>)
    requires
        0 <= pos,
        pos + 4 * s.len() <= b.len(),
        b.subrange(pos, pos + 4 * s.len()) == spec_encode_chars(s),
    ensures
        parse_chars_at(b, pos, s.len()) == Some((s, pos + 4 * s.len())),
    decreases s.len(),
{
    vstd::bytes::lemma_auto_spec_u32_to_from_le_bytes();
    if s.len() == 0 {
    } else {
        lemma_encode_chars_len(s.drop_first());
        let enc0 = spec_u32_to_le_bytes(s[0] as u32);
        assert(b.subrange(pos, pos + 4) =~= spec_encode_chars(s).subrange(0, 4));
        assert(spec_encode_chars(s).subrange(0, 4) =~= enc0);
        let w = spec_u32_from_le_bytes(b.subrange(pos, pos + 4));
        assert(w == s[0] as u32);
        vstd::utf8::char_is_scalar(s[0]);
        assert(is_scalar_value(w));
        vstd::utf8::char_u32_cast(s[0], w);
        assert(w as char == s[0]);
        assert(b.subrange(pos + 4, pos + 4 + 4 * s.drop_first().len()) =~= spec_encode_chars(
            s,
        ).subrange(4, 4 + 4 * s.drop_first().len() as int));
        assert(spec_encode_chars(s).subrange(4, 4 + 4 * s.drop_first().len() as int) =~= spec_encode_chars(
            s.drop_first(),
        ));
        lemma_parse_chars_of_encode(b, pos + 4, s.drop_first());
        assert(seq![w as char] + s.drop_first() =~= s);
    }
}

/// Reading back a length-prefixed string from its own encoding, inside a
/// larger record, yields it exactly.
pub proof fn lemma_parse_str_of_encode(b: Seq<u8>, pos: int, s: Seq<char>)
    requires
        0 <= pos,
        s.len() <= u32::MAX,
        pos + spec_encode_str(s).len() <= b.len(),
        b.subrange(pos, pos + spec_encode_str(s).len()) == spec_encode_str(s),
    ensures
        parse_str_at(b, pos) == Some((s, pos + spec_encode_str(s).len())),
{
    vstd::bytes::lemma_auto_spec_u32_to_from_le_bytes();
    lemma_encode_chars_len(s);
    let e = spec_encode_str(s);
    assert(e.len() == 4 + 4 * s.len());
    assert(b.subrange(pos, pos + 4) =~= e.subrange(0, 4));
    assert(e.subrange(0, 4) =~= spec_u32_to_le_bytes(s.len() as u32));
    let n = spec_u32_from_le_bytes(b.subrange(pos, pos + 4));
    assert(n == s.len() as u32);
    assert(b.subrange(pos + 4, pos + 4 + 4 * s.len()) =~= e.subrange(4, 4 + 4 * s.len() as int));
    assert(e.subrange(4, 4 + 4 * s.len() as int) =~= spec_encode_chars(s));
    lemma_parse_chars_of_encode(b, pos + 4, s);
}

} // verus!

// ---------- executable encoding ----------

verus! {

fn push_u32(out: &mut Vec<u8>, x: u32)
    ensures
        final(out)@ == old(out)@ + spec_u32_to_le_bytes(x),
{
    let mut b = u32_to_le_bytes(x);
    out.append(&mut b);
}

fn push_u64(out: &mut Vec<u8>, x: u64)
    ensures
        final(out)@ == old(out)@ + spec_u64_to_le_bytes(x),
{
    let mut b = u64_to_le_bytes(x);
    out.append(&mut b);
}

fn push_u128(out: &mut Vec<u8>, x: u128)
    ensures
        final(out)@ == old(out)@ + spec_u128_to_le_bytes(x),
{
    let mut b = u128_to_le_bytes(x);
    out.append(&mut b);
}

fn side_byte(s: Side) -> (r: u8)
    ensures
        r == side_tag(s),
{
    match s {
        Side::ASK => 0,
        Side::BID => 1,
    }
}

fn order_type_byte(t: OrderType) -> (r: u8)
    ensures
        r == order_type_tag(t),
{
    match t {
        OrderType::LIMIT => 0,
        OrderType::MARKET => 1,
    }
}

/// Append the length-prefixed encoding of `s`.
fn encode_str_into(out: &mut Vec<u8>, s: &String)
    requires
        s@.len() <= u32::MAX,
    ensures
        final(out)@ == old(out)@ + spec_encode_str(s@),
{
    let n = s.as_str().unicode_len();
    push_u32(out, n as u32);
    let mut i: usize = 0;
    while i < n
        invariant
            n == s@.len(),
            n <= u32::MAX,
            i <= n,
            out@ == old(out)@ + spec_u32_to_le_bytes(n as u32) + spec_encode_chars(
                s@.take(i as int),
            ),
        decreases n - i,
    {
        let c = s.as_str().get_char(i);
        proof {
            assert(s@.take(i + 1) =~= s@.take(i as int) + seq![s@[i as int]]);
            lemma_encode_chars_concat(s@.take(i as int), seq![s@[i as int]]);
            let single = seq![s@[i as int]];
            assert(single.drop_first() =~= Seq::<char>::empty());
            assert(spec_encode_chars(single.drop_first()) =~= Seq::<u8>::empty());
            assert(spec_encode_chars(single) =~= spec_u32_to_le_bytes(single[0] as u32)
                + spec_encode_chars(single.drop_first()));
            assert(spec_encode_chars(single) =~= spec_u32_to_le_bytes(s@[i as int] as u32));
        }
        push_u32(out, c as u32);
        i = i + 1;
    }
    proof {
        assert(s@.take(n as int) =~= s@);
    }
}

/// Encode a sequenced order for the wire.
pub fn encode_raw_order(o: &RawOrder) -> (r: Vec<u8>)
    requires
        o.order_id@.len() <= u32::MAX,
        o.quote@.len() <= u32::MAX,
    ensures
        r@ == spec_encode_raw_order(o@),
{
    let mut out: Vec<u8> = Vec::new();
    push_u128(&mut out, o.seq_id);
    encode_str_into(&mut out, &o.order_id);
    encode_str_into(&mut out, &o.quote);
    push_u64(&mut out, o.price);
    push_u64(&mut out, o.size);
    out.push(side_byte(o.side));
    out.push(order_type_byte(o.order_type));
    proof {
        assert(out@ =~= spec_encode_raw_order(o@));
    }
    out
}

/// Encode a client submission for the wire.
pub fn encode_order_value(o: &OrderValue) -> (r: Vec<u8>)
    requires
        o.order_id@.len() <= u32::MAX,
        o.quote@.len() <= u32::MAX,
    ensures
        r@ == spec_encode_order_value(o@),
{
    let mut out: Vec<u8> = Vec::new();
    encode_str_into(&mut out, &o.order_id);
    encode_str_into(&mut out, &o.quote);
    push_u64(&mut out, o.price);
    push_u64(&mut out, o.size);
    out.push(side_byte(o.side));
    out.push(order_type_byte(o.order_type));
    proof {
        assert(out@ =~= spec_encode_order_value(o@));
    }
    out
}

/// Encode an execution event for the wire.
pub fn encode_execute_message(m: &ExecuteMessage) -> (r: Vec<u8>)
    ensures
        r@ == spec_encode_execute_message(*m),
{
    let mut out: Vec<u8> = Vec::new();
    push_u128(&mut out, m.seq_id);
    match m.execution {
        Execution::INSERTED => {
            out.push(0);
        },
        Execution::CANCELLED => {
            out.push(1);
        },
        Execution::FILL(p, q) => {
            out.push(2);
            push_u64(&mut out, p);
            push_u64(&mut out, q);
        },
        Execution::PARTIAL(p, q) => {
            out.push(3);
            push_u64(&mut out, p);
            push_u64(&mut out, q);
        },
    }
    proof {
        assert(out@ =~= spec_encode_execute_message(*m));
    }
    out
}

impl ExecuteMessage {
    /// The wire bytes of this message.
    pub fn as_bytes(&self) -> (r: Vec<u8>)
        ensures
            r@ == spec_encode_execute_message(*self),
    {
        encode_execute_message(self)
    }
}

} // verus!

// ---------- executable decoding ----------

verus! {

fn read_u32(bytes: &[u8], pos: usize) -> (r: Option<(u32, usize)>)
    ensures
        match r {
            Some((w, p)) => parse_u32_at(bytes@, pos as int) == Some((w, p as int)) && p
                <= bytes@.len(),
            None => parse_u32_at(bytes@, pos as int) is None,
        },
{
    if pos <= bytes.len() && bytes.len() - pos >= 4 {
        let s = vstd::slice::slice_subrange(bytes, pos, pos + 4);
        Some((u32_from_le_bytes(s), pos + 4))
    } else {
        None
    }
}

fn read_u64(bytes: &[u8], pos: usize) -> (r: Option<(u64, usize)>)
    ensures
        match r {
            Some((w, p)) => parse_u64_at(bytes@, pos as int) == Some((w, p as int)) && p
                <= bytes@.len(),
            None => parse_u64_at(bytes@, pos as int) is None,
        },
{
    if pos <= bytes.len() && bytes.len() - pos >= 8 {
        let s = vstd::slice::slice_subrange(bytes, pos, pos + 8);
        Some((u64_from_le_bytes(s), pos + 8))
    } else {
        None
    }
}

fn read_u128(bytes: &[u8], pos: usize) -> (r: Option<(u128, usize)>)
    ensures
        match r {
            Some((w, p)) => parse_u128_at(bytes@, pos as int) == Some((w, p as int)) && p
                <= bytes@.len(),
            None => parse_u128_at(bytes@, pos as int) is None,
        },
{
    if pos <= bytes.len() && bytes.len() - pos >= 16 {
        let s = vstd::slice::slice_subrange(bytes, pos, pos + 16);
        Some((u128_from_le_bytes(s), pos + 16))
    } else {
        None
    }
}

/// A successful character parse lands between its start and the end of the
/// buffer, and yields exactly `n` characters.
pub proof fn lemma_parse_chars_pos(b: Seq<u8>, pos: int, n: nat)
    requires
        parse_chars_at(b, pos, n) is Some,
    ensures
        pos <= parse_chars_at(b, pos, n)->Some_0.1 <= b.len() || n == 0,
        n == 0 ==> parse_chars_at(b, pos, n)->Some_0.1 == pos,
        parse_chars_at(b, pos, n)->Some_0.0.len() == n,
    decreases n,
{
    if n > 0 {
        let (w, p1) = parse_u32_at(b, pos)->Some_0;
        lemma_parse_chars_pos(b, p1, (n - 1) as nat);
    }
}

fn decode_chars(bytes: &[u8], pos: usize, n: u32) -> (r: Result<(Vec<char>, usize), CodecError>)
    ensures
        match r {
            Ok((v, p)) => parse_chars_at(bytes@, pos as int, n as nat) == Some((v@, p as int))
                && v@.len() == n && pos <= p && (n > 0 ==> p <= bytes@.len()),
            Err(_) => parse_chars_at(bytes@, pos as int, n as nat) is None,
        },
{
    let mut acc: Vec<char> = Vec::new();
    let mut cur: usize = pos;
    let mut k: u32 = 0;
    proof {
        if parse_chars_at(bytes@, pos as int, n as nat) is Some {
            lemma_parse_chars_pos(bytes@, pos as int, n as nat);
        }
    }
    while k < n
        invariant
            k <= n,
            acc@.len() == k,
            (parse_chars_at(bytes@, pos as int, n as nat) is Some) == (parse_chars_at(
                bytes@,
                cur as int,
                (n - k) as nat,
            ) is Some),
            parse_chars_at(bytes@, cur as int, (n - k) as nat) is Some ==> {
                &&& parse_chars_at(bytes@, pos as int, n as nat)->Some_0.1 == parse_chars_at(
                    bytes@,
                    cur as int,
                    (n - k) as nat,
                )->Some_0.1
                &&& parse_chars_at(bytes@, pos as int, n as nat)->Some_0.0 =~= acc@
                    + parse_chars_at(bytes@, cur as int, (n - k) as nat)->Some_0.0
                &&& pos as int <= cur as int <= parse_chars_at(
                    bytes@,
                    cur as int,
                    (n - k) as nat,
                )->Some_0.1
                &&& n > k ==> parse_chars_at(bytes@, cur as int, (n - k) as nat)->Some_0.1
                    <= bytes@.len()
            },
        decreases n - k,
    {
        match read_u32(bytes, cur) {
            None => {
                proof {
                    assert(parse_chars_at(bytes@, cur as int, (n - k) as nat) is None);
                }
                return Err(CodecError::Malformed);
            },
            Some((w, p1)) => {
                match char_from_u32(w) {
                    None => {
                        proof {
                            assert(parse_chars_at(bytes@, cur as int, (n - k) as nat) is None);
                        }
                        return Err(CodecError::Malformed);
                    },
                    Some(c) => {
                        proof {
                            let rest = parse_chars_at(bytes@, p1 as int, (n - k - 1) as nat);
                            if rest is Some {
                                lemma_parse_chars_pos(bytes@, p1 as int, (n - k - 1) as nat);
                                let (s2, p2) = rest->Some_0;
                                assert(parse_chars_at(bytes@, cur as int, (n - k) as nat)
                                    == Some::<(Seq<char>, int)>((seq![c] + s2, p2)));
                                assert(acc@ + (seq![c] + s2) =~= acc@.push(c) + s2);
                            } else {
                                assert(parse_chars_at(bytes@, cur as int, (n - k) as nat) is None);
                            }
                        }
                        acc.push(c);
                        cur = p1;
                        k = k + 1;
                    },
                }
            },
        }
    }
    proof {
        assert(parse_chars_at(bytes@, cur as int, 0) == Some::<(Seq<char>, int)>((
            Seq::<char>::empty(),
            cur as int,
        )));
        assert(parse_chars_at(bytes@, pos as int, n as nat) is Some);
        assert(parse_chars_at(bytes@, pos as int, n as nat)->Some_0.0 =~= acc@ + Seq::<
            char,
        >::empty());
        assert(acc@ + Seq::<char>::empty() =~= acc@);
        assert(parse_chars_at(bytes@, pos as int, n as nat) == Some::<(Seq<char>, int)>((
            acc@,
            cur as int,
        )));
    }
    Ok((acc, cur))
}

fn decode_str(bytes: &[u8], pos: usize) -> (r: Result<(String, usize), CodecError>)
    ensures
        match r {
            Ok((s, p)) => parse_str_at(bytes@, pos as int) == Some((s@, p as int)) && p
                <= bytes@.len() && s@.len() <= u32::MAX,
            Err(_) => parse_str_at(bytes@, pos as int) is None,
        },
{
    match read_u32(bytes, pos) {
        None => Err(CodecError::Malformed),
        Some((n, p1)) => {
            match decode_chars(bytes, p1, n) {
                Err(e) => Err(e),
                Ok((v, p2)) => Ok((string_from_chars(&v), p2)),
            }
        },
    }
}

fn read_side(bytes: &[u8], pos: usize) -> (r: Option<(Side, usize)>)
    ensures
        match r {
            Some((s, p)) => parse_side_at(bytes@, pos as int) == Some((s, p as int)) && p
                <= bytes@.len(),
            None => parse_side_at(bytes@, pos as int) is None,
        },
{
    if pos < bytes.len() {
        let b = bytes[pos];
        if b == 0 {
            Some((Side::ASK, pos + 1))
        } else if b == 1 {
            Some((Side::BID, pos + 1))
        } else {
            None
        }
    } else {
        None
    }
}

fn read_order_type(bytes: &[u8], pos: usize) -> (r: Option<(OrderType, usize)>)
    ensures
        match r {
            Some((t, p)) => parse_order_type_at(bytes@, pos as int) == Some((t, p as int)) && p
                <= bytes@.len(),
            None => parse_order_type_at(bytes@, pos as int) is None,
        },
{
    if pos < bytes.len() {
        let b = bytes[pos];
        if b == 0 {
            Some((OrderType::LIMIT, pos + 1))
        } else if b == 1 {
            Some((OrderType::MARKET, pos + 1))
        } else {
            None
        }
    } else {
        None
    }
}

/// Decode a sequenced order; succeeds exactly when the bytes parse as one.
pub fn decode_raw_order(bytes: &[u8]) -> (r: Result<RawOrder, CodecError>)
    ensures
        match r {
            Ok(o) => spec_parse_raw_order(bytes@) == Some(o@) && o.order_id@.len() <= u32::MAX
                && o.quote@.len() <= u32::MAX,
            Err(_) => spec_parse_raw_order(bytes@) is None,
        },
{
    let (seq_id, p1) = match read_u128(bytes, 0) {
        Some(x) => x,
        None => {
            return Err(CodecError::Malformed);
        },
    };
    let (order_id, p2) = match decode_str(bytes, p1) {
        Ok(x) => x,
        Err(e) => {
            return Err(e);
        },
    };
    let (quote, p3) = match decode_str(bytes, p2) {
        Ok(x) => x,
        Err(e) => {
            return Err(e);
        },
    };
    let (price, p4) = match read_u64(bytes, p3) {
        Some(x) => x,
        None => {
            return Err(CodecError::Malformed);
        },
    };
    let (size, p5) = match read_u64(bytes, p4) {
        Some(x) => x,
        None => {
            return Err(CodecError::Malformed);
        },
    };
    let (side, p6) = match read_side(bytes, p5) {
        Some(x) => x,
        None => {
            return Err(CodecError::Malformed);
        },
    };
    let (order_type, p7) = match read_order_type(bytes, p6) {
        Some(x) => x,
        None => {
            return Err(CodecError::Malformed);
        },
    };
    if p7 != bytes.len() {
        return Err(CodecError::Malformed);
    }
    Ok(RawOrder { seq_id, order_id, quote, price, size, side, order_type })
}

/// Decode a client submission; succeeds exactly when the bytes parse as one.
pub fn decode_order_value(bytes: &[u8]) -> (r: Result<OrderValue, CodecError>)
    ensures
        match r {
            Ok(o) => spec_parse_order_value(bytes@) == Some(o@) && o.order_id@.len() <= u32::MAX
                && o.quote@.len() <= u32::MAX,
            Err(_) => spec_parse_order_value(bytes@) is None,
        },
{
    let (order_id, p1) = match decode_str(bytes, 0) {
        Ok(x) => x,
        Err(e) => {
            return Err(e);
        },
    };
    let (quote, p2) = match decode_str(bytes, p1) {
        Ok(x) => x,
        Err(e) => {
            return Err(e);
        },
    };
    let (price, p3) = match read_u64(bytes, p2) {
        Some(x) => x,
        None => {
            return Err(CodecError::Malformed);
        },
    };
    let (size, p4) = match read_u64(bytes, p3) {
        Some(x) => x,
        None => {
            return Err(CodecError::Malformed);
        },
    };
    let (side, p5) = match read_side(bytes, p4) {
        Some(x) => x,
        None => {
            return Err(CodecError::Malformed);
        },
    };
    let (order_type, p6) = match read_order_type(bytes, p5) {
        Some(x) => x,
        None => {
            return Err(CodecError::Malformed);
        },
    };
    if p6 != bytes.len() {
        return Err(CodecError::Malformed);
    }
    Ok(OrderValue { quote, order_id, price, size, side, order_type })
}

/// Decode an execution event; succeeds exactly when the bytes parse as one.
pub fn decode_execute_message(bytes: &[u8]) -> (r: Result<ExecuteMessage, CodecError>)
    ensures
        match r {
            Ok(m) => spec_parse_execute_message(bytes@) == Some(m),
            Err(_) => spec_parse_execute_message(bytes@) is None,
        },
{
    let (seq_id, p1) = match read_u128(bytes, 0) {
        Some(x) => x,
        None => {
            return Err(CodecError::Malformed);
        },
    };
    if p1 >= bytes.len() {
        return Err(CodecError::Malformed);
    }
    let tag = bytes[p1];
    let (execution, p2): (Execution, usize) = if tag == 0 {
        (Execution::INSERTED, p1 + 1)
    } else if tag == 1 {
        (Execution::CANCELLED, p1 + 1)
    } else if tag == 2 || tag == 3 {
        let (p, q1) = match read_u64(bytes, p1 + 1) {
            Some(x) => x,
            None => {
                return Err(CodecError::Malformed);
            },
        };
        let (q, q2) = match read_u64(bytes, q1) {
            Some(x) => x,
            None => {
                return Err(CodecError::Malformed);
            },
        };
        if tag == 2 {
            (Execution::FILL(p, q), q2)
        } else {
            (Execution::PARTIAL(p, q), q2)
        }
    } else {
        return Err(CodecError::Malformed);
    };
    if p2 != bytes.len() {
        return Err(CodecError::Malformed);
    }
    Ok(ExecuteMessage { seq_id, execution })
}

} // verus!

// ---------- round trips ----------

verus! {

/// Law: a sequenced order's encoding parses back to exactly that order.
pub proof fn lemma_parse_encode_raw_order(o: OrderView)
    requires
        o.order_id.len() <= u32::MAX,
        o.quote.len() <= u32::MAX,
    ensures
        spec_parse_raw_order(spec_encode_raw_order(o)) == Some(o),
{
    lemma_auto_spec_u128_to_from_le_bytes();
    lemma_auto_spec_u64_to_from_le_bytes();
    lemma_auto_spec_u32_to_from_le_bytes();
    lemma_encode_chars_len(o.order_id);
    lemma_encode_chars_len(o.quote);
    let b = spec_encode_raw_order(o);
    let e1 = spec_u128_to_le_bytes(o.seq_id);
    let e2 = spec_encode_str(o.order_id);
    let e3 = spec_encode_str(o.quote);
    let e4 = spec_u64_to_le_bytes(o.price);
    let e5 = spec_u64_to_le_bytes(o.size);
    let l2 = e2.len() as int;
    let l3 = e3.len() as int;
    assert(b.len() == 16 + l2 + l3 + 8 + 8 + 1 + 1);
    assert(b.subrange(0, 16) =~= e1);
    assert(parse_u128_at(b, 0) == Some((o.seq_id, 16int)));
    assert(b.subrange(16, 16 + l2) =~= e2);
    lemma_parse_str_of_encode(b, 16, o.order_id);
    assert(parse_str_at(b, 16) == Some((o.order_id, 16 + l2)));
    assert(b.subrange(16 + l2, 16 + l2 + l3) =~= e3);
    lemma_parse_str_of_encode(b, 16 + l2, o.quote);
    assert(parse_str_at(b, 16 + l2) == Some((o.quote, 16 + l2 + l3)));
    let p3 = 16 + l2 + l3;
    assert(b.subrange(p3, p3 + 8) =~= e4);
    assert(parse_u64_at(b, p3) == Some((o.price, p3 + 8)));
    assert(b.subrange(p3 + 8, p3 + 16) =~= e5);
    assert(parse_u64_at(b, p3 + 8) == Some((o.size, p3 + 16)));
    assert(b[p3 + 16] == side_tag(o.side));
    assert(parse_side_at(b, p3 + 16) == Some((o.side, p3 + 17)));
    assert(b[p3 + 17] == order_type_tag(o.order_type));
    assert(parse_order_type_at(b, p3 + 17) == Some((o.order_type, p3 + 18)));
    assert(p3 + 18 == b.len());
}

/// Law: a client submission's encoding parses back to exactly that value.
pub proof fn lemma_parse_encode_order_value(o: OrderValueView)
    requires
        o.order_id.len() <= u32::MAX,
        o.quote.len() <= u32::MAX,
    ensures
        spec_parse_order_value(spec_encode_order_value(o)) == Some(o),
{
    lemma_auto_spec_u64_to_from_le_bytes();
    lemma_auto_spec_u32_to_from_le_bytes();
    lemma_encode_chars_len(o.order_id);
    lemma_encode_chars_len(o.quote);
    let b = spec_encode_order_value(o);
    let e2 = spec_encode_str(o.order_id);
    let e3 = spec_encode_str(o.quote);
    let e4 = spec_u64_to_le_bytes(o.price);
    let e5 = spec_u64_to_le_bytes(o.size);
    let l2 = e2.len() as int;
    let l3 = e3.len() as int;
    assert(b.len() == l2 + l3 + 8 + 8 + 1 + 1);
    assert(b.subrange(0, l2) =~= e2);
    lemma_parse_str_of_encode(b, 0, o.order_id);
    assert(parse_str_at(b, 0) == Some((o.order_id, l2)));
    assert(b.subrange(l2, l2 + l3) =~= e3);
    lemma_parse_str_of_encode(b, l2, o.quote);
    assert(parse_str_at(b, l2) == Some((o.quote, l2 + l3)));
    let p2 = l2 + l3;
    assert(b.subrange(p2, p2 + 8) =~= e4);
    assert(parse_u64_at(b, p2) == Some((o.price, p2 + 8)));
    assert(b.subrange(p2 + 8, p2 + 16) =~= e5);
    assert(parse_u64_at(b, p2 + 8) == Some((o.size, p2 + 16)));
    assert(b[p2 + 16] == side_tag(o.side));
    assert(parse_side_at(b, p2 + 16) == Some((o.side, p2 + 17)));
    assert(b[p2 + 17] == order_type_tag(o.order_type));
    assert(parse_order_type_at(b, p2 + 17) == Some((o.order_type, p2 + 18)));
    assert(p2 + 18 == b.len());
}

/// Law: an execution event's encoding parses back to exactly that event.
pub proof fn lemma_parse_encode_execute_message(m: ExecuteMessage)
    ensures
        spec_parse_execute_message(spec_encode_execute_message(m)) == Some(m),
{
    lemma_auto_spec_u128_to_from_le_bytes();
    lemma_auto_spec_u64_to_from_le_bytes();
    let b = spec_encode_execute_message(m);
    let e1 = spec_u128_to_le_bytes(m.seq_id);
    assert(b.subrange(0, 16) =~= e1);
    assert(parse_u128_at(b, 0) == Some((m.seq_id, 16int)));
    match m.execution {
        Execution::INSERTED => {
            assert(b[16] == 0u8);
            assert(b.len() == 17);
        },
        Execution::CANCELLED => {
            assert(b[16] == 1u8);
            assert(b.len() == 17);
        },
        Execution::FILL(p, q) => {
            assert(b[16] == 2u8);
            assert(b.len() == 33);
            assert(b.subrange(17, 25) =~= spec_u64_to_le_bytes(p));
            assert(b.subrange(25, 33) =~= spec_u64_to_le_bytes(q));
        },
        Execution::PARTIAL(p, q) => {
            assert(b[16] == 3u8);
            assert(b.len() == 33);
            assert(b.subrange(17, 25) =~= spec_u64_to_le_bytes(p));
            assert(b.subrange(25, 33) =~= spec_u64_to_le_bytes(q));
        },
    }
}

} // verus!
