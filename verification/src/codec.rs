//! Persistence encoding for returns.
//!
//! A `Return` is an output that cannot be credited and must be refunded to
//! its presumed origin. Returns are persisted between task ticks, so they
//! carry an exact byte encoding: `write` appends it to a buffer and `read`
//! parses it back. Reading what was written yields the original value.

use vstd::prelude::*;
use vstd::bytes::{
    lemma_auto_spec_u64_to_from_le_bytes, spec_u64_from_le_bytes, spec_u64_to_le_bytes,
    u64_from_le_bytes, u64_to_le_bytes,
};
use vstd::slice::{slice_subrange, slice_to_vec};
use crate::output::{Balance, Output, OutputKind};

verus! {

/// The mathematical value of an `Output`.
pub struct OutputView {
    /// The bytes of the output's ID.
    pub id: Seq<u8>,
    /// The provenance of the output.
    pub kind: OutputKind,
    /// The bytes of the encoded key the output is payable to.
    pub key: Seq<u8>,
    /// The bytes of the presumed origin address, when known.
    pub address: Option<Seq<u8>>,
    /// The coin and amount the output carries.
    pub balance: Balance,
    /// The bytes of the data attached to the output.
    pub data: Seq<u8>,
}

impl View for Output {
    type V = OutputView;

    open spec fn view(&self) -> OutputView {
        OutputView {
            id: self.id@,
            kind: self.kind,
            key: self.key@,
            address: match self.address {
                Some(ref a) => Some(a@),
                None => None,
            },
            balance: self.balance,
            data: self.data@,
        }
    }
}

/// An output that cannot be credited and must be refunded to `address`.
pub struct Return {
    /// The address the refund is owed to.
    pub address: Vec<u8>,
    /// The output being refunded.
    pub output: Output,
}

/// The mathematical value of a `Return`.
pub struct ReturnView {
    /// The bytes of the refund address.
    pub address: Seq<u8>,
    /// The value of the refunded output.
    pub output: OutputView,
}

impl View for Return {
    type V = ReturnView;

    open spec fn view(&self) -> ReturnView {
        ReturnView { address: self.address@, output: self.output@ }
    }
}

/// Parsing failed: the buffer is truncated or holds an invalid tag byte.
#[derive(Clone, Copy, Debug, PartialEq, Eq, Structural)]
pub struct DecodeError;

/// A length-prefixed byte string: eight little-endian length bytes, then the
/// bytes themselves.
pub open spec fn spec_encode_bytes(b: Seq<u8>) -> Seq<u8> {
    spec_u64_to_le_bytes(b.len() as u64) + b
}

/// The byte tagging an output's kind.
pub open spec fn spec_kind_byte(k: OutputKind) -> u8 {
    match k {
        OutputKind::External => 0,
        OutputKind::Branch => 1,
        OutputKind::Change => 2,
        OutputKind::Forwarded => 3,
    }
}

/// An optional address: a zero tag, or a one tag followed by the address.
pub open spec fn spec_encode_address(a: Option<Seq<u8>>) -> Seq<u8> {
    match a {
        None => seq![0u8],
        Some(b) => seq![1u8] + spec_encode_bytes(b),
    }
}

/// The encoding of an output: its fields in declaration order.
pub open spec fn spec_encode_output(o: OutputView) -> Seq<u8> {
    spec_encode_bytes(o.id) + seq![spec_kind_byte(o.kind)] + spec_encode_bytes(o.key)
        + spec_encode_address(o.address) + spec_u64_to_le_bytes(o.balance.coin)
        + spec_u64_to_le_bytes(o.balance.amount) + spec_encode_bytes(o.data)
}

/// The encoding of a return: the address, then the output.
pub open spec fn spec_encode_return(r: ReturnView) -> Seq<u8> {
    spec_encode_bytes(r.address) + spec_encode_output(r.output)
}

/// Decode eight little-endian bytes from the front of `s`, yielding the value
/// and the remainder.
pub open spec fn spec_decode_u64(s: Seq<u8>) -> Option<(u64, Seq<u8>)> {
    if s.len() >= 8 {
        Some((spec_u64_from_le_bytes(s.subrange(0, 8)), s.skip(8)))
    } else {
        None
    }
}

/// Decode a length-prefixed byte string from the front of `s`.
pub open spec fn spec_decode_bytes(s: Seq<u8>) -> Option<(Seq<u8>, Seq<u8>)> {
    match spec_decode_u64(s) {
        None => None,
        Some((n, rest)) => if rest.len() >= n {
            Some((rest.take(n as int), rest.skip(n as int)))
        } else {
            None
        },
    }
}

/// Decode an output kind tag from the front of `s`.
pub open spec fn spec_decode_kind(s: Seq<u8>) -> Option<(OutputKind, Seq<u8>)> {
    if s.len() >= 1 {
        let rest = s.skip(1);
        if s[0] == 0 {
            Some((OutputKind::External, rest))
        } else if s[0] == 1 {
            Some((OutputKind::Branch, rest))
        } else if s[0] == 2 {
            Some((OutputKind::Change, rest))
        } else if s[0] == 3 {
            Some((OutputKind::Forwarded, rest))
        } else {
            None
        }
    } else {
        None
    }
}

/// Decode an optional address from the front of `s`.
pub open spec fn spec_decode_address(s: Seq<u8>) -> Option<(Option<Seq<u8>>, Seq<u8>)> {
    if s.len() >= 1 {
        if s[0] == 0 {
            Some((None, s.skip(1)))
        } else if s[0] == 1 {
            match spec_decode_bytes(s.skip(1)) {
                None => None,
                Some((b, rest)) => Some((Some(b), rest)),
            }
        } else {
            None
        }
    } else {
        None
    }
}

/// Decode an output from the front of `s`.
pub open spec fn spec_decode_output(s: Seq<u8>) -> Option<(OutputView, Seq<u8>)> {
    match spec_decode_bytes(s) {
        None => None,
        Some((id, s)) => match spec_decode_kind(s) {
            None => None,
            Some((kind, s)) => match spec_decode_bytes(s) {
                None => None,
                Some((key, s)) => match spec_decode_address(s) {
                    None => None,
                    Some((address, s)) => match spec_decode_u64(s) {
                        None => None,
                        Some((coin, s)) => match spec_decode_u64(s) {
                            None => None,
                            Some((amount, s)) => match spec_decode_bytes(s) {
                                None => None,
                                Some((data, s)) => Some(
                                    (
                                        OutputView {
                                            id,
                                            kind,
                                            key,
                                            address,
                                            balance: Balance { coin, amount },
                                            data,
                                        },
                                        s,
                                    ),
                                ),
                            },
                        },
                    },
                },
            },
        },
    }
}

/// Decode a return from the front of `s`.
pub open spec fn spec_decode_return(s: Seq<u8>) -> Option<(ReturnView, Seq<u8>)> {
    match spec_decode_bytes(s) {
        None => None,
        Some((address, s)) => match spec_decode_output(s) {
            None => None,
            Some((output, s)) => Some((ReturnView { address, output }, s)),
        },
    }
}

proof fn lemma_decode_u64_of_encode(x: u64, rest: Seq<u8>)
    ensures
        spec_decode_u64(spec_u64_to_le_bytes(x) + rest) == Some((x, rest)),
{
    lemma_auto_spec_u64_to_from_le_bytes();
    let s = spec_u64_to_le_bytes(x) + rest;
    assert(s.subrange(0, 8) =~= spec_u64_to_le_bytes(x));
    assert(s.skip(8) =~= rest);
}

proof fn lemma_decode_bytes_of_encode(b: Seq<u8>, rest: Seq<u8>)
    requires
        b.len() <= u64::MAX,
    ensures
        spec_decode_bytes(spec_encode_bytes(b) + rest) == Some((b, rest)),
{
    lemma_auto_spec_u64_to_from_le_bytes();
    let s = spec_encode_bytes(b) + rest;
    assert(s =~= spec_u64_to_le_bytes(b.len() as u64) + (b + rest));
    lemma_decode_u64_of_encode(b.len() as u64, b + rest);
    assert((b + rest).take(b.len() as int) =~= b);
    assert((b + rest).skip(b.len() as int) =~= rest);
}

proof fn lemma_decode_kind_of_encode(k: OutputKind, rest: Seq<u8>)
    ensures
        spec_decode_kind(seq![spec_kind_byte(k)] + rest) == Some((k, rest)),
{
    let s = seq![spec_kind_byte(k)] + rest;
    assert(s[0] == spec_kind_byte(k));
    assert(s.skip(1) =~= rest);
}

proof fn lemma_decode_address_of_encode(a: Option<Seq<u8>>, rest: Seq<u8>)
    requires
        a is Some ==> a.unwrap().len() <= u64::MAX,
    ensures
        spec_decode_address(spec_encode_address(a) + rest) == Some((a, rest)),
{
    let s = spec_encode_address(a) + rest;
    match a {
        None => {
            assert(s[0] == 0);
            assert(s.skip(1) =~= rest);
        },
        Some(b) => {
            assert(s[0] == 1);
            assert(s.skip(1) =~= spec_encode_bytes(b) + rest);
            lemma_decode_bytes_of_encode(b, rest);
        },
    }
}

/// Whether every byte string within the output is short enough to encode.
pub open spec fn output_encodable(o: OutputView) -> bool {
    &&& o.id.len() <= u64::MAX
    &&& o.key.len() <= u64::MAX
    &&& (o.address is Some ==> o.address.unwrap().len() <= u64::MAX)
    &&& o.data.len() <= u64::MAX
}

/// Whether the return's byte strings are short enough to encode.
pub open spec fn return_encodable(r: ReturnView) -> bool {
    &&& r.address.len() <= u64::MAX
    &&& output_encodable(r.output)
}

#[verifier::rlimit(100)]
proof fn lemma_decode_output_of_encode(o: OutputView, rest: Seq<u8>)
    requires
        output_encodable(o),
    ensures
        spec_decode_output(spec_encode_output(o) + rest) == Some((o, rest)),
{
    let s = spec_encode_output(o) + rest;
    let t1 = seq![spec_kind_byte(o.kind)] + spec_encode_bytes(o.key) + spec_encode_address(o.address)
        + spec_u64_to_le_bytes(o.balance.coin) + spec_u64_to_le_bytes(o.balance.amount)
        + spec_encode_bytes(o.data) + rest;
    assert(s =~= spec_encode_bytes(o.id) + t1);
    lemma_decode_bytes_of_encode(o.id, t1);
    let t2 = spec_encode_bytes(o.key) + spec_encode_address(o.address)
        + spec_u64_to_le_bytes(o.balance.coin) + spec_u64_to_le_bytes(o.balance.amount)
        + spec_encode_bytes(o.data) + rest;
    assert(t1 =~= seq![spec_kind_byte(o.kind)] + t2);
    lemma_decode_kind_of_encode(o.kind, t2);
    let t3 = spec_encode_address(o.address) + spec_u64_to_le_bytes(o.balance.coin)
        + spec_u64_to_le_bytes(o.balance.amount) + spec_encode_bytes(o.data) + rest;
    assert(t2 =~= spec_encode_bytes(o.key) + t3);
    lemma_decode_bytes_of_encode(o.key, t3);
    let t4 = spec_u64_to_le_bytes(o.balance.coin) + spec_u64_to_le_bytes(o.balance.amount)
        + spec_encode_bytes(o.data) + rest;
    assert(t3 =~= spec_encode_address(o.address) + t4);
    lemma_decode_address_of_encode(o.address, t4);
    let t5 = spec_u64_to_le_bytes(o.balance.amount) + spec_encode_bytes(o.data) + rest;
    assert(t4 =~= spec_u64_to_le_bytes(o.balance.coin) + t5);
    lemma_decode_u64_of_encode(o.balance.coin, t5);
    let t6 = spec_encode_bytes(o.data) + rest;
    assert(t5 =~= spec_u64_to_le_bytes(o.balance.amount) + t6);
    lemma_decode_u64_of_encode(o.balance.amount, t6);
    lemma_decode_bytes_of_encode(o.data, rest);
}

/// Reading an encoded return yields exactly the value that was written:
/// decoding `write`'s bytes, with anything at all appended, returns the
/// original value and leaves the appended bytes untouched.
pub proof fn lemma_return_round_trip(r: ReturnView, rest: Seq<u8>)
    requires
        return_encodable(r),
    ensures
        spec_decode_return(spec_encode_return(r) + rest) == Some((r, rest)),
{
    let s = spec_encode_return(r) + rest;
    let t1 = spec_encode_output(r.output) + rest;
    assert(s =~= spec_encode_bytes(r.address) + t1);
    lemma_decode_bytes_of_encode(r.address, t1);
    lemma_decode_output_of_encode(r.output, rest);
}

fn write_u64(writer: &mut Vec<u8>, x: u64)
    ensures
        final(writer)@ == old(writer)@ + spec_u64_to_le_bytes(x),
{
    let mut bytes = u64_to_le_bytes(x);
    writer.append(&mut bytes);
}

fn write_bytes(writer: &mut Vec<u8>, b: &Vec<u8>)
    ensures
        final(writer)@ == old(writer)@ + spec_encode_bytes(b@),
{
    let ghost start = writer@;
    write_u64(writer, b.len() as u64);
    writer.extend_from_slice(b.as_slice());
    assert(writer@ =~= start + spec_encode_bytes(b@));
}

fn kind_byte(k: OutputKind) -> (b: u8)
    ensures
        b == spec_kind_byte(k),
{
    match k {
        OutputKind::External => 0,
        OutputKind::Branch => 1,
        OutputKind::Change => 2,
        OutputKind::Forwarded => 3,
    }
}

fn write_output(writer: &mut Vec<u8>, o: &Output)
    ensures
        final(writer)@ == old(writer)@ + spec_encode_output(o@),
{
    let ghost start = writer@;
    write_bytes(writer, &o.id);
    writer.push(kind_byte(o.kind));
    assert(writer@ =~= start + spec_encode_bytes(o@.id) + seq![spec_kind_byte(o@.kind)]);
    write_bytes(writer, &o.key);
    match &o.address {
        None => {
            writer.push(0);
            assert(o@.address is None);
        },
        Some(a) => {
            writer.push(1);
            write_bytes(writer, a);
            assert(o@.address == Some(a@));
            assert(seq![1u8] + spec_encode_bytes(a@) =~= spec_encode_address(o@.address));
        },
    }
    write_u64(writer, o.balance.coin);
    write_u64(writer, o.balance.amount);
    write_bytes(writer, &o.data);
    assert(writer@ =~= start + spec_encode_output(o@));
}

impl Return {
    /// Append this return's encoding to `writer`.
    pub fn write(&self, writer: &mut Vec<u8>)
        ensures
            final(writer)@ == old(writer)@ + spec_encode_return(self@),
    {
        let ghost start = writer@;
        write_bytes(writer, &self.address);
        write_output(writer, &self.output);
        assert(writer@ =~= start + spec_encode_return(self@));
    }

    /// Parse one return from the front of `reader`, yielding the value and
    /// the unconsumed remainder of the buffer.
    ///
    /// Succeeds exactly when the buffer starts with a well-formed encoding.
    pub fn read(reader: &Vec<u8>) -> (r: Result<(Return, usize), DecodeError>)
        ensures
            match r {
                Ok((ret, consumed)) => {
                    &&& consumed <= reader@.len()
                    &&& spec_decode_return(reader@) == Some(
                        (ret@, reader@.skip(consumed as int)),
                    )
                },
                Err(_) => spec_decode_return(reader@) is None,
            },
    {
        proof {
            assert(reader@.skip(0) =~= reader@);
        }
        let (address, at) = match read_bytes(reader, 0) {
            Ok(v) => v,
            Err(e) => {
                return Err(e);
            },
        };
        let (output, at) = match read_output(reader, at) {
            Ok(v) => v,
            Err(e) => {
                return Err(e);
            },
        };
        Ok((Return { address, output }, at))
    }
}

fn read_u64(reader: &Vec<u8>, from: usize) -> (r: Result<(u64, usize), DecodeError>)
    requires
        from <= reader@.len(),
    ensures
        match r {
            Ok((x, at)) => {
                &&& from <= at <= reader@.len()
                &&& spec_decode_u64(reader@.skip(from as int)) == Some(
                    (x, reader@.skip(at as int)),
                )
            },
            Err(_) => spec_decode_u64(reader@.skip(from as int)) is None,
        },
{
    if reader.len() - from < 8 {
        return Err(DecodeError);
    }
    let x = u64_from_le_bytes(slice_subrange(reader.as_slice(), from, from + 8));
    proof {
        assert(reader@.subrange(from as int, from + 8) =~= reader@.skip(from as int).subrange(
            0,
            8,
        ));
        assert(reader@.skip(from as int).skip(8) =~= reader@.skip(from + 8));
    }
    Ok((x, from + 8))
}

fn read_bytes(reader: &Vec<u8>, from: usize) -> (r: Result<(Vec<u8>, usize), DecodeError>)
    requires
        from <= reader@.len(),
    ensures
        match r {
            Ok((b, at)) => {
                &&& from <= at <= reader@.len()
                &&& spec_decode_bytes(reader@.skip(from as int)) == Some(
                    (b@, reader@.skip(at as int)),
                )
            },
            Err(_) => spec_decode_bytes(reader@.skip(from as int)) is None,
        },
{
    let (n, at) = match read_u64(reader, from) {
        Ok(v) => v,
        Err(e) => {
            return Err(e);
        },
    };
    let avail = reader.len() - at;
    if n > avail as u64 {
        return Err(DecodeError);
    }
    let n = n as usize;
    let b = slice_to_vec(slice_subrange(reader.as_slice(), at, at + n));
    proof {
        assert(reader@.subrange(at as int, at + n) =~= reader@.skip(at as int).take(n as int));
        assert(reader@.skip(at as int).skip(n as int) =~= reader@.skip(at + n));
    }
    Ok((b, at + n))
}

fn read_kind(reader: &Vec<u8>, from: usize) -> (r: Result<(OutputKind, usize), DecodeError>)
    requires
        from <= reader@.len(),
    ensures
        match r {
            Ok((k, at)) => {
                &&& from <= at <= reader@.len()
                &&& spec_decode_kind(reader@.skip(from as int)) == Some(
                    (k, reader@.skip(at as int)),
                )
            },
            Err(_) => spec_decode_kind(reader@.skip(from as int)) is None,
        },
{
    if reader.len() == from {
        return Err(DecodeError);
    }
    proof {
        assert(reader@.skip(from as int)[0] == reader@[from as int]);
        assert(reader@.skip(from as int).skip(1) =~= reader@.skip(from + 1));
    }
    let kind = match reader[from] {
        0u8 => OutputKind::External,
        1u8 => OutputKind::Branch,
        2u8 => OutputKind::Change,
        3u8 => OutputKind::Forwarded,
        _ => {
            return Err(DecodeError);
        },
    };
    Ok((kind, from + 1))
}

fn read_address(reader: &Vec<u8>, from: usize) -> (r: Result<
    (Option<Vec<u8>>, usize),
    DecodeError,
>)
    requires
        from <= reader@.len(),
    ensures
        match r {
            Ok((a, at)) => {
                &&& from <= at <= reader@.len()
                &&& spec_decode_address(reader@.skip(from as int)) == Some(
                    (
                        match a {
                            None => None,
                            Some(b) => Some(b@),
                        },
                        reader@.skip(at as int),
                    ),
                )
            },
            Err(_) => spec_decode_address(reader@.skip(from as int)) is None,
        },
{
    if reader.len() == from {
        return Err(DecodeError);
    }
    proof {
        assert(reader@.skip(from as int)[0] == reader@[from as int]);
        assert(reader@.skip(from as int).skip(1) =~= reader@.skip(from + 1));
    }
    match reader[from] {
        0u8 => Ok((None, from + 1)),
        1u8 => match read_bytes(reader, from + 1) {
            Ok((b, at)) => Ok((Some(b), at)),
            Err(e) => Err(e),
        },
        _ => Err(DecodeError),
    }
}

fn read_output(reader: &Vec<u8>, from: usize) -> (r: Result<(Output, usize), DecodeError>)
    requires
        from <= reader@.len(),
    ensures
        match r {
            Ok((o, at)) => {
                &&& from <= at <= reader@.len()
                &&& spec_decode_output(reader@.skip(from as int)) == Some(
                    (o@, reader@.skip(at as int)),
                )
            },
            Err(_) => spec_decode_output(reader@.skip(from as int)) is None,
        },
{
    let (id, at) = match read_bytes(reader, from) {
        Ok(v) => v,
        Err(e) => {
            return Err(e);
        },
    };
    let (kind, at) = match read_kind(reader, at) {
        Ok(v) => v,
        Err(e) => {
            return Err(e);
        },
    };
    let (key, at) = match read_bytes(reader, at) {
        Ok(v) => v,
        Err(e) => {
            return Err(e);
        },
    };
    let (address, at) = match read_address(reader, at) {
        Ok(v) => v,
        Err(e) => {
            return Err(e);
        },
    };
    let (coin, at) = match read_u64(reader, at) {
        Ok(v) => v,
        Err(e) => {
            return Err(e);
        },
    };
    let (amount, at) = match read_u64(reader, at) {
        Ok(v) => v,
        Err(e) => {
            return Err(e);
        },
    };
    let (data, at) = match read_bytes(reader, at) {
        Ok(v) => v,
        Err(e) => {
            return Err(e);
        },
    };
    Ok((Output { id, kind, key, address, balance: Balance { coin, amount }, data }, at))
}

} // verus!
