//! The binary envelope codec.
//!
//! Envelopes travel as self-describing, field-name-keyed binary records:
//! a record is a map whose keys are the field names, so that encoders
//! and decoders written independently stay compatible as long as the
//! field names and nesting match; positional (array-shaped) encodings
//! are deliberately not understood.  Strings carry a one-byte tag
//! (or a tag plus a big-endian length) before their UTF-8 bytes,
//! argument blobs carry a tag plus length before raw bytes, and arrays
//! and maps carry a tagged element count.  The decoder accepts the
//! fields of a record in any order and rejects duplicated or unknown
//! fields, trailing bytes, and malformed UTF-8.

use vstd::arithmetic::div_mod::lemma_div_denominator;
use vstd::arithmetic::div_mod::lemma_fundamental_div_mod;
use vstd::arithmetic::div_mod::lemma_small_mod;
use vstd::prelude::*;
use vstd::slice::slice_index_get;
use vstd::slice::slice_subrange;
use vstd::slice::slice_to_vec;
use vstd::utf8::decode_utf8;
use vstd::utf8::encode_utf8;
use vstd::utf8::encode_utf8_decode_utf8;
use vstd::utf8::encode_utf8_valid_utf8;
use vstd::utf8::valid_utf8;

use crate::error::ZBusError;
use crate::Event;
use crate::ObjectID;
use crate::ObjectIDView;
use crate::Request;
use crate::RequestView;
use crate::Response;
use crate::ResponseView;

verus! {

// ---------------------------------------------------------------------
// Field names, as their UTF-8 bytes.  Request fields are capitalized on
// the wire; response fields are not.
// ---------------------------------------------------------------------
/// The request correlation field, `ID`.
pub open spec fn key_id() -> Seq<u8> {
    seq![73u8, 68u8]
}

/// The request argument-list field, `Arguments`.
pub open spec fn key_arguments() -> Seq<u8> {
    seq![65u8, 114u8, 103u8, 117u8, 109u8, 101u8, 110u8, 116u8, 115u8]
}

/// The request object field, `Object`.
pub open spec fn key_object() -> Seq<u8> {
    seq![79u8, 98u8, 106u8, 101u8, 99u8, 116u8]
}

/// The request reply-queue field, `ReplyTo`.
pub open spec fn key_reply_to() -> Seq<u8> {
    seq![82u8, 101u8, 112u8, 108u8, 121u8, 84u8, 111u8]
}

/// The request method field, `Method`.
pub open spec fn key_method() -> Seq<u8> {
    seq![77u8, 101u8, 116u8, 104u8, 111u8, 100u8]
}

/// The object name field, `Name`.
pub open spec fn key_name() -> Seq<u8> {
    seq![78u8, 97u8, 109u8, 101u8]
}

/// The object version field, `Version`.
pub open spec fn key_version() -> Seq<u8> {
    seq![86u8, 101u8, 114u8, 115u8, 105u8, 111u8, 110u8]
}

/// The response correlation field, `id`.
pub open spec fn key_res_id() -> Seq<u8> {
    seq![105u8, 100u8]
}

/// The response argument-list field, `arguments`.
pub open spec fn key_res_arguments() -> Seq<u8> {
    seq![97u8, 114u8, 103u8, 117u8, 109u8, 101u8, 110u8, 116u8, 115u8]
}

/// The response error field, `error`.
pub open spec fn key_res_error() -> Seq<u8> {
    seq![101u8, 114u8, 114u8, 111u8, 114u8]
}

// ---------------------------------------------------------------------
// Size limits: every length on the wire is carried in at most four
// bytes, so values longer than that cannot be encoded.
// ---------------------------------------------------------------------
/// One more than the largest length a four-byte header can carry.
pub open spec fn len_limit() -> nat {
    0x1_0000_0000
}

/// Whether a character sequence fits a string header.
pub open spec fn str_encodable(s: Seq<char>) -> bool {
    encode_utf8(s).len() < len_limit()
}

/// Whether a byte blob fits a binary header.
pub open spec fn bin_encodable(b: Seq<u8>) -> bool {
    b.len() < len_limit()
}

/// Whether an argument list and each of its blobs fit their headers.
pub open spec fn arguments_encodable(a: Seq<Seq<u8>>) -> bool {
    &&& a.len() < len_limit()
    &&& forall|i: int| 0 <= i < a.len() ==> bin_encodable(#[trigger] a[i])
}

/// Whether both parts of an object id fit their headers.
pub open spec fn object_encodable(o: ObjectIDView) -> bool {
    str_encodable(o.name) && str_encodable(o.version)
}

/// Whether a whole request fits the wire format.
pub open spec fn request_encodable(r: RequestView) -> bool {
    &&& str_encodable(r.id)
    &&& arguments_encodable(r.arguments)
    &&& object_encodable(r.object)
    &&& str_encodable(r.reply_to)
    &&& str_encodable(r.method)
}

/// Whether a whole response fits the wire format.
pub open spec fn response_encodable(r: ResponseView) -> bool {
    &&& str_encodable(r.id)
    &&& arguments_encodable(r.arguments)
    &&& str_encodable(r.error)
}

// ---------------------------------------------------------------------
// The encoding, as mathematics: each value maps to the exact byte
// sequence the encoder emits.
// ---------------------------------------------------------------------
/// A length as two big-endian bytes.
pub open spec fn enc_u16(n: nat) -> Seq<u8> {
    seq![(n / 0x100) as u8, (n % 0x100) as u8]
}

/// A length as four big-endian bytes.
pub open spec fn enc_u32(n: nat) -> Seq<u8> {
    seq![
        ((n / 0x100_0000) % 0x100) as u8,
        ((n / 0x1_0000) % 0x100) as u8,
        ((n / 0x100) % 0x100) as u8,
        (n % 0x100) as u8,
    ]
}

/// The header before the UTF-8 bytes of a string of byte length `n`.
pub open spec fn enc_str_header(n: nat) -> Seq<u8> {
    if n < 32 {
        seq![(0xa0 + n) as u8]
    } else if n < 0x100 {
        seq![0xd9u8, n as u8]
    } else if n < 0x1_0000 {
        seq![0xdau8] + enc_u16(n)
    } else {
        seq![0xdbu8] + enc_u32(n)
    }
}

/// A string value: header, then its UTF-8 bytes.
pub open spec fn enc_str(b: Seq<u8>) -> Seq<u8> {
    enc_str_header(b.len()) + b
}

/// A string value from its characters.
pub open spec fn enc_string(s: Seq<char>) -> Seq<u8> {
    enc_str(encode_utf8(s))
}

/// The header before a binary blob of length `n`.
pub open spec fn enc_bin_header(n: nat) -> Seq<u8> {
    if n < 0x100 {
        seq![0xc4u8, n as u8]
    } else if n < 0x1_0000 {
        seq![0xc5u8] + enc_u16(n)
    } else {
        seq![0xc6u8] + enc_u32(n)
    }
}

/// A binary blob: header, then the raw bytes.
pub open spec fn enc_bin(b: Seq<u8>) -> Seq<u8> {
    enc_bin_header(b.len()) + b
}

/// The header before the `n` elements of an array.
pub open spec fn enc_array_header(n: nat) -> Seq<u8> {
    if n < 16 {
        seq![(0x90 + n) as u8]
    } else if n < 0x1_0000 {
        seq![0xdcu8] + enc_u16(n)
    } else {
        seq![0xddu8] + enc_u32(n)
    }
}

/// The header before the `n` key/value pairs of a map.
pub open spec fn enc_map_header(n: nat) -> Seq<u8> {
    if n < 16 {
        seq![(0x80 + n) as u8]
    } else if n < 0x1_0000 {
        seq![0xdeu8] + enc_u16(n)
    } else {
        seq![0xdfu8] + enc_u32(n)
    }
}

/// The elements of an argument list, one blob after the other.
pub open spec fn enc_bin_list(args: Seq<Seq<u8>>) -> Seq<u8>
    decreases args.len(),
{
    if args.len() == 0 {
        Seq::empty()
    } else {
        enc_bin(args[0]) + enc_bin_list(args.drop_first())
    }
}

/// An argument list: array header, then the blobs.
pub open spec fn enc_arguments(args: Seq<Seq<u8>>) -> Seq<u8> {
    enc_array_header(args.len()) + enc_bin_list(args)
}

/// An object id: a two-field map, `Name` then `Version`.
pub open spec fn enc_object(o: ObjectIDView) -> Seq<u8> {
    enc_map_header(2) + enc_str(key_name()) + enc_string(o.name) + enc_str(key_version())
        + enc_string(o.version)
}

/// A request: a five-field map in the order `ID`, `Arguments`,
/// `Object`, `ReplyTo`, `Method`.
pub open spec fn enc_request(r: RequestView) -> Seq<u8> {
    enc_map_header(5) + enc_str(key_id()) + enc_string(r.id) + enc_str(key_arguments())
        + enc_arguments(r.arguments) + enc_str(key_object()) + enc_object(r.object) + enc_str(
        key_reply_to(),
    ) + enc_string(r.reply_to) + enc_str(key_method()) + enc_string(r.method)
}

/// A response: a three-field map in the order `id`, `arguments`,
/// `error`.
pub open spec fn enc_response(r: ResponseView) -> Seq<u8> {
    enc_map_header(3) + enc_str(key_res_id()) + enc_string(r.id) + enc_str(key_res_arguments())
        + enc_arguments(r.arguments) + enc_str(key_res_error()) + enc_string(r.error)
}

/// An event: a map that carries no fields in this envelope version.
pub open spec fn enc_event() -> Seq<u8> {
    seq![0x80u8]
}

// ---------------------------------------------------------------------
// Byte writers: each appends exactly the specified encoding.
// ---------------------------------------------------------------------
fn write_u16(out: &mut Vec<u8>, n: usize)
    requires
        n < 0x1_0000,
    ensures
        final(out)@ == old(out)@ + enc_u16(n as nat),
{
    out.push((n / 0x100) as u8);
    out.push((n % 0x100) as u8);
    proof {
        assert(out@ =~= old(out)@ + enc_u16(n as nat));
    }
}

fn write_u32(out: &mut Vec<u8>, n: usize)
    requires
        n < 0x1_0000_0000,
    ensures
        final(out)@ == old(out)@ + enc_u32(n as nat),
{
    out.push(((n / 0x100_0000) % 0x100) as u8);
    out.push(((n / 0x1_0000) % 0x100) as u8);
    out.push(((n / 0x100) % 0x100) as u8);
    out.push((n % 0x100) as u8);
    proof {
        assert(out@ =~= old(out)@ + enc_u32(n as nat));
    }
}

fn write_str_header(out: &mut Vec<u8>, n: usize) -> (ok: bool)
    ensures
        ok ==> (n as nat) < len_limit() && final(out)@ == old(out)@ + enc_str_header(n as nat),
        !ok ==> (n as nat) >= len_limit() && final(out)@ == old(out)@,
{
    if n < 32 {
        out.push(0xa0 + (n as u8));
        proof {
            assert(out@ =~= old(out)@ + enc_str_header(n as nat));
        }
        true
    } else if n < 0x100 {
        out.push(0xd9);
        out.push(n as u8);
        proof {
            assert(out@ =~= old(out)@ + enc_str_header(n as nat));
        }
        true
    } else if n < 0x1_0000 {
        out.push(0xda);
        write_u16(out, n);
        proof {
            assert(out@ =~= old(out)@ + enc_str_header(n as nat));
        }
        true
    } else if (n as u64) < 0x1_0000_0000u64 {
        out.push(0xdb);
        write_u32(out, n);
        proof {
            assert(out@ =~= old(out)@ + enc_str_header(n as nat));
        }
        true
    } else {
        false
    }
}

fn write_str_bytes(out: &mut Vec<u8>, b: &[u8]) -> (ok: bool)
    ensures
        ok ==> b@.len() < len_limit() && final(out)@ == old(out)@ + enc_str(b@),
        !ok ==> b@.len() >= len_limit() && final(out)@ == old(out)@,
{
    let ok = write_str_header(out, b.len());
    if ok {
        out.extend_from_slice(b);
        proof {
            assert(out@ =~= old(out)@ + enc_str(b@));
        }
    }
    ok
}

fn write_string(out: &mut Vec<u8>, s: &str) -> (ok: bool)
    ensures
        ok ==> str_encodable(s@) && final(out)@ == old(out)@ + enc_string(s@),
        !ok ==> !str_encodable(s@) && final(out)@ == old(out)@,
{
    write_str_bytes(out, s.as_bytes())
}

fn write_bin(out: &mut Vec<u8>, b: &[u8]) -> (ok: bool)
    ensures
        ok ==> bin_encodable(b@) && final(out)@ == old(out)@ + enc_bin(b@),
        !ok ==> !bin_encodable(b@) && final(out)@ == old(out)@,
{
    let n = b.len();
    if n < 0x100 {
        out.push(0xc4);
        out.push(n as u8);
    } else if n < 0x1_0000 {
        out.push(0xc5);
        write_u16(out, n);
    } else if (n as u64) < 0x1_0000_0000u64 {
        out.push(0xc6);
        write_u32(out, n);
    } else {
        return false;
    }
    out.extend_from_slice(b);
    proof {
        assert(out@ =~= old(out)@ + enc_bin(b@));
    }
    true
}

fn write_array_header(out: &mut Vec<u8>, n: usize) -> (ok: bool)
    ensures
        ok ==> (n as nat) < len_limit() && final(out)@ == old(out)@ + enc_array_header(n as nat),
        !ok ==> (n as nat) >= len_limit() && final(out)@ == old(out)@,
{
    if n < 16 {
        out.push(0x90 + (n as u8));
        proof {
            assert(out@ =~= old(out)@ + enc_array_header(n as nat));
        }
        true
    } else if n < 0x1_0000 {
        out.push(0xdc);
        write_u16(out, n);
        proof {
            assert(out@ =~= old(out)@ + enc_array_header(n as nat));
        }
        true
    } else if (n as u64) < 0x1_0000_0000u64 {
        out.push(0xdd);
        write_u32(out, n);
        proof {
            assert(out@ =~= old(out)@ + enc_array_header(n as nat));
        }
        true
    } else {
        false
    }
}

fn write_small_map_header(out: &mut Vec<u8>, n: usize)
    requires
        n < 16,
    ensures
        final(out)@ == old(out)@ + enc_map_header(n as nat),
{
    out.push(0x80 + (n as u8));
    proof {
        assert(out@ =~= old(out)@ + enc_map_header(n as nat));
    }
}

/// Appends a string value whose bytes are a short field name.
fn write_fixstr_key(out: &mut Vec<u8>, b: &[u8])
    requires
        b@.len() < 32,
    ensures
        final(out)@ == old(out)@ + enc_str(b@),
{
    let ok = write_str_bytes(out, b);
    proof {
        assert(ok);
    }
}

proof fn lemma_enc_bin_list_snoc(pre: Seq<Seq<u8>>, x: Seq<u8>)
    ensures
        enc_bin_list(pre.push(x)) == enc_bin_list(pre) + enc_bin(x),
    decreases pre.len(),
{
    if pre.len() == 0 {
        assert(pre.push(x)[0] == x);
        assert(pre.push(x).drop_first() =~= Seq::<Seq<u8>>::empty());
        assert(enc_bin_list(pre.push(x).drop_first()) == Seq::<u8>::empty());
        assert(enc_bin_list(pre.push(x)) == enc_bin(x) + Seq::<u8>::empty());
        assert(enc_bin_list(pre) == Seq::<u8>::empty());
        assert(enc_bin_list(pre.push(x)) =~= enc_bin_list(pre) + enc_bin(x));
    } else {
        assert(pre.push(x).drop_first() =~= pre.drop_first().push(x));
        lemma_enc_bin_list_snoc(pre.drop_first(), x);
        assert(pre.push(x)[0] == pre[0]);
        assert(enc_bin_list(pre.push(x)) == enc_bin(pre[0]) + enc_bin_list(pre.drop_first().push(x)));
        assert(enc_bin_list(pre.push(x)) =~= enc_bin_list(pre) + enc_bin(x));
    }
}

/// The argument lists of request and response views, as one spec.
pub open spec fn args_view(a: Seq<Vec<u8>>) -> Seq<Seq<u8>> {
    Seq::new(a.len(), |i: int| a[i]@)
}

fn write_arguments(out: &mut Vec<u8>, args: &Vec<Vec<u8>>) -> (ok: bool)
    ensures
        ok ==> arguments_encodable(args_view(args@)) && final(out)@ == old(out)@ + enc_arguments(
            args_view(args@),
        ),
        !ok ==> !arguments_encodable(args_view(args@)),
{
    let ghost av = args_view(args@);
    if !write_array_header(out, args.len()) {
        return false;
    }
    let ghost base = out@;
    let mut i: usize = 0;
    while i < args.len()
        invariant
            i <= args.len(),
            av == args_view(args@),
            av.len() == args@.len(),
            out@ == base + enc_bin_list(av.take(i as int)),
            forall|j: int| 0 <= j < i ==> bin_encodable(#[trigger] av[j]),
            base == old(out)@ + enc_array_header(av.len()),
        decreases args.len() - i,
    {
        let ghost prev = out@;
        if !write_bin(out, args[i].as_slice()) {
            proof {
                assert(av[i as int] == args@[i as int]@);
                assert(!bin_encodable(av[i as int]));
            }
            return false;
        }
        proof {
            assert(av.take(i + 1) =~= av.take(i as int).push(av[i as int]));
            lemma_enc_bin_list_snoc(av.take(i as int), av[i as int]);
            assert(out@ =~= base + enc_bin_list(av.take(i + 1)));
        }
        i = i + 1;
    }
    proof {
        assert(av.take(av.len() as int) =~= av);
        assert(out@ =~= old(out)@ + enc_arguments(av));
    }
    true
}

fn write_object(out: &mut Vec<u8>, o: &ObjectID) -> (ok: bool)
    ensures
        ok ==> object_encodable(o@) && final(out)@ == old(out)@ + enc_object(o@),
        !ok ==> !object_encodable(o@),
{
    write_small_map_header(out, 2);
    let key_n: [u8; 4] = [78, 97, 109, 101];
    write_fixstr_key(out, key_n.as_slice());
    proof {
        assert(key_n@ =~= key_name());
    }
    if !write_string(out, o.name.as_str()) {
        return false;
    }
    let key_v: [u8; 7] = [86, 101, 114, 115, 105, 111, 110];
    write_fixstr_key(out, key_v.as_slice());
    proof {
        assert(key_v@ =~= key_version());
    }
    if !write_string(out, o.version.as_str()) {
        return false;
    }
    proof {
        assert(out@ =~= old(out)@ + enc_object(o@));
    }
    true
}

// ---------------------------------------------------------------------
// Whole-envelope encoders.
// ---------------------------------------------------------------------
/// Encodes a request as its wire record.
///
/// Succeeds exactly when every part of the request fits its length
/// header; the bytes produced are `enc_request` of the request's
/// content, so identical logical requests encode to identical bytes.
pub fn encode_request(r: &Request) -> (res: Result<Vec<u8>, ZBusError>)
    ensures
        match res {
            Ok(v) => request_encodable(r@) && v@ == enc_request(r@),
            Err(e) => !request_encodable(r@) && e is EncodingError,
        },
{
    let mut out: Vec<u8> = Vec::new();
    write_small_map_header(&mut out, 5);
    let key_i: [u8; 2] = [73, 68];
    write_fixstr_key(&mut out, key_i.as_slice());
    proof {
        assert(key_i@ =~= key_id());
    }
    if !write_string(&mut out, r.id.0.as_str()) {
        return Err(encoding_error());
    }
    let key_a: [u8; 9] = [65, 114, 103, 117, 109, 101, 110, 116, 115];
    write_fixstr_key(&mut out, key_a.as_slice());
    proof {
        assert(key_a@ =~= key_arguments());
    }
    if !write_arguments(&mut out, &r.arguments) {
        return Err(encoding_error());
    }
    let key_o: [u8; 6] = [79, 98, 106, 101, 99, 116];
    write_fixstr_key(&mut out, key_o.as_slice());
    proof {
        assert(key_o@ =~= key_object());
    }
    if !write_object(&mut out, &r.object) {
        return Err(encoding_error());
    }
    let key_r: [u8; 7] = [82, 101, 112, 108, 121, 84, 111];
    write_fixstr_key(&mut out, key_r.as_slice());
    proof {
        assert(key_r@ =~= key_reply_to());
    }
    if !write_string(&mut out, r.reply_to.0.as_str()) {
        return Err(encoding_error());
    }
    let key_m: [u8; 6] = [77, 101, 116, 104, 111, 100];
    write_fixstr_key(&mut out, key_m.as_slice());
    proof {
        assert(key_m@ =~= key_method());
    }
    if !write_string(&mut out, r.method.as_str()) {
        return Err(encoding_error());
    }
    proof {
        assert(r@.arguments == args_view(r.arguments@));
        assert(out@ =~= enc_request(r@));
    }
    Ok(out)
}

/// Encodes a response as its wire record.
///
/// Succeeds exactly when every part fits its length header; the bytes
/// are `enc_response` of the response's content.
pub fn encode_response(r: &Response) -> (res: Result<Vec<u8>, ZBusError>)
    ensures
        match res {
            Ok(v) => response_encodable(r@) && v@ == enc_response(r@),
            Err(e) => !response_encodable(r@) && e is EncodingError,
        },
{
    let mut out: Vec<u8> = Vec::new();
    write_small_map_header(&mut out, 3);
    let key_i: [u8; 2] = [105, 100];
    write_fixstr_key(&mut out, key_i.as_slice());
    proof {
        assert(key_i@ =~= key_res_id());
    }
    if !write_string(&mut out, r.id.0.as_str()) {
        return Err(encoding_error());
    }
    let key_a: [u8; 9] = [97, 114, 103, 117, 109, 101, 110, 116, 115];
    write_fixstr_key(&mut out, key_a.as_slice());
    proof {
        assert(key_a@ =~= key_res_arguments());
    }
    if !write_arguments(&mut out, &r.arguments) {
        return Err(encoding_error());
    }
    let key_e: [u8; 5] = [101, 114, 114, 111, 114];
    write_fixstr_key(&mut out, key_e.as_slice());
    proof {
        assert(key_e@ =~= key_res_error());
    }
    if !write_string(&mut out, r.error.as_str()) {
        return Err(encoding_error());
    }
    proof {
        assert(r@.arguments == args_view(r.arguments@));
        assert(out@ =~= enc_response(r@));
    }
    Ok(out)
}

/// Encodes an event as its wire record: a map with no fields.
pub fn encode_event(e: &Event) -> (v: Vec<u8>)
    ensures
        v@ == enc_event(),
{
    let mut out: Vec<u8> = Vec::new();
    write_small_map_header(&mut out, 0);
    proof {
        assert(out@ =~= enc_event());
    }
    out
}

fn encoding_error() -> (e: ZBusError)
    ensures
        e is EncodingError,
{
    ZBusError::EncodingError("value too long for its wire length header".to_owned())
}

// ---------------------------------------------------------------------
// The decoding, as mathematics: each parser consumes a prefix of the
// input and hands back the value with the unconsumed suffix, or
// nothing when the prefix is malformed.
// ---------------------------------------------------------------------
/// Two big-endian bytes as a length.
pub open spec fn parse_len16(d: Seq<u8>) -> Option<(nat, Seq<u8>)> {
    if d.len() >= 2 {
        Some((((d[0] as nat) * 0x100 + d[1] as nat), d.skip(2)))
    } else {
        None
    }
}

/// Four big-endian bytes as a length.
pub open spec fn parse_len32(d: Seq<u8>) -> Option<(nat, Seq<u8>)> {
    if d.len() >= 4 {
        Some(
            (
                ((d[0] as nat) * 0x100_0000 + (d[1] as nat) * 0x1_0000 + (d[2] as nat) * 0x100 + d[3] as nat),
                d.skip(4),
            ),
        )
    } else {
        None
    }
}

/// A string header in any of its forms, yielding the byte length.
pub open spec fn parse_str_header(d: Seq<u8>) -> Option<(nat, Seq<u8>)> {
    if d.len() == 0 {
        None
    } else if 0xa0 <= d[0] < 0xc0 {
        Some((((d[0] - 0xa0) as nat), d.skip(1)))
    } else if d[0] == 0xd9 {
        if d.len() >= 2 {
            Some(((d[1] as nat), d.skip(2)))
        } else {
            None
        }
    } else if d[0] == 0xda {
        parse_len16(d.skip(1))
    } else if d[0] == 0xdb {
        parse_len32(d.skip(1))
    } else {
        None
    }
}

/// `n` raw bytes.
pub open spec fn parse_raw(d: Seq<u8>, n: nat) -> Option<(Seq<u8>, Seq<u8>)> {
    if n <= d.len() {
        Some((d.take(n as int), d.skip(n as int)))
    } else {
        None
    }
}

/// A string value as its UTF-8 bytes.
pub open spec fn parse_str(d: Seq<u8>) -> Option<(Seq<u8>, Seq<u8>)> {
    match parse_str_header(d) {
        Some((n, rest)) => parse_raw(rest, n),
        None => None,
    }
}

/// A string value as its characters; malformed UTF-8 is rejected.
pub open spec fn parse_string(d: Seq<u8>) -> Option<(Seq<char>, Seq<u8>)> {
    match parse_str(d) {
        Some((b, rest)) => if valid_utf8(b) {
            Some((decode_utf8(b), rest))
        } else {
            None
        },
        None => None,
    }
}

/// A binary blob in any of its header forms.
pub open spec fn parse_bin(d: Seq<u8>) -> Option<(Seq<u8>, Seq<u8>)> {
    if d.len() == 0 {
        None
    } else if d[0] == 0xc4 {
        if d.len() >= 2 {
            parse_raw(d.skip(2), d[1] as nat)
        } else {
            None
        }
    } else if d[0] == 0xc5 {
        match parse_len16(d.skip(1)) {
            Some((n, rest)) => parse_raw(rest, n),
            None => None,
        }
    } else if d[0] == 0xc6 {
        match parse_len32(d.skip(1)) {
            Some((n, rest)) => parse_raw(rest, n),
            None => None,
        }
    } else {
        None
    }
}

/// An array header in any of its forms, yielding the element count.
pub open spec fn parse_array_header(d: Seq<u8>) -> Option<(nat, Seq<u8>)> {
    if d.len() == 0 {
        None
    } else if 0x90 <= d[0] < 0xa0 {
        Some((((d[0] - 0x90) as nat), d.skip(1)))
    } else if d[0] == 0xdc {
        parse_len16(d.skip(1))
    } else if d[0] == 0xdd {
        parse_len32(d.skip(1))
    } else {
        None
    }
}

/// A map header in any of its forms, yielding the pair count.
pub open spec fn parse_map_header(d: Seq<u8>) -> Option<(nat, Seq<u8>)> {
    if d.len() == 0 {
        None
    } else if 0x80 <= d[0] < 0x90 {
        Some((((d[0] - 0x80) as nat), d.skip(1)))
    } else if d[0] == 0xde {
        parse_len16(d.skip(1))
    } else if d[0] == 0xdf {
        parse_len32(d.skip(1))
    } else {
        None
    }
}

/// `n` binary blobs, one after the other.
pub open spec fn parse_bin_list(d: Seq<u8>, n: nat) -> Option<(Seq<Seq<u8>>, Seq<u8>)>
    decreases n,
{
    if n == 0 {
        Some((Seq::empty(), d))
    } else {
        match parse_bin(d) {
            Some((b, rest)) => match parse_bin_list(rest, (n - 1) as nat) {
                Some((l, rest2)) => Some((seq![b] + l, rest2)),
                None => None,
            },
            None => None,
        }
    }
}

/// An argument list: array header, then that many blobs.
pub open spec fn parse_arguments(d: Seq<u8>) -> Option<(Seq<Seq<u8>>, Seq<u8>)> {
    match parse_array_header(d) {
        Some((n, rest)) => parse_bin_list(rest, n),
        None => None,
    }
}

/// An object id while its fields are being collected.
pub struct PartialObject {
    pub name: Option<Seq<char>>,
    pub version: Option<Seq<char>>,
}

/// An object id with no fields collected yet.
pub open spec fn empty_partial_object() -> PartialObject {
    PartialObject { name: None, version: None }
}

/// `n` object-id fields in any order; duplicated or unknown field
/// names are rejected.
pub open spec fn parse_object_fields(d: Seq<u8>, n: nat, acc: PartialObject) -> Option<
    (PartialObject, Seq<u8>),
>
    decreases n,
{
    if n == 0 {
        Some((acc, d))
    } else {
        match parse_str(d) {
            None => None,
            Some((k, rest)) => if k == key_name() {
                if acc.name is Some {
                    None
                } else {
                    match parse_string(rest) {
                        Some((v, rest2)) => parse_object_fields(
                            rest2,
                            (n - 1) as nat,
                            PartialObject { name: Some(v), version: acc.version },
                        ),
                        None => None,
                    }
                }
            } else if k == key_version() {
                if acc.version is Some {
                    None
                } else {
                    match parse_string(rest) {
                        Some((v, rest2)) => parse_object_fields(
                            rest2,
                            (n - 1) as nat,
                            PartialObject { name: acc.name, version: Some(v) },
                        ),
                        None => None,
                    }
                }
            } else {
                None
            },
        }
    }
}

/// An object id: a map whose fields are `Name` and `Version`, each
/// exactly once, in any order.
pub open spec fn parse_object(d: Seq<u8>) -> Option<(ObjectIDView, Seq<u8>)> {
    match parse_map_header(d) {
        Some((n, rest)) => match parse_object_fields(rest, n, empty_partial_object()) {
            Some((p, rest2)) => if p.name is Some && p.version is Some {
                Some((ObjectIDView { name: p.name->0, version: p.version->0 }, rest2))
            } else {
                None
            },
            None => None,
        },
        None => None,
    }
}

/// A request while its fields are being collected.
pub struct PartialRequest {
    pub id: Option<Seq<char>>,
    pub arguments: Option<Seq<Seq<u8>>>,
    pub object: Option<ObjectIDView>,
    pub reply_to: Option<Seq<char>>,
    pub method: Option<Seq<char>>,
}

/// A request with no fields collected yet.
pub open spec fn empty_partial_request() -> PartialRequest {
    PartialRequest { id: None, arguments: None, object: None, reply_to: None, method: None }
}

/// `n` request fields in any order; duplicated or unknown field names
/// are rejected.
pub open spec fn parse_request_fields(d: Seq<u8>, n: nat, acc: PartialRequest) -> Option<
    (PartialRequest, Seq<u8>),
>
    decreases n,
{
    if n == 0 {
        Some((acc, d))
    } else {
        match parse_str(d) {
            None => None,
            Some((k, rest)) => if k == key_id() {
                if acc.id is Some {
                    None
                } else {
                    match parse_string(rest) {
                        Some((v, rest2)) => parse_request_fields(
                            rest2,
                            (n - 1) as nat,
                            PartialRequest {
                                id: Some(v),
                                arguments: acc.arguments,
                                object: acc.object,
                                reply_to: acc.reply_to,
                                method: acc.method,
                            },
                        ),
                        None => None,
                    }
                }
            } else if k == key_arguments() {
                if acc.arguments is Some {
                    None
                } else {
                    match parse_arguments(rest) {
                        Some((v, rest2)) => parse_request_fields(
                            rest2,
                            (n - 1) as nat,
                            PartialRequest {
                                id: acc.id,
                                arguments: Some(v),
                                object: acc.object,
                                reply_to: acc.reply_to,
                                method: acc.method,
                            },
                        ),
                        None => None,
                    }
                }
            } else if k == key_object() {
                if acc.object is Some {
                    None
                } else {
                    match parse_object(rest) {
                        Some((v, rest2)) => parse_request_fields(
                            rest2,
                            (n - 1) as nat,
                            PartialRequest {
                                id: acc.id,
                                arguments: acc.arguments,
                                object: Some(v),
                                reply_to: acc.reply_to,
                                method: acc.method,
                            },
                        ),
                        None => None,
                    }
                }
            } else if k == key_reply_to() {
                if acc.reply_to is Some {
                    None
                } else {
                    match parse_string(rest) {
                        Some((v, rest2)) => parse_request_fields(
                            rest2,
                            (n - 1) as nat,
                            PartialRequest {
                                id: acc.id,
                                arguments: acc.arguments,
                                object: acc.object,
                                reply_to: Some(v),
                                method: acc.method,
                            },
                        ),
                        None => None,
                    }
                }
            } else if k == key_method() {
                if acc.method is Some {
                    None
                } else {
                    match parse_string(rest) {
                        Some((v, rest2)) => parse_request_fields(
                            rest2,
                            (n - 1) as nat,
                            PartialRequest {
                                id: acc.id,
                                arguments: acc.arguments,
                                object: acc.object,
                                reply_to: acc.reply_to,
                                method: Some(v),
                            },
                        ),
                        None => None,
                    }
                }
            } else {
                None
            },
        }
    }
}

/// A whole request record: a map carrying each request field exactly
/// once, in any order, with nothing after it.
pub open spec fn parse_request(d: Seq<u8>) -> Option<RequestView> {
    match parse_map_header(d) {
        Some((n, rest)) => match parse_request_fields(rest, n, empty_partial_request()) {
            Some((p, rest2)) => if rest2.len() == 0 && p.id is Some && p.arguments is Some
                && p.object is Some && p.reply_to is Some && p.method is Some {
                Some(
                    RequestView {
                        id: p.id->0,
                        arguments: p.arguments->0,
                        object: p.object->0,
                        reply_to: p.reply_to->0,
                        method: p.method->0,
                    },
                )
            } else {
                None
            },
            None => None,
        },
        None => None,
    }
}

/// A response while its fields are being collected.
pub struct PartialResponse {
    pub id: Option<Seq<char>>,
    pub arguments: Option<Seq<Seq<u8>>>,
    pub error: Option<Seq<char>>,
}

/// A response with no fields collected yet.
pub open spec fn empty_partial_response() -> PartialResponse {
    PartialResponse { id: None, arguments: None, error: None }
}

/// `n` response fields in any order; duplicated or unknown field
/// names are rejected.
pub open spec fn parse_response_fields(d: Seq<u8>, n: nat, acc: PartialResponse) -> Option<
    (PartialResponse, Seq<u8>),
>
    decreases n,
{
    if n == 0 {
        Some((acc, d))
    } else {
        match parse_str(d) {
            None => None,
            Some((k, rest)) => if k == key_res_id() {
                if acc.id is Some {
                    None
                } else {
                    match parse_string(rest) {
                        Some((v, rest2)) => parse_response_fields(
                            rest2,
                            (n - 1) as nat,
                            PartialResponse {
                                id: Some(v),
                                arguments: acc.arguments,
                                error: acc.error,
                            },
                        ),
                        None => None,
                    }
                }
            } else if k == key_res_arguments() {
                if acc.arguments is Some {
                    None
                } else {
                    match parse_arguments(rest) {
                        Some((v, rest2)) => parse_response_fields(
                            rest2,
                            (n - 1) as nat,
                            PartialResponse { id: acc.id, arguments: Some(v), error: acc.error },
                        ),
                        None => None,
                    }
                }
            } else if k == key_res_error() {
                if acc.error is Some {
                    None
                } else {
                    match parse_string(rest) {
                        Some((v, rest2)) => parse_response_fields(
                            rest2,
                            (n - 1) as nat,
                            PartialResponse { id: acc.id, arguments: acc.arguments, error: Some(v) },
                        ),
                        None => None,
                    }
                }
            } else {
                None
            },
        }
    }
}

/// A whole response record: a map carrying each response field exactly
/// once, in any order, with nothing after it.
pub open spec fn parse_response(d: Seq<u8>) -> Option<ResponseView> {
    match parse_map_header(d) {
        Some((n, rest)) => match parse_response_fields(rest, n, empty_partial_response()) {
            Some((p, rest2)) => if rest2.len() == 0 && p.id is Some && p.arguments is Some
                && p.error is Some {
                Some(ResponseView { id: p.id->0, arguments: p.arguments->0, error: p.error->0 })
            } else {
                None
            },
            None => None,
        },
        None => None,
    }
}

/// Whether the bytes form a whole event record: a map carrying no
/// fields, with nothing after it.
pub open spec fn is_event_encoding(d: Seq<u8>) -> bool {
    match parse_map_header(d) {
        Some((n, rest)) => n == 0 && rest.len() == 0,
        None => false,
    }
}

// ---------------------------------------------------------------------
// Byte readers: each walks the input at a position and agrees exactly
// with the spec parser applied to the suffix at that position.
// ---------------------------------------------------------------------
/// Relies on `String::from_utf8`: it succeeds exactly on valid UTF-8
/// and returns the string made of those very bytes.
#[verifier::external_body]
fn string_from_utf8(v: Vec<u8>) -> (r: Option<String>)
    ensures
        match r {
            Some(s) => valid_utf8(v@) && encode_utf8(s@) == v@,
            None => !valid_utf8(v@),
        },
{
    String::from_utf8(v).ok()
}

/// Whether two byte slices hold the same bytes.
fn bytes_eq(a: &[u8], b: &[u8]) -> (r: bool)
    ensures
        r <==> a@ == b@,
{
    if a.len() != b.len() {
        proof {
            assert(a@.len() != b@.len());
        }
        return false;
    }
    let mut i: usize = 0;
    while i < a.len()
        invariant
            i <= a.len(),
            a@.len() == b@.len(),
            forall|j: int| 0 <= j < i ==> a@[j] == b@[j],
        decreases a.len() - i,
    {
        if *slice_index_get(a, i) != *slice_index_get(b, i) {
            return false;
        }
        i = i + 1;
    }
    proof {
        assert(a@ =~= b@);
    }
    true
}

proof fn lemma_skip_skip(s: Seq<u8>, a: int, b: int)
    requires
        0 <= a,
        0 <= b,
        a + b <= s.len(),
    ensures
        s.skip(a).skip(b) == s.skip(a + b),
{
    assert(s.skip(a).skip(b) =~= s.skip(a + b));
}

fn read_byte(d: &[u8], pos: usize) -> (r: Option<(u8, usize)>)
    requires
        pos <= d@.len(),
    ensures
        match r {
            Some((b, p)) => pos < d@.len() && b == d@[pos as int] && p == pos + 1,
            None => pos == d@.len(),
        },
{
    if pos < d.len() {
        Some((*slice_index_get(d, pos), pos + 1))
    } else {
        None
    }
}

fn read_len16(d: &[u8], pos: usize) -> (r: Option<(u32, usize)>)
    requires
        pos <= d@.len(),
    ensures
        match r {
            Some((n, p)) => pos <= p <= d@.len() && parse_len16(d@.skip(pos as int)) == Some(
                ((n as nat), d@.skip(p as int)),
            ),
            None => parse_len16(d@.skip(pos as int)) is None,
        },
{
    if d.len() - pos >= 2 {
        let b0 = *slice_index_get(d, pos);
        let b1 = *slice_index_get(d, pos + 1);
        let n: u32 = (b0 as u32) * 0x100 + (b1 as u32);
        proof {
            lemma_skip_skip(d@, pos as int, 2);
            assert(d@.skip(pos as int)[0] == d@[pos as int]);
            assert(d@.skip(pos as int)[1] == d@[pos as int + 1]);
        }
        Some((n, pos + 2))
    } else {
        None
    }
}

fn read_len32(d: &[u8], pos: usize) -> (r: Option<(u32, usize)>)
    requires
        pos <= d@.len(),
    ensures
        match r {
            Some((n, p)) => pos <= p <= d@.len() && parse_len32(d@.skip(pos as int)) == Some(
                ((n as nat), d@.skip(p as int)),
            ),
            None => parse_len32(d@.skip(pos as int)) is None,
        },
{
    if d.len() - pos >= 4 {
        let b0 = *slice_index_get(d, pos);
        let b1 = *slice_index_get(d, pos + 1);
        let b2 = *slice_index_get(d, pos + 2);
        let b3 = *slice_index_get(d, pos + 3);
        let n: u32 = (b0 as u32) * 0x100_0000 + (b1 as u32) * 0x1_0000 + (b2 as u32) * 0x100 + (
        b3 as u32);
        proof {
            lemma_skip_skip(d@, pos as int, 4);
            assert(d@.skip(pos as int)[0] == d@[pos as int]);
            assert(d@.skip(pos as int)[1] == d@[pos as int + 1]);
            assert(d@.skip(pos as int)[2] == d@[pos as int + 2]);
            assert(d@.skip(pos as int)[3] == d@[pos as int + 3]);
        }
        Some((n, pos + 4))
    } else {
        None
    }
}

fn read_str_header(d: &[u8], pos: usize) -> (r: Option<(u32, usize)>)
    requires
        pos <= d@.len(),
    ensures
        match r {
            Some((n, p)) => pos <= p <= d@.len() && parse_str_header(d@.skip(pos as int)) == Some(
                ((n as nat), d@.skip(p as int)),
            ),
            None => parse_str_header(d@.skip(pos as int)) is None,
        },
{
    proof {
        assert(d@.skip(pos as int).len() == d@.len() - pos);
    }
    match read_byte(d, pos) {
        None => None,
        Some((t, p1)) => {
            proof {
                assert(d@.skip(pos as int)[0] == t);
                lemma_skip_skip(d@, pos as int, 1);
            }
            if 0xa0 <= t && t < 0xc0 {
                Some((((t - 0xa0) as u32), p1))
            } else if t == 0xd9 {
                match read_byte(d, p1) {
                    None => None,
                    Some((b, p2)) => {
                        proof {
                            assert(d@.skip(pos as int)[1] == b);
                            lemma_skip_skip(d@, pos as int, 2);
                        }
                        Some(((b as u32), p2))
                    },
                }
            } else if t == 0xda {
                read_len16(d, p1)
            } else if t == 0xdb {
                read_len32(d, p1)
            } else {
                None
            }
        },
    }
}

fn read_raw(d: &[u8], pos: usize, n: u32) -> (r: Option<(Vec<u8>, usize)>)
    requires
        pos <= d@.len(),
    ensures
        match r {
            Some((v, p)) => pos <= p <= d@.len() && parse_raw(d@.skip(pos as int), n as nat)
                == Some((v@, d@.skip(p as int))),
            None => parse_raw(d@.skip(pos as int), n as nat) is None,
        },
{
    let nn = n as usize;
    if d.len() - pos >= nn {
        let v = slice_to_vec(slice_subrange(d, pos, pos + nn));
        proof {
            lemma_skip_skip(d@, pos as int, nn as int);
            assert(v@ =~= d@.skip(pos as int).take(nn as int));
        }
        Some((v, pos + nn))
    } else {
        None
    }
}

fn read_str(d: &[u8], pos: usize) -> (r: Option<(Vec<u8>, usize)>)
    requires
        pos <= d@.len(),
    ensures
        match r {
            Some((v, p)) => pos <= p <= d@.len() && parse_str(d@.skip(pos as int)) == Some(
                (v@, d@.skip(p as int)),
            ),
            None => parse_str(d@.skip(pos as int)) is None,
        },
{
    match read_str_header(d, pos) {
        None => None,
        Some((n, p1)) => read_raw(d, p1, n),
    }
}

fn read_string(d: &[u8], pos: usize) -> (r: Option<(String, usize)>)
    requires
        pos <= d@.len(),
    ensures
        match r {
            Some((s, p)) => pos <= p <= d@.len() && parse_string(d@.skip(pos as int)) == Some(
                (s@, d@.skip(p as int)),
            ),
            None => parse_string(d@.skip(pos as int)) is None,
        },
{
    match read_str(d, pos) {
        None => None,
        Some((v, p)) => {
            let ghost content = v@;
            match string_from_utf8(v) {
                None => None,
                Some(s) => {
                    proof {
                        encode_utf8_decode_utf8(s@);
                        encode_utf8_valid_utf8(s@);
                        assert(decode_utf8(content) == s@);
                    }
                    Some((s, p))
                },
            }
        },
    }
}

fn read_bin(d: &[u8], pos: usize) -> (r: Option<(Vec<u8>, usize)>)
    requires
        pos <= d@.len(),
    ensures
        match r {
            Some((v, p)) => pos <= p <= d@.len() && parse_bin(d@.skip(pos as int)) == Some(
                (v@, d@.skip(p as int)),
            ),
            None => parse_bin(d@.skip(pos as int)) is None,
        },
{
    proof {
        assert(d@.skip(pos as int).len() == d@.len() - pos);
    }
    match read_byte(d, pos) {
        None => None,
        Some((t, p1)) => {
            proof {
                assert(d@.skip(pos as int)[0] == t);
                lemma_skip_skip(d@, pos as int, 1);
            }
            if t == 0xc4 {
                match read_byte(d, p1) {
                    None => None,
                    Some((b, p2)) => {
                        proof {
                            assert(d@.skip(pos as int)[1] == b);
                            lemma_skip_skip(d@, pos as int, 2);
                        }
                        read_raw(d, p2, b as u32)
                    },
                }
            } else if t == 0xc5 {
                match read_len16(d, p1) {
                    None => None,
                    Some((n, p2)) => read_raw(d, p2, n),
                }
            } else if t == 0xc6 {
                match read_len32(d, p1) {
                    None => None,
                    Some((n, p2)) => read_raw(d, p2, n),
                }
            } else {
                None
            }
        },
    }
}

fn read_array_header(d: &[u8], pos: usize) -> (r: Option<(u32, usize)>)
    requires
        pos <= d@.len(),
    ensures
        match r {
            Some((n, p)) => pos <= p <= d@.len() && parse_array_header(d@.skip(pos as int))
                == Some(((n as nat), d@.skip(p as int))),
            None => parse_array_header(d@.skip(pos as int)) is None,
        },
{
    proof {
        assert(d@.skip(pos as int).len() == d@.len() - pos);
    }
    match read_byte(d, pos) {
        None => None,
        Some((t, p1)) => {
            proof {
                assert(d@.skip(pos as int)[0] == t);
                lemma_skip_skip(d@, pos as int, 1);
            }
            if 0x90 <= t && t < 0xa0 {
                Some((((t - 0x90) as u32), p1))
            } else if t == 0xdc {
                read_len16(d, p1)
            } else if t == 0xdd {
                read_len32(d, p1)
            } else {
                None
            }
        },
    }
}

fn read_map_header(d: &[u8], pos: usize) -> (r: Option<(u32, usize)>)
    requires
        pos <= d@.len(),
    ensures
        match r {
            Some((n, p)) => pos <= p <= d@.len() && parse_map_header(d@.skip(pos as int)) == Some(
                ((n as nat), d@.skip(p as int)),
            ),
            None => parse_map_header(d@.skip(pos as int)) is None,
        },
{
    proof {
        assert(d@.skip(pos as int).len() == d@.len() - pos);
    }
    match read_byte(d, pos) {
        None => None,
        Some((t, p1)) => {
            proof {
                assert(d@.skip(pos as int)[0] == t);
                lemma_skip_skip(d@, pos as int, 1);
            }
            if 0x80 <= t && t < 0x90 {
                Some((((t - 0x80) as u32), p1))
            } else if t == 0xde {
                read_len16(d, p1)
            } else if t == 0xdf {
                read_len32(d, p1)
            } else {
                None
            }
        },
    }
}

fn read_bin_list(d: &[u8], pos: usize, n: u32) -> (r: Option<(Vec<Vec<u8>>, usize)>)
    requires
        pos <= d@.len(),
    ensures
        match r {
            Some((vs, p)) => pos <= p <= d@.len() && parse_bin_list(d@.skip(pos as int), n as nat)
                == Some((args_view(vs@), d@.skip(p as int))),
            None => parse_bin_list(d@.skip(pos as int), n as nat) is None,
        },
{
    let mut acc: Vec<Vec<u8>> = Vec::new();
    let mut cur: usize = pos;
    let mut i: u32 = 0;
    proof {
        assert(args_view(acc@) =~= Seq::<Seq<u8>>::empty());
        assert(args_view(acc@) + Seq::<Seq<u8>>::empty() =~= Seq::<Seq<u8>>::empty());
    }
    while i < n
        invariant
            i <= n,
            pos <= cur <= d@.len(),
            match parse_bin_list(d@.skip(cur as int), (n - i) as nat) {
                Some((l, rest)) => parse_bin_list(d@.skip(pos as int), n as nat) == Some(
                    (args_view(acc@) + l, rest),
                ),
                None => parse_bin_list(d@.skip(pos as int), n as nat) is None,
            },
        decreases n - i,
    {
        let ghost acc0 = args_view(acc@);
        match read_bin(d, cur) {
            None => {
                return None;
            },
            Some((v, p2)) => {
                let ghost bv = v@;
                proof {
                    match parse_bin_list(d@.skip(p2 as int), (n - i - 1) as nat) {
                        Some((l2, r2)) => {
                            assert(parse_bin_list(d@.skip(cur as int), (n - i) as nat) == Some(
                                ((seq![bv] + l2), r2),
                            ));
                            assert(acc0.push(bv) + l2 =~= acc0 + (seq![bv] + l2));
                        },
                        None => {
                            assert(parse_bin_list(d@.skip(cur as int), (n - i) as nat) is None);
                        },
                    }
                }
                acc.push(v);
                proof {
                    assert(args_view(acc@) =~= acc0.push(bv));
                }
                cur = p2;
            },
        }
        i = i + 1;
    }
    proof {
        assert(parse_bin_list(d@.skip(cur as int), 0) == Some(
            (Seq::<Seq<u8>>::empty(), d@.skip(cur as int)),
        ));
        assert(args_view(acc@) + Seq::<Seq<u8>>::empty() =~= args_view(acc@));
    }
    Some((acc, cur))
}

fn read_arguments(d: &[u8], pos: usize) -> (r: Option<(Vec<Vec<u8>>, usize)>)
    requires
        pos <= d@.len(),
    ensures
        match r {
            Some((vs, p)) => pos <= p <= d@.len() && parse_arguments(d@.skip(pos as int)) == Some(
                (args_view(vs@), d@.skip(p as int)),
            ),
            None => parse_arguments(d@.skip(pos as int)) is None,
        },
{
    match read_array_header(d, pos) {
        None => None,
        Some((n, p1)) => read_bin_list(d, p1, n),
    }
}

/// The content of an optional string, seen from a proof.
pub open spec fn opt_chars(o: Option<String>) -> Option<Seq<char>> {
    match o {
        Some(s) => Some(s@),
        None => None,
    }
}

/// The content of an optional argument list, seen from a proof.
pub open spec fn opt_args(o: Option<Vec<Vec<u8>>>) -> Option<Seq<Seq<u8>>> {
    match o {
        Some(v) => Some(args_view(v@)),
        None => None,
    }
}

/// The content of an optional object id, seen from a proof.
pub open spec fn opt_object(o: Option<ObjectID>) -> Option<ObjectIDView> {
    match o {
        Some(x) => Some(x@),
        None => None,
    }
}

fn read_object(d: &[u8], pos: usize) -> (r: Option<(ObjectID, usize)>)
    requires
        pos <= d@.len(),
    ensures
        match r {
            Some((o, p)) => pos <= p <= d@.len() && parse_object(d@.skip(pos as int)) == Some(
                (o@, d@.skip(p as int)),
            ),
            None => parse_object(d@.skip(pos as int)) is None,
        },
{
    let (n, p1) = match read_map_header(d, pos) {
        None => {
            return None;
        },
        Some(x) => x,
    };
    let mut name: Option<String> = None;
    let mut version: Option<String> = None;
    let mut cur: usize = p1;
    let mut i: u32 = 0;
    while i < n
        invariant
            i <= n,
            p1 <= cur <= d@.len(),
            pos <= p1 <= d@.len(),
            parse_map_header(d@.skip(pos as int)) == Some(((n as nat), d@.skip(p1 as int))),
            match parse_object_fields(
                d@.skip(cur as int),
                (n - i) as nat,
                (PartialObject { name: opt_chars(name), version: opt_chars(version) }),
            ) {
                Some((p, rest)) => parse_object_fields(
                    d@.skip(p1 as int),
                    n as nat,
                    empty_partial_object(),
                ) == Some((p, rest)),
                None => parse_object_fields(
                    d@.skip(p1 as int),
                    n as nat,
                    empty_partial_object(),
                ) is None,
            },
        decreases n - i,
    {
        let ghost accv = PartialObject { name: opt_chars(name), version: opt_chars(version) };
        let (key, p2) = match read_str(d, cur) {
            None => {
                return None;
            },
            Some(x) => x,
        };
        let key_n: [u8; 4] = [78, 97, 109, 101];
        let key_v: [u8; 7] = [86, 101, 114, 115, 105, 111, 110];
        proof {
            assert(key_n@ =~= key_name());
            assert(key_v@ =~= key_version());
        }
        if bytes_eq(key.as_slice(), key_n.as_slice()) {
            if name.is_some() {
                return None;
            }
            let (s, p3) = match read_string(d, p2) {
                None => {
                    return None;
                },
                Some(x) => x,
            };
            name = Some(s);
            cur = p3;
        } else if bytes_eq(key.as_slice(), key_v.as_slice()) {
            if version.is_some() {
                return None;
            }
            let (s, p3) = match read_string(d, p2) {
                None => {
                    return None;
                },
                Some(x) => x,
            };
            version = Some(s);
            cur = p3;
        } else {
            return None;
        }
        i = i + 1;
    }
    let ns = match name {
        Some(x) => x,
        None => {
            return None;
        },
    };
    let vs = match version {
        Some(x) => x,
        None => {
            return None;
        },
    };
    Some((ObjectID { name: ns, version: vs }, cur))
}

fn decoding_error() -> (e: ZBusError)
    ensures
        e is DecodingError,
{
    ZBusError::DecodingError("bytes do not form a well-formed envelope record".to_owned())
}

// ---------------------------------------------------------------------
// Whole-envelope decoders.
// ---------------------------------------------------------------------
/// Decodes a request record.
///
/// Succeeds exactly when the bytes form a whole request map — each
/// field present once, in any order, nothing trailing — and then
/// returns precisely the request the bytes describe.
#[verifier::rlimit(100)]
#[verifier::spinoff_prover]
pub fn decode_request(d: &[u8]) -> (res: Result<Request, ZBusError>)
    ensures
        match res {
            Ok(req) => parse_request(d@) == Some(req@),
            Err(e) => parse_request(d@) is None && e is DecodingError,
        },
{
    proof {
        assert(d@.skip(0) =~= d@);
    }
    let (n, p1) = match read_map_header(d, 0) {
        None => {
            return Err(decoding_error());
        },
        Some(x) => x,
    };
    let mut id: Option<String> = None;
    let mut arguments: Option<Vec<Vec<u8>>> = None;
    let mut object: Option<ObjectID> = None;
    let mut reply_to: Option<String> = None;
    let mut method: Option<String> = None;
    let mut cur: usize = p1;
    let mut i: u32 = 0;
    while i < n
        invariant
            i <= n,
            p1 <= cur <= d@.len(),
            p1 <= d@.len(),
            parse_map_header(d@) == Some(((n as nat), d@.skip(p1 as int))),
            match parse_request_fields(
                d@.skip(cur as int),
                (n - i) as nat,
                (PartialRequest {
                    id: opt_chars(id),
                    arguments: opt_args(arguments),
                    object: opt_object(object),
                    reply_to: opt_chars(reply_to),
                    method: opt_chars(method),
                }),
            ) {
                Some((p, rest)) => parse_request_fields(
                    d@.skip(p1 as int),
                    n as nat,
                    empty_partial_request(),
                ) == Some((p, rest)),
                None => parse_request_fields(
                    d@.skip(p1 as int),
                    n as nat,
                    empty_partial_request(),
                ) is None,
            },
        decreases n - i,
    {
        let (key, p2) = match read_str(d, cur) {
            None => {
                return Err(decoding_error());
            },
            Some(x) => x,
        };
        let key_i: [u8; 2] = [73, 68];
        let key_a: [u8; 9] = [65, 114, 103, 117, 109, 101, 110, 116, 115];
        let key_o: [u8; 6] = [79, 98, 106, 101, 99, 116];
        let key_r: [u8; 7] = [82, 101, 112, 108, 121, 84, 111];
        let key_m: [u8; 6] = [77, 101, 116, 104, 111, 100];
        proof {
            assert(key_i@ =~= key_id());
            assert(key_a@ =~= key_arguments());
            assert(key_o@ =~= key_object());
            assert(key_r@ =~= key_reply_to());
            assert(key_m@ =~= key_method());
        }
        if bytes_eq(key.as_slice(), key_i.as_slice()) {
            if id.is_some() {
                return Err(decoding_error());
            }
            let (s, p3) = match read_string(d, p2) {
                None => {
                    return Err(decoding_error());
                },
                Some(x) => x,
            };
            id = Some(s);
            cur = p3;
        } else if bytes_eq(key.as_slice(), key_a.as_slice()) {
            if arguments.is_some() {
                return Err(decoding_error());
            }
            let (vs, p3) = match read_arguments(d, p2) {
                None => {
                    return Err(decoding_error());
                },
                Some(x) => x,
            };
            arguments = Some(vs);
            cur = p3;
        } else if bytes_eq(key.as_slice(), key_o.as_slice()) {
            if object.is_some() {
                return Err(decoding_error());
            }
            let (o, p3) = match read_object(d, p2) {
                None => {
                    return Err(decoding_error());
                },
                Some(x) => x,
            };
            object = Some(o);
            cur = p3;
        } else if bytes_eq(key.as_slice(), key_r.as_slice()) {
            if reply_to.is_some() {
                return Err(decoding_error());
            }
            let (s, p3) = match read_string(d, p2) {
                None => {
                    return Err(decoding_error());
                },
                Some(x) => x,
            };
            reply_to = Some(s);
            cur = p3;
        } else if bytes_eq(key.as_slice(), key_m.as_slice()) {
            if method.is_some() {
                return Err(decoding_error());
            }
            let (s, p3) = match read_string(d, p2) {
                None => {
                    return Err(decoding_error());
                },
                Some(x) => x,
            };
            method = Some(s);
            cur = p3;
        } else {
            return Err(decoding_error());
        }
        i = i + 1;
    }
    if cur != d.len() {
        return Err(decoding_error());
    }
    proof {
        assert(d@.skip(cur as int).len() == 0);
    }
    match (id, arguments, object, reply_to, method) {
        (Some(ids), Some(args), Some(obj), Some(rts), Some(ms)) => {
            let req = Request {
                id: crate::Id(ids),
                arguments: args,
                object: obj,
                reply_to: crate::Id(rts),
                method: ms,
            };
            proof {
                assert(req@.arguments =~= args_view(req.arguments@));
            }
            Ok(req)
        },
        _ => Err(decoding_error()),
    }
}

/// Decodes a response record.
///
/// Succeeds exactly when the bytes form a whole response map — each
/// field present once, in any order, nothing trailing — and then
/// returns precisely the response the bytes describe.
#[verifier::rlimit(100)]
#[verifier::spinoff_prover]
pub fn decode_response(d: &[u8]) -> (res: Result<Response, ZBusError>)
    ensures
        match res {
            Ok(resp) => parse_response(d@) == Some(resp@),
            Err(e) => parse_response(d@) is None && e is DecodingError,
        },
{
    proof {
        assert(d@.skip(0) =~= d@);
    }
    let (n, p1) = match read_map_header(d, 0) {
        None => {
            return Err(decoding_error());
        },
        Some(x) => x,
    };
    let mut id: Option<String> = None;
    let mut arguments: Option<Vec<Vec<u8>>> = None;
    let mut error: Option<String> = None;
    let mut cur: usize = p1;
    let mut i: u32 = 0;
    while i < n
        invariant
            i <= n,
            p1 <= cur <= d@.len(),
            p1 <= d@.len(),
            parse_map_header(d@) == Some(((n as nat), d@.skip(p1 as int))),
            match parse_response_fields(
                d@.skip(cur as int),
                (n - i) as nat,
                (PartialResponse {
                    id: opt_chars(id),
                    arguments: opt_args(arguments),
                    error: opt_chars(error),
                }),
            ) {
                Some((p, rest)) => parse_response_fields(
                    d@.skip(p1 as int),
                    n as nat,
                    empty_partial_response(),
                ) == Some((p, rest)),
                None => parse_response_fields(
                    d@.skip(p1 as int),
                    n as nat,
                    empty_partial_response(),
                ) is None,
            },
        decreases n - i,
    {
        let (key, p2) = match read_str(d, cur) {
            None => {
                return Err(decoding_error());
            },
            Some(x) => x,
        };
        let key_i: [u8; 2] = [105, 100];
        let key_a: [u8; 9] = [97, 114, 103, 117, 109, 101, 110, 116, 115];
        let key_e: [u8; 5] = [101, 114, 114, 111, 114];
        proof {
            assert(key_i@ =~= key_res_id());
            assert(key_a@ =~= key_res_arguments());
            assert(key_e@ =~= key_res_error());
        }
        if bytes_eq(key.as_slice(), key_i.as_slice()) {
            if id.is_some() {
                return Err(decoding_error());
            }
            let (s, p3) = match read_string(d, p2) {
                None => {
                    return Err(decoding_error());
                },
                Some(x) => x,
            };
            id = Some(s);
            cur = p3;
        } else if bytes_eq(key.as_slice(), key_a.as_slice()) {
            if arguments.is_some() {
                return Err(decoding_error());
            }
            let (vs, p3) = match read_arguments(d, p2) {
                None => {
                    return Err(decoding_error());
                },
                Some(x) => x,
            };
            arguments = Some(vs);
            cur = p3;
        } else if bytes_eq(key.as_slice(), key_e.as_slice()) {
            if error.is_some() {
                return Err(decoding_error());
            }
            let (s, p3) = match read_string(d, p2) {
                None => {
                    return Err(decoding_error());
                },
                Some(x) => x,
            };
            error = Some(s);
            cur = p3;
        } else {
            return Err(decoding_error());
        }
        i = i + 1;
    }
    if cur != d.len() {
        return Err(decoding_error());
    }
    proof {
        assert(d@.skip(cur as int).len() == 0);
    }
    match (id, arguments, error) {
        (Some(ids), Some(args), Some(es)) => {
            let resp = Response { id: crate::Id(ids), arguments: args, error: es };
            proof {
                assert(resp@.arguments =~= args_view(resp.arguments@));
            }
            Ok(resp)
        },
        _ => Err(decoding_error()),
    }
}

/// Decodes an event record.
///
/// Succeeds exactly when the bytes form a map that carries no fields,
/// with nothing after it.
pub fn decode_event(d: &[u8]) -> (res: Result<Event, ZBusError>)
    ensures
        match res {
            Ok(_) => is_event_encoding(d@),
            Err(e) => !is_event_encoding(d@) && e is DecodingError,
        },
{
    proof {
        assert(d@.skip(0) =~= d@);
    }
    let (n, p1) = match read_map_header(d, 0) {
        None => {
            return Err(decoding_error());
        },
        Some(x) => x,
    };
    if n == 0 && p1 == d.len() {
        proof {
            assert(d@.skip(p1 as int).len() == 0);
        }
        Ok(Event {  })
    } else {
        proof {
            assert(d@.skip(p1 as int).len() == d@.len() - p1);
        }
        Err(decoding_error())
    }
}

// ---------------------------------------------------------------------
// Round trips: parsing an encoding gives back what was encoded.
// ---------------------------------------------------------------------
proof fn lemma_u32_decomp(n: nat)
    requires
        n < 0x1_0000_0000,
    ensures
        ((n / 0x100_0000) % 0x100) * 0x100_0000 + ((n / 0x1_0000) % 0x100) * 0x1_0000 + ((n
            / 0x100) % 0x100) * 0x100 + n % 0x100 == n,
        (n / 0x100_0000) % 0x100 == n / 0x100_0000,
{
    let q1 = n as int / 0x100;
    let q2 = n as int / 0x1_0000;
    let q3 = n as int / 0x100_0000;
    lemma_fundamental_div_mod(n as int, 0x100);
    lemma_div_denominator(n as int, 0x100, 0x100);
    assert(q1 / 0x100 == q2);
    lemma_fundamental_div_mod(q1, 0x100);
    lemma_div_denominator(n as int, 0x1_0000, 0x100);
    assert(q2 / 0x100 == q3);
    lemma_fundamental_div_mod(q2, 0x100);
    assert(q3 < 0x100) by (nonlinear_arith)
        requires
            n < 0x1_0000_0000,
            n as int == 0x100_0000 * q3 + (n as int % 0x100_0000),
            0 <= n as int % 0x100_0000,
    {
    }
    lemma_small_mod((n / 0x100_0000) as nat, 0x100);
}

#[verifier::rlimit(100)]
#[verifier::spinoff_prover]
proof fn lemma_parse_len16_of(n: nat, rest: Seq<u8>)
    requires
        n < 0x1_0000,
    ensures
        parse_len16(enc_u16(n) + rest) == Some((n, rest)),
{
    let d = enc_u16(n) + rest;
    assert(d[0] == (n / 0x100) as u8);
    assert(d[1] == (n % 0x100) as u8);
    lemma_fundamental_div_mod(n as int, 0x100);
    assert((d[0] as nat) * 0x100 + (d[1] as nat) == n);
    assert(d.skip(2) =~= rest);
}

#[verifier::rlimit(100)]
#[verifier::spinoff_prover]
proof fn lemma_parse_len32_of(n: nat, rest: Seq<u8>)
    requires
        n < 0x1_0000_0000,
    ensures
        parse_len32(enc_u32(n) + rest) == Some((n, rest)),
{
    let d = enc_u32(n) + rest;
    lemma_u32_decomp(n);
    assert((d[0] as nat) * 0x100_0000 + (d[1] as nat) * 0x1_0000 + (d[2] as nat) * 0x100 + (
    d[3] as nat) == n);
    assert(d.skip(4) =~= rest);
}

#[verifier::rlimit(100)]
#[verifier::spinoff_prover]
proof fn lemma_parse_str_header_of(n: nat, rest: Seq<u8>)
    requires
        n < len_limit(),
    ensures
        parse_str_header(enc_str_header(n) + rest) == Some((n, rest)),
{
    let d = enc_str_header(n) + rest;
    if n < 32 {
        assert(d[0] == (0xa0 + n) as u8);
        assert(d.skip(1) =~= rest);
    } else if n < 0x100 {
        assert(d[0] == 0xd9);
        assert(d[1] == n as u8);
        assert(d.skip(2) =~= rest);
    } else if n < 0x1_0000 {
        assert(d[0] == 0xda);
        assert(d.skip(1) =~= enc_u16(n) + rest);
        lemma_parse_len16_of(n, rest);
    } else {
        assert(d[0] == 0xdb);
        assert(d.skip(1) =~= enc_u32(n) + rest);
        lemma_parse_len32_of(n, rest);
    }
}

#[verifier::rlimit(100)]
#[verifier::spinoff_prover]
proof fn lemma_parse_str_of(b: Seq<u8>, rest: Seq<u8>)
    requires
        b.len() < len_limit(),
    ensures
        parse_str(enc_str(b) + rest) == Some((b, rest)),
{
    assert(enc_str(b) + rest =~= enc_str_header(b.len()) + (b + rest));
    lemma_parse_str_header_of(b.len(), b + rest);
    assert((b + rest).take(b.len() as int) =~= b);
    assert((b + rest).skip(b.len() as int) =~= rest);
}

#[verifier::rlimit(100)]
#[verifier::spinoff_prover]
proof fn lemma_parse_string_of(s: Seq<char>, rest: Seq<u8>)
    requires
        str_encodable(s),
    ensures
        parse_string(enc_string(s) + rest) == Some((s, rest)),
{
    lemma_parse_str_of(encode_utf8(s), rest);
    encode_utf8_valid_utf8(s);
    encode_utf8_decode_utf8(s);
}

#[verifier::rlimit(100)]
#[verifier::spinoff_prover]
proof fn lemma_parse_bin_of(b: Seq<u8>, rest: Seq<u8>)
    requires
        b.len() < len_limit(),
    ensures
        parse_bin(enc_bin(b) + rest) == Some((b, rest)),
{
    let n = b.len();
    let d = enc_bin(b) + rest;
    assert((b + rest).take(n as int) =~= b);
    assert((b + rest).skip(n as int) =~= rest);
    if n < 0x100 {
        assert(d[0] == 0xc4);
        assert(d[1] == n as u8);
        assert(d.skip(2) =~= b + rest);
    } else if n < 0x1_0000 {
        assert(d[0] == 0xc5);
        assert(d.skip(1) =~= enc_u16(n) + (b + rest));
        lemma_parse_len16_of(n, b + rest);
    } else {
        assert(d[0] == 0xc6);
        assert(d.skip(1) =~= enc_u32(n) + (b + rest));
        lemma_parse_len32_of(n, b + rest);
    }
}

#[verifier::rlimit(100)]
#[verifier::spinoff_prover]
proof fn lemma_parse_array_header_of(n: nat, rest: Seq<u8>)
    requires
        n < len_limit(),
    ensures
        parse_array_header(enc_array_header(n) + rest) == Some((n, rest)),
{
    let d = enc_array_header(n) + rest;
    if n < 16 {
        assert(d[0] == (0x90 + n) as u8);
        assert(d.skip(1) =~= rest);
    } else if n < 0x1_0000 {
        assert(d[0] == 0xdc);
        assert(d.skip(1) =~= enc_u16(n) + rest);
        lemma_parse_len16_of(n, rest);
    } else {
        assert(d[0] == 0xdd);
        assert(d.skip(1) =~= enc_u32(n) + rest);
        lemma_parse_len32_of(n, rest);
    }
}

#[verifier::rlimit(100)]
#[verifier::spinoff_prover]
proof fn lemma_parse_map_header_of(n: nat, rest: Seq<u8>)
    requires
        n < len_limit(),
    ensures
        parse_map_header(enc_map_header(n) + rest) == Some((n, rest)),
{
    let d = enc_map_header(n) + rest;
    if n < 16 {
        assert(d[0] == (0x80 + n) as u8);
        assert(d.skip(1) =~= rest);
    } else if n < 0x1_0000 {
        assert(d[0] == 0xde);
        assert(d.skip(1) =~= enc_u16(n) + rest);
        lemma_parse_len16_of(n, rest);
    } else {
        assert(d[0] == 0xdf);
        assert(d.skip(1) =~= enc_u32(n) + rest);
        lemma_parse_len32_of(n, rest);
    }
}

#[verifier::rlimit(100)]
#[verifier::spinoff_prover]
proof fn lemma_parse_bin_list_of(args: Seq<Seq<u8>>, rest: Seq<u8>)
    requires
        forall|i: int| 0 <= i < args.len() ==> bin_encodable(#[trigger] args[i]),
    ensures
        parse_bin_list(enc_bin_list(args) + rest, args.len()) == Some((args, rest)),
    decreases args.len(),
{
    if args.len() == 0 {
        assert(enc_bin_list(args) + rest =~= rest);
        assert(args =~= Seq::<Seq<u8>>::empty());
    } else {
        let tail = args.drop_first();
        assert(enc_bin_list(args) + rest =~= enc_bin(args[0]) + (enc_bin_list(tail) + rest));
        lemma_parse_bin_of(args[0], enc_bin_list(tail) + rest);
        assert(forall|i: int| 0 <= i < tail.len() ==> bin_encodable(#[trigger] tail[i]));
        lemma_parse_bin_list_of(tail, rest);
        assert(seq![args[0]] + tail =~= args);
    }
}

#[verifier::rlimit(100)]
#[verifier::spinoff_prover]
proof fn lemma_parse_arguments_of(args: Seq<Seq<u8>>, rest: Seq<u8>)
    requires
        arguments_encodable(args),
    ensures
        parse_arguments(enc_arguments(args) + rest) == Some((args, rest)),
{
    assert(enc_arguments(args) + rest =~= enc_array_header(args.len()) + (enc_bin_list(args)
        + rest));
    lemma_parse_array_header_of(args.len(), enc_bin_list(args) + rest);
    lemma_parse_bin_list_of(args, rest);
}

#[verifier::rlimit(100)]
proof fn lemma_parse_object_of(o: ObjectIDView, rest: Seq<u8>)
    requires
        object_encodable(o),
    ensures
        parse_object(enc_object(o) + rest) == Some((o, rest)),
{
    let after_key1 = enc_str(key_version()) + (enc_string(o.version) + rest);
    let tail1 = enc_string(o.name) + after_key1;
    let fields = enc_str(key_name()) + tail1;
    assert(enc_object(o) + rest =~= enc_map_header(2) + fields);
    lemma_parse_map_header_of(2, fields);
    assert(parse_map_header(enc_object(o) + rest) == Some((2nat, fields)));
    lemma_parse_str_of(key_name(), tail1);
    lemma_parse_string_of(o.name, after_key1);
    lemma_parse_str_of(key_version(), enc_string(o.version) + rest);
    lemma_parse_string_of(o.version, rest);
    assert(key_version() != key_name()) by {
        assert(key_version().len() == 7);
        assert(key_name().len() == 4);
    }
    let acc1 = PartialObject { name: Some(o.name), version: None };
    let acc2 = PartialObject { name: Some(o.name), version: Some(o.version) };
    assert(parse_object_fields(rest, 0, acc2) == Some((acc2, rest)));
    assert(parse_object_fields(after_key1, 1, acc1) == Some((acc2, rest)));
    assert(parse_object_fields(fields, 2, empty_partial_object()) == Some((acc2, rest)));
    assert(ObjectIDView { name: o.name, version: o.version } == o);
}

/// The wire pair for one request field: its name, then its value.
/// Fields are numbered in their canonical order.
pub open spec fn request_field_pair(r: RequestView, f: int) -> Seq<u8> {
    if f == 0 {
        enc_str(key_id()) + enc_string(r.id)
    } else if f == 1 {
        enc_str(key_arguments()) + enc_arguments(r.arguments)
    } else if f == 2 {
        enc_str(key_object()) + enc_object(r.object)
    } else if f == 3 {
        enc_str(key_reply_to()) + enc_string(r.reply_to)
    } else {
        enc_str(key_method()) + enc_string(r.method)
    }
}

/// Request field pairs laid out in the given order.
pub open spec fn request_pairs(r: RequestView, order: Seq<int>) -> Seq<u8>
    decreases order.len(),
{
    if order.len() == 0 {
        Seq::empty()
    } else {
        request_field_pair(r, order[0]) + request_pairs(r, order.drop_first())
    }
}

/// A request record with its five fields laid out in the given order.
pub open spec fn enc_request_ordered(r: RequestView, order: Seq<int>) -> Seq<u8> {
    enc_map_header(order.len()) + request_pairs(r, order)
}

/// A request with every field collected.
pub open spec fn full_partial_request(r: RequestView) -> PartialRequest {
    PartialRequest {
        id: Some(r.id),
        arguments: Some(r.arguments),
        object: Some(r.object),
        reply_to: Some(r.reply_to),
        method: Some(r.method),
    }
}

proof fn lemma_drop_first_contains(order: Seq<int>)
    requires
        order.len() > 0,
        order.no_duplicates(),
    ensures
        order.drop_first().no_duplicates(),
        !order.drop_first().contains(order[0]),
        forall|j: int|
            j != order[0] ==> (order.drop_first().contains(j) <==> order.contains(j)),
        order.contains(order[0]),
{
    let tail = order.drop_first();
    assert(forall|i: int| 0 <= i < tail.len() ==> tail[i] == order[i + 1]);
    if tail.contains(order[0]) {
        let i = choose|i: int| 0 <= i < tail.len() && tail[i] == order[0];
        assert(order[i + 1] == order[0]);
        assert(false);
    }
    assert forall|j: int|
        j != order[0] && order.drop_first().contains(j) implies order.contains(j) by {
        let i = choose|i: int| 0 <= i < tail.len() && tail[i] == j;
        assert(order[i + 1] == j);
    }
    assert forall|j: int|
        j != order[0] && order.contains(j) implies order.drop_first().contains(j) by {
        let i = choose|i: int| 0 <= i < order.len() && order[i] == j;
        assert(i != 0);
        assert(tail[i - 1] == j);
    }
}

proof fn lemma_request_keys_distinct()
    ensures
        key_id() != key_arguments(),
        key_id() != key_object(),
        key_id() != key_reply_to(),
        key_id() != key_method(),
        key_arguments() != key_object(),
        key_arguments() != key_reply_to(),
        key_arguments() != key_method(),
        key_object() != key_reply_to(),
        key_object() != key_method(),
        key_reply_to() != key_method(),
{
    assert(key_id().len() == 2);
    assert(key_arguments().len() == 9);
    assert(key_object().len() == 6);
    assert(key_reply_to().len() == 7);
    assert(key_method().len() == 6);
    assert(key_object()[0] == 79);
    assert(key_method()[0] == 77);
}

/// The collected fields after one more field has been parsed.
pub open spec fn set_request_field(acc: PartialRequest, r: RequestView, f: int) -> PartialRequest {
    PartialRequest {
        id: if f == 0 {
            Some(r.id)
        } else {
            acc.id
        },
        arguments: if f == 1 {
            Some(r.arguments)
        } else {
            acc.arguments
        },
        object: if f == 2 {
            Some(r.object)
        } else {
            acc.object
        },
        reply_to: if f == 3 {
            Some(r.reply_to)
        } else {
            acc.reply_to
        },
        method: if f == 4 {
            Some(r.method)
        } else {
            acc.method
        },
    }
}

#[verifier::rlimit(100)]
#[verifier::spinoff_prover]
proof fn lemma_request_fields_step(
    r: RequestView,
    f: int,
    n: nat,
    acc: PartialRequest,
    rest2: Seq<u8>,
)
    requires
        request_encodable(r),
        0 <= f < 5,
        n > 0,
        f == 0 ==> acc.id is None,
        f == 1 ==> acc.arguments is None,
        f == 2 ==> acc.object is None,
        f == 3 ==> acc.reply_to is None,
        f == 4 ==> acc.method is None,
    ensures
        parse_request_fields(request_field_pair(r, f) + rest2, n, acc) == parse_request_fields(
            rest2,
            (n - 1) as nat,
            set_request_field(acc, r, f),
        ),
{
    lemma_request_keys_distinct();
    if f == 0 {
        assert(request_field_pair(r, f) + rest2 =~= enc_str(key_id()) + (enc_string(r.id)
            + rest2));
        lemma_parse_str_of(key_id(), enc_string(r.id) + rest2);
        lemma_parse_string_of(r.id, rest2);
    } else if f == 1 {
        assert(request_field_pair(r, f) + rest2 =~= enc_str(key_arguments()) + (enc_arguments(
            r.arguments,
        ) + rest2));
        lemma_parse_str_of(key_arguments(), enc_arguments(r.arguments) + rest2);
        lemma_parse_arguments_of(r.arguments, rest2);
    } else if f == 2 {
        assert(request_field_pair(r, f) + rest2 =~= enc_str(key_object()) + (enc_object(r.object)
            + rest2));
        lemma_parse_str_of(key_object(), enc_object(r.object) + rest2);
        lemma_parse_object_of(r.object, rest2);
    } else if f == 3 {
        assert(request_field_pair(r, f) + rest2 =~= enc_str(key_reply_to()) + (enc_string(
            r.reply_to,
        ) + rest2));
        lemma_parse_str_of(key_reply_to(), enc_string(r.reply_to) + rest2);
        lemma_parse_string_of(r.reply_to, rest2);
    } else {
        assert(request_field_pair(r, f) + rest2 =~= enc_str(key_method()) + (enc_string(r.method)
            + rest2));
        lemma_parse_str_of(key_method(), enc_string(r.method) + rest2);
        lemma_parse_string_of(r.method, rest2);
    }
}

#[verifier::rlimit(100)]
#[verifier::spinoff_prover]
proof fn lemma_parse_request_fields_ordered(
    r: RequestView,
    order: Seq<int>,
    acc: PartialRequest,
    rest: Seq<u8>,
)
    requires
        request_encodable(r),
        order.no_duplicates(),
        forall|i: int| 0 <= i < order.len() ==> 0 <= #[trigger] order[i] < 5,
        acc.id == (if order.contains(0) {
            Option::<Seq<char>>::None
        } else {
            Option::Some(r.id)
        }),
        acc.arguments == (if order.contains(1) {
            Option::<Seq<Seq<u8>>>::None
        } else {
            Option::Some(r.arguments)
        }),
        acc.object == (if order.contains(2) {
            Option::<ObjectIDView>::None
        } else {
            Option::Some(r.object)
        }),
        acc.reply_to == (if order.contains(3) {
            Option::<Seq<char>>::None
        } else {
            Option::Some(r.reply_to)
        }),
        acc.method == (if order.contains(4) {
            Option::<Seq<char>>::None
        } else {
            Option::Some(r.method)
        }),
    ensures
        parse_request_fields(request_pairs(r, order) + rest, order.len(), acc) == Some(
            (full_partial_request(r), rest),
        ),
    decreases order.len(),
{
    if order.len() == 0 {
        assert(request_pairs(r, order) + rest =~= rest);
        assert(acc == full_partial_request(r));
        assert(parse_request_fields(rest, 0, acc) == Some((acc, rest)));
    } else {
        let f = order[0];
        let tail = order.drop_first();
        lemma_drop_first_contains(order);
        let rest2 = request_pairs(r, tail) + rest;
        assert(request_pairs(r, order) + rest =~= request_field_pair(r, f) + rest2);
        lemma_request_fields_step(r, f, order.len(), acc, rest2);
        let acc2 = set_request_field(acc, r, f);
        assert(!tail.contains(f));
        lemma_parse_request_fields_ordered(r, tail, acc2, rest);
    }
}

/// A request record decodes back to the request it encodes, whatever
/// order its five fields were laid out in: a field-name-keyed decoder
/// does not depend on the field order an encoder chose.
pub proof fn lemma_request_roundtrip_ordered(r: RequestView, order: Seq<int>)
    requires
        request_encodable(r),
        order.no_duplicates(),
        order.len() == 5,
        forall|i: int| 0 <= i < order.len() ==> 0 <= #[trigger] order[i] < 5,
        forall|j: int| 0 <= j < 5 ==> order.contains(j),
    ensures
        parse_request(enc_request_ordered(r, order)) == Some(r),
{
    let pairs = request_pairs(r, order);
    lemma_parse_map_header_of(5, pairs);
    assert(pairs + Seq::<u8>::empty() =~= pairs);
    lemma_parse_request_fields_ordered(r, order, empty_partial_request(), Seq::empty());
    assert(parse_request_fields(pairs, 5, empty_partial_request()) == Some(
        (full_partial_request(r), Seq::<u8>::empty()),
    ));
    assert(RequestView {
        id: r.id,
        arguments: r.arguments,
        object: r.object,
        reply_to: r.reply_to,
        method: r.method,
    } == r);
}

/// Encoding a request and decoding the bytes gives the request back.
#[verifier::rlimit(100)]
#[verifier::spinoff_prover]
pub proof fn lemma_request_roundtrip(r: RequestView)
    requires
        request_encodable(r),
    ensures
        parse_request(enc_request(r)) == Some(r),
{
    let order = seq![0int, 1, 2, 3, 4];
    assert(enc_request(r) =~= enc_request_ordered(r, order)) by {
        let o4 = seq![4int];
        let o34 = seq![3int, 4];
        let o234 = seq![2int, 3, 4];
        let o1234 = seq![1int, 2, 3, 4];
        assert(o4.drop_first() =~= Seq::<int>::empty());
        assert(o34.drop_first() =~= o4);
        assert(o234.drop_first() =~= o34);
        assert(o1234.drop_first() =~= o234);
        assert(order.drop_first() =~= o1234);
        assert(request_pairs(r, Seq::<int>::empty()) == Seq::<u8>::empty());
        assert(request_pairs(r, o4) == request_field_pair(r, 4) + request_pairs(
            r,
            Seq::<int>::empty(),
        ));
        assert(request_pairs(r, o34) == request_field_pair(r, 3) + request_pairs(r, o4));
        assert(request_pairs(r, o234) == request_field_pair(r, 2) + request_pairs(r, o34));
        assert(request_pairs(r, o1234) == request_field_pair(r, 1) + request_pairs(r, o234));
        assert(request_pairs(r, order) == request_field_pair(r, 0) + request_pairs(r, o1234));
        assert(enc_request(r) =~= enc_request_ordered(r, order));
    }
    assert(order.no_duplicates());
    assert(order.contains(0)) by {
        assert(order[0] == 0);
    }
    assert(order.contains(1)) by {
        assert(order[1] == 1);
    }
    assert(order.contains(2)) by {
        assert(order[2] == 2);
    }
    assert(order.contains(3)) by {
        assert(order[3] == 3);
    }
    assert(order.contains(4)) by {
        assert(order[4] == 4);
    }
    lemma_request_roundtrip_ordered(r, order);
}

/// A request laid out positionally: an array of the five field values
/// with no field names.
pub open spec fn enc_request_positional(r: RequestView) -> Seq<u8> {
    enc_array_header(5) + (enc_string(r.id) + (enc_arguments(r.arguments) + (enc_object(r.object)
        + (enc_string(r.reply_to) + enc_string(r.method)))))
}

/// A positionally laid-out request is rejected by the field-name-keyed
/// decoder, even though it carries the same data: the two layouts are
/// not interoperable.
pub proof fn lemma_positional_request_rejected(r: RequestView)
    ensures
        parse_request(enc_request_positional(r)) is None,
{
    let d = enc_request_positional(r);
    assert(d[0] == 0x95);
    assert(parse_map_header(d) is None);
}

/// The wire pair for one response field: its name, then its value.
/// Fields are numbered in their canonical order.
pub open spec fn response_field_pair(r: ResponseView, f: int) -> Seq<u8> {
    if f == 0 {
        enc_str(key_res_id()) + enc_string(r.id)
    } else if f == 1 {
        enc_str(key_res_arguments()) + enc_arguments(r.arguments)
    } else {
        enc_str(key_res_error()) + enc_string(r.error)
    }
}

/// Response field pairs laid out in the given order.
pub open spec fn response_pairs(r: ResponseView, order: Seq<int>) -> Seq<u8>
    decreases order.len(),
{
    if order.len() == 0 {
        Seq::empty()
    } else {
        response_field_pair(r, order[0]) + response_pairs(r, order.drop_first())
    }
}

/// A response record with its three fields laid out in the given order.
pub open spec fn enc_response_ordered(r: ResponseView, order: Seq<int>) -> Seq<u8> {
    enc_map_header(order.len()) + response_pairs(r, order)
}

/// A response with every field collected.
pub open spec fn full_partial_response(r: ResponseView) -> PartialResponse {
    PartialResponse { id: Some(r.id), arguments: Some(r.arguments), error: Some(r.error) }
}

/// The collected fields after one more field has been parsed.
pub open spec fn set_response_field(acc: PartialResponse, r: ResponseView, f: int) -> PartialResponse {
    PartialResponse {
        id: if f == 0 {
            Some(r.id)
        } else {
            acc.id
        },
        arguments: if f == 1 {
            Some(r.arguments)
        } else {
            acc.arguments
        },
        error: if f == 2 {
            Some(r.error)
        } else {
            acc.error
        },
    }
}

proof fn lemma_response_keys_distinct()
    ensures
        key_res_id() != key_res_arguments(),
        key_res_id() != key_res_error(),
        key_res_arguments() != key_res_error(),
{
    assert(key_res_id().len() == 2);
    assert(key_res_arguments().len() == 9);
    assert(key_res_error().len() == 5);
}

#[verifier::rlimit(100)]
#[verifier::spinoff_prover]
proof fn lemma_response_fields_step(
    r: ResponseView,
    f: int,
    n: nat,
    acc: PartialResponse,
    rest2: Seq<u8>,
)
    requires
        response_encodable(r),
        0 <= f < 3,
        n > 0,
        f == 0 ==> acc.id is None,
        f == 1 ==> acc.arguments is None,
        f == 2 ==> acc.error is None,
    ensures
        parse_response_fields(response_field_pair(r, f) + rest2, n, acc) == parse_response_fields(
            rest2,
            (n - 1) as nat,
            set_response_field(acc, r, f),
        ),
{
    lemma_response_keys_distinct();
    if f == 0 {
        assert(response_field_pair(r, f) + rest2 =~= enc_str(key_res_id()) + (enc_string(r.id)
            + rest2));
        lemma_parse_str_of(key_res_id(), enc_string(r.id) + rest2);
        lemma_parse_string_of(r.id, rest2);
    } else if f == 1 {
        assert(response_field_pair(r, f) + rest2 =~= enc_str(key_res_arguments())
            + (enc_arguments(r.arguments) + rest2));
        lemma_parse_str_of(key_res_arguments(), enc_arguments(r.arguments) + rest2);
        lemma_parse_arguments_of(r.arguments, rest2);
    } else {
        assert(response_field_pair(r, f) + rest2 =~= enc_str(key_res_error()) + (enc_string(
            r.error,
        ) + rest2));
        lemma_parse_str_of(key_res_error(), enc_string(r.error) + rest2);
        lemma_parse_string_of(r.error, rest2);
    }
}

#[verifier::rlimit(100)]
#[verifier::spinoff_prover]
proof fn lemma_parse_response_fields_ordered(
    r: ResponseView,
    order: Seq<int>,
    acc: PartialResponse,
    rest: Seq<u8>,
)
    requires
        response_encodable(r),
        order.no_duplicates(),
        forall|i: int| 0 <= i < order.len() ==> 0 <= #[trigger] order[i] < 3,
        acc.id == (if order.contains(0) {
            Option::<Seq<char>>::None
        } else {
            Option::Some(r.id)
        }),
        acc.arguments == (if order.contains(1) {
            Option::<Seq<Seq<u8>>>::None
        } else {
            Option::Some(r.arguments)
        }),
        acc.error == (if order.contains(2) {
            Option::<Seq<char>>::None
        } else {
            Option::Some(r.error)
        }),
    ensures
        parse_response_fields(response_pairs(r, order) + rest, order.len(), acc) == Some(
            (full_partial_response(r), rest),
        ),
    decreases order.len(),
{
    if order.len() == 0 {
        assert(response_pairs(r, order) + rest =~= rest);
        assert(acc == full_partial_response(r));
        assert(parse_response_fields(rest, 0, acc) == Some((acc, rest)));
    } else {
        let f = order[0];
        let tail = order.drop_first();
        lemma_drop_first_contains(order);
        let rest2 = response_pairs(r, tail) + rest;
        assert(response_pairs(r, order) + rest =~= response_field_pair(r, f) + rest2);
        lemma_response_fields_step(r, f, order.len(), acc, rest2);
        let acc2 = set_response_field(acc, r, f);
        assert(!tail.contains(f));
        lemma_parse_response_fields_ordered(r, tail, acc2, rest);
    }
}

/// A response record decodes back to the response it encodes, whatever
/// order its three fields were laid out in.
pub proof fn lemma_response_roundtrip_ordered(r: ResponseView, order: Seq<int>)
    requires
        response_encodable(r),
        order.no_duplicates(),
        order.len() == 3,
        forall|i: int| 0 <= i < order.len() ==> 0 <= #[trigger] order[i] < 3,
        forall|j: int| 0 <= j < 3 ==> order.contains(j),
    ensures
        parse_response(enc_response_ordered(r, order)) == Some(r),
{
    let pairs = response_pairs(r, order);
    lemma_parse_map_header_of(3, pairs);
    assert(pairs + Seq::<u8>::empty() =~= pairs);
    lemma_parse_response_fields_ordered(r, order, empty_partial_response(), Seq::empty());
    assert(parse_response_fields(pairs, 3, empty_partial_response()) == Some(
        (full_partial_response(r), Seq::<u8>::empty()),
    ));
    assert(ResponseView { id: r.id, arguments: r.arguments, error: r.error } == r);
}

/// Encoding a response and decoding the bytes gives the response back.
#[verifier::rlimit(100)]
#[verifier::spinoff_prover]
pub proof fn lemma_response_roundtrip(r: ResponseView)
    requires
        response_encodable(r),
    ensures
        parse_response(enc_response(r)) == Some(r),
{
    let order = seq![0int, 1, 2];
    assert(enc_response(r) =~= enc_response_ordered(r, order)) by {
        let o2 = seq![2int];
        let o12 = seq![1int, 2];
        assert(o2.drop_first() =~= Seq::<int>::empty());
        assert(o12.drop_first() =~= o2);
        assert(order.drop_first() =~= o12);
        assert(response_pairs(r, Seq::<int>::empty()) == Seq::<u8>::empty());
        assert(response_pairs(r, o2) == response_field_pair(r, 2) + response_pairs(
            r,
            Seq::<int>::empty(),
        ));
        assert(response_pairs(r, o12) == response_field_pair(r, 1) + response_pairs(r, o2));
        assert(response_pairs(r, order) == response_field_pair(r, 0) + response_pairs(r, o12));
        assert(enc_response(r) =~= enc_response_ordered(r, order));
    }
    assert(order.no_duplicates());
    assert(order.contains(0)) by {
        assert(order[0] == 0);
    }
    assert(order.contains(1)) by {
        assert(order[1] == 1);
    }
    assert(order.contains(2)) by {
        assert(order[2] == 2);
    }
    lemma_response_roundtrip_ordered(r, order);
}

/// Encoding an event and decoding the byte gives an event back: the
/// encoding is a well-formed event record.
pub proof fn lemma_event_roundtrip()
    ensures
        is_event_encoding(enc_event()),
{
    let d = enc_event();
    assert(d[0] == 0x80);
    assert(d.skip(1).len() == 0);
}

} // verus!
