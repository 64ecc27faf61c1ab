use vstd::prelude::*;
use vstd::bytes::{
    lemma_auto_spec_u64_to_from_le_bytes, spec_u64_from_le_bytes, spec_u64_to_le_bytes,
    u64_from_le_bytes, u64_to_le_bytes,
};
use vstd::slice::{slice_subrange, slice_to_vec};
use vstd::utf8::{
    decode_utf8, encode_scalar, encode_utf8, encode_utf8_decode_utf8, encode_utf8_valid_utf8,
    has_width_1_encoding, has_width_2_encoding, has_width_3_encoding, is_scalar, valid_utf8,
};
use crate::layout::{EMAIL_MAX, EMAIL_OFFSET, ID_SIZE, ROW_SIZE, USERNAME_MAX, USERNAME_OFFSET};
use crate::row::{text_view, Row, RowView};

verus! {

/// Why a row cannot be encoded.
#[derive(Clone, Copy, Debug, PartialEq, Eq, Structural)]
pub enum CodecError {
    /// A text field does not fit its fixed-width field.
    FieldTooLong,
    /// The row lacks one of its three fields.
    MissingField,
}

/// `b` followed by zero bytes up to `width` bytes in all.
pub open spec fn padded(b: Seq<u8>, width: nat) -> Seq<u8> {
    b + Seq::new((width - b.len()) as nat, |i: int| 0u8)
}

/// The fixed-width block for a row with the given fields.
pub open spec fn block_of(id: u64, username: Seq<char>, email: Seq<char>) -> Seq<u8> {
    spec_u64_to_le_bytes(id) + padded(encode_utf8(username), USERNAME_MAX as nat) + padded(
        encode_utf8(email),
        EMAIL_MAX as nat,
    )
}

/// What encoding a row gives: a missing field is reported first, then a text
/// field longer (in UTF-8 bytes) than its field's width.
pub open spec fn encode_spec(r: RowView) -> Result<Seq<u8>, CodecError> {
    if !r.is_complete() {
        Err(CodecError::MissingField)
    } else if encode_utf8(r.username.unwrap()).len() > USERNAME_MAX || encode_utf8(
        r.email.unwrap(),
    ).len() > EMAIL_MAX {
        Err(CodecError::FieldTooLong)
    } else {
        Ok(block_of(r.id.unwrap(), r.username.unwrap(), r.email.unwrap()))
    }
}

/// `k` is where the text of field `f` ends: just past its last non-zero
/// byte, so that only the zero padding after it is left out.
pub open spec fn is_text_end(f: Seq<u8>, k: int) -> bool {
    &&& 0 <= k <= f.len()
    &&& k > 0 ==> f[k - 1] != 0
    &&& forall|i: int| k <= i < f.len() ==> f[i] == 0
}

pub open spec fn text_end(f: Seq<u8>) -> int {
    choose|k: int| is_text_end(f, k)
}

/// The text a NUL-padded field holds: its bytes up to the last non-zero one,
/// read as UTF-8; `None` where those bytes are not valid UTF-8.
pub open spec fn field_text(f: Seq<u8>) -> Option<Seq<char>> {
    let t = f.take(text_end(f));
    if valid_utf8(t) {
        Some(decode_utf8(t))
    } else {
        None
    }
}

/// The row that a block of `ROW_SIZE` bytes decodes to.
pub open spec fn decode_spec(b: Seq<u8>) -> RowView {
    RowView {
        id: Some(spec_u64_from_le_bytes(b.subrange(0, ID_SIZE as int))),
        username: field_text(b.subrange(USERNAME_OFFSET as int, EMAIL_OFFSET as int)),
        email: field_text(b.subrange(EMAIL_OFFSET as int, ROW_SIZE as int)),
    }
}

/// `s` does not end with a NUL character.
pub open spec fn no_trailing_nul(s: Seq<char>) -> bool {
    s.len() > 0 ==> s.last() as u32 != 0
}

/// Neither text field of a complete row ends with a NUL character.
pub open spec fn row_no_trailing_nul(r: RowView) -> bool {
    no_trailing_nul(r.username.unwrap()) && no_trailing_nul(r.email.unwrap())
}

pub proof fn lemma_text_end_unique(f: Seq<u8>, k: int)
    requires
        is_text_end(f, k),
    ensures
        text_end(f) == k,
{
    let j = text_end(f);
    assert(is_text_end(f, j));
    if j < k {
        assert(f[k - 1] != 0);
    } else if k < j {
        assert(f[j - 1] != 0);
    }
}

proof fn lemma_scalar_bytes_nonzero(c: u32)
    requires
        is_scalar(c),
        c != 0,
    ensures
        encode_scalar(c).len() > 0,
        forall|i: int| 0 <= i < encode_scalar(c).len() ==> encode_scalar(c)[i] != 0,
{
    assert((0x80u8 | ((c & 0x3Fu32) as u8)) != 0u8) by (bit_vector);
    assert((0x80u8 | (((c >> 6u32) & 0x3Fu32) as u8)) != 0u8) by (bit_vector);
    assert((0x80u8 | (((c >> 12u32) & 0x3Fu32) as u8)) != 0u8) by (bit_vector);
    assert((0xC0u8 | (((c >> 6u32) & 0x1Fu32) as u8)) != 0u8) by (bit_vector);
    assert((0xE0u8 | (((c >> 12u32) & 0x0Fu32) as u8)) != 0u8) by (bit_vector);
    assert((0xF0u8 | (((c >> 18u32) & 0x7u32) as u8)) != 0u8) by (bit_vector);
    if has_width_1_encoding(c) {
        assert(((c & 0x7Fu32) as u8) != 0u8) by (bit_vector)
            requires
                c <= 0x7Fu32 && c != 0u32,
        ;
    }
}

/// The UTF-8 encoding of text that does not end with NUL does not end with a
/// zero byte.
pub proof fn lemma_utf8_last_nonzero(s: Seq<char>)
    requires
        s.len() > 0,
        no_trailing_nul(s),
    ensures
        encode_utf8(s).len() > 0,
        encode_utf8(s).last() != 0,
    decreases s.len(),
{
    let c = s[0] as u32;
    vstd::utf8::char_is_scalar(s[0]);
    let head = encode_scalar(c);
    let rest = s.drop_first();
    assert(head.len() > 0);
    if rest.len() == 0 {
        assert(encode_utf8(rest).len() == 0);
        assert(encode_utf8(s) =~= head);
        assert(c == s.last() as u32);
        lemma_scalar_bytes_nonzero(c);
        assert(head.last() == head[head.len() - 1]);
    } else {
        assert(rest.last() == s.last());
        lemma_utf8_last_nonzero(rest);
        let tail = encode_utf8(rest);
        assert(encode_utf8(s) == head + tail);
        assert(encode_utf8(s).last() == tail.last());
    }
}

/// A NUL-padded field reads back as the text written into it, where that
/// text does not end with NUL.
pub proof fn lemma_field_round_trip(s: Seq<char>, width: nat)
    requires
        no_trailing_nul(s),
        encode_utf8(s).len() <= width,
    ensures
        field_text(padded(encode_utf8(s), width)) == Some(s),
{
    let b = encode_utf8(s);
    let f = padded(b, width);
    if s.len() > 0 {
        lemma_utf8_last_nonzero(s);
        assert(f[b.len() - 1] == b.last());
    } else {
        assert(b.len() == 0);
    }
    assert(is_text_end(f, b.len() as int));
    lemma_text_end_unique(f, b.len() as int);
    assert(f.take(b.len() as int) =~= b);
    encode_utf8_valid_utf8(s);
    encode_utf8_decode_utf8(s);
}

/// Decoding what encoding a row gives returns that row, for every row that
/// encodes and whose text fields do not end with a NUL character.
pub proof fn lemma_round_trip(r: RowView)
    requires
        encode_spec(r) is Ok,
        row_no_trailing_nul(r),
    ensures
        decode_spec(encode_spec(r)->Ok_0) == r,
{
    let id = r.id.unwrap();
    let u = r.username.unwrap();
    let e = r.email.unwrap();
    let b = block_of(id, u, e);
    lemma_auto_spec_u64_to_from_le_bytes();
    let pu = padded(encode_utf8(u), USERNAME_MAX as nat);
    let pe = padded(encode_utf8(e), EMAIL_MAX as nat);
    assert(b.subrange(0, ID_SIZE as int) =~= spec_u64_to_le_bytes(id));
    assert(b.subrange(USERNAME_OFFSET as int, EMAIL_OFFSET as int) =~= pu);
    assert(b.subrange(EMAIL_OFFSET as int, ROW_SIZE as int) =~= pe);
    lemma_field_round_trip(u, USERNAME_MAX as nat);
    lemma_field_round_trip(e, EMAIL_MAX as nat);
}

/// Relies on `String::from_utf8`: it succeeds exactly on valid UTF-8, and the
/// string then holds the characters that the bytes encode.
#[verifier::external_body]
fn string_from_utf8(bytes: Vec<u8>) -> (r: Option<String>)
    ensures
        r is Some <==> valid_utf8(bytes@),
        r matches Some(s) ==> s@ == decode_utf8(bytes@),
{
    String::from_utf8(bytes).ok()
}

/// Appends `b` and then zero bytes, `width` bytes in all.
fn push_padded(out: &mut Vec<u8>, b: &[u8], width: usize)
    requires
        b@.len() <= width,
    ensures
        final(out)@ == old(out)@ + padded(b@, width as nat),
{
    let ghost start = out@;
    let mut i: usize = 0;
    while i < width
        invariant
            i <= width,
            b@.len() <= width,
            out@ == start + Seq::new(i as nat, |j: int| if j < b@.len() { b@[j] } else { 0u8 }),
        decreases width - i,
    {
        if i < b.len() {
            out.push(b[i]);
        } else {
            out.push(0u8);
        }
        i = i + 1;
        assert(out@ =~= start + Seq::new(i as nat, |j: int| if j < b@.len() { b@[j] } else { 0u8 }));
    }
    assert(Seq::new(width as nat, |j: int| if j < b@.len() { b@[j] } else { 0u8 }) =~= padded(
        b@,
        width as nat,
    ));
}

/// Encodes a row into its fixed-width block: the id as 8 little-endian bytes,
/// then the username and the email, each NUL-padded to its field's width.
pub fn encode(row: &Row) -> (r: Result<Vec<u8>, CodecError>)
    ensures
        match r {
            Ok(b) => encode_spec(row@) == Ok::<Seq<u8>, CodecError>(b@),
            Err(e) => encode_spec(row@) == Err::<Seq<u8>, CodecError>(e),
        },
        r matches Ok(b) ==> b@.len() == ROW_SIZE,
{
    match (&row.id, &row.username, &row.email) {
        (Some(id), Some(username), Some(email)) => {
            let ub = username.as_str().as_bytes();
            let eb = email.as_str().as_bytes();
            if ub.len() > USERNAME_MAX || eb.len() > EMAIL_MAX {
                return Err(CodecError::FieldTooLong);
            }
            let mut out = u64_to_le_bytes(*id);
            proof {
                lemma_auto_spec_u64_to_from_le_bytes();
            }
            push_padded(&mut out, ub, USERNAME_MAX);
            push_padded(&mut out, eb, EMAIL_MAX);
            Ok(out)
        },
        _ => Err(CodecError::MissingField),
    }
}

/// The text of the field of `width` bytes at `start` in `block`.
fn decode_field(block: &[u8], start: usize, width: usize) -> (r: Option<String>)
    requires
        start + width <= block@.len(),
    ensures
        text_view(r) == field_text(block@.subrange(start as int, start + width)),
{
    let ghost f = block@.subrange(start as int, start + width);
    let n = block.len();
    let mut k: usize = width;
    while k > 0 && block[start + k - 1] == 0
        invariant
            k <= width,
            start + width <= n,
            n == block@.len(),
            f == block@.subrange(start as int, start + width),
            forall|i: int| k <= i < width ==> f[i] == 0,
        decreases k,
    {
        k = k - 1;
    }
    proof {
        assert(is_text_end(f, k as int));
        lemma_text_end_unique(f, k as int);
    }
    let text = slice_subrange(block, start, start + k);
    assert(text@ =~= f.take(k as int));
    string_from_utf8(slice_to_vec(text))
}

/// Decodes a block of `ROW_SIZE` bytes into the row it holds.
pub fn decode(block: &[u8]) -> (r: Row)
    requires
        block@.len() == ROW_SIZE,
    ensures
        r@ == decode_spec(block@),
{
    let id = u64_from_le_bytes(slice_subrange(block, 0, ID_SIZE));
    let username = decode_field(block, USERNAME_OFFSET, USERNAME_MAX);
    let email = decode_field(block, EMAIL_OFFSET, EMAIL_MAX);
    Row { id: Some(id), username, email }
}

} // verus!
