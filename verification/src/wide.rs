//! The wide-character platform representation of an owned platform string: a
//! WTF-8 buffer, a superset of UTF-8 that can also carry lone surrogate code
//! units. The buffer itself is kept by the `wtf8` crate; this module states
//! its behaviour over the bytes it holds and verifies the adapter around it.
//! The byte-oriented core treats a lone surrogate's encoding as an invalid
//! run, so sections, matches and splits act on this representation exactly as
//! they do on raw bytes.

use vstd::prelude::*;
use vstd::utf8::*;

verus! {

#[verifier::external_type_specification]
#[verifier::external_body]
pub struct ExWtf8Buf(wtf8::Wtf8Buf);

/// The bytes a WTF-8 buffer holds.
pub uninterp spec fn wtf8_view(b: wtf8::Wtf8Buf) -> Seq<u8>;

/// The supplementary scalar that a lead surrogate ending `a` and a trail
/// surrogate beginning `b` pair up to.
pub open spec fn joined_scalar(a: Seq<u8>, b: Seq<u8>) -> u32
    recommends
        ends_with_lead_surrogate(a),
        starts_with_trail_surrogate(b),
{
    let n = a.len() as int;
    let lead = codepoint_width_3(a[n - 3], a[n - 2], a[n - 1]);
    let trail = codepoint_width_3(b[0], b[1], b[2]);
    ((0x10000 + (lead - 0xD800) * 0x400 + (trail - 0xDC00)) as u32)
}

/// What appending one WTF-8 buffer to another yields when a lead surrogate
/// at the boundary meets a trail surrogate: both surrogate encodings are
/// removed and the supplementary code point they pair up to is written in
/// their place.
pub open spec fn wtf8_concat_joined(a: Seq<u8>, b: Seq<u8>) -> Seq<u8>
    recommends
        ends_with_lead_surrogate(a),
        starts_with_trail_surrogate(b),
{
    a.subrange(0, a.len() - 3) + encode_scalar(joined_scalar(a, b)) + b.subrange(3, b.len() as int)
}

/// The bytes end with the WTF-8 encoding of a lead surrogate.
pub open spec fn ends_with_lead_surrogate(b: Seq<u8>) -> bool {
    let n = b.len() as int;
    n >= 3 && b[n - 3] == 0xED && 0xA0 <= b[n - 2] <= 0xAF && is_continuation_byte(b[n - 1])
}

/// The bytes begin with the WTF-8 encoding of a trail surrogate.
pub open spec fn starts_with_trail_surrogate(b: Seq<u8>) -> bool {
    b.len() >= 3 && b[0] == 0xED && 0xB0 <= b[1] <= 0xBF && is_continuation_byte(b[2])
}

/// Relies on `Wtf8Buf::from_string` of the wtf8 crate: the buffer holds
/// exactly the UTF-8 bytes of the given text.
#[verifier::external_body]
fn wide_from_string(s: String) -> (r: wtf8::Wtf8Buf)
    ensures
        wtf8_view(r) == encode_utf8(s@),
{
    wtf8::Wtf8Buf::from_string(s)
}

/// Relies on `Wtf8Buf::push_wtf8` of the wtf8 crate: the bytes are
/// concatenated, except that a newly paired surrogate at the boundary is
/// replaced by one supplementary code point.
#[verifier::external_body]
fn wide_push_wtf8(a: &mut wtf8::Wtf8Buf, b: &wtf8::Wtf8Buf)
    ensures
        !(ends_with_lead_surrogate(wtf8_view(*old(a))) && starts_with_trail_surrogate(
            wtf8_view(*b),
        )) ==> wtf8_view(*final(a)) == wtf8_view(*old(a)) + wtf8_view(*b),
        ends_with_lead_surrogate(wtf8_view(*old(a))) && starts_with_trail_surrogate(wtf8_view(*b))
            ==> wtf8_view(*final(a)) == wtf8_concat_joined(wtf8_view(*old(a)), wtf8_view(*b)),
{
    a.push_wtf8(b)
}

/// Relies on `Wtf8Buf::into_string` of the wtf8 crate: a well-formed WTF-8
/// buffer converts exactly when it holds no surrogate, that is, when its
/// bytes are valid UTF-8; otherwise the buffer is returned unchanged.
#[verifier::external_body]
fn wide_into_string(b: wtf8::Wtf8Buf) -> (r: Result<String, wtf8::Wtf8Buf>)
    ensures
        r is Ok <==> valid_utf8(wtf8_view(b)),
        r is Ok ==> encode_utf8(r->Ok_0@) == wtf8_view(b),
        r is Err ==> wtf8_view(r->Err_0) == wtf8_view(b),
{
    b.into_string()
}

/// Relies on `Wtf8::len` of the wtf8 crate: the length in bytes.
#[verifier::external_body]
fn wide_len(b: &wtf8::Wtf8Buf) -> (r: usize)
    ensures
        r == wtf8_view(*b).len(),
{
    b.len()
}

/// An owned platform string in the wide-character representation: WTF-8
/// encoded bytes, interchangeable with the byte-oriented core through the
/// contracts on its operations.
pub struct Buf {
    inner: wtf8::Wtf8Buf,
}

impl View for Buf {
    type V = Seq<u8>;

    closed spec fn view(&self) -> Seq<u8> {
        wtf8_view(self.inner)
    }
}

impl Buf {
    /// Wraps a text's bytes, which a WTF-8 buffer carries unchanged.
    pub fn from_string(s: String) -> (r: Buf)
        ensures
            r@ == encode_utf8(s@),
    {
        Buf { inner: wide_from_string(s) }
    }

    /// The buffer's length in bytes.
    pub fn len(&self) -> (r: usize)
        ensures
            r == self@.len(),
    {
        wide_len(&self.inner)
    }

    /// Appends another buffer: plain byte concatenation, except that a lead
    /// surrogate meeting a trail surrogate at the boundary becomes one
    /// supplementary code point, as concatenating the two ill-formed UTF-16
    /// strings would.
    pub fn push_slice(&mut self, s: &Buf)
        ensures
            !(ends_with_lead_surrogate(old(self)@) && starts_with_trail_surrogate(s@))
                ==> final(self).view() == old(self)@ + s@,
            ends_with_lead_surrogate(old(self)@) && starts_with_trail_surrogate(s@)
                ==> final(self).view() == wtf8_concat_joined(old(self)@, s@),
    {
        wide_push_wtf8(&mut self.inner, &s.inner)
    }

    /// Converts into a `String` exactly when the bytes are valid Unicode; on
    /// failure, ownership of the original buffer is returned.
    pub fn into_string(self) -> (r: Result<String, Buf>)
        ensures
            r is Ok <==> valid_utf8(self@),
            r is Ok ==> encode_utf8(r->Ok_0@) == self@,
            r is Err ==> r->Err_0@ == self@,
    {
        match wide_into_string(self.inner) {
            Result::Ok(s) => Ok(s),
            Result::Err(b) => Err(Buf { inner: b }),
        }
    }
}

} // verus!
