//! Platform-native strings held as raw bytes, with pattern search, matching
//! and splitting over them: an owned buffer (`OsString`) and a borrowed view
//! (`OsStr`). The bytes are arbitrary; textual operations act on the maximal
//! valid UTF-8 sections and never match inside invalid byte runs.

use vstd::prelude::*;
use vstd::utf8::*;
use crate::sections::{
    scalar_len_at, run_end, suffix_from, sections_spec, char_len_at, scan_run,
    valid_bytes_to_string, lemma_scalar_len_bound, lemma_run_end_bounds, lemma_run_valid,
    lemma_valid_iff_run_end, lemma_first_scalar_prefix, lemma_width1_codepoint,
    lemma_width2_codepoint, lemma_width3_codepoint, Utf8Sections,
};
use crate::pattern::{
    occ_at, occs_bounded, lemma_occs_empty_iff, match_at, find_in_window, Pattern,
    lemma_char_pattern_nso,
};
use crate::split_bytes::{
    fwd_match_seq, bwd_match_seq, split_seq, rsplit_seq, MatchImpl, SplitImpl,
};

verus! {

broadcast use vstd::seq_lib::group_seq_properties;

/// One replacement character per maximal invalid run: the end of the invalid
/// run that starts at `i`.
pub open spec fn invalid_run_end(b: Seq<u8>, i: int) -> int
    decreases b.len() - i
        when 0 <= i
{
    if i >= b.len() {
        b.len() as int
    } else if scalar_len_at(b, i) != 0 {
        i
    } else {
        invalid_run_end(b, i + 1)
    }
}

/// The bytes of the lossy decoding of `b` from position `i` on: valid runs
/// kept as they are, each maximal invalid run replaced by one U+FFFD.
pub open spec fn lossy_from(b: Seq<u8>, i: int) -> Seq<u8>
    decreases b.len() - i
        when 0 <= i
{
    if i >= b.len() {
        Seq::empty()
    } else if scalar_len_at(b, i) == 0 {
        let e = invalid_run_end(b, i);
        encode_scalar(0xFFFD) + (if i < e <= b.len() {
            lossy_from(b, e)
        } else {
            lossy_from(b, i + 1)
        })
    } else {
        let e = run_end(b, i);
        b.subrange(i, e) + (if i < e <= b.len() {
            lossy_from(b, e)
        } else {
            lossy_from(b, i + 1)
        })
    }
}

/// The end of an invalid run lies between its start and the buffer's end.
pub proof fn lemma_invalid_run_end_bounds(b: Seq<u8>, i: int)
    requires
        0 <= i <= b.len(),
    ensures
        i <= invalid_run_end(b, i) <= b.len(),
        i < b.len() && scalar_len_at(b, i) == 0 ==> i + 1 <= invalid_run_end(b, i),
    decreases b.len() - i,
{
    if i < b.len() && scalar_len_at(b, i) == 0 {
        lemma_invalid_run_end_bounds(b, i + 1);
    }
}

/// Relies on `Vec::capacity` from std: how many bytes fit in the buffer
/// before it must grow.
#[verifier::external_body]
fn vec_capacity(v: &Vec<u8>) -> usize {
    v.capacity()
}

/// Relies on `char::from_u32` from core: every Unicode scalar value converts,
/// and the character's numeric value is the one given.
#[verifier::external_body]
fn scalar_to_char(v: u32) -> (c: char)
    requires
        is_scalar(v),
    ensures
        c as u32 == v,
{
    match char::from_u32(v) {
        Option::Some(c) => c,
        Option::None => ' ',
    }
}

/// An owned platform-native string: a growable buffer of arbitrary bytes.
#[derive(Clone)]
pub struct OsString {
    inner: Vec<u8>,
}

/// A borrowed view of a platform-native string: arbitrary bytes, not
/// necessarily valid UTF-8.
#[derive(Clone, Copy)]
pub struct OsStr<'a> {
    bytes: &'a [u8],
}

impl View for OsString {
    type V = Seq<u8>;

    closed spec fn view(&self) -> Seq<u8> {
        self.inner@
    }
}

impl<'a> View for OsStr<'a> {
    type V = Seq<u8>;

    closed spec fn view(&self) -> Seq<u8> {
        self.bytes@
    }
}

/// The trimmed-down interface an owned platform-native string offers beyond
/// its borrowed view.
pub trait OsStringPrototyping: Sized {
    spec fn view_bytes(&self) -> Seq<u8>;

    /// An empty string with room already reserved.
    fn with_capacity(capacity: usize) -> (r: Self)
        ensures
            r.view_bytes() == Seq::<u8>::empty(),
    ;

    /// How many bytes fit before the buffer must grow.
    fn capacity(&self) -> usize;

    /// The string's text, with each maximal invalid byte run replaced by one
    /// U+FFFD replacement character.
    fn into_string_lossy(self) -> (r: String)
        ensures
            encode_utf8(r@) == lossy_from(self.view_bytes(), 0),
    ;

    /// Empties the string.
    fn clear(&mut self)
        ensures
            final(self).view_bytes() == Seq::<u8>::empty(),
    ;
}

impl OsString {
    /// Constructs a new empty `OsString`.
    pub fn new() -> (r: OsString)
        ensures
            r@ == Seq::<u8>::empty(),
    {
        OsString { inner: Vec::new() }
    }

    /// Constructs an `OsString` holding the bytes of the given text.
    pub fn from_str(s: &str) -> (r: OsString)
        ensures
            r@ == encode_utf8(s@),
    {
        let b = s.as_bytes();
        OsString { inner: vstd::slice::slice_to_vec(b) }
    }

    /// Constructs an `OsString` from a byte sequence. On a raw-bytes
    /// platform representation any byte sequence converts.
    pub fn from_bytes(bytes: Vec<u8>) -> (r: Option<OsString>)
        ensures
            r is Some,
            r->Some_0@ == bytes@,
    {
        Some(OsString { inner: bytes })
    }

    /// Converts to a borrowed `OsStr` view.
    pub fn as_os_str(&self) -> (r: OsStr<'_>)
        ensures
            r@ == self@,
    {
        OsStr { bytes: self.inner.as_slice() }
    }

    /// Converts the `OsString` into a `String` exactly when it holds valid
    /// Unicode data; on failure, ownership of the original is returned.
    pub fn into_string(self) -> (r: Result<String, OsString>)
        ensures
            r is Ok <==> valid_utf8(self@),
            r is Ok ==> encode_utf8(r->Ok_0@) == self@,
            r is Err ==> r->Err_0@ == self@,
    {
        let e = scan_run(self.inner.as_slice(), 0);
        proof {
            lemma_valid_iff_run_end(self@, 0);
            assert(suffix_from(self@, 0) =~= self@);
        }
        if e == self.inner.len() {
            Ok(valid_bytes_to_string(self.inner.as_slice()))
        } else {
            Err(self)
        }
    }

    /// Extends the string with the given `OsStr` slice.
    pub fn push(&mut self, s: &OsStr<'_>)
        ensures
            final(self)@ == old(self)@ + s@,
    {
        let mut k: usize = 0;
        let n = s.bytes.len();
        while k < n
            invariant
                k <= n,
                n == s@.len(),
                self@ == old(self)@ + s@.subrange(0, k as int),
            decreases n - k,
        {
            self.inner.push(s.bytes[k]);
            k = k + 1;
            proof {
                assert(old(self)@ + s@.subrange(0, k - 1) + seq![s@[k - 1]] =~= old(self)@
                    + s@.subrange(0, k as int));
            }
        }
        proof {
            assert(old(self)@ + s@.subrange(0, n as int) =~= old(self)@ + s@);
        }
    }

    /// Reserves room for at least `additional` more bytes.
    pub fn reserve(&mut self, additional: usize)
        ensures
            final(self)@ == old(self)@,
    {
        self.inner.reserve(additional);
    }
}

impl OsStringPrototyping for OsString {
    open spec fn view_bytes(&self) -> Seq<u8> {
        self.view()
    }

    fn with_capacity(capacity: usize) -> (r: OsString) {
        OsString { inner: Vec::with_capacity(capacity) }
    }

    fn capacity(&self) -> usize {
        vec_capacity(&self.inner)
    }

    fn into_string_lossy(self) -> (r: String) {
        let v = to_lossy_bytes(self.inner.as_slice());
        valid_bytes_to_string(v.as_slice())
    }

    fn clear(&mut self) {
        self.inner.clear();
    }
}

/// The lossy decoding of arbitrary bytes, as the UTF-8 bytes of the result:
/// maximal valid runs kept, each maximal invalid run collapsed to one U+FFFD.
#[verifier::rlimit(100)]
pub fn to_lossy_bytes(buf: &[u8]) -> (v: Vec<u8>)
    ensures
        v@ == lossy_from(buf@, 0),
        valid_utf8(v@),
{
    broadcast use vstd::utf8::valid_utf8_concat;

    let n = buf.len();
    let mut v: Vec<u8> = Vec::new();
    let mut i: usize = 0;
    proof {
        assert(v@ + lossy_from(buf@, 0) =~= lossy_from(buf@, 0));
        assert('\u{FFFD}' as u32 == 0xFFFD);
        assert(seq!['\u{FFFD}'].drop_first() =~= Seq::<char>::empty());
        assert(encode_utf8(Seq::<char>::empty()) == Seq::<u8>::empty());
        assert(encode_utf8(seq!['\u{FFFD}']) =~= encode_scalar(0xFFFD));
        encode_utf8_valid_utf8(seq!['\u{FFFD}']);
    }
    while i < n
        invariant
            i <= n,
            n == buf@.len(),
            v@ + lossy_from(buf@, i as int) == lossy_from(buf@, 0),
            valid_utf8(v@),
            valid_utf8(encode_scalar(0xFFFD)),
        decreases n - i,
    {
        let l = char_len_at(buf, i);
        if l == 0 {
            let ghost pre = v@;
            v.push(0xEF);
            v.push(0xBF);
            v.push(0xBD);
            proof {
                assert((0xE0u8 | (((0xFFFDu32 >> 12) & 0x0F) as u8)) == 0xEFu8 && (0x80u8 | (((
                0xFFFDu32 >> 6) & 0x3F) as u8)) == 0xBFu8 && (0x80u8 | ((0xFFFDu32
                    & 0x3F) as u8)) == 0xBDu8) by (bit_vector);
                assert(encode_scalar(0xFFFD) =~= seq![0xEFu8, 0xBFu8, 0xBDu8]);
                assert(v@ =~= pre + encode_scalar(0xFFFD));
                vstd::utf8::valid_utf8_concat(pre, encode_scalar(0xFFFD));
            }
            let mut j = i + 1;
            while j < n && char_len_at(buf, j) == 0
                invariant
                    i < j <= n,
                    n == buf@.len(),
                    invalid_run_end(buf@, j as int) == invalid_run_end(buf@, i as int),
                decreases n - j,
            {
                j = j + 1;
            }
            proof {
                assert(invalid_run_end(buf@, j as int) == j as int);
                lemma_invalid_run_end_bounds(buf@, i as int);
                assert(lossy_from(buf@, i as int) == encode_scalar(0xFFFD) + lossy_from(
                    buf@,
                    j as int,
                ));
                assert(v@ + lossy_from(buf@, j as int) =~= lossy_from(buf@, 0));
            }
            i = j;
        } else {
            proof {
                lemma_scalar_len_bound(buf@, i as int);
                lemma_run_end_bounds(buf@, i as int);
            }
            let e = scan_run(buf, i);
            let ghost pre = v@;
            let piece = vstd::slice::slice_subrange(buf, i, e);
            let mut k: usize = 0;
            while k < piece.len()
                invariant
                    k <= piece@.len(),
                    v@ == pre + piece@.subrange(0, k as int),
                decreases piece@.len() - k,
            {
                v.push(piece[k]);
                k = k + 1;
                proof {
                    assert(pre + piece@.subrange(0, k - 1) + seq![piece@[k - 1]] =~= pre
                        + piece@.subrange(0, k as int));
                }
            }
            proof {
                assert(piece@.subrange(0, piece@.len() as int) =~= piece@);
                assert(v@ =~= pre + buf@.subrange(i as int, e as int));
                lemma_run_valid(buf@, i as int);
                vstd::utf8::valid_utf8_concat(pre, buf@.subrange(i as int, e as int));
                assert(lossy_from(buf@, i as int) == buf@.subrange(i as int, e as int)
                    + lossy_from(buf@, e as int));
                assert(v@ + lossy_from(buf@, e as int) =~= lossy_from(buf@, 0));
                assert(e > i);
            }
            i = e;
        }
    }
    proof {
        assert(lossy_from(buf@, n as int) =~= Seq::<u8>::empty());
        assert(v@ =~= lossy_from(buf@, 0));
    }
    v
}


/// The pieces of splitting with a count limit: at most `n` pieces, the last
/// one being everything not yet consumed.
pub open spec fn splitn_seq(t: Seq<u8>, p: Seq<u8>, n: int) -> Seq<(int, int)> {
    let s = split_seq(t, p);
    if n <= 0 {
        Seq::empty()
    } else if s.len() <= n {
        s
    } else {
        s.take(n - 1).push((s[n - 1].0, t.len() as int))
    }
}

/// The pieces of splitting with a count limit from the back.
pub open spec fn rsplitn_seq(t: Seq<u8>, p: Seq<u8>, n: int) -> Seq<(int, int)> {
    let s = rsplit_seq(t, p);
    if n <= 0 {
        Seq::empty()
    } else if s.len() <= n {
        s
    } else {
        s.take(n - 1).push((0int, s[n - 1].1))
    }
}

/// The pieces of splitting with the final piece dropped when it is empty.
pub open spec fn split_terminator_seq(t: Seq<u8>, p: Seq<u8>) -> Seq<(int, int)> {
    let s = split_seq(t, p);
    if s.len() > 0 && s.last().0 == s.last().1 {
        s.drop_last()
    } else {
        s
    }
}

/// The pieces of a backward split with the trailing piece (yielded first)
/// dropped when it is empty.
pub open spec fn rsplit_terminator_seq(t: Seq<u8>, p: Seq<u8>) -> Seq<(int, int)> {
    let s = rsplit_seq(t, p);
    if s.len() > 0 && s[0].0 == s[0].1 {
        s.drop_first()
    } else {
        s
    }
}

/// The match stream of one buffer and one pattern, iterated front to back:
/// yields each match's absolute start offset (the matched text is always the
/// pattern's own text).
#[derive(Clone)]
pub struct Matches<'a> {
    inner: MatchImpl<'a>,
}

/// The match stream iterated back to front.
#[derive(Clone)]
pub struct RMatches<'a> {
    inner: MatchImpl<'a>,
}

/// The split pieces iterated front to back: yields byte ranges of the buffer.
#[derive(Clone)]
pub struct Split<'a> {
    inner: SplitImpl<'a>,
}

/// The split pieces iterated back to front.
#[derive(Clone)]
pub struct RSplit<'a> {
    inner: SplitImpl<'a>,
}

impl<'a> Matches<'a> {
    /// The offsets not yet yielded, in ascending order.
    pub closed spec fn view_stream(&self) -> Seq<int> {
        self.inner.fwd_view()
    }

    pub closed spec fn wf(&self) -> bool {
        self.inner.wf()
    }

    pub fn next(&mut self) -> (r: Option<usize>)
        requires
            old(self).wf(),
        ensures
            final(self).wf(),
            old(self).view_stream().len() == 0 ==> r is None && final(self).view_stream() == old(
                self,
            ).view_stream(),
            old(self).view_stream().len() > 0 ==> r is Some && r->Some_0 as int == old(
                self,
            ).view_stream()[0] && final(self).view_stream() == old(self).view_stream().drop_first(),
    {
        self.inner.next()
    }
}

impl<'a> RMatches<'a> {
    /// The offsets not yet yielded, in descending order.
    pub closed spec fn view_stream(&self) -> Seq<int> {
        self.inner.bwd_view()
    }

    pub closed spec fn wf(&self) -> bool {
        self.inner.wf()
    }

    pub fn next(&mut self) -> (r: Option<usize>)
        requires
            old(self).wf(),
        ensures
            final(self).wf(),
            old(self).view_stream().len() == 0 ==> r is None && final(self).view_stream() == old(
                self,
            ).view_stream(),
            old(self).view_stream().len() > 0 ==> r is Some && r->Some_0 as int == old(
                self,
            ).view_stream()[0] && final(self).view_stream() == old(self).view_stream().drop_first(),
    {
        self.inner.next_back()
    }
}

impl<'a> Split<'a> {
    /// The byte ranges not yet yielded, in order.
    pub closed spec fn view_stream(&self) -> Seq<(int, int)> {
        self.inner.fwd_view()
    }

    pub closed spec fn wf(&self) -> bool {
        self.inner.wf()
    }

    pub fn next(&mut self) -> (r: Option<(usize, usize)>)
        requires
            old(self).wf(),
        ensures
            final(self).wf(),
            old(self).view_stream().len() == 0 ==> r is None && final(self).view_stream() == old(
                self,
            ).view_stream(),
            old(self).view_stream().len() > 0 ==> r is Some && r->Some_0.0 as int == old(
                self,
            ).view_stream()[0].0 && r->Some_0.1 as int == old(self).view_stream()[0].1 && r->Some_0.0
                <= r->Some_0.1 && final(self).view_stream() == old(
                self,
            ).view_stream().drop_first(),
    {
        self.inner.next()
    }
}

impl<'a> RSplit<'a> {
    /// The byte ranges not yet yielded, in backward order.
    pub closed spec fn view_stream(&self) -> Seq<(int, int)> {
        self.inner.bwd_view()
    }

    pub closed spec fn wf(&self) -> bool {
        self.inner.wf()
    }

    pub fn next(&mut self) -> (r: Option<(usize, usize)>)
        requires
            old(self).wf(),
        ensures
            final(self).wf(),
            old(self).view_stream().len() == 0 ==> r is None && final(self).view_stream() == old(
                self,
            ).view_stream(),
            old(self).view_stream().len() > 0 ==> r is Some && r->Some_0.0 as int == old(
                self,
            ).view_stream()[0].0 && r->Some_0.1 as int == old(self).view_stream()[0].1 && r->Some_0.0
                <= r->Some_0.1 && final(self).view_stream() == old(
                self,
            ).view_stream().drop_first(),
    {
        self.inner.next_back()
    }
}

/// Runs a forward split to exhaustion and collects the pieces.
fn collect_fwd_pieces(buf: &[u8], pat: Pattern) -> (v: Vec<(usize, usize)>)
    ensures
        crate::sections::sec_view(v@) == split_seq(buf@, pat@),
{
    let mut s = SplitImpl::new(buf, pat);
    let ghost orig = s.fwd_view();
    let mut v: Vec<(usize, usize)> = Vec::new();
    proof {
        assert(crate::sections::sec_view(v@) + s.fwd_view() =~= orig);
    }
    loop
        invariant
            s.wf(),
            orig == split_seq(buf@, pat@),
            crate::sections::sec_view(v@) + s.fwd_view() == orig,
        decreases s.fwd_view().len(),
    {
        let ghost pre = crate::sections::sec_view(v@);
        match s.next() {
            Option::Some(piece) => {
                v.push(piece);
                proof {
                    assert(crate::sections::sec_view(v@) =~= pre + seq![
                        (piece.0 as int, piece.1 as int),
                    ]);
                    assert(crate::sections::sec_view(v@) + s.fwd_view() =~= orig);
                }
            },
            Option::None => {
                proof {
                    assert(crate::sections::sec_view(v@) =~= orig);
                }
                return v;
            },
        }
    }
}

/// Runs a backward split to exhaustion and collects the pieces.
fn collect_bwd_pieces(buf: &[u8], pat: Pattern) -> (v: Vec<(usize, usize)>)
    ensures
        crate::sections::sec_view(v@) == rsplit_seq(buf@, pat@),
{
    let mut s = SplitImpl::new(buf, pat);
    let ghost orig = s.bwd_view();
    let mut v: Vec<(usize, usize)> = Vec::new();
    proof {
        assert(crate::sections::sec_view(v@) + s.bwd_view() =~= orig);
    }
    loop
        invariant
            s.wf(),
            orig == rsplit_seq(buf@, pat@),
            crate::sections::sec_view(v@) + s.bwd_view() == orig,
        decreases s.bwd_view().len(),
    {
        let ghost pre = crate::sections::sec_view(v@);
        match s.next_back() {
            Option::Some(piece) => {
                v.push(piece);
                proof {
                    assert(crate::sections::sec_view(v@) =~= pre + seq![
                        (piece.0 as int, piece.1 as int),
                    ]);
                    assert(crate::sections::sec_view(v@) + s.bwd_view() =~= orig);
                }
            },
            Option::None => {
                proof {
                    assert(crate::sections::sec_view(v@) =~= orig);
                }
                return v;
            },
        }
    }
}

impl<'a> OsStr<'a> {
    /// Coerces a text slice into an `OsStr` view of its bytes.
    pub fn new(s: &'a str) -> (r: OsStr<'a>)
        ensures
            r@ == encode_utf8(s@),
    {
        OsStr { bytes: s.as_bytes() }
    }

    /// Views a raw byte slice as an `OsStr`.
    pub fn from_bytes(bytes: &'a [u8]) -> (r: OsStr<'a>)
        ensures
            r@ == bytes@,
    {
        OsStr { bytes }
    }

    /// The underlying bytes.
    pub fn as_bytes(&self) -> (r: &'a [u8])
        ensures
            r@ == self@,
    {
        self.bytes
    }

    /// Returns true if the string contains no bytes.
    pub fn is_empty(&self) -> (r: bool)
        ensures
            r == (self@.len() == 0),
    {
        self.bytes.len() == 0
    }

    /// The string's length in bytes.
    pub fn len(&self) -> (r: usize)
        ensures
            r == self@.len(),
    {
        self.bytes.len()
    }

    /// Yields the text as a `String` exactly when the bytes are valid
    /// Unicode.
    pub fn to_str(&self) -> (r: Option<String>)
        ensures
            r is Some <==> valid_utf8(self@),
            r is Some ==> encode_utf8(r->Some_0@) == self@,
    {
        let e = scan_run(self.bytes, 0);
        proof {
            lemma_valid_iff_run_end(self@, 0);
            assert(suffix_from(self@, 0) =~= self@);
        }
        if e == self.bytes.len() {
            Some(valid_bytes_to_string(self.bytes))
        } else {
            None
        }
    }

    /// The text with each maximal invalid byte run replaced by one U+FFFD.
    pub fn to_string_lossy(&self) -> (r: String)
        ensures
            encode_utf8(r@) == lossy_from(self@, 0),
    {
        let v = to_lossy_bytes(self.bytes);
        valid_bytes_to_string(v.as_slice())
    }

    /// Copies the slice into an owned `OsString`.
    pub fn to_os_string(&self) -> (r: OsString)
        ensures
            r@ == self@,
    {
        OsString { inner: vstd::slice::slice_to_vec(self.bytes) }
    }

    /// Yields the underlying bytes as an owned buffer. On a raw-bytes
    /// platform representation this always succeeds.
    pub fn to_bytes(&self) -> (r: Option<Vec<u8>>)
        ensures
            r is Some,
            r->Some_0@ == self@,
    {
        Some(vstd::slice::slice_to_vec(self.bytes))
    }

    /// The bytes followed by one terminating zero byte, for handing to
    /// interfaces that want zero-terminated strings; fails exactly when the
    /// string itself contains a zero byte, which such a buffer cannot carry.
    pub fn to_cstring(&self) -> (r: Option<Vec<u8>>)
        ensures
            r is Some <==> forall|k: int| 0 <= k < self@.len() ==> self@[k] != 0,
            r is Some ==> r->Some_0@ == self@ + seq![0u8],
    {
        let n = self.bytes.len();
        let mut k: usize = 0;
        while k < n
            invariant
                k <= n,
                n == self@.len(),
                forall|j: int| 0 <= j < k ==> self@[j] != 0,
            decreases n - k,
        {
            if self.bytes[k] == 0 {
                return None;
            }
            k = k + 1;
        }
        let mut v = vstd::slice::slice_to_vec(self.bytes);
        v.push(0);
        proof {
            assert(v@ =~= self@ + seq![0u8]);
        }
        Some(v)
    }

    /// Whether `needle`'s bytes occur contiguously inside this string's raw
    /// bytes: true exactly when the needle is empty or appears somewhere,
    /// regardless of UTF-8 validity on either side.
    pub fn contains_os(&self, needle: &OsStr<'_>) -> (r: bool)
        ensures
            r <==> (needle@.len() == 0 || exists|i: int| occ_at(self@, needle@, i)),
    {
        let nv = vstd::slice::slice_to_vec(needle.bytes);
        if nv.len() == 0 {
            return true;
        }
        let n = self.bytes.len();
        let found = find_in_window(self.bytes, &nv, 0, n);
        proof {
            lemma_occs_empty_iff(self@, needle@, 0, self@.len() as int);
        }
        match found {
            Option::Some(i) => {
                proof {
                    assert(occ_at(self@, needle@, i as int));
                }
                true
            },
            Option::None => {
                proof {
                    assert(forall|i: int|
                        occ_at(self@, needle@, i) ==> 0 <= i && i + needle@.len() <= self@.len());
                }
                false
            },
        }
    }

    /// Whether this string's bytes begin with `needle`'s bytes.
    pub fn starts_with_os(&self, needle: &OsStr<'_>) -> (r: bool)
        ensures
            r <==> occ_at(self@, needle@, 0),
    {
        let nv = vstd::slice::slice_to_vec(needle.bytes);
        if nv.len() > self.bytes.len() {
            return false;
        }
        match_at(self.bytes, &nv, 0)
    }

    /// Whether this string's bytes end with `needle`'s bytes.
    pub fn ends_with_os(&self, needle: &OsStr<'_>) -> (r: bool)
        ensures
            r <==> occ_at(self@, needle@, self@.len() - needle@.len()),
    {
        let nv = vstd::slice::slice_to_vec(needle.bytes);
        if nv.len() > self.bytes.len() {
            proof {
                assert(self@.len() - needle@.len() < 0);
            }
            return false;
        }
        match_at(self.bytes, &nv, self.bytes.len() - nv.len())
    }

    /// Whether this string's bytes begin with the given text.
    pub fn starts_with_str(&self, prefix: &str) -> (r: bool)
        ensures
            r <==> occ_at(self@, encode_utf8(prefix@), 0),
    {
        let nv = vstd::slice::slice_to_vec(prefix.as_bytes());
        if nv.len() > self.bytes.len() {
            return false;
        }
        match_at(self.bytes, &nv, 0)
    }

    /// The remainder after the given text prefix, or `None` when the string
    /// does not begin with it.
    pub fn remove_prefix_str(&self, prefix: &str) -> (r: Option<OsStr<'a>>)
        ensures
            r is Some <==> occ_at(self@, encode_utf8(prefix@), 0),
            r is Some ==> r->Some_0@ == self@.subrange(
                encode_utf8(prefix@).len() as int,
                self@.len() as int,
            ),
    {
        let nv = vstd::slice::slice_to_vec(prefix.as_bytes());
        if nv.len() > self.bytes.len() {
            return None;
        }
        if match_at(self.bytes, &nv, 0) {
            Some(OsStr { bytes: vstd::slice::slice_subrange(self.bytes, nv.len(), self.bytes.len()) })
        } else {
            None
        }
    }

    /// The sections of this string: its maximal runs of valid UTF-8 text,
    /// traversable from both ends.
    pub fn utf8_sections(&self) -> (r: Utf8Sections<'a>)
        ensures
            r.wf(),
            r.buf_view() == self@,
            r.pending() == sections_spec(self@),
    {
        Utf8Sections::new(self.bytes)
    }

    /// The match stream, front to back.
    pub fn matches(&self, pat: Pattern) -> (r: Matches<'a>)
        ensures
            r.wf(),
            r.view_stream() == fwd_match_seq(self@, pat@),
    {
        Matches { inner: MatchImpl::new(self.bytes, pat) }
    }

    /// The match stream, back to front.
    pub fn rmatches(&self, pat: Pattern) -> (r: RMatches<'a>)
        ensures
            r.wf(),
            r.view_stream() == bwd_match_seq(self@, pat@),
    {
        RMatches { inner: MatchImpl::new(self.bytes, pat) }
    }

    /// The split pieces, front to back.
    pub fn split(&self, pat: Pattern) -> (r: Split<'a>)
        ensures
            r.wf(),
            r.view_stream() == split_seq(self@, pat@),
    {
        Split { inner: SplitImpl::new(self.bytes, pat) }
    }

    /// The split pieces, back to front.
    pub fn rsplit(&self, pat: Pattern) -> (r: RSplit<'a>)
        ensures
            r.wf(),
            r.view_stream() == rsplit_seq(self@, pat@),
    {
        RSplit { inner: SplitImpl::new(self.bytes, pat) }
    }

    /// Whether the pattern matches anywhere inside the string's valid text.
    pub fn contains(&self, pat: Pattern) -> (r: bool)
        ensures
            r == (fwd_match_seq(self@, pat@).len() > 0),
    {
        let mut m = MatchImpl::new(self.bytes, pat);
        let found = m.next();
        match found {
            Option::Some(_) => true,
            Option::None => false,
        }
    }

    /// Whether the string starts with the pattern: the very first byte
    /// position is a match.
    pub fn starts_with(&self, pat: Pattern) -> (r: bool)
        ensures
            r == (fwd_match_seq(self@, pat@).len() > 0 && fwd_match_seq(self@, pat@)[0] == 0),
    {
        let mut m = MatchImpl::new(self.bytes, pat);
        let found = m.next();
        match found {
            Option::Some(i) => i == 0,
            Option::None => false,
        }
    }

    /// Whether the string ends with the pattern: a match ends exactly at the
    /// last byte.
    pub fn ends_with(&self, pat: Pattern) -> (r: bool)
        ensures
            r == (bwd_match_seq(self@, pat@).len() > 0 && bwd_match_seq(self@, pat@)[0] + pat@.len()
                == self@.len()),
    {
        let n = self.bytes.len();
        let ell = pat.byte_len();
        let mut m = MatchImpl::new(self.bytes, pat);
        proof {
            m.lemma_state_sound();
        }
        let found = m.next_back();
        match found {
            Option::Some(i) => {
                proof {
                    assert(occ_at(self@, pat@, i as int));
                    assert(i + ell <= n);
                }
                i + ell == n
            },
            Option::None => false,
        }
    }

    /// At most `n` split pieces, front to back; the last piece is everything
    /// not yet consumed, separators included.
    pub fn splitn(&self, n: usize, pat: Pattern) -> (v: Vec<(usize, usize)>)
        ensures
            crate::sections::sec_view(v@) == splitn_seq(self@, pat@, n as int),
    {
        let len = self.bytes.len();
        let mut all = collect_fwd_pieces(self.bytes, pat);
        if n == 0 {
            proof {
                assert(splitn_seq(self@, pat@, 0) =~= crate::sections::sec_view(
                    Seq::<(usize, usize)>::empty(),
                ));
            }
            Vec::new()
        } else if all.len() <= n {
            all
        } else {
            let first = all[n - 1].0;
            all.truncate(n - 1);
            all.push((first, len));
            proof {
                let s = split_seq(self@, pat@);
                assert(crate::sections::sec_view(all@) =~= s.take(n - 1).push(
                    (s[n - 1].0, self@.len() as int),
                ));
            }
            all
        }
    }

    /// At most `n` split pieces, back to front; the last piece is everything
    /// not yet consumed, separators included.
    pub fn rsplitn(&self, n: usize, pat: Pattern) -> (v: Vec<(usize, usize)>)
        ensures
            crate::sections::sec_view(v@) == rsplitn_seq(self@, pat@, n as int),
    {
        let mut all = collect_bwd_pieces(self.bytes, pat);
        if n == 0 {
            proof {
                assert(rsplitn_seq(self@, pat@, 0) =~= crate::sections::sec_view(
                    Seq::<(usize, usize)>::empty(),
                ));
            }
            Vec::new()
        } else if all.len() <= n {
            all
        } else {
            let last = all[n - 1].1;
            all.truncate(n - 1);
            all.push((0, last));
            proof {
                let s = rsplit_seq(self@, pat@);
                assert(crate::sections::sec_view(all@) =~= s.take(n - 1).push((0int, s[n - 1].1)));
            }
            all
        }
    }

    /// The split pieces front to back, except that a final empty piece — the
    /// buffer ended on a match — is dropped.
    pub fn split_terminator(&self, pat: Pattern) -> (v: Vec<(usize, usize)>)
        ensures
            crate::sections::sec_view(v@) == split_terminator_seq(self@, pat@),
    {
        let mut all = collect_fwd_pieces(self.bytes, pat);
        if all.len() > 0 {
            let lastp = all[all.len() - 1];
            if lastp.0 == lastp.1 {
                all.pop();
                proof {
                    assert(crate::sections::sec_view(all@) =~= split_terminator_seq(self@, pat@));
                }
            }
        }
        all
    }

    /// The split pieces back to front, except that a leading empty piece —
    /// the buffer ended on a match — is dropped.
    pub fn rsplit_terminator(&self, pat: Pattern) -> (v: Vec<(usize, usize)>)
        ensures
            crate::sections::sec_view(v@) == rsplit_terminator_seq(self@, pat@),
    {
        let mut all = collect_bwd_pieces(self.bytes, pat);
        if all.len() > 0 {
            let firstp = all[0];
            if firstp.0 == firstp.1 {
                all.remove(0);
                proof {
                    assert(crate::sections::sec_view(all@) =~= rsplit_terminator_seq(self@, pat@));
                }
            }
        }
        all
    }

    /// Splits off the leading character of the valid text at the front: the
    /// first character and everything after it, or `None` when the string is
    /// empty or begins with an invalid byte.
    pub fn slice_shift_char(&self) -> (r: Option<(char, OsStr<'a>)>)
        ensures
            r is None <==> scalar_len_at(self@, 0) == 0,
            r is Some ==> encode_scalar(r->Some_0.0 as u32) == self@.subrange(
                0,
                scalar_len_at(self@, 0),
            ) && r->Some_0.1@ == self@.subrange(scalar_len_at(self@, 0), self@.len() as int),
    {
        let l = char_len_at(self.bytes, 0);
        if l == 0 {
            return None;
        }
        proof {
            lemma_scalar_len_bound(self@, 0);
        }
        let ghost s = suffix_from(self@, 0);
        proof {
            assert(s =~= self@);
        }
        let b0 = self.bytes[0];
        let cp: u32;
        if l == 1 {
            cp = (b0 & 0x7F) as u32;
            proof {
                lemma_width1_codepoint(b0);
            }
        } else if l == 2 {
            cp = ((((b0 & 0x1F) as u32) << 6) | ((self.bytes[1] & 0x3F) as u32));
            proof {
                lemma_width2_codepoint(b0, self.bytes[1 as int]);
            }
        } else if l == 3 {
            cp = ((((b0 & 0x0F) as u32) << 12) | (((self.bytes[1] & 0x3F) as u32) << 6) | ((
            self.bytes[2] & 0x3F) as u32));
            proof {
                lemma_width3_codepoint(b0, self.bytes[1 as int], self.bytes[2 as int]);
            }
        } else {
            cp = ((((b0 & 0x07) as u32) << 18) | (((self.bytes[1] & 0x3F) as u32) << 12) | (((
            self.bytes[2] & 0x3F) as u32) << 6) | ((self.bytes[3] & 0x3F) as u32));
        }
        proof {
            assert(cp == decode_first_codepoint(s));
            assert(is_scalar(cp));
        }
        let c = scalar_to_char(cp);
        proof {
            lemma_run_end_bounds(self@, 0);
            lemma_run_valid(self@, 0);
            let re = run_end(self@, 0);
            let vp = self@.subrange(0, re);
            assert(vp == s.subrange(0, re));
            lemma_first_scalar_prefix(s, re);
            decode_utf8_first_scalar(vp);
            char_u32_cast(c, cp);
            assert(take_first_scalar(vp) =~= self@.subrange(0, l as int));
        }
        let rest = OsStr {
            bytes: vstd::slice::slice_subrange(self.bytes, l, self.bytes.len()),
        };
        Some((c, rest))
    }

    /// Finds the first occurrence of `boundary` inside the valid text at the
    /// front of the string, and splits there: the text before it, and
    /// everything after it. `None` when the valid leading text holds no such
    /// character.
    pub fn split_off_str(&self, boundary: char) -> (r: Option<(String, OsStr<'a>)>)
        ensures
            r is Some <==> occs_bounded(
                self@,
                encode_scalar(boundary as u32),
                0,
                run_end(self@, 0),
            ).len() > 0,
            r is Some ==> {
                let b = occs_bounded(self@, encode_scalar(boundary as u32), 0, run_end(self@, 0))[0];
                &&& encode_utf8(r->Some_0.0@) == self@.subrange(0, b)
                &&& r->Some_0.1@ == self@.subrange(
                    b + encode_scalar(boundary as u32).len(),
                    self@.len() as int,
                )
            },
    {
        let pat = Pattern::from_char(boundary);
        let p = scan_run(self.bytes, 0);
        proof {
            lemma_run_end_bounds(self@, 0);
        }
        let found = find_in_window(self.bytes, pat.as_bytes(), 0, p);
        match found {
            Option::Some(b) => {
                proof {
                    lemma_run_valid(self@, 0);
                    char_is_scalar(boundary);
                    lemma_char_pattern_nso(boundary as u32);
                    let enc = encode_scalar(boundary as u32);
                    let vp = self@.subrange(0, p as int);
                    assert(self@.subrange(b as int, b + enc.len())[0] == self@[b as int]);
                    assert(self@[b as int] == enc[0]);
                    assert(vp[b as int] == self@[b as int]);
                    if b > 0 {
                        is_char_boundary_iff_not_is_continuation_byte(vp, b as int);
                    } else {
                        is_char_boundary_start_end_of_seq(vp);
                    }
                    valid_utf8_split(vp, b as int);
                    assert(vp.subrange(0, b as int) =~= self@.subrange(0, b as int));
                }
                let prefix = valid_bytes_to_string(
                    vstd::slice::slice_subrange(self.bytes, 0, b),
                );
                let l = pat.byte_len();
                let rest = OsStr {
                    bytes: vstd::slice::slice_subrange(self.bytes, b + l, self.bytes.len()),
                };
                Some((prefix, rest))
            },
            Option::None => None,
        }
    }
}

/// The bytes of the elements from position `i` on, concatenated.
pub open spec fn cat_from(elems: Seq<Seq<u8>>, i: int) -> Seq<u8>
    decreases elems.len() - i,
{
    if i < 0 || i >= elems.len() {
        Seq::empty()
    } else {
        elems[i] + cat_from(elems, i + 1)
    }
}

/// One separator before each element from position `i` on.
pub open spec fn join_tail(elems: Seq<Seq<u8>>, sep: Seq<u8>, i: int) -> Seq<u8>
    decreases elems.len() - i,
{
    if i < 0 || i >= elems.len() {
        Seq::empty()
    } else {
        sep + elems[i] + join_tail(elems, sep, i + 1)
    }
}

/// The elements' bytes in order, with one separator between consecutive
/// elements.
pub open spec fn join_view(elems: Seq<Seq<u8>>, sep: Seq<u8>) -> Seq<u8> {
    if elems.len() == 0 {
        Seq::empty()
    } else {
        elems[0] + join_tail(elems, sep, 1)
    }
}

/// Concatenates the strings: the result holds every element's bytes in order.
pub fn concat(items: &Vec<OsString>) -> (r: OsString)
    ensures
        r@ == cat_from(items@.map_values(|x: OsString| x@), 0),
{
    let ghost elems = items@.map_values(|x: OsString| x@);
    let mut r = OsString::new();
    let mut k: usize = 0;
    proof {
        assert(r@ + cat_from(elems, 0) =~= cat_from(elems, 0));
    }
    while k < items.len()
        invariant
            k <= items@.len(),
            elems == items@.map_values(|x: OsString| x@),
            r@ + cat_from(elems, k as int) == cat_from(elems, 0),
        decreases items@.len() - k,
    {
        let s = items[k].as_os_str();
        r.push(&s);
        proof {
            assert(elems[k as int] == items@[k as int]@);
            assert(cat_from(elems, k as int) == elems[k as int] + cat_from(elems, k + 1));
            assert(r@ + cat_from(elems, k + 1) =~= cat_from(elems, 0));
        }
        k = k + 1;
    }
    proof {
        assert(cat_from(elems, items@.len() as int) =~= Seq::<u8>::empty());
        assert(r@ =~= cat_from(elems, 0));
    }
    r
}

/// Joins the strings: every element's bytes in order, with one copy of the
/// separator between consecutive elements.
pub fn join(items: &Vec<OsString>, sep: &OsStr<'_>) -> (r: OsString)
    ensures
        r@ == join_view(items@.map_values(|x: OsString| x@), sep@),
{
    let ghost elems = items@.map_values(|x: OsString| x@);
    let mut r = OsString::new();
    if items.len() == 0 {
        proof {
            assert(join_view(elems, sep@) =~= Seq::<u8>::empty());
        }
        return r;
    }
    let first = items[0].as_os_str();
    r.push(&first);
    let mut k: usize = 1;
    proof {
        assert(elems[0] == items@[0]@);
        assert(r@ =~= elems[0]);
    }
    while k < items.len()
        invariant
            1 <= k <= items@.len(),
            elems == items@.map_values(|x: OsString| x@),
            r@ + join_tail(elems, sep@, k as int) == join_view(elems, sep@),
        decreases items@.len() - k,
    {
        r.push(sep);
        let s = items[k].as_os_str();
        r.push(&s);
        proof {
            assert(elems[k as int] == items@[k as int]@);
            assert(join_tail(elems, sep@, k as int) == sep@ + elems[k as int] + join_tail(
                elems,
                sep@,
                k + 1,
            ));
            assert(r@ + join_tail(elems, sep@, k + 1) =~= join_view(elems, sep@));
        }
        k = k + 1;
    }
    proof {
        assert(join_tail(elems, sep@, items@.len() as int) =~= Seq::<u8>::empty());
        assert(r@ =~= join_view(elems, sep@));
    }
    r
}

/// Joins the strings with the separator; another name for `join`.
pub fn connect(items: &Vec<OsString>, sep: &OsStr<'_>) -> (r: OsString)
    ensures
        r@ == join_view(items@.map_values(|x: OsString| x@), sep@),
{
    join(items, sep)
}

} // verus!
