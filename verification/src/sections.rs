//! The section partitioner: splits a byte buffer into its maximal runs of
//! valid UTF-8 text ("sections"), skipping runs of invalid bytes entirely.

use vstd::prelude::*;
use vstd::utf8::*;

verus! {

broadcast use vstd::seq_lib::group_seq_properties;

/// The bytes of `b` from position `i` to the end.
pub open spec fn suffix_from(b: Seq<u8>, i: int) -> Seq<u8> {
    b.subrange(i, b.len() as int)
}

/// Length (1 to 4) of the well-formed UTF-8 scalar encoding that starts at
/// position `i` of `b`, or 0 when no well-formed encoding starts there.
pub open spec fn scalar_len_at(b: Seq<u8>, i: int) -> int {
    if 0 <= i < b.len() && valid_first_scalar(suffix_from(b, i)) {
        length_of_first_scalar(suffix_from(b, i))
    } else {
        0
    }
}

/// The end of the run of well-formed scalar encodings that starts at `i`:
/// positions are consumed scalar by scalar until one starts no scalar.
pub open spec fn run_end(b: Seq<u8>, i: int) -> int
    decreases b.len() - i
        when 0 <= i <= b.len()
{
    if scalar_len_at(b, i) == 0 {
        i
    } else if i + scalar_len_at(b, i) <= b.len() {
        run_end(b, i + scalar_len_at(b, i))
    } else {
        b.len() as int
    }
}

/// The sections of `b` at or after position `i`, in increasing order of start
/// offset: each is a `(start, end)` byte range of a maximal valid UTF-8 run.
pub open spec fn sections_from(b: Seq<u8>, i: int) -> Seq<(int, int)>
    decreases b.len() - i
        when 0 <= i
{
    if i >= b.len() {
        Seq::empty()
    } else if scalar_len_at(b, i) == 0 {
        sections_from(b, i + 1)
    } else {
        let e = if run_end(b, i) > i { run_end(b, i) } else { i + 1 };
        seq![(i, e)]
            + (if e >= b.len() { Seq::<(int, int)>::empty() } else { sections_from(b, e + 1) })
    }
}

/// All sections of `b`: the canonical decomposition of the buffer into maximal
/// valid UTF-8 runs, in increasing offset order.
pub open spec fn sections_spec(b: Seq<u8>) -> Seq<(int, int)> {
    sections_from(b, 0)
}

/// Every section is a non-empty range within `b` starting at or after `i`,
/// ending exactly where its run of valid scalars ends, and consecutive
/// sections are separated by at least one byte.
pub open spec fn wf_section_seq(b: Seq<u8>, ss: Seq<(int, int)>, i: int) -> bool {
    &&& forall|k: int| 0 <= k < ss.len() ==> i <= (#[trigger] ss[k]).0 < ss[k].1 <= b.len()
    &&& forall|k: int| 0 <= k && k + 1 < ss.len() ==> (#[trigger] ss[k]).1 + 1 <= ss[k + 1].0
    &&& forall|k: int| 0 <= k < ss.len() ==> (#[trigger] ss[k]).1 == run_end(b, ss[k].0)
}

pub proof fn lemma_scalar_len_bound(b: Seq<u8>, i: int)
    ensures
        0 <= scalar_len_at(b, i) <= 4,
        scalar_len_at(b, i) != 0 ==> 0 <= i < b.len() && i + scalar_len_at(b, i) <= b.len(),
{
    if 0 <= i < b.len() && valid_first_scalar(suffix_from(b, i)) {
        let s = suffix_from(b, i);
        assert(s.len() == b.len() - i);
        if is_leading_byte_width_1(s[0]) {
            assert(length_of_first_codepoint(s) == 1);
        } else if is_leading_byte_width_2(s[0]) {
            assert(s.len() >= 2);
        } else if is_leading_byte_width_3(s[0]) {
            assert(s.len() >= 3);
        } else {
            assert(s.len() >= 4);
        }
    }
}

pub proof fn lemma_run_end_bounds(b: Seq<u8>, i: int)
    requires
        0 <= i <= b.len(),
    ensures
        i <= run_end(b, i) <= b.len(),
        scalar_len_at(b, i) != 0 ==> run_end(b, i) >= i + scalar_len_at(b, i),
        scalar_len_at(b, run_end(b, i)) == 0,
    decreases b.len() - i,
{
    lemma_scalar_len_bound(b, i);
    if scalar_len_at(b, i) != 0 {
        lemma_run_end_bounds(b, i + scalar_len_at(b, i));
    }
}

pub proof fn lemma_sections_from_wf(b: Seq<u8>, i: int)
    requires
        0 <= i,
    ensures
        wf_section_seq(b, sections_from(b, i), i),
    decreases b.len() - i,
{
    if i >= b.len() {
    } else if scalar_len_at(b, i) == 0 {
        lemma_sections_from_wf(b, i + 1);
        let ss = sections_from(b, i + 1);
        assert forall|k: int| 0 <= k < ss.len() implies i <= (#[trigger] ss[k]).0 < ss[k].1
            <= b.len() by {
            assert(i + 1 <= ss[k].0);
        }
    } else {
        lemma_scalar_len_bound(b, i);
        lemma_run_end_bounds(b, i);
        let e = run_end(b, i);
        assert(e > i);
        let ss = sections_from(b, i);
        if e < b.len() {
            lemma_sections_from_wf(b, e + 1);
            let rest = sections_from(b, e + 1);
            assert(ss == seq![(i, e)] + rest);
            assert forall|k: int| 0 <= k < ss.len() implies i <= (#[trigger] ss[k]).0 < ss[k].1
                <= b.len() by {
                if k > 0 {
                    assert(ss[k] == rest[k - 1]);
                }
            }
            assert forall|k: int| 0 <= k && k + 1 < ss.len() implies (#[trigger] ss[k]).1 + 1
                <= ss[k + 1].0 by {
                assert(ss[k + 1] == rest[k]);
                if k > 0 {
                    assert(ss[k] == rest[k - 1]);
                }
            }
        }
    }
}

/// A prefix of a byte sequence that is long enough to cover the first
/// well-formed scalar encoding still begins with that same encoding.
pub proof fn lemma_first_scalar_prefix(s: Seq<u8>, m: int)
    requires
        valid_first_scalar(s),
        length_of_first_scalar(s) <= m <= s.len(),
    ensures
        valid_first_scalar(s.subrange(0, m)),
        length_of_first_scalar(s.subrange(0, m)) == length_of_first_scalar(s),
        decode_first_codepoint(s.subrange(0, m)) == decode_first_codepoint(s),
{
    let t = s.subrange(0, m);
    assert(t.len() == m);
    assert(forall|k: int| 0 <= k < m ==> t[k] == s[k]);
}

/// The run of well-formed scalar encodings that starts at `i` is valid UTF-8.
pub proof fn lemma_run_valid(b: Seq<u8>, i: int)
    requires
        0 <= i <= b.len(),
    ensures
        valid_utf8(b.subrange(i, run_end(b, i))),
    decreases b.len() - i,
{
    lemma_scalar_len_bound(b, i);
    lemma_run_end_bounds(b, i);
    let re = run_end(b, i);
    if scalar_len_at(b, i) == 0 {
        assert(b.subrange(i, i).len() == 0);
    } else {
        let ell = scalar_len_at(b, i);
        lemma_run_valid(b, i + ell);
        let s = suffix_from(b, i);
        let t = b.subrange(i, re);
        assert(t == s.subrange(0, re - i));
        lemma_first_scalar_prefix(s, re - i);
        assert(valid_first_scalar(t));
        assert(length_of_first_scalar(t) == ell);
        assert(pop_first_scalar(t) == b.subrange(i + ell, re));
        assert(run_end(b, i + ell) == re);
    }
}

/// The suffix of `b` starting at `i` is entirely valid UTF-8 exactly when the
/// run of well-formed scalars starting at `i` reaches the end of the buffer.
pub proof fn lemma_valid_iff_run_end(b: Seq<u8>, i: int)
    requires
        0 <= i <= b.len(),
    ensures
        valid_utf8(suffix_from(b, i)) <==> run_end(b, i) == b.len(),
    decreases b.len() - i,
{
    lemma_scalar_len_bound(b, i);
    if run_end(b, i) == b.len() {
        lemma_run_valid(b, i);
    }
    if valid_utf8(suffix_from(b, i)) {
        let s = suffix_from(b, i);
        if i == b.len() {
            assert(s.len() == 0);
        } else {
            assert(s.len() > 0);
            assert(valid_first_scalar(s));
            let ell = scalar_len_at(b, i);
            assert(ell == length_of_first_scalar(s));
            assert(pop_first_scalar(s) == suffix_from(b, i + ell));
            lemma_valid_iff_run_end(b, i + ell);
        }
    }
}

/// A fully valid, non-empty buffer has exactly one section: the whole buffer.
pub proof fn lemma_sections_of_valid(b: Seq<u8>)
    requires
        valid_utf8(b),
        b.len() > 0,
    ensures
        sections_spec(b) == seq![(0int, b.len() as int)],
{
    assert(suffix_from(b, 0) == b);
    lemma_valid_iff_run_end(b, 0);
    assert(valid_first_scalar(suffix_from(b, 0)));
    assert(scalar_len_at(b, 0) != 0);
    assert(sections_spec(b) == seq![(0int, b.len() as int)] + Seq::<(int, int)>::empty());
    assert(sections_spec(b) =~= seq![(0int, b.len() as int)]);
}

/// A buffer where no position starts a well-formed scalar has no sections.
pub proof fn lemma_sections_all_invalid(b: Seq<u8>, i: int)
    requires
        0 <= i,
        forall|j: int| 0 <= j < b.len() ==> scalar_len_at(b, j) == 0,
    ensures
        sections_from(b, i) == Seq::<(int, int)>::empty(),
    decreases b.len() - i,
{
    if i < b.len() {
        lemma_sections_all_invalid(b, i + 1);
    }
}

/// View of an executable section list as the mathematical one.
pub open spec fn sec_view(v: Seq<(usize, usize)>) -> Seq<(int, int)> {
    v.map_values(|p: (usize, usize)| (p.0 as int, p.1 as int))
}

pub proof fn lemma_width1_codepoint(b0: u8)
    requires
        b0 < 0x80,
    ensures
        codepoint_width_1(b0) == b0 as u32,
{
    assert((b0 & 0x7F) == b0) by (bit_vector)
        requires
            b0 < 0x80,
    ;
}

pub proof fn lemma_width2_codepoint(b0: u8, b1: u8)
    requires
        0xC0 <= b0 <= 0xDF,
        0x80 <= b1 <= 0xBF,
    ensures
        0xC2 <= b0 ==> 0x80 <= codepoint_width_2(b0, b1) <= 0x7FF,
        b0 <= 0xC1 ==> codepoint_width_2(b0, b1) < 0x80,
{
    let cp = ((((b0 & 0x1F) as u32) << 6) | ((b1 & 0x3F) as u32));
    assert((0xC2 <= b0 ==> 0x80 <= cp <= 0x7FF) && (b0 <= 0xC1 ==> cp < 0x80)) by (bit_vector)
        requires
            0xC0 <= b0 <= 0xDF && 0x80 <= b1 <= 0xBF && cp == ((((b0 & 0x1F) as u32) << 6) | ((b1
                & 0x3F) as u32)),
    ;
}

pub proof fn lemma_width3_codepoint(b0: u8, b1: u8, b2: u8)
    requires
        0xE0 <= b0 <= 0xEF,
        0x80 <= b1 <= 0xBF,
        0x80 <= b2 <= 0xBF,
    ensures
        codepoint_width_3(b0, b1, b2) <= 0xFFFF,
        b0 == 0xE0 && b1 < 0xA0 ==> codepoint_width_3(b0, b1, b2) < 0x800,
        b0 == 0xE0 && b1 >= 0xA0 ==> 0x800 <= codepoint_width_3(b0, b1, b2),
        b0 >= 0xE1 ==> 0x800 <= codepoint_width_3(b0, b1, b2),
        (0xD800 <= codepoint_width_3(b0, b1, b2) <= 0xDFFF) <==> (b0 == 0xED && b1 >= 0xA0),
{
    let cp = ((((b0 & 0x0F) as u32) << 12) | (((b1 & 0x3F) as u32) << 6) | ((b2 & 0x3F) as u32));
    assert((cp <= 0xFFFF) && (b0 == 0xE0 && b1 < 0xA0 ==> cp < 0x800) && (b0 == 0xE0 && b1 >= 0xA0
        ==> 0x800 <= cp) && (b0 >= 0xE1 ==> 0x800 <= cp) && ((0xD800 <= cp <= 0xDFFF) <==> (b0
        == 0xED && b1 >= 0xA0))) by (bit_vector)
        requires
            0xE0 <= b0 <= 0xEF && 0x80 <= b1 <= 0xBF && 0x80 <= b2 <= 0xBF && cp == ((((b0
                & 0x0F) as u32) << 12) | (((b1 & 0x3F) as u32) << 6) | ((b2 & 0x3F) as u32)),
    ;
}

proof fn lemma_width4_codepoint(b0: u8, b1: u8, b2: u8, b3: u8)
    requires
        0xF0 <= b0 <= 0xF7,
        0x80 <= b1 <= 0xBF,
        0x80 <= b2 <= 0xBF,
        0x80 <= b3 <= 0xBF,
    ensures
        b0 == 0xF0 && b1 < 0x90 ==> codepoint_width_4(b0, b1, b2, b3) < 0x10000,
        (b0 == 0xF0 && b1 >= 0x90) || (0xF1 <= b0 <= 0xF3) || (b0 == 0xF4 && b1 <= 0x8F)
            ==> 0x10000 <= codepoint_width_4(b0, b1, b2, b3) <= 0x10FFFF,
        (b0 == 0xF4 && b1 >= 0x90) || b0 >= 0xF5 ==> codepoint_width_4(b0, b1, b2, b3) > 0x10FFFF,
{
    let cp = ((((b0 & 0x07) as u32) << 18) | (((b1 & 0x3F) as u32) << 12) | (((b2
        & 0x3F) as u32) << 6) | ((b3 & 0x3F) as u32));
    assert((b0 == 0xF0 && b1 < 0x90 ==> cp < 0x10000) && ((b0 == 0xF0 && b1 >= 0x90) || (0xF1 <= b0
        <= 0xF3) || (b0 == 0xF4 && b1 <= 0x8F) ==> 0x10000 <= cp <= 0x10FFFF) && ((b0 == 0xF4 && b1
        >= 0x90) || b0 >= 0xF5 ==> cp > 0x10FFFF)) by (bit_vector)
        requires
            0xF0 <= b0 <= 0xF7 && 0x80 <= b1 <= 0xBF && 0x80 <= b2 <= 0xBF && 0x80 <= b3 <= 0xBF
                && cp == ((((b0 & 0x07) as u32) << 18) | (((b1 & 0x3F) as u32) << 12) | (((b2
                & 0x3F) as u32) << 6) | ((b3 & 0x3F) as u32)),
    ;
}

/// Decides, in executable code, whether a well-formed UTF-8 scalar encoding
/// starts at position `i` of `buf`, returning its length (1 to 4) or 0.
pub fn char_len_at(buf: &[u8], i: usize) -> (l: usize)
    requires
        i <= buf@.len(),
    ensures
        l as int == scalar_len_at(buf@, i as int),
{
    let n = buf.len();
    proof {
        lemma_scalar_len_bound(buf@, i as int);
    }
    if i >= n {
        return 0;
    }
    let ghost s = suffix_from(buf@, i as int);
    proof {
        assert(s.len() == n - i);
        assert forall|k: int| 0 <= k < s.len() implies s[k] == buf@[i + k] by {}
    }
    let b0 = buf[i];
    if b0 < 0x80 {
        proof {
            lemma_width1_codepoint(b0);
        }
        1
    } else if b0 < 0xC2 {
        proof {
            if 0xC0 <= b0 && i + 2 <= n && 0x80 <= buf@[i + 1] <= 0xBF {
                lemma_width2_codepoint(b0, buf[i as int + 1]);
            }
        }
        0
    } else if b0 < 0xE0 {
        if n - i >= 2 && 0x80 <= buf[i + 1] && buf[i + 1] <= 0xBF {
            proof {
                lemma_width2_codepoint(b0, buf[i as int + 1]);
            }
            2
        } else {
            0
        }
    } else if b0 < 0xF0 {
        if n - i >= 3 && 0x80 <= buf[i + 1] && buf[i + 1] <= 0xBF && 0x80 <= buf[i + 2] && buf[i
            + 2] <= 0xBF {
            proof {
                lemma_width3_codepoint(b0, buf[i as int + 1], buf[i as int + 2]);
            }
            let b1 = buf[i + 1];
            if (b0 == 0xE0 && b1 < 0xA0) || (b0 == 0xED && b1 >= 0xA0) {
                0
            } else {
                3
            }
        } else {
            0
        }
    } else if b0 < 0xF8 {
        if n - i >= 4 && 0x80 <= buf[i + 1] && buf[i + 1] <= 0xBF && 0x80 <= buf[i + 2] && buf[i
            + 2] <= 0xBF && 0x80 <= buf[i + 3] && buf[i + 3] <= 0xBF {
            proof {
                lemma_width4_codepoint(b0, buf[i as int + 1], buf[i as int + 2], buf[i as int + 3]);
            }
            let b1 = buf[i + 1];
            if (b0 == 0xF0 && b1 < 0x90) || (b0 == 0xF4 && b1 >= 0x90) || b0 >= 0xF5 {
                0
            } else {
                4
            }
        } else {
            0
        }
    } else {
        0
    }
}

/// Scans forward from `start`, consuming well-formed scalar encodings, and
/// returns the position where the run of valid text ends.
pub fn scan_run(buf: &[u8], start: usize) -> (e: usize)
    requires
        start <= buf@.len(),
    ensures
        e as int == run_end(buf@, start as int),
        start <= e <= buf@.len(),
{
    let n = buf.len();
    let mut j = start;
    let mut l = char_len_at(buf, j);
    proof {
        lemma_scalar_len_bound(buf@, j as int);
    }
    while l != 0
        invariant
            n == buf@.len(),
            start <= j <= n,
            l as int == scalar_len_at(buf@, j as int),
            l != 0 ==> j + l <= buf@.len(),
            run_end(buf@, j as int) == run_end(buf@, start as int),
        decreases buf@.len() - j,
    {
        j = j + l;
        l = char_len_at(buf, j);
        proof {
            lemma_scalar_len_bound(buf@, j as int);
        }
    }
    proof {
        lemma_run_end_bounds(buf@, start as int);
    }
    j
}

/// Computes the canonical decomposition of `buf` into maximal valid UTF-8
/// runs, as `(start, end)` byte ranges in increasing offset order.
pub fn section_list(buf: &[u8]) -> (v: Vec<(usize, usize)>)
    ensures
        sec_view(v@) == sections_spec(buf@),
{
    let n = buf.len();
    let mut v: Vec<(usize, usize)> = Vec::new();
    let mut i: usize = 0;
    proof {
        assert(sec_view(v@) =~= Seq::<(int, int)>::empty());
    }
    while i < n
        invariant
            0 <= i <= n,
            n == buf@.len(),
            sec_view(v@) + sections_from(buf@, i as int) == sections_spec(buf@),
        decreases n - i,
    {
        let l = char_len_at(buf, i);
        if l == 0 {
            i = i + 1;
        } else {
            proof {
                lemma_scalar_len_bound(buf@, i as int);
                lemma_run_end_bounds(buf@, i as int);
            }
            let e = scan_run(buf, i);
            let ghost prev = sec_view(v@);
            v.push((i, e));
            proof {
                assert(sec_view(v@) =~= prev + seq![(i as int, e as int)]);
                assert(e > i);
            }
            if e >= n {
                proof {
                    assert(sections_from(buf@, i as int) =~= seq![(i as int, e as int)]);
                    assert(sec_view(v@) + Seq::<(int, int)>::empty() =~= sections_spec(buf@));
                }
                return v;
            }
            proof {
                assert(sections_from(buf@, i as int) =~= seq![(i as int, e as int)]
                    + sections_from(buf@, e + 1));
                assert(sec_view(v@) + sections_from(buf@, e + 1) =~= sections_spec(buf@));
            }
            i = e + 1;
        }
    }
    proof {
        assert(sec_view(v@) + Seq::<(int, int)>::empty() =~= sections_spec(buf@));
        assert(sec_view(v@) =~= sections_spec(buf@));
    }
    v
}

/// Relies on `str::from_utf8` from std: a byte slice that satisfies
/// `valid_utf8` is accepted, and the returned text is exactly the text those
/// bytes encode.
#[verifier::external_body]
pub fn valid_bytes_to_string(v: &[u8]) -> (r: String)
    requires
        valid_utf8(v@),
    ensures
        encode_utf8(r@) == v@,
{
    match core::str::from_utf8(v) {
        Ok(s) => s.to_owned(),
        Err(_) => String::new(),
    }
}

/// The maximal runs of valid UTF-8 text of one byte buffer, traversable from
/// both ends at once without double-yielding: a range once taken from either
/// end is never yielded again.
pub struct Utf8Sections<'a> {
    buf: &'a [u8],
    list: Vec<(usize, usize)>,
    lo: usize,
    hi: usize,
}

impl<'a> Utf8Sections<'a> {
    /// The bytes of the underlying buffer.
    pub closed spec fn buf_view(&self) -> Seq<u8> {
        self.buf@
    }

    /// The whole section decomposition of the underlying buffer.
    pub closed spec fn all(&self) -> Seq<(int, int)> {
        sections_spec(self.buf@)
    }

    /// The sections not yet yielded from either end.
    pub closed spec fn pending(&self) -> Seq<(int, int)> {
        sec_view(self.list@).subrange(self.lo as int, self.hi as int)
    }

    pub closed spec fn wf(&self) -> bool {
        &&& sec_view(self.list@) == sections_spec(self.buf@)
        &&& self.lo <= self.hi <= self.list@.len()
    }

    pub fn new(buf: &'a [u8]) -> (r: Self)
        ensures
            r.wf(),
            r.buf_view() == buf@,
            r.pending() == sections_spec(buf@),
    {
        let list = section_list(buf);
        let n = list.len();
        let r = Utf8Sections { buf, list, lo: 0, hi: n };
        proof {
            assert(r.pending() =~= sections_spec(buf@));
        }
        r
    }

    /// Yields the first pending section, as its absolute start offset and its
    /// text, or `None` once the two ends have met.
    pub fn next(&mut self) -> (r: Option<(usize, String)>)
        requires
            old(self).wf(),
        ensures
            final(self).wf(),
            final(self).buf_view() == old(self).buf_view(),
            final(self).all() == old(self).all(),
            old(self).pending().len() == 0 ==> r is None && final(self).pending() == old(self).pending(),
            old(self).pending().len() > 0 ==> {
                &&& final(self).pending() == old(self).pending().drop_first()
                &&& r is Some
                &&& r->Some_0.0 as int == old(self).pending()[0].0
                &&& encode_utf8(r->Some_0.1@) == final(self).buf_view().subrange(
                    old(self).pending()[0].0,
                    old(self).pending()[0].1,
                )
            },
    {
        if self.lo >= self.hi {
            return None;
        }
        let (s, e) = self.list[self.lo];
        proof {
            lemma_sections_from_wf(self.buf@, 0);
            assert(sec_view(self.list@)[self.lo as int] == (s as int, e as int));
            assert(old(self).pending()[0] == (s as int, e as int));
            lemma_run_valid(self.buf@, s as int);
        }
        let text = valid_bytes_to_string(vstd::slice::slice_subrange(self.buf, s, e));
        self.lo = self.lo + 1;
        proof {
            assert(self.pending() =~= old(self).pending().drop_first());
        }
        Some((s, text))
    }

    /// Yields the last pending section, or `None` once the two ends have met.
    pub fn next_back(&mut self) -> (r: Option<(usize, String)>)
        requires
            old(self).wf(),
        ensures
            final(self).wf(),
            final(self).buf_view() == old(self).buf_view(),
            final(self).all() == old(self).all(),
            old(self).pending().len() == 0 ==> r is None && final(self).pending() == old(self).pending(),
            old(self).pending().len() > 0 ==> {
                &&& final(self).pending() == old(self).pending().drop_last()
                &&& r is Some
                &&& r->Some_0.0 as int == old(self).pending().last().0
                &&& encode_utf8(r->Some_0.1@) == final(self).buf_view().subrange(
                    old(self).pending().last().0,
                    old(self).pending().last().1,
                )
            },
    {
        if self.lo >= self.hi {
            return None;
        }
        let (s, e) = self.list[self.hi - 1];
        proof {
            lemma_sections_from_wf(self.buf@, 0);
            assert(sec_view(self.list@)[self.hi - 1] == (s as int, e as int));
            assert(old(self).pending().last() == (s as int, e as int));
            lemma_run_valid(self.buf@, s as int);
        }
        let text = valid_bytes_to_string(vstd::slice::slice_subrange(self.buf, s, e));
        self.hi = self.hi - 1;
        proof {
            assert(self.pending() =~= old(self).pending().drop_last());
        }
        Some((s, text))
    }
}

} // verus!
