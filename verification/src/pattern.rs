//! Textual patterns (a literal string or a single character, held as their
//! UTF-8 bytes) and the occurrence model: where a pattern matches inside a
//! window of a byte buffer, front-to-back and back-to-front.

use vstd::prelude::*;
use vstd::utf8::*;

verus! {

broadcast use vstd::seq_lib::group_seq_properties;

/// The pattern `p` occurs in `t` at position `i`.
pub open spec fn occ_at(t: Seq<u8>, p: Seq<u8>, i: int) -> bool {
    &&& 0 <= i
    &&& i + p.len() <= t.len()
    &&& t.subrange(i, i + p.len()) == p
}

/// The zero-width occurrences of a pattern with no bytes inside the window
/// `[from, hi]` of `t`: one at each character boundary, stepping scalar by
/// scalar from `from`, ascending, the window's end included — as ordinary
/// validated-text search finds the empty pattern at every boundary.
pub open spec fn empty_occs(t: Seq<u8>, from: int, hi: int) -> Seq<int>
    decreases hi - from,
{
    if from < 0 || from > hi || hi > t.len() {
        Seq::empty()
    } else if from == hi {
        seq![from]
    } else if crate::sections::scalar_len_at(t, from) == 0 || from + crate::sections::scalar_len_at(
        t,
        from,
    ) > hi {
        seq![from]
    } else {
        seq![from] + empty_occs(t, from + crate::sections::scalar_len_at(t, from), hi)
    }
}

/// The occurrences of `p` that lie entirely inside the window `[from, hi)` of
/// `t`, scanned front to back, each next scan resuming after the previous
/// occurrence (so occurrences never overlap), in ascending position order.
/// A pattern with no bytes occurs, zero-width, at every character boundary.
pub open spec fn occs_bounded(t: Seq<u8>, p: Seq<u8>, from: int, hi: int) -> Seq<int>
    decreases hi - from,
{
    if from < 0 || hi > t.len() {
        Seq::empty()
    } else if p.len() == 0 {
        empty_occs(t, from, hi)
    } else if from + p.len() > hi {
        Seq::empty()
    } else if occ_at(t, p, from) {
        seq![from] + occs_bounded(t, p, from + p.len(), hi)
    } else {
        occs_bounded(t, p, from + 1, hi)
    }
}

/// The occurrences of `p` inside the window `[lo, upto)` of `t`, scanned back
/// to front, each next scan resuming before the previous occurrence, in
/// descending position order. A pattern with no bytes yields the boundaries
/// in descending order, so both directions see the same set.
pub open spec fn roccs_bounded(t: Seq<u8>, p: Seq<u8>, lo: int, upto: int) -> Seq<int>
    decreases upto - lo,
{
    if lo < 0 || upto > t.len() {
        Seq::empty()
    } else if p.len() == 0 {
        empty_occs(t, lo, upto).reverse()
    } else if lo + p.len() > upto {
        Seq::empty()
    } else if occ_at(t, p, upto - p.len()) {
        seq![upto - p.len()] + roccs_bounded(t, p, lo, upto - p.len())
    } else {
        roccs_bounded(t, p, lo, upto - 1)
    }
}

/// Every boundary position the empty pattern occurs at lies inside the
/// window, and the positions strictly ascend.
pub proof fn lemma_empty_occs_sound(t: Seq<u8>, from: int, hi: int)
    ensures
        forall|k: int|
            0 <= k < empty_occs(t, from, hi).len() ==> from <= #[trigger] empty_occs(
                t,
                from,
                hi,
            )[k] <= hi,
        forall|k: int|
            0 <= k && k + 1 < empty_occs(t, from, hi).len() ==> #[trigger] empty_occs(
                t,
                from,
                hi,
            )[k] < empty_occs(t, from, hi)[k + 1],
        0 <= from <= hi <= t.len() ==> empty_occs(t, from, hi).len() > 0 && empty_occs(
            t,
            from,
            hi,
        )[0] == from,
    decreases hi - from,
{
    let os = empty_occs(t, from, hi);
    if from < 0 || from > hi || hi > t.len() {
    } else if from == hi {
    } else if crate::sections::scalar_len_at(t, from) == 0 || from + crate::sections::scalar_len_at(
        t,
        from,
    ) > hi {
    } else {
        let l = crate::sections::scalar_len_at(t, from);
        crate::sections::lemma_scalar_len_bound(t, from);
        lemma_empty_occs_sound(t, from + l, hi);
        let rest = empty_occs(t, from + l, hi);
        assert(os == seq![from] + rest);
        assert forall|k: int| 0 <= k < os.len() implies from <= #[trigger] os[k] <= hi by {
            if k > 0 {
                assert(os[k] == rest[k - 1]);
            }
        }
        assert forall|k: int| 0 <= k && k + 1 < os.len() implies #[trigger] os[k] < os[k + 1] by {
            assert(os[k + 1] == rest[k]);
            if k > 0 {
                assert(os[k] == rest[k - 1]);
            }
        }
    }
}

/// When the boundary scan from `from` reaches `q`, and the scalar at `q`
/// reaches exactly `hi`, the boundary list of the longer window is the
/// shorter window's list with `hi` appended.
pub proof fn lemma_empty_occs_snoc(t: Seq<u8>, from: int, q: int, hi: int)
    requires
        0 <= from <= q < hi <= t.len(),
        empty_occs(t, from, q).last() == q,
        crate::sections::scalar_len_at(t, q) > 0,
        q + crate::sections::scalar_len_at(t, q) == hi,
    ensures
        empty_occs(t, from, hi) == empty_occs(t, from, q) + seq![hi],
    decreases q - from,
{
    crate::sections::lemma_scalar_len_bound(t, from);
    if from == q {
        assert(empty_occs(t, from, q) =~= seq![q]);
        assert(empty_occs(t, hi, hi) =~= seq![hi]);
        assert(empty_occs(t, from, hi) =~= empty_occs(t, from, q) + seq![hi]);
    } else {
        let l = crate::sections::scalar_len_at(t, from);
        if l == 0 || from + l > q {
            assert(empty_occs(t, from, q) =~= seq![from]);
            assert(false);
        } else {
            assert(empty_occs(t, from, q) == seq![from] + empty_occs(t, from + l, q));
            lemma_empty_occs_sound(t, from + l, q);
            assert(empty_occs(t, from + l, q).len() > 0);
            assert(empty_occs(t, from + l, q).last() == q);
            lemma_empty_occs_snoc(t, from + l, q, hi);
            assert(empty_occs(t, from, hi) == seq![from] + empty_occs(t, from + l, hi));
            assert(empty_occs(t, from, hi) =~= empty_occs(t, from, q) + seq![hi]);
        }
    }
}

/// No non-trivial shift of `p` matches `p` itself, so two occurrences of `p`
/// can never overlap. Every single-character pattern has this shape.
pub open spec fn no_self_overlap(p: Seq<u8>) -> bool {
    &&& p.len() > 0
    &&& forall|d: int|
        1 <= d < p.len() ==> p.subrange(d, p.len() as int) != #[trigger] p.subrange(
            0,
            p.len() - d,
        )
}

/// Every position yielded by a front-to-back scan is an occurrence inside the
/// window, and successive positions are at least a pattern length apart.
pub proof fn lemma_occs_sound(t: Seq<u8>, p: Seq<u8>, from: int, hi: int)
    ensures
        forall|k: int|
            0 <= k < occs_bounded(t, p, from, hi).len() ==> {
                &&& occ_at(t, p, #[trigger] occs_bounded(t, p, from, hi)[k])
                &&& from <= occs_bounded(t, p, from, hi)[k]
                &&& occs_bounded(t, p, from, hi)[k] + p.len() <= hi
            },
        forall|k: int|
            0 <= k && k + 1 < occs_bounded(t, p, from, hi).len()
                ==> #[trigger] occs_bounded(t, p, from, hi)[k] + p.len() <= occs_bounded(
                t,
                p,
                from,
                hi,
            )[k + 1],
    decreases hi - from,
{
    let os = occs_bounded(t, p, from, hi);
    if from < 0 || hi > t.len() {
    } else if p.len() == 0 {
        lemma_empty_occs_sound(t, from, hi);
        assert forall|k: int| 0 <= k < os.len() implies {
            &&& occ_at(t, p, #[trigger] os[k])
            &&& from <= os[k]
            &&& os[k] + p.len() <= hi
        } by {
            assert(t.subrange(os[k], os[k]) =~= p);
        }
    } else if from + p.len() > hi {
    } else if occ_at(t, p, from) {
        lemma_occs_sound(t, p, from + p.len(), hi);
        let rest = occs_bounded(t, p, from + p.len(), hi);
        assert(os == seq![from] + rest);
        assert forall|k: int| 0 <= k < os.len() implies {
            &&& occ_at(t, p, #[trigger] os[k])
            &&& from <= os[k]
            &&& os[k] + p.len() <= hi
        } by {
            if k > 0 {
                assert(os[k] == rest[k - 1]);
            }
        }
        assert forall|k: int| 0 <= k && k + 1 < os.len() implies #[trigger] os[k] + p.len()
            <= os[k + 1] by {
            assert(os[k + 1] == rest[k]);
            if k > 0 {
                assert(os[k] == rest[k - 1]);
            }
        }
    } else {
        lemma_occs_sound(t, p, from + 1, hi);
        let os2 = occs_bounded(t, p, from + 1, hi);
        assert(os == os2);
        assert forall|k: int| 0 <= k < os.len() implies {
            &&& occ_at(t, p, #[trigger] os[k])
            &&& from <= os[k]
            &&& os[k] + p.len() <= hi
        } by {
            assert(os[k] == os2[k]);
        }
        assert forall|k: int| 0 <= k && k + 1 < os.len() implies #[trigger] os[k] + p.len()
            <= os[k + 1] by {
            assert(os[k] == os2[k]);
            assert(os[k + 1] == os2[k + 1]);
        }
    }
}

/// A front-to-back scan yields nothing exactly when the window holds no
/// occurrence at all.
pub proof fn lemma_occs_empty_iff(t: Seq<u8>, p: Seq<u8>, from: int, hi: int)
    requires
        p.len() > 0,
        0 <= from,
        hi <= t.len(),
    ensures
        occs_bounded(t, p, from, hi).len() == 0 <==> forall|i: int|
            from <= i && i + p.len() <= hi ==> !occ_at(t, p, i),
    decreases hi - from,
{
    if from + p.len() > hi {
    } else if occ_at(t, p, from) {
    } else {
        lemma_occs_empty_iff(t, p, from + 1, hi);
    }
}

/// A back-to-front scan yields nothing exactly when the window holds no
/// occurrence at all.
pub proof fn lemma_roccs_empty_iff(t: Seq<u8>, p: Seq<u8>, lo: int, upto: int)
    requires
        p.len() > 0,
        0 <= lo,
        upto <= t.len(),
    ensures
        roccs_bounded(t, p, lo, upto).len() == 0 <==> forall|i: int|
            lo <= i && i + p.len() <= upto ==> !occ_at(t, p, i),
    decreases upto - lo,
{
    if lo + p.len() > upto {
    } else if occ_at(t, p, upto - p.len()) {
    } else {
        lemma_roccs_empty_iff(t, p, lo, upto - 1);
    }
}

/// Shrinking the window's upper end below a position where the pattern does
/// not occur changes nothing about a front-to-back scan.
proof fn lemma_occs_shrink(t: Seq<u8>, p: Seq<u8>, from: int, hi: int)
    requires
        p.len() > 0,
        0 <= from,
        hi <= t.len(),
        !occ_at(t, p, hi - p.len()),
    ensures
        occs_bounded(t, p, from, hi) == occs_bounded(t, p, from, hi - 1),
    decreases hi - from,
{
    if from + p.len() > hi {
    } else if occ_at(t, p, from) {
        lemma_occs_shrink(t, p, from + p.len(), hi);
    } else {
        lemma_occs_shrink(t, p, from + 1, hi);
    }
}

/// Two distinct occurrences of a pattern without self-overlap are at least a
/// pattern length apart.
pub proof fn lemma_nso_occ_gap(t: Seq<u8>, p: Seq<u8>, i: int, j: int)
    requires
        no_self_overlap(p),
        occ_at(t, p, i),
        occ_at(t, p, j),
        i < j,
    ensures
        j >= i + p.len(),
{
    let ell = p.len() as int;
    if j < i + ell {
        let d = j - i;
        assert forall|k: int| 0 <= k < ell - d implies p.subrange(d, ell)[k] == p.subrange(
            0,
            ell - d,
        )[k] by {
            assert(p.subrange(d, ell)[k] == p[d + k]);
            assert(p[d + k] == t.subrange(i, i + ell)[d + k]);
            assert(t.subrange(i, i + ell)[d + k] == t[j + k]);
            assert(t[j + k] == t.subrange(j, j + ell)[k]);
            assert(t.subrange(j, j + ell)[k] == p[k]);
            assert(p.subrange(0, ell - d)[k] == p[k]);
        }
        assert(p.subrange(d, ell) =~= p.subrange(0, ell - d));
    }
}

/// If `j` is the last occurrence inside the window, a front-to-back scan is
/// the scan of the window cut at `j`, with `j` appended.
proof fn lemma_occs_snoc(t: Seq<u8>, p: Seq<u8>, from: int, hi: int, j: int)
    requires
        no_self_overlap(p),
        0 <= from <= j,
        hi <= t.len(),
        occ_at(t, p, j),
        j + p.len() <= hi,
        forall|i: int| j < i && i + p.len() <= hi ==> !occ_at(t, p, i),
    ensures
        occs_bounded(t, p, from, hi) == occs_bounded(t, p, from, j) + seq![j],
    decreases j - from,
{
    if from == j {
        lemma_occs_empty_iff(t, p, j + p.len(), hi);
        assert(occs_bounded(t, p, j + p.len(), hi) =~= Seq::<int>::empty());
        assert(occs_bounded(t, p, from, j).len() == 0);
        assert(occs_bounded(t, p, from, hi) =~= occs_bounded(t, p, from, j) + seq![j]);
    } else if occ_at(t, p, from) {
        lemma_nso_occ_gap(t, p, from, j);
        lemma_occs_snoc(t, p, from + p.len(), hi, j);
        assert(occs_bounded(t, p, from, hi) == seq![from] + occs_bounded(t, p, from + p.len(), hi));
        assert(occs_bounded(t, p, from, j) == seq![from] + occs_bounded(t, p, from + p.len(), j));
        assert(occs_bounded(t, p, from, hi) =~= occs_bounded(t, p, from, j) + seq![j]);
    } else {
        lemma_occs_snoc(t, p, from + 1, hi, j);
        assert(occs_bounded(t, p, from, hi) =~= occs_bounded(t, p, from, j) + seq![j]);
    }
}

/// Direction symmetry inside one window: when the pattern cannot overlap
/// itself, the back-to-front scan is exactly the front-to-back scan reversed.
pub proof fn lemma_occs_reverse(t: Seq<u8>, p: Seq<u8>, from: int, hi: int)
    requires
        no_self_overlap(p),
        0 <= from,
        hi <= t.len(),
    ensures
        roccs_bounded(t, p, from, hi) == occs_bounded(t, p, from, hi).reverse(),
    decreases hi - from,
{
    if from + p.len() > hi {
        assert(occs_bounded(t, p, from, hi).reverse() =~= Seq::<int>::empty());
    } else if occ_at(t, p, hi - p.len()) {
        let j = hi - p.len();
        lemma_occs_snoc(t, p, from, hi, j);
        lemma_occs_reverse(t, p, from, j);
        assert(roccs_bounded(t, p, from, hi) == seq![j] + roccs_bounded(t, p, from, j));
        assert(roccs_bounded(t, p, from, hi) =~= (occs_bounded(t, p, from, j)
            + seq![j]).reverse());
    } else {
        lemma_occs_shrink(t, p, from, hi);
        lemma_occs_reverse(t, p, from, hi - 1);
        assert(roccs_bounded(t, p, from, hi) == roccs_bounded(t, p, from, hi - 1));
    }
}

/// The UTF-8 encoding of one character never overlaps itself: its first byte
/// is a leading byte and every later byte is a continuation byte.
pub proof fn lemma_char_pattern_nso(v: u32)
    requires
        is_scalar(v),
    ensures
        no_self_overlap(encode_scalar(v)),
        !is_continuation_byte(encode_scalar(v)[0]),
{
    let p = encode_scalar(v);
    let ell = p.len() as int;
    assert(((v & 0x7F) as u8) < 0x80 && (0xC0u8 | (((v >> 6) & 0x1F) as u8)) >= 0xC0 && (0xE0u8 | (((v
        >> 12) & 0x0F) as u8)) >= 0xC0 && (0xF0u8 | (((v >> 18) & 0x7) as u8)) >= 0xC0 && 0x80
        <= (0x80u8 | ((v & 0x3F) as u8)) <= 0xBF && 0x80 <= (0x80u8 | (((v >> 6)
        & 0x3F) as u8)) <= 0xBF && 0x80 <= (0x80u8 | (((v >> 12) & 0x3F) as u8)) <= 0xBF)
        by (bit_vector);
    assert(!is_continuation_byte(p[0]));
    assert(forall|k: int| 1 <= k < ell ==> is_continuation_byte(#[trigger] p[k]));
    assert forall|d: int| 1 <= d < ell implies p.subrange(d, ell) != #[trigger] p.subrange(
        0,
        ell - d,
    ) by {
        assert(p.subrange(d, ell)[0] == p[d]);
        assert(p.subrange(0, ell - d)[0] == p[0]);
    }
}

/// A textual pattern, held as the UTF-8 bytes it matches: either a literal
/// string or a single character.
#[derive(Clone)]
pub struct Pattern {
    bytes: Vec<u8>,
}

impl View for Pattern {
    type V = Seq<u8>;

    closed spec fn view(&self) -> Seq<u8> {
        self.bytes@
    }
}

impl Pattern {
    /// A pattern that matches the given literal text.
    pub fn from_str(s: &str) -> (r: Pattern)
        ensures
            r@ == encode_utf8(s@),
    {
        let b = s.as_bytes();
        Pattern { bytes: vstd::slice::slice_to_vec(b) }
    }

    /// A pattern that matches the given single character.
    pub fn from_char(c: char) -> (r: Pattern)
        ensures
            r@ == encode_scalar(c as u32),
            no_self_overlap(r@),
            1 <= r@.len() <= 4,
    {
        let v = c as u32;
        proof {
            char_is_scalar(c);
            lemma_char_pattern_nso(v);
            assert((v & 0x7F) < 0x80 && ((v >> 6) & 0x1F) < 0x20 && ((v >> 12) & 0x0F) < 0x10 && ((
            v >> 18) & 0x7) < 8 && ((v >> 12) & 0x3F) < 0x40 && ((v >> 6) & 0x3F) < 0x40 && (v
                & 0x3F) < 0x40) by (bit_vector);
        }
        let mut bytes: Vec<u8> = Vec::new();
        if v < 0x80 {
            bytes.push((v & 0x7F) as u8);
        } else if v < 0x800 {
            bytes.push(0xC0u8 | (((v >> 6) & 0x1F) as u8));
            bytes.push(0x80u8 | ((v & 0x3F) as u8));
        } else if v < 0x10000 {
            bytes.push(0xE0u8 | (((v >> 12) & 0x0F) as u8));
            bytes.push(0x80u8 | (((v >> 6) & 0x3F) as u8));
            bytes.push(0x80u8 | ((v & 0x3F) as u8));
        } else {
            bytes.push(0xF0u8 | (((v >> 18) & 0x7) as u8));
            bytes.push(0x80u8 | (((v >> 12) & 0x3F) as u8));
            bytes.push(0x80u8 | (((v >> 6) & 0x3F) as u8));
            bytes.push(0x80u8 | ((v & 0x3F) as u8));
        }
        proof {
            assert(bytes@ =~= encode_scalar(v));
        }
        Pattern { bytes }
    }

    /// The pattern's bytes.
    pub fn as_bytes(&self) -> (r: &Vec<u8>)
        ensures
            r@ == self@,
    {
        &self.bytes
    }

    pub fn byte_len(&self) -> (r: usize)
        ensures
            r == self@.len(),
    {
        self.bytes.len()
    }
}

/// Whether `p` occurs in `buf` at position `i`, decided byte by byte.
pub fn match_at(buf: &[u8], p: &Vec<u8>, i: usize) -> (r: bool)
    requires
        i + p@.len() <= buf@.len(),
    ensures
        r == occ_at(buf@, p@, i as int),
{
    let n = buf.len();
    let ell = p.len();
    let mut k: usize = 0;
    while k < ell
        invariant
            0 <= k <= ell,
            ell == p@.len(),
            n == buf@.len(),
            i + ell <= n,
            forall|m: int| 0 <= m < k ==> buf@[i + m] == p@[m],
        decreases ell - k,
    {
        if buf[i + k] != p[k] {
            proof {
                assert(buf@.subrange(i as int, i + p@.len())[k as int] != p@[k as int]);
            }
            return false;
        }
        k = k + 1;
    }
    proof {
        assert(buf@.subrange(i as int, i + p@.len()) =~= p@);
    }
    true
}

/// Finds the first occurrence of `p` at or after `from` that ends at or
/// before `hi`, in executable code; the front-to-back scan model tells what
/// it returns and what remains.
pub fn find_in_window(buf: &[u8], p: &Vec<u8>, from: usize, hi: usize) -> (r: Option<usize>)
    requires
        from <= hi <= buf@.len(),
    ensures
        p@.len() == 0 ==> r is None,
        p@.len() > 0 ==> match r {
            Option::None => occs_bounded(buf@, p@, from as int, hi as int) == Seq::<int>::empty(),
            Option::Some(i) => {
                &&& from <= i
                &&& i + p@.len() <= hi
                &&& occ_at(buf@, p@, i as int)
                &&& occs_bounded(buf@, p@, from as int, hi as int) == seq![i as int]
                    + occs_bounded(buf@, p@, i + p@.len(), hi as int)
            },
        },
{
    let ell = p.len();
    if ell == 0 || ell > hi - from {
        return None;
    }
    let mut i = from;
    while hi - i >= ell
        invariant
            from <= i <= hi,
            hi <= buf@.len(),
            ell == p@.len(),
            ell >= 1,
            occs_bounded(buf@, p@, from as int, hi as int) == occs_bounded(
                buf@,
                p@,
                i as int,
                hi as int,
            ),
        decreases hi - i,
    {
        if match_at(buf, p, i) {
            return Some(i);
        }
        i = i + 1;
    }
    None
}

/// Finds the last occurrence of `p` that starts at or after `lo` and ends at
/// or before `upto`; the back-to-front scan model tells what it returns.
pub fn rfind_in_window(buf: &[u8], p: &Vec<u8>, lo: usize, upto: usize) -> (r: Option<usize>)
    requires
        lo <= upto <= buf@.len(),
    ensures
        p@.len() == 0 ==> r is None,
        p@.len() > 0 ==> match r {
            Option::None => roccs_bounded(buf@, p@, lo as int, upto as int) == Seq::<int>::empty(),
            Option::Some(i) => {
                &&& lo <= i
                &&& i + p@.len() <= upto
                &&& occ_at(buf@, p@, i as int)
                &&& roccs_bounded(buf@, p@, lo as int, upto as int) == seq![i as int]
                    + roccs_bounded(buf@, p@, lo as int, i as int)
            },
        },
{
    let ell = p.len();
    if ell == 0 || ell > upto - lo {
        return None;
    }
    let mut u = upto;
    while u - lo >= ell
        invariant
            lo <= u,
            u <= upto <= buf@.len(),
            ell == p@.len(),
            ell >= 1,
            roccs_bounded(buf@, p@, lo as int, upto as int) == roccs_bounded(
                buf@,
                p@,
                lo as int,
                u as int,
            ),
        decreases u,
    {
        if match_at(buf, p, u - ell) {
            return Some(u - ell);
        }
        u = u - 1;
    }
    None
}

} // verus!
