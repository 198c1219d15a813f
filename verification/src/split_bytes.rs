//! The bidirectional match driver and the split driver: a pattern's matches
//! are drawn from the valid UTF-8 sections of a byte buffer, front-to-back
//! and back-to-front, with the two directions converging on one final
//! section; split pieces are the byte ranges between consecutive matches.

use vstd::prelude::*;
use crate::pattern::{
    occ_at, occs_bounded, roccs_bounded, empty_occs, no_self_overlap, lemma_occs_sound,
    lemma_occs_empty_iff, lemma_roccs_empty_iff, lemma_occs_reverse, lemma_empty_occs_sound,
    lemma_empty_occs_snoc, Pattern, find_in_window, rfind_in_window,
};
use crate::sections::{
    sections_spec, sec_view, wf_section_seq, section_list, char_len_at, lemma_sections_from_wf,
};

verus! {

broadcast use vstd::seq_lib::group_seq_properties;

/// A list of disjoint, ascending windows of `t`: the not-yet-searched parts
/// of the buffer's sections.
pub open spec fn wf_windows(t: Seq<u8>, ws: Seq<(int, int)>) -> bool {
    &&& forall|k: int| 0 <= k < ws.len() ==> 0 <= (#[trigger] ws[k]).0 <= ws[k].1 <= t.len()
    &&& forall|k: int| 0 <= k && k + 1 < ws.len() ==> (#[trigger] ws[k]).1 <= ws[k + 1].0
}

/// All matches of `p` inside the windows `ws` of `t`, front to back, in
/// ascending position order.
pub open spec fn fwd_of_windows(t: Seq<u8>, p: Seq<u8>, ws: Seq<(int, int)>) -> Seq<int>
    decreases ws.len(),
{
    if ws.len() == 0 {
        Seq::empty()
    } else {
        occs_bounded(t, p, ws[0].0, ws[0].1) + fwd_of_windows(t, p, ws.drop_first())
    }
}

/// All matches of `p` inside the windows `ws` of `t`, back to front, in
/// descending position order.
pub open spec fn bwd_of_windows(t: Seq<u8>, p: Seq<u8>, ws: Seq<(int, int)>) -> Seq<int>
    decreases ws.len(),
{
    if ws.len() == 0 {
        Seq::empty()
    } else {
        roccs_bounded(t, p, ws.last().0, ws.last().1) + bwd_of_windows(t, p, ws.drop_last())
    }
}

/// The stream of matches of `p` in buffer `t`, front to back: the pattern is
/// searched independently inside each maximal valid UTF-8 section, and the
/// per-section matches are chained in ascending offset order.
pub open spec fn fwd_match_seq(t: Seq<u8>, p: Seq<u8>) -> Seq<int> {
    fwd_of_windows(t, p, sections_spec(t))
}

/// The stream of matches of `p` in buffer `t`, back to front.
pub open spec fn bwd_match_seq(t: Seq<u8>, p: Seq<u8>) -> Seq<int> {
    bwd_of_windows(t, p, sections_spec(t))
}

/// The first window of a well-formed list does not reach past the last one.
proof fn lemma_windows_span(t: Seq<u8>, ws: Seq<(int, int)>)
    requires
        wf_windows(t, ws),
        ws.len() > 0,
    ensures
        ws[0].0 <= ws.last().0,
        ws[0].1 <= ws.last().1,
    decreases ws.len(),
{
    if ws.len() > 1 {
        let rest = ws.drop_first();
        assert(forall|k: int| 0 <= k < rest.len() ==> #[trigger] rest[k] == ws[k + 1]);
        lemma_windows_span(t, rest);
        assert(rest[0] == ws[1]);
        assert(rest.last() == ws.last());
    }
}

/// Chaining per-window front scans yields positions that are occurrences,
/// lie within the window span, and ascend with gaps of a pattern length.
pub proof fn lemma_fwd_windows_sound(t: Seq<u8>, p: Seq<u8>, ws: Seq<(int, int)>)
    requires
        wf_windows(t, ws),
    ensures
        forall|k: int|
            0 <= k < fwd_of_windows(t, p, ws).len() ==> {
                &&& occ_at(t, p, #[trigger] fwd_of_windows(t, p, ws)[k])
                &&& ws.len() > 0
                &&& ws[0].0 <= fwd_of_windows(t, p, ws)[k]
                &&& fwd_of_windows(t, p, ws)[k] + p.len() <= ws.last().1
            },
        forall|k: int|
            0 <= k && k + 1 < fwd_of_windows(t, p, ws).len()
                ==> #[trigger] fwd_of_windows(t, p, ws)[k] + p.len() <= fwd_of_windows(t, p, ws)[k
                + 1],
    decreases ws.len(),
{
    let v = fwd_of_windows(t, p, ws);
    if ws.len() == 0 {
    } else {
        let head = occs_bounded(t, p, ws[0].0, ws[0].1);
        let rest = fwd_of_windows(t, p, ws.drop_first());
        lemma_occs_sound(t, p, ws[0].0, ws[0].1);
        lemma_fwd_windows_sound(t, p, ws.drop_first());
        assert(v == head + rest);
        assert forall|k: int| 0 <= k < v.len() implies {
            &&& occ_at(t, p, #[trigger] v[k])
            &&& ws.len() > 0
            &&& ws[0].0 <= v[k]
            &&& v[k] + p.len() <= ws.last().1
        } by {
            if k < head.len() {
                assert(v[k] == head[k]);
                lemma_windows_span(t, ws);
            } else {
                assert(v[k] == rest[k - head.len()]);
                assert(ws.drop_first()[0] == ws[1]);
                assert(ws.last() == ws.drop_first().last());
            }
        }
        assert forall|k: int| 0 <= k && k + 1 < v.len() implies #[trigger] v[k] + p.len() <= v[k
            + 1] by {
            if k + 1 < head.len() {
                assert(v[k] == head[k]);
                assert(v[k + 1] == head[k + 1]);
            } else if k + 1 == head.len() {
                assert(v[k] == head[k]);
                assert(v[k + 1] == rest[0]);
                assert(ws.drop_first()[0] == ws[1]);
                assert(ws[0].1 <= ws[1].0);
            } else {
                assert(v[k] == rest[k - head.len()]);
                assert(v[k + 1] == rest[k + 1 - head.len()]);
            }
        }
    }
}

/// A front-to-back chain over windows is empty exactly when a back-to-front
/// chain over the same windows is.
pub proof fn lemma_windows_empty_agree(t: Seq<u8>, p: Seq<u8>, ws: Seq<(int, int)>)
    requires
        wf_windows(t, ws),
    ensures
        fwd_of_windows(t, p, ws).len() == 0 <==> bwd_of_windows(t, p, ws).len() == 0,
    decreases ws.len(),
{
    if ws.len() == 0 {
    } else if p.len() == 0 {
        lemma_empty_occs_sound(t, ws[0].0, ws[0].1);
        lemma_empty_occs_sound(t, ws.last().0, ws.last().1);
        assert(occs_bounded(t, p, ws[0].0, ws[0].1).len() > 0);
        assert(roccs_bounded(t, p, ws.last().0, ws.last().1).len() > 0);
        assert(fwd_of_windows(t, p, ws).len() > 0);
        assert(bwd_of_windows(t, p, ws).len() > 0);
    } else {
        lemma_windows_empty_agree(t, p, ws.drop_first());
        lemma_occs_empty_iff(t, p, ws[0].0, ws[0].1);
        lemma_roccs_empty_iff(t, p, ws[0].0, ws[0].1);
        lemma_occs_empty_iff(t, p, ws.last().0, ws.last().1);
        lemma_roccs_empty_iff(t, p, ws.last().0, ws.last().1);
        if ws.len() == 1 {
            assert(ws[0] == ws.last());
        } else {
            lemma_bwd_unfold_first(t, p, ws);
            lemma_windows_empty_agree(t, p, ws.drop_last());
            lemma_fwd_unfold_last(t, p, ws);
            assert(ws.drop_first().drop_last() =~= ws.drop_last().drop_first());
            lemma_windows_empty_agree(t, p, ws.drop_first().drop_last());
            lemma_bwd_unfold_first(t, p, ws.drop_last());
        }
    }
}

/// A front chain can also be unfolded from its last window.
proof fn lemma_fwd_unfold_last(t: Seq<u8>, p: Seq<u8>, ws: Seq<(int, int)>)
    requires
        ws.len() > 0,
    ensures
        fwd_of_windows(t, p, ws) == fwd_of_windows(t, p, ws.drop_last()) + occs_bounded(
            t,
            p,
            ws.last().0,
            ws.last().1,
        ),
    decreases ws.len(),
{
    if ws.len() == 1 {
        assert(fwd_of_windows(t, p, ws.drop_first()) =~= Seq::<int>::empty());
        assert(fwd_of_windows(t, p, ws.drop_last()) =~= Seq::<int>::empty());
        assert(fwd_of_windows(t, p, ws) =~= fwd_of_windows(t, p, ws.drop_last()) + occs_bounded(
            t,
            p,
            ws.last().0,
            ws.last().1,
        ));
    } else {
        lemma_fwd_unfold_last(t, p, ws.drop_first());
        assert(ws.drop_first().drop_last() =~= ws.drop_last().drop_first());
        assert(ws.drop_first().last() == ws.last());
        assert(ws.drop_last()[0] == ws[0]);
        assert(fwd_of_windows(t, p, ws) == occs_bounded(t, p, ws[0].0, ws[0].1) + fwd_of_windows(
            t,
            p,
            ws.drop_first(),
        ));
        assert(fwd_of_windows(t, p, ws.drop_last()) == occs_bounded(t, p, ws[0].0, ws[0].1)
            + fwd_of_windows(t, p, ws.drop_last().drop_first()));
        assert(fwd_of_windows(t, p, ws) =~= fwd_of_windows(t, p, ws.drop_last()) + occs_bounded(
            t,
            p,
            ws.last().0,
            ws.last().1,
        ));
    }
}

/// A back chain can also be unfolded from its first window.
proof fn lemma_bwd_unfold_first(t: Seq<u8>, p: Seq<u8>, ws: Seq<(int, int)>)
    requires
        ws.len() > 0,
    ensures
        bwd_of_windows(t, p, ws) == bwd_of_windows(t, p, ws.drop_first()) + roccs_bounded(
            t,
            p,
            ws[0].0,
            ws[0].1,
        ),
    decreases ws.len(),
{
    if ws.len() == 1 {
        assert(bwd_of_windows(t, p, ws.drop_last()) =~= Seq::<int>::empty());
        assert(bwd_of_windows(t, p, ws.drop_first()) =~= Seq::<int>::empty());
        assert(ws[0] == ws.last());
        assert(bwd_of_windows(t, p, ws) =~= bwd_of_windows(t, p, ws.drop_first()) + roccs_bounded(
            t,
            p,
            ws[0].0,
            ws[0].1,
        ));
    } else {
        lemma_bwd_unfold_first(t, p, ws.drop_last());
        assert(ws.drop_last().drop_first() =~= ws.drop_first().drop_last());
        assert(ws.drop_last()[0] == ws[0]);
        assert(ws.drop_first().last() == ws.last());
        assert(bwd_of_windows(t, p, ws) == roccs_bounded(t, p, ws.last().0, ws.last().1)
            + bwd_of_windows(t, p, ws.drop_last()));
        assert(bwd_of_windows(t, p, ws.drop_first()) == roccs_bounded(t, p, ws.last().0,
            ws.last().1) + bwd_of_windows(t, p, ws.drop_first().drop_last()));
        assert(bwd_of_windows(t, p, ws) =~= bwd_of_windows(t, p, ws.drop_first()) + roccs_bounded(
            t,
            p,
            ws[0].0,
            ws[0].1,
        ));
    }
}

/// Direction symmetry over whole window lists: when the pattern cannot
/// overlap itself, the back-to-front chain is the front-to-back chain
/// reversed.
pub proof fn lemma_windows_reverse(t: Seq<u8>, p: Seq<u8>, ws: Seq<(int, int)>)
    requires
        no_self_overlap(p),
        wf_windows(t, ws),
    ensures
        bwd_of_windows(t, p, ws) == fwd_of_windows(t, p, ws).reverse(),
    decreases ws.len(),
{
    if ws.len() == 0 {
        assert(fwd_of_windows(t, p, ws).reverse() =~= Seq::<int>::empty());
    } else {
        lemma_windows_reverse(t, p, ws.drop_last());
        lemma_occs_reverse(t, p, ws.last().0, ws.last().1);
        lemma_fwd_unfold_last(t, p, ws);
        let a = fwd_of_windows(t, p, ws.drop_last());
        let b = occs_bounded(t, p, ws.last().0, ws.last().1);
        assert(fwd_of_windows(t, p, ws) == a + b);
        assert(bwd_of_windows(t, p, ws) == b.reverse() + a.reverse());
        assert forall|k: int| 0 <= k < (a + b).reverse().len() implies (a + b).reverse()[k] == (
        b.reverse() + a.reverse())[k] by {
            assert((a + b).reverse()[k] == (a + b)[a.len() + b.len() - 1 - k]);
        }
        assert((a + b).reverse() =~= b.reverse() + a.reverse());
    }
}

/// Direction symmetry of the whole match stream: for a pattern that cannot
/// overlap itself (any single-character pattern has that shape), the
/// back-to-front match stream of a buffer is the front-to-back stream
/// reversed.
pub proof fn lemma_match_seq_reverse(t: Seq<u8>, p: Seq<u8>)
    requires
        no_self_overlap(p),
    ensures
        bwd_match_seq(t, p) == fwd_match_seq(t, p).reverse(),
{
    lemma_sections_from_wf(t, 0);
    lemma_windows_reverse(t, p, sections_spec(t));
}

/// On a non-empty sequence, dropping the first element and reversing is the
/// same as reversing and dropping the last.
proof fn lemma_reverse_drop_first(x: Seq<int>)
    requires
        x.len() > 0,
    ensures
        x.drop_first().reverse() == x.reverse().drop_last(),
{
    assert forall|k: int| 0 <= k < x.len() - 1 implies x.drop_first().reverse()[k]
        == x.reverse().drop_last()[k] by {
        assert(x.drop_first().reverse()[k] == x.drop_first()[x.len() - 2 - k]);
    }
    assert(x.drop_first().reverse() =~= x.reverse().drop_last());
}

/// Walks the character boundaries of the window `[lo, upto]` from the front
/// and returns the last one, together with the boundary just before it (only
/// meaningful when the last boundary is not `lo` itself).
fn last_boundary(buf: &[u8], lo: usize, upto: usize) -> (r: (usize, usize))
    requires
        lo <= upto <= buf@.len(),
    ensures
        ({
            let full = empty_occs(buf@, lo as int, upto as int);
            &&& full.len() > 0
            &&& full.last() == r.0 as int
            &&& lo <= r.0 <= upto
            &&& (r.0 == lo ==> full.len() == 1)
            &&& (r.0 != lo ==> lo <= r.1 < r.0 && empty_occs(buf@, lo as int, r.1 as int)
                == full.drop_last())
        }),
{
    let ghost t = buf@;
    let ghost full = empty_occs(t, lo as int, upto as int);
    let mut cur = lo;
    let mut prev = lo;
    proof {
        lemma_empty_occs_sound(t, lo as int, lo as int);
        assert(empty_occs(t, lo as int, lo as int) =~= seq![lo as int]);
    }
    loop
        invariant
            lo <= cur <= upto <= buf@.len(),
            t == buf@,
            full == empty_occs(t, lo as int, upto as int),
            empty_occs(t, lo as int, cur as int).len() > 0,
            empty_occs(t, lo as int, cur as int).last() == cur as int,
            empty_occs(t, lo as int, cur as int).drop_last() + empty_occs(t, cur as int, upto as int)
                == full,
            cur > lo ==> lo <= prev < cur && empty_occs(t, lo as int, prev as int) + seq![
                cur as int,
            ] == empty_occs(t, lo as int, cur as int),
        decreases upto - cur,
    {
        let l = char_len_at(buf, cur);
        if cur < upto && l > 0 && upto - cur >= l {
            let nxt = cur + l;
            proof {
                lemma_empty_occs_snoc(t, lo as int, cur as int, nxt as int);
                assert(empty_occs(t, lo as int, nxt as int) == empty_occs(t, lo as int, cur as int)
                    + seq![nxt as int]);
                assert(empty_occs(t, lo as int, nxt as int).drop_last() =~= empty_occs(
                    t,
                    lo as int,
                    cur as int,
                ));
                assert(empty_occs(t, cur as int, upto as int) == seq![cur as int] + empty_occs(
                    t,
                    nxt as int,
                    upto as int,
                ));
                assert(empty_occs(t, lo as int, cur as int).drop_last() + seq![cur as int]
                    =~= empty_occs(t, lo as int, cur as int));
                assert(empty_occs(t, lo as int, nxt as int).drop_last() + empty_occs(
                    t,
                    nxt as int,
                    upto as int,
                ) =~= full);
            }
            prev = cur;
            cur = nxt;
        } else {
            proof {
                assert(empty_occs(t, cur as int, upto as int) =~= seq![cur as int]);
                assert(full =~= empty_occs(t, lo as int, cur as int).drop_last() + seq![
                    cur as int,
                ]);
                assert(full.last() == cur as int);
                assert(full.drop_last() =~= empty_occs(t, lo as int, cur as int).drop_last());
                if cur > lo {
                    assert(empty_occs(t, lo as int, cur as int).drop_last() =~= empty_occs(
                        t,
                        lo as int,
                        prev as int,
                    ));
                }
            }
            return (cur, prev);
        }
    }
}

/// The bidirectional match driver: both ends of the match stream of one
/// buffer and one pattern. A front cursor and a back cursor each walk the
/// buffer's sections; when they reach the same section they share it, so no
/// match is yielded twice and none is skipped.
#[derive(Clone)]
pub struct MatchImpl<'a> {
    buf: &'a [u8],
    pat: Pattern,
    sects: Vec<(usize, usize)>,
    active: bool,
    cf: usize,
    fpos: usize,
    cb: usize,
    bpos: usize,
    spent: bool,
}

impl<'a> MatchImpl<'a> {
    /// The bytes being searched.
    pub closed spec fn buf_view(&self) -> Seq<u8> {
        self.buf@
    }

    /// The pattern's bytes.
    pub closed spec fn pat_view(&self) -> Seq<u8> {
        self.pat@
    }

    /// The parts of the buffer's sections that neither cursor has consumed.
    pub closed spec fn windows(&self) -> Seq<(int, int)> {
        if !self.active {
            Seq::empty()
        } else if self.cf == self.cb {
            if self.spent {
                Seq::empty()
            } else {
                seq![(self.fpos as int, self.bpos as int)]
            }
        } else {
            seq![(self.fpos as int, sec_view(self.sects@)[self.cf as int].1)] + sec_view(
                self.sects@,
            ).subrange(self.cf as int + 1, self.cb as int) + seq![
                (sec_view(self.sects@)[self.cb as int].0, self.bpos as int),
            ]
        }
    }

    /// The matches the front end has yet to yield, in ascending order.
    pub closed spec fn fwd_view(&self) -> Seq<int> {
        fwd_of_windows(self.buf@, self.pat@, self.windows())
    }

    /// The matches the back end has yet to yield, in descending order.
    pub closed spec fn bwd_view(&self) -> Seq<int> {
        bwd_of_windows(self.buf@, self.pat@, self.windows())
    }

    /// The lowest position any remaining match can start at.
    pub closed spec fn span_low(&self) -> int {
        if self.windows().len() == 0 {
            0
        } else {
            self.windows()[0].0
        }
    }

    /// The highest position any remaining match can end at.
    pub closed spec fn span_high(&self) -> int {
        if self.windows().len() == 0 {
            0
        } else {
            self.windows().last().1
        }
    }

    pub closed spec fn wf(&self) -> bool {
        &&& sec_view(self.sects@) == sections_spec(self.buf@)
        &&& wf_section_seq(self.buf@, sec_view(self.sects@), 0)
        &&& (self.active ==> {
            &&& self.cf <= self.cb < self.sects@.len()
            &&& sec_view(self.sects@)[self.cf as int].0 <= self.fpos as int <= sec_view(
                self.sects@,
            )[self.cf as int].1
            &&& sec_view(self.sects@)[self.cb as int].0 <= self.bpos as int <= sec_view(
                self.sects@,
            )[self.cb as int].1
            &&& (self.cf == self.cb && !self.spent ==> self.fpos <= self.bpos)
        })
        &&& (self.spent ==> self.active && self.cf == self.cb)
        &&& (!self.active ==> self.sects@.len() == 0)
    }

    /// A well-formed driver's windows are disjoint ascending ranges of the
    /// buffer, and both remaining streams lie inside its span.
    pub proof fn lemma_state_sound(&self)
        requires
            self.wf(),
    ensures
            wf_windows(self.buf_view(), self.windows()),
            forall|k: int|
                0 <= k < self.fwd_view().len() ==> {
                    &&& occ_at(self.buf_view(), self.pat_view(), #[trigger] self.fwd_view()[k])
                    &&& self.span_low() <= self.fwd_view()[k]
                    &&& self.fwd_view()[k] + self.pat_view().len() <= self.span_high()
                },
            forall|k: int|
                0 <= k && k + 1 < self.fwd_view().len()
                    ==> #[trigger] self.fwd_view()[k] + self.pat_view().len() <= self.fwd_view()[k
                    + 1],
            forall|k: int|
                0 <= k < self.bwd_view().len() ==> {
                    &&& occ_at(self.buf_view(), self.pat_view(), #[trigger] self.bwd_view()[k])
                    &&& self.span_low() <= self.bwd_view()[k]
                    &&& self.bwd_view()[k] + self.pat_view().len() <= self.span_high()
                },
    {
        let t = self.buf@;
        let ss = sec_view(self.sects@);
        let ws = self.windows();
        if self.active {
            if self.cf != self.cb {
                let mid = ss.subrange(self.cf as int + 1, self.cb as int);
                assert forall|k: int| 0 <= k < ws.len() implies 0 <= (#[trigger] ws[k]).0
                    <= ws[k].1 <= t.len() by {
                    if 0 < k < ws.len() - 1 {
                        assert(ws[k] == mid[k - 1]);
                        assert(mid[k - 1] == ss[self.cf as int + k]);
                    }
                }
                assert forall|k: int| 0 <= k && k + 1 < ws.len() implies (#[trigger] ws[k]).1
                    <= ws[k + 1].0 by {
                    if 0 < k < ws.len() - 2 {
                        assert(ws[k] == mid[k - 1]);
                        assert(ws[k + 1] == mid[k]);
                        assert(mid[k - 1] == ss[self.cf as int + k]);
                        assert(mid[k] == ss[self.cf as int + k + 1]);
                    }
                    if k == 0 && ws.len() > 2 {
                        assert(ws[1] == mid[0]);
                        assert(mid[0] == ss[self.cf as int + 1]);
                    }
                    if k + 2 == ws.len() && k > 0 {
                        assert(ws[k] == mid[k - 1]);
                        assert(mid[k - 1] == ss[self.cf as int + k]);
                        assert(self.cf as int + k == self.cb as int - 1);
                    }
                }
            }
        }
        lemma_fwd_windows_sound(t, self.pat@, ws);
        lemma_windows_reverse_free_bounds(t, self.pat@, ws);
    }

    /// Builds the driver over a buffer and a pattern; both ends of the match
    /// stream are then available, and together they cover every match of the
    /// pattern inside the buffer's valid sections exactly once.
    #[verifier::rlimit(100)]
    pub fn new(buf: &'a [u8], pat: Pattern) -> (r: Self)
        ensures
            r.wf(),
            r.buf_view() == buf@,
            r.pat_view() == pat@,
            r.windows() == sections_spec(buf@),
            r.fwd_view() == fwd_match_seq(buf@, pat@),
            r.bwd_view() == bwd_match_seq(buf@, pat@),
    {
        let sects = section_list(buf);
        proof {
            lemma_sections_from_wf(buf@, 0);
        }
        let n = sects.len();
        if n == 0 {
            let r = MatchImpl {
                buf,
                pat,
                sects,
                active: false,
                cf: 0,
                fpos: 0,
                cb: 0,
                bpos: 0,
                spent: false,
            };
            proof {
                assert(r.windows() =~= sections_spec(buf@));
            }
            r
        } else {
            let fpos = sects[0].0;
            let cb = n - 1;
            let bpos = sects[cb].1;
            let r = MatchImpl { buf, pat, sects, active: true, cf: 0, fpos, cb, bpos, spent: false };
            proof {
                let ss = sections_spec(buf@);
                let ws = r.windows();
                if n == 1 {
                    assert(ss[0] == (ss[0].0, ss[0].1));
                    assert(ws =~= ss);
                } else {
                    assert(ws.len() == ss.len());
                    assert forall|k: int| 0 <= k < ss.len() implies ws[k] == ss[k] by {
                        if k == 0 {
                            assert(ss[0] == (ss[0].0, ss[0].1));
                        } else if k < n - 1 {
                            assert(ws[k] == ss.subrange(1, n - 1)[k - 1]);
                        } else {
                            assert(ss[k] == (ss[k].0, ss[k].1));
                        }
                    }
                    assert(ws =~= ss);
                }
            }
            r
        }
    }

    /// Yields the next match from the front: its absolute start offset.
    /// The front stream loses its head; when the pattern cannot overlap
    /// itself, the back stream loses its last element, which is that same
    /// match, so the two ends never yield one match twice.
    #[verifier::rlimit(100)]
    pub fn next(&mut self) -> (r: Option<usize>)
        requires
            old(self).wf(),
        ensures
            final(self).wf(),
            final(self).buf_view() == old(self).buf_view(),
            final(self).pat_view() == old(self).pat_view(),
            old(self).fwd_view().len() == 0 ==> r is None && final(self).fwd_view() == old(
                self,
            ).fwd_view() && final(self).bwd_view() == old(self).bwd_view(),
            old(self).fwd_view().len() > 0 ==> {
                &&& r is Some
                &&& r->Some_0 as int == old(self).fwd_view()[0]
                &&& final(self).fwd_view() == old(self).fwd_view().drop_first()
                &&& (final(self).windows().len() > 0 ==> old(self).fwd_view()[0] + old(
                    self,
                ).pat_view().len() <= final(self).span_low() && final(self).span_high() == old(
                    self,
                ).span_high())
                &&& (no_self_overlap(old(self).pat_view()) ==> final(self).bwd_view() == old(
                    self,
                ).bwd_view().drop_last())
            },
    {
        if !self.active {
            return None;
        }
        let ell = self.pat.byte_len();
        loop
            invariant
                self.wf(),
                self.active,
                ell == self.pat_view().len(),
                self.buf_view() == old(self).buf_view(),
                self.pat_view() == old(self).pat_view(),
                self.fwd_view() == old(self).fwd_view(),
                self.bwd_view() == old(self).bwd_view(),
                self.windows().len() > 0 ==> self.span_high() == old(self).span_high(),
            decreases self.cb - self.cf,
        {
            proof {
                self.lemma_state_sound();
            }
            if self.cf == self.cb {
                if self.spent {
                    return None;
                }
                if ell == 0 {
                    let q = self.fpos;
                    let ghost pre = *self;
                    proof {
                        assert(pre.windows() =~= seq![(q as int, pre.bpos as int)]);
                        assert(pre.windows().drop_first() =~= Seq::<(int, int)>::empty());
                        assert(fwd_of_windows(pre.buf@, pre.pat@, Seq::<(int, int)>::empty())
                            =~= Seq::<int>::empty());
                        lemma_empty_occs_sound(pre.buf@, q as int, pre.bpos as int);
                        assert(pre.fwd_view() =~= empty_occs(pre.buf@, q as int, pre.bpos as int));
                        assert(pre.fwd_view()[0] == q as int);
                    }
                    let l = char_len_at(self.buf, q);
                    if q < self.bpos && l > 0 && self.bpos - q >= l {
                        self.fpos = q + l;
                        proof {
                            assert(self.windows() =~= seq![(q + l, pre.bpos as int)]);
                            assert(self.windows().drop_first() =~= Seq::<(int, int)>::empty());
                            assert(fwd_of_windows(self.buf@, self.pat@, Seq::<(int, int)>::empty())
                                =~= Seq::<int>::empty());
                            assert(self.fwd_view() =~= empty_occs(
                                self.buf@,
                                q + l,
                                pre.bpos as int,
                            ));
                            assert(empty_occs(pre.buf@, q as int, pre.bpos as int) == seq![
                                q as int,
                            ] + empty_occs(pre.buf@, q + l, pre.bpos as int));
                            assert(self.fwd_view() =~= pre.fwd_view().drop_first());
                        }
                        return Some(q);
                    } else {
                        self.spent = true;
                        proof {
                            assert(empty_occs(pre.buf@, q as int, pre.bpos as int) =~= seq![
                                q as int,
                            ]);
                            assert(self.windows() =~= Seq::<(int, int)>::empty());
                            assert(self.fwd_view() =~= pre.fwd_view().drop_first());
                        }
                        return Some(q);
                    }
                }
                let found = find_in_window(self.buf, self.pat.as_bytes(), self.fpos, self.bpos);
                match found {
                    Option::Some(i) => {
                        let ghost pre = *self;
                        proof {
                            assert(pre.windows() =~= seq![(pre.fpos as int, pre.bpos as int)]);
                            assert(pre.windows().drop_first() =~= Seq::<(int, int)>::empty());
                            assert(fwd_of_windows(pre.buf@, pre.pat@, Seq::<(int, int)>::empty())
                                =~= Seq::<int>::empty());
                            assert(bwd_of_windows(pre.buf@, pre.pat@, Seq::<(int, int)>::empty())
                                =~= Seq::<int>::empty());
                            assert(pre.fwd_view() =~= occs_bounded(
                                pre.buf@,
                                pre.pat@,
                                pre.fpos as int,
                                pre.bpos as int,
                            ));
                        }
                        self.fpos = i + ell;
                        proof {
                            assert(self.windows() =~= seq![(i + ell, pre.bpos as int)]);
                            assert(self.windows().drop_first() =~= Seq::<(int, int)>::empty());
                            assert(fwd_of_windows(self.buf@, self.pat@, Seq::<(int, int)>::empty())
                                =~= Seq::<int>::empty());
                            assert(bwd_of_windows(self.buf@, self.pat@, Seq::<(int, int)>::empty())
                                =~= Seq::<int>::empty());
                            assert(self.fwd_view() =~= occs_bounded(
                                self.buf@,
                                self.pat@,
                                i + ell,
                                pre.bpos as int,
                            ));
                            assert(self.fwd_view() =~= pre.fwd_view().drop_first());
                            if no_self_overlap(self.pat@) {
                                pre.lemma_state_sound();
                                self.lemma_state_sound();
                                lemma_windows_reverse(self.buf@, self.pat@, pre.windows());
                                lemma_windows_reverse(self.buf@, self.pat@, self.windows());
                                lemma_reverse_drop_first(pre.fwd_view());
                            }
                        }
                        return Some(i);
                    },
                    Option::None => {
                        proof {
                            assert(self.windows() =~= seq![(self.fpos as int, self.bpos as int)]);
                            assert(self.windows().drop_first() =~= Seq::<(int, int)>::empty());
                            assert(fwd_of_windows(self.buf@, self.pat@, Seq::<(int, int)>::empty())
                                =~= Seq::<int>::empty());
                            assert(bwd_of_windows(self.buf@, self.pat@, Seq::<(int, int)>::empty())
                                =~= Seq::<int>::empty());
                            assert(self.fwd_view() =~= occs_bounded(
                                self.buf@,
                                self.pat@,
                                self.fpos as int,
                                self.bpos as int,
                            ));
                            assert(self.fwd_view().len() == 0);
                            if self.pat@.len() > 0 {
                                lemma_occs_empty_iff(
                                    self.buf@,
                                    self.pat@,
                                    self.fpos as int,
                                    self.bpos as int,
                                );
                                lemma_roccs_empty_iff(
                                    self.buf@,
                                    self.pat@,
                                    self.fpos as int,
                                    self.bpos as int,
                                );
                            }
                            assert(self.windows().drop_last() =~= Seq::<(int, int)>::empty());
                            assert(self.windows().last() == self.windows()[0]);
                            assert(self.bwd_view() =~= roccs_bounded(
                                self.buf@,
                                self.pat@,
                                self.fpos as int,
                                self.bpos as int,
                            ));
                            assert(self.bwd_view().len() == 0);
                        }
                        return None;
                    },
                }
            } else {
                let e = self.sects[self.cf].1;
                proof {
                    assert(sec_view(self.sects@)[self.cf as int].1 == e as int);
                    assert(self.windows()[0] == (self.fpos as int, e as int));
                }
                if ell == 0 {
                    let q = self.fpos;
                    let ghost pre = *self;
                    proof {
                        lemma_empty_occs_sound(pre.buf@, q as int, e as int);
                        assert(pre.fwd_view() == empty_occs(pre.buf@, q as int, e as int)
                            + fwd_of_windows(pre.buf@, pre.pat@, pre.windows().drop_first()));
                        assert(pre.fwd_view()[0] == q as int);
                    }
                    let l = char_len_at(self.buf, q);
                    if q < e && l > 0 && e - q >= l {
                        self.fpos = q + l;
                        proof {
                            assert(self.windows().len() == pre.windows().len());
                            assert forall|k: int| 1 <= k < self.windows().len() implies
                                self.windows()[k] == pre.windows()[k] by {}
                            assert(self.windows()[0] == (q + l, e as int));
                            assert(self.windows().drop_first() =~= pre.windows().drop_first());
                            assert(empty_occs(pre.buf@, q as int, e as int) == seq![q as int]
                                + empty_occs(pre.buf@, q + l, e as int));
                            assert(self.fwd_view() == empty_occs(self.buf@, q + l, e as int)
                                + fwd_of_windows(self.buf@, self.pat@, self.windows().drop_first()));
                            assert(self.fwd_view() =~= pre.fwd_view().drop_first());
                            assert(self.windows().last() == pre.windows().last());
                        }
                        return Some(q);
                    } else {
                        self.cf = self.cf + 1;
                        let newpos = self.sects[self.cf].0;
                        self.fpos = newpos;
                        proof {
                            let t = self.buf@;
                            let p = self.pat@;
                            let ss = sec_view(self.sects@);
                            assert(empty_occs(t, q as int, e as int) =~= seq![q as int]);
                            assert(ss[self.cf as int] == (
                                self.sects@[self.cf as int].0 as int,
                                self.sects@[self.cf as int].1 as int,
                            ));
                            if self.cf == self.cb {
                                assert(pre.windows() =~= seq![(q as int, e as int)] + seq![
                                    (ss[self.cb as int].0, self.bpos as int),
                                ]);
                                assert(self.windows() =~= pre.windows().drop_first());
                            } else {
                                assert(self.windows().len() == pre.windows().len() - 1);
                                assert forall|k: int| 0 <= k < self.windows().len() implies
                                    self.windows()[k] == pre.windows()[k + 1] by {
                                    if k == 0 {
                                        assert(pre.windows()[1] == ss.subrange(
                                            pre.cf as int + 1,
                                            pre.cb as int,
                                        )[0]);
                                        assert(ss[self.cf as int] == (
                                            ss[self.cf as int].0,
                                            ss[self.cf as int].1,
                                        ));
                                    } else if k < self.windows().len() - 1 {
                                        assert(self.windows()[k] == ss.subrange(
                                            self.cf as int + 1,
                                            self.cb as int,
                                        )[k - 1]);
                                        assert(pre.windows()[k + 1] == ss.subrange(
                                            pre.cf as int + 1,
                                            pre.cb as int,
                                        )[k]);
                                    }
                                }
                                assert(self.windows() =~= pre.windows().drop_first());
                            }
                            assert(fwd_of_windows(t, p, pre.windows()) == empty_occs(
                                t,
                                q as int,
                                e as int,
                            ) + fwd_of_windows(t, p, self.windows()));
                            assert(self.fwd_view() =~= pre.fwd_view().drop_first());
                            assert(self.windows().last() == pre.windows().last());
                            assert(ss[pre.cf as int].1 + 1 <= ss[pre.cf as int + 1].0);
                            assert(self.span_low() == ss[self.cf as int].0);
                            assert(q as int <= e as int);
                            assert(q as int <= self.span_low());
                        }
                        return Some(q);
                    }
                }
                let found = find_in_window(self.buf, self.pat.as_bytes(), self.fpos, e);
                match found {
                    Option::Some(i) => {
                        let ghost pre = *self;
                        self.fpos = i + ell;
                        proof {
                            assert(self.windows().len() == pre.windows().len());
                            assert forall|k: int| 1 <= k < self.windows().len() implies
                                self.windows()[k] == pre.windows()[k] by {}
                            assert(self.windows()[0] == (i + ell, e as int));
                            assert(self.windows().drop_first() =~= pre.windows().drop_first());
                            assert(pre.fwd_view() == occs_bounded(
                                pre.buf@,
                                pre.pat@,
                                pre.fpos as int,
                                e as int,
                            ) + fwd_of_windows(pre.buf@, pre.pat@, pre.windows().drop_first()));
                            assert(self.fwd_view() == occs_bounded(
                                self.buf@,
                                self.pat@,
                                i + ell,
                                e as int,
                            ) + fwd_of_windows(self.buf@, self.pat@, self.windows().drop_first()));
                            assert(self.fwd_view() =~= pre.fwd_view().drop_first());
                            assert(self.windows().last() == pre.windows().last());
                            if no_self_overlap(self.pat@) {
                                pre.lemma_state_sound();
                                self.lemma_state_sound();
                                lemma_windows_reverse(self.buf@, self.pat@, pre.windows());
                                lemma_windows_reverse(self.buf@, self.pat@, self.windows());
                                lemma_reverse_drop_first(pre.fwd_view());
                            }
                        }
                        return Some(i);
                    },
                    Option::None => {
                        let ghost pre = *self;
                        self.cf = self.cf + 1;
                        let newpos = self.sects[self.cf].0;
                        self.fpos = newpos;
                        proof {
                            let t = self.buf@;
                            let p = self.pat@;
                            let ss = sec_view(self.sects@);
                            assert(ss[self.cf as int] == (
                                self.sects@[self.cf as int].0 as int,
                                self.sects@[self.cf as int].1 as int,
                            ));
                            if self.cf == self.cb {
                                assert(pre.windows() =~= seq![(pre.fpos as int, e as int)] + seq![
                                    (ss[self.cb as int].0, self.bpos as int),
                                ]);
                                assert(self.windows() =~= pre.windows().drop_first());
                            } else {
                                assert(self.windows().len() == pre.windows().len() - 1);
                                assert forall|k: int| 0 <= k < self.windows().len() implies
                                    self.windows()[k] == pre.windows()[k + 1] by {
                                    if k == 0 {
                                        assert(pre.windows()[1] == ss.subrange(
                                            pre.cf as int + 1,
                                            pre.cb as int,
                                        )[0]);
                                        assert(ss[self.cf as int] == (
                                            ss[self.cf as int].0,
                                            ss[self.cf as int].1,
                                        ));
                                    } else if k < self.windows().len() - 1 {
                                        assert(self.windows()[k] == ss.subrange(
                                            self.cf as int + 1,
                                            self.cb as int,
                                        )[k - 1]);
                                        assert(pre.windows()[k + 1] == ss.subrange(
                                            pre.cf as int + 1,
                                            pre.cb as int,
                                        )[k]);
                                    }
                                }
                                assert(self.windows() =~= pre.windows().drop_first());
                            }
                            assert(fwd_of_windows(t, p, pre.windows()) == occs_bounded(
                                t,
                                p,
                                pre.fpos as int,
                                e as int,
                            ) + fwd_of_windows(t, p, self.windows()));
                            assert(self.fwd_view() =~= pre.fwd_view());
                            lemma_bwd_unfold_first(t, p, pre.windows());
                            if p.len() > 0 {
                                lemma_occs_empty_iff(t, p, pre.fpos as int, e as int);
                                lemma_roccs_empty_iff(t, p, pre.fpos as int, e as int);
                            }
                            assert(roccs_bounded(t, p, pre.fpos as int, e as int).len() == 0);
                            assert(self.bwd_view() =~= pre.bwd_view());
                            assert(self.windows().last() == pre.windows().last());
                        }
                    },
                }
            }
        }
    }

    /// The pattern's length in bytes.
    pub fn pat_len(&self) -> (r: usize)
        ensures
            r == self.pat_view().len(),
    {
        self.pat.byte_len()
    }


    /// One backward step of the empty pattern on the converged window: yields
    /// the window's last character boundary and shrinks the window to end at
    /// the boundary before it, or marks the shared window spent.
    #[verifier::rlimit(100)]
    fn back_step_empty_converged(&mut self) -> (r: usize)
        requires
            old(self).wf(),
            old(self).active,
            old(self).cf == old(self).cb,
            !old(self).spent,
            old(self).pat_view().len() == 0,
        ensures
            final(self).wf(),
            final(self).buf_view() == old(self).buf_view(),
            final(self).pat_view() == old(self).pat_view(),
            old(self).bwd_view().len() > 0,
            r as int == old(self).bwd_view()[0],
            final(self).bwd_view() == old(self).bwd_view().drop_first(),
            final(self).windows().len() > 0 ==> final(self).span_high() <= old(self).bwd_view()[0]
                && final(self).span_low() == old(self).span_low(),
    {
            let ghost pre = *self;
            proof {
                assert(pre.windows() =~= seq![(pre.fpos as int, pre.bpos as int)]);
                assert(pre.windows().drop_last() =~= Seq::<(int, int)>::empty());
                assert(bwd_of_windows(pre.buf@, pre.pat@, Seq::<(int, int)>::empty())
                    =~= Seq::<int>::empty());
                assert(pre.windows().last() == pre.windows()[0]);
                lemma_empty_occs_sound(pre.buf@, pre.fpos as int, pre.bpos as int);
                assert(pre.bwd_view() =~= empty_occs(
                    pre.buf@,
                    pre.fpos as int,
                    pre.bpos as int,
                ).reverse());
            }
            let ghost full = empty_occs(pre.buf@, pre.fpos as int, pre.bpos as int);
            let (q, prevb) = last_boundary(self.buf, self.fpos, self.bpos);
            proof {
                assert(pre.bwd_view()[0] == full.last());
            }
            if q == self.fpos {
                self.spent = true;
                proof {
                    assert(full.len() == 1);
                    assert(self.windows() =~= Seq::<(int, int)>::empty());
                    assert(self.bwd_view() =~= pre.bwd_view().drop_first());
                }
                q
            } else {
                self.bpos = prevb;
                proof {
                    assert(self.windows() =~= seq![(pre.fpos as int, prevb as int)]);
                    assert(self.windows().drop_last() =~= Seq::<(int, int)>::empty());
                    assert(bwd_of_windows(self.buf@, self.pat@, Seq::<(int, int)>::empty())
                        =~= Seq::<int>::empty());
                    assert(self.windows().last() == self.windows()[0]);
                    assert(self.bwd_view() =~= empty_occs(
                        self.buf@,
                        pre.fpos as int,
                        prevb as int,
                    ).reverse());
                    assert(empty_occs(self.buf@, pre.fpos as int, prevb as int)
                        == full.drop_last());
                    lemma_reverse_drop_last(full);
                    assert(self.bwd_view() =~= pre.bwd_view().drop_first());
                }
                q
            }
    }

    /// One backward step of the empty pattern on a not-yet-converged back
    /// window starting at `s0`: yields the window's last character boundary;
    /// when that was the window's only boundary, the back cursor moves to the
    /// previous section.
    #[verifier::rlimit(100)]
    fn back_step_empty_outer(&mut self, s0: usize) -> (r: usize)
        requires
            old(self).wf(),
            old(self).active,
            old(self).cf < old(self).cb,
            old(self).pat_view().len() == 0,
            s0 as int == sec_view(old(self).sects@)[old(self).cb as int].0,
        ensures
            final(self).wf(),
            final(self).buf_view() == old(self).buf_view(),
            final(self).pat_view() == old(self).pat_view(),
            old(self).bwd_view().len() > 0,
            r as int == old(self).bwd_view()[0],
            final(self).bwd_view() == old(self).bwd_view().drop_first(),
            final(self).windows().len() > 0 ==> final(self).span_high() <= old(self).bwd_view()[0]
                && final(self).span_low() == old(self).span_low(),
    {
        proof {
            self.lemma_state_sound();
            assert(self.windows().last() == (s0 as int, self.bpos as int));
        }
            let ghost pre = *self;
            proof {
                lemma_empty_occs_sound(pre.buf@, s0 as int, pre.bpos as int);
                assert(pre.bwd_view() == empty_occs(
                    pre.buf@,
                    s0 as int,
                    pre.bpos as int,
                ).reverse() + bwd_of_windows(pre.buf@, pre.pat@, pre.windows().drop_last()));
            }
            let ghost full = empty_occs(pre.buf@, s0 as int, pre.bpos as int);
            let (q, prevb) = last_boundary(self.buf, s0, self.bpos);
            proof {
                assert(full.reverse()[0] == full.last());
                assert(pre.bwd_view()[0] == full.last());
            }
            if q == s0 {
                let ghost t = self.buf@;
                let ghost p = self.pat@;
                self.cb = self.cb - 1;
                let newpos = self.sects[self.cb].1;
                self.bpos = newpos;
                proof {
                    let ss = sec_view(self.sects@);
                    assert(full.len() == 1);
                    assert(full.reverse() =~= seq![q as int]);
                    assert(ss[self.cb as int] == (
                        self.sects@[self.cb as int].0 as int,
                        self.sects@[self.cb as int].1 as int,
                    ));
                    if self.cf == self.cb {
                        assert(pre.windows() =~= seq![(self.fpos as int, self.bpos as int)]
                            + seq![(s0 as int, pre.bpos as int)]);
                        assert(self.windows() =~= pre.windows().drop_last());
                    } else {
                        assert(self.windows().len() == pre.windows().len() - 1);
                        assert forall|k: int| 0 <= k < self.windows().len() implies
                            self.windows()[k] == pre.windows()[k] by {
                            if 0 < k < self.windows().len() - 1 {
                                assert(self.windows()[k] == ss.subrange(
                                    self.cf as int + 1,
                                    self.cb as int,
                                )[k - 1]);
                                assert(pre.windows()[k] == ss.subrange(
                                    pre.cf as int + 1,
                                    pre.cb as int,
                                )[k - 1]);
                            }
                            if k == self.windows().len() - 1 && k > 0 {
                                assert(pre.windows()[k] == ss.subrange(
                                    pre.cf as int + 1,
                                    pre.cb as int,
                                )[k - 1]);
                                assert(ss[self.cb as int] == (
                                    ss[self.cb as int].0,
                                    ss[self.cb as int].1,
                                ));
                            }
                        }
                        assert(self.windows() =~= pre.windows().drop_last());
                    }
                    assert(bwd_of_windows(t, p, pre.windows()) == full.reverse()
                        + bwd_of_windows(t, p, self.windows()));
                    assert(self.bwd_view() =~= pre.bwd_view().drop_first());
                    assert(self.windows()[0] == pre.windows()[0]);
                    assert(ss[self.cb as int].1 + 1 <= ss[self.cb as int + 1].0);
                }
                q
            } else {
                self.bpos = prevb;
                proof {
                    let t = self.buf@;
                    let p = self.pat@;
                    assert(self.windows().len() == pre.windows().len());
                    assert forall|k: int| 0 <= k < self.windows().len() - 1 implies
                        self.windows()[k] == pre.windows()[k] by {}
                    assert(self.windows().last() == (s0 as int, prevb as int));
                    assert(self.windows().drop_last() =~= pre.windows().drop_last());
                    assert(empty_occs(t, s0 as int, prevb as int) == full.drop_last());
                    assert(self.bwd_view() == empty_occs(t, s0 as int, prevb as int).reverse()
                        + bwd_of_windows(t, p, self.windows().drop_last()));
                    lemma_reverse_drop_last(full);
                    assert(self.bwd_view() =~= pre.bwd_view().drop_first());
                    assert(self.windows()[0] == pre.windows()[0]);
                }
                q
            }
    }

    /// Yields the next match from the back: its absolute start offset.
    /// The back stream loses its head; when the pattern cannot overlap
    /// itself, the front stream loses its last element, which is that same
    /// match.
    #[verifier::rlimit(100)]
    pub fn next_back(&mut self) -> (r: Option<usize>)
        requires
            old(self).wf(),
        ensures
            final(self).wf(),
            final(self).buf_view() == old(self).buf_view(),
            final(self).pat_view() == old(self).pat_view(),
            old(self).bwd_view().len() == 0 ==> r is None && final(self).fwd_view() == old(
                self,
            ).fwd_view() && final(self).bwd_view() == old(self).bwd_view(),
            old(self).bwd_view().len() > 0 ==> {
                &&& r is Some
                &&& r->Some_0 as int == old(self).bwd_view()[0]
                &&& final(self).bwd_view() == old(self).bwd_view().drop_first()
                &&& (final(self).windows().len() > 0 ==> final(self).span_high() <= old(
                    self,
                ).bwd_view()[0] && final(self).span_low() == old(self).span_low())
                &&& (no_self_overlap(old(self).pat_view()) ==> final(self).fwd_view() == old(
                    self,
                ).fwd_view().drop_last())
            },
    {
        if !self.active {
            return None;
        }
        let ell = self.pat.byte_len();
        loop
            invariant
                self.wf(),
                self.active,
                ell == self.pat_view().len(),
                self.buf_view() == old(self).buf_view(),
                self.pat_view() == old(self).pat_view(),
                self.fwd_view() == old(self).fwd_view(),
                self.bwd_view() == old(self).bwd_view(),
                self.windows().len() > 0 ==> self.span_low() == old(self).span_low(),
            decreases self.cb - self.cf,
        {
            proof {
                self.lemma_state_sound();
            }
            if self.cf == self.cb {
                if self.spent {
                    return None;
                }
                if ell == 0 {
                    let q = self.back_step_empty_converged();
                    return Some(q);
                }
                let found = rfind_in_window(self.buf, self.pat.as_bytes(), self.fpos, self.bpos);
                match found {
                    Option::Some(i) => {
                        let ghost pre = *self;
                        proof {
                            assert(pre.windows() =~= seq![(pre.fpos as int, pre.bpos as int)]);
                            assert(pre.windows().drop_last() =~= Seq::<(int, int)>::empty());
                            assert(bwd_of_windows(pre.buf@, pre.pat@, Seq::<(int, int)>::empty())
                                =~= Seq::<int>::empty());
                            assert(pre.windows().last() == pre.windows()[0]);
                            assert(pre.bwd_view() =~= roccs_bounded(
                                pre.buf@,
                                pre.pat@,
                                pre.fpos as int,
                                pre.bpos as int,
                            ));
                        }
                        self.bpos = i;
                        proof {
                            assert(self.windows() =~= seq![(pre.fpos as int, i as int)]);
                            assert(self.windows().drop_last() =~= Seq::<(int, int)>::empty());
                            assert(bwd_of_windows(self.buf@, self.pat@, Seq::<(int, int)>::empty())
                                =~= Seq::<int>::empty());
                            assert(self.windows().last() == self.windows()[0]);
                            assert(self.bwd_view() =~= roccs_bounded(
                                self.buf@,
                                self.pat@,
                                pre.fpos as int,
                                i as int,
                            ));
                            assert(self.bwd_view() =~= pre.bwd_view().drop_first());
                            if no_self_overlap(self.pat@) {
                                pre.lemma_state_sound();
                                self.lemma_state_sound();
                                lemma_windows_reverse(self.buf@, self.pat@, pre.windows());
                                lemma_windows_reverse(self.buf@, self.pat@, self.windows());
                                lemma_reverse_drop_first(pre.fwd_view().reverse());
                                lemma_rev_rev(pre.fwd_view());
                                lemma_rev_rev(self.fwd_view());
                                assert(self.fwd_view().reverse() == pre.fwd_view(
                                ).reverse().drop_first());
                                assert(pre.fwd_view().reverse().drop_first().reverse()
                                    == pre.fwd_view().reverse().reverse().drop_last());
                                assert(self.fwd_view() =~= pre.fwd_view().drop_last());
                            }
                        }
                        return Some(i);
                    },
                    Option::None => {
                        proof {
                            assert(self.windows() =~= seq![(self.fpos as int, self.bpos as int)]);
                            assert(self.windows().drop_last() =~= Seq::<(int, int)>::empty());
                            assert(self.windows().drop_first() =~= Seq::<(int, int)>::empty());
                            assert(bwd_of_windows(self.buf@, self.pat@, Seq::<(int, int)>::empty())
                                =~= Seq::<int>::empty());
                            assert(fwd_of_windows(self.buf@, self.pat@, Seq::<(int, int)>::empty())
                                =~= Seq::<int>::empty());
                            assert(self.windows().last() == self.windows()[0]);
                            assert(self.bwd_view() =~= roccs_bounded(
                                self.buf@,
                                self.pat@,
                                self.fpos as int,
                                self.bpos as int,
                            ));
                            assert(self.bwd_view().len() == 0);
                            if self.pat@.len() > 0 {
                                lemma_occs_empty_iff(
                                    self.buf@,
                                    self.pat@,
                                    self.fpos as int,
                                    self.bpos as int,
                                );
                                lemma_roccs_empty_iff(
                                    self.buf@,
                                    self.pat@,
                                    self.fpos as int,
                                    self.bpos as int,
                                );
                            }
                            assert(self.fwd_view() =~= occs_bounded(
                                self.buf@,
                                self.pat@,
                                self.fpos as int,
                                self.bpos as int,
                            ));
                            assert(self.fwd_view().len() == 0);
                        }
                        return None;
                    },
                }
            } else {
                let s0 = self.sects[self.cb].0;
                proof {
                    assert(sec_view(self.sects@)[self.cb as int].0 == s0 as int);
                    assert(self.windows().last() == (s0 as int, self.bpos as int));
                }
                if ell == 0 {
                    let q = self.back_step_empty_outer(s0);
                    return Some(q);
                }
                let found = rfind_in_window(self.buf, self.pat.as_bytes(), s0, self.bpos);
                match found {
                    Option::Some(i) => {
                        let ghost pre = *self;
                        self.bpos = i;
                        proof {
                            assert(self.windows().len() == pre.windows().len());
                            assert forall|k: int| 0 <= k < self.windows().len() - 1 implies
                                self.windows()[k] == pre.windows()[k] by {}
                            assert(self.windows().last() == (s0 as int, i as int));
                            assert(self.windows().drop_last() =~= pre.windows().drop_last());
                            assert(pre.bwd_view() == roccs_bounded(
                                pre.buf@,
                                pre.pat@,
                                s0 as int,
                                pre.bpos as int,
                            ) + bwd_of_windows(pre.buf@, pre.pat@, pre.windows().drop_last()));
                            assert(self.bwd_view() == roccs_bounded(
                                self.buf@,
                                self.pat@,
                                s0 as int,
                                i as int,
                            ) + bwd_of_windows(self.buf@, self.pat@, self.windows().drop_last()));
                            assert(self.bwd_view() =~= pre.bwd_view().drop_first());
                            assert(self.windows()[0] == pre.windows()[0]);
                            if no_self_overlap(self.pat@) {
                                pre.lemma_state_sound();
                                self.lemma_state_sound();
                                lemma_windows_reverse(self.buf@, self.pat@, pre.windows());
                                lemma_windows_reverse(self.buf@, self.pat@, self.windows());
                                lemma_reverse_drop_first(pre.fwd_view().reverse());
                                lemma_rev_rev(pre.fwd_view());
                                lemma_rev_rev(self.fwd_view());
                                assert(self.fwd_view().reverse() == pre.fwd_view(
                                ).reverse().drop_first());
                                assert(pre.fwd_view().reverse().drop_first().reverse()
                                    == pre.fwd_view().reverse().reverse().drop_last());
                                assert(self.fwd_view() =~= pre.fwd_view().drop_last());
                            }
                        }
                        return Some(i);
                    },
                    Option::None => {
                        let ghost pre = *self;
                        self.cb = self.cb - 1;
                        let newpos = self.sects[self.cb].1;
                        self.bpos = newpos;
                        proof {
                            let t = self.buf@;
                            let p = self.pat@;
                            let ss = sec_view(self.sects@);
                            assert(ss[self.cb as int] == (
                                self.sects@[self.cb as int].0 as int,
                                self.sects@[self.cb as int].1 as int,
                            ));
                            if self.cf == self.cb {
                                assert(pre.windows() =~= seq![(self.fpos as int, self.bpos as int)]
                                    + seq![(s0 as int, pre.bpos as int)]);
                                assert(self.windows() =~= pre.windows().drop_last());
                            } else {
                                assert(self.windows().len() == pre.windows().len() - 1);
                                assert forall|k: int| 0 <= k < self.windows().len() implies
                                    self.windows()[k] == pre.windows()[k] by {
                                    if 0 < k < self.windows().len() - 1 {
                                        assert(self.windows()[k] == ss.subrange(
                                            self.cf as int + 1,
                                            self.cb as int,
                                        )[k - 1]);
                                        assert(pre.windows()[k] == ss.subrange(
                                            pre.cf as int + 1,
                                            pre.cb as int,
                                        )[k - 1]);
                                    }
                                    if k == self.windows().len() - 1 && k > 0 {
                                        assert(pre.windows()[k] == ss.subrange(
                                            pre.cf as int + 1,
                                            pre.cb as int,
                                        )[k - 1]);
                                        assert(ss[self.cb as int] == (
                                            ss[self.cb as int].0,
                                            ss[self.cb as int].1,
                                        ));
                                    }
                                }
                                assert(self.windows() =~= pre.windows().drop_last());
                            }
                            assert(bwd_of_windows(t, p, pre.windows()) == roccs_bounded(
                                t,
                                p,
                                s0 as int,
                                pre.bpos as int,
                            ) + bwd_of_windows(t, p, self.windows()));
                            assert(self.bwd_view() =~= pre.bwd_view());
                            lemma_fwd_unfold_last(t, p, pre.windows());
                            if p.len() > 0 {
                                lemma_occs_empty_iff(t, p, s0 as int, pre.bpos as int);
                                lemma_roccs_empty_iff(t, p, s0 as int, pre.bpos as int);
                            }
                            assert(occs_bounded(t, p, s0 as int, pre.bpos as int).len() == 0);
                            assert(self.fwd_view() =~= pre.fwd_view());
                            assert(self.windows()[0] == pre.windows()[0]);
                        }
                    },
                }
            }
        }
    }
}

/// On a non-empty sequence, dropping the last element and reversing is the
/// same as reversing and dropping the first.
proof fn lemma_reverse_drop_last(x: Seq<int>)
    requires
        x.len() > 0,
    ensures
        x.drop_last().reverse() == x.reverse().drop_first(),
{
    assert forall|k: int| 0 <= k < x.len() - 1 implies x.drop_last().reverse()[k]
        == x.reverse().drop_first()[k] by {
        assert(x.drop_last().reverse()[k] == x.drop_last()[x.len() - 2 - k]);
        assert(x.reverse().drop_first()[k] == x.reverse()[k + 1]);
    }
    assert(x.drop_last().reverse() =~= x.reverse().drop_first());
}

/// Reversing twice gives the sequence back.
proof fn lemma_rev_rev(a: Seq<int>)
    ensures
        a.reverse().reverse() == a,
{
    assert forall|k: int| 0 <= k < a.len() implies a.reverse().reverse()[k] == a[k] by {
        assert(a.reverse().reverse()[k] == a.reverse()[a.len() - 1 - k]);
    }
    assert(a.reverse().reverse() =~= a);
}

/// The elements of a back-to-front chain are occurrences lying inside the
/// windows' span.
proof fn lemma_windows_reverse_free_bounds(t: Seq<u8>, p: Seq<u8>, ws: Seq<(int, int)>)
    requires
        wf_windows(t, ws),
    ensures
        forall|k: int|
            0 <= k < bwd_of_windows(t, p, ws).len() ==> {
                &&& occ_at(t, p, #[trigger] bwd_of_windows(t, p, ws)[k])
                &&& ws.len() > 0
                &&& ws[0].0 <= bwd_of_windows(t, p, ws)[k]
                &&& bwd_of_windows(t, p, ws)[k] + p.len() <= ws.last().1
            },
    decreases ws.len(),
{
    let v = bwd_of_windows(t, p, ws);
    if ws.len() == 0 {
    } else {
        let head = roccs_bounded(t, p, ws.last().0, ws.last().1);
        let rest = bwd_of_windows(t, p, ws.drop_last());
        assert(forall|k: int|
            0 <= k < ws.drop_last().len() ==> #[trigger] ws.drop_last()[k] == ws[k]);
        lemma_windows_reverse_free_bounds(t, p, ws.drop_last());
        lemma_roccs_sound(t, p, ws.last().0, ws.last().1);
        assert(v == head + rest);
        assert forall|k: int| 0 <= k < v.len() implies {
            &&& occ_at(t, p, #[trigger] v[k])
            &&& ws.len() > 0
            &&& ws[0].0 <= v[k]
            &&& v[k] + p.len() <= ws.last().1
        } by {
            if k < head.len() {
                assert(v[k] == head[k]);
                lemma_windows_span(t, ws);
            } else {
                assert(v[k] == rest[k - head.len()]);
                if ws.len() > 1 {
                    assert(ws.drop_last()[0] == ws[0]);
                    assert(ws.drop_last().last() == ws[ws.len() - 2]);
                    assert(ws[ws.len() - 2].1 <= ws.last().0);
                    lemma_windows_span(t, ws);
                }
            }
        }
    }
}

/// The split pieces that remain when the byte range `[lo, hi)` is still
/// unconsumed and `ms` are the remaining front matches: the range before each
/// match, and one final piece of everything left after the last match.
pub open spec fn fwd_pieces(p: Seq<u8>, lo: int, hi: int, ms: Seq<int>) -> Seq<(int, int)>
    decreases ms.len(),
{
    if ms.len() == 0 {
        seq![(lo, hi)]
    } else {
        seq![(lo, ms[0])] + fwd_pieces(p, ms[0] + p.len(), hi, ms.drop_first())
    }
}

/// The split pieces that remain when iterating from the back: the range
/// after each match, and one final piece of everything left before the last
/// match taken.
pub open spec fn bwd_pieces(p: Seq<u8>, lo: int, hi: int, ms: Seq<int>) -> Seq<(int, int)>
    decreases ms.len(),
{
    if ms.len() == 0 {
        seq![(lo, hi)]
    } else {
        seq![(ms[0] + p.len(), hi)] + bwd_pieces(p, lo, ms[0], ms.drop_first())
    }
}

/// The pieces that splitting buffer `t` by pattern `p` yields, front to back,
/// as byte ranges of `t`. There is always exactly one more piece than there
/// are matches; pieces may themselves contain invalid bytes.
pub open spec fn split_seq(t: Seq<u8>, p: Seq<u8>) -> Seq<(int, int)> {
    fwd_pieces(p, 0, t.len() as int, fwd_match_seq(t, p))
}

/// The pieces that splitting buffer `t` by pattern `p` yields, back to front.
pub open spec fn rsplit_seq(t: Seq<u8>, p: Seq<u8>) -> Seq<(int, int)> {
    bwd_pieces(p, 0, t.len() as int, bwd_match_seq(t, p))
}

/// The bytes of the pieces, concatenated with one copy of the pattern between
/// consecutive pieces: what a reader reassembling a split would write down.
pub open spec fn glue(t: Seq<u8>, p: Seq<u8>, pieces: Seq<(int, int)>) -> Seq<u8>
    decreases pieces.len(),
{
    if pieces.len() == 0 {
        Seq::empty()
    } else if pieces.len() == 1 {
        t.subrange(pieces[0].0, pieces[0].1)
    } else {
        t.subrange(pieces[0].0, pieces[0].1) + p + glue(t, p, pieces.drop_first())
    }
}

/// Cutting the buffer at an occurrence and writing the pattern in its place
/// gives back the same bytes.
proof fn lemma_subrange_stitch(t: Seq<u8>, p: Seq<u8>, lo: int, m: int)
    requires
        0 <= lo <= m,
        occ_at(t, p, m),
    ensures
        t.subrange(lo, m) + p + t.subrange(m + p.len(), t.len() as int) == t.subrange(
            lo,
            t.len() as int,
        ),
{
    let lhs = t.subrange(lo, m) + p + t.subrange(m + p.len(), t.len() as int);
    assert forall|k: int| 0 <= k < t.len() - lo implies lhs[k] == t.subrange(
        lo,
        t.len() as int,
    )[k] by {
        if k < m - lo {
        } else if k < m - lo + p.len() {
            assert(p[k - (m - lo)] == t.subrange(m, m + p.len())[k - (m - lo)]);
        } else {
        }
    }
    assert(lhs =~= t.subrange(lo, t.len() as int));
}

/// In an ascending match sequence, every later element is at least as large.
proof fn lemma_ms_sorted_ge(ms: Seq<int>, a: int, b: int)
    requires
        0 <= a <= b < ms.len(),
        forall|j: int| 0 <= j && j + 1 < ms.len() ==> #[trigger] ms[j] <= ms[j + 1],
    ensures
        ms[a] <= ms[b],
    decreases b - a,
{
    if a < b {
        lemma_ms_sorted_ge(ms, a, b - 1);
    }
}

#[verifier::rlimit(100)]
proof fn lemma_glue_pieces(t: Seq<u8>, p: Seq<u8>, lo: int, ms: Seq<int>)
    requires
        0 <= lo <= t.len(),
        forall|k: int|
            0 <= k < ms.len() ==> occ_at(t, p, #[trigger] ms[k]) && lo <= ms[k],
        forall|k: int| 0 <= k && k + 1 < ms.len() ==> #[trigger] ms[k] + p.len() <= ms[k + 1],
    ensures
        glue(t, p, fwd_pieces(p, lo, t.len() as int, ms)) == t.subrange(lo, t.len() as int),
    decreases ms.len(),
{
    if ms.len() == 0 {
    } else {
        let m = ms[0];
        let rest = ms.drop_first();
        assert(occ_at(t, p, m));
        assert forall|k: int| 0 <= k < rest.len() implies occ_at(t, p, #[trigger] rest[k]) && m
            + p.len() <= rest[k] by {
            assert(rest[k] == ms[k + 1]);
            if k > 0 {
                lemma_ms_sorted_ge(ms, 1, k + 1);
            }
        }
        assert forall|k: int| 0 <= k && k + 1 < rest.len() implies #[trigger] rest[k] + p.len()
            <= rest[k + 1] by {
            assert(rest[k] == ms[k + 1]);
            assert(rest[k + 1] == ms[k + 2]);
        }
        lemma_glue_pieces(t, p, m + p.len(), rest);
        let pieces = fwd_pieces(p, lo, t.len() as int, ms);
        let tailp = fwd_pieces(p, m + p.len(), t.len() as int, rest);
        assert(pieces == seq![(lo, m)] + tailp);
        assert(pieces.drop_first() =~= tailp);
        assert(pieces.len() >= 2);
        assert(pieces[0] == (lo, m));
        assert(glue(t, p, pieces) == t.subrange(lo, m) + p + glue(t, p, pieces.drop_first()));
        lemma_subrange_stitch(t, p, lo, m);
    }
}

/// Splitting reconstructs the buffer: the split pieces of `t`, concatenated
/// with one copy of the pattern at each recorded match point, give back `t`
/// exactly.
#[verifier::rlimit(100)]
pub proof fn lemma_split_reconstruction(t: Seq<u8>, p: Seq<u8>)
    ensures
        glue(t, p, split_seq(t, p)) == t,
{
    lemma_sections_from_wf(t, 0);
    let ss = sections_spec(t);
    assert(wf_windows(t, ss));
    lemma_fwd_windows_sound(t, p, ss);
    let ms = fwd_match_seq(t, p);
    assert forall|k: int| 0 <= k && k + 1 < ms.len() implies #[trigger] ms[k] <= ms[k + 1] by {}
    lemma_glue_pieces(t, p, 0, ms);
    assert(t.subrange(0, t.len() as int) =~= t);
}

/// A buffer with no valid text anywhere yields no matches at all, and
/// splitting it yields exactly one piece: the whole buffer.
pub proof fn lemma_all_invalid_degenerate(t: Seq<u8>, p: Seq<u8>)
    requires
        forall|j: int| 0 <= j < t.len() ==> crate::sections::scalar_len_at(t, j) == 0,
    ensures
        fwd_match_seq(t, p) == Seq::<int>::empty(),
        bwd_match_seq(t, p) == Seq::<int>::empty(),
        split_seq(t, p) == seq![(0int, t.len() as int)],
        rsplit_seq(t, p) == seq![(0int, t.len() as int)],
{
    crate::sections::lemma_sections_all_invalid(t, 0);
    assert(fwd_match_seq(t, p) =~= Seq::<int>::empty());
    assert(bwd_match_seq(t, p) =~= Seq::<int>::empty());
    assert(split_seq(t, p) =~= seq![(0int, t.len() as int)]);
    assert(rsplit_seq(t, p) =~= seq![(0int, t.len() as int)]);
}

/// On a fully valid buffer the section partitioner degenerates to the
/// identity, and the match streams are exactly ordinary text search over the
/// whole buffer.
pub proof fn lemma_valid_text_degenerate(t: Seq<u8>, p: Seq<u8>)
    requires
        vstd::utf8::valid_utf8(t),
        t.len() > 0 || p.len() > 0,
    ensures
        fwd_match_seq(t, p) == occs_bounded(t, p, 0, t.len() as int),
        bwd_match_seq(t, p) == roccs_bounded(t, p, 0, t.len() as int),
{
    if t.len() == 0 {
        assert(sections_spec(t) =~= Seq::<(int, int)>::empty());
        assert(fwd_match_seq(t, p) =~= Seq::<int>::empty());
        assert(bwd_match_seq(t, p) =~= Seq::<int>::empty());
    } else {
        crate::sections::lemma_sections_of_valid(t);
        let ss = sections_spec(t);
        assert(ss == seq![(0int, t.len() as int)]);
        assert(ss.drop_first() =~= Seq::<(int, int)>::empty());
        assert(ss.drop_last() =~= Seq::<(int, int)>::empty());
        assert(fwd_of_windows(t, p, Seq::<(int, int)>::empty()) =~= Seq::<int>::empty());
        assert(bwd_of_windows(t, p, Seq::<(int, int)>::empty()) =~= Seq::<int>::empty());
        assert(ss.last() == ss[0]);
        assert(fwd_match_seq(t, p) =~= occs_bounded(t, p, 0, t.len() as int));
        assert(bwd_match_seq(t, p) =~= roccs_bounded(t, p, 0, t.len() as int));
    }
}

/// Every position yielded by a back-to-front scan is an occurrence inside
/// the window.
proof fn lemma_roccs_sound(t: Seq<u8>, p: Seq<u8>, lo: int, upto: int)
    ensures
        forall|k: int|
            0 <= k < roccs_bounded(t, p, lo, upto).len() ==> {
                &&& occ_at(t, p, #[trigger] roccs_bounded(t, p, lo, upto)[k])
                &&& lo <= roccs_bounded(t, p, lo, upto)[k]
                &&& roccs_bounded(t, p, lo, upto)[k] + p.len() <= upto
            },
    decreases upto - lo,
{
    let os = roccs_bounded(t, p, lo, upto);
    if lo < 0 || upto > t.len() {
    } else if p.len() == 0 {
        lemma_empty_occs_sound(t, lo, upto);
        let eo = empty_occs(t, lo, upto);
        assert(os == eo.reverse());
        assert forall|k: int| 0 <= k < os.len() implies {
            &&& occ_at(t, p, #[trigger] os[k])
            &&& lo <= os[k]
            &&& os[k] + p.len() <= upto
        } by {
            assert(os[k] == eo[eo.len() - 1 - k]);
            assert(t.subrange(os[k], os[k]) =~= p);
        }
    } else if lo + p.len() > upto {
    } else if occ_at(t, p, upto - p.len()) {
        lemma_roccs_sound(t, p, lo, upto - p.len());
        let rest = roccs_bounded(t, p, lo, upto - p.len());
        assert(os == seq![upto - p.len()] + rest);
        assert forall|k: int| 0 <= k < os.len() implies {
            &&& occ_at(t, p, #[trigger] os[k])
            &&& lo <= os[k]
            &&& os[k] + p.len() <= upto
        } by {
            if k > 0 {
                assert(os[k] == rest[k - 1]);
            }
        }
    } else {
        lemma_roccs_sound(t, p, lo, upto - 1);
        let os2 = roccs_bounded(t, p, lo, upto - 1);
        assert(os == os2);
        assert forall|k: int| 0 <= k < os.len() implies {
            &&& occ_at(t, p, #[trigger] os[k])
            &&& lo <= os[k]
            &&& os[k] + p.len() <= upto
        } by {
            assert(os[k] == os2[k]);
        }
    }
}


proof fn lemma_fwd_pieces_step(p: Seq<u8>, lo: int, hi: int, ms: Seq<int>)
    requires
        ms.len() > 0,
    ensures
        fwd_pieces(p, lo, hi, ms)[0] == (lo, ms[0]),
        fwd_pieces(p, lo, hi, ms).len() > 0,
        fwd_pieces(p, lo, hi, ms).drop_first() == fwd_pieces(p, ms[0] + p.len(), hi, ms.drop_first()),
{
    assert(fwd_pieces(p, lo, hi, ms) == seq![(lo, ms[0])] + fwd_pieces(p, ms[0] + p.len(), hi, ms.drop_first()));
    assert(fwd_pieces(p, lo, hi, ms).drop_first() =~= fwd_pieces(p, ms[0] + p.len(), hi, ms.drop_first()));
}

proof fn lemma_bwd_pieces_step(p: Seq<u8>, lo: int, hi: int, ms: Seq<int>)
    requires
        ms.len() > 0,
    ensures
        bwd_pieces(p, lo, hi, ms)[0] == (ms[0] + p.len(), hi),
        bwd_pieces(p, lo, hi, ms).len() > 0,
        bwd_pieces(p, lo, hi, ms).drop_first() == bwd_pieces(p, lo, ms[0], ms.drop_first()),
{
    assert(bwd_pieces(p, lo, hi, ms) == seq![(ms[0] + p.len(), hi)] + bwd_pieces(p, lo, ms[0], ms.drop_first()));
    assert(bwd_pieces(p, lo, hi, ms).drop_first() =~= bwd_pieces(p, lo, ms[0], ms.drop_first()));
}

proof fn lemma_pieces_singleton(p: Seq<u8>, lo: int, hi: int, ms: Seq<int>)
    requires
        ms.len() == 0,
    ensures
        fwd_pieces(p, lo, hi, ms) == seq![(lo, hi)],
        bwd_pieces(p, lo, hi, ms) == seq![(lo, hi)],
        fwd_pieces(p, lo, hi, ms).drop_first() == Seq::<(int, int)>::empty(),
        bwd_pieces(p, lo, hi, ms).drop_first() == Seq::<(int, int)>::empty(),
{
    assert(fwd_pieces(p, lo, hi, ms).drop_first() =~= Seq::<(int, int)>::empty());
    assert(bwd_pieces(p, lo, hi, ms).drop_first() =~= Seq::<(int, int)>::empty());
}

/// Consuming the backward stream's last match from the front end removes
/// exactly the backward stream's final piece.
proof fn lemma_bwd_pieces_drop_last(p: Seq<u8>, lo: int, hi: int, ms: Seq<int>)
    requires
        ms.len() > 0,
    ensures
        bwd_pieces(p, ms.last() + p.len(), hi, ms.drop_last()) == bwd_pieces(
            p,
            lo,
            hi,
            ms,
        ).drop_last(),
    decreases ms.len(),
{
    if ms.len() == 1 {
        assert(ms.drop_last() =~= Seq::<int>::empty());
        assert(ms.drop_first() =~= Seq::<int>::empty());
        assert(bwd_pieces(p, lo, hi, ms) == seq![(ms[0] + p.len(), hi)] + seq![(lo, ms[0])]);
        assert(bwd_pieces(p, ms.last() + p.len(), hi, ms.drop_last()) =~= bwd_pieces(
            p,
            lo,
            hi,
            ms,
        ).drop_last());
    } else {
        lemma_bwd_pieces_drop_last(p, lo, ms[0], ms.drop_first());
        assert(ms.drop_first().last() == ms.last());
        assert(ms.drop_last().drop_first() =~= ms.drop_first().drop_last());
        assert(ms.drop_last()[0] == ms[0]);
        assert(bwd_pieces(p, lo, hi, ms) == seq![(ms[0] + p.len(), hi)] + bwd_pieces(
            p,
            lo,
            ms[0],
            ms.drop_first(),
        ));
        assert(bwd_pieces(p, ms.last() + p.len(), hi, ms.drop_last()) == seq![
            (ms[0] + p.len(), hi),
        ] + bwd_pieces(p, ms.last() + p.len(), ms[0], ms.drop_last().drop_first()));
        assert(bwd_pieces(p, ms.last() + p.len(), hi, ms.drop_last()) =~= bwd_pieces(
            p,
            lo,
            hi,
            ms,
        ).drop_last());
    }
}

/// Consuming the forward stream's last match from the back end removes
/// exactly the forward stream's final piece.
proof fn lemma_fwd_pieces_drop_last(p: Seq<u8>, lo: int, hi: int, ms: Seq<int>)
    requires
        ms.len() > 0,
    ensures
        fwd_pieces(p, lo, ms.last(), ms.drop_last()) == fwd_pieces(p, lo, hi, ms).drop_last(),
    decreases ms.len(),
{
    if ms.len() == 1 {
        assert(ms.drop_last() =~= Seq::<int>::empty());
        assert(ms.drop_first() =~= Seq::<int>::empty());
        assert(fwd_pieces(p, lo, hi, ms) == seq![(lo, ms[0])] + seq![(ms[0] + p.len(), hi)]);
        assert(fwd_pieces(p, lo, ms.last(), ms.drop_last()) =~= fwd_pieces(
            p,
            lo,
            hi,
            ms,
        ).drop_last());
    } else {
        lemma_fwd_pieces_drop_last(p, ms[0] + p.len(), hi, ms.drop_first());
        assert(ms.drop_first().last() == ms.last());
        assert(ms.drop_last().drop_first() =~= ms.drop_first().drop_last());
        assert(ms.drop_last()[0] == ms[0]);
        assert(fwd_pieces(p, lo, hi, ms) == seq![(lo, ms[0])] + fwd_pieces(
            p,
            ms[0] + p.len(),
            hi,
            ms.drop_first(),
        ));
        assert(fwd_pieces(p, lo, ms.last(), ms.drop_last()) == seq![(lo, ms[0])] + fwd_pieces(
            p,
            ms[0] + p.len(),
            ms.last(),
            ms.drop_last().drop_first(),
        ));
        assert(fwd_pieces(p, lo, ms.last(), ms.drop_last()) =~= fwd_pieces(
            p,
            lo,
            hi,
            ms,
        ).drop_last());
    }
}

/// The split driver: yields the byte ranges of the buffer between
/// consecutive matches, from either end. A piece may contain invalid bytes;
/// once the matches are exhausted, exactly one final piece — everything still
/// unconsumed — is yielded, and then nothing more.
#[derive(Clone)]
pub struct SplitImpl<'a> {
    matches: MatchImpl<'a>,
    lo: usize,
    hi: usize,
    done: bool,
}

impl<'a> SplitImpl<'a> {
    /// The bytes being split.
    pub closed spec fn buf_view(&self) -> Seq<u8> {
        self.matches.buf_view()
    }

    /// The pattern's bytes.
    pub closed spec fn pat_view(&self) -> Seq<u8> {
        self.matches.pat_view()
    }

    /// The pieces a front-to-back iteration has yet to yield.
    pub closed spec fn fwd_view(&self) -> Seq<(int, int)> {
        if self.done {
            Seq::empty()
        } else {
            fwd_pieces(self.pat_view(), self.lo as int, self.hi as int, self.matches.fwd_view())
        }
    }

    /// The pieces a back-to-front iteration has yet to yield.
    pub closed spec fn bwd_view(&self) -> Seq<(int, int)> {
        if self.done {
            Seq::empty()
        } else {
            bwd_pieces(self.pat_view(), self.lo as int, self.hi as int, self.matches.bwd_view())
        }
    }

    pub closed spec fn wf(&self) -> bool {
        &&& self.matches.wf()
        &&& self.lo <= self.hi <= self.buf_view().len()
        &&& (!self.done && self.matches.windows().len() > 0 ==> self.lo as int
            <= self.matches.span_low() && self.matches.span_high() <= self.hi as int)
    }

    /// Builds the driver over a buffer and a pattern; the whole buffer is the
    /// range still to be handed out.
    pub fn new(buf: &'a [u8], pat: Pattern) -> (r: Self)
        ensures
            r.wf(),
            r.buf_view() == buf@,
            r.pat_view() == pat@,
            r.fwd_view() == split_seq(buf@, pat@),
            r.bwd_view() == rsplit_seq(buf@, pat@),
    {
        let n = buf.len();
        let matches = MatchImpl::new(buf, pat);
        proof {
            lemma_sections_from_wf(buf@, 0);
            let ss = sections_spec(buf@);
            if ss.len() > 0 {
                assert(ss[0].0 >= 0);
                assert(ss.last().1 <= buf@.len());
            }
        }
        SplitImpl { matches, lo: 0, hi: n, done: false }
    }

    /// Yields the next piece from the front, as a byte range of the buffer:
    /// everything from the end of the previous match to the start of the next
    /// one, or everything left once the matches have run out.
    #[verifier::rlimit(100)]
    pub fn next(&mut self) -> (r: Option<(usize, usize)>)
        requires
            old(self).wf(),
        ensures
            final(self).wf(),
            final(self).buf_view() == old(self).buf_view(),
            final(self).pat_view() == old(self).pat_view(),
            old(self).fwd_view().len() == 0 ==> r is None && final(self).fwd_view() == old(
                self,
            ).fwd_view(),
            old(self).fwd_view().len() > 0 ==> {
                &&& r is Some
                &&& r->Some_0.0 as int == old(self).fwd_view()[0].0
                &&& r->Some_0.1 as int == old(self).fwd_view()[0].1
                &&& r->Some_0.0 <= r->Some_0.1 <= old(self).buf_view().len()
                &&& final(self).fwd_view() == old(self).fwd_view().drop_first()
            },
            old(self).fwd_view().len() == 1 ==> final(self).fwd_view().len() == 0
                && final(self).bwd_view().len() == 0,
            no_self_overlap(old(self).pat_view()) && old(self).fwd_view().len() > 1
                ==> final(self).bwd_view() == old(self).bwd_view().drop_last(),
    {
        if self.done {
            return None;
        }
        let ell = self.matches.pat_len();
        proof {
            self.matches.lemma_state_sound();
        }
        let found = self.matches.next();
        match found {
            Option::Some(m) => {
                let piece = (self.lo, m);
                self.lo = m + ell;
                proof {
                    assert(old(self).matches.fwd_view().len() > 0);
                    assert(old(self).matches.windows().len() > 0);
                    assert(self.matches.wf());
                    if self.matches.windows().len() > 0 {
                        assert(m + ell <= self.matches.span_low());
                        assert(self.matches.span_high() == old(self).matches.span_high());
                        assert(self.matches.span_high() <= self.hi as int);
                        assert(self.lo as int <= self.matches.span_low());
                    }
                    assert(self.lo <= self.hi <= self.buf_view().len());
                    lemma_fwd_pieces_step(
                        old(self).pat_view(),
                        old(self).lo as int,
                        old(self).hi as int,
                        old(self).matches.fwd_view(),
                    );
                    if no_self_overlap(old(self).pat_view()) {
                        let mb = old(self).matches.bwd_view();
                        lemma_windows_reverse(
                            old(self).buf_view(),
                            old(self).pat_view(),
                            old(self).matches.windows(),
                        );
                        assert(mb == old(self).matches.fwd_view().reverse());
                        assert(mb.last() == old(self).matches.fwd_view()[0]);
                        assert(mb.last() == m as int);
                        lemma_bwd_pieces_drop_last(
                            old(self).pat_view(),
                            old(self).lo as int,
                            old(self).hi as int,
                            mb,
                        );
                        assert(self.bwd_view() =~= old(self).bwd_view().drop_last());
                    }
                }
                Some(piece)
            },
            Option::None => {
                let piece = (self.lo, self.hi);
                self.done = true;
                proof {
                    lemma_pieces_singleton(
                        old(self).pat_view(),
                        old(self).lo as int,
                        old(self).hi as int,
                        old(self).matches.fwd_view(),
                    );
                }
                Some(piece)
            },
        }
    }

    /// Yields the next piece from the back, as a byte range of the buffer:
    /// everything from the end of the next backward match to the start of the
    /// previous piece, or everything left once the matches have run out.
    #[verifier::rlimit(100)]
    pub fn next_back(&mut self) -> (r: Option<(usize, usize)>)
        requires
            old(self).wf(),
        ensures
            final(self).wf(),
            final(self).buf_view() == old(self).buf_view(),
            final(self).pat_view() == old(self).pat_view(),
            old(self).bwd_view().len() == 0 ==> r is None && final(self).bwd_view() == old(
                self,
            ).bwd_view(),
            old(self).bwd_view().len() > 0 ==> {
                &&& r is Some
                &&& r->Some_0.0 as int == old(self).bwd_view()[0].0
                &&& r->Some_0.1 as int == old(self).bwd_view()[0].1
                &&& r->Some_0.0 <= r->Some_0.1 <= old(self).buf_view().len()
                &&& final(self).bwd_view() == old(self).bwd_view().drop_first()
            },
            old(self).bwd_view().len() == 1 ==> final(self).bwd_view().len() == 0
                && final(self).fwd_view().len() == 0,
            no_self_overlap(old(self).pat_view()) && old(self).bwd_view().len() > 1
                ==> final(self).fwd_view() == old(self).fwd_view().drop_last(),
    {
        if self.done {
            return None;
        }
        let ell = self.matches.pat_len();
        proof {
            self.matches.lemma_state_sound();
        }
        let found = self.matches.next_back();
        match found {
            Option::Some(m) => {
                let piece = (m + ell, self.hi);
                self.hi = m;
                proof {
                    lemma_bwd_pieces_step(
                        old(self).pat_view(),
                        old(self).lo as int,
                        old(self).hi as int,
                        old(self).matches.bwd_view(),
                    );
                    if no_self_overlap(old(self).pat_view()) {
                        let mf = old(self).matches.fwd_view();
                        lemma_windows_reverse(
                            old(self).buf_view(),
                            old(self).pat_view(),
                            old(self).matches.windows(),
                        );
                        assert(old(self).matches.bwd_view() == mf.reverse());
                        assert(old(self).matches.bwd_view()[0] == mf.last());
                        assert(mf.last() == m as int);
                        assert(self.matches.fwd_view() == mf.drop_last());
                        lemma_fwd_pieces_drop_last(
                            old(self).pat_view(),
                            old(self).lo as int,
                            old(self).hi as int,
                            mf,
                        );
                        assert(self.fwd_view() =~= old(self).fwd_view().drop_last());
                    }
                }
                Some(piece)
            },
            Option::None => {
                let piece = (self.lo, self.hi);
                self.done = true;
                proof {
                    lemma_pieces_singleton(
                        old(self).pat_view(),
                        old(self).lo as int,
                        old(self).hi as int,
                        old(self).matches.bwd_view(),
                    );
                }
                Some(piece)
            },
        }
    }
}


/// Iteration is a function of the driver's state alone: two drivers over the
/// same bytes and the same pattern whose cursors stand at the same windows
/// have exactly the same streams still to yield. Two clones of one driver,
/// run independently to exhaustion, therefore yield identical sequences.
pub proof fn lemma_iteration_deterministic(a: MatchImpl<'_>, b: MatchImpl<'_>)
    requires
        a.buf_view() == b.buf_view(),
        a.pat_view() == b.pat_view(),
        a.windows() == b.windows(),
    ensures
        a.fwd_view() == b.fwd_view(),
        a.bwd_view() == b.bwd_view(),
{
}

} // verus!
