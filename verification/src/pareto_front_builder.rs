use vstd::prelude::*;

verus! {

/// A point in the plane of progress (`first`) and quality (`second`).
#[derive(Debug, Clone, Copy, PartialEq, Eq, Structural, Hash)]
pub struct ParetoValue {
    pub first: u16,
    pub second: u16,
}

impl ParetoValue {
    pub fn new(first: u16, second: u16) -> (r: ParetoValue)
        ensures
            r.first == first,
            r.second == second,
    {
        ParetoValue { first, second }
    }

    /// `self` is at least as good as `other` in both coordinates.
    pub fn dominate(&self, other: &ParetoValue) -> (r: bool)
        ensures
            r == dominates(*self, *other),
    {
        self.first >= other.first && self.second >= other.second
    }
}

/// `x` is at least as good as `y` in both coordinates.
pub open spec fn dominates(x: ParetoValue, y: ParetoValue) -> bool {
    x.first >= y.first && x.second >= y.second
}

/// Some element of `s` dominates `v`.
pub open spec fn covered(s: Seq<ParetoValue>, v: ParetoValue) -> bool {
    exists|i: int| 0 <= i < s.len() && dominates(#[trigger] s[i], v)
}

/// `s` is sorted by `first` ascending and by `second` descending, both
/// strictly: the shape of a set of points none of which dominates another.
pub open spec fn is_front(s: Seq<ParetoValue>) -> bool {
    forall|i: int, j: int|
        0 <= i < j < s.len() ==> (#[trigger] s[i]).first < (#[trigger] s[j]).first && s[i].second
            > s[j].second
}

/// No point of `s` exceeds the caps.
pub open spec fn within(s: Seq<ParetoValue>, max_first: u16, max_second: u16) -> bool {
    forall|i: int|
        0 <= i < s.len() ==> (#[trigger] s[i]).first <= max_first && s[i].second <= max_second
}

/// `v` moved by the offsets and held at the caps.
pub open spec fn shifted(
    v: ParetoValue,
    delta_first: u32,
    delta_second: u32,
    max_first: u16,
    max_second: u16,
) -> ParetoValue {
    ParetoValue {
        first: if v.first + delta_first >= max_first {
            max_first
        } else {
            (v.first + delta_first) as u16
        },
        second: if v.second + delta_second >= max_second {
            max_second
        } else {
            (v.second + delta_second) as u16
        },
    }
}

/// `v` is a point of `src` moved by the offsets and held at the caps.
#[verifier::opaque]
pub open spec fn is_shift_of(
    v: ParetoValue,
    src: Seq<ParetoValue>,
    delta_first: u32,
    delta_second: u32,
    max_first: u16,
    max_second: u16,
) -> bool {
    exists|j: int|
        0 <= j < src.len() && v == shifted(
            #[trigger] src[j],
            delta_first,
            delta_second,
            max_first,
            max_second,
        )
}

/// `out` is the front of the points of `src` after the move by the offsets:
/// a front within the caps, made of moved points of `src`, that covers
/// every moved point of `src`.
pub open spec fn is_shifted_front(
    out: Seq<ParetoValue>,
    src: Seq<ParetoValue>,
    delta_first: u32,
    delta_second: u32,
    max_first: u16,
    max_second: u16,
) -> bool {
    &&& is_front(out)
    &&& within(out, max_first, max_second)
    &&& forall|k: int|
        0 <= k < out.len() ==> is_shift_of(
            #[trigger] out[k],
            src,
            delta_first,
            delta_second,
            max_first,
            max_second,
        )
    &&& forall|j: int|
        0 <= j < src.len() ==> covered(
            out,
            shifted(#[trigger] src[j], delta_first, delta_second, max_first, max_second),
        )
}

/// `out` is the front of the points of `a` and `b` together: a front made
/// of their points that covers each of them.
pub open spec fn is_merged_front(
    out: Seq<ParetoValue>,
    a: Seq<ParetoValue>,
    b: Seq<ParetoValue>,
) -> bool {
    &&& is_front(out)
    &&& forall|k: int| 0 <= k < out.len() ==> a.contains(#[trigger] out[k]) || b.contains(out[k])
    &&& forall|i: int| 0 <= i < a.len() ==> covered(out, #[trigger] a[i])
    &&& forall|j: int| 0 <= j < b.len() ==> covered(out, #[trigger] b[j])
}

/// In a front no point dominates another.
pub proof fn lemma_front_is_antichain(s: Seq<ParetoValue>, i: int, j: int)
    requires
        is_front(s),
        0 <= i < s.len(),
        0 <= j < s.len(),
        i != j,
    ensures
        !dominates(s[i], s[j]),
{
    if i < j {
        assert(s[i].first < s[j].first);
    } else {
        assert(s[j].second > s[i].second);
    }
}

/// Every point of `points` is dominated by a point of `cover`.
#[verifier::opaque]
pub open spec fn covers_all(cover: Seq<ParetoValue>, points: Seq<ParetoValue>) -> bool {
    forall|i: int| 0 <= i < points.len() ==> covered(cover, #[trigger] points[i])
}

proof fn lemma_covers_at(cover: Seq<ParetoValue>, points: Seq<ParetoValue>, i: int)
    requires
        covers_all(cover, points),
        0 <= i < points.len(),
    ensures
        covered(cover, points[i]),
{
    reveal(covers_all);
}

/// Of two fronts each of which covers the points of the other, every point
/// of the one is a point of the other.
proof fn lemma_front_member_agrees(f: Seq<ParetoValue>, g: Seq<ParetoValue>, i: int)
    requires
        is_front(f),
        covers_all(g, f),
        covers_all(f, g),
        0 <= i < f.len(),
    ensures
        g.contains(f[i]),
{
    lemma_covers_at(g, f, i);
    let j = choose|j: int| 0 <= j < g.len() && dominates(#[trigger] g[j], f[i]);
    lemma_covers_at(f, g, j);
    let k = choose|k: int| 0 <= k < f.len() && dominates(#[trigger] f[k], g[j]);
    assert(dominates(f[k], f[i]));
    if k != i {
        lemma_front_is_antichain(f, k, i);
    }
    assert(g[j] == f[i]);
}

/// Two fronts each of which covers the points of the other are the same
/// front: the front of a set of points is fixed by the set.
pub proof fn lemma_front_is_unique(f: Seq<ParetoValue>, g: Seq<ParetoValue>)
    requires
        is_front(f),
        is_front(g),
        covers_all(g, f),
        covers_all(f, g),
    ensures
        f == g,
    decreases f.len() + g.len(),
{
    if f.len() == 0 {
        if g.len() > 0 {
            lemma_front_member_agrees(g, f, 0);
        }
        assert(f =~= g);
    } else if g.len() == 0 {
        lemma_front_member_agrees(f, g, 0);
    } else {
        lemma_front_member_agrees(f, g, 0);
        lemma_front_member_agrees(g, f, 0);
        let j = choose|j: int| 0 <= j < g.len() && g[j] == f[0];
        let k = choose|k: int| 0 <= k < f.len() && f[k] == g[0];
        if k > 0 {
            assert(f[0].first < f[k].first);
        }
        if j > 0 {
            assert(g[0].first < g[j].first);
        }
        assert(f[0] == g[0]);
        let ft = f.skip(1);
        let gt = g.skip(1);
        assert(covers_all(gt, ft)) by {
            assert forall|i: int| 0 <= i < ft.len() implies covered(gt, #[trigger] ft[i]) by {
                assert(ft[i] == f[i + 1]);
                lemma_front_member_agrees(f, g, i + 1);
                let p = choose|p: int| 0 <= p < g.len() && g[p] == f[i + 1];
                assert(f[0].first < f[i + 1].first);
                assert(p > 0);
                assert(gt[p - 1] == g[p]);
                assert(dominates(gt[p - 1], ft[i]));
            }
            reveal(covers_all);
        }
        assert(covers_all(ft, gt)) by {
            assert forall|i: int| 0 <= i < gt.len() implies covered(ft, #[trigger] gt[i]) by {
                assert(gt[i] == g[i + 1]);
                lemma_front_member_agrees(g, f, i + 1);
                let p = choose|p: int| 0 <= p < f.len() && f[p] == g[i + 1];
                assert(g[0].first < g[i + 1].first);
                assert(p > 0);
                assert(ft[p - 1] == f[p]);
                assert(dominates(ft[p - 1], gt[i]));
            }
            reveal(covers_all);
        }
        assert(is_front(ft)) by {
            assert forall|a: int, b: int| 0 <= a < b < ft.len() implies (#[trigger] ft[a]).first
                < (#[trigger] ft[b]).first && ft[a].second > ft[b].second by {
                assert(f[a + 1].first < f[b + 1].first);
            }
        }
        assert(is_front(gt)) by {
            assert forall|a: int, b: int| 0 <= a < b < gt.len() implies (#[trigger] gt[a]).first
                < (#[trigger] gt[b]).first && gt[a].second > gt[b].second by {
                assert(g[a + 1].first < g[b + 1].first);
            }
        }
        lemma_front_is_unique(ft, gt);
        assert(f =~= seq![f[0]] + ft);
        assert(g =~= seq![g[0]] + gt);
    }
}

/// A merge has one result: two fronts that both are the front of the
/// points of `a` and `b` together are equal.
pub proof fn lemma_merged_front_is_unique(
    x: Seq<ParetoValue>,
    y: Seq<ParetoValue>,
    a: Seq<ParetoValue>,
    b: Seq<ParetoValue>,
)
    requires
        is_merged_front(x, a, b),
        is_merged_front(y, a, b),
    ensures
        x == y,
{
    lemma_merged_covers(x, y, a, b);
    lemma_merged_covers(y, x, a, b);
    lemma_front_is_unique(x, y);
}

proof fn lemma_merged_covers(
    x: Seq<ParetoValue>,
    y: Seq<ParetoValue>,
    a: Seq<ParetoValue>,
    b: Seq<ParetoValue>,
)
    requires
        forall|k: int| 0 <= k < y.len() ==> a.contains(#[trigger] y[k]) || b.contains(y[k]),
        forall|i: int| 0 <= i < a.len() ==> covered(x, #[trigger] a[i]),
        forall|j: int| 0 <= j < b.len() ==> covered(x, #[trigger] b[j]),
    ensures
        covers_all(x, y),
{
    assert forall|k: int| 0 <= k < y.len() implies covered(x, #[trigger] y[k]) by {
        if a.contains(y[k]) {
            let i = choose|i: int| 0 <= i < a.len() && a[i] == y[k];
            assert(covered(x, a[i]));
        } else {
            let j = choose|j: int| 0 <= j < b.len() && b[j] == y[k];
            assert(covered(x, b[j]));
        }
    }
    reveal(covers_all);
}

/// What dominates a point that dominates `v` dominates `v`.
pub proof fn lemma_covered_transitive(s: Seq<ParetoValue>, w: ParetoValue, v: ParetoValue)
    requires
        covered(s, w),
        dominates(w, v),
    ensures
        covered(s, v),
{
    let i = choose|i: int| 0 <= i < s.len() && dominates(#[trigger] s[i], w);
    assert(dominates(s[i], v));
}

proof fn lemma_covered_after_push(s: Seq<ParetoValue>, c: ParetoValue, v: ParetoValue)
    requires
        covered(s, v) || dominates(c, v),
    ensures
        covered(s.push(c), v),
{
    if covered(s, v) {
        let i = choose|i: int| 0 <= i < s.len() && dominates(#[trigger] s[i], v);
        assert(s.push(c)[i] == s[i]);
    } else {
        assert(s.push(c)[s.len() as int] == c);
    }
}

/// The front of the points of `src` moved by the offsets and held at the
/// caps, written into the empty `buffer`.
pub fn shift_clamp(
    src: &[ParetoValue],
    delta_first: u32,
    delta_second: u32,
    max_first: u16,
    max_second: u16,
    buffer: Vec<ParetoValue>,
) -> (out: Vec<ParetoValue>)
    requires
        is_front(src@),
        buffer@.len() == 0,
    ensures
        is_shifted_front(out@, src@, delta_first, delta_second, max_first, max_second),
{
    let mut out = buffer;
    let mut i: usize = 0;
    let ghost mut origin: int = 0;
    while i < src.len()
        invariant
            i <= src.len(),
            is_front(src@),
            is_front(out@),
            within(out@, max_first, max_second),
            out@.len() > 0 ==> 0 <= origin < i && out@[out@.len() - 1] == shifted(
                src@[origin],
                delta_first,
                delta_second,
                max_first,
                max_second,
            ),
            out@.len() > 0 && out@[out@.len() - 1].second == max_second ==> out@.len() == 1,
            i > 0 ==> out@.len() > 0,
            forall|k: int|
                0 <= k < out@.len() ==> is_shift_of(
                    #[trigger] out@[k],
                    src@,
                    delta_first,
                    delta_second,
                    max_first,
                    max_second,
                ),
            forall|j: int|
                0 <= j < i ==> covered(
                    out@,
                    shifted(#[trigger] src@[j], delta_first, delta_second, max_first, max_second),
                ),
        decreases src.len() - i,
    {
        let v = src[i];
        let moved_first: u32 = if delta_first >= max_first as u32 || v.first as u32 + delta_first
            >= max_first as u32 {
            max_first as u32
        } else {
            v.first as u32 + delta_first
        };
        let moved_second: u32 = if delta_second >= max_second as u32 || v.second as u32
            + delta_second >= max_second as u32 {
            max_second as u32
        } else {
            v.second as u32 + delta_second
        };
        let c = ParetoValue { first: moved_first as u16, second: moved_second as u16 };
        assert(c == shifted(v, delta_first, delta_second, max_first, max_second));
        let ghost before = out@;
        let n = out.len();
        if n > 0 && out[n - 1].first == max_first {
            proof {
                assert(src@[origin].first < src@[i as int].first);
                assert(src@[origin].second > src@[i as int].second);
                assert(dominates(out@[n - 1], c));
            }
        } else if n > 0 && out[n - 1].second == c.second {
            proof {
                assert(src@[origin].first < src@[i as int].first);
                assert(src@[origin].second > src@[i as int].second);
                assert(n == 1);
                assert(dominates(c, before[0]));
            }
            out.set(0, c);
            proof {
                origin = i as int;
                assert(out@ =~= seq![c]);
                assert(out@[0] == shifted(
                    src@[i as int],
                    delta_first,
                    delta_second,
                    max_first,
                    max_second,
                ));
                assert(is_shift_of(out@[0], src@, delta_first, delta_second, max_first, max_second))
                    by {
                    reveal(is_shift_of);
                }
                assert forall|j: int| 0 <= j < i + 1 implies covered(
                    out@,
                    shifted(#[trigger] src@[j], delta_first, delta_second, max_first, max_second),
                ) by {
                    let w = shifted(src@[j], delta_first, delta_second, max_first, max_second);
                    if j < i {
                        assert(covered(before, w));
                        let k = choose|k: int|
                            0 <= k < before.len() && dominates(#[trigger] before[k], w);
                        assert(k == 0);
                        assert(dominates(out@[0], w));
                    } else {
                        assert(dominates(out@[0], w));
                    }
                }
            }
        } else {
            proof {
                if n > 0 {
                    assert(src@[origin].first < src@[i as int].first);
                    assert(src@[origin].second > src@[i as int].second);
                    assert(before[n - 1].first < c.first);
                    assert(before[n - 1].second > c.second);
                }
            }
            out.push(c);
            proof {
                origin = i as int;
                assert(out@ == before.push(c));
                assert forall|a: int, b: int| 0 <= a < b < out@.len() implies (
                #[trigger] out@[a]).first < (#[trigger] out@[b]).first && out@[a].second
                    > out@[b].second by {
                    if b == n {
                        if a < n - 1 {
                            assert(before[a].first < before[n - 1].first);
                            assert(before[a].second > before[n - 1].second);
                        }
                    } else {
                        assert(before[a].first < before[b].first);
                    }
                }
                assert forall|k: int| 0 <= k < out@.len() implies is_shift_of(
                    #[trigger] out@[k],
                    src@,
                    delta_first,
                    delta_second,
                    max_first,
                    max_second,
                ) by {
                    if k < n {
                        assert(out@[k] == before[k]);
                    } else {
                        assert(out@[k] == shifted(
                            src@[i as int],
                            delta_first,
                            delta_second,
                            max_first,
                            max_second,
                        ));
                        reveal(is_shift_of);
                    }
                }
                assert forall|j: int| 0 <= j < i + 1 implies covered(
                    out@,
                    shifted(#[trigger] src@[j], delta_first, delta_second, max_first, max_second),
                ) by {
                    let w = shifted(src@[j], delta_first, delta_second, max_first, max_second);
                    lemma_covered_after_push(before, c, w);
                }
            }
        }
        i += 1;
    }
    out
}

/// The front of the points of two fronts together, written into the empty
/// `buffer`.
pub fn merge_fronts(a: &[ParetoValue], b: &[ParetoValue], buffer: Vec<ParetoValue>) -> (out: Vec<
    ParetoValue,
>)
    requires
        is_front(a@),
        is_front(b@),
        buffer@.len() == 0,
    ensures
        is_merged_front(out@, a@, b@),
{
    // Walk both from the high end of `first`; keep what raises `second`.
    let mut down = buffer;
    let mut i: usize = a.len();
    let mut j: usize = b.len();
    while i > 0 || j > 0
        invariant
            i <= a.len(),
            j <= b.len(),
            is_front(a@),
            is_front(b@),
            forall|k: int, l: int|
                0 <= k < l < down@.len() ==> (#[trigger] down@[k]).first > (
                #[trigger] down@[l]).first && down@[k].second < down@[l].second,
            down@.len() > 0 && i > 0 ==> a@[i - 1].first < down@[down@.len() - 1].first,
            down@.len() > 0 && j > 0 ==> b@[j - 1].first < down@[down@.len() - 1].first,
            forall|k: int|
                0 <= k < down@.len() ==> a@.contains(#[trigger] down@[k]) || b@.contains(down@[k]),
            forall|x: int| i <= x < a@.len() ==> covered(down@, #[trigger] a@[x]),
            forall|y: int| j <= y < b@.len() ==> covered(down@, #[trigger] b@[y]),
        decreases i + j,
    {
        let ghost before = down@;
        let ghost i0 = i as int;
        let ghost j0 = j as int;
        let c: ParetoValue;
        if j == 0 || (i > 0 && a[i - 1].first > b[j - 1].first) {
            c = a[i - 1];
            i -= 1;
        } else if i == 0 || b[j - 1].first > a[i - 1].first {
            c = b[j - 1];
            j -= 1;
        } else {
            c = if a[i - 1].second >= b[j - 1].second {
                a[i - 1]
            } else {
                b[j - 1]
            };
            i -= 1;
            j -= 1;
        }
        proof {
            assert(a@.contains(c) || b@.contains(c));
            if i < i0 {
                assert(dominates(c, a@[i as int]));
                if i > 0 {
                    assert(a@[i - 1].first < a@[i as int].first);
                }
            }
            if j < j0 {
                assert(dominates(c, b@[j as int]));
                if j > 0 {
                    assert(b@[j - 1].first < b@[j as int].first);
                }
            }
        }
        let n = down.len();
        if n == 0 || c.second > down[n - 1].second {
            down.push(c);
            proof {
                assert(down@ == before.push(c));
                assert forall|k: int, l: int| 0 <= k < l < down@.len() implies (
                #[trigger] down@[k]).first > (#[trigger] down@[l]).first && down@[k].second
                    < down@[l].second by {
                    if l == n {
                        if k < n - 1 {
                            assert(before[k].first > before[n - 1].first);
                            assert(before[k].second < before[n - 1].second);
                        }
                    } else {
                        assert(before[k].first > before[l].first);
                    }
                }
                assert forall|k: int| 0 <= k < down@.len() implies a@.contains(
                    #[trigger] down@[k],
                ) || b@.contains(down@[k]) by {
                    if k < n {
                        assert(down@[k] == before[k]);
                    }
                }
                assert forall|x: int| i <= x < a@.len() implies covered(
                    down@,
                    #[trigger] a@[x],
                ) by {
                    lemma_covered_after_push(before, c, a@[x]);
                }
                assert forall|y: int| j <= y < b@.len() implies covered(
                    down@,
                    #[trigger] b@[y],
                ) by {
                    lemma_covered_after_push(before, c, b@[y]);
                }
            }
        } else {
            proof {
                assert(dominates(before[n - 1], c));
                assert(covered(before, c));
                assert forall|x: int| i <= x < a@.len() implies covered(
                    down@,
                    #[trigger] a@[x],
                ) by {
                    if x < i0 {
                        lemma_covered_transitive(before, c, a@[x]);
                    }
                }
                assert forall|y: int| j <= y < b@.len() implies covered(
                    down@,
                    #[trigger] b@[y],
                ) by {
                    if y < j0 {
                        lemma_covered_transitive(before, c, b@[y]);
                    }
                }
            }
        }
    }
    let ghost descending = down@;
    reverse_in_place(&mut down);
    proof {
        let n = descending.len() as int;
        assert forall|x: int, y: int| 0 <= x < y < down@.len() implies (#[trigger] down@[x]).first
            < (#[trigger] down@[y]).first && down@[x].second > down@[y].second by {
            assert(descending[n - 1 - y].first > descending[n - 1 - x].first);
        }
        assert forall|x: int| 0 <= x < down@.len() implies a@.contains(#[trigger] down@[x])
            || b@.contains(down@[x]) by {
            assert(down@[x] == descending[n - 1 - x]);
        }
        assert forall|x: int| 0 <= x < a@.len() implies covered(down@, #[trigger] a@[x]) by {
            let w = choose|w: int|
                0 <= w < descending.len() && dominates(#[trigger] descending[w], a@[x]);
            assert(down@[n - 1 - w] == descending[w]);
        }
        assert forall|y: int| 0 <= y < b@.len() implies covered(down@, #[trigger] b@[y]) by {
            let w = choose|w: int|
                0 <= w < descending.len() && dominates(#[trigger] descending[w], b@[y]);
            assert(down@[n - 1 - w] == descending[w]);
        }
    }
    down
}

/// Reverses the order of the points.
fn reverse_in_place(v: &mut Vec<ParetoValue>)
    ensures
        final(v)@.len() == old(v)@.len(),
        forall|x: int| 0 <= x < old(v)@.len() ==> final(v)@[x] == old(v)@[old(v)@.len() - 1 - x],
{
    let n = v.len();
    let mut i: usize = 0;
    let mut j: usize = n;
    while j - i >= 2
        invariant
            n == v@.len(),
            n == old(v)@.len(),
            i <= j,
            i + j == n,
            forall|x: int| 0 <= x < i ==> v@[x] == old(v)@[n - 1 - x],
            forall|x: int| j <= x < n ==> v@[x] == old(v)@[n - 1 - x],
            forall|x: int| i <= x < j ==> v@[x] == old(v)@[x],
        decreases j - i,
    {
        let low = v[i];
        let high = v[j - 1];
        v.set(i, high);
        v.set(j - 1, low);
        i += 1;
        j -= 1;
    }
}

/// Whether a front lies within the caps: its last point has the most
/// progress and its first the most quality.
fn fits(v: &Vec<ParetoValue>, max_first: u16, max_second: u16) -> (r: bool)
    requires
        is_front(v@),
    ensures
        r == within(v@, max_first, max_second),
{
    let n = v.len();
    if n == 0 {
        return true;
    }
    let r = v[n - 1].first <= max_first && v[0].second <= max_second;
    proof {
        if r {
            assert forall|i: int| 0 <= i < v@.len() implies (#[trigger] v@[i]).first <= max_first
                && v@[i].second <= max_second by {
                if i < n - 1 {
                    assert(v@[i].first < v@[n - 1].first);
                }
                if i > 0 {
                    assert(v@[0].second > v@[i].second);
                }
            }
        }
    }
    r
}

/// A front within the caps is its own front after a move by nothing.
proof fn lemma_within_is_own_shift(f: Seq<ParetoValue>, max_first: u16, max_second: u16)
    requires
        is_front(f),
        within(f, max_first, max_second),
    ensures
        is_shifted_front(f, f, 0, 0, max_first, max_second),
{
    assert forall|k: int| 0 <= k < f.len() implies is_shift_of(
        #[trigger] f[k],
        f,
        0,
        0,
        max_first,
        max_second,
    ) && covered(f, shifted(f[k], 0, 0, max_first, max_second)) by {
        reveal(is_shift_of);
        assert(f[k] == shifted(f[k], 0, 0, max_first, max_second));
        assert(dominates(f[k], f[k]));
    }
}

/// A front merged with nothing is itself.
proof fn lemma_merge_with_empty(f: Seq<ParetoValue>)
    requires
        is_front(f),
    ensures
        is_merged_front(f, f, Seq::empty()),
        is_merged_front(f, Seq::empty(), f),
{
    assert forall|k: int| 0 <= k < f.len() implies f.contains(#[trigger] f[k]) && covered(
        f,
        f[k],
    ) by {
        assert(dominates(f[k], f[k]));
    }
}

fn copy_front(src: &[ParetoValue], buffer: Vec<ParetoValue>) -> (out: Vec<ParetoValue>)
    requires
        buffer@.len() == 0,
    ensures
        out@ == src@,
{
    let mut out = buffer;
    let mut i: usize = 0;
    while i < src.len()
        invariant
            i <= src.len(),
            out@ == src@.take(i as int),
        decreases src.len() - i,
    {
        out.push(src[i]);
        proof {
            assert(src@.take(i + 1) =~= src@.take(i as int).push(src@[i as int]));
        }
        i += 1;
    }
    proof {
        assert(src@.take(src@.len() as int) =~= src@);
    }
    out
}

/// `v` held at the caps.
pub open spec fn clamped(v: ParetoValue, max_first: u16, max_second: u16) -> ParetoValue {
    shifted(v, 0, 0, max_first, max_second)
}

/// `v` is a point of `a` or of `b`, held at the caps.
#[verifier::opaque]
pub open spec fn is_clamp_of_either(
    v: ParetoValue,
    a: Seq<ParetoValue>,
    b: Seq<ParetoValue>,
    max_first: u16,
    max_second: u16,
) -> bool {
    exists|x: ParetoValue|
        (a.contains(x) || b.contains(x)) && v == #[trigger] clamped(x, max_first, max_second)
}

/// `out` is the front of the points of `a` and `b` together, each held at
/// the caps: a front within the caps, made of such points, that covers each
/// of them.
pub open spec fn is_clamped_union(
    out: Seq<ParetoValue>,
    a: Seq<ParetoValue>,
    b: Seq<ParetoValue>,
    max_first: u16,
    max_second: u16,
) -> bool {
    &&& is_front(out)
    &&& within(out, max_first, max_second)
    &&& forall|k: int|
        0 <= k < out.len() ==> is_clamp_of_either(#[trigger] out[k], a, b, max_first, max_second)
    &&& forall|i: int|
        0 <= i < a.len() ==> covered(out, clamped(#[trigger] a[i], max_first, max_second))
    &&& forall|j: int|
        0 <= j < b.len() ==> covered(out, clamped(#[trigger] b[j], max_first, max_second))
}

/// Two fronts held at the caps and then merged give the front of their
/// points together, each held at the caps.
proof fn lemma_clamped_union(
    lower: Seq<ParetoValue>,
    upper: Seq<ParetoValue>,
    a: Seq<ParetoValue>,
    b: Seq<ParetoValue>,
    merged: Seq<ParetoValue>,
    mf: u16,
    ms: u16,
)
    requires
        is_shifted_front(a, lower, 0, 0, mf, ms),
        is_shifted_front(b, upper, 0, 0, mf, ms),
        is_merged_front(merged, a, b),
    ensures
        is_clamped_union(merged, lower, upper, mf, ms),
{
    assert forall|k: int| 0 <= k < merged.len() implies (#[trigger] merged[k]).first <= mf
        && merged[k].second <= ms && is_clamp_of_either(merged[k], lower, upper, mf, ms) by {
        let v = merged[k];
        reveal(is_shift_of);
        reveal(is_clamp_of_either);
        if a.contains(v) {
            let p = choose|p: int| 0 <= p < a.len() && a[p] == v;
            assert(is_shift_of(a[p], lower, 0, 0, mf, ms));
            let q = choose|q: int|
                0 <= q < lower.len() && v == shifted(#[trigger] lower[q], 0, 0, mf, ms);
            assert(lower.contains(lower[q]));
            assert(v == clamped(lower[q], mf, ms));
        } else {
            let p = choose|p: int| 0 <= p < b.len() && b[p] == v;
            assert(is_shift_of(b[p], upper, 0, 0, mf, ms));
            let q = choose|q: int|
                0 <= q < upper.len() && v == shifted(#[trigger] upper[q], 0, 0, mf, ms);
            assert(upper.contains(upper[q]));
            assert(v == clamped(upper[q], mf, ms));
        }
    }
    assert forall|i: int| 0 <= i < lower.len() implies covered(
        merged,
        clamped(#[trigger] lower[i], mf, ms),
    ) by {
        let w = clamped(lower[i], mf, ms);
        assert(covered(a, shifted(lower[i], 0, 0, mf, ms)));
        let p = choose|p: int| 0 <= p < a.len() && dominates(#[trigger] a[p], w);
        assert(covered(merged, a[p]));
        lemma_covered_transitive(merged, a[p], w);
    }
    assert forall|j: int| 0 <= j < upper.len() implies covered(
        merged,
        clamped(#[trigger] upper[j], mf, ms),
    ) by {
        let w = clamped(upper[j], mf, ms);
        assert(covered(b, shifted(upper[j], 0, 0, mf, ms)));
        let p = choose|p: int| 0 <= p < b.len() && dominates(#[trigger] b[p], w);
        assert(covered(merged, b[p]));
        lemma_covered_transitive(merged, b[p], w);
    }
}

/// A move of a front has one result.
pub proof fn lemma_shifted_front_is_unique(
    x: Seq<ParetoValue>,
    y: Seq<ParetoValue>,
    src: Seq<ParetoValue>,
    delta_first: u32,
    delta_second: u32,
    max_first: u16,
    max_second: u16,
)
    requires
        is_shifted_front(x, src, delta_first, delta_second, max_first, max_second),
        is_shifted_front(y, src, delta_first, delta_second, max_first, max_second),
    ensures
        x == y,
{
    lemma_shifted_covers(x, y, src, delta_first, delta_second, max_first, max_second);
    lemma_shifted_covers(y, x, src, delta_first, delta_second, max_first, max_second);
    lemma_front_is_unique(x, y);
}

proof fn lemma_shifted_covers(
    x: Seq<ParetoValue>,
    y: Seq<ParetoValue>,
    src: Seq<ParetoValue>,
    delta_first: u32,
    delta_second: u32,
    max_first: u16,
    max_second: u16,
)
    requires
        forall|k: int|
            0 <= k < y.len() ==> is_shift_of(
                #[trigger] y[k],
                src,
                delta_first,
                delta_second,
                max_first,
                max_second,
            ),
        forall|j: int|
            0 <= j < src.len() ==> covered(
                x,
                shifted(#[trigger] src[j], delta_first, delta_second, max_first, max_second),
            ),
    ensures
        covers_all(x, y),
{
    assert forall|k: int| 0 <= k < y.len() implies covered(x, #[trigger] y[k]) by {
        assert(is_shift_of(y[k], src, delta_first, delta_second, max_first, max_second));
        reveal(is_shift_of);
        let j = choose|j: int|
            0 <= j < src.len() && y[k] == shifted(
                #[trigger] src[j],
                delta_first,
                delta_second,
                max_first,
                max_second,
            );
        assert(covered(x, shifted(src[j], delta_first, delta_second, max_first, max_second)));
    }
    reveal(covers_all);
}

/// A merge at the caps has one result.
pub proof fn lemma_clamped_union_is_unique(
    x: Seq<ParetoValue>,
    y: Seq<ParetoValue>,
    a: Seq<ParetoValue>,
    b: Seq<ParetoValue>,
    max_first: u16,
    max_second: u16,
)
    requires
        is_clamped_union(x, a, b, max_first, max_second),
        is_clamped_union(y, a, b, max_first, max_second),
    ensures
        x == y,
{
    lemma_clamped_covers(x, y, a, b, max_first, max_second);
    lemma_clamped_covers(y, x, a, b, max_first, max_second);
    lemma_front_is_unique(x, y);
}

proof fn lemma_clamped_covers(
    x: Seq<ParetoValue>,
    y: Seq<ParetoValue>,
    a: Seq<ParetoValue>,
    b: Seq<ParetoValue>,
    max_first: u16,
    max_second: u16,
)
    requires
        forall|k: int|
            0 <= k < y.len() ==> is_clamp_of_either(#[trigger] y[k], a, b, max_first, max_second),
        forall|i: int|
            0 <= i < a.len() ==> covered(x, clamped(#[trigger] a[i], max_first, max_second)),
        forall|j: int|
            0 <= j < b.len() ==> covered(x, clamped(#[trigger] b[j], max_first, max_second)),
    ensures
        covers_all(x, y),
{
    assert forall|k: int| 0 <= k < y.len() implies covered(x, #[trigger] y[k]) by {
        assert(is_clamp_of_either(y[k], a, b, max_first, max_second));
        reveal(is_clamp_of_either);
        let p = choose|p: ParetoValue|
            (a.contains(p) || b.contains(p)) && y[k] == #[trigger] clamped(
                p,
                max_first,
                max_second,
            );
        if a.contains(p) {
            let i = choose|i: int| 0 <= i < a.len() && a[i] == p;
            assert(covered(x, clamped(a[i], max_first, max_second)));
        } else {
            let j = choose|j: int| 0 <= j < b.len() && b[j] == p;
            assert(covered(x, clamped(b[j], max_first, max_second)));
        }
    }
    reveal(covers_all);
}

/// A stack of fronts with two caps: scratch space in which fronts are
/// shifted and merged.
pub struct ParetoFrontBuilder {
    stack: Vec<Vec<ParetoValue>>,
    /// Emptied vectors that wait to be used again.
    spare: Vec<Vec<ParetoValue>>,
    max_first: u16,
    max_second: u16,
}

impl View for ParetoFrontBuilder {
    type V = Seq<Seq<ParetoValue>>;

    /// The fronts on the stack, the top one last.
    closed spec fn view(&self) -> Seq<Seq<ParetoValue>> {
        Seq::new(self.stack@.len(), |i: int| self.stack@[i]@)
    }
}

impl ParetoFrontBuilder {
    pub closed spec fn spec_max_first(&self) -> u16 {
        self.max_first
    }

    pub closed spec fn spec_max_second(&self) -> u16 {
        self.max_second
    }

    /// Every segment on the stack is a front.
    pub open spec fn wf(&self) -> bool {
        forall|k: int| 0 <= k < self@.len() ==> is_front(#[trigger] self@[k])
    }

    /// The top front.
    pub open spec fn top(&self) -> Seq<ParetoValue>
        recommends
            self@.len() > 0,
    {
        self@[self@.len() - 1]
    }

    pub fn new(max_first: u16, max_second: u16) -> (r: ParetoFrontBuilder)
        ensures
            r@.len() == 0,
            r.wf(),
            r.spec_max_first() == max_first,
            r.spec_max_second() == max_second,
    {
        ParetoFrontBuilder { stack: Vec::new(), spare: Vec::new(), max_first, max_second }
    }

    pub fn max_first(&self) -> (r: u16)
        ensures
            r == self.spec_max_first(),
    {
        self.max_first
    }

    pub fn max_second(&self) -> (r: u16)
        ensures
            r == self.spec_max_second(),
    {
        self.max_second
    }

    /// An empty vector: the spare one that was put back last, emptied and
    /// taken out of the spare ones, or a new one if none is spare.
    fn take_buffer(&mut self) -> (buffer: Vec<ParetoValue>)
        ensures
            buffer@ == Seq::<ParetoValue>::empty(),
            final(self).spare@ == (if old(self).spare@.len() > 0 {
                old(self).spare@.drop_last()
            } else {
                old(self).spare@
            }),
            final(self).stack == old(self).stack,
            final(self).max_first == old(self).max_first,
            final(self).max_second == old(self).max_second,
    {
        match self.spare.pop() {
            Some(mut buffer) => {
                buffer.clear();
                buffer
            },
            None => Vec::new(),
        }
    }

    /// Number of fronts on the stack.
    pub fn len(&self) -> (r: usize)
        ensures
            r == self@.len(),
    {
        self.stack.len()
    }

    /// Empties the stack.
    pub fn clear(&mut self)
        ensures
            final(self)@.len() == 0,
            final(self).wf(),
            final(self).spec_max_first() == old(self).spec_max_first(),
            final(self).spec_max_second() == old(self).spec_max_second(),
    {
        while self.stack.len() > 0
            invariant
                self.max_first == old(self).max_first,
                self.max_second == old(self).max_second,
            decreases self.stack.len(),
        {
            let used = self.stack.pop().unwrap();
            self.spare.push(used);
        }
    }

    /// Starts a new, empty front on top.
    pub fn push_empty(&mut self)
        requires
            old(self).wf(),
        ensures
            final(self)@ == old(self)@.push(Seq::empty()),
            final(self).wf(),
            final(self).spec_max_first() == old(self).spec_max_first(),
            final(self).spec_max_second() == old(self).spec_max_second(),
    {
        let buffer = self.take_buffer();
        assert(buffer@ =~= Seq::<ParetoValue>::empty());
        self.stack.push(buffer);
        proof {
            assert(self@ =~= old(self)@.push(Seq::empty()));
        }
    }

    /// Puts a copy of the given front on top.
    pub fn push(&mut self, values: &[ParetoValue])
        requires
            old(self).wf(),
            is_front(values@),
        ensures
            final(self)@ == old(self)@.push(values@),
            final(self).wf(),
            final(self).spec_max_first() == old(self).spec_max_first(),
            final(self).spec_max_second() == old(self).spec_max_second(),
    {
        let buffer = self.take_buffer();
        self.stack.push(copy_front(values, buffer));
        proof {
            assert(self@ =~= old(self)@.push(values@));
        }
    }

    /// Puts on top the given front moved by the offsets: what [`push`] and
    /// then [`map`] would leave there.
    ///
    /// [`push`]: ParetoFrontBuilder::push
    /// [`map`]: ParetoFrontBuilder::map
    pub fn push_shifted(&mut self, values: &[ParetoValue], delta_first: u32, delta_second: u32)
        requires
            old(self).wf(),
            is_front(values@),
        ensures
            final(self)@.len() == old(self)@.len() + 1,
            final(self)@ == old(self)@.push(final(self).top()),
            is_shifted_front(
                final(self).top(),
                values@,
                delta_first,
                delta_second,
                final(self).spec_max_first(),
                final(self).spec_max_second(),
            ),
            final(self).wf(),
            final(self).spec_max_first() == old(self).spec_max_first(),
            final(self).spec_max_second() == old(self).spec_max_second(),
    {
        let buffer = self.take_buffer();
        let moved = shift_clamp(
            values,
            delta_first,
            delta_second,
            self.max_first,
            self.max_second,
            buffer,
        );
        self.stack.push(moved);
        proof {
            assert(self@ =~= old(self)@.push(moved@));
            assert forall|k: int| 0 <= k < self@.len() implies is_front(#[trigger] self@[k]) by {
                if k < self@.len() - 1 {
                    assert(self@[k] == old(self)@[k]);
                }
            }
        }
    }

    /// Moves every point of the top front by the offsets. What passes a cap
    /// is held there, and what is then dominated leaves the front.
    pub fn map(&mut self, delta_first: u32, delta_second: u32)
        requires
            old(self).wf(),
            old(self)@.len() > 0,
        ensures
            final(self)@.len() == old(self)@.len(),
            final(self)@ == old(self)@.drop_last().push(final(self).top()),
            is_shifted_front(
                final(self).top(),
                old(self).top(),
                delta_first,
                delta_second,
                final(self).spec_max_first(),
                final(self).spec_max_second(),
            ),
            final(self).wf(),
            final(self).spec_max_first() == old(self).spec_max_first(),
            final(self).spec_max_second() == old(self).spec_max_second(),
    {
        proof {
            assert(is_front(self@[self@.len() - 1]));
        }
        let top = self.stack.pop().unwrap();
        let buffer = self.take_buffer();
        let moved = shift_clamp(
            top.as_slice(),
            delta_first,
            delta_second,
            self.max_first,
            self.max_second,
            buffer,
        );
        self.spare.push(top);
        self.stack.push(moved);
        proof {
            assert(self@ =~= old(self)@.drop_last().push(moved@));
            assert forall|k: int| 0 <= k < self@.len() implies is_front(#[trigger] self@[k]) by {
                if k < self@.len() - 1 {
                    assert(self@[k] == old(self)@[k]);
                }
            }
        }
    }

    /// The front held at the caps: the front itself where it lies within them.
    fn held_at_caps(&mut self, front: Vec<ParetoValue>) -> (out: Vec<ParetoValue>)
        requires
            is_front(front@),
        ensures
            is_shifted_front(out@, front@, 0, 0, old(self).max_first, old(self).max_second),
            final(self).stack == old(self).stack,
            final(self).max_first == old(self).max_first,
            final(self).max_second == old(self).max_second,
    {
        if fits(&front, self.max_first, self.max_second) {
            proof {
                lemma_within_is_own_shift(front@, self.max_first, self.max_second);
            }
            front
        } else {
            let buffer = self.take_buffer();
            let held = shift_clamp(front.as_slice(), 0, 0, self.max_first, self.max_second, buffer);
            self.spare.push(front);
            held
        }
    }

    /// The front of the points of two fronts together.
    fn merged(&mut self, a: Vec<ParetoValue>, b: Vec<ParetoValue>) -> (out: Vec<ParetoValue>)
        requires
            is_front(a@),
            is_front(b@),
        ensures
            is_merged_front(out@, a@, b@),
            final(self).stack == old(self).stack,
            final(self).max_first == old(self).max_first,
            final(self).max_second == old(self).max_second,
    {
        proof {
            lemma_merge_with_empty(a@);
            lemma_merge_with_empty(b@);
        }
        if b.len() == 0 {
            assert(b@ =~= Seq::empty());
            self.spare.push(b);
            a
        } else if a.len() == 0 {
            assert(a@ =~= Seq::empty());
            self.spare.push(a);
            b
        } else {
            let buffer = self.take_buffer();
            let both = merge_fronts(a.as_slice(), b.as_slice(), buffer);
            self.spare.push(a);
            self.spare.push(b);
            both
        }
    }

    /// Replaces the two top fronts by the front of their points together,
    /// each held at the caps. In the front that is left no point dominates
    /// another.
    pub fn merge(&mut self)
        requires
            old(self).wf(),
            old(self)@.len() >= 2,
        ensures
            final(self)@.len() == old(self)@.len() - 1,
            final(self)@ == old(self)@.drop_last().drop_last().push(final(self).top()),
            is_clamped_union(
                final(self).top(),
                old(self)@[old(self)@.len() - 2],
                old(self)@[old(self)@.len() - 1],
                final(self).spec_max_first(),
                final(self).spec_max_second(),
            ),
            forall|i: int, j: int|
                0 <= i < final(self).top().len() && 0 <= j < final(self).top().len() && i != j
                    ==> !dominates(#[trigger] final(self).top()[i], #[trigger] final(self).top()[j]),
            final(self).wf(),
            final(self).spec_max_first() == old(self).spec_max_first(),
            final(self).spec_max_second() == old(self).spec_max_second(),
    {
        proof {
            assert(is_front(self@[self@.len() - 1]));
            assert(is_front(self@[self@.len() - 2]));
        }
        let upper = self.stack.pop().unwrap();
        let lower = self.stack.pop().unwrap();
        let ghost upper_view = upper@;
        let ghost lower_view = lower@;
        let a = self.held_at_caps(lower);
        let b = self.held_at_caps(upper);
        let ghost a_view = a@;
        let ghost b_view = b@;
        let merged = self.merged(a, b);
        self.stack.push(merged);
        proof {
            assert(self@ =~= old(self)@.drop_last().drop_last().push(merged@));
            assert forall|k: int| 0 <= k < self@.len() implies is_front(#[trigger] self@[k]) by {
                if k < self@.len() - 1 {
                    assert(self@[k] == old(self)@[k]);
                }
            }
            lemma_clamped_union(
                lower_view,
                upper_view,
                a_view,
                b_view,
                merged@,
                self.max_first,
                self.max_second,
            );
            assert(lower_view == old(self)@[old(self)@.len() - 2]);
            assert(upper_view == old(self)@[old(self)@.len() - 1]);
            assert(self.top() == merged@);
            assert forall|i: int, j: int|
                0 <= i < merged@.len() && 0 <= j < merged@.len() && i != j implies !dominates(
                #[trigger] merged@[i],
                #[trigger] merged@[j],
            ) by {
                lemma_front_is_antichain(merged@, i, j);
            }
        }
    }

    /// A copy of the top front, or `None` on an empty stack.
    pub fn peek(&self) -> (r: Option<Vec<ParetoValue>>)
        ensures
            self@.len() == 0 ==> r is None,
            self@.len() > 0 ==> r is Some && r.unwrap()@ == self.top(),
    {
        let n = self.stack.len();
        if n == 0 {
            None
        } else {
            Some(copy_front(self.stack[n - 1].as_slice(), Vec::new()))
        }
    }

    /// Whether the top front is the single point at both caps: nothing
    /// that is merged into it can change it any more.
    pub fn is_max(&self) -> (r: bool)
        ensures
            r == (self@.len() > 0 && self.top() == seq![
                ParetoValue { first: self.spec_max_first(), second: self.spec_max_second() },
            ]),
    {
        let n = self.stack.len();
        if n == 0 {
            return false;
        }
        let top = &self.stack[n - 1];
        let r = top.len() == 1 && top[0].first == self.max_first && top[0].second
            == self.max_second;
        proof {
            let corner = ParetoValue { first: self.max_first, second: self.max_second };
            if r {
                assert(self.top() =~= seq![corner]);
            } else if self.top() == seq![corner] {
                assert(self.top().len() == 1);
                assert(self.top()[0] == corner);
            }
        }
        r
    }
}

} // verus!
