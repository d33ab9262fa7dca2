//! Sets of byte positions, kept as sorted lists of maximal ranges.

use vstd::prelude::*;

verus! {

/// Whether position `p` lies in one of the half-open ranges.
pub open spec fn covered(xs: Seq<(u64, u64)>, p: int) -> bool {
    exists|i: int| 0 <= i < xs.len() && (#[trigger] xs[i]).0 <= p < xs[i].1
}

/// The ranges are not empty, stand in ascending order, and neither overlap nor
/// touch.
pub open spec fn canonical(xs: Seq<(u64, u64)>) -> bool {
    &&& forall|i: int| 0 <= i < xs.len() ==> (#[trigger] xs[i]).0 < xs[i].1
    &&& forall|i: int, j: int|
        0 <= i < j < xs.len() ==> (#[trigger] xs[i]).1 < (#[trigger] xs[j]).0
}

pub open spec fn lesser(a: u64, b: u64) -> u64 {
    if a <= b {
        a
    } else {
        b
    }
}

pub open spec fn greater(a: u64, b: u64) -> u64 {
    if a >= b {
        a
    } else {
        b
    }
}

/// The list with the range from `start` to `end` put in, merged with every range
/// that it overlaps or touches.
pub open spec fn merged(xs: Seq<(u64, u64)>, start: u64, end: u64) -> Seq<(u64, u64)>
    decreases xs.len(),
{
    if xs.len() == 0 {
        seq![(start, end)]
    } else if xs[0].1 < start {
        seq![xs[0]] + merged(xs.drop_first(), start, end)
    } else if end < xs[0].0 {
        seq![(start, end)] + xs
    } else {
        merged(xs.drop_first(), lesser(start, xs[0].0), greater(end, xs[0].1))
    }
}

/// The list after inserting a range; an empty range changes nothing.
pub open spec fn inserted(xs: Seq<(u64, u64)>, start: u64, end: u64) -> Seq<(u64, u64)> {
    if start >= end {
        xs
    } else {
        merged(xs, start, end)
    }
}

/// The maximal ranges of positions from `lower` to `upper` that are not covered.
pub open spec fn uncovered(xs: Seq<(u64, u64)>, lower: u64, upper: u64) -> Seq<(u64, u64)>
    decreases xs.len(),
{
    if lower >= upper {
        seq![]
    } else if xs.len() == 0 || xs[0].0 >= upper {
        seq![(lower, upper)]
    } else if xs[0].1 <= lower {
        uncovered(xs.drop_first(), lower, upper)
    } else if xs[0].0 <= lower {
        uncovered(xs.drop_first(), xs[0].1, upper)
    } else {
        seq![(lower, xs[0].0)] + uncovered(xs.drop_first(), xs[0].1, upper)
    }
}

/// The ranges, each by its start and its length.
pub open spec fn by_length(xs: Seq<(u64, u64)>) -> Seq<(u64, u64)> {
    xs.map_values(|x: (u64, u64)| (x.0, (x.1 - x.0) as u64))
}

/// The sum of the lengths of the ranges.
pub open spec fn total(xs: Seq<(u64, u64)>) -> int
    decreases xs.len(),
{
    if xs.len() == 0 {
        0
    } else {
        total(xs.drop_last()) + (xs.last().1 - xs.last().0)
    }
}

proof fn lemma_drop_first(xs: Seq<(u64, u64)>)
    requires
        xs.len() > 0,
    ensures
        canonical(xs) ==> canonical(xs.drop_first()),
        forall|p: int|
            covered(xs, p) <==> (xs[0].0 <= p < xs[0].1) || #[trigger] covered(xs.drop_first(), p),
{
    let rest = xs.drop_first();
    assert forall|p: int| covered(xs, p) <==> (xs[0].0 <= p < xs[0].1) || #[trigger] covered(
        rest,
        p,
    ) by {
        if covered(xs, p) && !(xs[0].0 <= p < xs[0].1) {
            let i = choose|i: int| 0 <= i < xs.len() && (#[trigger] xs[i]).0 <= p < xs[i].1;
            assert(rest[i - 1] == xs[i]);
        }
        if covered(rest, p) {
            let i = choose|i: int| 0 <= i < rest.len() && (#[trigger] rest[i]).0 <= p < rest[i].1;
            assert(rest[i] == xs[i + 1]);
        }
    }
}

proof fn lemma_prepend(x: (u64, u64), xs: Seq<(u64, u64)>)
    ensures
        x.0 < x.1 && canonical(xs) && (xs.len() > 0 ==> x.1 < xs[0].0) ==> canonical(
            seq![x] + xs,
        ),
        forall|p: int|
            #[trigger] covered(seq![x] + xs, p) <==> (x.0 <= p < x.1) || covered(xs, p),
{
    let ys = seq![x] + xs;
    assert(ys.drop_first() == xs);
    lemma_drop_first(ys);
    assert forall|p: int| #[trigger] covered(ys, p) <==> (x.0 <= p < x.1) || covered(xs, p) by {
        assert(covered(ys.drop_first(), p) == covered(xs, p));
    }
    if x.0 < x.1 && canonical(xs) && (xs.len() > 0 ==> x.1 < xs[0].0) {
        assert forall|i: int, j: int| 0 <= i < j < ys.len() implies (#[trigger] ys[i]).1 < (
        #[trigger] ys[j]).0 by {
            assert(ys[j] == xs[j - 1]);
            if i > 0 {
                assert(ys[i] == xs[i - 1]);
            } else if j > 1 {
                assert(xs[0].1 < xs[j - 1].0);
            }
        }
    }
}

proof fn lemma_merged(xs: Seq<(u64, u64)>, start: u64, end: u64)
    requires
        canonical(xs),
        start < end,
    ensures
        canonical(merged(xs, start, end)),
        merged(xs, start, end).len() > 0,
        merged(xs, start, end).len() <= xs.len() + 1,
        merged(xs, start, end)[0].0 >= lesser(
            start,
            if xs.len() > 0 {
                xs[0].0
            } else {
                start
            },
        ),
        forall|p: int|
            #[trigger] covered(merged(xs, start, end), p) <==> covered(xs, p) || start <= p < end,
    decreases xs.len(),
{
    if xs.len() == 0 {
        lemma_prepend((start, end), xs);
        assert(seq![(start, end)] + xs == seq![(start, end)]);
    } else {
        let rest = xs.drop_first();
        lemma_drop_first(xs);
        if xs[0].1 < start {
            lemma_merged(rest, start, end);
            lemma_prepend(xs[0], merged(rest, start, end));
        } else if end < xs[0].0 {
            lemma_prepend((start, end), xs);
        } else {
            lemma_merged(rest, lesser(start, xs[0].0), greater(end, xs[0].1));
        }
    }
}

/// Inserting a range keeps the list canonical and adds exactly the positions of
/// the range.
pub proof fn insert_adds_the_range(xs: Seq<(u64, u64)>, start: u64, end: u64)
    requires
        canonical(xs),
    ensures
        canonical(inserted(xs, start, end)),
        inserted(xs, start, end).len() <= xs.len() + 1,
        forall|p: int|
            #[trigger] covered(inserted(xs, start, end), p) <==> covered(xs, p) || start <= p < end,
{
    if start < end {
        lemma_merged(xs, start, end);
    }
}

proof fn lemma_uncovered(xs: Seq<(u64, u64)>, lower: u64, upper: u64)
    requires
        canonical(xs),
    ensures
        canonical(uncovered(xs, lower, upper)),
        uncovered(xs, lower, upper).len() > 0 ==> uncovered(xs, lower, upper)[0].0 >= lower,
        uncovered(xs, lower, upper).len() <= xs.len() + 1,
        forall|p: int|
            #[trigger] covered(uncovered(xs, lower, upper), p) <==> lower <= p < upper && !covered(
                xs,
                p,
            ),
    decreases xs.len(),
{
    let none = Seq::<(u64, u64)>::empty();
    if lower >= upper {
    } else if xs.len() == 0 || xs[0].0 >= upper {
        lemma_prepend((lower, upper), none);
        assert(seq![(lower, upper)] + none == seq![(lower, upper)]);
        assert forall|p: int| lower <= p < upper implies !covered(xs, p) by {
            if covered(xs, p) {
                let i = choose|i: int| 0 <= i < xs.len() && (#[trigger] xs[i]).0 <= p < xs[i].1;
                assert(xs[0].0 <= xs[i].0);
            }
        }
    } else {
        let rest = xs.drop_first();
        lemma_drop_first(xs);
        assert forall|p: int| p <= xs[0].1 implies !covered(rest, p) by {
            lemma_rest_above(xs, p);
        }
        if xs[0].1 <= lower {
            lemma_uncovered(rest, lower, upper);
        } else {
            lemma_uncovered(rest, xs[0].1, upper);
            let more = uncovered(rest, xs[0].1, upper);
            if xs[0].0 > lower {
                lemma_prepend((lower, xs[0].0), more);
            }
        }
    }
}

/// The gaps in a window form a canonical list of exactly the positions of the
/// window that are not covered.
pub proof fn gaps_are_the_complement(xs: Seq<(u64, u64)>, lower: u64, upper: u64)
    requires
        canonical(xs),
    ensures
        canonical(uncovered(xs, lower, upper)),
        forall|p: int|
            #[trigger] covered(uncovered(xs, lower, upper), p) <==> lower <= p < upper && !covered(
                xs,
                p,
            ),
        forall|i: int|
            0 <= i < uncovered(xs, lower, upper).len() ==> lower <= (#[trigger] uncovered(
                xs,
                lower,
                upper,
            )[i]).0 < uncovered(xs, lower, upper)[i].1 <= upper,
{
    lemma_uncovered(xs, lower, upper);
    let gaps = uncovered(xs, lower, upper);
    assert forall|i: int| 0 <= i < gaps.len() implies lower <= (#[trigger] gaps[i]).0 < gaps[i].1
        <= upper by {
        assert(covered(gaps, gaps[i].0 as int));
        assert(covered(gaps, gaps[i].1 - 1));
    }
}

/// A set of positions has one canonical list: the order in which ranges were
/// inserted, and how often, leaves no trace.
pub proof fn canonical_list_is_unique(xs: Seq<(u64, u64)>, ys: Seq<(u64, u64)>)
    requires
        canonical(xs),
        canonical(ys),
        forall|p: int| #[trigger] covered(xs, p) <==> covered(ys, p),
    ensures
        xs == ys,
    decreases xs.len(),
{
    if xs.len() == 0 {
        if ys.len() > 0 {
            assert(covered(ys, ys[0].0 as int));
            assert(covered(xs, ys[0].0 as int));
        }
    } else {
        assert(covered(xs, xs[0].0 as int));
        assert(covered(ys, xs[0].0 as int));
        assert(ys.len() > 0);
        assert(covered(ys, ys[0].0 as int));
        assert(covered(xs, ys[0].0 as int));
        lemma_first_is_least(xs, ys[0].0 as int);
        lemma_first_is_least(ys, xs[0].0 as int);
        lemma_first_end(xs);
        lemma_first_end(ys);
        if xs[0].1 < ys[0].1 {
            assert(covered(ys, xs[0].1 as int));
            assert(covered(xs, xs[0].1 as int));
        }
        if ys[0].1 < xs[0].1 {
            assert(covered(xs, ys[0].1 as int));
            assert(covered(ys, ys[0].1 as int));
        }
        assert(xs[0] == ys[0]);
        lemma_drop_first(xs);
        lemma_drop_first(ys);
        assert forall|p: int| #[trigger] covered(xs.drop_first(), p) <==> covered(
            ys.drop_first(),
            p,
        ) by {
            lemma_rest_above(xs, p);
            lemma_rest_above(ys, p);
            assert(covered(xs, p) <==> covered(ys, p));
        }
        canonical_list_is_unique(xs.drop_first(), ys.drop_first());
        assert(xs == seq![xs[0]] + xs.drop_first());
        assert(ys == seq![ys[0]] + ys.drop_first());
    }
}

proof fn lemma_first_is_least(xs: Seq<(u64, u64)>, p: int)
    requires
        canonical(xs),
        covered(xs, p),
    ensures
        xs.len() > 0,
        xs[0].0 <= p,
{
    let i = choose|i: int| 0 <= i < xs.len() && (#[trigger] xs[i]).0 <= p < xs[i].1;
    assert(xs[0].0 <= xs[i].0);
}

proof fn lemma_first_end(xs: Seq<(u64, u64)>)
    requires
        canonical(xs),
        xs.len() > 0,
    ensures
        !covered(xs, xs[0].1 as int),
{
    let p = xs[0].1 as int;
    if covered(xs, p) {
        let i = choose|i: int| 0 <= i < xs.len() && (#[trigger] xs[i]).0 <= p < xs[i].1;
        assert(i > 0);
        assert(xs[0].1 < xs[i].0);
    }
}

proof fn lemma_rest_above(xs: Seq<(u64, u64)>, p: int)
    requires
        canonical(xs),
        xs.len() > 0,
    ensures
        covered(xs.drop_first(), p) ==> p > xs[0].1,
{
    let rest = xs.drop_first();
    if covered(rest, p) {
        let i = choose|i: int| 0 <= i < rest.len() && (#[trigger] rest[i]).0 <= p < rest[i].1;
        assert(rest[i] == xs[i + 1]);
        assert(xs[0].1 < xs[i + 1].0);
    }
}

proof fn lemma_total(xs: Seq<(u64, u64)>)
    requires
        canonical(xs),
    ensures
        0 <= total(xs),
        xs.len() > 0 ==> total(xs) <= xs.last().1 - xs[0].0,
    decreases xs.len(),
{
    if xs.len() > 0 {
        let head = xs.drop_last();
        lemma_total(head);
        if head.len() > 0 {
            assert(head.last() == xs[xs.len() - 2]);
            assert(head[0] == xs[0]);
        }
    }
}

/// The set of the covered positions.
pub open spec fn positions(xs: Seq<(u64, u64)>) -> Set<int> {
    Set::new(|p: int| covered(xs, p))
}

/// The total coverage is the number of covered positions.
pub proof fn total_counts_positions(xs: Seq<(u64, u64)>)
    requires
        canonical(xs),
    ensures
        positions(xs).finite(),
        positions(xs).len() == total(xs),
    decreases xs.len(),
{
    if xs.len() == 0 {
        assert(positions(xs) =~= Set::<int>::empty());
    } else {
        let head = xs.drop_last();
        let (s, e) = xs.last();
        let range = vstd::set_lib::set_int_range(s as int, e as int);
        total_counts_positions(head);
        vstd::set_lib::lemma_int_range(s as int, e as int);
        assert(positions(xs) =~= positions(head).union(range)) by {
            assert forall|p: int| covered(xs, p) <==> covered(head, p) || s <= p < e by {
                if covered(xs, p) && !(s <= p < e) {
                    let i = choose|i: int| 0 <= i < xs.len() && (#[trigger] xs[i]).0 <= p < xs[i].1;
                    assert(head[i] == xs[i]);
                }
                if covered(head, p) {
                    let i = choose|i: int|
                        0 <= i < head.len() && (#[trigger] head[i]).0 <= p < head[i].1;
                    assert(head[i] == xs[i]);
                }
                if s <= p < e {
                    assert(xs[xs.len() - 1].0 <= p);
                }
            }
        }
        assert(positions(head).disjoint(range)) by {
            assert forall|p: int| covered(head, p) implies p < s by {
                let i = choose|i: int|
                    0 <= i < head.len() && (#[trigger] head[i]).0 <= p < head[i].1;
                assert(head[i] == xs[i]);
                assert(xs[i].1 < xs[xs.len() - 1].0);
            }
        }
        vstd::set_lib::lemma_set_disjoint_lens(positions(head), range);
    }
}

/// Inserting ranges in another order gives the same list.
pub proof fn insert_order_does_not_matter(
    xs: Seq<(u64, u64)>,
    a: (u64, u64),
    b: (u64, u64),
)
    requires
        canonical(xs),
    ensures
        inserted(inserted(xs, a.0, a.1), b.0, b.1) == inserted(inserted(xs, b.0, b.1), a.0, a.1),
{
    insert_adds_the_range(xs, a.0, a.1);
    insert_adds_the_range(xs, b.0, b.1);
    insert_adds_the_range(inserted(xs, a.0, a.1), b.0, b.1);
    insert_adds_the_range(inserted(xs, b.0, b.1), a.0, a.1);
    let ab = inserted(inserted(xs, a.0, a.1), b.0, b.1);
    let ba = inserted(inserted(xs, b.0, b.1), a.0, a.1);
    assert forall|p: int| #[trigger] covered(ab, p) <==> covered(ba, p) by {
        assert(covered(inserted(xs, a.0, a.1), p) <==> covered(xs, p) || a.0 <= p < a.1);
        assert(covered(inserted(xs, b.0, b.1), p) <==> covered(xs, p) || b.0 <= p < b.1);
    }
    canonical_list_is_unique(ab, ba);
}

/// Inserting a range whose positions are all covered changes nothing.
pub proof fn insert_of_covered_range_changes_nothing(xs: Seq<(u64, u64)>, start: u64, end: u64)
    requires
        canonical(xs),
        forall|p: int| start <= p < end ==> #[trigger] covered(xs, p),
    ensures
        inserted(xs, start, end) == xs,
{
    insert_adds_the_range(xs, start, end);
    canonical_list_is_unique(inserted(xs, start, end), xs);
}

/// Tracks received byte extents in ascending order, merging adjacent extents.
///
/// The map stores non-overlapping, non-adjacent ranges as `start..end` (exclusive).
/// When a new range is inserted, it is merged with any overlapping or touching
/// existing ranges so that the map always maintains its invariant: no two entries
/// overlap or are adjacent (i.e., the end of one equals the start of another).
#[derive(Debug)]
pub struct ExtentMap {
    extents: Vec<(u64, u64)>,
}

impl View for ExtentMap {
    type V = Seq<(u64, u64)>;

    closed spec fn view(&self) -> Seq<(u64, u64)> {
        self.extents@
    }
}

impl Clone for ExtentMap {
    fn clone(&self) -> (r: Self)
        ensures
            r@ == self@,
    {
        ExtentMap { extents: vstd::slice::slice_to_vec(self.extents.as_slice()) }
    }
}

impl Default for ExtentMap {
    fn default() -> (r: Self)
        ensures
            r.wf(),
            r@ == Seq::<(u64, u64)>::empty(),
    {
        ExtentMap::new()
    }
}

impl ExtentMap {
    /// The extents form a canonical list.
    pub open spec fn wf(&self) -> bool {
        canonical(self@)
    }

    /// Creates a new, empty extent map.
    pub fn new() -> (r: Self)
        ensures
            r.wf(),
            r@ == Seq::<(u64, u64)>::empty(),
    {
        ExtentMap { extents: Vec::new() }
    }

    /// Inserts the byte range `[start, end)` into the map, merging with any
    /// overlapping or adjacent existing ranges.
    ///
    /// After insertion, the map maintains its invariant that no entries overlap
    /// or touch. If `start >= end`, this is a no-op.
    pub fn insert(&mut self, start: u64, end: u64)
        requires
            old(self).wf(),
        ensures
            final(self).wf(),
            final(self)@ == inserted(old(self)@, start, end),
            forall|p: int| #[trigger]
                covered(final(self)@, p) <==> covered(old(self)@, p) || start <= p < end,
    {
        proof {
            insert_adds_the_range(self@, start, end);
        }
        if start >= end {
            return ;
        }
        let mut new_start: u64 = start;
        let mut new_end: u64 = end;
        let ghost before = self.extents@;
        // Skip the extents that end before the range without touching it.
        let mut at: usize = 0;
        assert(before.take(0) + merged(before.skip(0), start, end) == merged(before, start, end))
            by {
            assert(before.skip(0) == before);
        }
        while at < self.extents.len() && self.extents[at].1 < start
            invariant
                at <= self.extents@.len(),
                self.extents@ == before,
                before.take(at as int) + merged(before.skip(at as int), start, end) == merged(
                    before,
                    start,
                    end,
                ),
            decreases self.extents@.len() - at,
        {
            proof {
                let more = before.skip(at as int);
                assert(more.drop_first() == before.skip(at + 1));
                assert(before.take(at as int) + (seq![more[0]] + merged(
                    more.drop_first(),
                    start,
                    end,
                )) == before.take(at + 1) + merged(before.skip(at + 1), start, end));
            }
            at = at + 1;
        }
        let ghost left = before.take(at as int);
        let ghost target = merged(before, start, end);
        assert(self.extents@ == left + before.skip(at as int));
        assert(at < before.len() ==> before.skip(at as int)[0] == before[at as int]);
        // Absorb the extents that overlap the merged range or are adjacent to it.
        while at < self.extents.len() && self.extents[at].0 <= new_end
            invariant
                at <= self.extents@.len(),
                left.len() == at,
                canonical(self.extents@),
                self.extents@.take(at as int) == left,
                new_start <= start < end <= new_end,
                at < self.extents@.len() ==> self.extents@[at as int].1 >= start,
                left + merged(self.extents@.skip(at as int), new_start, new_end) == target,
            decreases self.extents@.len(),
        {
            let (s, e) = self.extents[at];
            let ghost now = self.extents@;
            if s < new_start {
                new_start = s;
            }
            if e > new_end {
                new_end = e;
            }
            let _ = self.extents.remove(at);
            proof {
                assert(now.skip(at as int).drop_first() == self.extents@.skip(at as int));
                assert(self.extents@.take(at as int) == left);
                assert forall|i: int| 0 <= i < self.extents@.len() implies self.extents@[i]
                    == now[if i < at {
                    i
                } else {
                    i + 1
                }] by {}
            }
        }
        // Insert the merged extent.
        proof {
            assert(merged(self.extents@.skip(at as int), new_start, new_end) == seq![
                (new_start, new_end),
            ] + self.extents@.skip(at as int));
        }
        self.extents.insert(at, (new_start, new_end));
        assert(self.extents@ == target);
    }

    /// Returns the total number of bytes covered by all extents in the map.
    pub fn total_coverage(&self) -> (r: u64)
        requires
            self.wf(),
        ensures
            r == total(self@),
            r == positions(self@).len(),
    {
        let mut sum: u64 = 0;
        let mut i: usize = 0;
        assert(self@.take(0) == Seq::<(u64, u64)>::empty());
        while i < self.extents.len()
            invariant
                self.wf(),
                i <= self@.len(),
                sum == total(self@.take(i as int)),
            decreases self@.len() - i,
        {
            let (s, e) = self.extents[i];
            proof {
                let head = self@.take(i + 1);
                assert(head.drop_last() == self@.take(i as int));
                lemma_total(head);
            }
            sum = sum + (e - s);
            i = i + 1;
        }
        proof {
            assert(self@.take(i as int) == self@);
            total_counts_positions(self@);
        }
        sum
    }

    /// Returns the uncovered (gap) ranges within `[lower, upper)`.
    ///
    /// Each returned tuple `(gap_start, gap_end)` represents a range of bytes
    /// not covered by any extent in the map, where `lower <= gap_start < gap_end <= upper`.
    pub fn gaps(&self, lower: u64, upper: u64) -> (r: Vec<(u64, u64)>)
        requires
            self.wf(),
        ensures
            r@ == uncovered(self@, lower, upper),
            canonical(r@),
            forall|p: int| #[trigger]
                covered(r@, p) <==> lower <= p < upper && !covered(self@, p),
    {
        proof {
            lemma_uncovered(self@, lower, upper);
        }
        let mut result: Vec<(u64, u64)> = Vec::new();
        let mut cursor: u64 = lower;
        let mut i: usize = 0;
        assert(self@.skip(0) == self@);
        while i < self.extents.len() && self.extents[i].0 < upper
            invariant
                i <= self@.len(),
                result@ + uncovered(self@.skip(i as int), cursor, upper) == uncovered(
                    self@,
                    lower,
                    upper,
                ),
            decreases self@.len() - i,
        {
            let (s, e) = self.extents[i];
            let ghost rest = self@.skip(i as int);
            assert(rest.drop_first() == self@.skip(i + 1));
            if e > cursor {
                if s > cursor {
                    // There's a gap from cursor to s.
                    proof {
                        let more = uncovered(rest.drop_first(), e, upper);
                        assert(result@ + (seq![(cursor, s)] + more) == result@.push((cursor, s))
                            + more);
                    }
                    result.push((cursor, s));
                }
                cursor = e;
            }
            i = i + 1;
        }
        // If there's remaining uncovered space at the end.
        if cursor < upper {
            result.push((cursor, upper));
        }
        assert(result@ == uncovered(self@, lower, upper));
        result
    }

    /// Returns `true` if the range `[lower, upper)` is fully covered by extents.
    pub fn is_complete(&self, lower: u64, upper: u64) -> (r: bool)
        requires
            self.wf(),
        ensures
            r == (uncovered(self@, lower, upper).len() == 0),
            r <==> (forall|p: int| lower <= p < upper ==> covered(self@, p)),
    {
        proof {
            complete_means_no_gaps(self@, lower, upper);
        }
        if lower >= upper {
            return true;
        }
        self.gaps(lower, upper).is_empty()
    }

    /// Returns all extents as `(start, length)` pairs, ordered by start offset.
    ///
    /// This is used for generating reception claims in Report Segments.
    pub fn claims(&self) -> (r: Vec<(u64, u64)>)
        requires
            self.wf(),
        ensures
            r@ == by_length(self@),
    {
        let mut result: Vec<(u64, u64)> = Vec::new();
        let mut i: usize = 0;
        while i < self.extents.len()
            invariant
                self.wf(),
                i <= self@.len(),
                result@.len() == i,
                forall|k: int|
                    0 <= k < i ==> result@[k] == (self@[k].0, (self@[k].1 - self@[k].0) as u64),
            decreases self@.len() - i,
        {
            let (s, e) = self.extents[i];
            result.push((s, e - s));
            i = i + 1;
        }
        assert(result@ == self@.map_values(|x: (u64, u64)| (x.0, (x.1 - x.0) as u64)));
        result
    }

    /// Returns the number of disjoint extents in the map.
    pub fn extent_count(&self) -> (r: usize)
        ensures
            r == self@.len(),
    {
        self.extents.len()
    }

    /// Returns `true` if the map contains no extents.
    pub fn is_empty(&self) -> (r: bool)
        ensures
            r == (self@.len() == 0),
    {
        self.extents.is_empty()
    }
}

/// A window has no gaps exactly when each of its positions is covered.
pub proof fn complete_means_no_gaps(xs: Seq<(u64, u64)>, lower: u64, upper: u64)
    requires
        canonical(xs),
    ensures
        uncovered(xs, lower, upper).len() == 0 <==> (forall|p: int|
            lower <= p < upper ==> covered(xs, p)),
{
    lemma_uncovered(xs, lower, upper);
    let gaps = uncovered(xs, lower, upper);
    if gaps.len() > 0 {
        assert(covered(gaps, gaps[0].0 as int));
    } else {
        assert forall|p: int| lower <= p < upper implies covered(xs, p) by {
            assert(!covered(gaps, p));
        }
    }
}

/// Inserting a range and asking for gaps, in plain terms. The ranges of a list are
/// not empty, ascend, and do not touch. Then so are those after inserting a range,
/// and they hold exactly the positions that the list held or the range holds; and
/// so are the gaps of a window, and they hold exactly the positions of the window
/// that the list does not.
pub proof fn ranges_hold_what_was_inserted(
    xs: Seq<(u64, u64)>,
    start: u64,
    end: u64,
    p: int,
)
    requires
        forall|i: int| 0 <= i < xs.len() ==> (#[trigger] xs[i]).0 < xs[i].1,
        forall|i: int, j: int|
            0 <= i < j < xs.len() ==> (#[trigger] xs[i]).1 < (#[trigger] xs[j]).0,
    ensures
        ({
            let ys = inserted(xs, start, end);
            let gaps = uncovered(xs, start, end);
            let held = exists|i: int| 0 <= i < xs.len() && (#[trigger] xs[i]).0 <= p < xs[i].1;
            &&& forall|i: int| 0 <= i < ys.len() ==> (#[trigger] ys[i]).0 < ys[i].1
            &&& forall|i: int, j: int|
                0 <= i < j < ys.len() ==> (#[trigger] ys[i]).1 < (#[trigger] ys[j]).0
            &&& (exists|i: int| 0 <= i < ys.len() && (#[trigger] ys[i]).0 <= p < ys[i].1) <==> (held
                || start <= p < end)
            &&& forall|i: int| 0 <= i < gaps.len() ==> (#[trigger] gaps[i]).0 < gaps[i].1
            &&& forall|i: int, j: int|
                0 <= i < j < gaps.len() ==> (#[trigger] gaps[i]).1 < (#[trigger] gaps[j]).0
            &&& (exists|i: int| 0 <= i < gaps.len() && (#[trigger] gaps[i]).0 <= p < gaps[i].1)
                <==> (start <= p < end && !held)
        }),
{
    insert_adds_the_range(xs, start, end);
    lemma_uncovered(xs, start, end);
    assert(covered(inserted(xs, start, end), p) <==> covered(xs, p) || start <= p < end);
    assert(covered(uncovered(xs, start, end), p) <==> start <= p < end && !covered(xs, p));
}

/// A range by its start and its length holds the positions from the start on, as
/// many as the length; none is left out, and their order is kept.
pub proof fn lengths_tell_the_ranges(xs: Seq<(u64, u64)>, p: int)
    requires
        canonical(xs),
    ensures
        ({
            let ls = by_length(xs);
            &&& ls.len() == xs.len()
            &&& forall|i: int|
                0 <= i < ls.len() ==> (#[trigger] ls[i]).1 > 0 && ls[i].0 == xs[i].0 && ls[i].0
                    + ls[i].1 == xs[i].1
            &&& covered(xs, p) <==> exists|i: int|
                0 <= i < ls.len() && (#[trigger] ls[i]).0 <= p < ls[i].0 + ls[i].1
        }),
{
    let ls = by_length(xs);
    assert forall|i: int| 0 <= i < ls.len() implies (#[trigger] ls[i]).1 > 0 && ls[i].0 == xs[i].0
        && ls[i].0 + ls[i].1 == xs[i].1 by {
        assert(xs[i].0 < xs[i].1);
    }
    if covered(xs, p) {
        let i = choose|i: int| 0 <= i < xs.len() && (#[trigger] xs[i]).0 <= p < xs[i].1;
        assert(ls[i].0 <= p < ls[i].0 + ls[i].1);
    }
    if exists|i: int| 0 <= i < ls.len() && (#[trigger] ls[i]).0 <= p < ls[i].0 + ls[i].1 {
        let i = choose|i: int|
            0 <= i < ls.len() && (#[trigger] ls[i]).0 <= p < ls[i].0 + ls[i].1;
        assert(xs[i].0 <= p < xs[i].1);
    }
}

} // verus!
