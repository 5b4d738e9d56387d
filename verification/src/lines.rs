//! From byte offsets to lines and columns.
use memchr::memchr_iter;
use vstd::prelude::*;

verus! {

/// The byte that ends a line.
pub const LINE_FEED: u8 = 10;

/// `memchr::memchr_iter`, drained: the offsets at which `needle` stands, all of them, ascending.
#[verifier::external_body]
fn offsets_of(needle: u8, bytes: &[u8]) -> (offsets: Vec<usize>)
    ensures
        forall|i: int|
            0 <= i < offsets@.len() ==> #[trigger] offsets@[i] < bytes@.len() && bytes@[offsets@[i] as int]
                == needle,
        forall|i: int, j: int| 0 <= i < j < offsets@.len() ==> offsets@[i] < offsets@[j],
        forall|k: usize| k < bytes@.len() && #[trigger] bytes@[k as int] == needle ==> offsets@.contains(k),
{
    memchr_iter(needle, bytes).collect()
}

/// Whether a line starts at `k` behind a line feed. A line feed at the very end starts none.
pub open spec fn starts_line(bytes: Seq<u8>, k: int) -> bool {
    0 < k < bytes.len() && bytes[k - 1] == LINE_FEED
}

/// Where the line that holds offset `k` starts.
pub open spec fn line_start(bytes: Seq<u8>, k: int) -> int
    decreases k,
{
    if k <= 0 || starts_line(bytes, k) {
        k
    } else {
        line_start(bytes, k - 1)
    }
}

/// The number of the line that holds offset `k`, from 1.
pub open spec fn line_number(bytes: Seq<u8>, k: int) -> int
    decreases k,
{
    if k <= 0 {
        1
    } else if starts_line(bytes, k) {
        line_number(bytes, k - 1) + 1
    } else {
        line_number(bytes, k - 1)
    }
}

/// The column of offset `k` in its line, in bytes, from 1.
pub open spec fn column(bytes: Seq<u8>, k: int) -> int {
    k - line_start(bytes, k) + 1
}

/// A line starts at the beginning or behind a line feed, at or before each offset that it holds, and
/// no other line starts between the two.
pub proof fn law_line_start(bytes: Seq<u8>, k: int)
    requires
        0 <= k,
    ensures
        0 <= line_start(bytes, k) <= k,
        line_start(bytes, k) == 0 || starts_line(bytes, line_start(bytes, k)),
        forall|m: int| line_start(bytes, k) < m <= k ==> !starts_line(bytes, m),
        line_number(bytes, k) == line_number(bytes, line_start(bytes, k)),
    decreases k,
{
    if k > 0 && !starts_line(bytes, k) {
        law_line_start(bytes, k - 1);
    }
}

/// Two offsets with the same line and column are the same offset.
pub proof fn law_positions_are_distinct(bytes: Seq<u8>, a: int, b: int)
    requires
        0 <= a,
        0 <= b,
        line_number(bytes, a) == line_number(bytes, b),
        column(bytes, a) == column(bytes, b),
    ensures
        a == b,
{
    law_line_start(bytes, a);
    law_line_start(bytes, b);
    let first = line_start(bytes, a);
    let second = line_start(bytes, b);
    if first < second {
        lemma_line_number_grows(bytes, first, second - 1);
    } else if second < first {
        lemma_line_number_grows(bytes, second, first - 1);
    }
}

proof fn lemma_line_number_grows(bytes: Seq<u8>, a: int, b: int)
    requires
        0 <= a <= b,
    ensures
        1 <= line_number(bytes, a) <= line_number(bytes, b) <= b + 1,
    decreases b,
{
    if a < b {
        lemma_line_number_grows(bytes, a, b - 1);
    } else if a > 0 {
        lemma_line_number_grows(bytes, a - 1, a - 1);
    }
}

/// Whether `starts` lists, ascending, where the lines of a source start.
pub open spec fn are_line_starts(bytes: Seq<u8>, starts: Seq<usize>) -> bool {
    &&& starts.len() > 0
    &&& starts[0] == 0
    &&& forall|i: int, j: int| 0 <= i < j < starts.len() ==> starts[i] < starts[j]
    &&& forall|i: int| 0 < i < starts.len() ==> #[trigger] starts_line(bytes, starts[i] as int)
    &&& forall|k: int| #[trigger]
        starts_line(bytes, k) ==> exists|i: int| 0 <= i < starts.len() && #[trigger] starts[i] == k
}

/// The line starts of a source, with the place at which the last lookup ended.
pub struct LineIndex<'a> {
    pub bytes: &'a [u8],
    pub line_starts: Vec<usize>,
    pub cursor: usize,
}

impl<'a> LineIndex<'a> {
    /// The starts are those of the source, and the cursor is one of their places.
    pub open spec fn wf(&self) -> bool {
        &&& self.cursor < self.line_starts@.len()
        &&& are_line_starts(self.bytes@, self.line_starts@)
    }

    proof fn lemma_line(&self, i: int, k: int)
        requires
            self.wf(),
            0 <= i < self.line_starts@.len(),
            self.line_starts@[i] <= k,
            i + 1 < self.line_starts@.len() ==> k < self.line_starts@[i + 1],
        ensures
            line_start(self.bytes@, k) == self.line_starts@[i],
            line_number(self.bytes@, k) == i + 1,
        decreases k,
    {
        if k > self.line_starts@[i] {
            if starts_line(self.bytes@, k) {
                let m = choose|m: int|
                    0 <= m < self.line_starts@.len() && #[trigger] self.line_starts@[m] == k;
                if m < i {
                } else if m > i + 1 {
                    assert(self.line_starts@[i + 1] < self.line_starts@[m]);
                }
                assert(false);
            }
            self.lemma_line(i, k - 1);
        } else if k > 0 {
            assert(i > 0);
            assert(starts_line(self.bytes@, self.line_starts@[i] as int));
            assert(self.line_starts@[i - 1] < self.line_starts@[i]);
            self.lemma_line(i - 1, k - 1);
        }
    }

    /// The index of a source.
    pub fn new(bytes: &'a [u8]) -> (index: Self)
        ensures
            index.wf(),
            index.bytes@ == bytes@,
    {
        let line_starts = build_line_starts(bytes);
        LineIndex { bytes, line_starts, cursor: 0 }
    }

    /// The line and the column of a byte offset, both from 1.
    pub fn line_col_at(&mut self, offset: u32) -> (position: (usize, usize))
        requires
            old(self).wf(),
            offset < u32::MAX,
        ensures
            final(self).wf(),
            final(self).bytes == old(self).bytes,
            position.0 == line_number(old(self).bytes@, offset as int),
            position.1 == column(old(self).bytes@, offset as int),
            final(self).line_starts == old(self).line_starts,
            final(self).cursor == position.0 - 1,
    {
        let offset = offset as usize;
        let ghost source = self.bytes;
        let mut place: usize = self.cursor;
        if offset < self.line_starts[place] {
            // The lines up to `low` start at or before the offset, those from `high` on behind it.
            let mut low: usize = 0;
            let mut high: usize = place;
            while high - low > 1
                invariant
                    self.wf(),
                    self.bytes == source,
                    low < high < self.line_starts@.len(),
                    self.line_starts@[low as int] <= offset < self.line_starts@[high as int],
                decreases high - low,
            {
                let middle = low + (high - low) / 2;
                if self.line_starts[middle] <= offset {
                    low = middle;
                } else {
                    high = middle;
                }
            }
            place = low;
        } else {
            while place < self.line_starts.len() - 1 && self.line_starts[place + 1] <= offset
                invariant
                    self.wf(),
                    self.bytes == source,
                    place < self.line_starts@.len(),
                    self.line_starts@[place as int] <= offset,
                decreases self.line_starts@.len() - place,
            {
                place = place + 1;
            }
        }
        self.cursor = place;
        proof {
            self.lemma_line(place as int, offset as int);
        }
        (place + 1, offset - self.line_starts[place] + 1)
    }
}

/// Where the lines of a source start: at its beginning and behind each line feed that does not
/// end it.
pub fn build_line_starts(bytes: &[u8]) -> (starts: Vec<usize>)
    ensures
        are_line_starts(bytes@, starts@),
{
    let feeds = offsets_of(LINE_FEED, bytes);
    let length = bytes.len();
    let mut starts: Vec<usize> = Vec::new();
    starts.push(0);
    let mut i: usize = 0;
    while i < feeds.len()
        invariant
            i <= feeds@.len(),
            length == bytes@.len(),
            forall|n: int|
                0 <= n < feeds@.len() ==> #[trigger] feeds@[n] < bytes@.len() && bytes@[feeds@[n] as int]
                    == LINE_FEED,
            forall|n: int, m: int| 0 <= n < m < feeds@.len() ==> feeds@[n] < feeds@[m],
            starts@.len() >= 1,
            starts@[0] == 0,
            forall|n: int, m: int| 0 <= n < m < starts@.len() ==> starts@[n] < starts@[m],
            forall|n: int| 0 < n < starts@.len() ==> #[trigger] starts_line(bytes@, starts@[n] as int),
            starts@.len() > 1 ==> i > 0 && starts@.last() <= feeds@[i - 1] + 1,
            forall|n: int|
                0 <= n < i && #[trigger] feeds@[n] + 1 < bytes@.len() ==> exists|m: int|
                    0 <= m < starts@.len() && #[trigger] starts@[m] == feeds@[n] + 1,
        decreases feeds@.len() - i,
    {
        let feed = feeds[i];
        let ghost before = starts@;
        if feed < length - 1 {
            starts.push(feed + 1);
            assert(starts@.last() == feed + 1);
            assert forall|n: int|
                0 <= n < i + 1 && #[trigger] feeds@[n] + 1 < bytes@.len() implies exists|m: int|
                0 <= m < starts@.len() && #[trigger] starts@[m] == feeds@[n] + 1 by {
                if n < i {
                    let m = choose|m: int|
                        0 <= m < before.len() && #[trigger] before[m] == feeds@[n] + 1;
                    assert(starts@[m] == feeds@[n] + 1);
                } else {
                    assert(starts@[starts@.len() - 1] == feeds@[n] + 1);
                }
            }
        }
        i = i + 1;
    }
    assert forall|k: int| #[trigger] starts_line(bytes@, k) implies exists|m: int|
        0 <= m < starts@.len() && #[trigger] starts@[m] == k by {
        let before = (k - 1) as usize;
        assert(bytes@[before as int] == LINE_FEED);
        assert(feeds@.contains(before));
        let n = choose|n: int| 0 <= n < feeds@.len() && feeds@[n] == before;
        assert(feeds@[n] + 1 < bytes@.len());
    }
    starts
}

/// How many lines start among offsets `1..=k`.
pub open spec fn lines_started(bytes: Seq<u8>, k: int) -> int
    decreases k,
{
    if k <= 0 {
        0
    } else {
        lines_started(bytes, k - 1) + (if k < bytes.len() && bytes[k - 1] == 10 {
            1int
        } else {
            0
        })
    }
}

/// Lines and columns count from one: the line of an offset is one more than the line feeds before it, a
/// last one at the very end left out, and its column one more than the bytes since the line began.
pub proof fn law_positions_count_from_one(bytes: Seq<u8>, k: int)
    requires
        0 <= k,
    ensures
        line_number(bytes, k) == 1 + lines_started(bytes, k),
        column(bytes, line_start(bytes, k)) == 1,
        column(bytes, k) == 1 + (k - line_start(bytes, k)),
    decreases k,
{
    law_line_start(bytes, k);
    if k > 0 {
        law_positions_count_from_one(bytes, k - 1);
    }
}

} // verus!
