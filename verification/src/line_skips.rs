//! Three tiers of checkpoints over the line starts of a text.
//!
//! The table records the offset at which each line begins, in order, and
//! keeps every 11th of them in one tier, every 101st in a second and every
//! 1001st in a third. An entry of an upper tier links to the latest entry
//! that the tier below had when it was made. A lookup narrows from the
//! coarsest tier down and ends at a checkpoint fewer than 11 lines before
//! its target.

use vstd::prelude::*;

verus! {

/// Lines that the finest tier counts after a checkpoint before it takes
/// the next line as one.
pub const LINE_SKIP_THRESHOLD: usize = 10;

/// Lines that the middle tier counts after a checkpoint before it takes
/// the next line as one.
pub const HIGHER_LINE_SKIP_THRESHOLD: usize = 100;

/// Lines that the coarsest tier counts after a checkpoint before it takes
/// the next line as one.
pub const EXTRA_HIGHER_LINE_SKIP_THRESHOLD: usize = 1_000;

/// Distance in lines between two checkpoints of a tier with this threshold.
pub open spec fn period(threshold: usize) -> int {
    threshold + 1
}

/// A checkpoint of the finest tier.
#[derive(Clone, Copy)]
pub struct LineSkip {
    /// Line offset.
    pub offset: usize,
    /// Line number counting from one.
    pub line_number: usize,
}

/// A checkpoint of one of the two upper tiers.
#[derive(Clone, Copy)]
pub struct HigherLineSkip {
    /// Index to a `LineSkip`, or another `HigherLineSkip` in the case
    /// of extra higher line skips.
    pub skip_index: usize,
    /// Line offset.
    pub offset: usize,
    /// Line number counting from one.
    pub line_number: usize,
}

/// What a lookup narrows on: a byte offset or a line number.
#[derive(Clone, Copy)]
pub enum SkipTarget {
    Offset(usize),
    Line(usize),
}

impl SkipTarget {
    /// The target lies before a line with this start and number.
    pub open spec fn precedes(self, offset: int, line_number: int) -> bool {
        match self {
            SkipTarget::Offset(target) => target < offset,
            SkipTarget::Line(target) => target < line_number,
        }
    }

    /// Tells whether the target lies before a line with this start and number.
    pub fn is_before(self, offset: usize, line_number: usize) -> (b: bool)
        ensures
            b == self.precedes(offset as int, line_number as int),
    {
        match self {
            SkipTarget::Offset(target) => target < offset,
            SkipTarget::Line(target) => target < line_number,
        }
    }
}

/// The entries of the finest tier are the lines `1, 12, 23, ..` of `starts`.
pub open spec fn fine_tier(skips: Seq<LineSkip>, starts: Seq<int>) -> bool {
    let period = period(LINE_SKIP_THRESHOLD);
    &&& skips.len() == (starts.len() - 1) / period + 1
    &&& forall|j: int|
        0 <= j < skips.len() ==> (#[trigger] skips[j]).line_number == period * j + 1
            && skips[j].offset == starts[period * j]
}

/// The entries of an upper tier are the lines `1, period + 1, 2 * period + 1, ..`
/// of `starts`, each linked to the last entry at or before it in the tier
/// below, whose period is `below`.
pub open spec fn higher_tier(
    skips: Seq<HigherLineSkip>,
    starts: Seq<int>,
    period: int,
    below: int,
) -> bool {
    &&& skips.len() == (starts.len() - 1) / period + 1
    &&& forall|j: int|
        0 <= j < skips.len() ==> (#[trigger] skips[j]).line_number == period * j + 1
            && skips[j].offset == starts[period * j] && skips[j].skip_index == (period * j)
            / below
}

/// The entry with which each upper tier begins: the first line.
pub open spec fn first_higher_skip() -> HigherLineSkip {
    HigherLineSkip { skip_index: 0, offset: 0, line_number: 1 }
}

/// The entries of the finest tier ascend strictly in offset and in line
/// number.
pub open spec fn line_skips_ascend(skips: Seq<LineSkip>) -> bool {
    forall|i: int, j: int|
        0 <= i < j < skips.len() ==> (#[trigger] skips[i]).offset < (#[trigger] skips[j]).offset
            && skips[i].line_number < skips[j].line_number
}

/// The link of `skip` is an index into a tier of `len` entries, to an entry
/// for line `linked_line`, which is not behind the line of `skip`.
pub open spec fn links_to(skip: HigherLineSkip, len: nat, linked_line: usize) -> bool {
    skip.skip_index < len && linked_line <= skip.line_number
}

/// The entries of an upper tier ascend strictly in offset and in line number.
pub open spec fn higher_skips_ascend(skips: Seq<HigherLineSkip>) -> bool {
    forall|i: int, j: int|
        0 <= i < j < skips.len() ==> (#[trigger] skips[i]).offset < (#[trigger] skips[j]).offset
            && skips[i].line_number < skips[j].line_number
}

/// Line starts begin at zero, ascend strictly, and fit the machine, as does
/// their number.
pub open spec fn valid_starts(starts: Seq<int>) -> bool {
    &&& 1 <= starts.len() <= usize::MAX
    &&& starts[0] == 0
    &&& forall|i: int| 0 <= i < starts.len() ==> 0 <= #[trigger] starts[i] <= usize::MAX
    &&& forall|i: int, j: int|
        0 <= i < j < starts.len() ==> #[trigger] starts[i] < #[trigger] starts[j]
}

/// Scans an upper tier forward from entry `from` and returns the index of
/// the last entry that `target` does not precede; `from` itself where it
/// precedes the one after it.
fn last_higher_skip(skips: &Vec<HigherLineSkip>, from: usize, target: SkipTarget) -> (index: usize)
    requires
        from < skips.len(),
    ensures
        from <= index < skips.len(),
        index == from || !target.precedes(
            skips[index as int].offset as int,
            skips[index as int].line_number as int,
        ),
        index + 1 < skips.len() ==> target.precedes(
            skips[index + 1].offset as int,
            skips[index + 1].line_number as int,
        ),
{
    let mut index = from;
    while index + 1 < skips.len()
        invariant
            from <= index < skips.len(),
            index == from || !target.precedes(
                skips[index as int].offset as int,
                skips[index as int].line_number as int,
            ),
        decreases skips.len() - index,
    {
        let skip_1 = skips[index + 1];
        if target.is_before(skip_1.offset, skip_1.line_number) {
            return index;
        }
        index += 1;
    }
    index
}

/// Scans the finest tier forward from entry `from` and returns the index of
/// the last entry that `target` does not precede; `from` itself where it
/// precedes the one after it.
fn last_line_skip(skips: &Vec<LineSkip>, from: usize, target: SkipTarget) -> (index: usize)
    requires
        from < skips.len(),
    ensures
        from <= index < skips.len(),
        index == from || !target.precedes(
            skips[index as int].offset as int,
            skips[index as int].line_number as int,
        ),
        index + 1 < skips.len() ==> target.precedes(
            skips[index + 1].offset as int,
            skips[index + 1].line_number as int,
        ),
{
    let mut index = from;
    while index + 1 < skips.len()
        invariant
            from <= index < skips.len(),
            index == from || !target.precedes(
                skips[index as int].offset as int,
                skips[index as int].line_number as int,
            ),
        decreases skips.len() - index,
    {
        let skip_1 = skips[index + 1];
        if target.is_before(skip_1.offset, skip_1.line_number) {
            return index;
        }
        index += 1;
    }
    index
}

/// The line starts of a text, with every 11th, 101st and 1001st of them
/// kept as a checkpoint.
pub struct LineSkips {
    /// Collection of ascending line number *skips* used
    /// for optimizing retrieval of line numbers or line offsets.
    line_skips: Vec<LineSkip>,
    line_skips_counter: usize,
    /// Collection used before `line_skips` in line lookups
    /// to skip lines in a higher threshold.
    higher_line_skips: Vec<HigherLineSkip>,
    higher_line_skips_counter: usize,
    /// Collection used before `higher_line_skips` in line lookups
    /// to skip lines in an extra higher threshold.
    extra_higher_line_skips: Vec<HigherLineSkip>,
    extra_higher_line_skips_counter: usize,
    /// The start of every line recorded so far.
    starts: Ghost<Seq<int>>,
}

impl View for LineSkips {
    type V = Seq<int>;

    /// The offsets at which the recorded lines begin, in order.
    closed spec fn view(&self) -> Seq<int> {
        self.starts@
    }
}

impl LineSkips {
    /// The finest tier.
    pub closed spec fn line_skips(&self) -> Seq<LineSkip> {
        self.line_skips@
    }

    /// The middle tier.
    pub closed spec fn higher_line_skips(&self) -> Seq<HigherLineSkip> {
        self.higher_line_skips@
    }

    /// The coarsest tier.
    pub closed spec fn extra_higher_line_skips(&self) -> Seq<HigherLineSkip> {
        self.extra_higher_line_skips@
    }

    /// Lines recorded since each tier last took a checkpoint: for the finest,
    /// the middle and the coarsest tier, in this order.
    pub closed spec fn counters(&self) -> (int, int, int) {
        (
            self.line_skips_counter as int,
            self.higher_line_skips_counter as int,
            self.extra_higher_line_skips_counter as int,
        )
    }

    /// The tiers and counters are what recording the lines of the view, one
    /// by one, leaves behind.
    pub open spec fn wf(&self) -> bool {
        let starts = self@;
        &&& valid_starts(starts)
        &&& fine_tier(self.line_skips(), starts)
        &&& higher_tier(
            self.higher_line_skips(),
            starts,
            period(HIGHER_LINE_SKIP_THRESHOLD),
            period(LINE_SKIP_THRESHOLD),
        )
        &&& higher_tier(
            self.extra_higher_line_skips(),
            starts,
            period(EXTRA_HIGHER_LINE_SKIP_THRESHOLD),
            period(HIGHER_LINE_SKIP_THRESHOLD),
        )
        &&& self.counters() == (
            (starts.len() - 1) % period(LINE_SKIP_THRESHOLD),
            (starts.len() - 1) % period(HIGHER_LINE_SKIP_THRESHOLD),
            (starts.len() - 1) % period(EXTRA_HIGHER_LINE_SKIP_THRESHOLD),
        )
    }

    /// `skip` is the checkpoint that the finest tier holds for the line with
    /// its number.
    pub open spec fn holds(&self, skip: LineSkip) -> bool {
        &&& 1 <= skip.line_number <= self@.len()
        &&& (skip.line_number - 1) % period(LINE_SKIP_THRESHOLD) == 0
        &&& skip.offset == self@[skip.line_number - 1]
    }

    /// `skip` is the last checkpoint of the finest tier that `target` does
    /// not precede, or the first checkpoint where it precedes them all.
    pub open spec fn nearest(&self, skip: LineSkip, target: SkipTarget) -> bool {
        &&& self.holds(skip)
        &&& skip.line_number == 1 || !target.precedes(skip.offset as int, skip.line_number as int)
        &&& skip.line_number + period(LINE_SKIP_THRESHOLD) <= self@.len() ==> target.precedes(
            self@[skip.line_number - 1 + period(LINE_SKIP_THRESHOLD)],
            skip.line_number + period(LINE_SKIP_THRESHOLD),
        )
    }

    /// In a well-formed table every tier begins with the first line and
    /// ascends strictly in offset and in line number, and every link of an
    /// upper tier is an index into the tier below, to an entry that is not
    /// behind the one that holds the link.
    pub proof fn lemma_tiers_ascend(&self)
        requires
            self.wf(),
        ensures
            self.line_skips()[0] == (LineSkip { offset: 0, line_number: 1 }),
            self.higher_line_skips()[0] == first_higher_skip(),
            self.extra_higher_line_skips()[0] == first_higher_skip(),
            line_skips_ascend(self.line_skips()),
            higher_skips_ascend(self.higher_line_skips()),
            higher_skips_ascend(self.extra_higher_line_skips()),
            forall|j: int|
                0 <= j < self.higher_line_skips().len() ==> links_to(
                    #[trigger] self.higher_line_skips()[j],
                    self.line_skips().len(),
                    self.line_skips()[self.higher_line_skips()[j].skip_index as int].line_number,
                ),
            forall|j: int|
                0 <= j < self.extra_higher_line_skips().len() ==> links_to(
                    #[trigger] self.extra_higher_line_skips()[j],
                    self.higher_line_skips().len(),
                    self.higher_line_skips()[self.extra_higher_line_skips()[j].skip_index
                        as int].line_number,
                ),
    {
    }

    /// A table that records the first line alone, which begins at offset zero.
    pub fn new() -> (skips: Self)
        ensures
            skips.wf(),
            skips@ == seq![0int],
    {
        let ghost starts = seq![0int];
        LineSkips {
            line_skips: vec![LineSkip { offset: 0, line_number: 1 }],
            line_skips_counter: 0,
            higher_line_skips: vec![HigherLineSkip { skip_index: 0, offset: 0, line_number: 1 }],
            higher_line_skips_counter: 0,
            extra_higher_line_skips: vec![
                HigherLineSkip { skip_index: 0, offset: 0, line_number: 1 },
            ],
            extra_higher_line_skips_counter: 0,
            starts: Ghost(starts),
        }
    }

    /// Finds the checkpoint from which to scan for `target`: narrows through
    /// the coarsest tier, then from the entry it links to through the middle
    /// tier, then in the same way through the finest.
    pub fn lookup(&self, target: SkipTarget) -> (skip: LineSkip)
        requires
            self.wf(),
        ensures
            self.nearest(skip, target),
    {
        // Extra higher line skips
        let index = last_higher_skip(&self.extra_higher_line_skips, 0, target);
        let last_skip = self.extra_higher_line_skips[index];

        // Higher line skips
        let index = last_higher_skip(&self.higher_line_skips, last_skip.skip_index, target);
        let last_skip = self.higher_line_skips[index];

        // Line skips
        let index = last_line_skip(&self.line_skips, last_skip.skip_index, target);
        self.line_skips[index]
    }

    /// The checkpoint from which to scan for byte offset `offset`.
    pub fn skip_for_offset(&self, offset: usize) -> (skip: LineSkip)
        requires
            self.wf(),
        ensures
            self.nearest(skip, SkipTarget::Offset(offset)),
            skip.offset <= offset,
    {
        self.lookup(SkipTarget::Offset(offset))
    }

    /// The checkpoint from which to scan for line `line`.
    pub fn skip_for_line(&self, line: usize) -> (skip: LineSkip)
        requires
            self.wf(),
        ensures
            self.nearest(skip, SkipTarget::Line(line)),
            skip.line_number <= line || skip.line_number == 1,
    {
        self.lookup(SkipTarget::Line(line))
    }

    /// Records that line `line_number`, the next one, begins at `offset`.
    /// Each tier counts the line; a tier whose counter has reached its
    /// threshold takes the line as a checkpoint and starts counting anew.
    pub fn push_line_skip(&mut self, line_number: usize, offset: usize)
        requires
            old(self).wf(),
            line_number == old(self)@.len() + 1,
            offset > old(self)@.last(),
        ensures
            final(self).wf(),
            final(self)@ == old(self)@.push(offset as int),
    {
        let ghost starts = self.starts@.push(offset as int);
        let counter = self.line_skips_counter;
        if counter == LINE_SKIP_THRESHOLD {
            self.line_skips.push(LineSkip { line_number, offset });
            self.line_skips_counter = 0;
        } else {
            self.line_skips_counter = counter + 1;
        }

        let counter = self.higher_line_skips_counter;
        if counter == HIGHER_LINE_SKIP_THRESHOLD {
            self.higher_line_skips.push(
                HigherLineSkip { skip_index: self.line_skips.len() - 1, line_number, offset },
            );
            self.higher_line_skips_counter = 0;
        } else {
            self.higher_line_skips_counter = counter + 1;
        }

        let counter = self.extra_higher_line_skips_counter;
        if counter == EXTRA_HIGHER_LINE_SKIP_THRESHOLD {
            self.extra_higher_line_skips.push(
                HigherLineSkip {
                    skip_index: self.higher_line_skips.len() - 1,
                    line_number,
                    offset,
                },
            );
            self.extra_higher_line_skips_counter = 0;
        } else {
            self.extra_higher_line_skips_counter = counter + 1;
        }

        self.starts = Ghost(starts);
    }
}

} // verus!
