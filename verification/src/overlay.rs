//! The overlay of a recording: the levels that its bars show.

use vstd::prelude::*;

use crate::audio;

verus! {

/// The number of bars of the overlay.
pub const OVERLAY_BAR_COUNT: usize = 11;

/// The bit pattern of 0.05, the level that flat bars move by in silence.
pub const IDLE_LEVEL: u32 = 0x3d4c_cccd;

/// The last levels of a recording, each as the bits of a single-precision
/// number, the newest last, and the level that is added next.
#[derive(Debug)]
pub struct LevelHistory {
    pub levels: Vec<u32>,
    pub level: u32,
}

/// The last `count` of some levels, with zeros in front where there are fewer.
pub open spec fn last_levels(levels: Seq<u32>, count: nat) -> Seq<u32> {
    if levels.len() >= count {
        levels.skip(levels.len() - count)
    } else {
        Seq::new((count - levels.len()) as nat, |i: int| 0u32) + levels
    }
}

/// The louder of a level that was kept and the current one. What is no level
/// between 0.0 and 1.0 gives way to a kept one that is.
pub open spec fn louder(kept: u32, current: u32) -> u32 {
    if kept <= audio::ONE && (current > audio::ONE || current < kept) {
        kept
    } else {
        current
    }
}

/// Whether a level is zero, of either sign.
pub open spec fn silent(level: u32) -> bool {
    level == 0 || level == audio::SIGN
}

/// The levels that `count` bars show: the last ones that were kept, with the
/// current level in the newest bar as soon as it is louder.
pub open spec fn shown(history: LevelHistory, count: nat) -> Seq<u32> {
    let kept = last_levels(history.levels@, count);
    if count == 0 {
        kept
    } else {
        kept.update(count - 1, louder(kept.last(), history.level))
    }
}

fn is_silent(level: u32) -> (answer: bool)
    ensures
        answer == silent(level),
{
    level == 0 || level == audio::SIGN
}

/// Whether all levels are zero, so that one more zero would move no bar.
pub open spec fn flat(levels: Seq<u32>) -> bool {
    forall|i: int| 0 <= i < levels.len() ==> silent(#[trigger] levels[i])
}

/// The level that a step adds: the current one, or the idle level in silence
/// where all bars are flat.
pub open spec fn next_level(history: LevelHistory) -> u32 {
    if silent(history.level) && flat(history.levels@) {
        IDLE_LEVEL
    } else {
        history.level
    }
}

impl Default for LevelHistory {
    fn default() -> (history: Self)
        ensures
            history.is_fresh(),
            history.wf(),
    {
        let mut levels: Vec<u32> = Vec::new();
        for i in 0..OVERLAY_BAR_COUNT
            invariant
                levels@ == Seq::new(i as nat, |j: int| 0u32),
        {
            levels.push(0);
            assert(levels@ =~= Seq::new((i + 1) as nat, |j: int| 0u32));
        }
        LevelHistory { levels, level: 0 }
    }
}

impl LevelHistory {
    /// Whether no more levels are kept than there are bars.
    pub open spec fn wf(self) -> bool {
        self.levels@.len() <= OVERLAY_BAR_COUNT
    }

    /// Whether nothing was shown yet: every bar is at zero, and so is the current
    /// level.
    pub open spec fn is_fresh(self) -> bool {
        &&& self.levels@ == Seq::new(OVERLAY_BAR_COUNT as nat, |i: int| 0u32)
        &&& self.level == 0
    }

    /// Whether this is what a step makes of a history: the level that the step
    /// adds is the newest, and the oldest is forgotten where all bars are taken.
    pub open spec fn stepped_from(self, before: Self) -> bool {
        &&& self.level == before.level
        &&& self.levels@ == (if before.levels@.len() == OVERLAY_BAR_COUNT {
            before.levels@.skip(1)
        } else {
            before.levels@
        }).push(next_level(before))
    }

    /// Sets the current level, brought between 0.0 and 1.0.
    pub fn set_level(&mut self, level: u32)
        ensures
            *final(self) == (LevelHistory { level: audio::clamped_level(level), ..*old(self) }),
    {
        self.level = audio::clamp_level(level);
    }

    /// Moves the bars by one.
    pub fn advance(&mut self)
        requires
            old(self).wf(),
        ensures
            final(self).wf(),
            final(self).stepped_from(*old(self)),
    {
        let added: u32 = if is_silent(self.level) && self.is_flat() {
            IDLE_LEVEL
        } else {
            self.level
        };
        if self.levels.len() == OVERLAY_BAR_COUNT {
            let _ = self.levels.remove(0);
            assert(self.levels@ =~= old(self).levels@.skip(1));
        }
        self.levels.push(added);
    }

    fn is_flat(&self) -> (answer: bool)
        ensures
            answer == flat(self.levels@),
    {
        for i in 0..self.levels.len()
            invariant
                forall|j: int| 0 <= j < i ==> silent(#[trigger] self.levels@[j]),
        {
            if !is_silent(self.levels[i]) {
                assert(!silent(self.levels@[i as int]));
                return false;
            }
        }
        true
    }

    /// The levels that `count` bars show.
    pub fn newest(&self, count: usize) -> (levels: Vec<u32>)
        ensures
            levels@ == shown(*self, count as nat),
            levels@.len() == count,
    {
        let mut levels: Vec<u32> = self.kept_levels(count);
        if count > 0 {
            let kept: u32 = levels[count - 1];
            if !(kept <= audio::ONE && (self.level > audio::ONE || self.level < kept)) {
                levels.set(count - 1, self.level);
            }
        }
        assert(levels@ =~= shown(*self, count as nat));
        levels
    }

    fn kept_levels(&self, count: usize) -> (levels: Vec<u32>)
        ensures
            levels@ == last_levels(self.levels@, count as nat),
            levels@.len() == count,
    {
        let mut levels: Vec<u32> = Vec::new();
        let have: usize = self.levels.len();
        let mut start: usize = 0;
        if have >= count {
            start = have - count;
        } else {
            for i in 0..count - have
                invariant
                    levels@ == Seq::new(i as nat, |j: int| 0u32),
            {
                levels.push(0);
                assert(levels@ =~= Seq::new((i + 1) as nat, |j: int| 0u32));
            }
        }
        let ghost zeros = levels@;
        for i in start..have
            invariant
                start <= have == self.levels@.len(),
                levels@ == zeros + self.levels@.subrange(start as int, i as int),
        {
            levels.push(self.levels[i]);
            assert(self.levels@.subrange(start as int, i + 1) == self.levels@.subrange(
                start as int,
                i as int,
            ).push(self.levels@[i as int]));
        }
        assert(levels@ =~= last_levels(self.levels@, count as nat));
        levels
    }
}

/// A level that is louder than the newest bar is shown there at once, and moves
/// no other bar.
pub proof fn louder_level_shows_at_once(before: LevelHistory, level: u32, count: nat)
    requires
        count > 0,
        shown(before, count).last() < audio::clamped_level(level) <= audio::ONE,
    ensures
        ({
            let after = LevelHistory { level: audio::clamped_level(level), ..before };
            &&& shown(after, count).last() == audio::clamped_level(level)
            &&& shown(after, count).drop_last() == shown(before, count).drop_last()
        }),
{
    let after = LevelHistory { level: audio::clamped_level(level), ..before };
    assert(shown(after, count).drop_last() =~= shown(before, count).drop_last());
}

/// However many bars there are, the first step of a fresh history moves them.
pub proof fn first_step_moves_the_bars(before: LevelHistory, after: LevelHistory, count: nat)
    requires
        before.is_fresh(),
        after.stepped_from(before),
        count > 0,
    ensures
        shown(after, count) != shown(before, count),
{
    assert(shown(before, count).last() == 0);
    assert(after.levels@.last() == IDLE_LEVEL);
    assert(shown(after, count).last() == IDLE_LEVEL);
}

/// In silence every step moves the bars, as long as all of them show levels.
pub proof fn silence_keeps_moving(before: LevelHistory, after: LevelHistory)
    requires
        before.level == 0,
        before.levels@.len() == OVERLAY_BAR_COUNT,
        forall|i: int|
            0 <= i < before.levels@.len() ==> (#[trigger] before.levels@[i]) <= audio::ONE,
        after.stepped_from(before),
    ensures
        shown(after, OVERLAY_BAR_COUNT as nat) != shown(before, OVERLAY_BAR_COUNT as nat),
{
    let count = OVERLAY_BAR_COUNT as nat;
    let levels = before.levels@;
    let old_bars = shown(before, count);
    let new_bars = shown(after, count);
    assert(last_levels(levels, count) =~= levels);
    assert(last_levels(after.levels@, count) =~= after.levels@);
    if flat(levels) {
        assert(silent(levels[10]));
        assert(new_bars[10] == IDLE_LEVEL);
    } else if new_bars == old_bars {
        assert(new_bars[10] == 0);
        assert(old_bars[10] == levels[10]);
        assert forall|i: int| 0 <= i < levels.len() implies silent(#[trigger] levels[i]) by {
            zeros_from_the_end(levels, new_bars, old_bars, i);
        }
    }
}

proof fn zeros_from_the_end(levels: Seq<u32>, new_bars: Seq<u32>, old_bars: Seq<u32>, i: int)
    requires
        levels.len() == OVERLAY_BAR_COUNT,
        old_bars =~= levels,
        new_bars =~= levels.skip(1).push(0),
        new_bars == old_bars,
        0 <= i < levels.len(),
    ensures
        levels[i] == 0,
    decreases levels.len() - i,
{
    assert(new_bars[i] == old_bars[i]);
    if i < levels.len() - 1 {
        zeros_from_the_end(levels, new_bars, old_bars, i + 1);
        assert(new_bars[i] == levels[i + 1]);
    }
}

/// A step shows the current level in the newest bar and moves what was kept by one
/// bar, in sound and in silence, unless silence meets flat bars.
pub proof fn step_shifts_the_bars(before: LevelHistory, after: LevelHistory, count: nat)
    requires
        before.wf(),
        after.stepped_from(before),
        before.level <= audio::ONE,
        !(silent(before.level) && flat(before.levels@)),
        0 < count <= OVERLAY_BAR_COUNT,
    ensures
        shown(after, count) == last_levels(before.levels@, (count - 1) as nat).push(before.level),
{
    assert(shown(after, count) =~= last_levels(before.levels@, (count - 1) as nat).push(
        before.level,
    ));
}

/// Of the last levels the newest stands last, each a bar from the next, and in
/// front of all that were kept the bars are at zero.
pub proof fn last_levels_stand_at_the_end(levels: Seq<u32>, count: nat, i: int)
    requires
        0 <= i < count,
    ensures
        last_levels(levels, count).len() == count,
        i < levels.len() ==> last_levels(levels, count)[count - 1 - i] == levels[levels.len() - 1
            - i],
        i >= levels.len() ==> last_levels(levels, count)[count - 1 - i] == 0,
{
}

/// All bars but the newest show the levels that were kept. The newest shows the
/// current level, unless the kept one is larger, and a level up to 1.0 before one
/// that is none.
pub proof fn newest_bar_is_the_louder(history: LevelHistory, count: nat, i: int)
    requires
        0 <= i < count,
    ensures
        ({
            let bars = shown(history, count);
            let kept = last_levels(history.levels@, count);
            &&& bars.len() == count
            &&& i < count - 1 ==> bars[i] == kept[i]
            &&& kept[count - 1] <= 0x3f80_0000 && history.level <= 0x3f80_0000 ==> bars[count - 1]
                >= kept[count - 1] && bars[count - 1] >= history.level && (bars[count - 1]
                == kept[count - 1] || bars[count - 1] == history.level)
            &&& kept[count - 1] <= 0x3f80_0000 && history.level > 0x3f80_0000 ==> bars[count - 1]
                == kept[count - 1]
            &&& kept[count - 1] > 0x3f80_0000 ==> bars[count - 1] == history.level
        }),
{
}

/// A step adds the current level behind those that are kept, of which there are
/// eleven at most; the oldest goes. In silence over bars that are all at zero it
/// adds 0.05 instead.
pub proof fn steps_add_one_level(before: LevelHistory, after: LevelHistory, i: int)
    requires
        after.stepped_from(before),
        before.wf(),
    ensures
        after.level == before.level,
        before.levels@.len() < 11 ==> after.levels@.len() == before.levels@.len() + 1,
        before.levels@.len() == 11 ==> after.levels@.len() == 11,
        0 <= i < after.levels@.len() - 1 && before.levels@.len() < 11 ==> after.levels@[i]
            == before.levels@[i],
        0 <= i < after.levels@.len() - 1 && before.levels@.len() == 11 ==> after.levels@[i]
            == before.levels@[i + 1],
        ({
            let quiet = (before.level == 0 || before.level == 0x8000_0000) && forall|j: int|
                0 <= j < before.levels@.len() ==> (#[trigger] before.levels@[j] == 0
                    || before.levels@[j] == 0x8000_0000);
            after.levels@[after.levels@.len() - 1] == (if quiet {
                0x3d4c_cccdu32
            } else {
                before.level
            })
        }),
{
    if forall|j: int|
        0 <= j < before.levels@.len() ==> (#[trigger] before.levels@[j] == 0 || before.levels@[j]
            == 0x8000_0000) {
        assert(flat(before.levels@));
    }
    if flat(before.levels@) {
        assert forall|j: int| 0 <= j < before.levels@.len() implies (#[trigger] before.levels@[j]
            == 0 || before.levels@[j] == 0x8000_0000) by {
            assert(silent(before.levels@[j]));
        }
    }
}

/// A fresh history has eleven bars, all at zero, and no level.
pub proof fn fresh_bars_are_at_zero(history: LevelHistory)
    ensures
        history.is_fresh() <==> history.level == 0 && history.levels@.len() == 11 && forall|i: int|
            0 <= i < history.levels@.len() ==> #[trigger] history.levels@[i] == 0,
{
    if history.levels@.len() == 11 && forall|i: int|
        0 <= i < history.levels@.len() ==> #[trigger] history.levels@[i] == 0 {
        assert(history.levels@ =~= Seq::new(11, |i: int| 0u32));
    }
}

} // verus!
