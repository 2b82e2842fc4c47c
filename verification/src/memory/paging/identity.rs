//! Mapping runs of frames to the pages that have their numbers.

use vstd::prelude::*;
use super::entry::{pack, valid_flags, EntryFlags, PRESENT};
use super::mapper::{lemma_low_pages, page_at, MapError, Mapper};
use super::table::recursive;
use super::Page;
use crate::memory::{
    lasts, lemma_spends, lemma_spends_nothing, lemma_spent, out_of_frames, spends, Frame,
    FrameAllocator,
};

verus! {

/// A run of frames, from `start` to `end`, both included, that is to be
/// mapped to the pages with the same numbers, with the flags `flags`. The
/// run is empty when `start` lies after `end`.
#[derive(Debug, Clone, Copy, PartialEq, Eq, Structural)]
pub struct Region {
    pub start: u64,
    pub end: u64,
    pub flags: EntryFlags,
}

impl Region {
    /// Whether frame `number` is in the run.
    pub open spec fn holds(&self, number: u64) -> bool {
        self.start <= number <= self.end
    }

    /// How many frames the run holds.
    pub open spec fn len(&self) -> nat {
        if self.start <= self.end {
            (self.end - self.start + 1) as nat
        } else {
            0
        }
    }

    /// Whether the run can be mapped to pages with the numbers of its
    /// frames: those pages lie in the lower half of the address space, and
    /// the flags are flags.
    pub open spec fn wf(&self) -> bool {
        &&& valid_flags(self.flags)
        &&& self.start <= self.end ==> self.end < 0x8_0000_0000
    }
}

/// Whether frame `number` is in one of `regions`.
pub open spec fn covered(regions: Seq<Region>, number: u64) -> bool {
    exists|k: int| 0 <= k < regions.len() && #[trigger] regions[k].holds(number)
}

/// How many frames the first `count` of `regions` hold together.
pub open spec fn frames_in(regions: Seq<Region>, count: nat) -> nat
    decreases count,
{
    if count == 0 || count > regions.len() {
        0
    } else {
        frames_in(regions, (count - 1) as nat) + regions[count - 1].len()
    }
}

/// The first regions hold no more frames than more of them.
pub proof fn lemma_frames_in(regions: Seq<Region>, fewer: nat, more: nat)
    requires
        fewer <= more <= regions.len(),
    ensures
        frames_in(regions, fewer) <= frames_in(regions, more),
    decreases more,
{
    if fewer < more {
        lemma_frames_in(regions, fewer, (more - 1) as nat);
    }
}

/// Whether each of `regions` can be mapped and no frame is in two of them.
pub open spec fn regions_ok(regions: Seq<Region>) -> bool {
    &&& forall|k: int| 0 <= k < regions.len() ==> #[trigger] regions[k].wf()
    &&& forall|j: int, k: int, number: u64|
        0 <= j < regions.len() && 0 <= k < regions.len() && j != k && #[trigger] regions[j].holds(
            number,
        ) ==> !(#[trigger] regions[k].holds(number))
}

impl Region {
    /// Whether the run can be mapped to pages with the numbers of its
    /// frames.
    pub fn is_wf(&self) -> (ok: bool)
        ensures
            ok == self.wf(),
    {
        let flags = self.flags;
        assert((flags & !0x8000_0000_0000_01ffu64 == 0) == (flags & 0x7fff_ffff_ffff_fe00u64 == 0)) by (bit_vector);
        self.flags & 0x7fff_ffff_ffff_fe00 == 0 && (self.start > self.end || self.end < 0x8_0000_0000)
    }

    /// Whether the run and `other` have a frame in common.
    pub open spec fn meets(&self, other: &Region) -> bool {
        exists|number: u64| self.holds(number) && other.holds(number)
    }

    /// Whether the run and `other` have a frame in common.
    pub fn overlaps(&self, other: &Region) -> (common: bool)
        ensures
            common == self.meets(other),
    {
        let common = self.start <= self.end && other.start <= other.end && self.start <= other.end
            && other.start <= self.end;
        proof {
            if common {
                let number = if self.start >= other.start {
                    self.start
                } else {
                    other.start
                };
                assert(self.holds(number) && other.holds(number));
            }
        }
        common
    }

    /// Whether the run has a frame with a number from `first` to `last`.
    pub open spec fn reaches(&self, first: u64, last: u64) -> bool {
        exists|number: u64| first <= number <= last && self.holds(number)
    }
}

/// Whether frame `number` is in one of `regions`.
pub fn covers(regions: &Vec<Region>, number: u64) -> (found: bool)
    ensures
        found == covered(regions@, number),
{
    let mut k: usize = 0;
    while k < regions.len()
        invariant
            k <= regions@.len(),
            forall|j: int| 0 <= j < k ==> !(#[trigger] regions@[j].holds(number)),
        decreases regions@.len() - k,
    {
        if regions[k].start <= number && number <= regions[k].end {
            assert(regions@[k as int].holds(number));
            return true;
        }
        k += 1;
    }
    false
}

/// Whether no frame with a number from `first` to `last` is in one of
/// `regions`.
pub open spec fn span_clear(regions: Seq<Region>, first: u64, last: u64) -> bool {
    forall|number: u64| first <= number <= last ==> !covered(regions, number)
}

/// Whether no frame with a number from `first` to `last` is in one of
/// `regions`.
pub fn misses(regions: &Vec<Region>, first: u64, last: u64) -> (free: bool)
    ensures
        free == span_clear(regions@, first, last),
{
    let span = Region { start: first, end: last, flags: 0 };
    let mut k: usize = 0;
    while k < regions.len()
        invariant
            k <= regions@.len(),
            span == (Region { start: first, end: last, flags: 0 }),
            forall|j: int, number: u64|
                0 <= j < k && first <= number <= last ==> !(#[trigger] regions@[j].holds(number)),
        decreases regions@.len() - k,
    {
        if regions[k].overlaps(&span) {
            proof {
                let number = choose|number: u64| regions@[k as int].holds(number) && span.holds(number);
                assert(regions@[k as int].holds(number));
                assert(covered(regions@, number));
            }
            return false;
        }
        proof {
            assert forall|number: u64| first <= number <= last implies !(#[trigger] regions@[k as int].holds(
                number,
            )) by {
                if regions@[k as int].holds(number) {
                    assert(span.holds(number));
                    assert(regions@[k as int].meets(&span));
                }
            }
        }
        k += 1;
    }
    true
}

/// Whether each of `regions` can be mapped and no frame is in two of them.
pub fn regions_valid(regions: &Vec<Region>) -> (ok: bool)
    ensures
        ok == regions_ok(regions@),
{
    let mut k: usize = 0;
    while k < regions.len()
        invariant
            k <= regions@.len(),
            forall|i: int| 0 <= i < k ==> #[trigger] regions@[i].wf(),
            forall|i: int, j: int, number: u64|
                0 <= i < k && 0 <= j < k && i != j && #[trigger] regions@[i].holds(number) ==> !(
                #[trigger] regions@[j].holds(number)),
        decreases regions@.len() - k,
    {
        if !regions[k].is_wf() {
            assert(!regions@[k as int].wf());
            return false;
        }
        let mut earlier: usize = 0;
        while earlier < k
            invariant
                earlier <= k < regions@.len(),
                forall|i: int, number: u64|
                    0 <= i < earlier && #[trigger] regions@[i].holds(number) ==> !regions@[k as int].holds(
                        number,
                    ),
            decreases k - earlier,
        {
            if regions[earlier].overlaps(&regions[k]) {
                proof {
                    let number = choose|number: u64|
                        regions@[earlier as int].holds(number) && regions@[k as int].holds(number);
                    assert(regions@[earlier as int].holds(number) && regions@[k as int].holds(number));
                }
                return false;
            }
            proof {
                assert forall|number: u64| #[trigger] regions@[earlier as int].holds(number)
                    implies !regions@[k as int].holds(number) by {
                    if regions@[k as int].holds(number) {
                        assert(regions@[earlier as int].meets(&regions@[k as int]));
                    }
                }
            }
            earlier += 1;
        }
        k += 1;
    }
    true
}

impl Mapper {
    /// Whether the page with the number of each frame of `regions` can be
    /// given a mapping.
    pub open spec fn can_map_regions(&self, regions: Seq<Region>) -> bool {
        forall|k: int, number: u64|
            0 <= k < regions.len() && #[trigger] regions[k].holds(number) ==> self.can_map(
                Page { number },
            )
    }

    /// Whether frame `number`, of region `region`, is mapped to the page
    /// with its number, with the flags of the region and `PRESENT`.
    pub open spec fn identity_mapped(&self, region: Region, number: u64) -> bool {
        &&& self.translation(Page { number }) == Some(number)
        &&& self.leaf_entry(Page { number }) == Some(pack(number, region.flags | PRESENT))
    }

    /// Whether the mapper came from `before` by an attempt to map each
    /// frame of `regions` to the page with its number: each such page is
    /// mapped so, or, where the attempt did not get `done`, may still be
    /// without a mapping; and the canonical pages outside the regions and
    /// outside the recursive part are as they were.
    pub open spec fn mapped_from(&self, before: &Mapper, regions: Seq<Region>, done: bool) -> bool {
        &&& forall|other: Page|
            #![trigger self.translation(other)]
            #![trigger before.translation(other)]
            !recursive(other) && other.valid() && !covered(regions, other.number) ==> self.translation(
                other,
            ) == before.translation(other)
        &&& forall|other: Page|
            #![trigger self.can_map(other)]
            #![trigger before.can_map(other)]
            !recursive(other) && other.valid() && !covered(regions, other.number) && before.can_map(
                other,
            ) ==> self.can_map(other)
        &&& forall|k: int, number: u64|
            0 <= k < regions.len() && #[trigger] regions[k].holds(number) ==> {
                ||| self.identity_mapped(regions[k], number)
                ||| self.translation(Page { number }).is_none() && self.can_map(Page { number }) && !done
            }
    }

    /// Maps each frame of each of `regions` to the page with its number,
    /// with the flags of the region and `PRESENT`, one region after the
    /// other. It stops at the first page for which a table cannot be had.
    /// The tables for each frame of the regions take three frames at most.
    pub fn identity_map_regions<A: FrameAllocator>(&mut self, regions: &Vec<Region>, allocator: &mut A) -> (result:
        Result<(), MapError>)
        requires
            old(self).wf(),
            old(allocator).inv(),
            old(self).apart_from(old(allocator).available()),
            regions_ok(regions@),
            old(self).can_map_regions(regions@),
        ensures
            spends(old(allocator), final(allocator), 3 * frames_in(regions@, regions@.len())),
            lasts(old(allocator), 3 * frames_in(regions@, regions@.len())) ==> result.is_ok(),
            result.is_err() ==> out_of_frames(final(allocator)),
            final(allocator).inv(),
            final(self).follows(old(self), old(allocator).available(), final(allocator).available()),
            final(self).actions == old(self).actions,
            final(self).mapped_from(old(self), regions@, result.is_ok()),
    {
        let ghost spare = allocator.available();
        let ghost first_allocator = *allocator;
        let ghost total = frames_in(regions@, regions@.len());
        proof {
            lemma_spends_nothing(&first_allocator, 0);
        }
        let mut done: usize = 0;
        proof {
            self.lemma_grown_from_self(spare);
            assert forall|k: int, number: u64|
                0 <= k < regions@.len() && #[trigger] regions@[k].holds(number) implies self.translation(
                Page { number },
            ).is_none() by {
                assert(self.can_map(Page { number }));
                super::mapper::lemma_unmapped(&self.memory, self.p4_spec(), Page { number });
            }
        }
        while done < regions.len()
            invariant
                first_allocator == *old(allocator),
                total == frames_in(regions@, regions@.len()),
                spends(&first_allocator, &*allocator, 3 * frames_in(regions@, done as nat)),
                frames_in(regions@, done as nat) <= total,
                done <= regions@.len(),
                self.wf(),
                allocator.inv(),
                spare == old(allocator).available(),
                allocator.available().subset_of(spare),
                self.apart_from(allocator.available()),
                self.grown_from(old(self), spare),
                self.keeps_windows(old(self)),
                self.actions == old(self).actions,
                regions_ok(regions@),
                forall|other: Page|
                    #![trigger self.translation(other)]
                    #![trigger old(self).translation(other)]
                    !recursive(other) && other.valid() && !covered(regions@, other.number)
                        ==> self.translation(other) == old(self).translation(other),
                forall|other: Page|
                    #![trigger self.can_map(other)]
                    #![trigger old(self).can_map(other)]
                    !recursive(other) && other.valid() && !covered(regions@, other.number) && old(
                        self).can_map(other) ==> self.can_map(other),
                forall|k: int, number: u64|
                    0 <= k < done && #[trigger] regions@[k].holds(number) ==> self.identity_mapped(
                        regions@[k],
                        number,
                    ),
                forall|k: int, number: u64|
                    done <= k < regions@.len() && #[trigger] regions@[k].holds(number) ==> self.can_map(
                        Page { number },
                    ) && self.translation(Page { number }).is_none(),
            decreases regions@.len() - done,
        {
            let region = regions[done];
            let pages = Page::range_inclusive(Page { number: region.start }, Page { number: region.end });
            let frames = Frame::range_inclusive(
                Frame { number: region.start },
                Frame { number: region.end },
            );
            let ghost before = *self;
            let ghost spare_before = allocator.available();
            proof {
                assert(region.wf());
                assert forall|i: int| 0 <= i < pages.len() implies (#[trigger] page_at(pages, i)).valid()
                    && !recursive(page_at(pages, i)) && self.can_map(page_at(pages, i)) by {
                    lemma_low_pages(page_at(pages, i));
                    assert(regions@[done as int].holds(page_at(pages, i).number));
                }
                if pages.len() > 0 {
                    lemma_low_pages(pages.start);
                    lemma_low_pages(pages.end);
                }
            }
            let ghost allocator_before = *allocator;
            let ghost taken = frames_in(regions@, done as nat);
            proof {
                lemma_frames_in(regions@, done as nat + 1, regions@.len());
                assert(frames_in(regions@, done as nat + 1) == taken + pages.len());
                if lasts(&first_allocator, 3 * total) {
                    lemma_spent(&first_allocator, &allocator_before, 3 * taken, 3 * total, 3 * pages.len());
                }
            }
            let result = self.map_range_to(pages, frames, region.flags, allocator);
            proof {
                lemma_spends(
                    &first_allocator,
                    &allocator_before,
                    &*allocator,
                    3 * taken,
                    3 * pages.len(),
                    3 * frames_in(regions@, done as nat + 1),
                );
                lemma_spends(
                    &first_allocator,
                    &allocator_before,
                    &*allocator,
                    3 * taken,
                    3 * pages.len(),
                    3 * total,
                );
                self.lemma_grown_twice(&before, old(self), spare, spare_before);
                assert forall|other: Page|
                    !recursive(other) && other.valid() && !covered(regions@, other.number)
                        implies !pages.contains(other.number) by {
                    if pages.contains(other.number) {
                        assert(regions@[done as int].holds(other.number));
                    }
                }
                assert forall|k: int, number: u64|
                    0 <= k < regions@.len() && k != done && #[trigger] regions@[k].holds(number)
                        implies !pages.contains(number) && (Page { number }).valid() && !recursive(
                    Page { number },
                ) by {
                    assert(regions@[k].wf());
                    lemma_low_pages(Page { number });
                    if pages.contains(number) {
                        assert(regions@[done as int].holds(number));
                    }
                }
                assert forall|k: int, number: u64|
                    0 <= k < done && #[trigger] regions@[k].holds(number) implies self.identity_mapped(
                    regions@[k],
                    number,
                ) by {
                    assert(before.identity_mapped(regions@[k], number));
                    assert(before.leaf_entry(Page { number }).is_some());
                }
                assert forall|k: int, number: u64|
                    done < k < regions@.len() && #[trigger] regions@[k].holds(number) implies self.can_map(
                    Page { number },
                ) && self.translation(Page { number }).is_none() by {
                    assert(before.can_map(Page { number }));
                }
                assert forall|number: u64| regions@[done as int].holds(number) implies {
                    ||| self.identity_mapped(regions@[done as int], number)
                    ||| self.translation(Page { number }).is_none() && self.can_map(Page { number })
                        && result.is_err()
                } by {
                    let i = number - region.start;
                    assert(page_at(pages, i) == Page { number });
                    assert(self.paired(page_at(pages, i), frames, i, region.flags) || (self.translation(
                        page_at(pages, i),
                    ).is_none() && self.can_map(page_at(pages, i)) && (result.is_err() || i
                        >= frames.len())));
                }
            }
            if let Err(error) = result {
                return Err(error);
            }
            done += 1;
        }
        Ok(())
    }
}

} // verus!
