//! The step that the allocators of virtual regions share: take pages off
//! the front of a region and map them to fresh frames.

use vstd::prelude::*;
use super::paging::entry::{valid_flags, EntryFlags};
use super::paging::mapper::{flushes, lemma_page_bound, lemma_unmapped, page_at, Mapper};
use super::paging::table::recursive;
use super::paging::{ActivePageTable, PageIter};
use super::{lasts, lemma_spends, out_of_frames, spends, FrameAllocator};

verus! {

/// What holds after `count` pages were asked of the region `whole` and,
/// where it had as many, mapped with the flags `flags` and `PRESENT` to
/// frames that left the available ones: `rest` is what is left of the
/// region, and `done` says whether every page got its frame.
///
/// A request that is not met leaves the region as it was, with none of
/// its pages mapped. Where it failed for want of frames, the pages that
/// had been mapped by then are unmapped again: their flushes are noted.
pub open spec fn handed_out(
    before: &Mapper,
    after: &Mapper,
    whole: PageIter,
    rest: PageIter,
    count: u64,
    flags: EntryFlags,
    spare: Set<u64>,
    left: Set<u64>,
    done: bool,
) -> bool {
    &&& rest.usable()
    &&& rest.unmapped_in(after)
    &&& after.follows(before, spare, left)
    &&& after.same_outside(before, whole)
    &&& count == 0 || whole.len() < count ==> {
        &&& !done
        &&& after.memory == before.memory
        &&& after.actions == before.actions
        &&& left == spare
    }
    &&& !done ==> {
        &&& rest == whole
        &&& forall|i: int| 0 <= i < whole.len() ==> (#[trigger] after.translation(page_at(whole, i))).is_none()
        &&& exists|undone: nat|
            undone <= count && after.actions@ == before.actions@ + #[trigger] flushes(whole, undone)
    }
    &&& done ==> {
        &&& 0 < count <= whole.len()
        &&& rest == whole.rest(count)
        &&& after.actions == before.actions
        &&& forall|i: int| 0 <= i < count ==> after.backed(#[trigger] page_at(whole, i), flags, spare, left)
        &&& forall|i: int|
            0 <= i < count ==> (#[trigger] after.translation(page_at(whole, i))) == Some(
                (after.translation(whole.start).unwrap() + i) as u64,
            )
    }
}

/// What the same request does to the allocator of frames, and when it is
/// met. The pages' frames are the run with which the allocator answers a
/// request for `count` frames; the tables take three more frames for each
/// page at most. So the request is met wherever the region has the pages
/// and the allocator has the run and, after it, three frames for each page.
pub open spec fn paid_with<FA: FrameAllocator>(
    before: &FA,
    after: &FA,
    table: &Mapper,
    whole: PageIter,
    count: u64,
    flags: EntryFlags,
    done: bool,
) -> bool {
    if 0 < count <= whole.len() {
        match before.answer(count) {
            Some(frames) => {
                &&& spends(&before.after(count), after, 3 * count as nat)
                &&& lasts(&before.after(count), 3 * count as nat) ==> done
                &&& !done ==> out_of_frames(after)
                &&& done ==> forall|i: int|
                    0 <= i < count ==> table.paired(#[trigger] page_at(whole, i), frames, i, flags)
            },
            None => !done && *after == *before,
        }
    } else {
        !done && *after == *before
    }
}

/// Takes the first `count` pages off `region` and maps them to fresh
/// frames with the flags `flags` and `PRESENT`.
///
/// A request for no pages, or for more than are left, gets nothing and
/// changes nothing. Where the frames run out while the pages are mapped,
/// the pages that were mapped by then are unmapped again, the region
/// stays as it was, and nothing is returned: a request that is not met
/// never takes pages from the region.
pub fn hand_out<FA: FrameAllocator>(
    region: &mut PageIter,
    active_table: &mut ActivePageTable,
    frame_allocator: &mut FA,
    count: u64,
    flags: EntryFlags,
) -> (pages: Option<PageIter>)
    requires
        old(region).usable(),
        old(region).unmapped_in(&old(active_table).mapper),
        old(active_table).mapper.wf(),
        old(frame_allocator).inv(),
        old(active_table).mapper.apart_from(old(frame_allocator).available()),
        valid_flags(flags),
    ensures
        final(frame_allocator).inv(),
        handed_out(
            &old(active_table).mapper,
            &final(active_table).mapper,
            *old(region),
            *final(region),
            count,
            flags,
            old(frame_allocator).available(),
            final(frame_allocator).available(),
            pages.is_some(),
        ),
        paid_with(
            old(frame_allocator),
            final(frame_allocator),
            &final(active_table).mapper,
            *old(region),
            count,
            flags,
            pages.is_some(),
        ),
        match pages {
            Some(run) => run == old(region).front(count),
            None => true,
        },
        old(frame_allocator).answer(count).is_none() ==> final(active_table).mapper == old(
            active_table,
        ).mapper,
        final(active_table).mapper.root == old(active_table).mapper.root,
        final(active_table).mapper.p4_spec() == old(active_table).mapper.p4_spec(),
{
    let whole = *region;
    proof {
        old(active_table).mapper.lemma_grown_from_self(frame_allocator.available());
    }
    let pages = match region.take(count) {
        Some(pages) => pages,
        None => {
            proof {
                active_table.mapper.lemma_grown_loaded(
                    &old(active_table).mapper,
                    old(frame_allocator).available(),
                );
                assert forall|i: int| 0 <= i < whole.len() implies (#[trigger] active_table.mapper.translation(
                    page_at(whole, i),
                )).is_none() by {
                    lemma_unmapped(
                        &active_table.mapper.memory,
                        active_table.mapper.p4_spec(),
                        page_at(whole, i),
                    );
                }
                assert(active_table.mapper.actions@ =~= old(active_table).mapper.actions@ + flushes(whole, 0nat));
            }
            return None;
        },
    };
    let ghost first_allocator = *frame_allocator;
    proof {
        assert forall|i: int| 0 <= i < pages.len() implies page_at(pages, i) == #[trigger] page_at(
            whole,
            i,
        ) by {}
        assert forall|i: int| 0 <= i < region.len() implies #[trigger] page_at(*region, i)
            == page_at(whole, i + count) by {}
        assert(page_at(whole, 0) == whole.start);
        assert(page_at(whole, count - 1) == pages.end);
        assert(page_at(whole, whole.len() - 1) == whole.end);
        assert forall|i: int| 0 <= i < pages.len() implies (#[trigger] page_at(pages, i)).valid()
            && !recursive(page_at(pages, i)) && active_table.mapper.can_map(page_at(pages, i)) by {
            assert(page_at(pages, i) == page_at(whole, i));
        }
        assert forall|i: int| 0 <= i < region.len() implies (#[trigger] page_at(
            *region,
            i,
        )).valid() && !recursive(page_at(*region, i)) && !pages.contains(
            page_at(*region, i).number,
        ) && active_table.mapper.can_map(page_at(*region, i)) by {
            assert(page_at(*region, i) == page_at(whole, i + count));
        }
        lemma_page_bound(pages.end);
        if region.len() > 0 {
            assert(page_at(*region, 0) == region.start);
            assert(page_at(*region, 0).valid());
        }
    }
    let mapped = active_table.mapper.map_range(pages, flags, frame_allocator);
    proof {
        assert forall|i: int| 0 <= i < region.len() implies active_table.mapper.can_map(
            #[trigger] page_at(*region, i),
        ) by {
            assert(old(active_table).mapper.can_map(page_at(*region, i)));
        }
        assert forall|i: int| 0 <= i < count implies {
            ||| active_table.mapper.backed(
                #[trigger] page_at(whole, i),
                flags,
                old(frame_allocator).available(),
                frame_allocator.available(),
            )
            ||| active_table.mapper.translation(page_at(whole, i)).is_none() && mapped.is_err()
        } by {
            assert(page_at(pages, i) == page_at(whole, i));
        }
        if mapped.is_ok() {
            assert forall|i: int| 0 <= i < count implies (#[trigger] active_table.mapper.translation(
                page_at(whole, i),
            )) == Some((active_table.mapper.translation(whole.start).unwrap() + i) as u64) by {
                assert(page_at(pages, i) == page_at(whole, i));
            }
            let frames = old(frame_allocator).answer(count).unwrap();
            assert forall|i: int| 0 <= i < count implies active_table.mapper.paired(
                #[trigger] page_at(whole, i),
                frames,
                i,
                flags,
            ) by {
                assert(page_at(pages, i) == page_at(whole, i));
                assert(active_table.mapper.translation(page_at(pages, i)).is_some());
            }
        }
    }
    proof {
        active_table.mapper.lemma_grown_loaded(&old(active_table).mapper, old(frame_allocator).available());
    }
    match mapped {
        Ok(_) => Some(pages),
        Err(_) => {
            // The request is not met: what was mapped of it goes again,
            // and the region gets its pages back.
            let ghost half = active_table.mapper;
            let ghost half_allocator = *frame_allocator;
            let undone = active_table.mapper.unmap_front(pages, frame_allocator);
            *region = whole;
            proof {
                let now = active_table.mapper;
                let spare = old(frame_allocator).available();
                now.lemma_grown_twice(&half, &old(active_table).mapper, spare, Set::empty());
                assert(now.root == half.root && now.p4_spec() == half.p4_spec()) by {
                    reveal(Mapper::grown_from);
                }
                now.lemma_apart_from_same(&half, frame_allocator.available());
                now.lemma_grown_loaded(&old(active_table).mapper, spare);
                assert(now.actions@ =~= old(active_table).mapper.actions@ + flushes(whole, undone as nat)) by {
                    assert(flushes(pages, undone as nat) =~= flushes(whole, undone as nat));
                }
                assert forall|i: int| 0 <= i < whole.len() implies now.can_map(#[trigger] page_at(whole, i))
                    && now.translation(page_at(whole, i)).is_none() by {
                    if i < count {
                        assert(page_at(pages, i) == page_at(whole, i));
                    } else {
                        assert(page_at(whole, i) == page_at(old(region).rest(count), i - count));
                        assert(half.can_map(page_at(whole, i)));
                        assert(!pages.contains(page_at(whole, i).number));
                        lemma_unmapped(&now.memory, now.p4_spec(), page_at(whole, i));
                    }
                }
                if old(frame_allocator).answer(count).is_some() {
                    lemma_spends(
                        &old(frame_allocator).after(count),
                        &half_allocator,
                        &*frame_allocator,
                        3 * count as nat,
                        0,
                        3 * count as nat,
                    );
                }
            }
            None
        },
    }
}

} // verus!
