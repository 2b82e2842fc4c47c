//! How the paths through a tree of tables change when its memory changes.

use vstd::prelude::*;
use super::entry::{frame_number, is_huge, is_present, pack, Entry, PRESENT, WRITABLE};
use super::table::{index_at, recursive, same_prefix, PhysicalMemory};
use super::Page;
use crate::memory::MAX_FRAMES;

verus! {

/// The tables on the path of a page hold tables of the tree.
pub proof fn lemma_path_tables(m: &PhysicalMemory, root: u64, page: Page)
    requires
        !recursive(page),
    ensures
        m.is_table(root, root),
        forall|level: int|
            1 <= level <= 3 && (#[trigger] m.table_for(root, page, level)).is_some() ==> m.is_table(
                root,
                m.table_for(root, page, level).unwrap(),
            ),
{
}

/// A page reads the same from two memories that agree on the entries of
/// its path, the recursive slot of the highest table left aside.
pub proof fn lemma_preserved_page(m: &PhysicalMemory, m2: &PhysicalMemory, root: u64, page: Page)
    requires
        !recursive(page),
        m.tree_shaped(root),
        forall|frame: u64, index: int|
            m.is_table(root, frame) && !(frame == root && index == 511) ==> #[trigger] m2.entry(
                frame,
                index,
            ) == m.entry(frame, index),
    ensures
        forall|level: int| #[trigger] m2.table_for(root, page, level) == m.table_for(root, page, level),
        m2.translation(root, page) == m.translation(root, page),
        m2.aligned(root, page) == m.aligned(root, page),
        m2.leaf_entry(root, page) == m.leaf_entry(root, page),
        m2.can_map(root, page) == m.can_map(root, page),
{
    lemma_path_tables(m, root, page);
    assert(m2.entry(root, page.p4()) == m.entry(root, page.p4()));
    assert(m2.table_for(root, page, 3) == m.table_for(root, page, 3));
    if let Some(p3) = m.table_for(root, page, 3) {
        assert(m.is_table(root, p3));
        assert(p3 != root);
        assert(m2.entry(p3, page.p3()) == m.entry(p3, page.p3()));
    }
    assert(m2.table_for(root, page, 2) == m.table_for(root, page, 2));
    if let Some(p2) = m.table_for(root, page, 2) {
        assert(m.is_table(root, p2));
        assert(p2 != root);
        assert(m2.entry(p2, page.p2()) == m.entry(p2, page.p2()));
    }
    assert(m2.table_for(root, page, 1) == m.table_for(root, page, 1));
    if let Some(p1) = m.table_for(root, page, 1) {
        assert(m.is_table(root, p1));
        assert(p1 != root);
        assert(m2.entry(p1, page.p1()) == m.entry(p1, page.p1()));
    }
}

/// A tree reads the same from two memories that agree on the entries of
/// its tables, the recursive slot of the highest table left aside.
pub proof fn lemma_preserved(m: &PhysicalMemory, m2: &PhysicalMemory, root: u64)
    requires
        m.tree_shaped(root),
        forall|frame: u64, index: int|
            m.is_table(root, frame) && !(frame == root && index == 511) ==> #[trigger] m2.entry(
                frame,
                index,
            ) == m.entry(frame, index),
    ensures
        forall|page: Page, level: int|
            !recursive(page) ==> #[trigger] m2.table_for(root, page, level) == m.table_for(
                root,
                page,
                level,
            ),
        forall|page: Page|
            !recursive(page) ==> #[trigger] m2.translation(root, page) == m.translation(root, page),
        forall|page: Page| !recursive(page) ==> #[trigger] m2.aligned(root, page) == m.aligned(root, page),
        forall|page: Page|
            !recursive(page) ==> #[trigger] m2.leaf_entry(root, page) == m.leaf_entry(root, page),
        forall|page: Page| !recursive(page) ==> #[trigger] m2.can_map(root, page) == m.can_map(root, page),
        m2.tree_shaped(root),
        forall|frame: u64| #[trigger] m2.is_table(root, frame) == m.is_table(root, frame),
{
    assert forall|page: Page| !recursive(page) implies #[trigger] m2.leaf_entry(root, page)
        == m.leaf_entry(root, page) by {
        lemma_preserved_page(m, m2, root, page);
    }
    assert forall|page: Page| !recursive(page) implies #[trigger] m2.can_map(root, page) == m.can_map(
        root,
        page,
    ) by {
        lemma_preserved_page(m, m2, root, page);
    }
    assert forall|page: Page| !recursive(page) implies (forall|level: int| #[trigger]
        m2.table_for(root, page, level) == m.table_for(root, page, level)) && #[trigger] m2.translation(
        root,
        page,
    ) == m.translation(root, page) && m2.aligned(root, page) == m.aligned(root, page) by {
        lemma_preserved_page(m, m2, root, page);
    }
    assert forall|page: Page, level: int| !recursive(page) implies #[trigger] m2.table_for(
        root,
        page,
        level,
    ) == m.table_for(root, page, level) by {
        lemma_preserved_page(m, m2, root, page);
    }
    assert forall|page: Page| !recursive(page) implies #[trigger] m2.aligned(root, page)
        == m.aligned(root, page) by {
        lemma_preserved_page(m, m2, root, page);
    }
    assert forall|frame: u64| #[trigger] m2.is_table(root, frame) == m.is_table(root, frame) by {
        if m.is_table(root, frame) && frame != root {
            let (page, level) = choose|page: Page, level: int|
                !recursive(page) && 1 <= level <= 3 && #[trigger] m.table_for(root, page, level)
                    == Some(frame);
            assert(m2.table_for(root, page, level) == Some(frame));
        }
        if m2.is_table(root, frame) && frame != root {
            let (page, level) = choose|page: Page, level: int|
                !recursive(page) && 1 <= level <= 3 && #[trigger] m2.table_for(root, page, level)
                    == Some(frame);
            assert(m.table_for(root, page, level) == Some(frame));
        }
    }
}

/// The entry value 0 points at nothing.
pub proof fn lemma_zero_entry()
    ensures
        !is_present(0),
        !is_huge(0),
{
    assert(0u64 & 0x1 != 0x1 && 0u64 & 0x80 != 0x80) by (bit_vector);
}

/// Whether `m2` is `m` after a cleared table in frame `fresh` was hung into
/// entry `index` of the table in `parent`, by the entry value `value`.
pub open spec fn attached(
    m: &PhysicalMemory,
    m2: &PhysicalMemory,
    parent: u64,
    index: int,
    value: u64,
    fresh: u64,
) -> bool {
    &&& is_present(value)
    &&& !is_huge(value)
    &&& frame_number(value) == fresh
    &&& forall|frame: u64, i: int| #[trigger]
        m2.entry(frame, i) == if frame == fresh {
            0
        } else if frame == parent && i == index {
            value
        } else {
            m.entry(frame, i)
        }
}

/// What one page reads after a new table was hung into the path of `a`.
pub proof fn lemma_attach_page(
    m: &PhysicalMemory,
    m2: &PhysicalMemory,
    root: u64,
    a: Page,
    level: int,
    parent: u64,
    value: u64,
    fresh: u64,
    page: Page,
)
    requires
        !recursive(a),
        !recursive(page),
        1 <= level <= 3,
        m.tree_shaped(root),
        !m.is_table(root, fresh),
        m.table_for(root, a, level + 1) == Some(parent),
        !is_present(m.entry(parent, index_at(a, level + 1))),
        !is_huge(m.entry(parent, index_at(a, level + 1))),
        attached(m, m2, parent, index_at(a, level + 1), value, fresh),
    ensures
        forall|l: int|
            1 <= l <= 3 ==> #[trigger] m2.table_for(root, page, l) == if l == level && same_prefix(
                page,
                a,
                level,
            ) {
                Some(fresh)
            } else {
                m.table_for(root, page, l)
            },
        m2.translation(root, page) == m.translation(root, page),
        m2.aligned(root, page) == m.aligned(root, page),
{
    lemma_zero_entry();
    lemma_path_tables(m, root, page);
    lemma_path_tables(m, root, a);
    assert(m.is_table(root, parent));
    assert(m2.entry(root, page.p4()) == if level == 3 && page.p4() == a.p4() {
        value
    } else {
        m.entry(root, page.p4())
    });
    if let Some(p3) = m.table_for(root, page, 3) {
        assert(m.is_table(root, p3));
        assert(m.table_for(root, a, 3) == Some(p3) ==> same_prefix(page, a, 3));
        assert(m2.entry(p3, page.p3()) == if level == 2 && same_prefix(page, a, 2) {
            value
        } else {
            m.entry(p3, page.p3())
        });
    }
    if let Some(p2) = m.table_for(root, page, 2) {
        assert(m.is_table(root, p2));
        assert(m.table_for(root, a, 2) == Some(p2) ==> same_prefix(page, a, 2));
        assert(m2.entry(p2, page.p2()) == if level == 1 && same_prefix(page, a, 1) {
            value
        } else {
            m.entry(p2, page.p2())
        });
    }
    if let Some(p1) = m.table_for(root, page, 1) {
        assert(m.is_table(root, p1));
        assert(m.table_for(root, a, 2) != Some(p1));
        assert(m.table_for(root, a, 3) != Some(p1));
        assert(m2.entry(p1, page.p1()) == m.entry(p1, page.p1()));
    }
}

/// What a tree reads after a new, cleared table was hung into the path of
/// `a` at level `level`: the pages below the new table reach it, every
/// other path stays, and no translation changes.
pub proof fn lemma_attach(
    m: &PhysicalMemory,
    m2: &PhysicalMemory,
    root: u64,
    a: Page,
    level: int,
    parent: u64,
    value: u64,
    fresh: u64,
)
    requires
        !recursive(a),
        1 <= level <= 3,
        m.tree_shaped(root),
        !m.is_table(root, fresh),
        m.table_for(root, a, level + 1) == Some(parent),
        !is_present(m.entry(parent, index_at(a, level + 1))),
        !is_huge(m.entry(parent, index_at(a, level + 1))),
        attached(m, m2, parent, index_at(a, level + 1), value, fresh),
    ensures
        forall|page: Page, l: int|
            !recursive(page) && 1 <= l <= 3 ==> #[trigger] m2.table_for(root, page, l) == if l
                == level && same_prefix(page, a, level) {
                Some(fresh)
            } else {
                m.table_for(root, page, l)
            },
        forall|page: Page|
            !recursive(page) ==> #[trigger] m2.translation(root, page) == m.translation(root, page),
        forall|page: Page| !recursive(page) ==> #[trigger] m2.aligned(root, page) == m.aligned(root, page),
        m2.tree_shaped(root),
        forall|frame: u64| #[trigger]
            m2.is_table(root, frame) == (m.is_table(root, frame) || frame == fresh),
{
    assert forall|page: Page, l: int| !recursive(page) && 1 <= l <= 3 implies #[trigger] m2.table_for(
        root,
        page,
        l,
    ) == if l == level && same_prefix(page, a, level) {
        Some(fresh)
    } else {
        m.table_for(root, page, l)
    } by {
        lemma_attach_page(m, m2, root, a, level, parent, value, fresh, page);
    }
    assert forall|page: Page| !recursive(page) implies #[trigger] m2.translation(root, page)
        == m.translation(root, page) by {
        lemma_attach_page(m, m2, root, a, level, parent, value, fresh, page);
    }
    assert forall|page: Page| !recursive(page) implies #[trigger] m2.aligned(root, page)
        == m.aligned(root, page) by {
        lemma_attach_page(m, m2, root, a, level, parent, value, fresh, page);
    }
    assert(m.is_table(root, root));
    assert forall|frame: u64| #[trigger]
        m2.is_table(root, frame) == (m.is_table(root, frame) || frame == fresh) by {
        if m.is_table(root, frame) && frame != root {
            let (page, l) = choose|page: Page, l: int|
                !recursive(page) && 1 <= l <= 3 && #[trigger] m.table_for(root, page, l) == Some(
                    frame,
                );
            assert(m2.table_for(root, page, l) == Some(frame));
        }
        if frame == fresh {
            assert(m2.table_for(root, a, level) == Some(fresh));
        }
        if m2.is_table(root, frame) && frame != root {
            let (page, l) = choose|page: Page, l: int|
                !recursive(page) && 1 <= l <= 3 && #[trigger] m2.table_for(root, page, l) == Some(
                    frame,
                );
            if frame != fresh {
                assert(m.table_for(root, page, l) == Some(frame));
            }
        }
    }
    assert(m2.tree_shaped(root)) by {
        assert forall|page: Page, l: int| !recursive(page) && 1 <= l <= 3 implies #[trigger] m2.table_for(
            root,
            page,
            l,
        ) != Some(root) by {
            assert(m.table_for(root, page, l) != Some(root));
        }
        assert forall|x: Page, lx: int, y: Page, ly: int|
            !recursive(x) && !recursive(y) && 1 <= lx <= 3 && 1 <= ly <= 3 && (
            #[trigger] m2.table_for(root, x, lx)).is_some() && m2.table_for(root, x, lx)
                == #[trigger] m2.table_for(root, y, ly) implies lx == ly && same_prefix(x, y, lx) by {
            let tx = m2.table_for(root, x, lx).unwrap();
            if tx == fresh {
                if !(lx == level && same_prefix(x, a, level)) {
                    assert(m.table_for(root, x, lx) == Some(fresh));
                    assert(m.is_table(root, fresh));
                }
                if !(ly == level && same_prefix(y, a, level)) {
                    assert(m.table_for(root, y, ly) == Some(fresh));
                    assert(m.is_table(root, fresh));
                }
            } else {
                assert(m.table_for(root, x, lx) == Some(tx));
                assert(m.table_for(root, y, ly) == Some(tx));
            }
        }
    }
}

/// What the path of `a` reads after the entry of its table of level
/// `level + 1` was pointed at the frame `fresh`, before anything else is
/// done to that frame: the tables above are where they were, and the table
/// of level `level` is in `fresh`.
pub proof fn lemma_link(
    m: &PhysicalMemory,
    m2: &PhysicalMemory,
    root: u64,
    a: Page,
    level: int,
    parent: u64,
    value: u64,
    fresh: u64,
)
    requires
        !recursive(a),
        1 <= level <= 3,
        m.tree_shaped(root),
        m.table_for(root, a, level + 1) == Some(parent),
        written(m, m2, parent, index_at(a, level + 1), value),
        is_present(value),
        !is_huge(value),
        frame_number(value) == fresh,
    ensures
        forall|l: int| level < l <= 4 ==> #[trigger] m2.table_for(root, a, l) == m.table_for(root, a, l),
        m2.table_for(root, a, level) == Some(fresh),
        m2.entry(root, 511) == m.entry(root, 511),
{
    lemma_path_tables(m, root, a);
    if level + 1 <= 3 {
        assert(m.table_for(root, a, level + 1) != Some(root));
    }
    if level == 1 {
        assert(m.table_for(root, a, 3).is_some());
        assert(m.table_for(root, a, 3) != m.table_for(root, a, 2));
        assert(m2.table_for(root, a, 3) == m.table_for(root, a, 3));
        assert(m2.table_for(root, a, 2) == m.table_for(root, a, 2));
    } else if level == 2 {
        assert(m2.table_for(root, a, 3) == m.table_for(root, a, 3));
    }
}

/// Whether `after` came from `before` by adding alone: outside the frames
/// of `spare`, every entry holds what it held, unless it was not present.
/// So whatever was reached through present entries is still reached.
pub open spec fn only_adds(before: &PhysicalMemory, after: &PhysicalMemory, spare: Set<u64>) -> bool {
    forall|frame: u64, index: int|
        !spare.contains(frame) ==> #[trigger] after.entry(frame, index) == before.entry(frame, index)
            || !is_present(before.entry(frame, index))
}

/// Adding twice is adding.
pub proof fn lemma_only_adds_twice(
    first: &PhysicalMemory,
    middle: &PhysicalMemory,
    last: &PhysicalMemory,
    spare: Set<u64>,
    later: Set<u64>,
)
    requires
        only_adds(first, middle, spare),
        only_adds(middle, last, later),
        later.subset_of(spare),
    ensures
        only_adds(first, last, spare),
{
    assert forall|frame: u64, index: int| !spare.contains(frame) implies #[trigger] last.entry(frame, index)
        == first.entry(frame, index) || !is_present(first.entry(frame, index)) by {
        assert(middle.entry(frame, index) == first.entry(frame, index) || !is_present(
            first.entry(frame, index),
        ));
    }
}

/// Whether the table of level `level` on the path of `page` is in `after`
/// what it was in `before` or, where there was none, one that was newly
/// hung in: a frame of `spare`, to which the entry of the table above
/// points, present and writable, and which holds zeros but for the entry
/// on the path of `page`.
pub open spec fn linked(
    before: &PhysicalMemory,
    after: &PhysicalMemory,
    root: u64,
    page: Page,
    level: int,
    spare: Set<u64>,
) -> bool {
    match before.table_for(root, page, level) {
        Some(table) => after.table_for(root, page, level) == Some(table),
        None => match after.table_for(root, page, level) {
            Some(fresh) => {
                &&& spare.contains(fresh)
                &&& after.table_for(root, page, level + 1).is_some()
                &&& after.entry(after.table_for(root, page, level + 1).unwrap(), index_at(page, level + 1))
                    == pack(fresh, PRESENT | WRITABLE)
                &&& forall|index: int|
                    0 <= index < 512 && index != index_at(page, level) ==> #[trigger] after.entry(
                        fresh,
                        index,
                    ) == 0
            },
            None => true,
        },
    }
}

/// The step that looks for the table of level `level` on the path of
/// `page`, and hangs a cleared one in where there is none, leaves the table
/// linked.
pub proof fn lemma_linked_made(
    first: &PhysicalMemory,
    before: &PhysicalMemory,
    after: &PhysicalMemory,
    root: u64,
    page: Page,
    level: int,
    spare: Set<u64>,
)
    requires
        !recursive(page),
        1 <= level <= 3,
        first.table_for(root, page, level) == before.table_for(root, page, level),
        after.table_for(root, page, level + 1) == before.table_for(root, page, level + 1),
        before.table_for(root, page, level + 1).is_some(),
        match before.table_for(root, page, level) {
            Some(table) => after.table_for(root, page, level) == Some(table),
            None => match after.table_for(root, page, level) {
                Some(fresh) => spare.contains(fresh) && before.table_for(root, page, level + 1) != Some(
                    fresh,
                ) && attached(
                    before,
                    after,
                    before.table_for(root, page, level + 1).unwrap(),
                    index_at(page, level + 1),
                    pack(fresh, PRESENT | WRITABLE),
                    fresh,
                ),
                None => true,
            },
        },
    ensures
        linked(first, after, root, page, level, spare),
{
    if before.table_for(root, page, level).is_none() {
        if let Some(fresh) = after.table_for(root, page, level) {
            let above = before.table_for(root, page, level + 1).unwrap();
            assert(after.entry(above, index_at(page, level + 1)) == pack(fresh, PRESENT | WRITABLE));
            assert forall|index: int| 0 <= index < 512 implies #[trigger] after.entry(fresh, index) == 0 by {}
        }
    }
}

/// A table on the path of `page` that is linked stays so when a table is
/// hung in below it on that path, or an entry on that path is written at
/// its level or below.
pub proof fn lemma_linked_kept(
    first: &PhysicalMemory,
    before: &PhysicalMemory,
    after: &PhysicalMemory,
    root: u64,
    page: Page,
    level: int,
    lower: int,
    spare: Set<u64>,
    fresh: Option<u64>,
)
    requires
        !recursive(page),
        1 <= lower <= level <= 3,
        before.tree_shaped(root),
        linked(first, before, root, page, level, spare),
        before.table_for(root, page, lower).is_some(),
        forall|l: int|
            lower <= l <= 4 ==> #[trigger] after.table_for(root, page, l) == before.table_for(root, page, l),
        match fresh {
            Some(frame) => !before.is_table(root, frame),
            None => true,
        },
        forall|frame: u64, index: int|
            Some(frame) != fresh && !(Some(frame) == before.table_for(root, page, lower) && index == index_at(
                page,
                lower,
            )) ==> #[trigger] after.entry(frame, index) == before.entry(frame, index),
    ensures
        linked(first, after, root, page, level, spare),
{
    lemma_path_tables(before, root, page);
    assert(after.table_for(root, page, level) == before.table_for(root, page, level));
    assert(after.table_for(root, page, level + 1) == before.table_for(root, page, level + 1));
    assert(before.table_for(root, page, lower) == before.table_for(root, page, lower));
    if first.table_for(root, page, level).is_none() && before.table_for(root, page, level).is_some() {
        let made = before.table_for(root, page, level).unwrap();
        let above = before.table_for(root, page, level + 1).unwrap();
        let changed = before.table_for(root, page, lower).unwrap();
        assert(before.is_table(root, made));
        assert(before.is_table(root, above));
        assert(above != changed) by {
            if level + 1 <= 3 {
                assert(before.table_for(root, page, level + 1) != before.table_for(root, page, lower));
            }
        }
        assert(made == changed ==> lower == level);
        assert forall|index: int| 0 <= index < 512 && index != index_at(page, level) implies #[trigger] after.entry(
            made,
            index,
        ) == 0 by {
            assert(before.entry(made, index) == 0);
        }
    }
}

/// Whether `m2` is `m` after entry `index` of the table in `table` was set
/// to `value`.
pub open spec fn written(m: &PhysicalMemory, m2: &PhysicalMemory, table: u64, index: int, value: u64) -> bool {
    forall|frame: u64, i: int| #[trigger]
        m2.entry(frame, i) == if frame == table && i == index {
            value
        } else {
            m.entry(frame, i)
        }
}

/// Whether `a` and `b` have the same four indices.
pub open spec fn same_slot(a: Page, b: Page) -> bool {
    same_prefix(a, b, 1) && a.p1() == b.p1()
}

/// What a tree reads after the entry of `a` in its table of level 1 was
/// set to `value`: `a` is mapped as `value` says, and nothing else changes.
pub proof fn lemma_leaf(m: &PhysicalMemory, m2: &PhysicalMemory, root: u64, a: Page, table: u64, value: u64)
    requires
        !recursive(a),
        m.tree_shaped(root),
        m.table_for(root, a, 1) == Some(table),
        written(m, m2, table, a.p1(), value),
    ensures
        forall|page: Page, l: int|
            !recursive(page) ==> #[trigger] m2.table_for(root, page, l) == m.table_for(root, page, l),
        forall|page: Page|
            !recursive(page) && !same_slot(page, a) ==> #[trigger] m2.translation(root, page)
                == m.translation(root, page),
        forall|page: Page|
            !recursive(page) && same_slot(page, a) ==> #[trigger] m2.translation(root, page) == (Entry {
                value,
            }).pointed(),
        forall|page: Page| !recursive(page) ==> #[trigger] m2.aligned(root, page) == m.aligned(root, page),
        m2.tree_shaped(root),
        forall|frame: u64| #[trigger] m2.is_table(root, frame) == m.is_table(root, frame),
{
    assert forall|page: Page| !recursive(page) implies #[trigger] m2.translation(root, page) == (if same_slot(
        page,
        a,
    ) {
        (Entry { value }).pointed()
    } else {
        m.translation(root, page)
    }) by {
        lemma_leaf_page(m, m2, root, a, table, value, page);
    }
    assert forall|page: Page| !recursive(page) implies #[trigger] m2.aligned(root, page)
        == m.aligned(root, page) by {
        lemma_leaf_page(m, m2, root, a, table, value, page);
    }
    assert forall|page: Page, l: int| !recursive(page) implies #[trigger] m2.table_for(root, page, l)
        == m.table_for(root, page, l) by {
        lemma_leaf_page(m, m2, root, a, table, value, page);
    }
    assert forall|frame: u64| #[trigger] m2.is_table(root, frame) == m.is_table(root, frame) by {
        if m.is_table(root, frame) && frame != root {
            let (page, l) = choose|page: Page, l: int|
                !recursive(page) && 1 <= l <= 3 && #[trigger] m.table_for(root, page, l) == Some(
                    frame,
                );
            assert(m2.table_for(root, page, l) == Some(frame));
        }
        if m2.is_table(root, frame) && frame != root {
            let (page, l) = choose|page: Page, l: int|
                !recursive(page) && 1 <= l <= 3 && #[trigger] m2.table_for(root, page, l) == Some(
                    frame,
                );
            assert(m.table_for(root, page, l) == Some(frame));
        }
    }
}

/// What one page reads after the entry of `a` in its table of level 1 was
/// set to `value`.
pub proof fn lemma_leaf_page(
    m: &PhysicalMemory,
    m2: &PhysicalMemory,
    root: u64,
    a: Page,
    table: u64,
    value: u64,
    page: Page,
)
    requires
        !recursive(a),
        !recursive(page),
        m.tree_shaped(root),
        m.table_for(root, a, 1) == Some(table),
        written(m, m2, table, a.p1(), value),
    ensures
        forall|l: int| #[trigger] m2.table_for(root, page, l) == m.table_for(root, page, l),
        m2.translation(root, page) == if same_slot(page, a) {
            (Entry { value }).pointed()
        } else {
            m.translation(root, page)
        },
        m2.aligned(root, page) == m.aligned(root, page),
{
    assert(m.table_for(root, a, 1) != Some(root));
    assert(m2.entry(root, page.p4()) == m.entry(root, page.p4()));
    if let Some(p3) = m.table_for(root, page, 3) {
        assert(m.table_for(root, a, 1) != Some(p3));
        assert(m2.entry(p3, page.p3()) == m.entry(p3, page.p3()));
    }
    if let Some(p2) = m.table_for(root, page, 2) {
        assert(m.table_for(root, a, 1) != Some(p2));
        assert(m2.entry(p2, page.p2()) == m.entry(p2, page.p2()));
    }
    if let Some(p1) = m.table_for(root, page, 1) {
        assert(m.table_for(root, a, 1) == Some(p1) ==> same_prefix(page, a, 1));
    }
    assert(m.table_for(root, a, 2).is_some());
    assert(m.table_for(root, a, 3).is_some());
}

/// Whether the tables below `root` make up an address space that can be
/// loaded: the recursive slot of `root` points at `root`, the tables form a
/// tree, and every huge page outside the recursive part starts where it
/// has to.
pub open spec fn sound(m: &PhysicalMemory, root: u64) -> bool {
    &&& root < MAX_FRAMES
    &&& m.entry(root, 511) == pack(root, PRESENT | WRITABLE)
    &&& m.tree_shaped(root)
    &&& forall|page: Page| !recursive(page) ==> #[trigger] m.aligned(root, page)
}

/// Whether the tables below `root` form a tree in which every huge page
/// outside the recursive part starts where it has to, whatever the
/// recursive slot of `root` holds.
pub open spec fn shaped(m: &PhysicalMemory, root: u64) -> bool {
    &&& m.tree_shaped(root)
    &&& forall|page: Page| !recursive(page) ==> #[trigger] m.aligned(root, page)
}

/// Whether the trees below `a` and below `b` share no table.
pub open spec fn apart(m: &PhysicalMemory, a: u64, b: u64) -> bool {
    forall|frame: u64| #[trigger] m.is_table(a, frame) ==> !m.is_table(b, frame)
}

/// Whether none of the tables below `root` is in one of `frames`.
pub open spec fn clear_of(m: &PhysicalMemory, root: u64, frames: Set<u64>) -> bool {
    forall|frame: u64| #[trigger] m.is_table(root, frame) ==> !frames.contains(frame)
}

/// A tree whose highest table holds nothing but its recursive slot is
/// sound, has no table but that one and maps no page.
pub proof fn lemma_empty_tree(m: &PhysicalMemory, root: u64)
    requires
        root < MAX_FRAMES,
        m.entry(root, 511) == pack(root, PRESENT | WRITABLE),
        forall|index: int| index != 511 ==> #[trigger] m.entry(root, index) == 0,
    ensures
        sound(m, root),
        forall|frame: u64| #[trigger] m.is_table(root, frame) <==> frame == root,
        forall|page: Page| !recursive(page) ==> (#[trigger] m.translation(root, page)).is_none(),
        forall|page: Page, level: int|
            !recursive(page) && 1 <= level <= 3 ==> (#[trigger] m.table_for(root, page, level)).is_none(),
{
    lemma_zero_entry();
    assert forall|page: Page, level: int| !recursive(page) && 1 <= level <= 3 implies (#[trigger] m.table_for(
        root,
        page,
        level,
    )).is_none() by {
        assert(m.entry(root, page.p4()) == 0);
    }
    assert forall|page: Page| !recursive(page) implies (#[trigger] m.translation(root, page)).is_none()
        && m.aligned(root, page) by {
        assert(m.table_for(root, page, 3).is_none());
    }
    assert forall|page: Page| !recursive(page) implies #[trigger] m.aligned(root, page) by {
        assert(m.table_for(root, page, 3).is_none());
    }
    assert forall|frame: u64| #[trigger] m.is_table(root, frame) implies frame == root by {
        if frame != root {
            let (page, level) = choose|page: Page, level: int|
                !recursive(page) && 1 <= level <= 3 && #[trigger] m.table_for(root, page, level)
                    == Some(frame);
            assert(m.table_for(root, page, level).is_none());
        }
    }
}

} // verus!
