//! Which application icons are known, on their way, or not to be had.
//!
//! Icons are kept by path: two sessions of one program share one, and a path
//! that failed once is not tried again. An icon is known here by its number;
//! the image itself is the window's.
use crate::text::same_text;
use vstd::prelude::*;

verus! {

/// What is known of one path.
#[derive(Debug, Clone, Copy, PartialEq, Eq, Structural)]
pub enum IconSlot {
    Pending,
    Ready(usize),
    Failed,
}

/// What to do about the icon of one path.
#[derive(Debug, Clone, Copy, PartialEq, Eq, Structural)]
pub enum IconAnswer {
    Draw(usize),
    /// There is none, or not yet.
    Fallback,
    /// There is none yet: extract it, and draw the fallback meanwhile.
    Extract,
}

/// The slots of all paths that were asked for, each path once.
#[derive(Debug)]
pub struct IconCache {
    entries: Vec<(String, IconSlot)>,
}

/// The slot of the first entry of a path, from `from` on.
pub open spec fn slot_from(entries: Seq<(Seq<char>, IconSlot)>, path: Seq<char>, from: int) -> Option<
    IconSlot,
>
    decreases entries.len() - from,
{
    if from < 0 || from >= entries.len() {
        None
    } else if entries[from].0 == path {
        Some(entries[from].1)
    } else {
        slot_from(entries, path, from + 1)
    }
}

impl IconCache {
    /// No path is there twice.
    pub closed spec fn wf(self) -> bool {
        forall|i: int, j: int|
            0 <= i < j < self.entries@.len() ==> (#[trigger] self.entries@[i]).0@ != (
            #[trigger] self.entries@[j]).0@
    }

    pub closed spec fn listed(self) -> Seq<(Seq<char>, IconSlot)> {
        Seq::new(self.entries@.len(), |i: int| (self.entries@[i].0@, self.entries@[i].1))
    }

    /// What is known of a path.
    pub open spec fn slot(self, path: Seq<char>) -> Option<IconSlot> {
        slot_from(self.listed(), path, 0)
    }

    /// How many paths were asked for.
    pub open spec fn count(self) -> nat {
        self.listed().len()
    }

    pub fn new() -> (r: IconCache)
        ensures
            r.wf(),
            r.count() == 0,
            forall|path: Seq<char>| r.slot(path) is None,
    {
        IconCache { entries: Vec::new() }
    }

    pub fn len(&self) -> (r: usize)
        ensures
            r == self.count(),
    {
        self.entries.len()
    }

    fn find(&self, path: &str) -> (r: Option<usize>)
        ensures
            match r {
                Some(i) => i < self.entries@.len() && self.entries@[i as int].0@ == path@
                    && self.slot(path@) == Some(self.entries@[i as int].1) && forall|j: int|
                    0 <= j < i ==> (#[trigger] self.entries@[j]).0@ != path@,
                None => self.slot(path@) is None && forall|j: int|
                    0 <= j < self.entries@.len() ==> (#[trigger] self.entries@[j]).0@ != path@,
            },
    {
        let mut i: usize = 0;
        while i < self.entries.len()
            invariant
                i <= self.entries@.len(),
                self.slot(path@) == slot_from(self.listed(), path@, i as int),
                forall|j: int| 0 <= j < i ==> (#[trigger] self.entries@[j]).0@ != path@,
            decreases self.entries@.len() - i,
        {
            if same_text(self.entries[i].0.as_str(), path) {
                return Some(i);
            }
            i = i + 1;
        }
        None
    }

    fn put(&mut self, path: &str, slot: IconSlot)
        requires
            old(self).wf(),
        ensures
            final(self).wf(),
            forall|other: Seq<char>|
                #[trigger] final(self).slot(other) == if other == path@ {
                    Some(slot)
                } else {
                    old(self).slot(other)
                },
            final(self).count() == if old(self).slot(path@) is Some {
                old(self).count()
            } else {
                old(self).count() + 1
            },
    {
        match self.find(path) {
            Some(i) => {
                let ghost before = self.listed();
                self.entries[i].1 = slot;
                proof {
                    let after = self.listed();
                    assert(after =~= before.update(i as int, (path@, slot)));
                    assert forall|other: Seq<char>| #[trigger] self.slot(other) == if other
                        == path@ {
                        Some(slot)
                    } else {
                        old(self).slot(other)
                    } by {
                        lemma_slot_updated(before, i as int, path@, slot, other, 0);
                    }
                    assert(self.wf());
                }
            },
            None => {
                let ghost before = self.listed();
                self.entries.push((path.to_owned(), slot));
                proof {
                    let after = self.listed();
                    assert(after =~= before.push((path@, slot)));
                    assert forall|other: Seq<char>| #[trigger] self.slot(other) == if other
                        == path@ {
                        Some(slot)
                    } else {
                        old(self).slot(other)
                    } by {
                        lemma_slot_pushed(before, path@, slot, other, 0);
                    }
                }
            },
        }
    }

    /// The icon of a path. One that was never asked for is to be extracted; one
    /// that is on its way or failed is not asked for again, and neither is an
    /// empty path.
    pub fn texture(&mut self, path: &str) -> (r: IconAnswer)
        requires
            old(self).wf(),
        ensures
            final(self).wf(),
            path@.len() == 0 ==> r == IconAnswer::Fallback && *final(self) == *old(self),
            path@.len() > 0 ==> match old(self).slot(path@) {
                Some(IconSlot::Ready(icon)) => r == IconAnswer::Draw(icon) && *final(self) == *old(
                    self),
                Some(_) => r == IconAnswer::Fallback && *final(self) == *old(self),
                None => {
                    &&& r == IconAnswer::Extract
                    &&& final(self).count() == old(self).count() + 1
                    &&& forall|other: Seq<char>|
                        #[trigger] final(self).slot(other) == if other == path@ {
                            Some(IconSlot::Pending)
                        } else {
                            old(self).slot(other)
                        }
                },
            },
    {
        proof {
            reveal_strlit("");
            if path@.len() == 0 {
                assert(path@ =~= ""@);
            }
        }
        if same_text(path, "") {
            return IconAnswer::Fallback;
        }
        match self.find(path) {
            Some(i) => match self.entries[i].1 {
                IconSlot::Ready(icon) => IconAnswer::Draw(icon),
                IconSlot::Pending => IconAnswer::Fallback,
                IconSlot::Failed => IconAnswer::Fallback,
            },
            None => {
                self.put(path, IconSlot::Pending);
                IconAnswer::Extract
            },
        }
    }

    /// An extraction is done: with an icon, or without one.
    pub fn resolved(&mut self, path: &str, icon: Option<usize>)
        requires
            old(self).wf(),
        ensures
            final(self).wf(),
            final(self).count() == if old(self).slot(path@) is Some {
                old(self).count()
            } else {
                old(self).count() + 1
            },
            forall|other: Seq<char>|
                #[trigger] final(self).slot(other) == if other == path@ {
                    Some(
                        match icon {
                            Some(icon) => IconSlot::Ready(icon),
                            None => IconSlot::Failed,
                        },
                    )
                } else {
                    old(self).slot(other)
                },
    {
        let slot = match icon {
            Some(icon) => IconSlot::Ready(icon),
            None => IconSlot::Failed,
        };
        self.put(path, slot);
    }
}

proof fn lemma_slot_updated(
    entries: Seq<(Seq<char>, IconSlot)>,
    i: int,
    path: Seq<char>,
    slot: IconSlot,
    other: Seq<char>,
    from: int,
)
    requires
        0 <= i < entries.len(),
        entries[i].0 == path,
        forall|j: int| 0 <= j < i ==> (#[trigger] entries[j]).0 != path,
        0 <= from <= i || other != path,
        0 <= from,
    ensures
        slot_from(entries.update(i, (path, slot)), other, from) == if other == path {
            Some(slot)
        } else {
            slot_from(entries, other, from)
        },
    decreases entries.len() - from,
{
    if from < entries.len() && entries[from].0 != other {
        lemma_slot_updated(entries, i, path, slot, other, from + 1);
    }
}

proof fn lemma_slot_pushed(
    entries: Seq<(Seq<char>, IconSlot)>,
    path: Seq<char>,
    slot: IconSlot,
    other: Seq<char>,
    from: int,
)
    requires
        0 <= from <= entries.len(),
        forall|j: int| 0 <= j < entries.len() ==> (#[trigger] entries[j]).0 != path,
    ensures
        slot_from(entries.push((path, slot)), other, from) == if other == path {
            Some(slot)
        } else {
            slot_from(entries, other, from)
        },
    decreases entries.len() - from,
{
    let after = entries.push((path, slot));
    if from < entries.len() {
        assert(after[from] == entries[from]);
        if entries[from].0 != other {
            lemma_slot_pushed(entries, path, slot, other, from + 1);
        }
    } else {
        assert(after[from] == (path, slot));
        reveal_with_fuel(slot_from, 2);
    }
}

} // verus!
