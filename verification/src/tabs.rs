//! Ordered tab collection with an always-valid active index.

use vstd::prelude::*;

verus! {

/// A list of tabs plus the active one.
///
/// Invariant: `active < len()` whenever the collection is not empty.
pub struct Tabs<T> {
    list: Vec<T>,
    active: usize,
}

/// Model of [`Tabs`].
pub struct TabsView<T> {
    pub list: Seq<T>,
    pub active: int,
}

/// The active index after the tab at `index` of `len` tabs is removed: closing
/// a tab before the active one, or the active one at the end, moves it back.
pub open spec fn active_after_close(active: int, index: int, len: int) -> int {
    if index < active || active >= len - 1 {
        if active > 0 {
            active - 1
        } else {
            0
        }
    } else {
        active
    }
}

/// The tabs with one more at the end, which is active.
pub open spec fn with_tab<T>(tabs: TabsView<T>, item: T) -> TabsView<T> {
    TabsView { list: tabs.list.push(item), active: tabs.list.len() as int }
}

/// The tabs without the one at `index`, if there is one.
pub open spec fn without_tab<T>(tabs: TabsView<T>, index: int) -> TabsView<T> {
    if 0 <= index < tabs.list.len() {
        TabsView {
            list: tabs.list.remove(index),
            active: active_after_close(tabs.active, index, tabs.list.len() as int),
        }
    } else {
        tabs
    }
}

/// The tabs with the one at `index` active, if there is one.
pub open spec fn switched_to<T>(tabs: TabsView<T>, index: int) -> TabsView<T> {
    if 0 <= index < tabs.list.len() {
        TabsView { active: index, ..tabs }
    } else {
        tabs
    }
}

impl<T> Tabs<T> {
    pub closed spec fn view(&self) -> TabsView<T> {
        TabsView { list: self.list@, active: self.active as int }
    }

    /// The tabs in order.
    pub open spec fn items(&self) -> Seq<T> {
        self.view().list
    }

    /// The index of the active tab.
    pub open spec fn active_at(&self) -> int {
        self.view().active
    }

    #[verifier::type_invariant]
    closed spec fn in_range(self) -> bool {
        self.wf()
    }

    /// The active index is valid whenever there are tabs.
    pub open spec fn wf(&self) -> bool {
        &&& self.items().len() == 0 ==> self.active_at() == 0
        &&& self.items().len() > 0 ==> 0 <= self.active_at() < self.items().len()
    }

    pub fn new() -> (r: Self)
        ensures
            r.wf(),
            r.items() == Seq::<T>::empty(),
    {
        Tabs { list: Vec::new(), active: 0 }
    }

    /// Take the tabs out, to be put back with another active index.
    fn take_list(&mut self) -> (r: Vec<T>)
        ensures
            r@ == old(self).items(),
            final(self).items() == Seq::<T>::empty(),
    {
        let mut taken = Tabs::new();
        std::mem::swap(self, &mut taken);
        taken.list
    }

    pub fn len(&self) -> (r: usize)
        ensures
            r == self.items().len(),
    {
        self.list.len()
    }

    pub fn is_empty(&self) -> (r: bool)
        ensures
            r == (self.items().len() == 0),
    {
        self.list.len() == 0
    }

    pub fn active_index(&self) -> (r: usize)
        ensures
            r == self.active_at(),
            self.wf(),
    {
        proof {
            use_type_invariant(self);
        }
        self.active
    }

    /// The active tab.
    pub fn active(&self) -> (r: Option<&T>)
        ensures
            match r {
                Some(tab) => self.items().len() > 0 && *tab == self.items()[self.active_at()],
                None => self.items().len() == 0,
            },
    {
        proof {
            use_type_invariant(self);
        }
        if self.active < self.list.len() {
            Some(&self.list[self.active])
        } else {
            None
        }
    }

    /// The active tab, to be changed.
    pub fn active_mut(&mut self) -> (r: Option<&mut T>)
        ensures
            final(self).wf(),
            final(self).active_at() == old(self).active_at(),
            match r {
                Some(tab) => {
                    &&& old(self).items().len() > 0
                    &&& *tab == old(self).items()[old(self).active_at()]
                    &&& final(self).items() == old(self).items().update(
                        old(self).active_at(),
                        *final(tab),
                    )
                },
                None => old(self).items().len() == 0 && final(self).items() == old(self).items(),
            },
    {
        proof {
            use_type_invariant(&*self);
        }
        if self.active < self.list.len() {
            Some(&mut self.list[self.active])
        } else {
            None
        }
    }

    /// The tab at `index`.
    pub fn get(&self, index: usize) -> (r: Option<&T>)
        ensures
            match r {
                Some(tab) => index < self.items().len() && *tab == self.items()[index as int],
                None => index >= self.items().len(),
            },
    {
        if index < self.list.len() {
            Some(&self.list[index])
        } else {
            None
        }
    }

    /// The tab at `index`, to be changed.
    pub fn get_mut(&mut self, index: usize) -> (r: Option<&mut T>)
        ensures
            final(self).wf(),
            final(self).active_at() == old(self).active_at(),
            match r {
                Some(tab) => {
                    &&& index < old(self).items().len()
                    &&& *tab == old(self).items()[index as int]
                    &&& final(self).items() == old(self).items().update(index as int, *final(tab))
                },
                None => index >= old(self).items().len() && final(self).items() == old(self).items(),
            },
    {
        proof {
            use_type_invariant(&*self);
        }
        if index < self.list.len() {
            Some(&mut self.list[index])
        } else {
            None
        }
    }

    /// Append a tab and make it active.
    pub fn push(&mut self, item: T)
        ensures
            final(self).wf(),
            final(self).view() == with_tab(old(self).view(), item),
            final(self).items() == old(self).items().push(item),
            final(self).active_at() == old(self).items().len(),
    {
        let mut list = self.take_list();
        let active: usize = list.len();
        list.push(item);
        *self = Tabs { list, active };
    }

    /// Remove a tab, keeping the active index valid; a tab that does not exist
    /// is ignored. Closing a tab before the active one leaves the active tab
    /// the same.
    pub fn close(&mut self, index: usize)
        ensures
            final(self).wf(),
            final(self).view() == without_tab(old(self).view(), index as int),
            index < old(self).items().len() ==> {
                &&& final(self).items() == old(self).items().remove(index as int)
                &&& final(self).active_at() == active_after_close(
                    old(self).active_at(),
                    index as int,
                    old(self).items().len() as int,
                )
            },
            index >= old(self).items().len() ==> {
                &&& final(self).items() == old(self).items()
                &&& final(self).active_at() == old(self).active_at()
            },
    {
        proof {
            use_type_invariant(&*self);
        }
        if index >= self.list.len() {
            return ;
        }
        let mut active: usize = self.active;
        let mut list = self.take_list();
        if index < active || active >= list.len() - 1 {
            if active > 0 {
                active = active - 1;
            }
        }
        let _ = list.remove(index);
        *self = Tabs { list, active };
    }

    /// Make `index` active if it exists.
    pub fn switch(&mut self, index: usize)
        ensures
            final(self).wf(),
            final(self).view() == switched_to(old(self).view(), index as int),
            final(self).items() == old(self).items(),
            final(self).active_at() == if index < old(self).items().len() {
                index as int
            } else {
                old(self).active_at()
            },
    {
        proof {
            use_type_invariant(&*self);
        }
        if index < self.list.len() {
            self.active = index;
        }
    }
}

// ---------------------------------------------------------------------------
// Laws.

/// A new tab comes last and is shown; those before it stay where they are.
pub proof fn law_new_tab_is_active<T>(tabs: TabsView<T>, item: T, k: int)
    requires
        0 <= k < tabs.list.len(),
    ensures
        ({
            let after = with_tab(tabs, item);
            &&& after.list.len() == tabs.list.len() + 1
            &&& after.list[after.active] == item
            &&& after.active == after.list.len() - 1
            &&& after.list[k] == tabs.list[k]
        }),
{
}

/// Switching shows the tab that is asked for, and changes no tab; one that is
/// not there is not switched to.
pub proof fn law_switch_shows_the_tab<T>(tabs: TabsView<T>, index: int)
    ensures
        switched_to(tabs, index).list == tabs.list,
        0 <= index < tabs.list.len() ==> switched_to(tabs, index).active == index,
        !(0 <= index < tabs.list.len()) ==> switched_to(tabs, index) == tabs,
{
}

/// Closing a tab takes that one away and keeps the others in order; closing the
/// tab that was just opened, with the one before it active, leaves what was
/// there.
pub proof fn law_close_removes_one<T>(tabs: TabsView<T>, item: T, index: int, k: int)
    requires
        0 <= index < tabs.list.len(),
        0 <= k < tabs.list.len() - 1,
    ensures
        without_tab(tabs, index).list.len() == tabs.list.len() - 1,
        k < index ==> without_tab(tabs, index).list[k] == tabs.list[k],
        k >= index ==> without_tab(tabs, index).list[k] == tabs.list[k + 1],
        without_tab(with_tab(tabs, item), tabs.list.len() as int).list == tabs.list,
        without_tab(tabs, tabs.list.len() as int) == tabs,
{
    assert(tabs.list.push(item).remove(tabs.list.len() as int) =~= tabs.list);
}

/// Closing a tab before the active one leaves the active tab the same.
pub proof fn law_close_before_active<T>(list: Seq<T>, active: int, index: int)
    requires
        0 <= index < active < list.len(),
    ensures
        list.remove(index)[active_after_close(active, index, list.len() as int)] == list[active],
{
}

/// Closing a tab after the active one leaves the active tab the same.
pub proof fn law_close_after_active<T>(list: Seq<T>, active: int, index: int)
    requires
        0 <= active < index < list.len(),
    ensures
        list.remove(index)[active_after_close(active, index, list.len() as int)] == list[active],
{
}

/// Closing the active tab activates the one that takes its place, or the new
/// last one.
pub proof fn law_close_active<T>(list: Seq<T>, active: int)
    requires
        0 <= active < list.len(),
        list.len() > 1,
    ensures
        list.remove(active)[active_after_close(active, active, list.len() as int)] == if active + 1
            < list.len() {
            list[active + 1]
        } else {
            list[active - 1]
        },
{
}

} // verus!
