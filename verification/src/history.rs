//! Navigation history: two queues, one feeding the back arrow and one the
//! forward arrow, bounded by a configured depth.

use crate::types::TabItem;
use std::collections::VecDeque;
use vstd::prelude::*;

verus! {

/// The two navigation queues.
pub struct NavHistory {
    lhistory: VecDeque<TabItem>,
    rhistory: VecDeque<TabItem>,
    max_nav_history: usize,
}

impl NavHistory {
    /// The queue behind the back arrow.
    pub closed spec fn lhist(self) -> Seq<TabItem> {
        self.lhistory@
    }

    /// The queue behind the forward arrow.
    pub closed spec fn rhist(self) -> Seq<TabItem> {
        self.rhistory@
    }

    pub closed spec fn depth(self) -> nat {
        self.max_nav_history as nat
    }

    /// Empty history with the configured depth.
    pub fn new(max_nav_history: usize) -> (r: NavHistory)
        ensures
            r.lhist().len() == 0,
            r.rhist().len() == 0,
            r.depth() == max_nav_history,
    {
        NavHistory {
            lhistory: VecDeque::new(),
            rhistory: VecDeque::new(),
            max_nav_history,
        }
    }

    /// Both queues, for reading.
    pub fn get_history(&self) -> (r: (&VecDeque<TabItem>, &VecDeque<TabItem>))
        ensures
            r.0@ == self.lhist(),
            r.1@ == self.rhist(),
    {
        (&self.lhistory, &self.rhistory)
    }

    /// Records a visited location behind the back arrow, dropping the
    /// oldest entry once the configured depth is reached.
    pub fn add_to_history(&mut self, item: TabItem)
        ensures
            final(self).rhist() == old(self).rhist(),
            final(self).depth() == old(self).depth(),
            final(self).lhist().len() <= old(self).lhist().len() + 1,
            old(self).lhist().len() < old(self).depth() ==> final(self).lhist() == old(self).lhist().push(item),
            old(self).lhist().len() >= old(self).depth() && old(self).lhist().len() > 0 ==> final(self).lhist() == old(self).lhist().subrange(1, old(self).lhist().len() as int).push(item),
            old(self).lhist().len() == 0 && old(self).depth() == 0 ==> final(self).lhist()
                == Seq::<TabItem>::empty().push(item),
    {
        if self.lhistory.len() >= self.max_nav_history {
            let _ = self.lhistory.pop_front();
        }
        self.lhistory.push_back(item);
    }

    /// The location the back arrow leads to, if any; the place left behind
    /// goes to the forward queue.
    pub fn get_prev_history(&mut self, current: TabItem) -> (r: Option<TabItem>)
        ensures
            final(self).depth() == old(self).depth(),
            old(self).lhist().len() == 0 ==> r is None && final(self).lhist() == old(self).lhist()
                && final(self).rhist() == old(self).rhist(),
            old(self).lhist().len() > 0 ==> {
                &&& r == Some(old(self).lhist().last())
                &&& final(self).lhist() == old(self).lhist().drop_last()
                &&& final(self).rhist() == old(self).rhist().push(current)
            },
    {
        match self.lhistory.pop_back() {
            Some(item) => {
                self.rhistory.push_back(current);
                proof {
                    assert(final(self).lhist() =~= old(self).lhist().drop_last());
                }
                Some(item)
            },
            None => None,
        }
    }

    /// The location the forward arrow leads to, if any; the place left
    /// behind is queued in its stead.
    pub fn get_next_history(&mut self, current: TabItem) -> (r: Option<TabItem>)
        ensures
            final(self).depth() == old(self).depth(),
            final(self).lhist() == old(self).lhist(),
            old(self).rhist().len() == 0 ==> r is None && final(self).rhist() == old(self).rhist(),
            old(self).rhist().len() > 0 ==> {
                &&& r == Some(old(self).rhist().last())
                &&& final(self).rhist() == old(self).rhist().drop_last().push(current)
            },
    {
        match self.rhistory.pop_back() {
            Some(item) => {
                self.rhistory.push_back(current);
                proof {
                    assert(final(self).rhist() =~= old(self).rhist().drop_last().push(current));
                }
                Some(item)
            },
            None => None,
        }
    }
}

} // verus!
