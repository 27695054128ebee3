//! The dashboard engine: per-source tabs over the shared leaves, cyclic tab
//! navigation, and dispatch of snapshot and keyboard events to the active
//! tab. Once the quit flag is set every further mutation is a no-op.

use std::collections::VecDeque;
use vstd::prelude::*;

use crate::history::{bounded_append, hist_step};
use crate::list::{sel_of, step_next, step_prev, StatefulList};
use crate::model::{
    ActorTreeNode, AkkaSettings, Fiber, FiberCount, FiberStatus, HikariMetrics,
    JMXConnectionSettings, SlickConfig, SlickMetrics,
};
use crate::tree::{forest_render, tree_list_widget, unique_ids, ItemModel, TreeItem};

verus! {

// ---- spec views of snapshots and rendered rows ----

pub open spec fn fiber_item(f: Fiber) -> ItemModel {
    ItemModel {
        id: f.id,
        parent_id: f.parent_id,
        tag: f.status.spec_label(),
        payload: f.dump@,
    }
}

pub open spec fn fiber_models(s: Seq<Fiber>) -> Seq<ItemModel> {
    s.map_values(|f: Fiber| fiber_item(f))
}

pub open spec fn actor_item(a: ActorTreeNode) -> ItemModel {
    ItemModel { id: a.id, parent_id: a.parent_id, tag: Seq::empty(), payload: a.name@ }
}

pub open spec fn actor_models(s: Seq<ActorTreeNode>) -> Seq<ItemModel> {
    s.map_values(|a: ActorTreeNode| actor_item(a))
}

pub open spec fn strings_of(s: Seq<String>) -> Seq<Seq<char>> {
    s.map_values(|x: String| x@)
}

pub open spec fn labels_of(out: Seq<(Seq<char>, ItemModel)>) -> Seq<Seq<char>> {
    out.map_values(|p: (Seq<char>, ItemModel)| p.0)
}

pub open spec fn payloads_of(out: Seq<(Seq<char>, ItemModel)>) -> Seq<Seq<char>> {
    out.map_values(|p: (Seq<char>, ItemModel)| p.1.payload)
}

// ---- line counting for the dump viewer ----

pub open spec fn newline_count(b: Seq<u8>) -> nat
    decreases b.len(),
{
    if b.len() == 0 {
        0
    } else {
        newline_count(b.drop_last()) + if b.last() == 10u8 {
            1nat
        } else {
            0nat
        }
    }
}

/// Lines of a text: newline-separated segments, with no empty segment after
/// a trailing newline.
pub open spec fn byte_line_count(b: Seq<u8>) -> nat {
    newline_count(b) + if b.len() > 0 && b.last() != 10u8 {
        1nat
    } else {
        0nat
    }
}

/// The number of lines of a dump text.
pub open spec fn dump_height(s: Seq<char>) -> nat {
    byte_line_count(vstd::utf8::encode_utf8(s))
}

proof fn lemma_newline_count_bound(b: Seq<u8>)
    ensures
        newline_count(b) <= b.len(),
        b.len() > 0 && b.last() != 10u8 ==> newline_count(b) + 1 <= b.len(),
    decreases b.len(),
{
    if b.len() > 0 {
        lemma_newline_count_bound(b.drop_last());
    }
}

fn count_lines(s: &str) -> (r: usize)
    ensures
        r as nat == dump_height(s@),
{
    let b = s.as_bytes();
    let ghost bs = b@;
    let mut c: usize = 0;
    let mut i: usize = 0;
    while i < b.len()
        invariant
            0 <= i <= bs.len(),
            bs == b@,
            c as nat == newline_count(bs.take(i as int)),
            c <= i,
        decreases b.len() - i,
    {
        if b[i] == 10u8 {
            c += 1;
        }
        proof {
            assert(bs.take(i as int + 1).drop_last() =~= bs.take(i as int));
        }
        i += 1;
    }
    proof {
        assert(bs.take(bs.len() as int) =~= bs);
        lemma_newline_count_bound(bs);
    }
    if b.len() > 0 && b[b.len() - 1] != 10u8 {
        proof {
            assert(bs.last() != 10u8);
        }
        c + 1
    } else {
        c
    }
}

/// The height stored beside a dump, saturated to the widest value the
/// scroll field can hold.
pub open spec fn stored_height(s: Seq<char>) -> nat {
    if dump_height(s) > u16::MAX {
        u16::MAX as nat
    } else {
        dump_height(s)
    }
}

fn prepare_dump(s: String) -> (r: (String, u16))
    ensures
        r.0@ == s@,
        r.1 as nat == stored_height(s@),
{
    let n = count_lines(s.as_str());
    let h: u16 = if n > 65535 {
        65535
    } else {
        n as u16
    };
    (s, h)
}

// ---- tabs ----

/// The closed set of data-source kinds.
#[derive(Clone, Copy, PartialEq, Eq, Structural, Debug)]
pub enum TabKind {
    ZMX,
    Slick,
    AkkaActorTree,
}

/// A tab descriptor: its source kind and its display title.
pub struct Tab<'a> {
    pub kind: TabKind,
    pub title: &'a str,
}

pub open spec fn kinds_of(tabs: Seq<Tab>) -> Seq<TabKind> {
    tabs.map_values(|t: Tab| t.kind)
}

/// The ordered set of configured tabs plus the active index.
pub struct TabsState<'a> {
    pub tabs: Vec<Tab<'a>>,
    pub index: usize,
}

impl<'a> TabsState<'a> {
    /// The active index points into the tabs whenever any exist.
    pub open spec fn wf(self) -> bool {
        if self.tabs@.len() == 0 {
            self.index == 0
        } else {
            (self.index as int) < self.tabs@.len()
        }
    }

    pub fn new(tabs: Vec<Tab<'a>>) -> (r: TabsState<'a>)
        ensures
            r.tabs == tabs,
            r.index == 0,
            r.wf(),
    {
        TabsState { tabs, index: 0 }
    }

    /// Rotates to the following tab, wrapping past the end; a no-op with no
    /// tabs configured.
    pub fn next(&mut self)
        requires
            old(self).wf(),
        ensures
            final(self).tabs == old(self).tabs,
            final(self).wf(),
            old(self).tabs@.len() > 0 ==> final(self).index as int == crate::list::next_index(
                Some(old(self).index),
                old(self).tabs@.len() as int,
            ),
            old(self).tabs@.len() == 0 ==> *final(self) == *old(self),
    {
        if self.tabs.len() == 0 {
            return ;
        }
        if self.index >= self.tabs.len() - 1 {
            self.index = 0;
        } else {
            self.index = self.index + 1;
        }
    }

    /// Rotates to the preceding tab, wrapping below the start; a no-op with
    /// no tabs configured.
    pub fn previous(&mut self)
        requires
            old(self).wf(),
        ensures
            final(self).tabs == old(self).tabs,
            final(self).wf(),
            old(self).tabs@.len() > 0 ==> final(self).index as int == crate::list::prev_index(
                Some(old(self).index),
                old(self).tabs@.len() as int,
            ),
            old(self).tabs@.len() == 0 ==> *final(self) == *old(self),
    {
        if self.tabs.len() == 0 {
            return ;
        }
        if self.index > 0 {
            self.index = self.index - 1;
        } else {
            self.index = self.tabs.len() - 1;
        }
    }

    /// The active tab descriptor.
    pub fn current(&self) -> (r: &Tab<'a>)
        requires
            self.wf(),
            self.tabs@.len() > 0,
        ensures
            *r == self.tabs@[self.index as int],
    {
        &self.tabs[self.index]
    }

    /// The display titles, in tab order.
    pub fn titles(&self) -> (r: Vec<&'a str>)
        ensures
            r@.len() == self.tabs@.len(),
            forall|i: int| 0 <= i < r@.len() ==> r@[i] == self.tabs@[i].title,
    {
        let mut r: Vec<&'a str> = Vec::new();
        let mut i: usize = 0;
        while i < self.tabs.len()
            invariant
                0 <= i <= self.tabs@.len(),
                r@.len() == i,
                forall|j: int| 0 <= j < i ==> r@[j] == self.tabs@[j].title,
            decreases self.tabs@.len() - i,
        {
            r.push(self.tabs[i].title);
            i += 1;
        }
        r
    }
}

// ---- the fiber-scheduler tab ----

/// Per-snapshot tally of a fiber list by status.
pub open spec fn status_pred(st: FiberStatus) -> spec_fn(Fiber) -> bool {
    |f: Fiber| f.status == st
}

pub open spec fn count_status(s: Seq<Fiber>, st: FiberStatus) -> int {
    s.filter(status_pred(st)).len() as int
}

pub open spec fn snapshot_tally(s: Seq<Fiber>) -> FiberCount {
    FiberCount {
        done: count_status(s, FiberStatus::Done) as u64,
        suspended: count_status(s, FiberStatus::Suspended) as u64,
        running: count_status(s, FiberStatus::Running) as u64,
        finishing: count_status(s, FiberStatus::Finishing) as u64,
    }
}

/// The fiber-scheduler tab: the rendered fiber tree as a selection list,
/// the dump texts aligned with it, the scroll state of the selected dump,
/// and the rolling tally history.
pub struct ZMXTab {
    pub fibers: StatefulList<String>,
    pub selected_fiber_dump: (String, u16),
    pub fiber_dump_all: Vec<String>,
    pub scroll: u16,
    pub fiber_counts: VecDeque<FiberCount>,
}

impl ZMXTab {
    pub const MAX_FIBER_COUNT_MEASURES: usize = 100;

    /// The dump list stays aligned one-to-one with the label list.
    pub open spec fn wf(self) -> bool {
        &&& self.fibers.wf()
        &&& self.fibers.items@.len() == self.fiber_dump_all@.len()
    }

    pub fn new() -> (r: ZMXTab)
        ensures
            r.wf(),
            r.fibers.items@.len() == 0,
            sel_of(r.fibers.state) == None::<usize>,
            r.selected_fiber_dump.0@.len() == 0,
            r.selected_fiber_dump.1 == 1,
            r.fiber_dump_all@.len() == 0,
            r.scroll == 0,
            r.fiber_counts@.len() == 0,
    {
        ZMXTab {
            fibers: StatefulList::with_items(Vec::new()),
            selected_fiber_dump: (String::new(), 1),
            fiber_dump_all: Vec::new(),
            scroll: 0,
            fiber_counts: VecDeque::new(),
        }
    }

    fn append_fiber_count(&mut self, c: FiberCount)
        ensures
            final(self).fiber_counts@ == hist_step(
                old(self).fiber_counts@,
                ZMXTab::MAX_FIBER_COUNT_MEASURES as nat,
                c,
            ),
            final(self).fibers == old(self).fibers,
            final(self).selected_fiber_dump == old(self).selected_fiber_dump,
            final(self).fiber_dump_all == old(self).fiber_dump_all,
            final(self).scroll == old(self).scroll,
    {
        bounded_append(&mut self.fiber_counts, ZMXTab::MAX_FIBER_COUNT_MEASURES, c);
    }

    /// Re-reads the dump behind the current selection and rewinds the
    /// scroll.
    pub fn on_fiber_change(&mut self)
        requires
            old(self).wf(),
            old(self).fiber_dump_all@.len() > 0,
        ensures
            final(self).wf(),
            final(self).fibers == old(self).fibers,
            final(self).fiber_dump_all == old(self).fiber_dump_all,
            final(self).fiber_counts == old(self).fiber_counts,
            final(self).scroll == 0,
            final(self).selected_fiber_dump.0@ == old(self).fiber_dump_all@[sel_spot(
                sel_of(old(self).fibers.state),
            )]@,
            final(self).selected_fiber_dump.1 as nat == stored_height(
                old(self).fiber_dump_all@[sel_spot(sel_of(old(self).fibers.state))]@,
            ),
    {
        let n: usize = match self.fibers.state.selected() {
            Option::Some(i) => i,
            Option::None => 0,
        };
        self.selected_fiber_dump = prepare_dump(self.fiber_dump_all[n].clone());
        self.scroll = 0;
    }

    /// Moves the fiber selection one entry back and follows it with the
    /// dump viewer; a no-op on an empty list.
    pub fn select_prev_fiber(&mut self)
        requires
            old(self).wf(),
        ensures
            final(self).wf(),
            final(self).fibers.items == old(self).fibers.items,
            final(self).fiber_dump_all == old(self).fiber_dump_all,
            final(self).fiber_counts == old(self).fiber_counts,
            sel_of(final(self).fibers.state) == step_prev(
                sel_of(old(self).fibers.state),
                old(self).fibers.items@.len() as int,
            ),
            old(self).fibers.items@.len() == 0 ==> *final(self) == *old(self),
            old(self).fibers.items@.len() > 0 ==> final(self).scroll == 0
                && final(self).selected_fiber_dump.0@ == old(self).fiber_dump_all@[sel_spot(
                step_prev(sel_of(old(self).fibers.state), old(self).fibers.items@.len() as int),
            )]@ && final(self).selected_fiber_dump.1 as nat == stored_height(
                old(self).fiber_dump_all@[sel_spot(
                    step_prev(
                        sel_of(old(self).fibers.state),
                        old(self).fibers.items@.len() as int,
                    ),
                )]@,
            ),
    {
        if self.fibers.items.len() != 0 {
            self.fibers.previous();
            self.on_fiber_change();
        }
    }

    /// Moves the fiber selection one entry forward and follows it with the
    /// dump viewer; a no-op on an empty list.
    pub fn select_next_fiber(&mut self)
        requires
            old(self).wf(),
        ensures
            final(self).wf(),
            final(self).fibers.items == old(self).fibers.items,
            final(self).fiber_dump_all == old(self).fiber_dump_all,
            final(self).fiber_counts == old(self).fiber_counts,
            sel_of(final(self).fibers.state) == step_next(
                sel_of(old(self).fibers.state),
                old(self).fibers.items@.len() as int,
            ),
            old(self).fibers.items@.len() == 0 ==> *final(self) == *old(self),
            old(self).fibers.items@.len() > 0 ==> final(self).scroll == 0
                && final(self).selected_fiber_dump.0@ == old(self).fiber_dump_all@[sel_spot(
                step_next(sel_of(old(self).fibers.state), old(self).fibers.items@.len() as int),
            )]@ && final(self).selected_fiber_dump.1 as nat == stored_height(
                old(self).fiber_dump_all@[sel_spot(
                    step_next(
                        sel_of(old(self).fibers.state),
                        old(self).fibers.items@.len() as int,
                    ),
                )]@,
            ),
    {
        if self.fibers.items.len() != 0 {
            self.fibers.next();
            self.on_fiber_change();
        }
    }

    /// Replaces the fiber tree from one snapshot: the rendered labels become
    /// the selection list, the dumps stay aligned with them, the selection
    /// and the dump viewer rewind to the first entry.
    pub fn replace_fiber_dump(&mut self, dump: Vec<Fiber>)
        requires
            unique_ids(fiber_models(dump@)),
        ensures
            final(self).wf(),
            strings_of(final(self).fibers.items@) == labels_of(
                forest_render(fiber_models(dump@), true),
            ),
            strings_of(final(self).fiber_dump_all@) == payloads_of(
                forest_render(fiber_models(dump@), true),
            ),
            final(self).fibers.items@.len() == dump@.len(),
            final(self).fiber_dump_all@.len() == dump@.len(),
            sel_of(final(self).fibers.state) == if dump@.len() > 0 {
                Some(0usize)
            } else {
                None::<usize>
            },
            final(self).scroll == 0,
            final(self).fiber_counts == old(self).fiber_counts,
            dump@.len() > 0 ==> final(self).selected_fiber_dump.0@ == payloads_of(
                forest_render(fiber_models(dump@), true),
            )[0] && final(self).selected_fiber_dump.1 as nat == stored_height(
                payloads_of(forest_render(fiber_models(dump@), true))[0],
            ),
            dump@.len() == 0 ==> final(self).selected_fiber_dump.0@.len() == 0 && final(self).selected_fiber_dump.1 == 0,
    {
        let ghost m = fiber_models(dump@);
        let mut items: Vec<TreeItem> = Vec::new();
        let mut i: usize = 0;
        while i < dump.len()
            invariant
                0 <= i <= dump@.len(),
                m == fiber_models(dump@),
                crate::tree::views(items@) == m.take(i as int),
            decreases dump@.len() - i,
        {
            let f = &dump[i];
            let it = TreeItem {
                id: f.id,
                parent_id: f.parent_id,
                tag: f.status.label().to_owned(),
                payload: f.dump.clone(),
            };
            let ghost prev = items@;
            items.push(it);
            proof {
                assert(m.len() == dump@.len());
                assert(crate::tree::views(prev).len() == i as int);
                assert(items@[i as int] == it);
                assert(crate::tree::views(items@)[i as int] == it@);
                assert(m[i as int] == fiber_item(dump@[i as int]));
                assert(crate::tree::views(items@) =~= m.take(i as int + 1));
            }
            i += 1;
        }
        proof {
            assert(m.take(dump@.len() as int) =~= m);
        }
        let out = tree_list_widget(items, true);
        let ghost rendered = forest_render(m, true);
        let mut fib_labels: Vec<String> = Vec::new();
        let mut fib_dumps: Vec<String> = Vec::new();
        let mut k: usize = 0;
        while k < out.len()
            invariant
                0 <= k <= out@.len(),
                crate::tree::pairs_views(out@) == rendered,
                strings_of(fib_labels@) == labels_of(rendered).take(k as int),
                strings_of(fib_dumps@) == payloads_of(rendered).take(k as int),
            decreases out@.len() - k,
        {
            proof {
                assert(rendered[k as int] == (out@[k as int].0@, out@[k as int].1@));
            }
            let ghost prevl = fib_labels@;
            let ghost prevd = fib_dumps@;
            fib_labels.push(out[k].0.clone());
            fib_dumps.push(out[k].1.payload.clone());
            proof {
                assert(rendered.len() == out@.len());
                assert(strings_of(prevl).len() == k as int);
                assert(strings_of(prevd).len() == k as int);
                assert(fib_labels@[k as int]@ == rendered[k as int].0);
                assert(fib_dumps@[k as int]@ == rendered[k as int].1.payload);
                assert(strings_of(fib_labels@)[k as int] == rendered[k as int].0);
                assert(strings_of(fib_dumps@)[k as int] == rendered[k as int].1.payload);
                assert(labels_of(rendered)[k as int] == rendered[k as int].0);
                assert(payloads_of(rendered)[k as int] == rendered[k as int].1.payload);
                assert(strings_of(fib_labels@) =~= labels_of(rendered).take(k as int + 1));
                assert(strings_of(fib_dumps@) =~= payloads_of(rendered).take(k as int + 1));
            }
            k += 1;
        }
        proof {
            assert(labels_of(rendered).take(out@.len() as int) =~= labels_of(rendered));
            assert(payloads_of(rendered).take(out@.len() as int) =~= payloads_of(rendered));
        }
        let has_rows = fib_dumps.len() > 0;
        if has_rows {
            self.selected_fiber_dump = prepare_dump(fib_dumps[0].clone());
        } else {
            self.selected_fiber_dump = (String::new(), 0);
        }
        self.scroll = 0;
        self.fibers.replace(fib_labels);
        self.fiber_dump_all = fib_dumps;
        proof {
            crate::tree::lemma_one_row_per_record(m, true);
            assert(m.len() == dump@.len());
            assert(strings_of(final(self).fibers.items@).len() == rendered.len());
            assert(strings_of(final(self).fiber_dump_all@).len() == rendered.len());
        }
    }

    pub fn scroll_up(&mut self)
        ensures
            final(self).scroll == if old(self).scroll > 0 {
                (old(self).scroll - 1) as u16
            } else {
                0u16
            },
            final(self).fibers == old(self).fibers,
            final(self).selected_fiber_dump == old(self).selected_fiber_dump,
            final(self).fiber_dump_all == old(self).fiber_dump_all,
            final(self).fiber_counts == old(self).fiber_counts,
    {
        if self.scroll > 0 {
            self.scroll = self.scroll - 1;
        }
    }

    pub fn scroll_down(&mut self)
        ensures
            final(self).scroll == if old(self).scroll < old(self).selected_fiber_dump.1 {
                (old(self).scroll + 1) as u16
            } else {
                old(self).scroll
            },
            final(self).fibers == old(self).fibers,
            final(self).selected_fiber_dump == old(self).selected_fiber_dump,
            final(self).fiber_dump_all == old(self).fiber_dump_all,
            final(self).fiber_counts == old(self).fiber_counts,
    {
        if self.scroll < self.selected_fiber_dump.1 {
            self.scroll = self.scroll + 1;
        }
    }

    /// Tallies one snapshot by status and appends the tally to the rolling
    /// history; the tree view is left untouched, so the history grows the
    /// same way whether or not the tree was just replaced.
    pub fn append_fiber_dump_for_counts(&mut self, dump: Vec<Fiber>)
        ensures
            final(self).fiber_counts@ == hist_step(
                old(self).fiber_counts@,
                ZMXTab::MAX_FIBER_COUNT_MEASURES as nat,
                snapshot_tally(dump@),
            ),
            final(self).fibers == old(self).fibers,
            final(self).selected_fiber_dump == old(self).selected_fiber_dump,
            final(self).fiber_dump_all == old(self).fiber_dump_all,
            final(self).scroll == old(self).scroll,
    {
        let ghost dv = dump@;
        let mut done: u64 = 0;
        let mut suspended: u64 = 0;
        let mut running: u64 = 0;
        let mut finishing: u64 = 0;
        let mut i: usize = 0;
        while i < dump.len()
            invariant
                0 <= i <= dv.len(),
                dv == dump@,
                done as int == count_status(dv.take(i as int), FiberStatus::Done),
                suspended as int == count_status(dv.take(i as int), FiberStatus::Suspended),
                running as int == count_status(dv.take(i as int), FiberStatus::Running),
                finishing as int == count_status(dv.take(i as int), FiberStatus::Finishing),
                done as int + suspended as int + running as int + finishing as int == i as int,
            decreases dv.len() - i,
        {
            proof {
                assert(dv.take(i as int + 1) =~= dv.take(i as int).push(dv[i as int]));
                dv.take(i as int).lemma_filter_push(dv[i as int], status_pred(FiberStatus::Done));
                dv.take(i as int).lemma_filter_push(
                    dv[i as int],
                    status_pred(FiberStatus::Suspended),
                );
                dv.take(i as int).lemma_filter_push(
                    dv[i as int],
                    status_pred(FiberStatus::Running),
                );
                dv.take(i as int).lemma_filter_push(
                    dv[i as int],
                    status_pred(FiberStatus::Finishing),
                );
            }
            match dump[i].status {
                FiberStatus::Done => {
                    done = done + 1;
                },
                FiberStatus::Finishing => {
                    finishing = finishing + 1;
                },
                FiberStatus::Running => {
                    running = running + 1;
                },
                FiberStatus::Suspended => {
                    suspended = suspended + 1;
                },
            }
            i += 1;
        }
        proof {
            assert(dv.take(dv.len() as int) =~= dv);
        }
        let count = FiberCount { done, suspended, running, finishing };
        self.append_fiber_count(count);
    }
}

/// The index the dump viewer follows: the selected one, or the head when
/// nothing is selected.
pub open spec fn sel_spot(sel: Option<usize>) -> int {
    match sel {
        Option::Some(i) => i as int,
        Option::None => 0,
    }
}

// ---- the connection-pool tab ----

/// The connection-pool tab: rolling metric histories for the primary and,
/// when present, the secondary pooling layer, plus the latest configuration
/// record.
pub struct SlickTab {
    pub has_hikari: bool,
    pub slick_metrics: VecDeque<SlickMetrics>,
    pub slick_config: SlickConfig,
    pub hikari_metrics: VecDeque<HikariMetrics>,
}

impl SlickTab {
    pub const MAX_SLICK_MEASURES: usize = 25;

    pub const MAX_HIKARI_MEASURES: usize = 100;

    pub fn new() -> (r: SlickTab)
        ensures
            r.has_hikari == false,
            r.slick_metrics@.len() == 0,
            r.slick_config == (SlickConfig { max_threads: 0, max_queue_size: 0 }),
            r.hikari_metrics@.len() == 0,
    {
        SlickTab {
            has_hikari: false,
            slick_metrics: VecDeque::new(),
            slick_config: SlickConfig { max_threads: 0, max_queue_size: 0 },
            hikari_metrics: VecDeque::new(),
        }
    }

    /// Overwrites the configuration record wholesale; nothing is appended
    /// to any history.
    pub fn replace_slick_config(&mut self, m: SlickConfig)
        ensures
            final(self).slick_config == m,
            final(self).has_hikari == old(self).has_hikari,
            final(self).slick_metrics == old(self).slick_metrics,
            final(self).hikari_metrics == old(self).hikari_metrics,
    {
        self.slick_config = m;
    }

    /// Appends one primary-pool sample, evicting the oldest at capacity.
    pub fn append_slick_metrics(&mut self, m: SlickMetrics)
        ensures
            final(self).slick_metrics@ == hist_step(
                old(self).slick_metrics@,
                SlickTab::MAX_SLICK_MEASURES as nat,
                m,
            ),
            final(self).has_hikari == old(self).has_hikari,
            final(self).slick_config == old(self).slick_config,
            final(self).hikari_metrics == old(self).hikari_metrics,
    {
        bounded_append(&mut self.slick_metrics, SlickTab::MAX_SLICK_MEASURES, m);
    }

    /// Appends one secondary-pool sample, evicting the oldest at capacity.
    pub fn append_hikari_metrics(&mut self, m: HikariMetrics)
        ensures
            final(self).hikari_metrics@ == hist_step(
                old(self).hikari_metrics@,
                SlickTab::MAX_HIKARI_MEASURES as nat,
                m,
            ),
            final(self).has_hikari == old(self).has_hikari,
            final(self).slick_config == old(self).slick_config,
            final(self).slick_metrics == old(self).slick_metrics,
    {
        bounded_append(&mut self.hikari_metrics, SlickTab::MAX_HIKARI_MEASURES, m);
    }
}

// ---- the actor-tree tab ----

/// The actor-tree tab: the rendered actor labels as a selection list and a
/// rolling history of actor counts.
pub struct AkkaActorTreeTab {
    pub actors: StatefulList<String>,
    pub actor_counts: VecDeque<u64>,
}

impl AkkaActorTreeTab {
    pub const MAX_ACTOR_COUNT_MEASURES: usize = 25;

    pub open spec fn wf(self) -> bool {
        self.actors.wf()
    }

    pub fn new() -> (r: AkkaActorTreeTab)
        ensures
            r.wf(),
            r.actors.items@.len() == 0,
            sel_of(r.actors.state) == None::<usize>,
            r.actor_counts@.len() == 0,
    {
        AkkaActorTreeTab {
            actors: StatefulList::with_items(Vec::new()),
            actor_counts: VecDeque::new(),
        }
    }

    /// Replaces the rendered actor tree from one snapshot and rewinds the
    /// selection to the first entry.
    pub fn update_actor_tree(&mut self, actors: Vec<ActorTreeNode>)
        requires
            unique_ids(actor_models(actors@)),
        ensures
            final(self).wf(),
            strings_of(final(self).actors.items@) == labels_of(
                forest_render(actor_models(actors@), false),
            ),
            final(self).actors.items@.len() == actors@.len(),
            sel_of(final(self).actors.state) == if actors@.len() > 0 {
                Some(0usize)
            } else {
                None::<usize>
            },
            final(self).actor_counts == old(self).actor_counts,
    {
        let ghost m = actor_models(actors@);
        let mut items: Vec<TreeItem> = Vec::new();
        let mut i: usize = 0;
        while i < actors.len()
            invariant
                0 <= i <= actors@.len(),
                m == actor_models(actors@),
                crate::tree::views(items@) == m.take(i as int),
            decreases actors@.len() - i,
        {
            let a = &actors[i];
            let it = TreeItem {
                id: a.id,
                parent_id: a.parent_id,
                tag: String::new(),
                payload: a.name.clone(),
            };
            let ghost prev = items@;
            items.push(it);
            proof {
                assert(m.len() == actors@.len());
                assert(crate::tree::views(prev).len() == i as int);
                assert(items@[i as int] == it);
                assert(crate::tree::views(items@)[i as int] == it@);
                assert(m[i as int] == actor_item(actors@[i as int]));
                assert(crate::tree::views(items@) =~= m.take(i as int + 1));
            }
            i += 1;
        }
        proof {
            assert(m.take(actors@.len() as int) =~= m);
        }
        let out = tree_list_widget(items, false);
        let ghost rendered = forest_render(m, false);
        let mut list: Vec<String> = Vec::new();
        let mut k: usize = 0;
        while k < out.len()
            invariant
                0 <= k <= out@.len(),
                crate::tree::pairs_views(out@) == rendered,
                strings_of(list@) == labels_of(rendered).take(k as int),
            decreases out@.len() - k,
        {
            proof {
                assert(rendered[k as int] == (out@[k as int].0@, out@[k as int].1@));
            }
            let ghost prevl = list@;
            list.push(out[k].0.clone());
            proof {
                assert(rendered.len() == out@.len());
                assert(strings_of(prevl).len() == k as int);
                assert(list@[k as int]@ == rendered[k as int].0);
                assert(strings_of(list@)[k as int] == rendered[k as int].0);
                assert(labels_of(rendered)[k as int] == rendered[k as int].0);
                assert(strings_of(list@) =~= labels_of(rendered).take(k as int + 1));
            }
            k += 1;
        }
        proof {
            assert(labels_of(rendered).take(out@.len() as int) =~= labels_of(rendered));
        }
        self.actors.replace(list);
        proof {
            crate::tree::lemma_one_row_per_record(m, false);
            assert(m.len() == actors@.len());
            assert(strings_of(final(self).actors.items@).len() == rendered.len());
        }
    }

    /// Moves the actor selection one entry back; a no-op on an empty list.
    pub fn select_prev_actor(&mut self)
        requires
            old(self).wf(),
        ensures
            final(self).wf(),
            final(self).actors.items == old(self).actors.items,
            final(self).actor_counts == old(self).actor_counts,
            sel_of(final(self).actors.state) == step_prev(
                sel_of(old(self).actors.state),
                old(self).actors.items@.len() as int,
            ),
    {
        self.actors.previous();
    }

    /// Moves the actor selection one entry forward; a no-op on an empty
    /// list.
    pub fn select_next_actor(&mut self)
        requires
            old(self).wf(),
        ensures
            final(self).wf(),
            final(self).actors.items == old(self).actors.items,
            final(self).actor_counts == old(self).actor_counts,
            sel_of(final(self).actors.state) == step_next(
                sel_of(old(self).actors.state),
                old(self).actors.items@.len() as int,
            ),
    {
        self.actors.next();
    }

    /// Appends one actor count, evicting the oldest at capacity.
    pub fn append_actor_count(&mut self, c: u64)
        ensures
            final(self).actor_counts@ == hist_step(
                old(self).actor_counts@,
                AkkaActorTreeTab::MAX_ACTOR_COUNT_MEASURES as nat,
                c,
            ),
            final(self).actors == old(self).actors,
    {
        bounded_append(&mut self.actor_counts, AkkaActorTreeTab::MAX_ACTOR_COUNT_MEASURES, c);
    }
}


// ---- the engine ----

/// The tab kinds created for a given configuration, in presentation order.
pub open spec fn tab_kinds(z: bool, s: bool, a: bool) -> Seq<TabKind> {
    (if z {
        seq![TabKind::ZMX]
    } else {
        Seq::empty()
    }) + (if s {
        seq![TabKind::Slick]
    } else {
        Seq::empty()
    }) + (if a {
        seq![TabKind::AkkaActorTree]
    } else {
        Seq::empty()
    })
}

/// The display title of each tab kind.
pub open spec fn title_for(k: TabKind) -> Seq<char> {
    match k {
        TabKind::ZMX => "ZIO"@,
        TabKind::Slick => "Slick"@,
        TabKind::AkkaActorTree => "Akka"@,
    }
}

/// A navigation step on the fiber tab: the selection moves, the dump viewer
/// follows it, nothing else changes; a strict no-op on an empty list.
pub open spec fn fiber_nav_rel(o: ZMXTab, n: ZMXTab, sel2: Option<usize>) -> bool {
    &&& n.fibers.items == o.fibers.items
    &&& n.fiber_dump_all == o.fiber_dump_all
    &&& n.fiber_counts == o.fiber_counts
    &&& sel_of(n.fibers.state) == sel2
    &&& (o.fibers.items@.len() > 0 ==> n.scroll == 0 && n.selected_fiber_dump.0@
        == o.fiber_dump_all@[sel_spot(sel2)]@ && n.selected_fiber_dump.1 as nat == stored_height(
        o.fiber_dump_all@[sel_spot(sel2)]@,
    ))
    &&& (o.fibers.items@.len() == 0 ==> n == o)
}

/// A navigation step on the actor tab: the selection moves, nothing else
/// changes.
pub open spec fn actor_nav_rel(o: AkkaActorTreeTab, n: AkkaActorTreeTab, sel2: Option<
    usize,
>) -> bool {
    &&& n.actors.items == o.actors.items
    &&& n.actor_counts == o.actor_counts
    &&& sel_of(n.actors.state) == sel2
}

/// One scroll step on the fiber tab, in either direction, clamped to the
/// interval from zero to the stored line count.
pub open spec fn scroll_rel(o: ZMXTab, n: ZMXTab, s2: u16) -> bool {
    &&& n.fibers == o.fibers
    &&& n.selected_fiber_dump == o.selected_fiber_dump
    &&& n.fiber_dump_all == o.fiber_dump_all
    &&& n.fiber_counts == o.fiber_counts
    &&& n.scroll == s2
}

/// The dashboard engine: the configured tabs, one optional state per data
/// source, and the terminal quit flag.
pub struct App<'a> {
    pub title: &'a str,
    pub should_quit: bool,
    pub exit_reason: Option<String>,
    pub tabs: TabsState<'a>,
    pub zmx: Option<ZMXTab>,
    pub slick: Option<SlickTab>,
    pub actor_tree: Option<AkkaActorTreeTab>,
}

/// Whether the state for tab kind `k` exists in `a`.
pub open spec fn kind_configured(a: App, k: TabKind) -> bool {
    match k {
        TabKind::ZMX => a.zmx is Some,
        TabKind::Slick => a.slick is Some,
        TabKind::AkkaActorTree => a.actor_tree is Some,
    }
}

/// The kind of the tab the cursor stands on.
pub open spec fn active_kind(a: App) -> TabKind {
    a.tabs.tabs@[a.tabs.index as int].kind
}

impl<'a> App<'a> {
    /// Every listed tab has its state, and the parts hold their own
    /// invariants.
    pub open spec fn wf(self) -> bool {
        &&& self.tabs.wf()
        &&& forall|k: int|
            0 <= k < self.tabs.tabs@.len() ==> kind_configured(
                self,
                #[trigger] self.tabs.tabs@[k].kind,
            )
        &&& (self.zmx matches Some(z) ==> z.wf())
        &&& (self.actor_tree matches Some(t) ==> t.wf())
    }

    /// Builds the engine from the three optional source configurations:
    /// one tab per configured source, in fixed presentation order, and no
    /// state at all for the absent ones; absence is permanent.
    pub fn new(
        title: &'a str,
        zio_zmx_addr: Option<String>,
        jmx: Option<JMXConnectionSettings>,
        akka: Option<AkkaSettings>,
    ) -> (r: App<'a>)
        ensures
            r.wf(),
            r.title == title,
            !r.should_quit,
            r.exit_reason is None,
            r.tabs.index == 0,
            r.zmx is Some <==> zio_zmx_addr is Some,
            r.slick is Some <==> jmx is Some,
            r.actor_tree is Some <==> akka is Some,
            kinds_of(r.tabs.tabs@) == tab_kinds(
                zio_zmx_addr is Some,
                jmx is Some,
                akka is Some,
            ),
            forall|k: int|
                0 <= k < r.tabs.tabs@.len() ==> (#[trigger] r.tabs.tabs@[k].title)@ == title_for(
                    r.tabs.tabs@[k].kind,
                ),
            r.zmx matches Some(z) ==> z.fibers.items@.len() == 0 && sel_of(z.fibers.state)
                is None && z.selected_fiber_dump.0@.len() == 0 && z.selected_fiber_dump.1 == 1
                && z.fiber_dump_all@.len() == 0 && z.scroll == 0 && z.fiber_counts@.len() == 0,
            r.slick matches Some(s) ==> !s.has_hikari && s.slick_metrics@.len() == 0
                && s.slick_config == (SlickConfig { max_threads: 0, max_queue_size: 0 })
                && s.hikari_metrics@.len() == 0,
            r.actor_tree matches Some(t) ==> t.actors.items@.len() == 0 && sel_of(t.actors.state)
                is None && t.actor_counts@.len() == 0,
    {
        let mut tabs: Vec<Tab> = Vec::new();
        if zio_zmx_addr.is_some() {
            tabs.push(Tab { kind: TabKind::ZMX, title: "ZIO" });
        }
        if jmx.is_some() {
            tabs.push(Tab { kind: TabKind::Slick, title: "Slick" });
        }
        if akka.is_some() {
            tabs.push(Tab { kind: TabKind::AkkaActorTree, title: "Akka" });
        }
        proof {
            assert(kinds_of(tabs@) =~= tab_kinds(
                zio_zmx_addr is Some,
                jmx is Some,
                akka is Some,
            ));
        }
        let zmx = if zio_zmx_addr.is_some() {
            Option::Some(ZMXTab::new())
        } else {
            Option::None
        };
        let slick = if jmx.is_some() {
            Option::Some(SlickTab::new())
        } else {
            Option::None
        };
        let actor_tree = if akka.is_some() {
            Option::Some(AkkaActorTreeTab::new())
        } else {
            Option::None
        };
        App {
            title,
            should_quit: false,
            exit_reason: Option::None,
            tabs: TabsState::new(tabs),
            zmx,
            slick,
            actor_tree,
        }
    }

    /// Moves the active tab selection one entry back; routed to the active
    /// tab, a no-op for the pool tab, on an empty tab set, or after quit.
    pub fn on_up(&mut self)
        requires
            old(self).wf(),
        ensures
            final(self).wf(),
            final(self).title == old(self).title,
            final(self).should_quit == old(self).should_quit,
            final(self).exit_reason == old(self).exit_reason,
            final(self).tabs == old(self).tabs,
            final(self).slick == old(self).slick,
            old(self).should_quit || old(self).tabs.tabs@.len() == 0 ==> *final(self) == *old(self),
            !old(self).should_quit && old(self).tabs.tabs@.len() > 0 ==> match active_kind(
                *old(self),
            ) {
                TabKind::ZMX => final(self).actor_tree == old(self).actor_tree && (old(self).zmx matches Some(oz) && final(self).zmx matches Some(nz) && fiber_nav_rel(
                    oz,
                    nz,
                    step_prev(sel_of(oz.fibers.state), oz.fibers.items@.len() as int),
                )),
                TabKind::Slick => *final(self) == *old(self),
                TabKind::AkkaActorTree => final(self).zmx == old(self).zmx && (old(self).actor_tree matches Some(oa) && final(self).actor_tree matches Some(na)
                    && actor_nav_rel(
                    oa,
                    na,
                    step_prev(sel_of(oa.actors.state), oa.actors.items@.len() as int),
                )),
            },
    {
        if self.should_quit {
            return ;
        }
        if self.tabs.tabs.len() == 0 {
            return ;
        }
        let kind = self.tabs.current().kind;
        match kind {
            TabKind::ZMX => {
                match &mut self.zmx {
                    Option::Some(z) => z.select_prev_fiber(),
                    Option::None => {},
                }
            },
            TabKind::Slick => {},
            TabKind::AkkaActorTree => {
                match &mut self.actor_tree {
                    Option::Some(t) => t.select_prev_actor(),
                    Option::None => {},
                }
            },
        }
    }

    /// Moves the active tab selection one entry forward; routed like
    /// `on_up`.
    pub fn on_down(&mut self)
        requires
            old(self).wf(),
        ensures
            final(self).wf(),
            final(self).title == old(self).title,
            final(self).should_quit == old(self).should_quit,
            final(self).exit_reason == old(self).exit_reason,
            final(self).tabs == old(self).tabs,
            final(self).slick == old(self).slick,
            old(self).should_quit || old(self).tabs.tabs@.len() == 0 ==> *final(self) == *old(self),
            !old(self).should_quit && old(self).tabs.tabs@.len() > 0 ==> match active_kind(
                *old(self),
            ) {
                TabKind::ZMX => final(self).actor_tree == old(self).actor_tree && (old(self).zmx matches Some(oz) && final(self).zmx matches Some(nz) && fiber_nav_rel(
                    oz,
                    nz,
                    step_next(sel_of(oz.fibers.state), oz.fibers.items@.len() as int),
                )),
                TabKind::Slick => *final(self) == *old(self),
                TabKind::AkkaActorTree => final(self).zmx == old(self).zmx && (old(self).actor_tree matches Some(oa) && final(self).actor_tree matches Some(na)
                    && actor_nav_rel(
                    oa,
                    na,
                    step_next(sel_of(oa.actors.state), oa.actors.items@.len() as int),
                )),
            },
    {
        if self.should_quit {
            return ;
        }
        if self.tabs.tabs.len() == 0 {
            return ;
        }
        let kind = self.tabs.current().kind;
        match kind {
            TabKind::ZMX => {
                match &mut self.zmx {
                    Option::Some(z) => z.select_next_fiber(),
                    Option::None => {},
                }
            },
            TabKind::Slick => {},
            TabKind::AkkaActorTree => {
                match &mut self.actor_tree {
                    Option::Some(t) => t.select_next_actor(),
                    Option::None => {},
                }
            },
        }
    }

    /// Rotates to the following tab; a no-op after quit.
    pub fn on_right(&mut self)
        requires
            old(self).wf(),
        ensures
            final(self).wf(),
            final(self).title == old(self).title,
            final(self).should_quit == old(self).should_quit,
            final(self).exit_reason == old(self).exit_reason,
            final(self).zmx == old(self).zmx,
            final(self).slick == old(self).slick,
            final(self).actor_tree == old(self).actor_tree,
            final(self).tabs.tabs == old(self).tabs.tabs,
            old(self).should_quit ==> *final(self) == *old(self),
            !old(self).should_quit && old(self).tabs.tabs@.len() > 0 ==> final(self).tabs.index as int == crate::list::next_index(
                Some(old(self).tabs.index),
                old(self).tabs.tabs@.len() as int,
            ),
    {
        if self.should_quit {
            return ;
        }
        self.tabs.next();
    }

    /// Rotates to the preceding tab; a no-op after quit.
    pub fn on_left(&mut self)
        requires
            old(self).wf(),
        ensures
            final(self).wf(),
            final(self).title == old(self).title,
            final(self).should_quit == old(self).should_quit,
            final(self).exit_reason == old(self).exit_reason,
            final(self).zmx == old(self).zmx,
            final(self).slick == old(self).slick,
            final(self).actor_tree == old(self).actor_tree,
            final(self).tabs.tabs == old(self).tabs.tabs,
            old(self).should_quit ==> *final(self) == *old(self),
            !old(self).should_quit && old(self).tabs.tabs@.len() > 0 ==> final(self).tabs.index as int == crate::list::prev_index(
                Some(old(self).tabs.index),
                old(self).tabs.tabs@.len() as int,
            ),
    {
        if self.should_quit {
            return ;
        }
        self.tabs.previous();
    }

    /// Sets the quit flag and keeps the first exit reason; every later
    /// mutation is a no-op.
    pub fn quit(&mut self, error: Option<String>)
        ensures
            final(self).should_quit,
            old(self).should_quit ==> *final(self) == *old(self),
            !old(self).should_quit ==> *final(self) == (App {
                should_quit: true,
                exit_reason: error,
                ..*old(self)
            }),
    {
        if self.should_quit {
            return ;
        }
        self.should_quit = true;
        self.exit_reason = error;
    }

    /// Keyboard dispatch: the quit key sets the quit flag, everything else
    /// is ignored.
    pub fn on_key(&mut self, c: char)
        ensures
            c == 'q' && !old(self).should_quit ==> *final(self) == (App {
                should_quit: true,
                exit_reason: None::<String>,
                ..*old(self)
            }),
            c != 'q' || old(self).should_quit ==> *final(self) == *old(self),
    {
        match c {
            'q' => self.quit(Option::None),
            _ => {},
        }
    }

    /// Scrolls the selected dump one line up; only the fiber tab reacts.
    pub fn on_page_up(&mut self)
        requires
            old(self).wf(),
        ensures
            final(self).wf(),
            final(self).title == old(self).title,
            final(self).should_quit == old(self).should_quit,
            final(self).exit_reason == old(self).exit_reason,
            final(self).tabs == old(self).tabs,
            final(self).slick == old(self).slick,
            final(self).actor_tree == old(self).actor_tree,
            old(self).should_quit || old(self).tabs.tabs@.len() == 0 ==> *final(self) == *old(self),
            !old(self).should_quit && old(self).tabs.tabs@.len() > 0 ==> match active_kind(
                *old(self),
            ) {
                TabKind::ZMX => old(self).zmx matches Some(oz) && final(self).zmx matches Some(
                    nz,
                ) && scroll_rel(
                    oz,
                    nz,
                    if oz.scroll > 0 {
                        (oz.scroll - 1) as u16
                    } else {
                        0u16
                    },
                ),
                TabKind::Slick => *final(self) == *old(self),
                TabKind::AkkaActorTree => *final(self) == *old(self),
            },
    {
        if self.should_quit {
            return ;
        }
        if self.tabs.tabs.len() == 0 {
            return ;
        }
        let kind = self.tabs.current().kind;
        match kind {
            TabKind::ZMX => {
                match &mut self.zmx {
                    Option::Some(z) => z.scroll_up(),
                    Option::None => {},
                }
            },
            TabKind::Slick => {},
            TabKind::AkkaActorTree => {},
        }
    }

    /// Scrolls the selected dump one line down, capped at the stored line
    /// count; only the fiber tab reacts.
    pub fn on_page_down(&mut self)
        requires
            old(self).wf(),
        ensures
            final(self).wf(),
            final(self).title == old(self).title,
            final(self).should_quit == old(self).should_quit,
            final(self).exit_reason == old(self).exit_reason,
            final(self).tabs == old(self).tabs,
            final(self).slick == old(self).slick,
            final(self).actor_tree == old(self).actor_tree,
            old(self).should_quit || old(self).tabs.tabs@.len() == 0 ==> *final(self) == *old(self),
            !old(self).should_quit && old(self).tabs.tabs@.len() > 0 ==> match active_kind(
                *old(self),
            ) {
                TabKind::ZMX => old(self).zmx matches Some(oz) && final(self).zmx matches Some(
                    nz,
                ) && scroll_rel(
                    oz,
                    nz,
                    if oz.scroll < oz.selected_fiber_dump.1 {
                        (oz.scroll + 1) as u16
                    } else {
                        oz.scroll
                    },
                ),
                TabKind::Slick => *final(self) == *old(self),
                TabKind::AkkaActorTree => *final(self) == *old(self),
            },
    {
        if self.should_quit {
            return ;
        }
        if self.tabs.tabs.len() == 0 {
            return ;
        }
        let kind = self.tabs.current().kind;
        match kind {
            TabKind::ZMX => {
                match &mut self.zmx {
                    Option::Some(z) => z.scroll_down(),
                    Option::None => {},
                }
            },
            TabKind::Slick => {},
            TabKind::AkkaActorTree => {},
        }
    }

    /// Routes a fiber snapshot to the fiber tab. The result says whether it
    /// was accepted; a caller that receives `false` for a source it
    /// configured has a wiring bug.
    pub fn ingest_fiber_snapshot(&mut self, dump: Vec<Fiber>) -> (ok: bool)
        requires
            old(self).wf(),
            unique_ids(fiber_models(dump@)),
        ensures
            final(self).wf(),
            ok == (!old(self).should_quit && old(self).zmx is Some),
            !ok ==> *final(self) == *old(self),
            ok ==> *final(self) == (App { zmx: final(self).zmx, ..*old(self) }) && (final(self).zmx matches Some(nz) && old(self).zmx matches Some(oz) && {
                &&& strings_of(nz.fibers.items@) == labels_of(
                    forest_render(fiber_models(dump@), true),
                )
                &&& strings_of(nz.fiber_dump_all@) == payloads_of(
                    forest_render(fiber_models(dump@), true),
                )
                &&& sel_of(nz.fibers.state) == if dump@.len() > 0 {
                    Some(0usize)
                } else {
                    None::<usize>
                }
                &&& nz.scroll == 0
                &&& nz.fiber_counts == oz.fiber_counts
                &&& (dump@.len() > 0 ==> nz.selected_fiber_dump.0@ == payloads_of(
                    forest_render(fiber_models(dump@), true),
                )[0] && nz.selected_fiber_dump.1 as nat == stored_height(
                    payloads_of(forest_render(fiber_models(dump@), true))[0],
                ))
                &&& (dump@.len() == 0 ==> nz.selected_fiber_dump.0@.len() == 0
                    && nz.selected_fiber_dump.1 == 0)
                &&& nz.fibers.items@.len() == dump@.len()
                &&& nz.fiber_dump_all@.len() == dump@.len()
            }),
    {
        if self.should_quit {
            return false;
        }
        match &mut self.zmx {
            Option::Some(z) => {
                z.replace_fiber_dump(dump);
                true
            },
            Option::None => false,
        }
    }

    /// Routes one tally over a fiber snapshot to the fiber tab's history;
    /// the tree view is untouched whether or not it was just replaced.
    pub fn ingest_fiber_tally(&mut self, dump: Vec<Fiber>) -> (ok: bool)
        requires
            old(self).wf(),
        ensures
            final(self).wf(),
            ok == (!old(self).should_quit && old(self).zmx is Some),
            !ok ==> *final(self) == *old(self),
            ok ==> *final(self) == (App { zmx: final(self).zmx, ..*old(self) }) && (final(self).zmx matches Some(nz) && old(self).zmx matches Some(oz) && nz == (ZMXTab {
                fiber_counts: nz.fiber_counts,
                ..oz
            }) && nz.fiber_counts@ == hist_step(
                oz.fiber_counts@,
                ZMXTab::MAX_FIBER_COUNT_MEASURES as nat,
                snapshot_tally(dump@),
            )),
    {
        if self.should_quit {
            return false;
        }
        match &mut self.zmx {
            Option::Some(z) => {
                z.append_fiber_dump_for_counts(dump);
                true
            },
            Option::None => false,
        }
    }

    /// Routes a primary-pool sample to the pool tab's history.
    pub fn ingest_slick_metrics(&mut self, m: SlickMetrics) -> (ok: bool)
        requires
            old(self).wf(),
        ensures
            final(self).wf(),
            ok == (!old(self).should_quit && old(self).slick is Some),
            !ok ==> *final(self) == *old(self),
            ok ==> *final(self) == (App { slick: final(self).slick, ..*old(self) }) && (final(self).slick matches Some(ns) && old(self).slick matches Some(os) && ns == (SlickTab {
                slick_metrics: ns.slick_metrics,
                ..os
            }) && ns.slick_metrics@ == hist_step(
                os.slick_metrics@,
                SlickTab::MAX_SLICK_MEASURES as nat,
                m,
            )),
    {
        if self.should_quit {
            return false;
        }
        match &mut self.slick {
            Option::Some(s) => {
                s.append_slick_metrics(m);
                true
            },
            Option::None => false,
        }
    }

    /// Routes a secondary-pool sample to the pool tab's history and records
    /// that the secondary layer exists.
    pub fn ingest_hikari_metrics(&mut self, m: HikariMetrics) -> (ok: bool)
        requires
            old(self).wf(),
        ensures
            final(self).wf(),
            ok == (!old(self).should_quit && old(self).slick is Some),
            !ok ==> *final(self) == *old(self),
            ok ==> *final(self) == (App { slick: final(self).slick, ..*old(self) }) && (final(self).slick matches Some(ns) && old(self).slick matches Some(os) && ns == (SlickTab {
                has_hikari: true,
                hikari_metrics: ns.hikari_metrics,
                ..os
            }) && ns.hikari_metrics@ == hist_step(
                os.hikari_metrics@,
                SlickTab::MAX_HIKARI_MEASURES as nat,
                m,
            )),
    {
        if self.should_quit {
            return false;
        }
        match &mut self.slick {
            Option::Some(s) => {
                s.append_hikari_metrics(m);
                s.has_hikari = true;
                true
            },
            Option::None => false,
        }
    }

    /// Routes a configuration record to the pool tab; overwritten wholesale,
    /// never appended to history.
    pub fn ingest_slick_config(&mut self, c: SlickConfig) -> (ok: bool)
        requires
            old(self).wf(),
        ensures
            final(self).wf(),
            ok == (!old(self).should_quit && old(self).slick is Some),
            !ok ==> *final(self) == *old(self),
            ok ==> *final(self) == (App { slick: final(self).slick, ..*old(self) }) && (final(self).slick matches Some(ns) && old(self).slick matches Some(os) && ns == (SlickTab {
                slick_config: c,
                ..os
            })),
    {
        if self.should_quit {
            return false;
        }
        match &mut self.slick {
            Option::Some(s) => {
                s.replace_slick_config(c);
                true
            },
            Option::None => false,
        }
    }

    /// Routes an actor-tree snapshot to the actor tab.
    pub fn ingest_actor_tree(&mut self, actors: Vec<ActorTreeNode>) -> (ok: bool)
        requires
            old(self).wf(),
            unique_ids(actor_models(actors@)),
        ensures
            final(self).wf(),
            ok == (!old(self).should_quit && old(self).actor_tree is Some),
            !ok ==> *final(self) == *old(self),
            ok ==> *final(self) == (App { actor_tree: final(self).actor_tree, ..*old(self) })
                && (final(self).actor_tree matches Some(na) && old(self).actor_tree matches Some(
                oa,
            ) && {
                &&& strings_of(na.actors.items@) == labels_of(
                    forest_render(actor_models(actors@), false),
                )
                &&& sel_of(na.actors.state) == if actors@.len() > 0 {
                    Some(0usize)
                } else {
                    None::<usize>
                }
                &&& na.actor_counts == oa.actor_counts
            }),
    {
        if self.should_quit {
            return false;
        }
        match &mut self.actor_tree {
            Option::Some(t) => {
                t.update_actor_tree(actors);
                true
            },
            Option::None => false,
        }
    }

    /// Routes one actor count to the actor tab's history.
    pub fn ingest_actor_count(&mut self, c: u64) -> (ok: bool)
        requires
            old(self).wf(),
        ensures
            final(self).wf(),
            ok == (!old(self).should_quit && old(self).actor_tree is Some),
            !ok ==> *final(self) == *old(self),
            ok ==> *final(self) == (App { actor_tree: final(self).actor_tree, ..*old(self) })
                && (final(self).actor_tree matches Some(na) && old(self).actor_tree matches Some(
                oa,
            ) && na == (AkkaActorTreeTab { actor_counts: na.actor_counts, ..oa })
                && na.actor_counts@ == hist_step(
                oa.actor_counts@,
                AkkaActorTreeTab::MAX_ACTOR_COUNT_MEASURES as nat,
                c,
            )),
    {
        if self.should_quit {
            return false;
        }
        match &mut self.actor_tree {
            Option::Some(t) => {
                t.append_actor_count(c);
                true
            },
            Option::None => false,
        }
    }
}

/// Law: appending one tally is independent of the tree state: it changes
/// only the tally history, growing it by exactly one entry until the
/// retention window is full and keeping the window size afterwards, with
/// the new tally always at the tail.
pub proof fn lemma_tally_growth(s: Seq<FiberCount>, cap: nat, c: FiberCount)
    requires
        cap >= 1,
    ensures
        s.len() < cap ==> hist_step(s, cap, c).len() == s.len() + 1,
        s.len() >= cap ==> hist_step(s, cap, c).len() == s.len(),
        hist_step(s, cap, c).last() == c,
{
}

} // verus!

