use std::collections::VecDeque;

use zmx_dashboard::app::{AkkaActorTreeTab, App, SlickTab, Tab, TabKind, TabsState, ZMXTab};
use zmx_dashboard::history::bounded_append;
use zmx_dashboard::list::StatefulList;
use zmx_dashboard::model::{
    ActorTreeNode, AkkaSettings, Fiber, FiberStatus, HikariMetrics, JMXConnectionSettings,
    SlickConfig, SlickMetrics,
};

fn fiber(id: u64, parent_id: Option<u64>, status: FiberStatus, dump: &str) -> Fiber {
    Fiber { id, parent_id, status, dump: dump.to_owned() }
}

#[test]
fn zmx_tab_dumps_fibers() {
    let fiber1 = Fiber {
        id: 1,
        parent_id: None,
        status: FiberStatus::Running,
        dump: "1".to_owned(),
    };
    let fiber2 = Fiber {
        id: 2,
        parent_id: Some(1),
        status: FiberStatus::Suspended,
        dump: "2".to_owned(),
    };
    let fiber4 = Fiber {
        id: 4,
        parent_id: None,
        status: FiberStatus::Done,
        dump: "4".to_owned(),
    };

    let fibers = vec![fiber1, fiber2, fiber4];

    let mut tab = ZMXTab {
        fibers: StatefulList::with_items(vec!["Fiber #1".to_owned()]),
        selected_fiber_dump: ("".to_string(), 0),
        fiber_dump_all: vec![],
        scroll: 0,
        fiber_counts: VecDeque::new(),
    };

    tab.replace_fiber_dump(fibers);

    assert_eq!(tab.fiber_dump_all, vec!["1", "2", "4"]);
    assert_eq!(tab.fibers.items, vec![
        "├─#1   Running",
        "│ └─#2 Suspended",
        "└─#4   Done"
    ]);
    assert_eq!(tab.fibers.state.selected(), Some(0));
}

#[test]
fn cyclic_next_returns_to_start() {
    let mut list = StatefulList::with_items(vec!["a", "b", "c"]);
    list.next();
    assert_eq!(list.state.selected(), Some(0));
    list.next();
    list.next();
    assert_eq!(list.state.selected(), Some(2));
    // three more steps walk the full cycle back to the same entry
    list.next();
    list.next();
    list.next();
    assert_eq!(list.state.selected(), Some(2));
}

#[test]
fn cyclic_previous_returns_to_start() {
    let mut list = StatefulList::with_items(vec!["a", "b", "c"]);
    list.previous();
    assert_eq!(list.state.selected(), Some(0));
    list.previous();
    assert_eq!(list.state.selected(), Some(2));
    list.previous();
    list.previous();
    assert_eq!(list.state.selected(), Some(0));
}

#[test]
fn empty_list_navigation_is_noop() {
    let mut list: StatefulList<String> = StatefulList::with_items(vec![]);
    list.next();
    assert_eq!(list.state.selected(), None);
    list.previous();
    assert_eq!(list.state.selected(), None);
}

#[test]
fn bounded_history_keeps_last_n() {
    let mut q: VecDeque<u64> = VecDeque::new();
    for v in 0..5u64 {
        bounded_append(&mut q, 3, v);
    }
    assert_eq!(q.len(), 3);
    assert_eq!(q.iter().copied().collect::<Vec<u64>>(), vec![2, 3, 4]);

    let mut short: VecDeque<u64> = VecDeque::new();
    bounded_append(&mut short, 3, 7);
    bounded_append(&mut short, 3, 8);
    assert_eq!(short.iter().copied().collect::<Vec<u64>>(), vec![7, 8]);
}

#[test]
fn renderer_is_order_independent() {
    let a = vec![
        fiber(1, None, FiberStatus::Running, "1"),
        fiber(2, Some(1), FiberStatus::Suspended, "2"),
        fiber(4, None, FiberStatus::Done, "4"),
    ];
    let b = vec![
        fiber(4, None, FiberStatus::Done, "4"),
        fiber(1, None, FiberStatus::Running, "1"),
        fiber(2, Some(1), FiberStatus::Suspended, "2"),
    ];
    let mut ta = ZMXTab::new();
    let mut tb = ZMXTab::new();
    ta.replace_fiber_dump(a);
    tb.replace_fiber_dump(b);
    assert_eq!(ta.fibers.items, tb.fibers.items);
    assert_eq!(ta.fiber_dump_all, tb.fiber_dump_all);
}

#[test]
fn status_column_is_aligned() {
    let mut tab = ZMXTab::new();
    tab.replace_fiber_dump(vec![
        fiber(1, None, FiberStatus::Running, "one"),
        fiber(2, Some(1), FiberStatus::Suspended, "two"),
        fiber(3, Some(2), FiberStatus::Finishing, "three"),
        fiber(9, None, FiberStatus::Done, "nine"),
    ]);
    // the status text starts in the same column on every line: one past the
    // widest left segment
    let cols: Vec<usize> = tab
        .fibers
        .items
        .iter()
        .map(|label| {
            let chars: Vec<char> = label.chars().collect();
            let mut i = chars.len();
            while i > 0 && chars[i - 1] != ' ' {
                i -= 1;
            }
            i
        })
        .collect();
    assert!(cols.iter().all(|c| *c == cols[0]));
}

#[test]
fn label_and_dump_stay_paired() {
    let mut tab = ZMXTab::new();
    tab.replace_fiber_dump(vec![
        fiber(5, None, FiberStatus::Running, "five"),
        fiber(2, Some(5), FiberStatus::Done, "two"),
        fiber(3, None, FiberStatus::Suspended, "three"),
    ]);
    for (k, label) in tab.fibers.items.iter().enumerate() {
        if label.contains("#5") {
            assert_eq!(tab.fiber_dump_all[k], "five");
        }
        if label.contains("#2") {
            assert_eq!(tab.fiber_dump_all[k], "two");
        }
        if label.contains("#3") {
            assert_eq!(tab.fiber_dump_all[k], "three");
        }
    }
}

#[test]
fn missing_parent_renders_as_root() {
    let mut tab = ZMXTab::new();
    tab.replace_fiber_dump(vec![
        fiber(1, None, FiberStatus::Running, "1"),
        fiber(7, Some(99), FiberStatus::Done, "7"),
    ]);
    // the orphan is not dropped and stands at root level
    assert_eq!(tab.fiber_dump_all, vec!["1", "7"]);
    assert_eq!(tab.fibers.items, vec!["├─#1 Running", "└─#7 Done"]);
}

#[test]
fn parent_cycle_is_broken_into_roots() {
    let mut tab = ZMXTab::new();
    tab.replace_fiber_dump(vec![
        fiber(1, Some(2), FiberStatus::Running, "1"),
        fiber(2, Some(1), FiberStatus::Done, "2"),
    ]);
    // both cycle members surface as orphan roots instead of recursing
    assert_eq!(tab.fiber_dump_all, vec!["1", "2"]);
    assert_eq!(tab.fibers.items.len(), 2);
}

#[test]
fn tally_appends_independently_of_tree() {
    let snapshot = vec![
        fiber(1, None, FiberStatus::Running, "1"),
        fiber(2, Some(1), FiberStatus::Suspended, "2"),
        fiber(3, Some(1), FiberStatus::Suspended, "3"),
        fiber(4, None, FiberStatus::Done, "4"),
    ];
    let mut with_tree = ZMXTab::new();
    with_tree.replace_fiber_dump(snapshot.clone());
    let mut without_tree = ZMXTab::new();

    with_tree.append_fiber_dump_for_counts(snapshot.clone());
    without_tree.append_fiber_dump_for_counts(snapshot.clone());
    assert_eq!(with_tree.fiber_counts.len(), 1);
    assert_eq!(without_tree.fiber_counts.len(), 1);
    assert_eq!(with_tree.fiber_counts[0], without_tree.fiber_counts[0]);

    let tally = with_tree.fiber_counts[0];
    assert_eq!(tally.running, 1);
    assert_eq!(tally.suspended, 2);
    assert_eq!(tally.done, 1);
    assert_eq!(tally.finishing, 0);

    with_tree.append_fiber_dump_for_counts(snapshot);
    assert_eq!(with_tree.fiber_counts.len(), 2);
}

#[test]
fn dump_viewer_counts_lines_and_clamps_scroll() {
    let mut tab = ZMXTab::new();
    tab.replace_fiber_dump(vec![fiber(1, None, FiberStatus::Running, "a\nb\nc")]);
    assert_eq!(tab.selected_fiber_dump.0, "a\nb\nc");
    assert_eq!(tab.selected_fiber_dump.1, 3);
    assert_eq!(tab.scroll, 0);
    tab.scroll_up();
    assert_eq!(tab.scroll, 0);
    for _ in 0..5 {
        tab.scroll_down();
    }
    assert_eq!(tab.scroll, 3);
}

#[test]
fn tabs_rotate_with_wraparound() {
    let tabs = vec![
        Tab { kind: TabKind::ZMX, title: "ZIO" },
        Tab { kind: TabKind::Slick, title: "Slick" },
    ];
    let mut state = TabsState::new(tabs);
    assert_eq!(state.index, 0);
    assert!(matches!(state.current().kind, TabKind::ZMX));
    state.next();
    assert_eq!(state.index, 1);
    state.next();
    assert_eq!(state.index, 0);
    state.previous();
    assert_eq!(state.index, 1);
    assert_eq!(state.titles(), vec!["ZIO", "Slick"]);
}

#[test]
fn slick_tab_histories_evict_oldest() {
    let mut tab = SlickTab::new();
    for n in 0..30u64 {
        tab.append_slick_metrics(SlickMetrics { active_threads: n, queue_size: 0 });
    }
    assert_eq!(tab.slick_metrics.len(), SlickTab::MAX_SLICK_MEASURES);
    assert_eq!(tab.slick_metrics[0].active_threads, 5);
    tab.append_hikari_metrics(HikariMetrics { active: 1, idle: 2, waiting: 0, total: 3 });
    assert_eq!(tab.hikari_metrics.len(), 1);
    tab.replace_slick_config(SlickConfig { max_threads: 20, max_queue_size: 1000 });
    assert_eq!(tab.slick_config.max_threads, 20);
    assert_eq!(tab.slick_config.max_queue_size, 1000);
}

#[test]
fn actor_tab_renders_plain_labels() {
    let mut tab = AkkaActorTreeTab::new();
    tab.update_actor_tree(vec![
        ActorTreeNode { id: 1, parent_id: None, name: "user".to_owned() },
        ActorTreeNode { id: 2, parent_id: Some(1), name: "worker".to_owned() },
    ]);
    assert_eq!(tab.actors.items, vec!["└─#1", "  └─#2"]);
    assert_eq!(tab.actors.state.selected(), Some(0));
    tab.select_next_actor();
    assert_eq!(tab.actors.state.selected(), Some(1));
    tab.select_next_actor();
    assert_eq!(tab.actors.state.selected(), Some(0));
    tab.append_actor_count(2);
    assert_eq!(tab.actor_counts.len(), 1);
    assert_eq!(tab.actor_counts[0], 2);
}

#[test]
fn app_creates_only_configured_tabs() {
    let app = App::new(
        "dashboard",
        Some("localhost:1111".to_owned()),
        None::<JMXConnectionSettings>,
        Some(AkkaSettings {
            tree_address: "localhost:2222".to_owned(),
            count_address: "localhost:3333".to_owned(),
        }),
    );
    assert_eq!(app.tabs.titles(), vec!["ZIO", "Akka"]);
    assert!(app.zmx.is_some());
    assert!(app.slick.is_none());
    assert!(app.actor_tree.is_some());
    assert!(!app.should_quit);
    assert!(app.exit_reason.is_none());
}

#[test]
fn app_dispatches_navigation_to_active_tab() {
    let mut app = App::new(
        "dashboard",
        Some("localhost:1111".to_owned()),
        None::<JMXConnectionSettings>,
        Some(AkkaSettings {
            tree_address: "localhost:2222".to_owned(),
            count_address: "localhost:3333".to_owned(),
        }),
    );
    let accepted = app.ingest_fiber_snapshot(vec![
        fiber(1, None, FiberStatus::Running, "1"),
        fiber(2, None, FiberStatus::Done, "2"),
    ]);
    assert!(accepted);
    app.on_down();
    assert_eq!(app.zmx.as_ref().unwrap().fibers.state.selected(), Some(1));
    app.on_up();
    assert_eq!(app.zmx.as_ref().unwrap().fibers.state.selected(), Some(0));
    // pool metrics were never configured: the engine reports the wiring bug
    assert!(!app.ingest_slick_metrics(SlickMetrics { active_threads: 1, queue_size: 0 }));
    // the actor tab ignores paging
    app.on_right();
    app.on_page_down();
    assert_eq!(app.tabs.index, 1);
}

#[test]
fn app_quit_freezes_the_engine() {
    let mut app = App::new(
        "dashboard",
        Some("localhost:1111".to_owned()),
        None::<JMXConnectionSettings>,
        None::<AkkaSettings>,
    );
    app.on_key('x');
    assert!(!app.should_quit);
    app.on_key('q');
    assert!(app.should_quit);
    assert!(app.exit_reason.is_none());
    // a later quit with a reason does not overwrite the first
    app.quit(Some("boom".to_owned()));
    assert!(app.exit_reason.is_none());
    // mutation after quit is a tolerated no-op
    assert!(!app.ingest_fiber_tally(vec![fiber(1, None, FiberStatus::Done, "1")]));
    app.on_right();
    assert_eq!(app.tabs.index, 0);
}
