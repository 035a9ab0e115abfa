use console_core::state::{
    EntityDelta, NewMetadata, ResourceUpdate, State, TaskDetails, TaskUpdate, Update,
};
use console_core::fields::{WireField, WireMetadata, WireName, WireValue};
use console_core::ui::{InputEvent, UpdateKind, View, ViewState, Width};
use hdrhistogram::serialization::{Serializer, V2Serializer};
use hdrhistogram::Histogram;

fn register(id: u64, target: &str, names: &[&str]) -> Update {
    Update {
        now: None,
        new_metadata: Some(vec![NewMetadata {
            id: Some(id),
            metadata: Some(WireMetadata {
                target: target.to_string(),
                field_names: names.iter().map(|n| n.to_string()).collect(),
            }),
        }]),
        task_update: None,
        resource_update: None,
    }
}

fn task_update(now: Option<u64>, id: u64, meta: u64, fields: Vec<WireField>) -> Update {
    Update {
        now,
        new_metadata: None,
        task_update: Some(TaskUpdate {
            tasks: vec![EntityDelta { id, metadata_id: Some(meta), fields }],
        }),
        resource_update: None,
    }
}

fn str_field(idx: u64, meta: u64, text: &str) -> WireField {
    WireField {
        name: Some(WireName::Index(idx)),
        metadata_id: Some(meta),
        value: Some(WireValue::Str(text.to_string())),
    }
}

fn num_field(idx: u64, meta: u64, num: u64) -> WireField {
    WireField {
        name: Some(WireName::Index(idx)),
        metadata_id: Some(meta),
        value: Some(WireValue::U64(num)),
    }
}

#[test]
fn end_to_end_update_formats_rows() {
    let mut state = State::default();
    state.update(&ViewState::TasksList, register(1, "mod", &["task.name", "x"]));
    state.update(
        &ViewState::TasksList,
        task_update(None, 42, 1, vec![str_field(0, 1, "worker"), num_field(1, 1, 5)]),
    );
    let task = state.task(42).expect("task should be live");
    let rows = task.formatted_rows().expect("visible list computes rows");
    assert_eq!(rows, vec!["task.name=worker ".to_string(), "x=5 ".to_string()]);
}

#[test]
fn metadata_and_deltas_in_one_batch() {
    // metadata in the same batch is ingested before the deltas that use it
    let mut state = State::default();
    let update = Update {
        now: Some(9),
        new_metadata: Some(vec![NewMetadata {
            id: Some(1),
            metadata: Some(WireMetadata {
                target: "mod".to_string(),
                field_names: vec!["task.name".to_string()],
            }),
        }]),
        task_update: Some(TaskUpdate {
            tasks: vec![EntityDelta {
                id: 7,
                metadata_id: Some(1),
                fields: vec![str_field(0, 1, "w")],
            }],
        }),
        resource_update: None,
    };
    state.update(&ViewState::TasksList, update);
    assert_eq!(state.last_updated_at(), Some(9));
    assert!(state.task(7).is_some());
}

#[test]
fn hidden_list_skips_presentation_but_keeps_data() {
    let mut state = State::default();
    state.update(&ViewState::ResourcesList, register(1, "mod", &["task.name"]));
    state.update(
        &ViewState::ResourcesList,
        task_update(None, 3, 1, vec![str_field(0, 1, "w")]),
    );
    let task = state.task(3).expect("data is correct even off-screen");
    assert!(task.formatted_rows().is_none());
}

#[test]
fn metadata_last_write_wins() {
    let mut state = State::default();
    state.update(&ViewState::TasksList, register(1, "mod", &["old.name"]));
    state.update(&ViewState::TasksList, register(1, "mod", &["new.name"]));
    state.update(
        &ViewState::TasksList,
        task_update(None, 5, 1, vec![str_field(0, 1, "v")]),
    );
    let rows = state.task(5).unwrap().formatted_rows().unwrap();
    assert_eq!(rows, vec!["new.name=v ".to_string()]);
}

#[test]
fn delta_with_unknown_metadata_is_skipped() {
    let mut state = State::default();
    state.update(
        &ViewState::TasksList,
        task_update(None, 5, 99, vec![str_field(0, 99, "v")]),
    );
    assert!(state.task(5).is_none());
}

#[test]
fn retention_prunes_stale_keeps_fresh() {
    let mut state = State::default().with_retain_for(Some(10));
    state.update(&ViewState::TasksList, register(1, "mod", &["task.name"]));
    // entity A last updated at 89 == 100 - 10 - 1
    state.update(
        &ViewState::TasksList,
        task_update(Some(89), 1, 1, vec![str_field(0, 1, "a")]),
    );
    // entity B last updated at 91 == 100 - 10 + 1; the batch clock moves to 100
    state.update(
        &ViewState::TasksList,
        task_update(Some(91), 2, 1, vec![str_field(0, 1, "b")]),
    );
    state.update(
        &ViewState::TasksList,
        Update { now: Some(100), new_metadata: None, task_update: None, resource_update: None },
    );
    state.retain_active();
    assert!(state.task(1).is_none(), "older than the window: pruned");
    assert!(state.task(2).is_some(), "inside the window: kept");
}

#[test]
fn retention_is_a_no_op_while_paused() {
    let mut state = State::default().with_retain_for(Some(10));
    state.update(&ViewState::TasksList, register(1, "mod", &["task.name"]));
    state.update(
        &ViewState::TasksList,
        task_update(Some(1), 1, 1, vec![str_field(0, 1, "a")]),
    );
    state.update(
        &ViewState::TasksList,
        Update { now: Some(1000), new_metadata: None, task_update: None, resource_update: None },
    );
    state.pause();
    assert!(state.is_paused());
    state.retain_active();
    assert!(state.task(1).is_some(), "no entity is pruned while paused");
    state.resume();
    assert!(!state.is_paused());
    state.retain_active();
    assert!(state.task(1).is_none());
}

#[test]
fn retention_without_clock_or_window_prunes_nothing() {
    let mut state = State::default();
    state.update(&ViewState::TasksList, register(1, "mod", &["task.name"]));
    state.update(
        &ViewState::TasksList,
        task_update(Some(1), 1, 1, vec![str_field(0, 1, "a")]),
    );
    state.retain_active();
    assert!(state.task(1).is_some());
}

#[test]
fn sole_string_reference_is_swept_after_prune() {
    let mut state = State::default().with_retain_for(Some(10));
    state.update(&ViewState::TasksList, register(1, "mod", &[]));
    // the task is the sole holder of the field name "only.here"
    let sole = WireField {
        name: Some(WireName::Str("only.here".to_string())),
        metadata_id: Some(1),
        value: Some(WireValue::U64(1)),
    };
    state.update(&ViewState::TasksList, task_update(Some(1), 1, 1, vec![sole]));
    assert!(state.is_interned(&"only.here".to_string()));
    // "mod" is held by the metadata table, which is never pruned
    state.update(
        &ViewState::TasksList,
        Update { now: Some(1000), new_metadata: None, task_update: None, resource_update: None },
    );
    state.retain_active();
    assert!(state.task(1).is_none());
    assert!(!state.is_interned(&"only.here".to_string()));
    assert!(state.is_interned(&"mod".to_string()));
}

#[test]
fn string_shared_by_two_entities_survives_one_prune() {
    let mut state = State::default().with_retain_for(Some(10));
    state.update(&ViewState::TasksList, register(1, "mod", &[]));
    let shared = |v: u64| WireField {
        name: Some(WireName::Str("shared.name".to_string())),
        metadata_id: Some(1),
        value: Some(WireValue::U64(v)),
    };
    state.update(&ViewState::TasksList, task_update(Some(1), 1, 1, vec![shared(1)]));
    state.update(&ViewState::TasksList, task_update(Some(1000), 2, 1, vec![shared(2)]));
    state.retain_active();
    assert!(state.task(1).is_none());
    assert!(state.task(2).is_some());
    assert!(state.is_interned(&"shared.name".to_string()));
}

fn state_with_task(id: u64) -> State {
    let mut state = State::default();
    state.update(&ViewState::TasksList, register(1, "mod", &["task.name"]));
    state.update(
        &ViewState::TasksList,
        task_update(Some(1), id, 1, vec![str_field(0, 1, "w")]),
    );
    state
}

#[test]
fn enter_with_valid_selection_opens_task_instance() {
    let state = state_with_task(42);
    let mut view = View::new();
    assert!(matches!(view.current_view(), ViewState::TasksList));
    view.select_task(Some(42));
    let kind = view.update_input(InputEvent::Enter, &state);
    assert!(matches!(kind, UpdateKind::SelectTask(42)));
    assert!(matches!(view.current_view(), ViewState::TaskInstance(tv) if tv.task_id == 42));
}

#[test]
fn enter_with_unresolvable_selection_stays_put() {
    let state = state_with_task(42);
    let mut view = View::new();
    view.select_task(Some(99));
    let kind = view.update_input(InputEvent::Enter, &state);
    assert!(matches!(kind, UpdateKind::Other));
    assert!(matches!(view.current_view(), ViewState::TasksList));
}

#[test]
fn enter_with_no_selection_stays_put() {
    let state = state_with_task(42);
    let mut view = View::new();
    let kind = view.update_input(InputEvent::Enter, &state);
    assert!(matches!(kind, UpdateKind::Other));
    assert!(matches!(view.current_view(), ViewState::TasksList));
}

#[test]
fn r_and_t_switch_between_lists() {
    let state = state_with_task(42);
    let mut view = View::new();
    let kind = view.update_input(InputEvent::Char('r'), &state);
    assert!(matches!(kind, UpdateKind::Other));
    assert!(matches!(view.current_view(), ViewState::ResourcesList));
    let kind = view.update_input(InputEvent::Char('t'), &state);
    assert!(matches!(kind, UpdateKind::Other));
    assert!(matches!(view.current_view(), ViewState::TasksList));
}

#[test]
fn esc_leaves_task_instance() {
    let state = state_with_task(42);
    let mut view = View::new();
    view.select_task(Some(42));
    view.update_input(InputEvent::Enter, &state);
    let kind = view.update_input(InputEvent::Esc, &state);
    assert!(matches!(kind, UpdateKind::ExitTaskView));
    assert!(matches!(view.current_view(), ViewState::TasksList));
}

#[test]
fn unmatched_events_change_nothing() {
    let state = state_with_task(42);
    let mut view = View::new();
    view.select_task(Some(42));
    assert!(matches!(view.update_input(InputEvent::Char('x'), &state), UpdateKind::Other));
    assert!(matches!(view.current_view(), ViewState::TasksList));
    assert!(matches!(view.update_input(InputEvent::Esc, &state), UpdateKind::Other));
    assert!(matches!(view.current_view(), ViewState::TasksList));
    view.update_input(InputEvent::Char('r'), &state);
    assert!(matches!(view.update_input(InputEvent::Char('r'), &state), UpdateKind::Other));
    assert!(matches!(view.current_view(), ViewState::ResourcesList));
    view.update_input(InputEvent::Char('t'), &state);
    view.update_input(InputEvent::Enter, &state);
    let kind = view.update_input(InputEvent::Char('z'), &state);
    assert!(matches!(kind, UpdateKind::Other));
    assert!(matches!(view.current_view(), ViewState::TaskInstance(_)));
}

#[test]
fn render_advances_retention() {
    let mut state = state_with_task(1).with_retain_for(Some(10));
    state.update(
        &ViewState::TasksList,
        Update { now: Some(1000), new_metadata: None, task_update: None, resource_update: None },
    );
    let mut view = View::new();
    let rows = view.render(&mut state);
    // the stale task was rendered this frame and pruned right after it
    assert_eq!(rows.len(), 1);
    assert!(state.task(1).is_none());
    let rows = view.render(&mut state);
    assert_eq!(rows.len(), 0);
}

#[test]
fn render_task_instance_shows_selected_task() {
    let mut state = state_with_task(42);
    let mut view = View::new();
    view.select_task(Some(42));
    view.update_input(InputEvent::Enter, &state);
    let rows = view.render(&mut state);
    assert_eq!(rows, vec![vec!["task.name=w ".to_string()]]);
}

#[test]
fn render_task_instance_with_evicted_task_is_empty() {
    let mut state = state_with_task(42).with_retain_for(Some(10));
    let mut view = View::new();
    view.select_task(Some(42));
    view.update_input(InputEvent::Enter, &state);
    state.update(
        &ViewState::TasksList,
        Update { now: Some(1000), new_metadata: None, task_update: None, resource_update: None },
    );
    state.retain_active();
    // the selection is now a graceful miss: nothing to render, no failure
    let rows = view.render(&mut state);
    assert!(rows.is_empty());
}

fn serialized_histogram() -> Vec<u8> {
    let mut h = Histogram::<u64>::new(3).expect("histogram");
    h.record(42).expect("record");
    let mut buf = Vec::new();
    V2Serializer::new().serialize(&h, &mut buf).expect("serialize");
    buf
}

#[test]
fn task_details_decode_valid_histogram() {
    let mut state = State::default();
    state.update_task_details(TaskDetails {
        task_id: Some(7),
        poll_times_histogram: Some(serialized_histogram()),
    });
    let details = state.task_details_ref().as_ref().expect("details installed");
    assert_eq!(details.task_id, 7);
    assert!(details.poll_times_histogram.is_some());
}

#[test]
fn task_details_swallow_decode_failure() {
    let mut state = State::default();
    state.update_task_details(TaskDetails {
        task_id: Some(7),
        poll_times_histogram: Some(vec![1, 2, 3]),
    });
    let details = state.task_details_ref().as_ref().expect("details installed anyway");
    assert_eq!(details.task_id, 7);
    assert!(details.poll_times_histogram.is_none());
}

#[test]
fn task_details_without_id_change_nothing() {
    let mut state = State::default();
    state.update_task_details(TaskDetails {
        task_id: Some(7),
        poll_times_histogram: None,
    });
    state.update_task_details(TaskDetails {
        task_id: None,
        poll_times_histogram: Some(serialized_histogram()),
    });
    let details = state.task_details_ref().as_ref().expect("prior details kept");
    assert_eq!(details.task_id, 7);
    assert!(details.poll_times_histogram.is_none());
}

#[test]
fn unset_task_details_clears_the_slot() {
    let mut state = State::default();
    state.update_task_details(TaskDetails {
        task_id: Some(7),
        poll_times_histogram: None,
    });
    state.unset_task_details();
    assert!(state.task_details_ref().is_none());
}

#[test]
fn resources_are_tracked_separately() {
    let mut state = State::default();
    state.update(&ViewState::ResourcesList, register(1, "mod", &["task.name"]));
    let update = Update {
        now: Some(1),
        new_metadata: None,
        task_update: None,
        resource_update: Some(ResourceUpdate {
            resources: vec![EntityDelta {
                id: 9,
                metadata_id: Some(1),
                fields: vec![str_field(0, 1, "res")],
            }],
        }),
    };
    state.update(&ViewState::ResourcesList, update);
    assert!(state.task(9).is_none(), "a resource is not a task");
    assert_eq!(state.resources_state().entities.len(), 1);
}

#[test]
fn width_grows_and_caps() {
    let mut w = Width::new(3);
    assert_eq!(w.chars(), 3);
    w.update_len(10);
    assert_eq!(w.chars(), 10);
    w.update_len(4);
    assert_eq!(w.chars(), 10);
    let s = w.update_str("hello, this is a longer cell");
    assert_eq!(s, "hello, this is a longer cell");
    assert_eq!(w.chars(), 28);
    w.update_len(5000);
    assert_eq!(w.chars(), 100);
}
