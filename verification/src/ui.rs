//! The view navigation state machine: which screen is shown, how input
//! events move between screens, and which subscribe/unsubscribe signals the
//! caller must act on.  After every render pass the engine's retention is
//! advanced, coupling retention cadence to the redraw cadence.

use crate::state::{
    entity_has_id, instance_rows, rendered_rows, retention_relates, EntityModel, State,
};
use vstd::prelude::*;
use vstd::string::StringSliceAdditionalSpecFns;
use vstd::view::View as VstdView;

verus! {

/// An input event, reduced to what the state machine inspects; anything
/// else is screen-local navigation owned by the table widgets.
#[derive(Clone, Copy)]
pub enum InputEvent {
    Enter,
    Esc,
    Char(char),
    Other,
}

/// A transient detail view of one task, held by stable identifier so that
/// eviction of the task is a graceful miss, never an error.
#[derive(Clone, Copy)]
pub struct TaskView {
    pub task_id: u64,
}

/// The active screen.
#[derive(Clone, Copy)]
pub enum ViewState {
    /// The table list of all tasks.
    TasksList,
    /// The table list of all resources.
    ResourcesList,
    /// Inspecting a single task instance.
    TaskInstance(TaskView),
}

/// The outcome of one input event, a contract to the caller: on
/// `SelectTask` it must open a detail subscription for that task; on
/// `ExitTaskView` it must close it and clear the detail slot.
#[derive(Clone, Copy)]
pub enum UpdateKind {
    SelectTask(u64),
    ExitTaskView,
    Other,
}

/// The selection cell of a table list; row navigation itself belongs to
/// the excluded table widgets, which set the selection here.
pub struct TableListState {
    selected: Option<u64>,
}

impl TableListState {
    pub closed spec fn selected_spec(&self) -> Option<u64> {
        self.selected
    }

    /// A list with nothing selected.
    pub fn new() -> (t: TableListState)
        ensures
            t.selected_spec() is None,
    {
        TableListState { selected: None }
    }

    /// Sets which entity is selected, by stable identifier.
    pub fn select(&mut self, id: Option<u64>)
        ensures
            final(self).selected_spec() == id,
    {
        self.selected = id;
    }

    /// The currently selected entity, by stable identifier.
    pub fn selected_item(&self) -> (r: Option<u64>)
        ensures
            r == self.selected_spec(),
    {
        self.selected
    }
}

/// The selected task, if it still resolves against the live collection.
pub open spec fn resolved_selection(sel: Option<u64>, tasks: Seq<EntityModel>) -> Option<u64> {
    match sel {
        Option::Some(id) => if entity_has_id(tasks, id) {
            Option::Some(id)
        } else {
            Option::None
        },
        Option::None => Option::None,
    }
}

/// The transition table of the view state machine: what the next screen is
/// and what the caller is told, given the current screen, the event, and
/// the resolved task selection.  Any unmatched event changes nothing.
pub open spec fn step(s: ViewState, ev: InputEvent, resolved: Option<u64>) -> (ViewState, UpdateKind) {
    match s {
        ViewState::TasksList => match ev {
            InputEvent::Enter => match resolved {
                Option::Some(id) => (
                    ViewState::TaskInstance(TaskView { task_id: id }),
                    UpdateKind::SelectTask(id),
                ),
                Option::None => (s, UpdateKind::Other),
            },
            InputEvent::Char(c) => if c == 'r' {
                (ViewState::ResourcesList, UpdateKind::Other)
            } else {
                (s, UpdateKind::Other)
            },
            _ => (s, UpdateKind::Other),
        },
        ViewState::ResourcesList => match ev {
            InputEvent::Char(c) => if c == 't' {
                (ViewState::TasksList, UpdateKind::Other)
            } else {
                (s, UpdateKind::Other)
            },
            _ => (s, UpdateKind::Other),
        },
        ViewState::TaskInstance(_) => match ev {
            InputEvent::Esc => (ViewState::TasksList, UpdateKind::ExitTaskView),
            _ => (s, UpdateKind::Other),
        },
    }
}

/// The view: the two list selections (kept across screen changes, so the
/// tasks list comes back the way it was left) and the active screen.
pub struct View {
    tasks_list: TableListState,
    resources_list: TableListState,
    state: ViewState,
}

impl View {
    pub closed spec fn current_spec(&self) -> ViewState {
        self.state
    }

    pub closed spec fn tasks_selection(&self) -> Option<u64> {
        self.tasks_list.selected_spec()
    }

    pub closed spec fn resources_selection(&self) -> Option<u64> {
        self.resources_list.selected_spec()
    }

    /// A view opening on the tasks list with nothing selected.
    pub fn new() -> (v: View)
        ensures
            v.current_spec() == ViewState::TasksList,
            v.tasks_selection() is None,
            v.resources_selection() is None,
    {
        View {
            tasks_list: TableListState::new(),
            resources_list: TableListState::new(),
            state: ViewState::TasksList,
        }
    }

    /// Sets the tasks-list selection, as the table widget would.
    pub fn select_task(&mut self, id: Option<u64>)
        ensures
            final(self).tasks_selection() == id,
            final(self).current_spec() == old(self).current_spec(),
            final(self).resources_selection() == old(self).resources_selection(),
    {
        self.tasks_list.select(id);
    }

    /// Routes one input event: screen transitions are decided here, exactly
    /// as the transition table says; everything else is left to the
    /// screen-local widgets and reported as `Other`.
    pub fn update_input(&mut self, event: InputEvent, state: &State) -> (k: UpdateKind)
        requires
            state.wf(),
        ensures
            final(self).current_spec() == step(
                old(self).current_spec(),
                event,
                resolved_selection(old(self).tasks_selection(), state.tasks_models()),
            ).0,
            k == step(
                old(self).current_spec(),
                event,
                resolved_selection(old(self).tasks_selection(), state.tasks_models()),
            ).1,
            final(self).tasks_selection() == old(self).tasks_selection(),
            final(self).resources_selection() == old(self).resources_selection(),
    {
        let mut update_kind = UpdateKind::Other;
        match self.state {
            ViewState::TasksList => {
                match event {
                    InputEvent::Enter => {
                        if let Some(id) = self.tasks_list.selected_item() {
                            if state.task(id).is_some() {
                                update_kind = UpdateKind::SelectTask(id);
                                self.state = ViewState::TaskInstance(TaskView { task_id: id });
                            }
                        }
                    },
                    InputEvent::Char(c) => {
                        if c == 'r' {
                            self.state = ViewState::ResourcesList;
                        }
                    },
                    _ => {},
                }
            },
            ViewState::ResourcesList => {
                match event {
                    InputEvent::Char(c) => {
                        if c == 't' {
                            self.state = ViewState::TasksList;
                        }
                    },
                    _ => {},
                }
            },
            ViewState::TaskInstance(_) => {
                match event {
                    InputEvent::Esc => {
                        self.state = ViewState::TasksList;
                        update_kind = UpdateKind::ExitTaskView;
                    },
                    _ => {},
                }
            },
        }
        update_kind
    }

    /// The active screen.
    pub fn current_view(&self) -> (v: &ViewState)
        ensures
            *v == self.current_spec(),
    {
        &self.state
    }

    /// Renders the active screen as the display rows of its entities, then
    /// advances the engine's retention pass — retention moves once per
    /// frame, not once per update.
    pub fn render(&mut self, state: &mut State) -> (rows: Vec<Vec<String>>)
        requires
            old(state).wf(),
        ensures
            final(state).wf(),
            final(self).current_spec() == old(self).current_spec(),
            final(self).tasks_selection() == old(self).tasks_selection(),
            final(self).resources_selection() == old(self).resources_selection(),
            retention_relates(old(state), final(state)),
            match old(self).current_spec() {
                ViewState::TasksList => rows.deep_view().len() == old(state).tasks_records().len()
                    && forall|i: int|
                        0 <= i < rows.deep_view().len() ==> rows.deep_view()[i] == rendered_rows(
                            #[trigger] old(state).tasks_records()[i],
                        ),
                ViewState::ResourcesList => rows.deep_view().len() == old(
                    state,
                ).resources_records().len() && forall|i: int|
                    0 <= i < rows.deep_view().len() ==> rows.deep_view()[i] == rendered_rows(
                        #[trigger] old(state).resources_records()[i],
                    ),
                ViewState::TaskInstance(tv) => rows.deep_view() == instance_rows(
                    old(state).tasks_records(),
                    tv.task_id,
                ),
            },
    {
        let rows = match &self.state {
            ViewState::TasksList => state.formatted_rows_of_tasks(),
            ViewState::ResourcesList => state.formatted_rows_of_resources(),
            ViewState::TaskInstance(view) => {
                let mut rows: Vec<Vec<String>> = Vec::new();
                if let Some(e) = state.task(view.task_id) {
                    if let Some(r) = e.formatted_rows() {
                        rows.push(r);
                    }
                }
                proof {
                    assert(rows.deep_view() =~= instance_rows(
                        old(state).tasks_records(),
                        view.task_id,
                    ));
                }
                rows
            },
        };
        state.retain_active();
        rows
    }
}

/// A column width that grows to its content and is capped so one absurdly
/// long value cannot blow the layout apart.
#[derive(Clone, Copy)]
pub struct Width {
    curr: u16,
}

impl Width {
    pub closed spec fn chars_spec(&self) -> u16 {
        self.curr
    }

    /// A width starting at `curr` characters.
    pub fn new(curr: u16) -> (w: Width)
        ensures
            w.chars_spec() == curr,
    {
        Width { curr }
    }

    /// Widens to hold a string of `len` bytes, capped at 100.
    pub fn update_len(&mut self, len: usize)
        ensures
            final(self).chars_spec() as int == ({
                let m = if old(self).chars_spec() as int >= len as int {
                    old(self).chars_spec() as int
                } else {
                    len as int
                };
                if m <= 100 {
                    m
                } else {
                    100int
                }
            }),
    {
        let max: usize = if self.curr as usize >= len {
            self.curr as usize
        } else {
            len
        };
        self.curr = if max <= 100 {
            max as u16
        } else {
            100
        };
    }

    /// Widens to hold `s`, capped at 100, handing the string back.
    pub fn update_str<'a>(&mut self, s: &'a str) -> (r: &'a str)
        ensures
            r@ == s@,
            final(self).chars_spec() as int == ({
                let m = if old(self).chars_spec() as int >= (s.spec_bytes().len() as usize) as int {
                    old(self).chars_spec() as int
                } else {
                    (s.spec_bytes().len() as usize) as int
                };
                if m <= 100 {
                    m
                } else {
                    100int
                }
            }),
    {
        self.update_len(s.len());
        s
    }

    /// The current width in characters.
    pub fn chars(&self) -> (c: u16)
        ensures
            c == self.chars_spec(),
    {
        self.curr
    }
}

} // verus!
