use rustemp::arith::Arith;
use rustemp::config::Config;
use rustemp::double::Double;
use rustemp::gamma::gamma_table;
use rustemp::protocol::{FAILED, GET_GAMMA_CONTROL, SET_GAMMA};
use rustemp::state::{
    clamp_version, ControlRequest, Global, GlobalAction, Output, Role, State, MAX_OUTPUTS,
};
use rustemp::upload::{table_bytes, Action, Call, Reply, Upload};

fn fresh() -> State {
    State::init(Config::default())
}

#[test]
fn initial_state_is_blank() {
    let state = fresh();
    assert_eq!(state.global, Global { compositor_id: 0, gamma_manager_id: 0 });
    assert_eq!(state.global, Global::default());
    assert_eq!(state.output_len, 0);
    for output in state.outputs {
        assert_eq!(output, Output { output_id: 0, gamma_control_id: 0 });
        assert_eq!(output, Output::default());
    }
    assert_eq!(state.config, Config::default());
}

#[test]
fn wanted_globals_are_bound() {
    let state = fresh();
    assert_eq!(
        state.on_global(5, "wl_compositor", 9),
        GlobalAction::Bind { role: Role::Compositor, name: 5, version: 7 }
    );
    assert_eq!(
        state.on_global(6, "zwlr_gamma_control_manager_v1", 3),
        GlobalAction::Bind { role: Role::GammaManager, name: 6, version: 1 }
    );
    assert_eq!(
        state.on_global(7, "wl_output", 2),
        GlobalAction::Bind { role: Role::Output, name: 7, version: 2 }
    );
}

#[test]
fn other_globals_are_ignored() {
    let state = fresh();
    for interface in ["", "wl_seat", "wl_outpu", "wl_output2", "WL_OUTPUT", "wl_compositör"] {
        assert_eq!(state.on_global(1, interface, 1), GlobalAction::Ignore);
    }
}

#[test]
fn versions_are_clamped() {
    assert_eq!(clamp_version(7, 9), 7);
    assert_eq!(clamp_version(7, 7), 7);
    assert_eq!(clamp_version(7, 2), 2);
}

#[test]
fn output_limit() {
    let mut state = fresh();
    state.output_len = MAX_OUTPUTS;
    assert_eq!(state.on_global(1, "wl_output", 4), GlobalAction::LimitReached);
    assert_eq!(
        state.on_global(1, "wl_compositor", 4),
        GlobalAction::Bind { role: Role::Compositor, name: 1, version: 4 }
    );
    state.output_len = MAX_OUTPUTS - 1;
    assert_eq!(
        state.on_global(1, "wl_output", 4),
        GlobalAction::Bind { role: Role::Output, name: 1, version: 4 }
    );
}

fn with_outputs() -> State {
    let mut state = fresh();
    state.on_bound(Role::Compositor, 3);
    state.on_bound(Role::Output, 4);
    state.on_bound(Role::GammaManager, 5);
    state.on_bound(Role::Output, 6);
    state
}

#[test]
fn bound_globals_are_recorded() {
    let state = with_outputs();
    assert_eq!(state.global, Global { compositor_id: 3, gamma_manager_id: 5 });
    assert_eq!(state.output_len, 2);
    assert_eq!(state.outputs[0], Output { output_id: 4, gamma_control_id: 0 });
    assert_eq!(state.outputs[1], Output { output_id: 6, gamma_control_id: 0 });
    assert_eq!(state.outputs[2], Output::default());
}

#[test]
fn all_slots_can_be_used() {
    let mut state = fresh();
    for id in 10..14 {
        state.on_bound(Role::Output, id);
    }
    assert_eq!(state.output_len, 4);
    assert_eq!(state.outputs[3].output_id, 13);
}

#[test]
fn controls_are_requested_for_each_output() {
    let mut state = with_outputs();
    let requests = state.request_gamma_controls(&[20, 21]);
    assert_eq!(
        requests,
        vec![
            ControlRequest { object: 5, opcode: GET_GAMMA_CONTROL, control_id: 20, output_id: 4 },
            ControlRequest { object: 5, opcode: GET_GAMMA_CONTROL, control_id: 21, output_id: 6 },
        ]
    );
    assert_eq!(state.outputs[0], Output { output_id: 4, gamma_control_id: 20 });
    assert_eq!(state.outputs[1], Output { output_id: 6, gamma_control_id: 21 });
    assert_eq!(state.outputs[2], Output::default());
    assert_eq!(fresh().request_gamma_controls(&[]), vec![]);
}

#[test]
fn events_reach_their_output() {
    let mut state = with_outputs();
    state.request_gamma_controls(&[20, 21]);
    assert_eq!(state.handle_event(20, 0), vec![Upload::Sizing { control: 20 }]);
    assert_eq!(state.handle_event(21, 0), vec![Upload::Sizing { control: 21 }]);
    assert_eq!(state.handle_event(21, FAILED), vec![Upload::Finished]);
    assert_eq!(state.handle_event(22, 0), vec![]);
    assert_eq!(
        state.handle_event(0, 0),
        vec![Upload::Sizing { control: 0 }, Upload::Sizing { control: 0 }]
    );
}

#[test]
fn failed_controls_get_no_table() {
    let out = Output { output_id: 4, gamma_control_id: 20 };
    assert_eq!(State::handle_gamma_size(&out, FAILED), Upload::Finished);
    assert_eq!(State::handle_gamma_size(&out, 0), Upload::Sizing { control: 20 });
    assert_eq!(State::handle_gamma_size(&out, 2), Upload::Sizing { control: 20 });
}

#[test]
fn tables_are_those_of_the_settings() {
    let config = Config { disable_g: true, ..Config::default() };
    let unit = |op: Arith| match op {
        Arith::FromInt(n) => Double { bits: n },
        _ => Double { bits: 0x40EF_FFE0_0000_0000 },
    };
    let table = State::init(config).table(&unit, 2);
    assert_eq!(table, vec![65535, 65535, 0, 0, 65535, 65535]);
    assert_eq!(table, gamma_table(&unit, 2, &config));
}

#[test]
fn table_sizes() {
    assert_eq!(table_bytes(0), 0);
    assert_eq!(table_bytes(256), 1536);
}

/// The actions of an upload that gets these replies.
fn trace(replies: &[Reply]) -> Vec<Action> {
    let mut upload = Upload::Sizing { control: 20 };
    let mut actions = vec![upload.action()];
    for reply in replies {
        upload = upload.advance(*reply);
        actions.push(upload.action());
    }
    actions
}

#[test]
fn upload_that_succeeds() {
    let replies = [
        Reply::Size(256),
        Reply::Status(9),
        Reply::Status(0),
        Reply::Mapped(true),
        Reply::Done,
        Reply::Done,
        Reply::Done,
        Reply::Done,
    ];
    assert_eq!(
        trace(&replies),
        vec![
            Action::ReadSize,
            Action::CreateFile,
            Action::Resize { fd: 9, bytes: 1536 },
            Action::MapFile { fd: 9, bytes: 1536 },
            Action::Fill { size: 256 },
            Action::Unmap { bytes: 1536 },
            Action::Send { object: 20, opcode: SET_GAMMA, fd: 9 },
            Action::Close { fd: 9 },
            Action::Stop,
        ]
    );
}

#[test]
fn upload_without_a_file() {
    assert_eq!(
        trace(&[Reply::Size(256), Reply::Status(-1), Reply::Done]),
        vec![Action::ReadSize, Action::CreateFile, Action::Report { call: Call::Create }, Action::Stop]
    );
}

#[test]
fn upload_that_cannot_resize() {
    let replies =
        [Reply::Size(1), Reply::Status(0), Reply::Status(-1), Reply::Done, Reply::Done];
    assert_eq!(
        trace(&replies),
        vec![
            Action::ReadSize,
            Action::CreateFile,
            Action::Resize { fd: 0, bytes: 6 },
            Action::Close { fd: 0 },
            Action::Report { call: Call::Resize },
            Action::Stop,
        ]
    );
}

#[test]
fn upload_that_cannot_map() {
    let replies = [
        Reply::Size(0),
        Reply::Status(7),
        Reply::Status(0),
        Reply::Mapped(false),
        Reply::Done,
        Reply::Done,
    ];
    assert_eq!(
        trace(&replies),
        vec![
            Action::ReadSize,
            Action::CreateFile,
            Action::Resize { fd: 7, bytes: 0 },
            Action::MapFile { fd: 7, bytes: 0 },
            Action::Close { fd: 7 },
            Action::Report { call: Call::MapFile },
            Action::Stop,
        ]
    );
}
