//! What the client knows of the compositor: its globals and its outputs.

use vstd::prelude::*;
use crate::arith;
use crate::arith::Arith;
use crate::config::Config;
use crate::double::Double;
use crate::gamma;
use crate::protocol;
use crate::text::same_text;
use crate::upload::Upload;

verus! {

/// How many outputs are bound before further ones are turned away.
pub const MAX_OUTPUTS: usize = 8;

/// How many outputs there is room for.
pub const OUTPUT_SLOTS: usize = 4;

/// The ids of the bound globals, 0 where there is none.
#[derive(Clone, Copy, Debug, PartialEq, Eq, Structural)]
pub struct Global {
    /// Id of `wl_compositor`.
    pub compositor_id: u32,
    /// Id of `zwlr_gamma_control_manager_v1`.
    pub gamma_manager_id: u32,
}

impl Default for Global {
    fn default() -> (r: Self)
        ensures
            r.compositor_id == 0,
            r.gamma_manager_id == 0,
    {
        Global { compositor_id: 0, gamma_manager_id: 0 }
    }
}

/// One output and its gamma control.
#[derive(Clone, Copy, Debug, PartialEq, Eq, Structural)]
pub struct Output {
    pub output_id: u32,
    pub gamma_control_id: u32,
}

impl Default for Output {
    fn default() -> (r: Self)
        ensures
            r.output_id == 0,
            r.gamma_control_id == 0,
    {
        Output { output_id: 0, gamma_control_id: 0 }
    }
}

/// What a global is bound for.
#[derive(Clone, Copy, Debug, PartialEq, Eq, Structural)]
pub enum Role {
    Compositor,
    GammaManager,
    Output,
}

/// What is to be done about an advertised global.
#[derive(Clone, Copy, Debug, PartialEq, Eq, Structural)]
pub enum GlobalAction {
    /// Nothing: the interface is not one that is wanted.
    Ignore,
    /// Report that there are too many outputs.
    LimitReached,
    /// Allocate an id and bind the global to it at this version.
    Bind { role: Role, name: u32, version: u32 },
}

/// A request for the gamma control of an output.
#[derive(Clone, Copy, Debug, PartialEq, Eq, Structural)]
pub struct ControlRequest {
    /// The object that the request is made of.
    pub object: u32,
    pub opcode: u16,
    /// The id of the new gamma control.
    pub control_id: u32,
    pub output_id: u32,
}

/// The role of the globals that have the given interface.
pub open spec fn role_of(interface: Seq<char>) -> Option<Role> {
    if interface == "wl_compositor"@ {
        Some(Role::Compositor)
    } else if interface == "zwlr_gamma_control_manager_v1"@ {
        Some(Role::GammaManager)
    } else if interface == "wl_output"@ {
        Some(Role::Output)
    } else {
        None
    }
}

/// The newest version of an interface that the client speaks.
pub open spec fn wanted_version(role: Role) -> u32 {
    match role {
        Role::Compositor => 7,
        Role::GammaManager => 1,
        Role::Output => 4,
    }
}

/// The version to bind: the lesser of the wanted and the advertised one.
pub open spec fn spec_clamp_version(wanted: u32, advertised: u32) -> u32 {
    if wanted <= advertised {
        wanted
    } else {
        advertised
    }
}

/// What an event of an output's gamma control starts: nothing where the
/// control failed, otherwise the upload of a table.
pub open spec fn started(out: Output, opcode: u16) -> Upload {
    if opcode == protocol::FAILED {
        Upload::Finished
    } else {
        Upload::Sizing { control: out.gamma_control_id }
    }
}

/// What an event starts for those of the outputs whose gamma control sent it.
pub open spec fn uploads_for(outputs: Seq<Output>, sender: u32, opcode: u16) -> Seq<Upload>
    decreases outputs.len(),
{
    if outputs.len() == 0 {
        Seq::empty()
    } else {
        let front = uploads_for(outputs.drop_last(), sender, opcode);
        if outputs.last().gamma_control_id == sender {
            front.push(started(outputs.last(), opcode))
        } else {
            front
        }
    }
}

/// The version to bind: the lesser of the wanted and the advertised one.
pub fn clamp_version(wanted: u32, advertised: u32) -> (r: u32)
    ensures
        r == spec_clamp_version(wanted, advertised),
{
    if wanted <= advertised {
        wanted
    } else {
        advertised
    }
}

/// The role of the globals that have the given interface.
fn classify(interface: &str) -> (r: Option<Role>)
    ensures
        r == role_of(interface@),
{
    if same_text(interface, "wl_compositor") {
        Some(Role::Compositor)
    } else if same_text(interface, "zwlr_gamma_control_manager_v1") {
        Some(Role::GammaManager)
    } else if same_text(interface, "wl_output") {
        Some(Role::Output)
    } else {
        None
    }
}

fn newest_version(role: Role) -> (r: u32)
    ensures
        r == wanted_version(role),
{
    match role {
        Role::Compositor => 7,
        Role::GammaManager => 1,
        Role::Output => 4,
    }
}

/// The bound globals, the known outputs and the settings for their ramps.
#[derive(Clone, Copy, Debug)]
pub struct State {
    pub global: Global,
    pub outputs: [Output; 4],
    /// How many of the outputs are in use.
    pub output_len: usize,
    pub config: Config,
}

impl State {
    /// No more outputs are in use than there is room for, and the others are
    /// blank.
    pub open spec fn wf(self) -> bool {
        &&& self.output_len <= OUTPUT_SLOTS
        &&& forall|i: int|
            self.output_len <= i < OUTPUT_SLOTS ==> #[trigger] self.outputs@[i] == (Output {
                output_id: 0,
                gamma_control_id: 0,
            })
    }

    /// What is to be done about an advertised global.
    pub open spec fn global_action(self, name: u32, interface: Seq<char>, version: u32) -> GlobalAction {
        match role_of(interface) {
            None => GlobalAction::Ignore,
            Some(role) => if role is Output && self.output_len >= MAX_OUTPUTS {
                GlobalAction::LimitReached
            } else {
                GlobalAction::Bind {
                    role,
                    name,
                    version: spec_clamp_version(wanted_version(role), version),
                }
            },
        }
    }

    /// Whether `after` is this state with a global bound for `role` to `id`.
    pub open spec fn becomes_bound(self, role: Role, id: u32, after: State) -> bool {
        match role {
            Role::Compositor => {
                &&& after.global == Global { compositor_id: id, ..self.global }
                &&& after.outputs == self.outputs
                &&& after.output_len == self.output_len
                &&& after.config == self.config
            },
            Role::GammaManager => {
                &&& after.global == Global { gamma_manager_id: id, ..self.global }
                &&& after.outputs == self.outputs
                &&& after.output_len == self.output_len
                &&& after.config == self.config
            },
            Role::Output => {
                &&& after.global == self.global
                &&& after.outputs@ == self.outputs@.update(
                    self.output_len as int,
                    Output { output_id: id, gamma_control_id: 0 },
                )
                &&& after.output_len == self.output_len + 1
                &&& after.config == self.config
            },
        }
    }

    /// A state without globals and outputs.
    pub fn init(config: Config) -> (r: Self)
        ensures
            r.wf(),
            r.global == (Global { compositor_id: 0, gamma_manager_id: 0 }),
            r.output_len == 0,
            r.config == config,
    {
        State {
            global: Global::default(),
            outputs: [Output::default(), Output::default(), Output::default(), Output::default()],
            output_len: 0,
            config,
        }
    }

    /// Decides about an advertised global. Globals of the wanted interfaces are
    /// bound at the lesser of the wanted and the advertised version.
    pub fn on_global(&self, name: u32, interface: &str, version: u32) -> (r: GlobalAction)
        ensures
            r == self.global_action(name, interface@, version),
    {
        match classify(interface) {
            None => GlobalAction::Ignore,
            Some(role) => {
                if matches!(role, Role::Output) && self.output_len >= MAX_OUTPUTS {
                    GlobalAction::LimitReached
                } else {
                    let version: u32 = clamp_version(newest_version(role), version);
                    GlobalAction::Bind { role, name, version }
                }
            },
        }
    }

    /// Records that a global was bound.
    pub fn on_bound(&mut self, role: Role, id: u32)
        requires
            role is Output ==> old(self).output_len < OUTPUT_SLOTS,
        ensures
            old(self).becomes_bound(role, id, *final(self)),
            old(self).wf() ==> final(self).wf(),
    {
        match role {
            Role::Compositor => {
                self.global.compositor_id = id;
            },
            Role::GammaManager => {
                self.global.gamma_manager_id = id;
            },
            Role::Output => {
                self.outputs[self.output_len] = Output { output_id: id, gamma_control_id: 0 };
                self.output_len = self.output_len + 1;
            },
        }
    }

    /// Gives each output in use the gamma control with the id in the same
    /// place, and returns the requests that create these controls.
    pub fn request_gamma_controls(&mut self, ids: &[u32]) -> (requests: Vec<ControlRequest>)
        requires
            old(self).output_len <= OUTPUT_SLOTS,
            ids@.len() == old(self).output_len,
        ensures
            final(self).global == old(self).global,
            final(self).output_len == old(self).output_len,
            final(self).config == old(self).config,
            forall|i: int|
                0 <= i < OUTPUT_SLOTS ==> #[trigger] final(self).outputs@[i] == (if i
                    < old(self).output_len {
                    Output {
                        output_id: old(self).outputs@[i].output_id,
                        gamma_control_id: ids@[i],
                    }
                } else {
                    old(self).outputs@[i]
                }),
            requests@.len() == old(self).output_len,
            forall|i: int|
                0 <= i < requests@.len() ==> #[trigger] requests@[i] == (ControlRequest {
                    object: old(self).global.gamma_manager_id,
                    opcode: protocol::GET_GAMMA_CONTROL,
                    control_id: ids@[i],
                    output_id: old(self).outputs@[i].output_id,
                }),
            old(self).wf() ==> final(self).wf(),
    {
        let ghost before = *self;
        let mut requests: Vec<ControlRequest> = Vec::new();
        let mut i: usize = 0;
        while i < self.output_len
            invariant
                i <= self.output_len <= OUTPUT_SLOTS,
                ids@.len() == self.output_len,
                self.global == before.global,
                self.output_len == before.output_len,
                self.config == before.config,
                forall|j: int|
                    0 <= j < OUTPUT_SLOTS ==> #[trigger] self.outputs@[j] == (if j < i {
                        Output {
                            output_id: before.outputs@[j].output_id,
                            gamma_control_id: ids@[j],
                        }
                    } else {
                        before.outputs@[j]
                    }),
                requests@.len() == i,
                forall|j: int|
                    0 <= j < i ==> #[trigger] requests@[j] == (ControlRequest {
                        object: before.global.gamma_manager_id,
                        opcode: protocol::GET_GAMMA_CONTROL,
                        control_id: ids@[j],
                        output_id: before.outputs@[j].output_id,
                    }),
            decreases self.output_len - i,
        {
            let output_id: u32 = self.outputs[i].output_id;
            requests.push(
                ControlRequest {
                    object: self.global.gamma_manager_id,
                    opcode: protocol::GET_GAMMA_CONTROL,
                    control_id: ids[i],
                    output_id,
                },
            );
            self.outputs[i] = Output { output_id, gamma_control_id: ids[i] };
            i = i + 1;
        }
        requests
    }

    /// The table that fills an upload: that of the state's own settings for
    /// ramps of `size` entries.
    pub fn table<F: Fn(Arith) -> Double>(&self, f: &F, size: usize) -> (t: Vec<u16>)
        requires
            arith::accepts_all(*f),
            3 * size <= usize::MAX,
        ensures
            t@.len() == 3 * size,
            forall|unit: spec_fn(Arith) -> Double| #[trigger]
                arith::computes(*f, unit) ==> t@ == gamma::table(unit, size as nat, self.config),
    {
        gamma::gamma_table(f, size, &self.config)
    }

    /// What an event calls for: for each output, in order, whose gamma control
    /// sent it, what [`State::handle_gamma_size`] starts.
    pub fn handle_event(&self, sender: u32, opcode: u16) -> (r: Vec<Upload>)
        ensures
            r@ == uploads_for(self.outputs@, sender, opcode),
            forall|k: int| 0 <= k < r@.len() ==> (#[trigger] r@[k]).wf(),
    {
        let mut r: Vec<Upload> = Vec::new();
        let mut i: usize = 0;
        while i < OUTPUT_SLOTS
            invariant
                i <= OUTPUT_SLOTS,
                r@ == uploads_for(self.outputs@.take(i as int), sender, opcode),
                forall|k: int| 0 <= k < r@.len() ==> (#[trigger] r@[k]).wf(),
            decreases OUTPUT_SLOTS - i,
        {
            assert(self.outputs@.take(i + 1).drop_last() =~= self.outputs@.take(i as int));
            if self.outputs[i].gamma_control_id == sender {
                r.push(State::handle_gamma_size(&self.outputs[i], opcode));
            }
            i = i + 1;
        }
        assert(self.outputs@.take(i as int) =~= self.outputs@);
        r
    }

    /// Starts what an event of an output's gamma control calls for: nothing
    /// where the control failed, otherwise the upload of a table.
    pub fn handle_gamma_size(out: &Output, opcode: u16) -> (r: Upload)
        ensures
            r == started(*out, opcode),
            r.wf(),
    {
        if opcode == protocol::FAILED {
            return Upload::Finished;
        }
        Upload::Sizing { control: out.gamma_control_id }
    }
}

/// Each of the three wanted interfaces has a role of its own.
pub proof fn law_wanted_interfaces()
    ensures
        role_of("wl_compositor"@) == Some(Role::Compositor),
        role_of("zwlr_gamma_control_manager_v1"@) == Some(Role::GammaManager),
        role_of("wl_output"@) == Some(Role::Output),
{
    reveal_strlit("wl_compositor");
    reveal_strlit("zwlr_gamma_control_manager_v1");
    reveal_strlit("wl_output");
    assert("wl_compositor"@.len() == 13);
    assert("zwlr_gamma_control_manager_v1"@.len() == 29);
    assert("wl_output"@.len() == 9);
}

/// A bound version is neither above what the client speaks nor above what the
/// compositor offers, and is one of the two.
pub proof fn law_bound_version(state: State, name: u32, interface: Seq<char>, version: u32)
    ensures
        state.global_action(name, interface, version) matches GlobalAction::Bind {
            role,
            name: bound,
            version: v,
        } ==> {
            &&& role_of(interface) == Some(role)
            &&& bound == name
            &&& v <= version
            &&& v <= wanted_version(role)
            &&& v == version || v == wanted_version(role)
        },
{
}

/// Outputs that have other gamma controls start nothing.
proof fn lemma_no_uploads(outputs: Seq<Output>, sender: u32, opcode: u16)
    requires
        forall|k: int|
            0 <= k < outputs.len() ==> (#[trigger] outputs[k]).gamma_control_id != sender,
    ensures
        uploads_for(outputs, sender, opcode) == Seq::<Upload>::empty(),
    decreases outputs.len(),
{
    if outputs.len() > 0 {
        assert(outputs.last() == outputs[outputs.len() - 1]);
        assert forall|k: int| 0 <= k < outputs.drop_last().len() implies (
        #[trigger] outputs.drop_last()[k]).gamma_control_id != sender by {
            assert(outputs.drop_last()[k] == outputs[k]);
        }
        lemma_no_uploads(outputs.drop_last(), sender, opcode);
    }
}

/// An event whose sender is the gamma control of just one output starts one
/// upload.
proof fn lemma_one_upload(outputs: Seq<Output>, i: int, sender: u32, opcode: u16)
    requires
        0 <= i < outputs.len(),
        forall|k: int|
            0 <= k < outputs.len() ==> ((#[trigger] outputs[k]).gamma_control_id == sender <==> k
                == i),
    ensures
        uploads_for(outputs, sender, opcode) == seq![started(outputs[i], opcode)],
    decreases outputs.len(),
{
    let front = outputs.drop_last();
    assert(outputs.last() == outputs[outputs.len() - 1]);
    assert(forall|k: int| 0 <= k < front.len() ==> #[trigger] front[k] == outputs[k]);
    if i == front.len() {
        lemma_no_uploads(front, sender, opcode);
        assert(uploads_for(outputs, sender, opcode) =~= seq![started(outputs[i], opcode)]);
    } else {
        lemma_one_upload(front, i, sender, opcode);
    }
}

/// Once each output in use has a gamma control of its own, an event of one of
/// these controls concerns the output that has it and no other.
pub proof fn law_events_reach_one_output(state: State, i: int, opcode: u16)
    requires
        state.wf(),
        0 <= i < state.output_len,
        forall|k: int|
            0 <= k < state.output_len ==> (#[trigger] state.outputs@[k]).gamma_control_id != 0,
        forall|k: int, l: int|
            0 <= k < l < state.output_len ==> (#[trigger] state.outputs@[k]).gamma_control_id != (
            #[trigger] state.outputs@[l]).gamma_control_id,
    ensures
        uploads_for(state.outputs@, state.outputs@[i].gamma_control_id, opcode) == seq![
            started(state.outputs@[i], opcode),
        ],
{
    let sender = state.outputs@[i].gamma_control_id;
    assert forall|k: int| 0 <= k < state.outputs@.len() implies ((
    #[trigger] state.outputs@[k]).gamma_control_id == sender <==> k == i) by {
        if k >= state.output_len {
            assert(state.outputs@[k].gamma_control_id == 0);
        }
    }
    lemma_one_upload(state.outputs@, i, sender, opcode);
}

/// Two outputs that are bound one after the other keep their order and ids.
pub proof fn law_outputs_keep_their_order(a: State, b: State, c: State, first: u32, second: u32)
    requires
        a.wf(),
        a.output_len + 2 <= OUTPUT_SLOTS,
        a.becomes_bound(Role::Output, first, b),
        b.becomes_bound(Role::Output, second, c),
    ensures
        c.wf(),
        c.output_len == a.output_len + 2,
        c.outputs@[a.output_len as int].output_id == first,
        c.outputs@[a.output_len + 1].output_id == second,
        forall|i: int| 0 <= i < a.output_len ==> #[trigger] c.outputs@[i] == a.outputs@[i],
{
}

/// Which globals are bound, turned away and ignored. A compositor and a gamma
/// manager always are bound, an output is as long as there are less than eight,
/// and nothing else ever is; what is bound keeps its name, and its version is
/// the lesser of what the compositor offers and 7, 1 or 4.
pub proof fn law_globals_are_bound(state: State, name: u32, interface: Seq<char>, version: u32)
    ensures
        ({
            let action = state.global_action(name, interface, version);
            let compositor = interface == "wl_compositor"@;
            let manager = interface == "zwlr_gamma_control_manager_v1"@;
            let output = interface == "wl_output"@;
            &&& action == GlobalAction::Ignore <==> !compositor && !manager && !output
            &&& action == GlobalAction::LimitReached <==> output && state.output_len >= 8
            &&& action is Bind <==> compositor || manager || (output && state.output_len < 8)
            &&& action matches GlobalAction::Bind { role, name: n, version: v } ==> {
                &&& n == name
                &&& role == Role::Compositor <==> compositor
                &&& role == Role::GammaManager <==> manager
                &&& role == Role::Output <==> output
                &&& v <= version
                &&& compositor ==> v <= 7 && (v == version || v == 7)
                &&& manager ==> v <= 1 && (v == version || v == 1)
                &&& output ==> v <= 4 && (v == version || v == 4)
            }
        }),
{
    law_wanted_interfaces();
}

/// A bound version is the largest that both sides speak.
pub proof fn law_clamped_version(wanted: u32, advertised: u32, version: u32)
    ensures
        version <= spec_clamp_version(wanted, advertised) <==> version <= wanted && version
            <= advertised,
{
}

/// What binding a global changes: the compositor's id, the gamma manager's id,
/// or the next free output, which has no gamma control yet; and nothing else.
pub proof fn law_binding_changes_one_thing(before: State, role: Role, id: u32, after: State)
    requires
        before.becomes_bound(role, id, after),
        role is Output ==> before.output_len < 4,
    ensures
        after.global.compositor_id == if role == Role::Compositor {
            id
        } else {
            before.global.compositor_id
        },
        after.global.gamma_manager_id == if role == Role::GammaManager {
            id
        } else {
            before.global.gamma_manager_id
        },
        after.output_len == before.output_len + if role == Role::Output {
            1int
        } else {
            0int
        },
        forall|k: int|
            0 <= k < 4 ==> #[trigger] after.outputs@[k] == if role == Role::Output && k
                == before.output_len {
                Output { output_id: id, gamma_control_id: 0 }
            } else {
                before.outputs@[k]
            },
        after.config == before.config,
{
}

/// Every output whose gamma control sent an event, and no other, starts
/// something: nothing is left to do after a failure, and after any other event
/// the upload to that control begins.
pub proof fn law_events_start_uploads(outputs: Seq<Output>, sender: u32, opcode: u16)
    ensures
        ({
            let r = uploads_for(outputs, sender, opcode);
            &&& r.len() == outputs.filter(|out: Output| out.gamma_control_id == sender).len()
            &&& forall|k: int|
                0 <= k < r.len() ==> #[trigger] r[k] == if opcode == 1 {
                    Upload::Finished
                } else {
                    Upload::Sizing { control: sender }
                }
        }),
    decreases outputs.len(),
{
    reveal(Seq::filter);
    if outputs.len() > 0 {
        law_events_start_uploads(outputs.drop_last(), sender, opcode);
    }
}

/// An event of one output's gamma control starts the upload to that control.
pub proof fn law_started(out: Output, opcode: u16)
    ensures
        opcode == 1 <==> started(out, opcode) == Upload::Finished,
        opcode != 1 <==> started(out, opcode) == (Upload::Sizing { control: out.gamma_control_id }),
{
}

} // verus!
