//! How a gamma table gets to the compositor.
//!
//! Once an output has told the size of its ramps, the table is written to an
//! anonymous file in memory, the file's descriptor is sent, and the descriptor
//! is closed. [`Upload`] says which system call comes next; the caller makes
//! it and hands back what it returned.

use vstd::prelude::*;
use crate::protocol;

verus! {

/// A system call that can fail.
#[derive(Clone, Copy, Debug, PartialEq, Eq, Structural)]
pub enum Call {
    /// The creation of the file.
    Create,
    /// The change of its length.
    Resize,
    /// Its mapping into memory.
    MapFile,
}

/// The progress of one upload.
#[derive(Clone, Copy, Debug, PartialEq, Eq, Structural)]
pub enum Upload {
    /// The number of entries in a ramp is to be read.
    Sizing { control: u32 },
    /// The file is to be created.
    Creating { control: u32, size: usize },
    /// The file is to be given its length.
    Resizing { control: u32, size: usize, fd: i32 },
    /// The file is to be mapped into memory.
    Mapping { control: u32, size: usize, fd: i32 },
    /// The table is to be written to the mapping.
    Filling { control: u32, size: usize, fd: i32 },
    /// The mapping is to be removed.
    Unmapping { control: u32, size: usize, fd: i32 },
    /// The descriptor is to be sent.
    Sending { control: u32, fd: i32 },
    /// The descriptor is to be closed, after a failed call or a sent table.
    Closing { fd: i32, failed: Option<Call> },
    /// The failed call is to be reported.
    Reporting { call: Call },
    /// Nothing is left to do.
    Finished,
}

/// What the caller is to do next.
#[derive(Clone, Copy, Debug, PartialEq, Eq, Structural)]
pub enum Action {
    /// Read the number of entries from the event.
    ReadSize,
    /// Create a file in memory.
    CreateFile,
    /// Set the length of the file.
    Resize { fd: i32, bytes: usize },
    /// Map the file.
    MapFile { fd: i32, bytes: usize },
    /// Write the table for ramps of this size to the mapping.
    Fill { size: usize },
    /// Remove the mapping.
    Unmap { bytes: usize },
    /// Send a request that carries the descriptor.
    Send { object: u32, opcode: u16, fd: i32 },
    /// Close the descriptor.
    Close { fd: i32 },
    /// Write a diagnostic of the call that failed.
    Report { call: Call },
    /// Nothing.
    Stop,
}

/// What came of an action.
#[derive(Clone, Copy, Debug, PartialEq, Eq, Structural)]
pub enum Reply {
    /// The number of entries that was read.
    Size(u32),
    /// What the system call returned: negative where it failed.
    Status(i32),
    /// Whether the file could be mapped.
    Mapped(bool),
    /// The action was performed.
    Done,
}

/// The bytes of a table: three ramps of `size` entries, two bytes each.
pub open spec fn spec_table_bytes(size: int) -> int {
    size * 3 * 2
}

/// The bytes of a table: three ramps of `size` entries, two bytes each.
pub fn table_bytes(size: usize) -> (r: usize)
    requires
        spec_table_bytes(size as int) <= usize::MAX,
    ensures
        r == spec_table_bytes(size as int),
{
    size * 3 * 2
}

impl Upload {
    /// The size of the ramps is such that the length of the table fits.
    pub open spec fn wf(self) -> bool {
        match self {
            Upload::Creating { size, .. } | Upload::Resizing { size, .. } | Upload::Mapping {
                size,
                ..
            } | Upload::Filling { size, .. } | Upload::Unmapping { size, .. } => spec_table_bytes(
                size as int,
            ) <= usize::MAX,
            _ => true,
        }
    }

    /// What is to be done in this state.
    pub open spec fn spec_action(self) -> Action {
        match self {
            Upload::Sizing { .. } => Action::ReadSize,
            Upload::Creating { .. } => Action::CreateFile,
            Upload::Resizing { size, fd, .. } => Action::Resize {
                fd,
                bytes: spec_table_bytes(size as int) as usize,
            },
            Upload::Mapping { size, fd, .. } => Action::MapFile {
                fd,
                bytes: spec_table_bytes(size as int) as usize,
            },
            Upload::Filling { size, .. } => Action::Fill { size },
            Upload::Unmapping { size, .. } => Action::Unmap {
                bytes: spec_table_bytes(size as int) as usize,
            },
            Upload::Sending { control, fd } => Action::Send {
                object: control,
                opcode: protocol::SET_GAMMA,
                fd,
            },
            Upload::Closing { fd, .. } => Action::Close { fd },
            Upload::Reporting { call } => Action::Report { call },
            Upload::Finished => Action::Stop,
        }
    }

    /// Whether the reply is one that the action of this state can have.
    pub open spec fn accepts(self, reply: Reply) -> bool {
        match self {
            Upload::Sizing { .. } => reply matches Reply::Size(n) && spec_table_bytes(n as int)
                <= usize::MAX,
            Upload::Creating { .. } | Upload::Resizing { .. } => reply is Status,
            Upload::Mapping { .. } => reply is Mapped,
            Upload::Finished => false,
            _ => reply is Done,
        }
    }

    /// The state that follows a reply.
    pub open spec fn after(self, reply: Reply) -> Upload {
        match (self, reply) {
            (Upload::Sizing { control }, Reply::Size(n)) => Upload::Creating {
                control,
                size: n as usize,
            },
            (Upload::Creating { control, size }, Reply::Status(fd)) => if fd < 0 {
                Upload::Reporting { call: Call::Create }
            } else {
                Upload::Resizing { control, size, fd }
            },
            (Upload::Resizing { control, size, fd }, Reply::Status(status)) => if status < 0 {
                Upload::Closing { fd, failed: Some(Call::Resize) }
            } else {
                Upload::Mapping { control, size, fd }
            },
            (Upload::Mapping { control, size, fd }, Reply::Mapped(mapped)) => if mapped {
                Upload::Filling { control, size, fd }
            } else {
                Upload::Closing { fd, failed: Some(Call::MapFile) }
            },
            (Upload::Filling { control, size, fd }, Reply::Done) => Upload::Unmapping {
                control,
                size,
                fd,
            },
            (Upload::Unmapping { control, fd, .. }, Reply::Done) => Upload::Sending { control, fd },
            (Upload::Sending { fd, .. }, Reply::Done) => Upload::Closing { fd, failed: None },
            (Upload::Closing { failed, .. }, Reply::Done) => match failed {
                Some(call) => Upload::Reporting { call },
                None => Upload::Finished,
            },
            (Upload::Reporting { .. }, Reply::Done) => Upload::Finished,
            (state, _) => state,
        }
    }

    /// What is to be done next.
    pub fn action(&self) -> (r: Action)
        requires
            self.wf(),
        ensures
            r == self.spec_action(),
    {
        match *self {
            Upload::Sizing { .. } => Action::ReadSize,
            Upload::Creating { .. } => Action::CreateFile,
            Upload::Resizing { size, fd, .. } => Action::Resize { fd, bytes: table_bytes(size) },
            Upload::Mapping { size, fd, .. } => Action::MapFile { fd, bytes: table_bytes(size) },
            Upload::Filling { size, .. } => Action::Fill { size },
            Upload::Unmapping { size, .. } => Action::Unmap { bytes: table_bytes(size) },
            Upload::Sending { control, fd } => Action::Send {
                object: control,
                opcode: protocol::SET_GAMMA,
                fd,
            },
            Upload::Closing { fd, .. } => Action::Close { fd },
            Upload::Reporting { call } => Action::Report { call },
            Upload::Finished => Action::Stop,
        }
    }

    /// Moves on by what came of the action.
    pub fn advance(self, reply: Reply) -> (r: Upload)
        requires
            self.wf(),
            self.accepts(reply),
        ensures
            r == self.after(reply),
            r.wf(),
    {
        match (self, reply) {
            (Upload::Sizing { control }, Reply::Size(n)) => Upload::Creating {
                control,
                size: n as usize,
            },
            (Upload::Creating { control, size }, Reply::Status(fd)) => {
                if fd < 0 {
                    Upload::Reporting { call: Call::Create }
                } else {
                    Upload::Resizing { control, size, fd }
                }
            },
            (Upload::Resizing { control, size, fd }, Reply::Status(status)) => {
                if status < 0 {
                    Upload::Closing { fd, failed: Some(Call::Resize) }
                } else {
                    Upload::Mapping { control, size, fd }
                }
            },
            (Upload::Mapping { control, size, fd }, Reply::Mapped(mapped)) => {
                if mapped {
                    Upload::Filling { control, size, fd }
                } else {
                    Upload::Closing { fd, failed: Some(Call::MapFile) }
                }
            },
            (Upload::Filling { control, size, fd }, Reply::Done) => Upload::Unmapping {
                control,
                size,
                fd,
            },
            (Upload::Unmapping { control, fd, .. }, Reply::Done) => Upload::Sending { control, fd },
            (Upload::Sending { fd, .. }, Reply::Done) => Upload::Closing { fd, failed: None },
            (Upload::Closing { failed, .. }, Reply::Done) => {
                match failed {
                    Some(call) => Upload::Reporting { call },
                    None => Upload::Finished,
                }
            },
            (Upload::Reporting { .. }, Reply::Done) => Upload::Finished,
            (state, _) => state,
        }
    }
}

/// Whether each reply in turn is one that the upload accepts.
pub open spec fn valid_run(upload: Upload, replies: Seq<Reply>) -> bool
    decreases replies.len(),
{
    replies.len() > 0 ==> {
        &&& upload.accepts(replies[0])
        &&& valid_run(upload.after(replies[0]), replies.drop_first())
    }
}

/// The state after all replies.
pub open spec fn state_after(upload: Upload, replies: Seq<Reply>) -> Upload
    decreases replies.len(),
{
    if replies.len() == 0 {
        upload
    } else {
        state_after(upload.after(replies[0]), replies.drop_first())
    }
}

/// The descriptor that is open in a state.
pub open spec fn held(upload: Upload) -> Seq<i32> {
    match upload {
        Upload::Resizing { fd, .. } | Upload::Mapping { fd, .. } | Upload::Filling {
            fd,
            ..
        } | Upload::Unmapping { fd, .. } | Upload::Sending { fd, .. } | Upload::Closing {
            fd,
            ..
        } => seq![fd],
        _ => Seq::empty(),
    }
}

/// The descriptors that the calls of a run opened, in order.
pub open spec fn opened(upload: Upload, replies: Seq<Reply>) -> Seq<i32>
    decreases replies.len(),
{
    if replies.len() == 0 {
        Seq::empty()
    } else {
        let rest = opened(upload.after(replies[0]), replies.drop_first());
        match (upload.spec_action(), replies[0]) {
            (Action::CreateFile, Reply::Status(fd)) => if fd >= 0 {
                seq![fd] + rest
            } else {
                rest
            },
            _ => rest,
        }
    }
}

/// The descriptors that a run closed, in order.
pub open spec fn closed(upload: Upload, replies: Seq<Reply>) -> Seq<i32>
    decreases replies.len(),
{
    if replies.len() == 0 {
        Seq::empty()
    } else {
        let rest = closed(upload.after(replies[0]), replies.drop_first());
        match upload.spec_action() {
            Action::Close { fd } => seq![fd] + rest,
            _ => rest,
        }
    }
}

/// The descriptors that a run sent, each with the object it was sent to.
pub open spec fn sent(upload: Upload, replies: Seq<Reply>) -> Seq<(u32, i32)>
    decreases replies.len(),
{
    if replies.len() == 0 {
        Seq::empty()
    } else {
        let rest = sent(upload.after(replies[0]), replies.drop_first());
        match upload.spec_action() {
            Action::Send { object, fd, .. } => seq![(object, fd)] + rest,
            _ => rest,
        }
    }
}

/// The calls whose failure a run reported, in order.
pub open spec fn reported(upload: Upload, replies: Seq<Reply>) -> Seq<Call>
    decreases replies.len(),
{
    if replies.len() == 0 {
        Seq::empty()
    } else {
        let rest = reported(upload.after(replies[0]), replies.drop_first());
        match upload.spec_action() {
            Action::Report { call } => seq![call] + rest,
            _ => rest,
        }
    }
}

/// The call that a reply to an action says has failed.
pub open spec fn failure(action: Action, reply: Reply) -> Option<Call> {
    match (action, reply) {
        (Action::CreateFile, Reply::Status(status)) => if status < 0 {
            Some(Call::Create)
        } else {
            None
        },
        (Action::Resize { .. }, Reply::Status(status)) => if status < 0 {
            Some(Call::Resize)
        } else {
            None
        },
        (Action::MapFile { .. }, Reply::Mapped(mapped)) => if mapped {
            None
        } else {
            Some(Call::MapFile)
        },
        _ => None,
    }
}

/// The system calls of a run that failed, in order.
pub open spec fn failures(upload: Upload, replies: Seq<Reply>) -> Seq<Call>
    decreases replies.len(),
{
    if replies.len() == 0 {
        Seq::empty()
    } else {
        let rest = failures(upload.after(replies[0]), replies.drop_first());
        match failure(upload.spec_action(), replies[0]) {
            Some(call) => seq![call] + rest,
            None => rest,
        }
    }
}

/// How many replies an upload takes at most before it is finished.
pub open spec fn steps_left(upload: Upload) -> int {
    match upload {
        Upload::Sizing { .. } => 8,
        Upload::Creating { .. } => 7,
        Upload::Resizing { .. } => 6,
        Upload::Mapping { .. } => 5,
        Upload::Filling { .. } => 4,
        Upload::Unmapping { .. } => 3,
        Upload::Sending { .. } => 2,
        Upload::Closing { failed, .. } => if failed is Some {
            2
        } else {
            1
        },
        Upload::Reporting { .. } => 1,
        Upload::Finished => 0,
    }
}

/// At any time the descriptors that were opened are those that were closed and
/// the one that is still held.
pub proof fn law_descriptors_are_tracked(upload: Upload, replies: Seq<Reply>)
    requires
        valid_run(upload, replies),
    ensures
        held(upload) + opened(upload, replies) == closed(upload, replies) + held(
            state_after(upload, replies),
        ),
    decreases replies.len(),
{
    if replies.len() > 0 {
        let next = upload.after(replies[0]);
        let rest = replies.drop_first();
        law_descriptors_are_tracked(next, rest);
        let all = held(next) + opened(next, rest);
        if upload.spec_action() is Close {
            assert(held(next) + opened(next, rest) =~= opened(next, rest));
            assert(held(upload) + opened(upload, replies) =~= held(upload) + all);
            assert(closed(upload, replies) + held(state_after(upload, replies)) =~= held(upload)
                + all);
        } else {
            assert(held(upload) + opened(upload, replies) =~= all);
        }
    }
}

/// A finished upload has closed every descriptor that it opened, each once.
pub proof fn law_no_descriptor_leaks(control: u32, replies: Seq<Reply>)
    requires
        valid_run(Upload::Sizing { control }, replies),
        state_after(Upload::Sizing { control }, replies) is Finished,
    ensures
        opened(Upload::Sizing { control }, replies) == closed(Upload::Sizing { control }, replies),
{
    let start = Upload::Sizing { control };
    law_descriptors_are_tracked(start, replies);
    assert(held(start) + opened(start, replies) =~= opened(start, replies));
    assert(closed(start, replies) + held(Upload::Finished) =~= closed(start, replies));
}

/// What a run from any state up to the end sends and reports.
proof fn lemma_outcome(upload: Upload, replies: Seq<Reply>)
    requires
        valid_run(upload, replies),
        state_after(upload, replies) is Finished,
    ensures
        match upload {
            Upload::Closing { failed, .. } => {
                &&& sent(upload, replies) == Seq::<(u32, i32)>::empty()
                &&& reported(upload, replies) == (match failed {
                    Some(call) => seq![call],
                    None => Seq::<Call>::empty(),
                })
                &&& failures(upload, replies) == Seq::<Call>::empty()
                &&& opened(upload, replies) == Seq::<i32>::empty()
            },
            Upload::Reporting { call } => {
                &&& sent(upload, replies) == Seq::<(u32, i32)>::empty()
                &&& reported(upload, replies) == seq![call]
                &&& failures(upload, replies) == Seq::<Call>::empty()
                &&& opened(upload, replies) == Seq::<i32>::empty()
            },
            Upload::Finished => {
                &&& sent(upload, replies) == Seq::<(u32, i32)>::empty()
                &&& reported(upload, replies) == Seq::<Call>::empty()
                &&& failures(upload, replies) == Seq::<Call>::empty()
                &&& opened(upload, replies) == Seq::<i32>::empty()
            },
            Upload::Sizing { control } | Upload::Creating { control, .. } => {
                &&& failures(upload, replies).len() <= 1
                &&& reported(upload, replies) == failures(upload, replies)
                &&& failures(upload, replies).len() == 0 ==> opened(upload, replies).len() == 1
                    && sent(upload, replies) == seq![(control, opened(upload, replies)[0])]
                &&& failures(upload, replies).len() == 1 ==> sent(upload, replies) == Seq::<
                    (u32, i32),
                >::empty()
            },
            Upload::Resizing { control, fd, .. }
            | Upload::Mapping { control, fd, .. }
            | Upload::Filling { control, fd, .. }
            | Upload::Unmapping { control, fd, .. }
            | Upload::Sending { control, fd } => {
                &&& failures(upload, replies).len() <= 1
                &&& reported(upload, replies) == failures(upload, replies)
                &&& opened(upload, replies) == Seq::<i32>::empty()
                &&& failures(upload, replies).len() == 0 ==> sent(upload, replies) == seq![
                    (control, fd),
                ]
                &&& failures(upload, replies).len() == 1 ==> sent(upload, replies) == Seq::<
                    (u32, i32),
                >::empty()
            },
        },
    decreases replies.len(),
{
    if replies.len() > 0 {
        let next = upload.after(replies[0]);
        let rest = replies.drop_first();
        lemma_outcome(next, rest);
        match failure(upload.spec_action(), replies[0]) {
            Some(call) => {
                assert(failures(upload, replies) =~= seq![call]);
            },
            None => {},
        }
        match upload {
            Upload::Reporting { call } => {
                assert(reported(upload, replies) =~= seq![call]);
            },
            Upload::Sending { control, fd } => {
                assert(sent(upload, replies) =~= seq![(control, fd)]);
            },
            Upload::Creating { .. } => {
                if replies[0]->Status_0 >= 0 {
                    assert(opened(upload, replies) =~= seq![replies[0]->Status_0]);
                }
            },
            _ => {},
        }
    }
}

/// A finished upload has sent its descriptor once, to its gamma control, and
/// reported nothing, if every call succeeded; otherwise it has sent nothing
/// and reported the one call that failed.
pub proof fn law_sent_or_reported(control: u32, replies: Seq<Reply>)
    requires
        valid_run(Upload::Sizing { control }, replies),
        state_after(Upload::Sizing { control }, replies) is Finished,
    ensures
        ({
            let start = Upload::Sizing { control };
            &&& reported(start, replies) == failures(start, replies)
            &&& if failures(start, replies).len() == 0 {
                &&& opened(start, replies).len() == 1
                &&& sent(start, replies) == seq![(control, opened(start, replies)[0])]
            } else {
                &&& failures(start, replies).len() == 1
                &&& sent(start, replies) == Seq::<(u32, i32)>::empty()
            }
        }),
{
    lemma_outcome(Upload::Sizing { control }, replies);
}

/// Every accepted reply brings an upload nearer to its end, and it always
/// accepts one until then.
pub proof fn law_upload_ends(upload: Upload, reply: Reply)
    ensures
        upload.accepts(reply) ==> 0 <= steps_left(upload.after(reply)) < steps_left(upload),
        steps_left(upload) == 0 <==> upload is Finished,
        !(upload is Finished) ==> exists|r: Reply| upload.accepts(r),
{
    assert(spec_table_bytes(0) == 0);
    if !(upload is Finished) {
        let r = match upload {
            Upload::Sizing { .. } => Reply::Size(0),
            Upload::Creating { .. } | Upload::Resizing { .. } => Reply::Status(0),
            Upload::Mapping { .. } => Reply::Mapped(true),
            _ => Reply::Done,
        };
        assert(upload.accepts(r));
    }
}

/// What the caller was told to do in a run, one action before each reply.
pub open spec fn actions(upload: Upload, replies: Seq<Reply>) -> Seq<Action>
    decreases replies.len(),
{
    if replies.len() == 0 {
        Seq::empty()
    } else {
        seq![upload.spec_action()] + actions(upload.after(replies[0]), replies.drop_first())
    }
}

/// Which replies an upload waits for: the size that it asked for as long as a
/// table of that size fits, what a system call returned, whether the file could
/// be mapped, or that something was done.
pub proof fn law_replies_are_awaited(upload: Upload, reply: Reply)
    ensures
        upload.accepts(reply) <==> match upload {
            Upload::Sizing { .. } => reply matches Reply::Size(n) && 6 * n <= usize::MAX,
            Upload::Creating { .. } => reply matches Reply::Status(_),
            Upload::Resizing { .. } => reply matches Reply::Status(_),
            Upload::Mapping { .. } => reply matches Reply::Mapped(_),
            Upload::Filling { .. } => reply == Reply::Done,
            Upload::Unmapping { .. } => reply == Reply::Done,
            Upload::Sending { .. } => reply == Reply::Done,
            Upload::Closing { .. } => reply == Reply::Done,
            Upload::Reporting { .. } => reply == Reply::Done,
            Upload::Finished => false,
        },
{
}

/// An upload is well-formed if and only if the table of the size that it
/// carries, of six bytes per entry, fits.
pub proof fn law_sizes_that_fit(control: u32, size: usize, fd: i32)
    ensures
        (Upload::Sizing { control }).wf(),
        (Upload::Creating { control, size }).wf() <==> 6 * size <= usize::MAX,
        (Upload::Resizing { control, size, fd }).wf() <==> 6 * size <= usize::MAX,
        (Upload::Mapping { control, size, fd }).wf() <==> 6 * size <= usize::MAX,
        (Upload::Filling { control, size, fd }).wf() <==> 6 * size <= usize::MAX,
        (Upload::Unmapping { control, size, fd }).wf() <==> 6 * size <= usize::MAX,
        spec_table_bytes(size as int) == 6 * size,
{
}

/// Whether an action concerns a table for ramps of `n` entries: files and
/// mappings have six bytes per entry, and what is filled in has `n` entries.
pub open spec fn concerns(action: Action, n: int) -> bool {
    match action {
        Action::Resize { bytes, .. } => bytes == 6 * n,
        Action::MapFile { bytes, .. } => bytes == 6 * n,
        Action::Fill { size } => size == n,
        Action::Unmap { bytes } => bytes == 6 * n,
        _ => true,
    }
}

/// A run that carries a size keeps to it.
proof fn lemma_size_is_kept(upload: Upload, replies: Seq<Reply>, n: int)
    requires
        valid_run(upload, replies),
        0 <= 6 * n <= usize::MAX,
        match upload {
            Upload::Sizing { .. } => false,
            Upload::Creating { size, .. }
            | Upload::Resizing { size, .. }
            | Upload::Mapping { size, .. }
            | Upload::Filling { size, .. }
            | Upload::Unmapping { size, .. } => size == n,
            _ => true,
        },
    ensures
        forall|k: int|
            0 <= k < actions(upload, replies).len() ==> concerns(
                #[trigger] actions(upload, replies)[k],
                n,
            ),
    decreases replies.len(),
{
    if replies.len() > 0 {
        let rest = actions(upload.after(replies[0]), replies.drop_first());
        lemma_size_is_kept(upload.after(replies[0]), replies.drop_first(), n);
        assert forall|k: int| 0 <= k < actions(upload, replies).len() implies concerns(
            #[trigger] actions(upload, replies)[k],
            n,
        ) by {
            if k > 0 {
                assert(actions(upload, replies)[k] == rest[k - 1]);
            }
        }
    }
}

/// The size that the compositor announced is the size that is mapped, filled
/// and sent, in every run and however far it has come.
pub proof fn law_announced_size_is_used(control: u32, n: u32, replies: Seq<Reply>)
    requires
        replies.len() > 0,
        replies[0] == Reply::Size(n),
        valid_run(Upload::Sizing { control }, replies),
    ensures
        forall|k: int|
            0 <= k < actions(Upload::Sizing { control }, replies).len() ==> (match (
            #[trigger] actions(Upload::Sizing { control }, replies)[k]) {
                Action::Resize { bytes, .. } => bytes == 6 * n,
                Action::MapFile { bytes, .. } => bytes == 6 * n,
                Action::Fill { size } => size == n,
                Action::Unmap { bytes } => bytes == 6 * n,
                _ => true,
            }),
{
    let start = Upload::Sizing { control };
    let next = start.after(replies[0]);
    lemma_size_is_kept(next, replies.drop_first(), n as int);
    assert forall|k: int| 0 <= k < actions(start, replies).len() implies concerns(
        #[trigger] actions(start, replies)[k],
        n as int,
    ) by {
        if k > 0 {
            assert(actions(start, replies)[k] == actions(next, replies.drop_first())[k - 1]);
        }
    }
}

/// What is left to be told of an upload, for the replies that are to come.
proof fn lemma_tail(upload: Upload, replies: Seq<Reply>)
    requires
        valid_run(upload, replies),
        state_after(upload, replies) is Finished,
    ensures
        match upload {
            Upload::Finished => actions(upload, replies) =~= Seq::<Action>::empty(),
            Upload::Reporting { call } => actions(upload, replies) =~= seq![Action::Report { call }],
            Upload::Closing { fd, failed } => actions(upload, replies) =~= (match failed {
                Some(call) => seq![Action::Close { fd }, Action::Report { call }],
                None => seq![Action::Close { fd }],
            }),
            Upload::Sending { control, fd } => actions(upload, replies) =~= seq![
                Action::Send { object: control, opcode: 0, fd },
                Action::Close { fd },
            ],
            Upload::Unmapping { control, size, fd } => 6 * size <= usize::MAX ==> actions(
                upload,
                replies,
            ) =~= seq![
                Action::Unmap { bytes: (6 * size) as usize },
                Action::Send { object: control, opcode: 0, fd },
                Action::Close { fd },
            ],
            Upload::Filling { control, size, fd } => 6 * size <= usize::MAX ==> actions(
                upload,
                replies,
            ) =~= seq![
                Action::Fill { size },
                Action::Unmap { bytes: (6 * size) as usize },
                Action::Send { object: control, opcode: 0, fd },
                Action::Close { fd },
            ],
            _ => replies.len() > 0,
        },
    decreases replies.len(),
{
    if replies.len() > 0 {
        lemma_tail(upload.after(replies[0]), replies.drop_first());
    }
}

/// What a finished upload told its caller to do, from what the caller replied.
/// The size is read and the file created; a file that could not be created is
/// reported. Otherwise the file gets six bytes per entry, is mapped, filled and
/// unmapped, and its descriptor is sent to the gamma control and closed; where
/// the second or third call failed, the descriptor is closed and the call
/// reported instead.
#[verifier::rlimit(40)]
pub proof fn law_upload_trace(control: u32, replies: Seq<Reply>)
    requires
        valid_run(Upload::Sizing { control }, replies),
        state_after(Upload::Sizing { control }, replies) is Finished,
    ensures
        replies.len() >= 3,
        replies[0] is Size,
        replies[1] is Status,
        ({
            let told = actions(Upload::Sizing { control }, replies);
            let size = replies[0]->Size_0 as usize;
            let bytes = (6 * replies[0]->Size_0) as usize;
            let fd = replies[1]->Status_0;
            if fd < 0 {
                told =~= seq![
                    Action::ReadSize,
                    Action::CreateFile,
                    Action::Report { call: Call::Create },
                ]
            } else {
                &&& replies.len() >= 5
                &&& replies[2] is Status
                &&& if replies[2]->Status_0 < 0 {
                    told =~= seq![
                        Action::ReadSize,
                        Action::CreateFile,
                        Action::Resize { fd, bytes },
                        Action::Close { fd },
                        Action::Report { call: Call::Resize },
                    ]
                } else {
                    &&& replies[3] is Mapped
                    &&& if replies[3]->Mapped_0 {
                        told =~= seq![
                            Action::ReadSize,
                            Action::CreateFile,
                            Action::Resize { fd, bytes },
                            Action::MapFile { fd, bytes },
                            Action::Fill { size },
                            Action::Unmap { bytes },
                            Action::Send { object: control, opcode: 0, fd },
                            Action::Close { fd },
                        ]
                    } else {
                        told =~= seq![
                            Action::ReadSize,
                            Action::CreateFile,
                            Action::Resize { fd, bytes },
                            Action::MapFile { fd, bytes },
                            Action::Close { fd },
                            Action::Report { call: Call::MapFile },
                        ]
                    }
                }
            }
        }),
{
    let a = Upload::Sizing { control };
    lemma_tail(a, replies);
    let b = a.after(replies[0]);
    let rest = replies.drop_first();
    assert(valid_run(b, rest) && state_after(b, rest) is Finished);
    lemma_tail(b, rest);
    assert(rest.len() > 0);
    assert(rest[0] == replies[1]);
    let c = b.after(rest[0]);
    let rest2 = rest.drop_first();
    assert(valid_run(c, rest2) && state_after(c, rest2) is Finished);
    lemma_tail(c, rest2);
    assert(actions(a, replies) == seq![Action::ReadSize] + actions(b, rest));
    assert(actions(b, rest) == seq![Action::CreateFile] + actions(c, rest2));
    if replies[1]->Status_0 < 0 {
        lemma_one_action_each(c, rest2);
    } else {
        assert(rest2[0] == replies[2]);
        let d = c.after(rest2[0]);
        let rest3 = rest2.drop_first();
        assert(valid_run(d, rest3) && state_after(d, rest3) is Finished);
        lemma_tail(d, rest3);
        assert(actions(c, rest2) == seq![c.spec_action()] + actions(d, rest3));
        if rest2[0]->Status_0 < 0 {
            assert(rest3.len() > 1) by {
                assert(actions(d, rest3).len() == 2);
                lemma_one_action_each(d, rest3);
            }
        } else {
            assert(rest3[0] == replies[3]);
            let f = d.after(rest3[0]);
            let rest4 = rest3.drop_first();
            assert(actions(d, rest3) == seq![d.spec_action()] + actions(f, rest4));
            lemma_tail(f, rest4);
            lemma_one_action_each(f, rest4);
        }
    }
}

/// There is one action before each reply.
proof fn lemma_one_action_each(upload: Upload, replies: Seq<Reply>)
    ensures
        actions(upload, replies).len() == replies.len(),
    decreases replies.len(),
{
    if replies.len() > 0 {
        lemma_one_action_each(upload.after(replies[0]), replies.drop_first());
    }
}

} // verus!
