//! What stored messages refer to.
//!
//! A blob holds a message of one of five types, and nothing in it says which. Each type
//! here holds the references of such a message; the extraction finds all of them.

use vstd::prelude::*;

use crate::text::lemma_add_contains;
use crate::types::{hex_text, BlobHex};

verus! {

/// The id of a blob in raw bytes, short enough to be written in hexadecimal.
#[derive(Debug)]
pub struct BlobId {
    bytes: Vec<u8>,
}

impl View for BlobId {
    type V = Seq<u8>;

    closed spec fn view(&self) -> Seq<u8> {
        self.bytes@
    }
}

impl BlobId {
    #[verifier::type_invariant]
    spec fn inv(self) -> bool {
        2 * self.bytes@.len() <= isize::MAX
    }

    /// The id of these bytes; `None` where there are too many for any memory to hold their
    /// digits.
    pub fn new(bytes: Vec<u8>) -> (r: Option<Self>)
        ensures
            r is Some <==> 2 * bytes@.len() <= isize::MAX,
            r matches Some(id) ==> id@ == bytes@,
    {
        if bytes.len() <= isize::MAX as usize / 2 {
            Some(BlobId { bytes })
        } else {
            None
        }
    }

    pub fn is_empty(&self) -> (r: bool)
        ensures
            r == (self@.len() == 0),
    {
        self.bytes.len() == 0
    }

    /// The id in hexadecimal.
    pub fn hex(&self) -> (r: BlobHex)
        ensures
            r@ == hex_text(self@),
    {
        proof {
            use_type_invariant(self);
        }
        BlobHex::from_bytes(self.bytes.as_slice())
    }
}

/// A version of a file.
#[derive(Debug)]
pub struct FileState {
    pub content: Option<BlobId>,
    pub initial_content: Option<BlobId>,
}

/// A conversation's state.
#[derive(Debug)]
pub struct ConversationState {
    pub turns: Vec<BlobId>,
    pub root_prompt_messages_json: Vec<BlobId>,
    pub todos: Vec<BlobId>,
    pub summary_archives: Vec<BlobId>,
    pub summary: Option<BlobId>,
    pub summary_archive: Option<BlobId>,
    pub plan: Option<BlobId>,
    pub file_states: Vec<BlobId>,
    pub file_states_v2: Vec<FileState>,
    pub subagent_state_refs: Vec<BlobId>,
    /// The states of subagents, held in place.
    pub subagent_states: Vec<ConversationState>,
}

/// A turn of a conversation.
#[derive(Debug)]
pub enum Turn {
    Agent { user_message: BlobId, steps: Vec<BlobId> },
    Shell { shell_command: BlobId, shell_output: BlobId },
    Absent,
}

/// What reading a file gave.
#[derive(Debug)]
pub enum ReadOutput {
    DataBlobId(BlobId),
    ContentBlobId(BlobId),
    Inline,
}

/// A call of a tool.
#[derive(Debug)]
pub enum ToolCall {
    /// A file was read; `None` where it failed.
    Read(Option<ReadOutput>),
    /// The call was cut short, and stands elsewhere in full.
    Truncated { original_step_blob_id: BlobId },
    /// A task with steps of its own, held in place; `None` where it failed.
    Task(Option<Vec<Step>>),
    Other,
}

/// A step of a turn.
#[derive(Debug)]
pub enum Step {
    ToolCall(ToolCall),
    Other,
}

/// A summary, with the messages that it stands for.
#[derive(Debug)]
pub struct SummaryArchive {
    pub summarized_messages: Vec<BlobId>,
    pub summary_message: BlobId,
}

/// Something attached: by its id, by its id with a copy of its data, or as data alone.
#[derive(Debug)]
pub enum Attachment {
    BlobId(BlobId),
    BlobIdWithData(BlobId),
    Data,
}

/// A message of the user.
#[derive(Debug)]
pub struct UserMessage {
    pub conversation_state_blob_id: BlobId,
    pub text_blob_id: Option<BlobId>,
    pub rich_text_blob_id: Option<BlobId>,
    pub images: Vec<Attachment>,
    pub documents: Vec<Attachment>,
    pub videos: Vec<Attachment>,
    /// Of these, a copy of the data is never beside the id.
    pub extra_context: Vec<Option<BlobId>>,
    pub pull_requests: Vec<Option<BlobId>>,
    pub diff_selections: Vec<Option<BlobId>>,
    pub external_links: Vec<Option<BlobId>>,
    pub invocation: Option<BlobId>,
}

/// How deep states and steps are followed that are held in place.
pub const MAX_DEPTH: u32 = 64;

/// The bytes of ids.
pub open spec fn raw(ids: Seq<BlobId>) -> Seq<Seq<u8>> {
    ids.map_values(|i: BlobId| i@)
}

/// The bytes of an id that may be missing.
pub open spec fn raw_opt(id: Option<BlobId>) -> Seq<Seq<u8>> {
    match id {
        Some(i) => seq![i@],
        None => Seq::empty(),
    }
}

/// The bytes of the ids among those that may be missing.
pub open spec fn raw_opts(ids: Seq<Option<BlobId>>) -> Seq<Seq<u8>>
    decreases ids.len(),
{
    if ids.len() == 0 {
        Seq::empty()
    } else {
        raw_opts(ids.drop_last()) + raw_opt(ids.last())
    }
}

/// What a version of a file refers to.
pub open spec fn file_ids(f: FileState) -> Seq<Seq<u8>> {
    raw_opt(f.content) + raw_opt(f.initial_content)
}

pub open spec fn files_ids(s: Seq<FileState>) -> Seq<Seq<u8>>
    decreases s.len(),
{
    if s.len() == 0 {
        Seq::empty()
    } else {
        files_ids(s.drop_last()) + file_ids(s.last())
    }
}

/// What a state refers to, itself and through the states in it.
pub open spec fn state_ids(st: ConversationState, depth: nat) -> Seq<Seq<u8>>
    decreases st,
{
    if depth > MAX_DEPTH {
        Seq::empty()
    } else {
        raw(st.turns@) + raw(st.root_prompt_messages_json@) + raw(st.todos@) + raw(
            st.summary_archives@,
        ) + raw_opt(st.summary) + raw_opt(st.summary_archive) + raw_opt(st.plan) + raw(
            st.file_states@,
        ) + files_ids(st.file_states_v2@) + raw(st.subagent_state_refs@) + states_ids(
            st.subagent_states@,
            depth + 1,
        )
    }
}

pub open spec fn states_ids(s: Seq<ConversationState>, depth: nat) -> Seq<Seq<u8>>
    decreases s,
{
    if s.len() == 0 {
        Seq::empty()
    } else {
        states_ids(s.drop_last(), depth) + state_ids(s.last(), depth)
    }
}

/// What a turn refers to.
pub open spec fn turn_ids(t: Turn) -> Seq<Seq<u8>> {
    match t {
        Turn::Agent { user_message, steps } => seq![user_message@] + raw(steps@),
        Turn::Shell { shell_command, shell_output } => seq![shell_command@, shell_output@],
        Turn::Absent => Seq::empty(),
    }
}

/// What a step refers to, itself and through the steps in it.
pub open spec fn step_ids(s: Step, depth: nat) -> Seq<Seq<u8>>
    decreases s,
{
    if depth > MAX_DEPTH {
        Seq::empty()
    } else {
        match s {
            Step::ToolCall(ToolCall::Read(Some(ReadOutput::DataBlobId(id)))) => seq![id@],
            Step::ToolCall(ToolCall::Read(Some(ReadOutput::ContentBlobId(id)))) => seq![id@],
            Step::ToolCall(ToolCall::Truncated { original_step_blob_id }) => seq![
                original_step_blob_id@,
            ],
            Step::ToolCall(ToolCall::Task(Some(steps))) => steps_ids(steps@, depth + 1),
            _ => Seq::empty(),
        }
    }
}

pub open spec fn steps_ids(s: Seq<Step>, depth: nat) -> Seq<Seq<u8>>
    decreases s,
{
    if s.len() == 0 {
        Seq::empty()
    } else {
        steps_ids(s.drop_last(), depth) + step_ids(s.last(), depth)
    }
}

/// What a summary refers to.
pub open spec fn archive_ids(a: SummaryArchive) -> Seq<Seq<u8>> {
    raw(a.summarized_messages@).push(a.summary_message@)
}

/// What something attached refers to. A copy of the data beside the id changes nothing.
pub open spec fn attachment_ids(a: Attachment) -> Seq<Seq<u8>> {
    match a {
        Attachment::BlobId(id) => seq![id@],
        Attachment::BlobIdWithData(id) => seq![id@],
        Attachment::Data => Seq::empty(),
    }
}

pub open spec fn attachments_ids(s: Seq<Attachment>) -> Seq<Seq<u8>>
    decreases s.len(),
{
    if s.len() == 0 {
        Seq::empty()
    } else {
        attachments_ids(s.drop_last()) + attachment_ids(s.last())
    }
}

/// What a message of the user refers to.
pub open spec fn message_ids(m: UserMessage) -> Seq<Seq<u8>> {
    seq![m.conversation_state_blob_id@] + raw_opt(m.text_blob_id) + raw_opt(m.rich_text_blob_id)
        + attachments_ids(m.images@) + attachments_ids(m.documents@) + attachments_ids(m.videos@)
        + raw_opts(m.extra_context@) + raw_opts(m.pull_requests@) + raw_opts(m.diff_selections@)
        + raw_opts(m.external_links@) + raw_opt(m.invocation)
}

/// A blob read as each of the five types, as far as that succeeded.
#[derive(Debug)]
pub struct Readings {
    pub state: Option<ConversationState>,
    pub turn: Option<Turn>,
    pub step: Option<Step>,
    pub archive: Option<SummaryArchive>,
    pub message: Option<UserMessage>,
}

/// What the reading as a state refers to.
pub open spec fn state_part(o: Option<ConversationState>) -> Seq<Seq<u8>> {
    match o {
        Some(x) => state_ids(x, 0),
        None => Seq::empty(),
    }
}

/// What the reading as a turn refers to.
pub open spec fn turn_part(o: Option<Turn>) -> Seq<Seq<u8>> {
    match o {
        Some(x) => turn_ids(x),
        None => Seq::empty(),
    }
}

/// What the reading as a step refers to.
pub open spec fn step_part(o: Option<Step>) -> Seq<Seq<u8>> {
    match o {
        Some(x) => step_ids(x, 0),
        None => Seq::empty(),
    }
}

/// What the reading as a archive refers to.
pub open spec fn archive_part(o: Option<SummaryArchive>) -> Seq<Seq<u8>> {
    match o {
        Some(x) => archive_ids(x),
        None => Seq::empty(),
    }
}

/// What the reading as a message refers to.
pub open spec fn message_part(o: Option<UserMessage>) -> Seq<Seq<u8>> {
    match o {
        Some(x) => message_ids(x),
        None => Seq::empty(),
    }
}

/// What a blob refers to: whatever any of its readings refers to.
pub open spec fn blob_ids(r: Readings) -> Seq<Seq<u8>> {
    state_part(r.state) + turn_part(r.turn) + step_part(r.step) + archive_part(r.archive)
        + message_part(r.message)
}

/// The ids in hexadecimal. An empty id refers to nothing.
pub open spec fn hexes(ids: Seq<Seq<u8>>) -> Seq<Seq<char>>
    decreases ids.len(),
{
    if ids.len() == 0 {
        Seq::empty()
    } else if ids.last().len() == 0 {
        hexes(ids.drop_last())
    } else {
        hexes(ids.drop_last()).push(hex_text(ids.last()))
    }
}

/// The texts of ids in hexadecimal.
pub open spec fn blob_views(s: Seq<BlobHex>) -> Seq<Seq<char>> {
    s.map_values(|b: BlobHex| b@)
}

pub proof fn lemma_hexes_add(a: Seq<Seq<u8>>, b: Seq<Seq<u8>>)
    ensures
        hexes(a + b) == hexes(a) + hexes(b),
    decreases b.len(),
{
    if b.len() == 0 {
        assert(a + b =~= a);
        assert(hexes(a) + hexes(b) =~= hexes(a));
    } else {
        lemma_hexes_add(a, b.drop_last());
        assert((a + b).drop_last() =~= a + b.drop_last());
        assert((a + b).last() == b.last());
        assert(hexes(a + b) =~= hexes(a) + hexes(b));
    }
}

/// The sink grew by these ids.
pub open spec fn grew(before: Seq<BlobHex>, after: Seq<BlobHex>, ids: Seq<Seq<u8>>) -> bool {
    blob_views(after) == blob_views(before) + hexes(ids)
}

proof fn lemma_grew_nothing(a: Seq<BlobHex>)
    ensures
        grew(a, a, Seq::empty()),
{
    assert(blob_views(a) + hexes(Seq::empty()) =~= blob_views(a));
}

proof fn lemma_grew_add(
    a: Seq<BlobHex>,
    b: Seq<BlobHex>,
    c: Seq<BlobHex>,
    x: Seq<Seq<u8>>,
    y: Seq<Seq<u8>>,
)
    requires
        grew(a, b, x),
        grew(b, c, y),
    ensures
        grew(a, c, x + y),
{
    lemma_hexes_add(x, y);
    assert(blob_views(c) =~= blob_views(a) + hexes(x + y));
}

fn push_id(sink: &mut Vec<BlobHex>, id: &BlobId)
    ensures
        grew(old(sink)@, final(sink)@, seq![id@]),
{
    let ghost ids = seq![id@];
    proof {
        reveal_with_fuel(hexes, 2);
        assert(ids.drop_last() =~= Seq::<Seq<u8>>::empty());
    }
    if !id.is_empty() {
        let h = id.hex();
        sink.push(h);
        proof {
            assert(hexes(ids) =~= seq![h@]);
            assert(blob_views(sink@) =~= blob_views(old(sink)@) + hexes(ids));
        }
    } else {
        assert(blob_views(sink@) =~= blob_views(old(sink)@) + hexes(ids));
    }
}

fn push_opt(sink: &mut Vec<BlobHex>, id: &Option<BlobId>)
    ensures
        grew(old(sink)@, final(sink)@, raw_opt(*id)),
{
    match id {
        Some(i) => push_id(sink, i),
        None => {
            proof {
                lemma_grew_nothing(sink@);
            }
        },
    }
}

fn push_all(sink: &mut Vec<BlobHex>, ids: &Vec<BlobId>)
    ensures
        grew(old(sink)@, final(sink)@, raw(ids@)),
{
    let ghost rs = raw(ids@);
    let mut i: usize = 0;
    proof {
        lemma_grew_nothing(sink@);
        assert(rs.take(0) =~= Seq::<Seq<u8>>::empty());
    }
    while i < ids.len()
        invariant
            i <= ids@.len(),
            rs == raw(ids@),
            grew(old(sink)@, sink@, rs.take(i as int)),
        decreases ids@.len() - i,
    {
        let ghost b = sink@;
        push_id(sink, &ids[i]);
        proof {
            lemma_grew_add(old(sink)@, b, sink@, rs.take(i as int), seq![ids@[i as int]@]);
            assert(rs.take(i + 1) =~= rs.take(i as int) + seq![ids@[i as int]@]);
        }
        i += 1;
    }
    assert(rs.take(i as int) =~= rs);
}

fn push_opts(sink: &mut Vec<BlobHex>, ids: &Vec<Option<BlobId>>)
    ensures
        grew(old(sink)@, final(sink)@, raw_opts(ids@)),
{
    let mut i: usize = 0;
    proof {
        lemma_grew_nothing(sink@);
        assert(ids@.take(0) =~= Seq::<Option<BlobId>>::empty());
    }
    while i < ids.len()
        invariant
            i <= ids@.len(),
            grew(old(sink)@, sink@, raw_opts(ids@.take(i as int))),
        decreases ids@.len() - i,
    {
        let ghost b = sink@;
        push_opt(sink, &ids[i]);
        proof {
            lemma_grew_add(
                old(sink)@,
                b,
                sink@,
                raw_opts(ids@.take(i as int)),
                raw_opt(ids@[i as int]),
            );
            assert(ids@.take(i + 1).drop_last() =~= ids@.take(i as int));
        }
        i += 1;
    }
    assert(ids@.take(i as int) =~= ids@);
}

fn push_files(sink: &mut Vec<BlobHex>, fs: &Vec<FileState>)
    ensures
        grew(old(sink)@, final(sink)@, files_ids(fs@)),
{
    let mut i: usize = 0;
    proof {
        lemma_grew_nothing(sink@);
        assert(fs@.take(0) =~= Seq::<FileState>::empty());
    }
    while i < fs.len()
        invariant
            i <= fs@.len(),
            grew(old(sink)@, sink@, files_ids(fs@.take(i as int))),
        decreases fs@.len() - i,
    {
        let ghost b = sink@;
        let f = &fs[i];
        push_opt(sink, &f.content);
        let ghost c = sink@;
        push_opt(sink, &f.initial_content);
        proof {
            lemma_grew_add(b, c, sink@, raw_opt(f.content), raw_opt(f.initial_content));
            lemma_grew_add(old(sink)@, b, sink@, files_ids(fs@.take(i as int)), file_ids(*f));
            assert(fs@.take(i + 1).drop_last() =~= fs@.take(i as int));
        }
        i += 1;
    }
    assert(fs@.take(i as int) =~= fs@);
}

fn push_attachments(sink: &mut Vec<BlobHex>, s: &Vec<Attachment>)
    ensures
        grew(old(sink)@, final(sink)@, attachments_ids(s@)),
{
    let mut i: usize = 0;
    proof {
        lemma_grew_nothing(sink@);
        assert(s@.take(0) =~= Seq::<Attachment>::empty());
    }
    while i < s.len()
        invariant
            i <= s@.len(),
            grew(old(sink)@, sink@, attachments_ids(s@.take(i as int))),
        decreases s@.len() - i,
    {
        let ghost b = sink@;
        match &s[i] {
            Attachment::BlobId(id) => push_id(sink, id),
            Attachment::BlobIdWithData(id) => push_id(sink, id),
            Attachment::Data => {
                proof {
                    lemma_grew_nothing(sink@);
                }
            },
        }
        proof {
            lemma_grew_add(
                old(sink)@,
                b,
                sink@,
                attachments_ids(s@.take(i as int)),
                attachment_ids(s@[i as int]),
            );
            assert(s@.take(i + 1).drop_last() =~= s@.take(i as int));
        }
        i += 1;
    }
    assert(s@.take(i as int) =~= s@);
}

/// Finds what a state refers to.
pub fn extract_state(st: &ConversationState, sink: &mut Vec<BlobHex>, depth: u32)
    ensures
        grew(old(sink)@, final(sink)@, state_ids(*st, depth as nat)),
    decreases st,
{
    if depth > MAX_DEPTH {
        proof {
            lemma_grew_nothing(sink@);
        }
        return;
    }
    let ghost s0 = sink@;
    push_all(sink, &st.turns);
    let ghost s1 = sink@;
    push_all(sink, &st.root_prompt_messages_json);
    let ghost s2 = sink@;
    push_all(sink, &st.todos);
    let ghost s3 = sink@;
    push_all(sink, &st.summary_archives);
    let ghost s4 = sink@;
    push_opt(sink, &st.summary);
    let ghost s5 = sink@;
    push_opt(sink, &st.summary_archive);
    let ghost s6 = sink@;
    push_opt(sink, &st.plan);
    let ghost s7 = sink@;
    push_all(sink, &st.file_states);
    let ghost s8 = sink@;
    push_files(sink, &st.file_states_v2);
    let ghost s9 = sink@;
    push_all(sink, &st.subagent_state_refs);
    let ghost s10 = sink@;
    let subs = &st.subagent_states;
    let mut i: usize = 0;
    proof {
        lemma_grew_nothing(sink@);
        assert(subs@.take(0) =~= Seq::<ConversationState>::empty());
    }
    while i < subs.len()
        invariant
            i <= subs@.len(),
            *subs == st.subagent_states,
            depth <= MAX_DEPTH,
            grew(s10, sink@, states_ids(subs@.take(i as int), (depth + 1) as nat)),
        decreases subs@.len() - i,
    {
        let ghost b = sink@;
        extract_state(&subs[i], sink, depth + 1);
        proof {
            lemma_grew_add(
                s10,
                b,
                sink@,
                states_ids(subs@.take(i as int), (depth + 1) as nat),
                state_ids(subs@[i as int], (depth + 1) as nat),
            );
            assert(subs@.take(i + 1).drop_last() =~= subs@.take(i as int));
        }
        i += 1;
    }
    proof {
        assert(subs@.take(i as int) =~= subs@);
        let x1 = raw(st.turns@);
        let x2 = x1 + raw(st.root_prompt_messages_json@);
        let x3 = x2 + raw(st.todos@);
        let x4 = x3 + raw(st.summary_archives@);
        let x5 = x4 + raw_opt(st.summary);
        let x6 = x5 + raw_opt(st.summary_archive);
        let x7 = x6 + raw_opt(st.plan);
        let x8 = x7 + raw(st.file_states@);
        let x9 = x8 + files_ids(st.file_states_v2@);
        let x10 = x9 + raw(st.subagent_state_refs@);
        lemma_grew_add(s0, s1, s2, x1, raw(st.root_prompt_messages_json@));
        lemma_grew_add(s0, s2, s3, x2, raw(st.todos@));
        lemma_grew_add(s0, s3, s4, x3, raw(st.summary_archives@));
        lemma_grew_add(s0, s4, s5, x4, raw_opt(st.summary));
        lemma_grew_add(s0, s5, s6, x5, raw_opt(st.summary_archive));
        lemma_grew_add(s0, s6, s7, x6, raw_opt(st.plan));
        lemma_grew_add(s0, s7, s8, x7, raw(st.file_states@));
        lemma_grew_add(s0, s8, s9, x8, files_ids(st.file_states_v2@));
        lemma_grew_add(s0, s9, s10, x9, raw(st.subagent_state_refs@));
        lemma_grew_add(s0, s10, sink@, x10, states_ids(subs@, (depth + 1) as nat));
    }
}

/// Finds what a turn refers to.
pub fn extract_turn(turn: &Turn, sink: &mut Vec<BlobHex>)
    ensures
        grew(old(sink)@, final(sink)@, turn_ids(*turn)),
{
    let ghost s0 = sink@;
    match turn {
        Turn::Agent { user_message, steps } => {
            push_id(sink, user_message);
            let ghost s1 = sink@;
            push_all(sink, steps);
            proof {
                lemma_grew_add(s0, s1, sink@, seq![user_message@], raw(steps@));
            }
        },
        Turn::Shell { shell_command, shell_output } => {
            push_id(sink, shell_command);
            let ghost s1 = sink@;
            push_id(sink, shell_output);
            proof {
                lemma_grew_add(s0, s1, sink@, seq![shell_command@], seq![shell_output@]);
                assert(seq![shell_command@] + seq![shell_output@] =~= seq![
                    shell_command@,
                    shell_output@,
                ]);
            }
        },
        Turn::Absent => {
            proof {
                lemma_grew_nothing(sink@);
            }
        },
    }
}

/// Finds what a step refers to.
pub fn extract_step(step: &Step, sink: &mut Vec<BlobHex>, depth: u32)
    ensures
        grew(old(sink)@, final(sink)@, step_ids(*step, depth as nat)),
    decreases step,
{
    proof {
        lemma_grew_nothing(sink@);
    }
    if depth > MAX_DEPTH {
        return;
    }
    match step {
        Step::ToolCall(ToolCall::Read(Some(ReadOutput::DataBlobId(id)))) => push_id(sink, id),
        Step::ToolCall(ToolCall::Read(Some(ReadOutput::ContentBlobId(id)))) => push_id(sink, id),
        Step::ToolCall(ToolCall::Truncated { original_step_blob_id }) => {
            push_id(sink, original_step_blob_id)
        },
        Step::ToolCall(ToolCall::Task(Some(steps))) => {
            let ghost s0 = sink@;
            let mut i: usize = 0;
            assert(steps@.take(0) =~= Seq::<Step>::empty());
            while i < steps.len()
                invariant
                    i <= steps@.len(),
                    depth <= MAX_DEPTH,
                    decreases_to!(step => steps@),
                    grew(s0, sink@, steps_ids(steps@.take(i as int), (depth + 1) as nat)),
                decreases steps@.len() - i,
            {
                let ghost b = sink@;
                extract_step(&steps[i], sink, depth + 1);
                proof {
                    lemma_grew_add(
                        s0,
                        b,
                        sink@,
                        steps_ids(steps@.take(i as int), (depth + 1) as nat),
                        step_ids(steps@[i as int], (depth + 1) as nat),
                    );
                    assert(steps@.take(i + 1).drop_last() =~= steps@.take(i as int));
                }
                i += 1;
            }
            assert(steps@.take(i as int) =~= steps@);
        },
        _ => {},
    }
}

/// Finds what a summary refers to.
pub fn extract_archive(archive: &SummaryArchive, sink: &mut Vec<BlobHex>)
    ensures
        grew(old(sink)@, final(sink)@, archive_ids(*archive)),
{
    let ghost s0 = sink@;
    push_all(sink, &archive.summarized_messages);
    let ghost s1 = sink@;
    push_id(sink, &archive.summary_message);
    proof {
        let x = raw(archive.summarized_messages@);
        lemma_grew_add(s0, s1, sink@, x, seq![archive.summary_message@]);
        assert(x + seq![archive.summary_message@] =~= archive_ids(*archive));
    }
}

/// Finds what a message of the user refers to.
pub fn extract_user_message(msg: &UserMessage, sink: &mut Vec<BlobHex>)
    ensures
        grew(old(sink)@, final(sink)@, message_ids(*msg)),
{
    let ghost s0 = sink@;
    push_id(sink, &msg.conversation_state_blob_id);
    let ghost s1 = sink@;
    push_opt(sink, &msg.text_blob_id);
    let ghost s2 = sink@;
    push_opt(sink, &msg.rich_text_blob_id);
    let ghost s3 = sink@;
    push_attachments(sink, &msg.images);
    let ghost s4 = sink@;
    push_attachments(sink, &msg.documents);
    let ghost s5 = sink@;
    push_attachments(sink, &msg.videos);
    let ghost s6 = sink@;
    push_opts(sink, &msg.extra_context);
    let ghost s7 = sink@;
    push_opts(sink, &msg.pull_requests);
    let ghost s8 = sink@;
    push_opts(sink, &msg.diff_selections);
    let ghost s9 = sink@;
    push_opts(sink, &msg.external_links);
    let ghost s10 = sink@;
    push_opt(sink, &msg.invocation);
    proof {
        let x1 = seq![msg.conversation_state_blob_id@];
        let x2 = x1 + raw_opt(msg.text_blob_id);
        let x3 = x2 + raw_opt(msg.rich_text_blob_id);
        let x4 = x3 + attachments_ids(msg.images@);
        let x5 = x4 + attachments_ids(msg.documents@);
        let x6 = x5 + attachments_ids(msg.videos@);
        let x7 = x6 + raw_opts(msg.extra_context@);
        let x8 = x7 + raw_opts(msg.pull_requests@);
        let x9 = x8 + raw_opts(msg.diff_selections@);
        let x10 = x9 + raw_opts(msg.external_links@);
        lemma_grew_add(s0, s1, s2, x1, raw_opt(msg.text_blob_id));
        lemma_grew_add(s0, s2, s3, x2, raw_opt(msg.rich_text_blob_id));
        lemma_grew_add(s0, s3, s4, x3, attachments_ids(msg.images@));
        lemma_grew_add(s0, s4, s5, x4, attachments_ids(msg.documents@));
        lemma_grew_add(s0, s5, s6, x5, attachments_ids(msg.videos@));
        lemma_grew_add(s0, s6, s7, x6, raw_opts(msg.extra_context@));
        lemma_grew_add(s0, s7, s8, x7, raw_opts(msg.pull_requests@));
        lemma_grew_add(s0, s8, s9, x8, raw_opts(msg.diff_selections@));
        lemma_grew_add(s0, s9, s10, x9, raw_opts(msg.external_links@));
        lemma_grew_add(s0, s10, sink@, x10, raw_opt(msg.invocation));
    }
}

/// Finds what a blob refers to, in whichever way it can be read.
pub fn expand_blob(r: &Readings) -> (ids: Vec<BlobHex>)
    ensures
        blob_views(ids@) == hexes(blob_ids(*r)),
{
    let mut sink: Vec<BlobHex> = Vec::new();
    let ghost s0 = sink@;
    proof {
        lemma_grew_nothing(s0);
    }
    match &r.state {
        Some(s) => extract_state(s, &mut sink, 0),
        None => {},
    }
    let ghost s1 = sink@;
    proof {
        lemma_grew_nothing(s1);
    }
    match &r.turn {
        Some(t) => extract_turn(t, &mut sink),
        None => {},
    }
    let ghost s2 = sink@;
    proof {
        lemma_grew_nothing(s2);
    }
    match &r.step {
        Some(s) => extract_step(s, &mut sink, 0),
        None => {},
    }
    let ghost s3 = sink@;
    proof {
        lemma_grew_nothing(s3);
    }
    match &r.archive {
        Some(a) => extract_archive(a, &mut sink),
        None => {},
    }
    let ghost s4 = sink@;
    proof {
        lemma_grew_nothing(s4);
    }
    match &r.message {
        Some(m) => extract_user_message(m, &mut sink),
        None => {},
    }
    proof {
        let y1 = state_part(r.state);
        let y2 = turn_part(r.turn);
        let y3 = step_part(r.step);
        let y4 = archive_part(r.archive);
        let y5 = message_part(r.message);
        lemma_grew_add(s0, s1, s2, y1, y2);
        lemma_grew_add(s0, s2, s3, y1 + y2, y3);
        lemma_grew_add(s0, s3, s4, y1 + y2 + y3, y4);
        lemma_grew_add(s0, s4, sink@, y1 + y2 + y3 + y4, y5);
        assert(blob_views(s0) + hexes(blob_ids(*r)) =~= hexes(blob_ids(*r)));
    }
    sink
}

/// The messages that a summary stands for are found: both it and they are referred to by
/// a blob that can be read as one.
pub proof fn lemma_archive_is_followed(r: Readings, a: SummaryArchive, i: int)
    requires
        r.archive == Some(a),
        0 <= i < a.summarized_messages@.len(),
    ensures
        blob_ids(r).contains(a.summarized_messages@[i]@),
        blob_ids(r).contains(a.summary_message@),
{
    let before = state_part(r.state) + turn_part(r.turn) + step_part(r.step);
    let ids = archive_ids(a);
    let n = a.summarized_messages@.len() as int;
    assert(ids[i] == a.summarized_messages@[i]@);
    assert(ids[n] == a.summary_message@);
    assert(blob_ids(r)[before.len() + i] == ids[i]);
    assert(blob_ids(r)[before.len() + n] == ids[n]);
}

/// One of the ids has these bytes.
pub open spec fn among(ids: Seq<BlobId>, x: Seq<u8>) -> bool {
    exists|i: int| 0 <= i < ids.len() && (#[trigger] ids[i])@ == x
}

/// The id is there and has these bytes.
pub open spec fn is_id(id: Option<BlobId>, x: Seq<u8>) -> bool {
    id matches Some(i) && i@ == x
}

/// One of the ids that are there has these bytes.
pub open spec fn among_opts(ids: Seq<Option<BlobId>>, x: Seq<u8>) -> bool {
    exists|i: int| 0 <= i < ids.len() && is_id(#[trigger] ids[i], x)
}

/// One of the attachments is kept under an id with these bytes, its data beside it or not.
pub open spec fn attached(s: Seq<Attachment>, x: Seq<u8>) -> bool {
    exists|i: int|
        0 <= i < s.len() && match #[trigger] s[i] {
            Attachment::BlobId(id) => id@ == x,
            Attachment::BlobIdWithData(id) => id@ == x,
            Attachment::Data => false,
        }
}

proof fn lemma_raw(ids: Seq<BlobId>, x: Seq<u8>)
    ensures
        raw(ids).contains(x) <==> among(ids, x),
{
    if among(ids, x) {
        let i = choose|i: int| 0 <= i < ids.len() && (#[trigger] ids[i])@ == x;
        assert(raw(ids)[i] == x);
    }
    if raw(ids).contains(x) {
        let i = choose|i: int| 0 <= i < raw(ids).len() && raw(ids)[i] == x;
        assert(ids[i]@ == x);
    }
}

proof fn lemma_raw_opt(id: Option<BlobId>, x: Seq<u8>)
    ensures
        raw_opt(id).contains(x) <==> is_id(id, x),
{
    if is_id(id, x) {
        assert(raw_opt(id)[0] == x);
    }
}

proof fn lemma_raw_opts(ids: Seq<Option<BlobId>>, x: Seq<u8>)
    ensures
        raw_opts(ids).contains(x) <==> among_opts(ids, x),
    decreases ids.len(),
{
    if ids.len() > 0 {
        let rest = ids.drop_last();
        lemma_raw_opts(rest, x);
        lemma_raw_opt(ids.last(), x);
        lemma_add_contains(raw_opts(rest), raw_opt(ids.last()), x);
        if among_opts(rest, x) {
            let i = choose|i: int| 0 <= i < rest.len() && is_id(#[trigger] rest[i], x);
            assert(is_id(ids[i], x));
        }
        if is_id(ids.last(), x) {
            assert(is_id(ids[ids.len() - 1], x));
        }
        if among_opts(ids, x) && !is_id(ids.last(), x) {
            let i = choose|i: int| 0 <= i < ids.len() && is_id(#[trigger] ids[i], x);
            assert(is_id(rest[i], x));
        }
    }
}

proof fn lemma_attachments(s: Seq<Attachment>, x: Seq<u8>)
    ensures
        attachments_ids(s).contains(x) <==> attached(s, x),
    decreases s.len(),
{
    if s.len() > 0 {
        let rest = s.drop_last();
        let last = attachment_ids(s.last());
        lemma_attachments(rest, x);
        lemma_add_contains(attachments_ids(rest), last, x);
        if !(s.last() is Data) {
            assert(last.contains(last[0]));
        }
        if attached(rest, x) {
            let i = choose|i: int|
                0 <= i < rest.len() && match #[trigger] rest[i] {
                    Attachment::BlobId(id) => id@ == x,
                    Attachment::BlobIdWithData(id) => id@ == x,
                    Attachment::Data => false,
                };
            assert(s[i] == rest[i]);
        }
        if last.contains(x) {
            assert(s[s.len() - 1] == s.last());
        }
        if attached(s, x) {
            let i = choose|i: int|
                0 <= i < s.len() && match #[trigger] s[i] {
                    Attachment::BlobId(id) => id@ == x,
                    Attachment::BlobIdWithData(id) => id@ == x,
                    Attachment::Data => false,
                };
            if i < rest.len() {
                assert(s[i] == rest[i]);
            }
        }
    }
}

proof fn lemma_files(s: Seq<FileState>, x: Seq<u8>)
    ensures
        files_ids(s).contains(x) <==> exists|i: int|
            0 <= i < s.len() && (is_id((#[trigger] s[i]).content, x) || is_id(
                s[i].initial_content,
                x,
            )),
    decreases s.len(),
{
    if s.len() > 0 {
        let rest = s.drop_last();
        let f = s.last();
        lemma_files(rest, x);
        lemma_raw_opt(f.content, x);
        lemma_raw_opt(f.initial_content, x);
        lemma_add_contains(raw_opt(f.content), raw_opt(f.initial_content), x);
        lemma_add_contains(files_ids(rest), file_ids(f), x);
        if files_ids(rest).contains(x) {
            let i = choose|i: int|
                0 <= i < rest.len() && (is_id((#[trigger] rest[i]).content, x) || is_id(
                    rest[i].initial_content,
                    x,
                ));
            assert(s[i] == rest[i]);
        }
        if file_ids(f).contains(x) {
            assert(s[s.len() - 1] == f);
        }
        if exists|i: int|
            0 <= i < s.len() && (is_id((#[trigger] s[i]).content, x) || is_id(
                s[i].initial_content,
                x,
            )) {
            let i = choose|i: int|
                0 <= i < s.len() && (is_id((#[trigger] s[i]).content, x) || is_id(
                    s[i].initial_content,
                    x,
                ));
            if i < rest.len() {
                assert(s[i] == rest[i]);
            }
        }
    }
}

proof fn lemma_states(s: Seq<ConversationState>, depth: nat, x: Seq<u8>)
    ensures
        states_ids(s, depth).contains(x) <==> exists|i: int|
            0 <= i < s.len() && state_ids(#[trigger] s[i], depth).contains(x),
    decreases s.len(),
{
    if s.len() > 0 {
        let rest = s.drop_last();
        lemma_states(rest, depth, x);
        lemma_add_contains(states_ids(rest, depth), state_ids(s.last(), depth), x);
        if states_ids(rest, depth).contains(x) {
            let i = choose|i: int|
                0 <= i < rest.len() && state_ids(#[trigger] rest[i], depth).contains(x);
            assert(s[i] == rest[i]);
        }
        if state_ids(s.last(), depth).contains(x) {
            assert(s[s.len() - 1] == s.last());
        }
        if exists|i: int| 0 <= i < s.len() && state_ids(#[trigger] s[i], depth).contains(x) {
            let i = choose|i: int|
                0 <= i < s.len() && state_ids(#[trigger] s[i], depth).contains(x);
            if i < rest.len() {
                assert(s[i] == rest[i]);
            }
        }
    }
}

/// A state refers to every id in each of its fields, to whatever a state held in it refers
/// to, and to nothing else. Down to the sixty-fourth level states are followed, and no
/// deeper.
pub proof fn lemma_state_refers_to(st: ConversationState, depth: nat, x: Seq<u8>)
    ensures
        depth <= 64 ==> (state_ids(st, depth).contains(x) <==> {
            ||| among(st.turns@, x)
            ||| among(st.root_prompt_messages_json@, x)
            ||| among(st.todos@, x)
            ||| among(st.summary_archives@, x)
            ||| is_id(st.summary, x)
            ||| is_id(st.summary_archive, x)
            ||| is_id(st.plan, x)
            ||| among(st.file_states@, x)
            ||| exists|i: int|
                0 <= i < st.file_states_v2@.len() && (is_id(
                    (#[trigger] st.file_states_v2@[i]).content,
                    x,
                ) || is_id(st.file_states_v2@[i].initial_content, x))
            ||| among(st.subagent_state_refs@, x)
            ||| exists|i: int|
                0 <= i < st.subagent_states@.len() && state_ids(
                    #[trigger] st.subagent_states@[i],
                    depth + 1,
                ).contains(x)
        }),
        depth > 64 ==> !state_ids(st, depth).contains(x),
{
    let x1 = raw(st.turns@);
    let x2 = x1 + raw(st.root_prompt_messages_json@);
    let x3 = x2 + raw(st.todos@);
    let x4 = x3 + raw(st.summary_archives@);
    let x5 = x4 + raw_opt(st.summary);
    let x6 = x5 + raw_opt(st.summary_archive);
    let x7 = x6 + raw_opt(st.plan);
    let x8 = x7 + raw(st.file_states@);
    let x9 = x8 + files_ids(st.file_states_v2@);
    let x10 = x9 + raw(st.subagent_state_refs@);
    lemma_add_contains(x1, raw(st.root_prompt_messages_json@), x);
    lemma_add_contains(x2, raw(st.todos@), x);
    lemma_add_contains(x3, raw(st.summary_archives@), x);
    lemma_add_contains(x4, raw_opt(st.summary), x);
    lemma_add_contains(x5, raw_opt(st.summary_archive), x);
    lemma_add_contains(x6, raw_opt(st.plan), x);
    lemma_add_contains(x7, raw(st.file_states@), x);
    lemma_add_contains(x8, files_ids(st.file_states_v2@), x);
    lemma_add_contains(x9, raw(st.subagent_state_refs@), x);
    lemma_add_contains(x10, states_ids(st.subagent_states@, depth + 1), x);
    lemma_raw(st.turns@, x);
    lemma_raw(st.root_prompt_messages_json@, x);
    lemma_raw(st.todos@, x);
    lemma_raw(st.summary_archives@, x);
    lemma_raw_opt(st.summary, x);
    lemma_raw_opt(st.summary_archive, x);
    lemma_raw_opt(st.plan, x);
    lemma_raw(st.file_states@, x);
    lemma_files(st.file_states_v2@, x);
    lemma_raw(st.subagent_state_refs@, x);
    lemma_states(st.subagent_states@, depth + 1, x);
}

/// A turn of the agent refers to the message of the user and to each of its steps, one of
/// the shell to its command and its output, and neither to anything else.
pub proof fn lemma_turn_refers_to(t: Turn, x: Seq<u8>)
    ensures
        turn_ids(t).contains(x) <==> match t {
            Turn::Agent { user_message, steps } => user_message@ == x || among(steps@, x),
            Turn::Shell { shell_command, shell_output } => shell_command@ == x || shell_output@ == x,
            Turn::Absent => false,
        },
{
    match t {
        Turn::Agent { user_message, steps } => {
            let u = seq![user_message@];
            assert(u[0] == user_message@);
            lemma_raw(steps@, x);
            lemma_add_contains(u, raw(steps@), x);
        },
        Turn::Shell { shell_command, shell_output } => {
            let u = seq![shell_command@, shell_output@];
            assert(u[0] == shell_command@ && u[1] == shell_output@);
        },
        Turn::Absent => {},
    }
}

proof fn lemma_steps(s: Seq<Step>, depth: nat, x: Seq<u8>)
    ensures
        steps_ids(s, depth).contains(x) <==> exists|i: int|
            0 <= i < s.len() && step_ids(#[trigger] s[i], depth).contains(x),
    decreases s.len(),
{
    if s.len() > 0 {
        let rest = s.drop_last();
        lemma_steps(rest, depth, x);
        lemma_add_contains(steps_ids(rest, depth), step_ids(s.last(), depth), x);
        if steps_ids(rest, depth).contains(x) {
            let i = choose|i: int|
                0 <= i < rest.len() && step_ids(#[trigger] rest[i], depth).contains(x);
            assert(s[i] == rest[i]);
        }
        if step_ids(s.last(), depth).contains(x) {
            assert(s[s.len() - 1] == s.last());
        }
        if exists|i: int| 0 <= i < s.len() && step_ids(#[trigger] s[i], depth).contains(x) {
            let i = choose|i: int| 0 <= i < s.len() && step_ids(#[trigger] s[i], depth).contains(x);
            if i < rest.len() {
                assert(s[i] == rest[i]);
            }
        }
    }
}

/// A step refers to what a file that was read is kept under, as data or as content, to the
/// full step where it was cut short, and to whatever a step of its task refers to.
pub proof fn lemma_step_refers_to(s: Step, depth: nat, x: Seq<u8>)
    ensures
        depth <= 64 ==> (step_ids(s, depth).contains(x) <==> match s {
            Step::ToolCall(ToolCall::Read(Some(ReadOutput::DataBlobId(id)))) => id@ == x,
            Step::ToolCall(ToolCall::Read(Some(ReadOutput::ContentBlobId(id)))) => id@ == x,
            Step::ToolCall(ToolCall::Truncated { original_step_blob_id }) =>
                original_step_blob_id@ == x,
            Step::ToolCall(ToolCall::Task(Some(steps))) => exists|i: int|
                0 <= i < steps@.len() && step_ids(#[trigger] steps@[i], depth + 1).contains(x),
            _ => false,
        }),
        depth > 64 ==> !step_ids(s, depth).contains(x),
{
    if depth <= 64 {
        match s {
            Step::ToolCall(ToolCall::Read(Some(ReadOutput::DataBlobId(id)))) => {
                assert(step_ids(s, depth)[0] == id@);
            },
            Step::ToolCall(ToolCall::Read(Some(ReadOutput::ContentBlobId(id)))) => {
                assert(step_ids(s, depth)[0] == id@);
            },
            Step::ToolCall(ToolCall::Truncated { original_step_blob_id }) => {
                assert(step_ids(s, depth)[0] == original_step_blob_id@);
            },
            Step::ToolCall(ToolCall::Task(Some(steps))) => {
                lemma_steps(steps@, depth + 1, x);
            },
            _ => {},
        }
    }
}

/// A summary refers to itself and to each message that it stands for.
pub proof fn lemma_archive_refers_to(a: SummaryArchive, x: Seq<u8>)
    ensures
        archive_ids(a).contains(x) <==> among(a.summarized_messages@, x) || a.summary_message@ == x,
{
    lemma_raw(a.summarized_messages@, x);
    crate::text::lemma_push_contains(raw(a.summarized_messages@), a.summary_message@);
}

/// A message of the user refers to each of its parts that is kept under an id.
pub proof fn lemma_message_refers_to(m: UserMessage, x: Seq<u8>)
    ensures
        message_ids(m).contains(x) <==> {
            ||| m.conversation_state_blob_id@ == x
            ||| is_id(m.text_blob_id, x)
            ||| is_id(m.rich_text_blob_id, x)
            ||| attached(m.images@, x)
            ||| attached(m.documents@, x)
            ||| attached(m.videos@, x)
            ||| among_opts(m.extra_context@, x)
            ||| among_opts(m.pull_requests@, x)
            ||| among_opts(m.diff_selections@, x)
            ||| among_opts(m.external_links@, x)
            ||| is_id(m.invocation, x)
        },
{
    let x1 = seq![m.conversation_state_blob_id@];
    let x2 = x1 + raw_opt(m.text_blob_id);
    let x3 = x2 + raw_opt(m.rich_text_blob_id);
    let x4 = x3 + attachments_ids(m.images@);
    let x5 = x4 + attachments_ids(m.documents@);
    let x6 = x5 + attachments_ids(m.videos@);
    let x7 = x6 + raw_opts(m.extra_context@);
    let x8 = x7 + raw_opts(m.pull_requests@);
    let x9 = x8 + raw_opts(m.diff_selections@);
    let x10 = x9 + raw_opts(m.external_links@);
    assert(x1[0] == m.conversation_state_blob_id@);
    lemma_add_contains(x1, raw_opt(m.text_blob_id), x);
    lemma_add_contains(x2, raw_opt(m.rich_text_blob_id), x);
    lemma_add_contains(x3, attachments_ids(m.images@), x);
    lemma_add_contains(x4, attachments_ids(m.documents@), x);
    lemma_add_contains(x5, attachments_ids(m.videos@), x);
    lemma_add_contains(x6, raw_opts(m.extra_context@), x);
    lemma_add_contains(x7, raw_opts(m.pull_requests@), x);
    lemma_add_contains(x8, raw_opts(m.diff_selections@), x);
    lemma_add_contains(x9, raw_opts(m.external_links@), x);
    lemma_add_contains(x10, raw_opt(m.invocation), x);
    lemma_raw_opt(m.text_blob_id, x);
    lemma_raw_opt(m.rich_text_blob_id, x);
    lemma_attachments(m.images@, x);
    lemma_attachments(m.documents@, x);
    lemma_attachments(m.videos@, x);
    lemma_raw_opts(m.extra_context@, x);
    lemma_raw_opts(m.pull_requests@, x);
    lemma_raw_opts(m.diff_selections@, x);
    lemma_raw_opts(m.external_links@, x);
    lemma_raw_opt(m.invocation, x);
}

/// A blob refers to whatever any of the five readings of it refers to, and to nothing else.
pub proof fn lemma_blob_refers_to(r: Readings, x: Seq<u8>)
    ensures
        blob_ids(r).contains(x) <==> {
            ||| (r.state matches Some(s) && state_ids(s, 0).contains(x))
            ||| (r.turn matches Some(t) && turn_ids(t).contains(x))
            ||| (r.step matches Some(s) && step_ids(s, 0).contains(x))
            ||| (r.archive matches Some(a) && archive_ids(a).contains(x))
            ||| (r.message matches Some(m) && message_ids(m).contains(x))
        },
{
    let y1 = state_part(r.state);
    let y2 = y1 + turn_part(r.turn);
    let y3 = y2 + step_part(r.step);
    let y4 = y3 + archive_part(r.archive);
    lemma_add_contains(y1, turn_part(r.turn), x);
    lemma_add_contains(y2, step_part(r.step), x);
    lemma_add_contains(y3, archive_part(r.archive), x);
    lemma_add_contains(y4, message_part(r.message), x);
}

/// Every id that is not empty is found, by its two digits for each byte, and nothing is
/// found but such ids.
pub proof fn lemma_hexes(ids: Seq<Seq<u8>>, t: Seq<char>)
    ensures
        hexes(ids).contains(t) <==> exists|i: int|
            0 <= i < ids.len() && (#[trigger] ids[i]).len() > 0 && hex_text(ids[i]) == t,
    decreases ids.len(),
{
    if ids.len() > 0 {
        let rest = ids.drop_last();
        lemma_hexes(rest, t);
        crate::text::lemma_push_contains(hexes(rest), hex_text(ids.last()));
        if hexes(rest).contains(t) {
            let i = choose|i: int|
                0 <= i < rest.len() && (#[trigger] rest[i]).len() > 0 && hex_text(rest[i]) == t;
            assert(ids[i] == rest[i]);
        }
        if ids.last().len() > 0 && hex_text(ids.last()) == t {
            assert(ids[ids.len() - 1] == ids.last());
        }
        if exists|i: int|
            0 <= i < ids.len() && (#[trigger] ids[i]).len() > 0 && hex_text(ids[i]) == t {
            let i = choose|i: int|
                0 <= i < ids.len() && (#[trigger] ids[i]).len() > 0 && hex_text(ids[i]) == t;
            if i < rest.len() {
                assert(ids[i] == rest[i]);
            }
        }
    }
}

/// One of the state's own fields names the id.
pub open spec fn names_id(st: ConversationState, x: Seq<u8>) -> bool {
    ||| among(st.turns@, x)
    ||| among(st.root_prompt_messages_json@, x)
    ||| among(st.todos@, x)
    ||| among(st.summary_archives@, x)
    ||| is_id(st.summary, x)
    ||| is_id(st.summary_archive, x)
    ||| is_id(st.plan, x)
    ||| among(st.file_states@, x)
    ||| exists|i: int|
        0 <= i < st.file_states_v2@.len() && (is_id((#[trigger] st.file_states_v2@[i]).content, x)
            || is_id(st.file_states_v2@[i].initial_content, x))
    ||| among(st.subagent_state_refs@, x)
}

/// Whatever a conversation's state names in any of its fields is found where a blob can be
/// read as that state.
pub proof fn lemma_state_is_followed(r: Readings, found: Seq<BlobHex>, id: BlobId)
    requires
        blob_views(found) == hexes(blob_ids(r)),
        id@.len() > 0,
        r.state matches Some(st) && names_id(st, id@),
    ensures
        blob_views(found).contains(hex_text(id@)),
{
    lemma_state_refers_to(r.state->0, 0, id@);
    lemma_blob_refers_to(r, id@);
    let ids = blob_ids(r);
    let i = choose|i: int| 0 <= i < ids.len() && ids[i] == id@;
    assert(ids[i].len() > 0);
    lemma_hexes(ids, hex_text(id@));
}

} // verus!
