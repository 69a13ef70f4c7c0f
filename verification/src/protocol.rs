//! The control plane's vocabulary: the views and replies the server sends,
//! as plain data, and the few rules that belong to them (which intents
//! write, which drive the transport, which are gestures, and how each is
//! tagged on the wire).
use vstd::prelude::*;

verus! {

/// Control-plane version. 1 = the stage-5 protocol.
pub const PROTOCOL_VERSION: u32 = 1;

/// A client's role on a session (single-writer lease).
#[derive(Debug, Clone, Copy, PartialEq, Eq, Structural)]
pub enum Role {
    /// Holds the write lease.
    Writer,
    /// Live read-only observer.
    Observer,
}

/// The scheduler's status vocabulary.
#[derive(Debug, Clone, Copy, PartialEq, Eq, Structural)]
pub enum NodeState {
    /// Not part of any solve yet (or excluded).
    Idle,
    /// Answered by the memo table.
    Cached,
    /// In the cone of the running generation, not started.
    Queued,
    /// Executing.
    Running,
    /// Computed this generation.
    Done,
    /// Failed.
    Red,
    /// An upstream is red; did not run.
    Blocked,
    /// The generation was cancelled before/while it ran.
    Cancelled,
}

/// One node's status.
#[derive(Debug, Clone, PartialEq)]
pub struct NodeStatus {
    /// The state word.
    pub state: NodeState,
    /// Generation this status belongs to.
    pub generation: u64,
    /// Elements processed so far / total (fan-out nodes while running).
    pub elements_done: Option<u64>,
    /// Elements processed (this generation's, or the last compute's for a
    /// cached node).
    pub elements: Option<u64>,
    /// Measured work nanoseconds.
    pub nanos: Option<u64>,
    /// Failure message (red) or reason (blocked).
    pub message: Option<String>,
    /// Offending element indices (red fan-outs).
    pub element_ids: Vec<usize>,
}

impl NodeStatus {
    /// A bare status.
    pub fn new(state: NodeState, generation: u64) -> (status: NodeStatus)
        ensures
            status.state == state,
            status.generation == generation,
            status.elements_done is None,
            status.elements is None,
            status.nanos is None,
            status.message is None,
            status.element_ids@.len() == 0,
    {
        NodeStatus {
            state,
            generation,
            elements_done: None,
            elements: None,
            nanos: None,
            message: None,
            element_ids: Vec::new(),
        }
    }
}

/// The lease state.
#[derive(Debug, Clone, PartialEq, Eq)]
pub struct LeaseView {
    /// The writer's client id, if any.
    pub writer: Option<u32>,
    /// Connected clients (id, role).
    pub clients: Vec<(u32, Role)>,
}

/// Who made an edit: a person, or an agent with the prompt behind it.
#[derive(Debug, Clone, PartialEq, Eq)]
pub enum Actor {
    /// A person at the canvas.
    Human,
    /// An agent, with the prompt that produced the edit when it has one.
    Agent {
        /// The prompt, for the history view.
        prompt: Option<String>,
    },
}

/// A slider's scrub-cache state on the wire: the opt-in, how many
/// positions it has, which are warm, and whether warming goes on.
#[derive(Debug, Clone, PartialEq, Eq)]
pub struct ScrubView {
    /// The text says `scrub=True`.
    pub on: bool,
    /// Step-quantized positions; 0 when ineligible.
    pub positions: usize,
    /// Position indices verified warm, ascending.
    pub warmed: Vec<usize>,
    /// Work remains for this slider.
    pub warming: bool,
    /// Bytes of memo entries the warming stored for this slider, deep.
    pub bytes: u64,
    /// The per-slider byte cap stopped the warming.
    pub capped: bool,
    /// Why this slider cannot scrub-cache; absent when eligible.
    pub ineligible: Option<String>,
}

/// The undo/redo state carried on every delta and snapshot.
#[derive(Debug, Clone, Default, PartialEq, Eq)]
pub struct HistoryView {
    /// An op can be undone.
    pub can_undo: bool,
    /// An undone op can be redone.
    pub can_redo: bool,
    /// The label of the op `undo` would revert.
    pub undo_label: Option<String>,
    /// The label of the op `redo` would re-apply.
    pub redo_label: Option<String>,
    /// Undoable steps.
    pub depth: usize,
}

/// One file of an `apply_text` edit.
#[derive(Debug, Clone, PartialEq, Eq)]
pub struct FileText {
    /// Project-relative path (`/`-separated).
    pub path: String,
    /// The whole new content.
    pub text: String,
}

/// The atomic whole-text edit: the files, a label, the actor, and the
/// base text hash the caller read.
#[derive(Debug, Clone, PartialEq, Eq)]
pub struct ApplyTextRequest {
    /// blake3 hex of the pipeline text the caller based its edit on.
    pub base_text_hash: String,
    /// The files to replace — every one, or none.
    pub files: Vec<FileText>,
    /// Human label of the op.
    pub label: String,
    /// Who made the edit.
    pub actor: Actor,
}

/// Where a delta came from.
#[derive(Debug, Clone, PartialEq, Eq)]
pub struct DeltaSource {
    /// The client whose intent produced it (`None` = engine/watcher).
    pub client: Option<u32>,
    /// The intent's client-side id, echoed.
    pub intent_id: Option<String>,
    /// Human label of the op.
    pub label: String,
}

/// A wire-probe verdict for one candidate target port.
#[derive(Debug, Clone, PartialEq, Eq)]
pub struct ProbeVerdict {
    /// Candidate node.
    pub node: String,
    /// Candidate port.
    pub port: String,
    /// `ok` / `lift` / `blocked`.
    pub verdict: String,
    /// The reason when not `ok`.
    pub reason: Option<String>,
}

/// A wire-probe verdict for a catalog node's ports.
#[derive(Debug, Clone, PartialEq, Eq)]
pub struct ProbeCatalogEntry {
    /// Dialect name.
    pub func: String,
    /// Ports that would accept the wire: `(port, verdict)`.
    pub ports: Vec<(String, String)>,
}

// ------------------------------------------------------------- git --

/// Where the project stands in git.
#[derive(Debug, Clone, PartialEq, Eq)]
pub enum GitState {
    /// The project lives inside a git work tree.
    Repo(RepoInfo),
    /// The project directory is not inside a git work tree.
    NotARepo,
    /// No `git` binary on PATH.
    GitNotFound,
    /// Another git process holds `index.lock`; the same facts as `Repo`.
    Locked(RepoInfo),
}

/// The `kind` tag a git state is serialized with.
pub open spec fn git_state_tag(state: GitState) -> Seq<char> {
    match state {
        GitState::Repo(_) => "repo"@,
        GitState::NotARepo => "not_a_repo"@,
        GitState::GitNotFound => "git_not_found"@,
        GitState::Locked(_) => "locked"@,
    }
}

impl GitState {
    /// The repository facts of `Repo` and `Locked`.
    pub fn repo(&self) -> (info: Option<&RepoInfo>)
        ensures
            match *self {
                GitState::Repo(facts) => info matches Some(i) && *i == facts,
                GitState::Locked(facts) => info matches Some(i) && *i == facts,
                _ => info is None,
            },
    {
        match self {
            GitState::Repo(info) => Some(info),
            GitState::Locked(info) => Some(info),
            GitState::NotARepo => None,
            GitState::GitNotFound => None,
        }
    }

    /// The `kind` tag as serialized.
    pub fn tag(&self) -> (tag: &'static str)
        ensures
            tag@ == git_state_tag(*self),
    {
        match self {
            GitState::Repo(_) => "repo",
            GitState::NotARepo => "not_a_repo",
            GitState::GitNotFound => "git_not_found",
            GitState::Locked(_) => "locked",
        }
    }
}

/// The facts of a repository the project lives in.
#[derive(Debug, Clone, PartialEq, Eq)]
pub struct RepoInfo {
    /// The repository root (absolute, `/`-separated).
    pub root: String,
    /// The project directory relative to `root` (`""` at the root).
    pub prefix: String,
    /// The checked-out branch; `None` when HEAD is detached.
    pub branch: Option<String>,
    /// HEAD's abbreviated commit id; `None` on an unborn branch.
    pub head_short: Option<String>,
    /// The branch's upstream and how far apart they are, when set.
    pub upstream: Option<Upstream>,
    /// HEAD points at a branch with no commits yet.
    pub unborn: bool,
    /// A merge / rebase / cherry-pick / revert left in progress.
    pub operation: Option<Operation>,
}

/// A multi-step git operation left in progress.
#[derive(Debug, Clone, Copy, PartialEq, Eq, Structural)]
pub enum Operation {
    /// `MERGE_HEAD` exists.
    Merge,
    /// `rebase-merge/` or `rebase-apply/` exists.
    Rebase,
    /// `CHERRY_PICK_HEAD` exists.
    CherryPick,
    /// `REVERT_HEAD` exists.
    Revert,
}

/// An operation's wire name.
pub open spec fn operation_name(operation: Operation) -> Seq<char> {
    match operation {
        Operation::Merge => "merge"@,
        Operation::Rebase => "rebase"@,
        Operation::CherryPick => "cherry_pick"@,
        Operation::Revert => "revert"@,
    }
}

impl Operation {
    /// The wire name (`merge`, `rebase`, `cherry_pick`, `revert`).
    pub fn name(self) -> (name: &'static str)
        ensures
            name@ == operation_name(self),
    {
        match self {
            Operation::Merge => "merge",
            Operation::Rebase => "rebase",
            Operation::CherryPick => "cherry_pick",
            Operation::Revert => "revert",
        }
    }
}

/// A branch's upstream and the ahead/behind counts against it.
#[derive(Debug, Clone, PartialEq, Eq)]
pub struct Upstream {
    /// The upstream ref (`origin/main`).
    pub name: String,
    /// Commits on the branch the upstream lacks.
    pub ahead: u32,
    /// Commits on the upstream the branch lacks.
    pub behind: u32,
}

/// How a node's binding line differs from HEAD.
#[derive(Debug, Clone, Copy, PartialEq, Eq, Structural)]
pub enum ChangeKind {
    /// The name is not bound in HEAD.
    Added,
    /// The line changed and the name exists in HEAD.
    Modified,
    /// The name is bound in HEAD and not in the working tree.
    Removed,
    /// A removed + added pair whose right-hand sides are byte-identical.
    Renamed,
}

/// One node's change marker.
#[derive(Debug, Clone, PartialEq, Eq)]
pub struct NodeChange {
    /// The node (binding) name in the working tree.
    pub name: String,
    /// The change.
    pub change: ChangeKind,
    /// For `renamed`: the name the binding had in HEAD.
    pub from: Option<String>,
}

/// A binding HEAD has that the working tree no longer does.
#[derive(Debug, Clone, PartialEq, Eq)]
pub struct RemovedNode {
    /// The name as bound in HEAD.
    pub name: String,
    /// Its 1-based line in `HEAD:<path>`.
    pub line_in_head: usize,
}

/// A file's git status in the commit scope.
#[derive(Debug, Clone, Copy, PartialEq, Eq, Structural)]
pub enum FileStatus {
    /// Tracked, content differs from HEAD.
    Modified,
    /// Added to the index, absent in HEAD.
    Added,
    /// Deleted (index or working tree).
    Deleted,
    /// Not known to git.
    Untracked,
    /// Renamed in the index.
    Renamed,
}

/// One dirty file of the commit scope.
#[derive(Debug, Clone, PartialEq, Eq)]
pub struct ScopeFile {
    /// Project-relative path.
    pub path: String,
    /// Its status.
    pub status: FileStatus,
    /// HEAD has a version of this path, so `revert` can put it back.
    pub in_head: bool,
}

/// The pipeline file's git view: markers per node.
#[derive(Debug, Clone, PartialEq, Eq)]
pub struct PipelineGitStatus {
    /// Project-relative path of the `.cic`.
    pub path: String,
    /// Known to git (in HEAD or the index).
    pub known_to_git: bool,
    /// Matched by a `.gitignore` rule (and unknown to git).
    pub ignored: bool,
    /// Differs from HEAD (or untracked).
    pub dirty: bool,
    /// Markers for nodes in the working tree.
    pub nodes: Vec<NodeChange>,
    /// Bindings HEAD has that the working tree lost.
    pub removed: Vec<RemovedNode>,
}

/// The state, this pipeline's markers, and the dirty files of the scope.
#[derive(Debug, Clone, PartialEq, Eq)]
pub struct GitStatusResponse {
    /// Where the project stands.
    pub state: GitState,
    /// The pipeline's markers.
    pub pipeline: PipelineGitStatus,
    /// The dirty files of the commit scope.
    pub scope: Vec<ScopeFile>,
    /// blake3 hex of the working pipeline file's bytes.
    pub text_hash: String,
}

/// A commit request.
#[derive(Debug, Clone, PartialEq, Eq)]
pub struct CommitRequest {
    /// The commit message, verbatim.
    pub message: String,
    /// The WS client id of the lease holder.
    pub client: Option<u32>,
}

/// The commit that landed.
#[derive(Debug, Clone, PartialEq, Eq)]
pub struct CommitResponse {
    /// Full commit id.
    pub hash: String,
    /// Abbreviated commit id.
    pub short: String,
    /// The subject line.
    pub summary: String,
    /// The files the commit touched, project-relative.
    pub files: Vec<String>,
}

/// A revert request.
#[derive(Debug, Clone, PartialEq, Eq)]
pub struct RevertRequest {
    /// The subset of the scope to revert; `None` = the whole dirty scope.
    pub paths: Option<Vec<String>>,
    /// The WS client id of the lease holder.
    pub client: Option<u32>,
}

/// What a revert restored to HEAD.
#[derive(Debug, Clone, PartialEq, Eq)]
pub struct RevertResponse {
    /// The paths restored (project-relative).
    pub reverted: Vec<String>,
    /// Dirty scope files with no HEAD version, left as they were.
    pub untracked: Vec<String>,
    /// The session reloaded the restored files.
    pub reloaded: bool,
}

/// The `kind` of a refused git route.
#[derive(Debug, Clone, Copy, PartialEq, Eq, Structural)]
pub enum GitErrorKind {
    /// Malformed request body or pipeline reference (400).
    Protocol,
    /// `?pipeline=` names no pipeline of the project (404).
    NoSuchPipeline,
    /// The caller is not the lease holder (403).
    Lease,
    /// The project is not in a git work tree (409).
    NotARepo,
    /// No `git` on PATH (409).
    GitNotFound,
    /// `index.lock` is held (423).
    Locked,
    /// Nothing in the scope is dirty (409).
    NothingToCommit,
    /// Nothing in the (requested) scope differs from HEAD (409).
    NothingToRevert,
    /// The pipeline (or a requested path) has no HEAD version (409).
    Untracked,
    /// The pipeline is matched by `.gitignore` (409).
    Ignored,
    /// A merge / rebase / cherry-pick / revert is in progress (409).
    OperationInProgress,
    /// The commit message is empty (422).
    EmptyMessage,
    /// A requested path is outside the commit scope (422).
    PathNotAllowed,
    /// A git command failed unexpectedly (500).
    GitFailed,
    /// A git command did not finish within the timeout (500).
    GitTimeout,
    /// Reading the working pipeline (or its HEAD text) failed (500).
    IoError,
    /// The files were restored but the session could not reload them (500).
    ReloadFailed,
    /// The server itself failed around the git call (500).
    Internal,
}

/// A refused git route's wire tag: the kind's name in `snake_case`.
pub open spec fn git_kind_tag(kind: GitErrorKind) -> Seq<char> {
    match kind {
        GitErrorKind::Protocol => "protocol"@,
        GitErrorKind::NoSuchPipeline => "no_such_pipeline"@,
        GitErrorKind::Lease => "lease"@,
        GitErrorKind::NotARepo => "not_a_repo"@,
        GitErrorKind::GitNotFound => "git_not_found"@,
        GitErrorKind::Locked => "locked"@,
        GitErrorKind::NothingToCommit => "nothing_to_commit"@,
        GitErrorKind::NothingToRevert => "nothing_to_revert"@,
        GitErrorKind::Untracked => "untracked"@,
        GitErrorKind::Ignored => "ignored"@,
        GitErrorKind::OperationInProgress => "operation_in_progress"@,
        GitErrorKind::EmptyMessage => "empty_message"@,
        GitErrorKind::PathNotAllowed => "path_not_allowed"@,
        GitErrorKind::GitFailed => "git_failed"@,
        GitErrorKind::GitTimeout => "git_timeout"@,
        GitErrorKind::IoError => "io_error"@,
        GitErrorKind::ReloadFailed => "reload_failed"@,
        GitErrorKind::Internal => "internal"@,
    }
}

impl GitErrorKind {
    /// The wire tag the web client mirrors.
    pub fn tag(self) -> (tag: &'static str)
        ensures
            tag@ == git_kind_tag(self),
    {
        match self {
            GitErrorKind::Protocol => "protocol",
            GitErrorKind::NoSuchPipeline => "no_such_pipeline",
            GitErrorKind::Lease => "lease",
            GitErrorKind::NotARepo => "not_a_repo",
            GitErrorKind::GitNotFound => "git_not_found",
            GitErrorKind::Locked => "locked",
            GitErrorKind::NothingToCommit => "nothing_to_commit",
            GitErrorKind::NothingToRevert => "nothing_to_revert",
            GitErrorKind::Untracked => "untracked",
            GitErrorKind::Ignored => "ignored",
            GitErrorKind::OperationInProgress => "operation_in_progress",
            GitErrorKind::EmptyMessage => "empty_message",
            GitErrorKind::PathNotAllowed => "path_not_allowed",
            GitErrorKind::GitFailed => "git_failed",
            GitErrorKind::GitTimeout => "git_timeout",
            GitErrorKind::IoError => "io_error",
            GitErrorKind::ReloadFailed => "reload_failed",
            GitErrorKind::Internal => "internal",
        }
    }
}

/// The git summary on the project route.
#[derive(Debug, Clone, PartialEq, Eq)]
pub struct ProjectGit {
    /// The state's tag.
    pub kind: String,
    /// The branch, when on one.
    pub branch: Option<String>,
    /// Dirty entries under the project directory.
    pub dirty_count: usize,
    /// What git said, when it failed.
    pub error: Option<String>,
}

// ----------------------------------------------------------- files --

/// What a listing entry is; directories sort before pipelines.
#[derive(Debug, Clone, Copy, PartialEq, Eq, PartialOrd, Ord, Structural)]
pub enum FileKind {
    /// A directory under the root.
    Dir,
    /// A `*.cic` file.
    Pipeline,
}

/// One entry of a listing.
#[derive(Debug, Clone, PartialEq, Eq)]
pub struct FileEntry {
    /// The entry's own name (no path).
    pub name: String,
    /// Directory or pipeline.
    pub kind: FileKind,
    /// Last modification, milliseconds since the Unix epoch (negative
    /// before it).
    pub modified_ms: i64,
}

/// One directory under the served root: directories first, then
/// pipelines, each group in case-insensitive name order.
#[derive(Debug, Clone, PartialEq, Eq)]
pub struct FilesResponse {
    /// The root's display name.
    pub root: String,
    /// The listed directory, normalised and root-relative.
    pub dir: String,
    /// `dir`'s parent in the same form; `None` for the root.
    pub parent: Option<String>,
    /// The entries, sorted as described.
    pub entries: Vec<FileEntry>,
}

/// The `kind` of a refused listing.
#[derive(Debug, Clone, Copy, PartialEq, Eq, Structural)]
pub enum FilesErrorKind {
    /// `dir` is not a plain root-relative path, or resolves outside (400).
    PathNotAllowed,
    /// No such directory under the root (404).
    NotFound,
    /// The directory exists inside the root but could not be read (403).
    IoError,
}

/// A listing refusal's wire tag.
pub open spec fn files_kind_tag(kind: FilesErrorKind) -> Seq<char> {
    match kind {
        FilesErrorKind::PathNotAllowed => "path_not_allowed"@,
        FilesErrorKind::NotFound => "not_found"@,
        FilesErrorKind::IoError => "io_error"@,
    }
}

impl FilesErrorKind {
    /// The wire tag (`path_not_allowed`, `not_found`, `io_error`).
    pub fn tag(self) -> (tag: &'static str)
        ensures
            tag@ == files_kind_tag(self),
    {
        match self {
            FilesErrorKind::PathNotAllowed => "path_not_allowed",
            FilesErrorKind::NotFound => "not_found",
            FilesErrorKind::IoError => "io_error",
        }
    }
}

/// Why a request's pipeline could not be opened.
#[derive(Debug, Clone, Copy, PartialEq, Eq, Structural)]
pub enum JoinRefusal {
    /// The request named no pipeline and the server has no default (400).
    Unnamed,
    /// The reference is not a plain root-relative `.cic` path (400).
    PathNotAllowed,
    /// No such file under the root (404).
    NotFound,
    /// The file is there but its session could not open (422).
    OpenFailed,
}

/// A join refusal's wire `reason`: its name in `snake_case`.
pub open spec fn join_refusal_tag(reason: JoinRefusal) -> Seq<char> {
    match reason {
        JoinRefusal::Unnamed => "unnamed"@,
        JoinRefusal::PathNotAllowed => "path_not_allowed"@,
        JoinRefusal::NotFound => "not_found"@,
        JoinRefusal::OpenFailed => "open_failed"@,
    }
}

impl JoinRefusal {
    /// The wire `reason` (`unnamed`, `path_not_allowed`, `not_found`,
    /// `open_failed`).
    pub fn tag(self) -> (tag: &'static str)
        ensures
            tag@ == join_refusal_tag(self),
    {
        match self {
            JoinRefusal::Unnamed => "unnamed",
            JoinRefusal::PathNotAllowed => "path_not_allowed",
            JoinRefusal::NotFound => "not_found",
            JoinRefusal::OpenFailed => "open_failed",
        }
    }
}

/// The transport signal behind a driven port.
#[derive(Debug, Clone, Copy, PartialEq, Eq, Structural)]
pub enum DrivenSignal {
    /// A quantized loop frame (`cycle.frame`).
    Frame,
    /// The playhead in seconds (`clock.t`).
    Time,
}

/// How a drag's previews are handled.
#[derive(Debug, Clone, Copy, PartialEq, Eq, Structural)]
pub enum PreviewMode {
    /// Previews are withheld; the value solves once, on release.
    ComputeOnRelease,
}

/// One end of a wire: a node and one of its ports.
#[derive(Debug, Clone, PartialEq, Eq)]
pub struct WireEnd {
    /// The node's name.
    pub node: String,
    /// The port's name.
    pub port: String,
}

/// Where a placed node also connects from (a wire dragged to empty
/// canvas).
#[derive(Debug, Clone, PartialEq, Eq)]
pub struct ConnectSpec {
    /// Source end.
    pub from: WireEnd,
    /// The new node's input port.
    pub to_port: String,
    /// Wrap the wire in `each()` (an accepted lift).
    pub lift: bool,
}

/// One literal a `place_node` writes into the new node as it lands.
#[derive(Debug, Clone, PartialEq, Eq)]
pub struct ParamSpec {
    /// The new node's input port.
    pub port: String,
    /// The literal's source text.
    pub value: String,
}

// --------------------------------------------------------- intents --

/// Which client intent a message is: the message's type, without its
/// payload.
#[derive(Debug, Clone, Copy, PartialEq, Eq, Structural)]
pub enum IntentKind {
    Hello,
    PlaceNode,
    Connect,
    Disconnect,
    AcceptLift,
    SetParam,
    ParamPreview,
    EndDrag,
    Rename,
    DeleteNode,
    ToggleDisable,
    MoveNode,
    SetPreview,
    SetCollapsed,
    SetScrub,
    Cancel,
    TransportPlay,
    TransportPause,
    TransportSeek,
    TransportSpeed,
    TransportReset,
    Undo,
    Redo,
    Batch,
    ApplyText,
    Inspect,
    InspectWire,
    ProbeWire,
    ResyncDisplay,
    TakeLease,
    Screenshot,
}

/// Intents that drive the transport.
pub open spec fn drives_transport(kind: IntentKind) -> bool {
    matches!(
        kind,
        IntentKind::TransportPlay | IntentKind::TransportPause | IntentKind::TransportSeek
            | IntentKind::TransportSpeed | IntentKind::TransportReset
    )
}

/// Intents that are gestures: edits a batch may hold.
pub open spec fn gesture(kind: IntentKind) -> bool {
    matches!(
        kind,
        IntentKind::PlaceNode | IntentKind::Connect | IntentKind::Disconnect
            | IntentKind::AcceptLift | IntentKind::SetParam | IntentKind::Rename
            | IntentKind::DeleteNode | IntentKind::ToggleDisable | IntentKind::MoveNode
            | IntentKind::SetPreview | IntentKind::SetCollapsed | IntentKind::SetScrub
    )
}

/// Intents that need the write lease: the gestures, the drag's ticks and
/// release, cancel, undo, redo, batches, whole-text edits and the
/// transport.
pub open spec fn writes(kind: IntentKind) -> bool {
    gesture(kind) || drives_transport(kind) || matches!(
        kind,
        IntentKind::ParamPreview | IntentKind::EndDrag | IntentKind::Cancel | IntentKind::Undo
            | IntentKind::Redo | IntentKind::Batch | IntentKind::ApplyText
    )
}

/// Does the intent need the write lease?
pub fn is_write(kind: IntentKind) -> (write: bool)
    ensures
        write == writes(kind),
{
    match kind {
        IntentKind::PlaceNode | IntentKind::Connect | IntentKind::Disconnect
        | IntentKind::AcceptLift | IntentKind::SetParam | IntentKind::ParamPreview
        | IntentKind::EndDrag | IntentKind::Rename | IntentKind::DeleteNode
        | IntentKind::ToggleDisable | IntentKind::MoveNode | IntentKind::SetPreview
        | IntentKind::SetCollapsed | IntentKind::SetScrub | IntentKind::Cancel | IntentKind::Undo
        | IntentKind::Redo | IntentKind::Batch | IntentKind::ApplyText | IntentKind::TransportPlay
        | IntentKind::TransportPause | IntentKind::TransportSeek | IntentKind::TransportSpeed
        | IntentKind::TransportReset => true,
        _ => false,
    }
}

/// Does the intent drive the transport?
pub fn is_transport(kind: IntentKind) -> (transport: bool)
    ensures
        transport == drives_transport(kind),
{
    match kind {
        IntentKind::TransportPlay | IntentKind::TransportPause | IntentKind::TransportSeek
        | IntentKind::TransportSpeed | IntentKind::TransportReset => true,
        _ => false,
    }
}

/// Is the intent a gesture (an edit a batch may hold)?
pub fn is_gesture(kind: IntentKind) -> (is: bool)
    ensures
        is == gesture(kind),
{
    match kind {
        IntentKind::PlaceNode | IntentKind::Connect | IntentKind::Disconnect
        | IntentKind::AcceptLift | IntentKind::SetParam | IntentKind::Rename
        | IntentKind::DeleteNode | IntentKind::ToggleDisable | IntentKind::MoveNode
        | IntentKind::SetPreview | IntentKind::SetCollapsed | IntentKind::SetScrub => true,
        _ => false,
    }
}

/// The intent's `type` tag on the wire.
pub open spec fn intent_tag(kind: IntentKind) -> Seq<char> {
    match kind {
        IntentKind::Hello => "hello"@,
        IntentKind::PlaceNode => "place_node"@,
        IntentKind::Connect => "connect"@,
        IntentKind::Disconnect => "disconnect"@,
        IntentKind::AcceptLift => "accept_lift"@,
        IntentKind::SetParam => "set_param"@,
        IntentKind::ParamPreview => "param_preview"@,
        IntentKind::EndDrag => "end_drag"@,
        IntentKind::Rename => "rename"@,
        IntentKind::DeleteNode => "delete_node"@,
        IntentKind::ToggleDisable => "toggle_disable"@,
        IntentKind::MoveNode => "move_node"@,
        IntentKind::SetPreview => "set_preview"@,
        IntentKind::SetCollapsed => "set_collapsed"@,
        IntentKind::SetScrub => "set_scrub"@,
        IntentKind::Cancel => "cancel"@,
        IntentKind::TransportPlay => "transport_play"@,
        IntentKind::TransportPause => "transport_pause"@,
        IntentKind::TransportSeek => "transport_seek"@,
        IntentKind::TransportSpeed => "transport_speed"@,
        IntentKind::TransportReset => "transport_reset"@,
        IntentKind::Undo => "undo"@,
        IntentKind::Redo => "redo"@,
        IntentKind::Batch => "batch"@,
        IntentKind::ApplyText => "apply_text"@,
        IntentKind::Inspect => "inspect"@,
        IntentKind::InspectWire => "inspect_wire"@,
        IntentKind::ProbeWire => "probe_wire"@,
        IntentKind::ResyncDisplay => "resync_display"@,
        IntentKind::TakeLease => "take_lease"@,
        IntentKind::Screenshot => "screenshot"@,
    }
}

/// The intent's `type` tag on the wire.
pub fn type_tag(kind: IntentKind) -> (tag: String)
    ensures
        tag@ == intent_tag(kind),
{
    let tag = match kind {
        IntentKind::Hello => "hello",
        IntentKind::PlaceNode => "place_node",
        IntentKind::Connect => "connect",
        IntentKind::Disconnect => "disconnect",
        IntentKind::AcceptLift => "accept_lift",
        IntentKind::SetParam => "set_param",
        IntentKind::ParamPreview => "param_preview",
        IntentKind::EndDrag => "end_drag",
        IntentKind::Rename => "rename",
        IntentKind::DeleteNode => "delete_node",
        IntentKind::ToggleDisable => "toggle_disable",
        IntentKind::MoveNode => "move_node",
        IntentKind::SetPreview => "set_preview",
        IntentKind::SetCollapsed => "set_collapsed",
        IntentKind::SetScrub => "set_scrub",
        IntentKind::Cancel => "cancel",
        IntentKind::TransportPlay => "transport_play",
        IntentKind::TransportPause => "transport_pause",
        IntentKind::TransportSeek => "transport_seek",
        IntentKind::TransportSpeed => "transport_speed",
        IntentKind::TransportReset => "transport_reset",
        IntentKind::Undo => "undo",
        IntentKind::Redo => "redo",
        IntentKind::Batch => "batch",
        IntentKind::ApplyText => "apply_text",
        IntentKind::Inspect => "inspect",
        IntentKind::InspectWire => "inspect_wire",
        IntentKind::ProbeWire => "probe_wire",
        IntentKind::ResyncDisplay => "resync_display",
        IntentKind::TakeLease => "take_lease",
        IntentKind::Screenshot => "screenshot",
    };
    tag.to_owned()
}

/// The transport and the gestures both need the lease; no gesture drives
/// the transport.
pub proof fn lemma_gestures_and_transport_write(kind: IntentKind)
    ensures
        gesture(kind) ==> writes(kind),
        drives_transport(kind) ==> writes(kind),
        !(gesture(kind) && drives_transport(kind)),
        writes(kind) ==> kind != IntentKind::Hello && kind != IntentKind::Inspect && kind
            != IntentKind::TakeLease,
{
}

} // verus!
