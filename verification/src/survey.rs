//! A repository survey — the state plus the `git status` entries under
//! the scope — and the rules the git routes read from it: which files
//! the scope lists, in what order, and whether HEAD has the pipeline.
use vstd::prelude::*;
use crate::git::{in_scope, project_path, root_path, GitRefusal, Layout, Scope};
use crate::hunks::{change_view, change_views, node_line, node_lines, ChangeView, LineNode, NodeLine};
use crate::protocol::{
    ChangeKind, FileStatus, GitState, GitStatusResponse, NodeChange, Operation, PipelineGitStatus,
    RemovedNode, RevertResponse, ScopeFile,
};
use crate::status::{
    entry_view, entry_views, headers_view, info_from, is_in_head, is_known, is_unborn, status_of, texts, Entry,
    EntryKind, EntryView, Parsed,
};
use crate::text::{
    blank, is_white, lemma_text_less_irreflexive, lemma_text_less_total, lemma_text_less_transitive,
    same_text, text_before, text_less, white_space,
};

verus! {

// -------------------------------------------------------------- files --

/// A scope file as plain values.
pub struct ScopeFileView {
    pub path: Seq<char>,
    pub status: FileStatus,
    pub in_head: bool,
}

/// A scope file's plain values.
pub open spec fn scope_file_view(f: ScopeFile) -> ScopeFileView {
    ScopeFileView { path: f.path@, status: f.status, in_head: f.in_head }
}

/// The scope files' plain values.
pub open spec fn scope_file_views(fs: Seq<ScopeFile>) -> Seq<ScopeFileView> {
    fs.map_values(|f: ScopeFile| scope_file_view(f))
}

/// The scope file an entry stands for: not an ignored one, inside the
/// project, and in the scope; HEAD has it unless the branch is unborn.
pub open spec fn file_of_entry(scope: Scope, prefix: Seq<char>, unborn: bool, e: EntryView) -> Option<
    ScopeFileView,
> {
    if e.kind == EntryKind::Ignored {
        None
    } else {
        match project_path(prefix, e.path) {
            None => None,
            Some(p) => if in_scope(scope, p) {
                Some(
                    ScopeFileView {
                        path: p,
                        status: status_of(e.kind, e.x, e.y),
                        in_head: !unborn && is_in_head(e.kind, e.x),
                    },
                )
            } else {
                None
            },
        }
    }
}

/// The scope files the entries stand for, in entry order.
pub open spec fn scope_candidates(scope: Scope, prefix: Seq<char>, unborn: bool, entries: Seq<EntryView>) -> Seq<
    ScopeFileView,
>
    decreases entries.len(),
{
    if entries.len() == 0 {
        Seq::empty()
    } else {
        let before = scope_candidates(scope, prefix, unborn, entries.drop_last());
        match file_of_entry(scope, prefix, unborn, entries.last()) {
            Some(f) => before.push(f),
            None => before,
        }
    }
}

/// The first file of `files` with `path`.
pub open spec fn first_with(files: Seq<ScopeFileView>, path: Seq<char>) -> Option<ScopeFileView>
    decreases files.len(),
{
    if files.len() == 0 {
        None
    } else {
        match first_with(files.drop_last(), path) {
            Some(f) => Some(f),
            None => if files.last().path == path {
                Some(files.last())
            } else {
                None
            },
        }
    }
}

/// A first file is one of the files, with that path.
pub proof fn lemma_first_with_is_there(files: Seq<ScopeFileView>, path: Seq<char>)
    ensures
        first_with(files, path) matches Some(f) ==> f.path == path && exists|k: int|
            0 <= k < files.len() && files[k] == f,
        (exists|k: int| 0 <= k < files.len() && #[trigger] files[k].path == path) ==> first_with(
            files,
            path,
        ) is Some,
    decreases files.len(),
{
    if files.len() > 0 {
        lemma_first_with_is_there(files.drop_last(), path);
        if let Some(f) = first_with(files.drop_last(), path) {
            let k = choose|k: int| 0 <= k < files.drop_last().len() && files.drop_last()[k] == f;
            assert(files[k] == f);
        } else if files.last().path == path {
            assert(files[files.len() - 1] == files.last());
        } else {
            assert forall|k: int| 0 <= k < files.len() implies #[trigger] files[k].path != path by {
                if k < files.len() - 1 {
                    assert(files[k] == files.drop_last()[k]);
                }
            }
        }
    }
}

/// At most one optional value, as a sequence.
pub open spec fn opt_seq(v: Option<ScopeFileView>) -> Seq<ScopeFileView> {
    match v {
        Some(f) => seq![f],
        None => Seq::empty(),
    }
}

/// `files` ascend strictly by path.
pub open spec fn ascending(files: Seq<ScopeFileView>) -> bool {
    forall|i: int, j: int| 0 <= i < j < files.len() ==> text_less(#[trigger] files[i].path, #[trigger] files[j].path)
}

/// `scripts` lists, once each and ascending by path, the first file of
/// every path of `files` other than `pipeline` and `sidecar`.
pub open spec fn script_part(
    pipeline: Seq<char>,
    sidecar: Seq<char>,
    files: Seq<ScopeFileView>,
    scripts: Seq<ScopeFileView>,
) -> bool {
    &&& ascending(scripts)
    &&& forall|i: int|
        0 <= i < scripts.len() ==> (#[trigger] scripts[i]).path != pipeline && scripts[i].path != sidecar
            && first_with(files, scripts[i].path) == Some(scripts[i])
    &&& forall|k: int|
        0 <= k < files.len() && (#[trigger] files[k]).path != pipeline && files[k].path != sidecar
            ==> exists|i: int| 0 <= i < scripts.len() && scripts[i].path == files[k].path
}

/// Where a path goes among scripts: the first place whose path does not
/// sort before it.
pub open spec fn place(scripts: Seq<ScopeFileView>, path: Seq<char>) -> int
    decreases scripts.len(),
{
    if scripts.len() == 0 {
        0
    } else if !text_less(scripts[0].path, path) {
        0
    } else {
        1 + place(scripts.drop_first(), path)
    }
}

/// What `place` finds: everything before it sorts before the path, and
/// the script at it does not.
proof fn lemma_place(scripts: Seq<ScopeFileView>, path: Seq<char>)
    ensures
        0 <= place(scripts, path) <= scripts.len(),
        forall|i: int| 0 <= i < place(scripts, path) ==> text_less(#[trigger] scripts[i].path, path),
        place(scripts, path) < scripts.len() ==> !text_less(scripts[place(scripts, path)].path, path),
    decreases scripts.len(),
{
    if scripts.len() > 0 && text_less(scripts[0].path, path) {
        let rest = scripts.drop_first();
        lemma_place(rest, path);
        assert forall|i: int| 0 <= i < place(scripts, path) implies text_less(#[trigger] scripts[i].path, path) by {
            if i > 0 {
                assert(scripts[i] == rest[i - 1]);
            }
        }
        if place(scripts, path) < scripts.len() {
            assert(scripts[place(scripts, path)] == rest[place(rest, path)]);
        }
    }
}

/// The scripts after one more file of another path: kept as they are
/// when its path is listed, else inserted at its place.
pub open spec fn add_script(scripts: Seq<ScopeFileView>, f: ScopeFileView) -> Seq<ScopeFileView> {
    let at = place(scripts, f.path);
    if at < scripts.len() && scripts[at].path == f.path {
        scripts
    } else {
        scripts.insert(at, f)
    }
}

/// The script listing of `files`: every path other than the pipeline
/// and sidecar, ascending, with its first file.
pub open spec fn scripts_of(pipeline: Seq<char>, sidecar: Seq<char>, files: Seq<ScopeFileView>) -> Seq<
    ScopeFileView,
>
    decreases files.len(),
{
    if files.len() == 0 {
        Seq::empty()
    } else {
        let before = scripts_of(pipeline, sidecar, files.drop_last());
        let f = files.last();
        if f.path == pipeline || f.path == sidecar {
            before
        } else {
            add_script(before, f)
        }
    }
}

/// The dirty files of the scope as listed.
pub open spec fn scope_listing(scope: Scope, files: Seq<ScopeFileView>) -> Seq<ScopeFileView> {
    listing_head(scope, files) + scripts_of(scope.pipeline@, scope.sidecar@, files)
}

/// Where a script path goes among the scripts.
fn place_of(scripts: &Vec<ScopeFile>, path: &[char]) -> (at: usize)
    ensures
        at == place(scope_file_views(scripts@), path@),
{
    let ghost sv = scope_file_views(scripts@);
    let mut at: usize = 0;
    assert(sv.skip(0) =~= sv);
    while at < scripts.len()
        invariant
            0 <= at <= scripts@.len(),
            sv == scope_file_views(scripts@),
            place(sv, path@) == at + place(sv.skip(at as int), path@),
            forall|i: int| 0 <= i < at ==> text_less(#[trigger] sv[i].path, path@),
        decreases scripts@.len() - at,
    {
        assert(sv[at as int] == scope_file_view(scripts@[at as int]));
        assert(sv.skip(at as int)[0] == sv[at as int]);
        assert(sv.skip(at as int).drop_first() =~= sv.skip(at + 1));
        let here = crate::text::chars_of(scripts[at].path.as_str());
        if !text_before(here.as_slice(), path) {
            return at;
        }
        at += 1;
    }
    at
}

/// One more file leaves every earlier first file first.
proof fn lemma_first_with_push(files: Seq<ScopeFileView>, f: ScopeFileView, path: Seq<char>)
    ensures
        first_with(files.push(f), path) == match first_with(files, path) {
            Some(g) => Some(g),
            None => if f.path == path {
                Some(f)
            } else {
                None
            },
        },
{
    assert(files.push(f).drop_last() =~= files);
}

/// Inserting a new path at its place keeps the script listing exact.
proof fn lemma_insert_script(
    pipeline: Seq<char>,
    sidecar: Seq<char>,
    files: Seq<ScopeFileView>,
    scripts: Seq<ScopeFileView>,
    f: ScopeFileView,
    at: int,
)
    requires
        script_part(pipeline, sidecar, files, scripts),
        f.path != pipeline,
        f.path != sidecar,
        0 <= at <= scripts.len(),
        forall|i: int| 0 <= i < at ==> text_less(#[trigger] scripts[i].path, f.path),
        at < scripts.len() ==> !text_less(scripts[at].path, f.path) && scripts[at].path != f.path,
    ensures
        script_part(pipeline, sidecar, files.push(f), scripts.insert(at, f)),
{
    let after = scripts.insert(at, f);
    let more = files.push(f);
    if at < scripts.len() {
        lemma_text_less_total(scripts[at].path, f.path);
    }
    // No script has the new path.
    assert forall|i: int| 0 <= i < scripts.len() implies (#[trigger] scripts[i]).path != f.path by {
        if i < at {
            lemma_text_less_irreflexive(f.path);
        } else if i > at {
            lemma_text_less_transitive(f.path, scripts[at].path, scripts[i].path);
            lemma_text_less_irreflexive(f.path);
        }
    }
    // So no earlier file has it either.
    lemma_first_with_is_there(files, f.path);
    if first_with(files, f.path) is Some {
        let k = choose|k: int| 0 <= k < files.len() && files[k] == first_with(files, f.path)->0;
        assert(files[k].path == f.path);
        assert(exists|i: int| 0 <= i < scripts.len() && scripts[i].path == files[k].path);
    }
    lemma_first_with_push(files, f, f.path);
    assert forall|i: int, j: int| 0 <= i < j < after.len() implies text_less(
        #[trigger] after[i].path,
        #[trigger] after[j].path,
    ) by {
        if j < at {
            assert(after[i] == scripts[i] && after[j] == scripts[j]);
        } else if j == at {
            assert(after[i] == scripts[i]);
        } else if i < at {
            assert(after[i] == scripts[i] && after[j] == scripts[j - 1]);
            if j - 1 > at {
                lemma_text_less_transitive(f.path, scripts[at].path, scripts[j - 1].path);
            }
            lemma_text_less_transitive(scripts[i].path, f.path, scripts[j - 1].path);
        } else if i == at {
            assert(after[j] == scripts[j - 1]);
            if j - 1 > at {
                lemma_text_less_transitive(f.path, scripts[at].path, scripts[j - 1].path);
            }
        } else {
            assert(after[i] == scripts[i - 1] && after[j] == scripts[j - 1]);
        }
    }
    assert forall|i: int| 0 <= i < after.len() implies (#[trigger] after[i]).path != pipeline
        && after[i].path != sidecar && first_with(more, after[i].path) == Some(after[i]) by {
        if i < at {
            assert(after[i] == scripts[i]);
            lemma_first_with_push(files, f, scripts[i].path);
        } else if i > at {
            assert(after[i] == scripts[i - 1]);
            lemma_first_with_push(files, f, scripts[i - 1].path);
        }
    }
    assert forall|k: int|
        0 <= k < more.len() && (#[trigger] more[k]).path != pipeline && more[k].path != sidecar implies exists|i: int|
        0 <= i < after.len() && after[i].path == more[k].path by {
        if k < files.len() {
            assert(more[k] == files[k]);
            let i = choose|i: int| 0 <= i < scripts.len() && scripts[i].path == files[k].path;
            if i < at {
                assert(after[i] == scripts[i]);
            } else {
                assert(after[i + 1] == scripts[i]);
            }
        } else {
            assert(after[at] == f);
        }
    }
}

/// A path already listed keeps the script listing as it is.
proof fn lemma_keep_script(
    pipeline: Seq<char>,
    sidecar: Seq<char>,
    files: Seq<ScopeFileView>,
    scripts: Seq<ScopeFileView>,
    f: ScopeFileView,
    at: int,
)
    requires
        script_part(pipeline, sidecar, files, scripts),
        0 <= at < scripts.len(),
        scripts[at].path == f.path,
    ensures
        script_part(pipeline, sidecar, files.push(f), scripts),
{
    let more = files.push(f);
    assert forall|i: int| 0 <= i < scripts.len() implies (#[trigger] scripts[i]).path != pipeline
        && scripts[i].path != sidecar && first_with(more, scripts[i].path) == Some(scripts[i]) by {
        lemma_first_with_push(files, f, scripts[i].path);
    }
    assert forall|k: int|
        0 <= k < more.len() && (#[trigger] more[k]).path != pipeline && more[k].path != sidecar implies exists|i: int|
        0 <= i < scripts.len() && scripts[i].path == more[k].path by {
        if k < files.len() {
            assert(more[k] == files[k]);
        } else {
            assert(scripts[at].path == more[k].path);
        }
    }
}

/// An optional scope file's plain value.
pub open spec fn opt_file_view(f: Option<ScopeFile>) -> Option<ScopeFileView> {
    match f {
        Some(g) => Some(scope_file_view(g)),
        None => None,
    }
}

/// The scope file an entry stands for.
fn file_for(scope: &Scope, layout: &Layout, unborn: bool, e: &Entry) -> (file: Option<ScopeFile>)
    ensures
        opt_file_view(file) == file_of_entry(*scope, layout.prefix@, unborn, entry_view(*e)),
{
    if e.ignored() {
        return None;
    }
    match layout.to_project(e.path.as_str()) {
        None => None,
        Some(path) => if scope.contains(path.as_str()) {
            let status = e.file_status();
            let in_head = !unborn && e.in_head();
            Some(ScopeFile { path, status, in_head })
        } else {
            None
        },
    }
}

/// A state + status snapshot: the state, where the repository is (when
/// in one), whether its branch is unborn, and the status entries.
pub struct Survey {
    /// Where the project stands.
    pub state: GitState,
    /// Where the repository is; `None` outside one.
    pub layout: Option<Layout>,
    /// HEAD's branch has no commits yet.
    pub unborn: bool,
    /// The `git status` entries.
    pub entries: Vec<Entry>,
}

/// The listing's head: the pipeline's first file, then the sidecar's
/// (when it is another path).
pub open spec fn listing_head(scope: Scope, files: Seq<ScopeFileView>) -> Seq<ScopeFileView> {
    opt_seq(first_with(files, scope.pipeline@)) + if scope.sidecar@ == scope.pipeline@ {
        Seq::empty()
    } else {
        opt_seq(first_with(files, scope.sidecar@))
    }
}

/// The dirty files of the scope as listed: the pipeline's, then the
/// sidecar's, then the scripts' by path, each path once with its first
/// file.
pub open spec fn listed_in_order(scope: Scope, files: Seq<ScopeFileView>, listed: Seq<ScopeFileView>) -> bool {
    let head = listing_head(scope, files);
    &&& head.len() <= listed.len()
    &&& listed.take(head.len() as int) == head
    &&& script_part(scope.pipeline@, scope.sidecar@, files, listed.skip(head.len() as int))
}

impl Survey {
    /// The survey of a state that has no repository to look into.
    pub fn bare(state: GitState) -> (survey: Survey)
        ensures
            survey.state == state,
            survey.layout is None,
            !survey.unborn,
            survey.entries@.len() == 0,
    {
        Survey { state, layout: None, unborn: false, entries: Vec::new() }
    }

    /// The dirty files of the scope, project-relative: the pipeline, the
    /// sidecar, then the scripts by path, each path once (its first
    /// entry), each saying whether HEAD has it. Ignored files are left
    /// out; outside a repository there are none.
    pub fn scope_files(&self, scope: &Scope) -> (files: Vec<ScopeFile>)
        ensures
            match self.layout {
                None => files@.len() == 0,
                Some(layout) => scope_file_views(files@) == scope_listing(
                    *scope,
                    scope_candidates(*scope, layout.prefix@, self.unborn, entry_views(self.entries@)),
                ),
            },
    {
        let layout = match &self.layout {
            None => {
                return Vec::new();
            },
            Some(layout) => layout,
        };
        let ghost views = entry_views(self.entries@);
        let ghost prefix = layout.prefix@;
        let ghost p = scope.pipeline@;
        let ghost s = scope.sidecar@;
        let ghost mut files: Seq<ScopeFileView> = Seq::empty();
        let mut pipe: Option<ScopeFile> = None;
        let mut side: Option<ScopeFile> = None;
        let mut scripts: Vec<ScopeFile> = Vec::new();
        let mut k: usize = 0;
        assert(views.take(0) =~= Seq::<EntryView>::empty());
        assert(scope_file_views(scripts@) =~= Seq::<ScopeFileView>::empty());
        while k < self.entries.len()
            invariant
                0 <= k <= self.entries@.len(),
                views == entry_views(self.entries@),
                prefix == layout.prefix@,
                p == scope.pipeline@,
                s == scope.sidecar@,
                files == scope_candidates(*scope, prefix, self.unborn, views.take(k as int)),
                opt_file_view(pipe) == first_with(files, p),
                opt_file_view(side) == if s == p {
                    None
                } else {
                    first_with(files, s)
                },
                scope_file_views(scripts@) == scripts_of(p, s, files),
            decreases self.entries@.len() - k,
        {
            let e = &self.entries[k];
            assert(views[k as int] == entry_view(*e));
            assert(views.take(k + 1).drop_last() =~= views.take(k as int));
            assert(views.take(k + 1).last() == views[k as int]);
            let found = file_for(scope, layout, self.unborn, e);
            match found {
                None => {},
                Some(f) => {
                    let ghost fv = scope_file_view(f);
                    let ghost more = files.push(fv);
                    proof {
                        lemma_first_with_push(files, fv, p);
                        lemma_first_with_push(files, fv, s);
                        assert(more.drop_last() =~= files);
                        assert(more.last() == fv);
                    }
                    if same_text(f.path.as_str(), scope.pipeline.as_str()) {
                        if pipe.is_none() {
                            pipe = Some(f);
                        }
                    } else if same_text(f.path.as_str(), scope.sidecar.as_str()) {
                        if side.is_none() {
                            side = Some(f);
                        }
                    } else {
                        let path_chars = crate::text::chars_of(f.path.as_str());
                        let at = place_of(&scripts, path_chars.as_slice());
                        let ghost sv = scope_file_views(scripts@);
                        let present = at < scripts.len() && same_text(scripts[at].path.as_str(), f.path.as_str());
                        if at < scripts.len() {
                            assert(sv[at as int] == scope_file_view(scripts@[at as int]));
                        }
                        proof {
                            lemma_place(sv, fv.path);
                        }
                        if !present {
                            scripts.insert(at, f);
                            assert(scope_file_views(scripts@) =~= sv.insert(at as int, fv));
                        }
                    }
                    proof {
                        files = more;
                    }
                },
            }
            k += 1;
        }
        assert(views.take(self.entries@.len() as int) =~= views);
        let mut listed: Vec<ScopeFile> = Vec::new();
        match pipe {
            Some(f) => listed.push(f),
            None => {},
        }
        match side {
            Some(f) => listed.push(f),
            None => {},
        }
        let ghost head = scope_file_views(listed@);
        assert(head =~= listing_head(*scope, files));
        let ghost sv = scope_file_views(scripts@);
        listed.append(&mut scripts);
        assert(scope_file_views(listed@) =~= head + sv);
        listed
    }
}

/// The script listing of `files` is exact: ascending, each path once
/// with its first file, every other path there.
proof fn lemma_scripts_of_part(pipeline: Seq<char>, sidecar: Seq<char>, files: Seq<ScopeFileView>)
    ensures
        script_part(pipeline, sidecar, files, scripts_of(pipeline, sidecar, files)),
    decreases files.len(),
{
    if files.len() > 0 {
        let rest = files.drop_last();
        let f = files.last();
        lemma_scripts_of_part(pipeline, sidecar, rest);
        let before = scripts_of(pipeline, sidecar, rest);
        assert(rest.push(f) =~= files);
        if f.path == pipeline || f.path == sidecar {
            lemma_keep_or_skip(pipeline, sidecar, rest, before, f);
        } else {
            lemma_place(before, f.path);
            let at = place(before, f.path);
            if at < before.len() && before[at].path == f.path {
                lemma_keep_script(pipeline, sidecar, rest, before, f, at);
            } else {
                lemma_insert_script(pipeline, sidecar, rest, before, f, at);
            }
        }
    }
}

/// The listing of the scope's dirty files is in order: the pipeline's
/// first file, then the sidecar's, then the other paths ascending, each
/// once with its first file, and none missing.
pub proof fn lemma_scope_listing_in_order(scope: Scope, files: Seq<ScopeFileView>)
    ensures
        listed_in_order(scope, files, scope_listing(scope, files)),
{
    lemma_scripts_of_part(scope.pipeline@, scope.sidecar@, files);
    let head = listing_head(scope, files);
    let listing = scope_listing(scope, files);
    assert(listing.take(head.len() as int) =~= head);
    assert(listing.skip(head.len() as int) =~= scripts_of(scope.pipeline@, scope.sidecar@, files));
}

/// A file of the pipeline or sidecar path leaves the script listing
/// exact.
proof fn lemma_keep_or_skip(
    pipeline: Seq<char>,
    sidecar: Seq<char>,
    files: Seq<ScopeFileView>,
    scripts: Seq<ScopeFileView>,
    f: ScopeFileView,
)
    requires
        script_part(pipeline, sidecar, files, scripts),
        f.path == pipeline || f.path == sidecar,
    ensures
        script_part(pipeline, sidecar, files.push(f), scripts),
{
    let more = files.push(f);
    assert forall|i: int| 0 <= i < scripts.len() implies (#[trigger] scripts[i]).path != pipeline
        && scripts[i].path != sidecar && first_with(more, scripts[i].path) == Some(scripts[i]) by {
        lemma_first_with_push(files, f, scripts[i].path);
    }
    assert forall|k: int|
        0 <= k < more.len() && (#[trigger] more[k]).path != pipeline && more[k].path != sidecar implies exists|i: int|
        0 <= i < scripts.len() && scripts[i].path == more[k].path by {
        assert(k < files.len());
        assert(more[k] == files[k]);
    }
}


// ----------------------------------------------------------- the state --

/// The refusal a state means for a write (`None`: go ahead): locked, not
/// a repository, no git, or a merge/rebase/cherry-pick/revert the shell
/// has not finished.
pub open spec fn state_refusal(state: GitState, in_repo: bool) -> Option<GitRefusal> {
    match state {
        GitState::Repo(info) => if in_repo {
            match info.operation {
                Some(op) => Some(GitRefusal::OperationInProgress(op)),
                None => None,
            }
        } else {
            Some(GitRefusal::NotARepo)
        },
        GitState::Locked(_) => Some(GitRefusal::Locked),
        GitState::GitNotFound => Some(GitRefusal::GitNotFound),
        GitState::NotARepo => Some(GitRefusal::NotARepo),
    }
}

/// The first entry for `path`.
pub open spec fn entry_named(entries: Seq<EntryView>, path: Seq<char>) -> Option<EntryView>
    decreases entries.len(),
{
    if entries.len() == 0 {
        None
    } else if entries[0].path == path {
        Some(entries[0])
    } else {
        entry_named(entries.drop_first(), path)
    }
}

/// The prefix of a survey's layout, when it has one.
pub open spec fn prefix_of(layout: Option<Layout>) -> Option<Seq<char>> {
    match layout {
        Some(l) => Some(l.prefix@),
        None => None,
    }
}

/// HEAD has a version of the pipeline: in a repository, not on an unborn
/// branch, and either clean (no entry) or an entry that is in HEAD.
pub open spec fn head_has_pipeline(
    scope: Scope,
    prefix: Option<Seq<char>>,
    unborn: bool,
    entries: Seq<EntryView>,
) -> bool {
    match prefix {
        None => false,
        Some(p) => !unborn && match entry_named(entries, root_path(p, scope.pipeline@)) {
            None => true,
            Some(e) => is_in_head(e.kind, e.x),
        },
    }
}

/// The optional entry's plain value.
pub open spec fn opt_entry_view(e: Option<&Entry>) -> Option<EntryView> {
    match e {
        Some(x) => Some(entry_view(*x)),
        None => None,
    }
}

impl Survey {
    /// The survey of a repository from its `git status`: `Locked` when
    /// another git process holds the index lock, else `Repo`, with the
    /// facts the headers give.
    pub fn of_status(layout: Layout, parsed: Parsed, locked: bool, operation: Option<Operation>) -> (survey:
        Survey)
        ensures
            match survey.state {
                GitState::Repo(info) => !locked && info_from(
                    info,
                    headers_view(parsed.headers),
                    layout.root@,
                    layout.prefix@,
                    operation,
                ),
                GitState::Locked(info) => locked && info_from(
                    info,
                    headers_view(parsed.headers),
                    layout.root@,
                    layout.prefix@,
                    operation,
                ),
                _ => false,
            },
            survey.layout == Some(layout),
            survey.unborn == is_unborn(headers_view(parsed.headers)),
            survey.entries@ == parsed.entries@,
    {
        let info = parsed.headers.info(&layout, operation);
        let unborn = parsed.headers.unborn();
        let state = if locked {
            GitState::Locked(info)
        } else {
            GitState::Repo(info)
        };
        Survey { state, layout: Some(layout), unborn, entries: parsed.entries }
    }

    /// The layout, or the refusal the state means for a write.
    pub fn repo_or_refuse(&self) -> (layout: Result<&Layout, GitRefusal>)
        ensures
            match layout {
                Ok(l) => state_refusal(self.state, self.layout is Some) is None && self.layout == Some(*l),
                Err(r) => state_refusal(self.state, self.layout is Some) == Some(r),
            },
    {
        match &self.state {
            GitState::Repo(info) => match &self.layout {
                Some(layout) => match info.operation {
                    Some(operation) => Err(GitRefusal::OperationInProgress(operation)),
                    None => Ok(layout),
                },
                None => Err(GitRefusal::NotARepo),
            },
            GitState::Locked(_) => Err(GitRefusal::Locked),
            GitState::GitNotFound => Err(GitRefusal::GitNotFound),
            GitState::NotARepo => Err(GitRefusal::NotARepo),
        }
    }

    /// The first entry for a root-relative path.
    pub fn entry_for(&self, root_relative: &str) -> (entry: Option<&Entry>)
        ensures
            opt_entry_view(entry) == entry_named(entry_views(self.entries@), root_relative@),
    {
        let ghost views = entry_views(self.entries@);
        let mut k: usize = 0;
        assert(views.skip(0) =~= views);
        while k < self.entries.len()
            invariant
                0 <= k <= self.entries@.len(),
                views == entry_views(self.entries@),
                entry_named(views, root_relative@) == entry_named(views.skip(k as int), root_relative@),
            decreases self.entries@.len() - k,
        {
            assert(views[k as int] == entry_view(self.entries@[k as int]));
            assert(views.skip(k as int)[0] == views[k as int]);
            assert(views.skip(k as int).drop_first() =~= views.skip(k + 1));
            if same_text(self.entries[k].path.as_str(), root_relative) {
                return Some(&self.entries[k]);
            }
            k += 1;
        }
        None
    }

    /// HEAD has a version of the pipeline.
    pub fn pipeline_in_head(&self, scope: &Scope) -> (in_head: bool)
        ensures
            in_head == head_has_pipeline(
                *scope,
                prefix_of(self.layout),
                self.unborn,
                entry_views(self.entries@),
            ),
    {
        let layout = match &self.layout {
            None => {
                return false;
            },
            Some(layout) => layout,
        };
        if self.unborn {
            return false;
        }
        let root = layout.to_root(scope.pipeline.as_str());
        match self.entry_for(root.as_str()) {
            None => true,
            Some(e) => e.in_head(),
        }
    }
}

// ------------------------------------------------------------- commit --

/// A commit message with nothing but white space — refused before git
/// is asked anything.
pub fn is_blank(message: &str) -> (empty: bool)
    ensures
        empty == blank(message@),
{
    let chars = crate::text::chars_of(message);
    let mut i: usize = 0;
    while i < chars.len()
        invariant
            0 <= i <= chars@.len(),
            chars@ == message@,
            forall|j: int| 0 <= j < i ==> white_space(#[trigger] chars@[j]),
        decreases chars@.len() - i,
    {
        if !is_white(chars[i]) {
            return false;
        }
        i += 1;
    }
    true
}

/// The scope files of a survey's repository.
pub open spec fn dirty_listing(scope: Scope, prefix: Seq<char>, unborn: bool, entries: Seq<EntryView>) -> Seq<
    ScopeFileView,
> {
    scope_listing(scope, scope_candidates(scope, prefix, unborn, entries))
}

/// Why a commit of the scope is refused, if it is: the state's refusal,
/// an ignored pipeline, or nothing dirty in the scope.
pub open spec fn commit_refusal(
    scope: Scope,
    state: GitState,
    prefix: Option<Seq<char>>,
    unborn: bool,
    entries: Seq<EntryView>,
) -> Option<GitRefusal> {
    match state_refusal(state, prefix is Some) {
        Some(r) => Some(r),
        None => {
            let p = prefix->0;
            if entry_named(entries, root_path(p, scope.pipeline@)) matches Some(e) && e.kind
                == EntryKind::Ignored {
                Some(GitRefusal::Ignored(scope.pipeline))
            } else if dirty_listing(scope, p, unborn, entries).len() == 0 {
                Some(GitRefusal::NothingToCommit)
            } else {
                None
            }
        },
    }
}

impl Survey {
    /// The files a commit of the scope stages and commits (the scope's
    /// dirty files, in listing order), or why there is no commit to make.
    pub fn commit_files(&self, scope: &Scope) -> (files: Result<Vec<ScopeFile>, GitRefusal>)
        ensures
            match files {
                Ok(fs) => commit_refusal(
                    *scope,
                    self.state,
                    prefix_of(self.layout),
                    self.unborn,
                    entry_views(self.entries@),
                ) is None && scope_file_views(fs@) == dirty_listing(
                    *scope,
                    self.layout->0.prefix@,
                    self.unborn,
                    entry_views(self.entries@),
                ),
                Err(r) => commit_refusal(
                    *scope,
                    self.state,
                    prefix_of(self.layout),
                    self.unborn,
                    entry_views(self.entries@),
                ) == Some(r),
            },
    {
        let layout = self.repo_or_refuse()?;
        let root = layout.to_root(scope.pipeline.as_str());
        match self.entry_for(root.as_str()) {
            Some(e) => if e.ignored() {
                return Err(GitRefusal::Ignored(scope.pipeline.clone()));
            },
            None => {},
        }
        let files = self.scope_files(scope);
        if files.len() == 0 {
            return Err(GitRefusal::NothingToCommit);
        }
        Ok(files)
    }
}

// ------------------------------------------------------------- revert --

/// Why a path is outside what a revert may restore.
pub open spec fn revert_why(scope: Scope) -> Seq<char> {
    "a revert may restore this pipeline (`"@ + scope.pipeline@ + "`), its sidecar (`"@ + scope.sidecar@
        + "`), or a script beside it (`"@ + scope.scripts_dir@ + "/<name>.py`) — nothing else"@
}

/// The first requested path outside the scope.
pub open spec fn first_outside(scope: Scope, requested: Seq<Seq<char>>) -> Option<int>
    decreases requested.len(),
{
    if requested.len() == 0 {
        None
    } else {
        match first_outside(scope, requested.drop_last()) {
            Some(k) => Some(k),
            None => if !in_scope(scope, requested.last()) {
                Some(requested.len() - 1)
            } else {
                None
            },
        }
    }
}

/// Check the paths a revert asks for: each must be one of the scope's
/// files; the first that is not is refused `path_not_allowed`.
pub fn check_revert_paths(scope: &Scope, paths: Option<&[String]>) -> (checked: Result<(), GitRefusal>)
    ensures
        match paths {
            None => checked is Ok,
            Some(req) => match first_outside(*scope, texts(req@)) {
                None => checked is Ok,
                Some(k) => checked matches Err(GitRefusal::PathNotAllowed { path, why }) && path@ == req@[k]@
                    && why@ == revert_why(*scope),
            },
        },
{
    let requested = match paths {
        None => {
            return Ok(());
        },
        Some(requested) => requested,
    };
    let ghost all = texts(requested@);
    let mut k: usize = 0;
    while k < requested.len()
        invariant
            0 <= k <= requested@.len(),
            paths == Some(requested),
            all == texts(requested@),
            first_outside(*scope, all.take(k as int)) is None,
        decreases requested@.len() - k,
    {
        assert(all[k as int] == requested@[k as int]@);
        assert(all.take(k + 1).drop_last() =~= all.take(k as int));
        if !scope.contains(requested[k].as_str()) {
            let mut why = "a revert may restore this pipeline (`".to_owned();
            why.append(scope.pipeline.as_str());
            why.append("`), its sidecar (`");
            why.append(scope.sidecar.as_str());
            why.append("`), or a script beside it (`");
            why.append(scope.scripts_dir.as_str());
            why.append("/<name>.py`) — nothing else");
            proof {
                assert(all.take(k + 1).last() == all[k as int]);
                assert(first_outside(*scope, all.take(k + 1)) == Some(k as int));
                lemma_first_outside_prefix(*scope, all, (k + 1) as nat);
            }
            return Err(GitRefusal::PathNotAllowed { path: requested[k].clone(), why });
        }
        k += 1;
    }
    assert(all.take(requested@.len() as int) =~= all);
    Ok(())
}

/// A first offender in a prefix is the first offender overall.
proof fn lemma_first_outside_prefix(scope: Scope, requested: Seq<Seq<char>>, n: nat)
    requires
        n <= requested.len(),
        first_outside(scope, requested.take(n as int)) is Some,
    ensures
        first_outside(scope, requested) == first_outside(scope, requested.take(n as int)),
    decreases requested.len() - n,
{
    if n < requested.len() {
        assert(requested.take(n + 1int).drop_last() =~= requested.take(n as int));
        lemma_first_outside_prefix(scope, requested, n + 1);
    } else {
        assert(requested.take(n as int) =~= requested);
    }
}

/// What a revert does: restores the paths of `reverted`, leaves those of
/// `untracked` alone.
#[derive(Debug, Clone, PartialEq, Eq)]
pub struct Reverted {
    /// Restored to HEAD (project-relative).
    pub reverted: Vec<String>,
    /// Dirty, no HEAD version, left alone.
    pub untracked: Vec<String>,
    /// A `scripts/*.py` was restored — the reload must rescan scripts.
    pub touched_scripts: bool,
}

impl Reverted {
    /// The response once the session has (or has not needed to) reload.
    pub fn into_response(self, reloaded: bool) -> (response: RevertResponse)
        ensures
            response.reverted@ == self.reverted@,
            response.untracked@ == self.untracked@,
            response.reloaded == reloaded,
    {
        RevertResponse { reverted: self.reverted, untracked: self.untracked, reloaded }
    }
}

/// `requested` (when given) asks for `path`.
pub open spec fn wanted(requested: Option<Seq<Seq<char>>>, path: Seq<char>) -> bool {
    match requested {
        None => true,
        Some(req) => req.contains(path),
    }
}

/// The wanted dirty paths with a HEAD version (restored) and without one
/// (left alone), each in listing order.
pub open spec fn revert_split(dirty: Seq<ScopeFileView>, requested: Option<Seq<Seq<char>>>) -> (
    Seq<Seq<char>>,
    Seq<Seq<char>>,
)
    decreases dirty.len(),
{
    if dirty.len() == 0 {
        (Seq::empty(), Seq::empty())
    } else {
        let (restore, keep) = revert_split(dirty.drop_last(), requested);
        let f = dirty.last();
        if !wanted(requested, f.path) {
            (restore, keep)
        } else if f.in_head {
            (restore.push(f.path), keep)
        } else {
            (restore, keep.push(f.path))
        }
    }
}

/// What a revert of the scope comes to.
pub enum RevertOutcome {
    /// The state, or a pipeline with no HEAD version, refuses it.
    Refused(GitRefusal),
    /// A requested path has no HEAD version: reverting would delete it.
    NoHeadVersion(Seq<char>),
    /// Nothing wanted has a HEAD version.
    NothingToRevert,
    /// Restore these, leave those; a script is among the restored.
    Restore { reverted: Seq<Seq<char>>, untracked: Seq<Seq<char>>, touched_scripts: bool },
}

/// A restored path that is neither the pipeline nor its sidecar.
pub open spec fn touches_scripts(scope: Scope, restored: Seq<Seq<char>>) -> bool {
    exists|i: int|
        0 <= i < restored.len() && #[trigger] restored[i] != scope.pipeline@ && restored[i] != scope.sidecar@
}

/// What a revert of the scope (or of the `requested` part of it) comes
/// to: the state's refusal; `untracked` for a pipeline HEAD has no
/// version of; `untracked` for a requested path without one (the first);
/// nothing to revert; else what to restore and what to leave.
pub open spec fn revert_outcome(
    scope: Scope,
    state: GitState,
    prefix: Option<Seq<char>>,
    unborn: bool,
    entries: Seq<EntryView>,
    requested: Option<Seq<Seq<char>>>,
) -> RevertOutcome {
    match state_refusal(state, prefix is Some) {
        Some(r) => RevertOutcome::Refused(r),
        None => if !head_has_pipeline(scope, prefix, unborn, entries) {
            RevertOutcome::Refused(GitRefusal::Untracked(scope.pipeline))
        } else {
            let (restore, keep) = revert_split(dirty_listing(scope, prefix->0, unborn, entries), requested);
            if requested is Some && keep.len() > 0 {
                RevertOutcome::NoHeadVersion(keep[0])
            } else if restore.len() == 0 {
                RevertOutcome::NothingToRevert
            } else {
                RevertOutcome::Restore {
                    reverted: restore,
                    untracked: keep,
                    touched_scripts: touches_scripts(scope, restore),
                }
            }
        },
    }
}

/// The requested paths, as plain values.
pub open spec fn requested_texts(paths: Option<&[String]>) -> Option<Seq<Seq<char>>> {
    match paths {
        Some(req) => Some(texts(req@)),
        None => None,
    }
}

/// Does `requested` ask for `path`?
fn asks_for(requested: &[String], path: &str) -> (asked: bool)
    ensures
        asked == texts(requested@).contains(path@),
{
    let ghost all = texts(requested@);
    let mut k: usize = 0;
    while k < requested.len()
        invariant
            0 <= k <= requested@.len(),
            all == texts(requested@),
            forall|m: int| 0 <= m < k ==> all[m] != path@,
        decreases requested@.len() - k,
    {
        assert(all[k as int] == requested@[k as int]@);
        if same_text(requested[k].as_str(), path) {
            return true;
        }
        k += 1;
    }
    false
}

impl Survey {
    /// What a revert of the scope restores: the dirty scope files that
    /// have a HEAD version (`paths` narrows the set). Files without one —
    /// untracked, index-only — are never deleted: a requested one is
    /// refused `untracked` (every wanted path is requested, so the first
    /// such file is the one refused); implicitly they are reported and
    /// left alone.
    pub fn revert_plan(&self, scope: &Scope, paths: Option<&[String]>) -> (plan: Result<Reverted, GitRefusal>)
        ensures
            match revert_outcome(
                *scope,
                self.state,
                prefix_of(self.layout),
                self.unborn,
                entry_views(self.entries@),
                requested_texts(paths),
            ) {
                RevertOutcome::Refused(r) => plan == Err::<Reverted, GitRefusal>(r),
                RevertOutcome::NoHeadVersion(p) => plan matches Err(GitRefusal::Untracked(q)) && q@ == p,
                RevertOutcome::NothingToRevert => plan matches Err(GitRefusal::NothingToRevert),
                RevertOutcome::Restore { reverted, untracked, touched_scripts } => plan matches Ok(r) && texts(
                    r.reverted@,
                ) == reverted && texts(r.untracked@) == untracked && r.touched_scripts == touched_scripts,
            },
    {
        let layout = self.repo_or_refuse()?;
        if !self.pipeline_in_head(scope) {
            return Err(GitRefusal::Untracked(scope.pipeline.clone()));
        }
        let dirty = self.scope_files(scope);
        let ghost dv = scope_file_views(dirty@);
        let ghost req = requested_texts(paths);
        let mut restore: Vec<String> = Vec::new();
        let mut untracked: Vec<String> = Vec::new();
        let mut touched = false;
        let mut k: usize = 0;
        assert(dv.take(0) =~= Seq::<ScopeFileView>::empty());
        assert(texts(restore@) =~= Seq::<Seq<char>>::empty());
        assert(texts(untracked@) =~= Seq::<Seq<char>>::empty());
        while k < dirty.len()
            invariant
                0 <= k <= dirty@.len(),
                dv == scope_file_views(dirty@),
                req == requested_texts(paths),
                (texts(restore@), texts(untracked@)) == revert_split(dv.take(k as int), req),
                touched == touches_scripts(*scope, texts(restore@)),
            decreases dirty@.len() - k,
        {
            let file = &dirty[k];
            assert(dv[k as int] == scope_file_view(*file));
            assert(dv.take(k + 1).drop_last() =~= dv.take(k as int));
            assert(dv.take(k + 1).last() == dv[k as int]);
            let want = match paths {
                None => true,
                Some(requested) => asks_for(requested, file.path.as_str()),
            };
            if want {
                if file.in_head {
                    let ghost before = texts(restore@);
                    let script = !same_text(file.path.as_str(), scope.pipeline.as_str()) && !same_text(
                        file.path.as_str(),
                        scope.sidecar.as_str(),
                    );
                    restore.push(file.path.clone());
                    assert(texts(restore@) =~= before.push(file.path@));
                    proof {
                        let after = texts(restore@);
                        if script {
                            assert(after[after.len() - 1] == file.path@);
                        }
                        if touches_scripts(*scope, before) {
                            let i = choose|i: int|
                                0 <= i < before.len() && #[trigger] before[i] != scope.pipeline@ && before[i]
                                    != scope.sidecar@;
                            assert(after[i] == before[i]);
                        }
                        if touches_scripts(*scope, after) && !script {
                            let i = choose|i: int|
                                0 <= i < after.len() && #[trigger] after[i] != scope.pipeline@ && after[i]
                                    != scope.sidecar@;
                            assert(i < before.len());
                            assert(before[i] == after[i]);
                        }
                    }
                    touched = touched || script;
                } else {
                    let ghost before = texts(untracked@);
                    untracked.push(file.path.clone());
                    assert(texts(untracked@) =~= before.push(file.path@));
                }
            }
            k += 1;
        }
        assert(dv.take(dirty@.len() as int) =~= dv);
        if paths.is_some() && untracked.len() > 0 {
            assert(texts(untracked@)[0] == untracked@[0]@);
            return Err(GitRefusal::Untracked(untracked[0].clone()));
        }
        if restore.len() == 0 {
            return Err(GitRefusal::NothingToRevert);
        }
        Ok(Reverted { reverted: restore, untracked, touched_scripts: touched })
    }
}


// --------------------------------------------------------------- laws --

/// Each candidate is a scope path, and HEAD has none on an unborn branch.
proof fn lemma_candidates_in_scope(scope: Scope, prefix: Seq<char>, unborn: bool, entries: Seq<EntryView>)
    ensures
        forall|k: int|
            0 <= k < scope_candidates(scope, prefix, unborn, entries).len() ==> in_scope(
                scope,
                (#[trigger] scope_candidates(scope, prefix, unborn, entries)[k]).path,
            ) && (scope_candidates(scope, prefix, unborn, entries)[k].in_head ==> !unborn),
    decreases entries.len(),
{
    if entries.len() > 0 {
        lemma_candidates_in_scope(scope, prefix, unborn, entries.drop_last());
    }
}

/// Each listed file is one of the files.
proof fn lemma_listing_from_files(scope: Scope, files: Seq<ScopeFileView>)
    ensures
        forall|i: int|
            0 <= i < scope_listing(scope, files).len() ==> exists|k: int|
                0 <= k < files.len() && files[k] == #[trigger] scope_listing(scope, files)[i],
{
    lemma_scripts_of_part(scope.pipeline@, scope.sidecar@, files);
    lemma_first_with_is_there(files, scope.pipeline@);
    lemma_first_with_is_there(files, scope.sidecar@);
    let head = listing_head(scope, files);
    let scripts = scripts_of(scope.pipeline@, scope.sidecar@, files);
    let listing = scope_listing(scope, files);
    assert forall|i: int| 0 <= i < listing.len() implies exists|k: int|
        0 <= k < files.len() && files[k] == #[trigger] listing[i] by {
        if i < head.len() {
            assert(listing[i] == head[i]);
        } else {
            assert(listing[i] == scripts[i - head.len()]);
            let s = scripts[i - head.len()];
            lemma_first_with_is_there(files, s.path);
        }
    }
}

/// `path` is a wanted dirty file whose HEAD version is (or is not) there.
pub open spec fn listed_with(
    dirty: Seq<ScopeFileView>,
    requested: Option<Seq<Seq<char>>>,
    path: Seq<char>,
    in_head: bool,
) -> bool {
    exists|k: int|
        0 <= k < dirty.len() && dirty[k].path == path && dirty[k].in_head == in_head && wanted(
            requested,
            path,
        )
}

/// Each restored path is a wanted dirty file with a HEAD version; each
/// left one a wanted dirty file without.
proof fn lemma_revert_split_from(dirty: Seq<ScopeFileView>, requested: Option<Seq<Seq<char>>>)
    ensures
        forall|i: int|
            0 <= i < revert_split(dirty, requested).0.len() ==> listed_with(
                dirty,
                requested,
                #[trigger] revert_split(dirty, requested).0[i],
                true,
            ),
        forall|i: int|
            0 <= i < revert_split(dirty, requested).1.len() ==> listed_with(
                dirty,
                requested,
                #[trigger] revert_split(dirty, requested).1[i],
                false,
            ),
    decreases dirty.len(),
{
    if dirty.len() > 0 {
        let rest = dirty.drop_last();
        lemma_revert_split_from(rest, requested);
        let r0 = revert_split(rest, requested).0;
        let k0 = revert_split(rest, requested).1;
        let r1 = revert_split(dirty, requested).0;
        let k1 = revert_split(dirty, requested).1;
        let f = dirty.last();
        assert(dirty[dirty.len() - 1] == f);
        if !wanted(requested, f.path) {
            assert(r1 == r0 && k1 == k0);
        } else if f.in_head {
            assert(r1 == r0.push(f.path) && k1 == k0);
        } else {
            assert(r1 == r0 && k1 == k0.push(f.path));
        }
        assert forall|p: Seq<char>, h: bool| #[trigger] listed_with(rest, requested, p, h) implies listed_with(
            dirty,
            requested,
            p,
            h,
        ) by {
            let k = choose|k: int|
                0 <= k < rest.len() && rest[k].path == p && rest[k].in_head == h && wanted(requested, p);
            assert(dirty[k] == rest[k]);
        }
        assert forall|i: int| 0 <= i < r1.len() implies listed_with(dirty, requested, #[trigger] r1[i], true) by {
            if i < r0.len() {
                assert(r1[i] == r0[i]);
                assert(listed_with(rest, requested, r0[i], true));
            }
        }
        assert forall|i: int| 0 <= i < k1.len() implies listed_with(dirty, requested, #[trigger] k1[i], false) by {
            if i < k0.len() {
                assert(k1[i] == k0[i]);
                assert(listed_with(rest, requested, k0[i], false));
            }
        }
    }
}

/// A revert never touches a file without a HEAD version, nor one outside
/// the scope, nor one not asked for: every restored path is a wanted
/// dirty scope file that HEAD has (on a branch with commits).
pub proof fn lemma_revert_restores_only_head_versions(
    scope: Scope,
    state: GitState,
    prefix: Option<Seq<char>>,
    unborn: bool,
    entries: Seq<EntryView>,
    requested: Option<Seq<Seq<char>>>,
)
    ensures
        revert_outcome(scope, state, prefix, unborn, entries, requested) matches RevertOutcome::Restore {
            reverted,
            ..
        } ==> !unborn && forall|i: int|
            0 <= i < reverted.len() ==> in_scope(scope, #[trigger] reverted[i]) && wanted(requested, reverted[i])
                && exists|k: int|
                0 <= k < dirty_listing(scope, prefix->0, unborn, entries).len() && dirty_listing(
                    scope,
                    prefix->0,
                    unborn,
                    entries,
                )[k].path == reverted[i] && dirty_listing(scope, prefix->0, unborn, entries)[k].in_head,
{
    if revert_outcome(scope, state, prefix, unborn, entries, requested) is Restore {
        let p = prefix->0;
        let files = scope_candidates(scope, p, unborn, entries);
        let dirty = dirty_listing(scope, p, unborn, entries);
        let (restore, keep) = revert_split(dirty, requested);
        lemma_revert_split_from(dirty, requested);
        lemma_listing_from_files(scope, files);
        lemma_candidates_in_scope(scope, p, unborn, entries);
        assert(revert_outcome(scope, state, prefix, unborn, entries, requested) == RevertOutcome::Restore {
            reverted: restore,
            untracked: keep,
            touched_scripts: touches_scripts(scope, restore),
        });
        assert(restore.len() > 0);
        assert(listed_with(dirty, requested, restore[0], true));
        let k0 = choose|k: int|
            0 <= k < dirty.len() && dirty[k].path == restore[0] && dirty[k].in_head == true && wanted(
                requested,
                restore[0],
            );
        let m0 = choose|m: int| 0 <= m < files.len() && files[m] == #[trigger] dirty[k0];
        assert(files[m0].in_head);
        assert forall|i: int| 0 <= i < restore.len() implies in_scope(scope, #[trigger] restore[i]) && wanted(
            requested,
            restore[i],
        ) by {
            assert(listed_with(dirty, requested, restore[i], true));
            let k = choose|k: int|
                0 <= k < dirty.len() && dirty[k].path == restore[i] && dirty[k].in_head == true && wanted(
                    requested,
                    restore[i],
                );
            let m = choose|m: int| 0 <= m < files.len() && files[m] == #[trigger] dirty[k];
            assert(in_scope(scope, files[m].path));
        }
    }
}

/// The paths of the listed files that have a HEAD version, in order.
pub open spec fn revertable(dirty: Seq<ScopeFileView>) -> Seq<Seq<char>>
    decreases dirty.len(),
{
    if dirty.len() == 0 {
        Seq::empty()
    } else if dirty.last().in_head {
        revertable(dirty.drop_last()).push(dirty.last().path)
    } else {
        revertable(dirty.drop_last())
    }
}

proof fn lemma_split_all_is_revertable(dirty: Seq<ScopeFileView>)
    ensures
        revert_split(dirty, None).0 == revertable(dirty),
    decreases dirty.len(),
{
    if dirty.len() > 0 {
        lemma_split_all_is_revertable(dirty.drop_last());
    }
}

/// What the status lists as revertable is exactly what a whole-scope
/// revert restores: the listed dirty files that HEAD has, in listing
/// order (and nothing to revert when there are none).
pub proof fn lemma_whole_revert_restores_what_status_lists(
    scope: Scope,
    state: GitState,
    prefix: Option<Seq<char>>,
    unborn: bool,
    entries: Seq<EntryView>,
)
    requires
        state_refusal(state, prefix is Some) is None,
        head_has_pipeline(scope, prefix, unborn, entries),
    ensures
        revertable(dirty_listing(scope, prefix->0, unborn, entries)).len() == 0 ==> revert_outcome(
            scope,
            state,
            prefix,
            unborn,
            entries,
            None,
        ) is NothingToRevert,
        revertable(dirty_listing(scope, prefix->0, unborn, entries)).len() > 0 ==> (revert_outcome(
            scope,
            state,
            prefix,
            unborn,
            entries,
            None,
        ) matches RevertOutcome::Restore { reverted, .. } && reverted == revertable(
            dirty_listing(scope, prefix->0, unborn, entries),
        )),
{
    lemma_split_all_is_revertable(dirty_listing(scope, prefix->0, unborn, entries));
}

/// A commit stages exactly the dirty scope files the status lists; a
/// scope with none is refused `nothing_to_commit` (in a repository that
/// can take a commit, with a pipeline that is not ignored).
pub proof fn lemma_commit_takes_the_listing(
    scope: Scope,
    state: GitState,
    prefix: Option<Seq<char>>,
    unborn: bool,
    entries: Seq<EntryView>,
)
    requires
        state_refusal(state, prefix is Some) is None,
        !(entry_named(entries, root_path(prefix->0, scope.pipeline@)) matches Some(e) && e.kind
            == EntryKind::Ignored),
    ensures
        commit_refusal(scope, state, prefix, unborn, entries) is None <==> scope_candidates(
            scope,
            prefix->0,
            unborn,
            entries,
        ).len() > 0,
{
    let files = scope_candidates(scope, prefix->0, unborn, entries);
    let listing = scope_listing(scope, files);
    lemma_listing_from_files(scope, files);
    lemma_scripts_of_part(scope.pipeline@, scope.sidecar@, files);
    lemma_first_with_is_there(files, scope.pipeline@);
    lemma_first_with_is_there(files, scope.sidecar@);
    if files.len() > 0 {
        let f = files[0];
        if f.path == scope.pipeline@ {
            assert(listing_head(scope, files).len() > 0);
        } else if f.path == scope.sidecar@ {
            assert(listing_head(scope, files).len() > 0);
        } else {
            let scripts = scripts_of(scope.pipeline@, scope.sidecar@, files);
            assert(exists|i: int| 0 <= i < scripts.len() && scripts[i].path == files[0].path);
        }
    } else {
        if listing.len() > 0 {
            assert(exists|k: int| 0 <= k < files.len() && files[k] == #[trigger] listing[0]);
        }
    }
}


// ------------------------------------------------------------- status --

/// What blake3 makes of `bytes`: its 32-byte digest.
pub uninterp spec fn blake3_digest(bytes: Seq<u8>) -> Seq<u8>;

/// The blake3 digest of `bytes` (`blake3::hash`).
#[verifier::external_body]
fn digest_of(bytes: &[u8]) -> (digest: [u8; 32])
    ensures
        digest@ == blake3_digest(bytes@),
{
    *blake3::hash(bytes).as_bytes()
}

/// A nibble's lowercase hex digit.
pub open spec fn hex_digit(n: u8) -> char {
    if n < 10 {
        (('0' as u8) + n) as char
    } else {
        (('a' as u8) + (n - 10)) as char
    }
}

/// `bytes` in lowercase hexadecimal, high nibble first.
pub open spec fn hex_of(bytes: Seq<u8>) -> Seq<char>
    decreases bytes.len(),
{
    if bytes.len() == 0 {
        Seq::empty()
    } else {
        hex_of(bytes.drop_last()).push(hex_digit(bytes.last() / 16)).push(hex_digit(bytes.last() % 16))
    }
}

/// A nibble's digit.
fn hex_char(n: u8) -> (c: char)
    requires
        n < 16,
    ensures
        c == hex_digit(n),
{
    if n < 10 {
        (('0' as u8) + n) as char
    } else {
        (('a' as u8) + (n - 10)) as char
    }
}

/// The blake3 hash of a file's bytes in lowercase hex — what the status
/// reports the markers were computed against (`Hash::to_hex`).
pub fn text_hash(bytes: &[u8]) -> (hex: String)
    ensures
        hex@ == hex_of(blake3_digest(bytes@)),
{
    let digest = digest_of(bytes);
    let mut hex = String::new();
    let mut k: usize = 0;
    while k < 32
        invariant
            0 <= k <= 32,
            digest@.len() == 32,
            digest@ == blake3_digest(bytes@),
            hex@ == hex_of(digest@.take(k as int)),
        decreases 32 - k,
    {
        let b = digest[k];
        crate::text::push_char(&mut hex, hex_char(b / 16));
        crate::text::push_char(&mut hex, hex_char(b % 16));
        assert(digest@.take(k + 1).drop_last() =~= digest@.take(k as int));
        assert(digest@.take(k + 1).last() == b);
        k += 1;
    }
    assert(digest@.take(32) =~= digest@);
    hex
}

/// What the status does next for the pipeline's markers.
#[derive(Debug, Clone, Copy, PartialEq, Eq, Structural)]
pub enum MarkerStep {
    /// No HEAD version to diff against: every working node is new.
    AllAdded,
    /// HEAD has it and the file is clean: no markers.
    Clean,
    /// Diff the working file against HEAD.
    Diff,
}

/// The pipeline's entry facts: known to git (no entry, or one that is
/// neither untracked nor ignored), ignored, dirty (it has an entry).
pub open spec fn pipeline_entry_facts(
    scope: Scope,
    prefix: Seq<char>,
    entries: Seq<EntryView>,
) -> (bool, bool, bool) {
    match entry_named(entries, root_path(prefix, scope.pipeline@)) {
        None => (true, false, false),
        Some(e) => (is_known(e.kind), e.kind == EntryKind::Ignored, true),
    }
}

/// Every working node, marked added.
pub open spec fn all_added(work: Seq<NodeLine>) -> Seq<ChangeView> {
    work.map_values(|n: NodeLine| ChangeView { name: n.name, change: ChangeKind::Added, from: None })
}

/// The markers of a pipeline HEAD has no version of: every node added.
pub fn added_markers(work: &[LineNode]) -> (changes: Vec<NodeChange>)
    ensures
        change_views(changes@) == all_added(node_lines(work@)),
{
    let ghost wl = node_lines(work@);
    let mut changes: Vec<NodeChange> = Vec::new();
    let mut k: usize = 0;
    while k < work.len()
        invariant
            0 <= k <= work@.len(),
            wl == node_lines(work@),
            change_views(changes@) == all_added(wl.take(k as int)),
        decreases work@.len() - k,
    {
        assert(wl[k as int] == node_line(work@[k as int]));
        let ghost prev = changes@;
        changes.push(NodeChange { name: work[k].name.clone(), change: ChangeKind::Added, from: None });
        assert(change_views(changes@) =~= change_views(prev).push(change_view(changes@.last())));
        assert(wl.take(k + 1) =~= wl.take(k as int).push(wl[k as int]));
        assert(change_views(changes@) =~= all_added(wl.take(k + 1)));
        k += 1;
    }
    assert(wl.take(work@.len() as int) =~= wl);
    changes
}

impl Survey {
    /// What the status does for the pipeline's markers: all added when
    /// HEAD has no version of it, none when it is clean, else a diff.
    pub fn marker_step(&self, scope: &Scope) -> (step: MarkerStep)
        ensures
            step == if !head_has_pipeline(
                *scope,
                prefix_of(self.layout),
                self.unborn,
                entry_views(self.entries@),
            ) {
                MarkerStep::AllAdded
            } else if !pipeline_entry_facts(*scope, self.layout->0.prefix@, entry_views(self.entries@)).2 {
                MarkerStep::Clean
            } else {
                MarkerStep::Diff
            },
    {
        if !self.pipeline_in_head(scope) {
            return MarkerStep::AllAdded;
        }
        let layout = match &self.layout {
            Some(layout) => layout,
            None => {
                return MarkerStep::AllAdded;
            },
        };
        let root = layout.to_root(scope.pipeline.as_str());
        match self.entry_for(root.as_str()) {
            None => MarkerStep::Clean,
            Some(_) => MarkerStep::Diff,
        }
    }

    /// The `GET /api/git/status` answer from this survey, the pipeline's
    /// markers and the hash of its text: outside a repository the bare
    /// state with nothing listed; inside, the pipeline's entry facts and
    /// the scope's dirty files.
    pub fn status_response(
        self,
        scope: &Scope,
        nodes: Vec<NodeChange>,
        removed: Vec<RemovedNode>,
        text_hash: String,
    ) -> (response: GitStatusResponse)
        ensures
            response.state == self.state,
            response.pipeline.path@ == scope.pipeline@,
            response.text_hash == text_hash,
            match self.layout {
                None => !response.pipeline.known_to_git && !response.pipeline.ignored
                    && !response.pipeline.dirty && response.pipeline.nodes@.len() == 0
                    && response.pipeline.removed@.len() == 0 && response.scope@.len() == 0,
                Some(layout) => (response.pipeline.known_to_git, response.pipeline.ignored, response.pipeline.dirty)
                    == pipeline_entry_facts(*scope, layout.prefix@, entry_views(self.entries@))
                    && response.pipeline.nodes@ == nodes@ && response.pipeline.removed@ == removed@
                    && scope_file_views(response.scope@) == dirty_listing(
                    *scope,
                    layout.prefix@,
                    self.unborn,
                    entry_views(self.entries@),
                ),
            },
    {
        let path = scope.pipeline.clone();
        let (known, ignored, dirty, files) = match &self.layout {
            None => (false, false, false, Vec::new()),
            Some(layout) => {
                let files = self.scope_files(scope);
                let root = layout.to_root(scope.pipeline.as_str());
                let (known, ignored, dirty) = match self.entry_for(root.as_str()) {
                    None => (true, false, false),
                    Some(e) => (e.known(), e.ignored(), true),
                };
                (known, ignored, dirty, files)
            },
        };
        let (nodes, removed) = if self.layout.is_some() {
            (nodes, removed)
        } else {
            (Vec::new(), Vec::new())
        };
        GitStatusResponse {
            state: self.state,
            pipeline: PipelineGitStatus { path, known_to_git: known, ignored, dirty, nodes, removed },
            scope: files,
            text_hash,
        }
    }
}

/// The revision spec of the pipeline's HEAD version (`HEAD:<root path>`).
pub fn head_spec(layout: &Layout, scope: &Scope) -> (spec: String)
    ensures
        spec@ == "HEAD:"@ + root_path(layout.prefix@, scope.pipeline@),
{
    let mut spec = "HEAD:".to_owned();
    let root = layout.to_root(scope.pipeline.as_str());
    spec.append(root.as_str());
    spec
}

} // verus!
