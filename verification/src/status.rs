//! The `git status --porcelain=v2 -z --branch` reader: the records that
//! name a path, the `--branch` headers, and what they say of the
//! repository.
use vstd::prelude::*;
use crate::git::Layout;
use crate::protocol::{FileStatus, Operation, RepoInfo, Upstream};
use crate::text::{
    chars_between, chars_of, debug_quoted, find_char, debug_text, first_index, lossy_text, parse_unsigned, same_chars,
    same_text, string_between, string_of, unsigned_value, utf8_lossy,
};

verus! {

// ------------------------------------------------------------- status --

/// A `git status` record kind.
#[derive(Debug, Clone, Copy, PartialEq, Eq, Structural)]
pub enum EntryKind {
    /// `1` — ordinary changed entry.
    Changed,
    /// `2` — renamed or copied in the index.
    Renamed,
    /// `u` — unmerged.
    Unmerged,
    /// `?` — untracked.
    Untracked,
    /// `!` — ignored.
    Ignored,
}

/// One `git status --porcelain=v2` record that names a path.
#[derive(Debug, Clone, PartialEq, Eq)]
pub struct Entry {
    /// Root-relative path (the new path for renames).
    pub path: String,
    /// Record kind.
    pub kind: EntryKind,
    /// Index status letter (`.` = unchanged).
    pub x: char,
    /// Working-tree status letter.
    pub y: char,
}

/// An entry as plain values.
pub struct EntryView {
    pub path: Seq<char>,
    pub kind: EntryKind,
    pub x: char,
    pub y: char,
}

/// An entry's plain values.
pub open spec fn entry_view(e: Entry) -> EntryView {
    EntryView { path: e.path@, kind: e.kind, x: e.x, y: e.y }
}

/// Known to git (in the index or HEAD).
pub open spec fn is_known(kind: EntryKind) -> bool {
    !(kind == EntryKind::Untracked || kind == EntryKind::Ignored)
}

/// HEAD has this path: known to git, not an index addition, not the new side
/// of a rename.
pub open spec fn is_in_head(kind: EntryKind, x: char) -> bool {
    is_known(kind) && kind != EntryKind::Renamed && x != 'A'
}

/// The scope status an entry reports.
pub open spec fn status_of(kind: EntryKind, x: char, y: char) -> FileStatus {
    match kind {
        EntryKind::Untracked => FileStatus::Untracked,
        EntryKind::Ignored => FileStatus::Untracked,
        EntryKind::Renamed => FileStatus::Renamed,
        EntryKind::Unmerged => FileStatus::Modified,
        EntryKind::Changed => if y == 'D' || (x == 'D' && y == '.') {
            FileStatus::Deleted
        } else if x == 'A' {
            FileStatus::Added
        } else {
            FileStatus::Modified
        },
    }
}

/// What an entry reports, case by case: an unknown or ignored path is
/// untracked; a rename is a rename; an unfinished merge is a
/// modification; a changed path deleted from the working tree is a
/// deletion whatever its index letter, as is one deleted in the index
/// and untouched in the working tree; otherwise an index addition is an
/// addition and anything else a modification.
pub proof fn lemma_file_status_cases(kind: EntryKind, x: char, y: char)
    ensures
        (kind == EntryKind::Untracked || kind == EntryKind::Ignored) ==> status_of(kind, x, y)
            == FileStatus::Untracked,
        kind == EntryKind::Renamed ==> status_of(kind, x, y) == FileStatus::Renamed,
        kind == EntryKind::Unmerged ==> status_of(kind, x, y) == FileStatus::Modified,
        kind == EntryKind::Changed && y == 'D' ==> status_of(kind, x, y) == FileStatus::Deleted,
        kind == EntryKind::Changed && x == 'D' && y == '.' ==> status_of(kind, x, y) == FileStatus::Deleted,
        kind == EntryKind::Changed && y != 'D' && !(x == 'D' && y == '.') && x == 'A' ==> status_of(kind, x, y)
            == FileStatus::Added,
        kind == EntryKind::Changed && y != 'D' && !(x == 'D' && y == '.') && x != 'A' ==> status_of(kind, x, y)
            == FileStatus::Modified,
{
}

impl Entry {
    /// Known to git (in the index or HEAD).
    pub fn known(&self) -> (known: bool)
        ensures
            known == is_known(self.kind),
    {
        !(self.kind == EntryKind::Untracked || self.kind == EntryKind::Ignored)
    }

    /// Matched by `.gitignore` (and unknown to git).
    pub fn ignored(&self) -> (ignored: bool)
        ensures
            ignored == (self.kind == EntryKind::Ignored),
    {
        self.kind == EntryKind::Ignored
    }

    /// HEAD has this path.
    pub fn in_head(&self) -> (in_head: bool)
        ensures
            in_head == is_in_head(self.kind, self.x),
    {
        self.known() && self.kind != EntryKind::Renamed && self.x != 'A'
    }

    /// The scope status this entry reports: an unfinished merge's file is
    /// a modification; a deletion on either side (index-only when the
    /// working tree is unchanged) is a deletion; an index addition an
    /// addition.
    pub fn file_status(&self) -> (status: FileStatus)
        ensures
            status == status_of(self.kind, self.x, self.y),
    {
        match self.kind {
            EntryKind::Untracked => FileStatus::Untracked,
            EntryKind::Ignored => FileStatus::Untracked,
            EntryKind::Renamed => FileStatus::Renamed,
            EntryKind::Unmerged => FileStatus::Modified,
            EntryKind::Changed => if self.y == 'D' || (self.x == 'D' && self.y == '.') {
                FileStatus::Deleted
            } else if self.x == 'A' {
                FileStatus::Added
            } else {
                FileStatus::Modified
            },
        }
    }
}

/// The `--branch` headers.
#[derive(Debug, Default, Clone, PartialEq, Eq)]
pub struct Headers {
    /// `branch.oid`.
    pub oid: Option<String>,
    /// `branch.head`.
    pub head: Option<String>,
    /// `branch.upstream`.
    pub upstream: Option<String>,
    /// `branch.ab`, as (ahead, behind).
    pub ahead_behind: Option<(u32, u32)>,
}

/// The headers as plain values.
pub struct HeadersView {
    pub oid: Option<Seq<char>>,
    pub head: Option<Seq<char>>,
    pub upstream: Option<Seq<char>>,
    pub ahead_behind: Option<(u32, u32)>,
}

/// An optional text's plain value.
pub open spec fn opt_view(text: Option<String>) -> Option<Seq<char>> {
    match text {
        Some(t) => Some(t@),
        None => None,
    }
}

/// The headers' plain values.
pub open spec fn headers_view(h: Headers) -> HeadersView {
    HeadersView {
        oid: opt_view(h.oid),
        head: opt_view(h.head),
        upstream: opt_view(h.upstream),
        ahead_behind: h.ahead_behind,
    }
}

/// No headers yet.
pub open spec fn no_headers() -> HeadersView {
    HeadersView { oid: None, head: None, upstream: None, ahead_behind: None }
}

/// HEAD's branch has no commits yet.
pub open spec fn is_unborn(h: HeadersView) -> bool {
    h.oid == Some("(initial)"@)
}

/// The checked-out branch (`None` when detached or unknown).
pub open spec fn branch_of(h: HeadersView) -> Option<Seq<char>> {
    match h.head {
        Some(name) => if name == "(detached)"@ {
            None
        } else {
            Some(name)
        },
        None => None,
    }
}

/// HEAD's abbreviated id: the first seven characters (none when unborn).
pub open spec fn head_short_of(h: HeadersView) -> Option<Seq<char>> {
    if is_unborn(h) {
        None
    } else {
        match h.oid {
            Some(oid) => Some(oid.take(if oid.len() < 7 {
                oid.len() as int
            } else {
                7
            })),
            None => None,
        }
    }
}

/// The repository facts headers give, with the repository's root and
/// the project's prefix in it, and the operation in progress.
pub open spec fn info_from(
    info: RepoInfo,
    h: HeadersView,
    root: Seq<char>,
    prefix: Seq<char>,
    operation: Option<Operation>,
) -> bool {
    &&& info.root@ == root
    &&& info.prefix@ == prefix
    &&& opt_view(info.branch) == branch_of(h)
    &&& opt_view(info.head_short) == head_short_of(h)
    &&& match h.upstream {
        Some(name) => info.upstream matches Some(u) && u.name@ == name && (u.ahead, u.behind) == (
        match h.ahead_behind {
            Some(ab) => ab,
            None => (0u32, 0u32),
        }),
        None => info.upstream is None,
    }
    &&& info.unborn == is_unborn(h)
    &&& info.operation == operation
}

impl Headers {
    /// HEAD points at a branch with no commits yet.
    pub fn unborn(&self) -> (unborn: bool)
        ensures
            unborn == is_unborn(headers_view(*self)),
    {
        proof {
            reveal_strlit("(initial)");
        }
        match &self.oid {
            Some(oid) => same_text(oid.as_str(), "(initial)"),
            None => false,
        }
    }

    /// The repository facts these headers and `layout` give, with the
    /// operation in progress.
    pub fn info(&self, layout: &Layout, operation: Option<Operation>) -> (info: RepoInfo)
        ensures
            info_from(info, headers_view(*self), layout.root@, layout.prefix@, operation),
    {
        proof {
            reveal_strlit("(detached)");
        }
        let unborn = self.unborn();
        let branch = match &self.head {
            None => None,
            Some(name) => if same_text(name.as_str(), "(detached)") {
                None
            } else {
                Some(name.clone())
            },
        };
        let head_short = if unborn {
            None
        } else {
            match &self.oid {
                Some(oid) => {
                    let chars = chars_of(oid.as_str());
                    let n: usize = if chars.len() < 7 {
                        chars.len()
                    } else {
                        7
                    };
                    let short = string_between(chars.as_slice(), 0, n);
                    assert(chars@.subrange(0, n as int) =~= chars@.take(n as int));
                    Some(short)
                },
                None => None,
            }
        };
        let upstream = match &self.upstream {
            Some(name) => {
                let (ahead, behind) = match self.ahead_behind {
                    Some(ab) => ab,
                    None => (0, 0),
                };
                Some(Upstream { name: name.clone(), ahead, behind })
            },
            None => None,
        };
        RepoInfo {
            root: layout.root.clone(),
            prefix: layout.prefix.clone(),
            branch,
            head_short,
            upstream,
            unborn,
            operation,
        }
    }
}

/// Parsed `git status` output.
#[derive(Debug, Clone, PartialEq, Eq)]
pub struct Parsed {
    /// The `--branch` headers.
    pub headers: Headers,
    /// The records that name a path, in output order.
    pub entries: Vec<Entry>,
}



/// `b` cut at every NUL, empty pieces kept.
pub open spec fn split_nul(b: Seq<u8>) -> Seq<Seq<u8>>
    decreases b.len(),
{
    if b.len() == 0 {
        seq![Seq::empty()]
    } else {
        let pieces = split_nul(b.drop_last());
        if b.last() == 0 {
            pieces.push(Seq::empty())
        } else {
            pieces.update(pieces.len() - 1, pieces.last().push(b.last()))
        }
    }
}

/// The pieces that are not empty.
pub open spec fn nonempty_pieces(pieces: Seq<Seq<u8>>) -> Seq<Seq<u8>>
    decreases pieces.len(),
{
    if pieces.len() == 0 {
        pieces
    } else {
        let kept = nonempty_pieces(pieces.drop_last());
        if pieces.last().len() == 0 {
            kept
        } else {
            kept.push(pieces.last())
        }
    }
}

/// The NUL-terminated records of `-z` output, as text.
pub open spec fn status_records(b: Seq<u8>) -> Seq<Seq<char>> {
    nonempty_pieces(split_nul(b)).map_values(|r: Seq<u8>| utf8_lossy(r))
}

proof fn lemma_split_nul_nonempty(b: Seq<u8>)
    ensures
        split_nul(b).len() >= 1,
    decreases b.len(),
{
    if b.len() > 0 {
        lemma_split_nul_nonempty(b.drop_last());
    }
}

/// The non-empty NUL-separated pieces of `bytes`.
pub(crate) fn nul_records(bytes: &[u8]) -> (records: Vec<Vec<u8>>)
    ensures
        records@.map_values(|r: Vec<u8>| r@) == nonempty_pieces(split_nul(bytes@)),
{
    let mut records: Vec<Vec<u8>> = Vec::new();
    let mut current: Vec<u8> = Vec::new();
    let mut i: usize = 0;
    assert(bytes@.take(0) =~= Seq::<u8>::empty());
    while i < bytes.len()
        invariant
            0 <= i <= bytes@.len(),
            split_nul(bytes@.take(i as int)).last() == current@,
            records@.map_values(|r: Vec<u8>| r@) == nonempty_pieces(
                split_nul(bytes@.take(i as int)).drop_last(),
            ),
        decreases bytes@.len() - i,
    {
        let b = bytes[i];
        let ghost before = split_nul(bytes@.take(i as int));
        proof {
            assert(bytes@.take(i + 1).drop_last() =~= bytes@.take(i as int));
            assert(bytes@.take(i + 1).last() == b);
            lemma_split_nul_nonempty(bytes@.take(i as int));
            assert(before.drop_last().push(before.last()) =~= before);
        }
        if b == 0 {
            if current.len() > 0 {
                let done = current;
                records.push(done);
                current = Vec::new();
            } else {
                current = Vec::new();
            }
            proof {
                let after = before.push(Seq::<u8>::empty());
                assert(after.drop_last() =~= before);
                assert(records@.map_values(|r: Vec<u8>| r@) =~= nonempty_pieces(before));
            }
        } else {
            current.push(b);
            proof {
                let after = before.update(before.len() - 1, before.last().push(b));
                assert(after.drop_last() =~= before.drop_last());
            }
        }
        i += 1;
    }
    proof {
        assert(bytes@.take(bytes@.len() as int) =~= bytes@);
        let all = split_nul(bytes@);
        lemma_split_nul_nonempty(bytes@);
        assert(all.drop_last().push(all.last()) =~= all);
    }
    if current.len() > 0 {
        records.push(current);
    }
    records
}

/// `s` cut at its first `n - 1` spaces (`str::splitn(n, ' ')`).
pub open spec fn split_n(s: Seq<char>, n: nat) -> Seq<Seq<char>>
    decreases n,
{
    if n <= 1 {
        seq![s]
    } else {
        match first_index(s, ' ') {
            Some(i) => seq![s.subrange(0, i)] + split_n(s.subrange(i + 1, s.len() as int), (n - 1) as nat),
            None => seq![s],
        }
    }
}

/// The fields of `chars` cut at its first `n - 1` spaces.
fn split_n_chars(chars: &[char], n: usize) -> (fields: Vec<Vec<char>>)
    requires
        n >= 1,
    ensures
        fields@.map_values(|f: Vec<char>| f@) == split_n(chars@, n as nat),
{
    let mut fields: Vec<Vec<char>> = Vec::new();
    let mut start: usize = 0;
    assert(chars@.subrange(0, chars@.len() as int) =~= chars@);
    while fields.len() + 1 < n
        invariant
            0 <= start <= chars@.len(),
            fields@.len() < n,
            fields@.map_values(|f: Vec<char>| f@) + split_n(
                chars@.subrange(start as int, chars@.len() as int),
                (n - fields@.len()) as nat,
            ) == split_n(chars@, n as nat),
        decreases n - fields@.len(),
    {
        let ghost rest = chars@.subrange(start as int, chars@.len() as int);
        let mut j: usize = start;
        while j < chars.len() && chars[j] != ' '
            invariant
                start <= j <= chars@.len(),
                forall|m: int| start <= m < j ==> chars@[m] != ' ',
            decreases chars@.len() - j,
        {
            j += 1;
        }
        proof {
            crate::text::lemma_first_index(rest, ' ');
        }
        if j == chars.len() {
            proof {
                assert forall|m: int| 0 <= m < rest.len() implies rest[m] != ' ' by {
                    assert(rest[m] == chars@[start + m]);
                }
                assert(first_index(rest, ' ') is None);
            }
            let piece = string_between(chars, start, chars.len());
            let piece_chars = chars_of(piece.as_str());
            fields.push(piece_chars);
            proof {
                assert(fields@.map_values(|f: Vec<char>| f@) =~= split_n(chars@, n as nat));
            }
            return fields;
        }
        proof {
            assert(rest[j - start] == ' ');
            assert forall|m: int| 0 <= m < j - start implies rest[m] != ' ' by {
                assert(rest[m] == chars@[start + m]);
            }
            assert(first_index(rest, ' ') == Some((j - start) as int));
            assert(rest.subrange(0, (j - start) as int) =~= chars@.subrange(start as int, j as int));
            assert(rest.subrange(j - start + 1, rest.len() as int) =~= chars@.subrange(
                j + 1,
                chars@.len() as int,
            ));
        }
        let piece = string_between(chars, start, j);
        let piece_chars = chars_of(piece.as_str());
        fields.push(piece_chars);
        start = j + 1;
        proof {
            assert(fields@.map_values(|f: Vec<char>| f@) + split_n(
                chars@.subrange(start as int, chars@.len() as int),
                (n - fields@.len()) as nat,
            ) =~= split_n(chars@, n as nat));
        }
    }
    let piece = string_between(chars, start, chars.len());
    let piece_chars = chars_of(piece.as_str());
    fields.push(piece_chars);
    proof {
        assert(fields@.map_values(|f: Vec<char>| f@) =~= split_n(chars@, n as nat));
    }
    fields
}


// ------------------------------------------------------------ records --

/// `s` cut at its first space (`str::split_once(' ')`).
pub open spec fn space_cut(s: Seq<char>) -> Option<(Seq<char>, Seq<char>)> {
    match first_index(s, ' ') {
        Some(i) => Some((s.subrange(0, i), s.subrange(i + 1, s.len() as int))),
        None => None,
    }
}

/// The two status letters of an `XY` field (exactly two characters).
pub open spec fn xy_letters(xy: Seq<char>) -> Option<(char, char)> {
    if xy.len() == 2 {
        Some((xy[0], xy[1]))
    } else {
        None
    }
}

/// A `branch.ab` count behind its sign (`+3`, `-0`).
pub open spec fn signed_count(part: Seq<char>, sign: char) -> Option<u32> {
    if part.len() > 0 && part[0] == sign {
        match unsigned_value(part.drop_first(), u32::MAX as nat) {
            Some(v) => Some(v as u32),
            None => None,
        }
    } else {
        None
    }
}

/// The `branch.ab` value `+<ahead> -<behind>`: the first two
/// space-separated parts, each behind its sign.
pub open spec fn ahead_behind_of(value: Seq<char>) -> Option<(u32, u32)> {
    let parts = split_n(value, 3);
    let ahead = signed_count(parts[0], '+');
    let behind = if parts.len() >= 2 {
        signed_count(parts[1], '-')
    } else {
        None
    };
    match ahead {
        Some(a) => match behind {
            Some(b) => Some((a, b)),
            None => None,
        },
        None => None,
    }
}

/// A header record's key and value (the value empty when there is no
/// space).
pub open spec fn header_key_value(rest: Seq<char>) -> (Seq<char>, Seq<char>) {
    match space_cut(rest) {
        Some(kv) => kv,
        None => (rest, Seq::empty()),
    }
}

/// The headers after one `#` record; unknown keys change nothing.
pub open spec fn after_header(h: HeadersView, rest: Seq<char>) -> Result<HeadersView, Seq<char>> {
    let (key, value) = header_key_value(rest);
    if key == "branch.oid"@ {
        Ok(HeadersView { oid: Some(value), head: h.head, upstream: h.upstream, ahead_behind: h.ahead_behind })
    } else if key == "branch.head"@ {
        Ok(HeadersView { oid: h.oid, head: Some(value), upstream: h.upstream, ahead_behind: h.ahead_behind })
    } else if key == "branch.upstream"@ {
        Ok(HeadersView { oid: h.oid, head: h.head, upstream: Some(value), ahead_behind: h.ahead_behind })
    } else if key == "branch.ab"@ {
        match ahead_behind_of(value) {
            Some(ab) => Ok(HeadersView { oid: h.oid, head: h.head, upstream: h.upstream, ahead_behind: Some(ab) }),
            None => Err("unreadable branch.ab: "@ + debug_text(value)),
        }
    } else {
        Ok(h)
    }
}

/// The entry of a `1`, `2` or `u` record whose `rest` holds `n`
/// space-separated fields, `XY` first and the path (spaces and all) last.
pub open spec fn path_entry(
    rest: Seq<char>,
    n: nat,
    kind: EntryKind,
    short: Seq<char>,
    record: Seq<char>,
) -> Result<EntryView, Seq<char>> {
    let fields = split_n(rest, n);
    if fields.len() != n {
        Err(short + debug_text(record))
    } else {
        match xy_letters(fields[0]) {
            Some((x, y)) => Ok(EntryView { path: fields[n - 1], kind, x, y }),
            None => Err("bad XY field "@ + debug_text(fields[0]) + " in "@ + debug_text(record)),
        }
    }
}

/// Reading `records` from the `i`-th on, with the headers and entries
/// read so far. A `2` record consumes the record after it (its original
/// path).
pub open spec fn parse_from(
    records: Seq<Seq<char>>,
    i: nat,
    h: HeadersView,
    entries: Seq<EntryView>,
) -> Result<(HeadersView, Seq<EntryView>), Seq<char>>
    decreases records.len() - i,
{
    if i >= records.len() {
        Ok((h, entries))
    } else {
        let record = records[i as int];
        match space_cut(record) {
            None => Err("record without a tag: "@ + debug_text(record)),
            Some((tag, rest)) => if tag == "#"@ {
                match after_header(h, rest) {
                    Ok(next) => parse_from(records, i + 1, next, entries),
                    Err(m) => Err(m),
                }
            } else if tag == "1"@ {
                match path_entry(rest, 8, EntryKind::Changed, "short `1` record: "@, record) {
                    Ok(e) => parse_from(records, i + 1, h, entries.push(e)),
                    Err(m) => Err(m),
                }
            } else if tag == "2"@ {
                match path_entry(rest, 9, EntryKind::Renamed, "short `2` record: "@, record) {
                    Ok(e) => if i + 1 < records.len() {
                        parse_from(records, i + 2, h, entries.push(e))
                    } else {
                        Err("rename record without its original path: "@ + debug_text(record))
                    },
                    Err(m) => Err(m),
                }
            } else if tag == "u"@ {
                match path_entry(rest, 10, EntryKind::Unmerged, "short `u` record: "@, record) {
                    Ok(e) => parse_from(records, i + 1, h, entries.push(e)),
                    Err(m) => Err(m),
                }
            } else if tag == "?"@ {
                parse_from(
                    records,
                    i + 1,
                    h,
                    entries.push(EntryView { path: rest, kind: EntryKind::Untracked, x: '?', y: '?' }),
                )
            } else if tag == "!"@ {
                parse_from(
                    records,
                    i + 1,
                    h,
                    entries.push(EntryView { path: rest, kind: EntryKind::Ignored, x: '!', y: '!' }),
                )
            } else {
                Err("unknown record tag "@ + debug_text(tag) + ": "@ + debug_text(record))
            },
        }
    }
}

/// What the records of a `git status --porcelain=v2 -z --branch` output
/// say: the headers and the entries in output order, or why they cannot
/// be read.
pub open spec fn status_parse(records: Seq<Seq<char>>) -> Result<(HeadersView, Seq<EntryView>), Seq<char>> {
    parse_from(records, 0, no_headers(), Seq::empty())
}

/// The texts of `records`.
pub open spec fn texts(records: Seq<String>) -> Seq<Seq<char>> {
    records.map_values(|r: String| r@)
}

/// The entries' plain values.
pub open spec fn entry_views(entries: Seq<Entry>) -> Seq<EntryView> {
    entries.map_values(|e: Entry| entry_view(e))
}

/// `chars` cut at its first space.
fn cut_at_space(chars: &[char]) -> (cut: Option<(Vec<char>, Vec<char>)>)
    ensures
        match cut {
            Some((a, b)) => space_cut(chars@) == Some((a@, b@)),
            None => space_cut(chars@) is None,
        },
{
    match find_char(chars, ' ') {
        Some(at) => {
            proof {
                crate::text::lemma_first_index(chars@, ' ');
            }
            let n = chars.len();
            assert(at < n);
            let head = chars_between(chars, 0, at);
            let tail = chars_between(chars, at + 1, n);
            Some((head, tail))
        },
        None => None,
    }
}

/// The `XY` letters of a record, or the refusal that names both.
fn xy_of(xy: &[char], record: &str) -> (letters: Result<(char, char), String>)
    ensures
        match letters {
            Ok(pair) => xy_letters(xy@) == Some(pair),
            Err(m) => xy_letters(xy@) is None && m@ == "bad XY field "@ + debug_text(xy@) + " in "@
                + debug_text(record@),
        },
{
    if xy.len() == 2 {
        Ok((xy[0], xy[1]))
    } else {
        let mut m = "bad XY field ".to_owned();
        let shown = string_of(xy);
        m.append(debug_quoted(shown.as_str()).as_str());
        m.append(" in ");
        m.append(debug_quoted(record).as_str());
        Err(m)
    }
}

/// A count behind its sign.
fn signed_count_in(part: &[char], sign: char) -> (count: Option<u32>)
    ensures
        count == signed_count(part@, sign),
{
    if part.len() > 0 && part[0] == sign {
        let digits = chars_between(part, 1, part.len());
        assert(digits@ =~= part@.drop_first());
        match parse_unsigned(digits.as_slice(), 0xffff_ffff) {
            Some(v) => Some(v as u32),
            None => None,
        }
    } else {
        None
    }
}

/// The `branch.ab` counts.
fn ahead_behind_in(value: &[char]) -> (counts: Option<(u32, u32)>)
    ensures
        counts == ahead_behind_of(value@),
{
    let parts = split_n_chars(value, 3);
    proof {
        lemma_split_n_len(value@, 3);
    }
    assert(parts@.map_values(|f: Vec<char>| f@)[0] == parts@[0]@);
    let ahead = signed_count_in(parts[0].as_slice(), '+');
    let behind = if parts.len() >= 2 {
        assert(parts@.map_values(|f: Vec<char>| f@)[1] == parts@[1]@);
        signed_count_in(parts[1].as_slice(), '-')
    } else {
        None
    };
    match ahead {
        Some(a) => match behind {
            Some(b) => Some((a, b)),
            None => None,
        },
        None => None,
    }
}

/// Cutting yields between one and `n` fields.
proof fn lemma_split_n_len(s: Seq<char>, n: nat)
    ensures
        1 <= split_n(s, n).len(),
        n >= 1 ==> split_n(s, n).len() <= n,
    decreases n,
{
    if n > 1 {
        if let Some(i) = first_index(s, ' ') {
            crate::text::lemma_first_index(s, ' ');
            lemma_split_n_len(s.subrange(i + 1, s.len() as int), (n - 1) as nat);
        }
    }
}

/// The headers after one `#` record.
fn header_after(headers: Headers, rest: &[char]) -> (after: Result<Headers, String>)
    ensures
        match after {
            Ok(h) => after_header(headers_view(headers), rest@) == Ok::<HeadersView, Seq<char>>(headers_view(h)),
            Err(m) => after_header(headers_view(headers), rest@) == Err::<HeadersView, Seq<char>>(m@),
        },
{
    let (key, value) = match cut_at_space(rest) {
        Some(kv) => kv,
        None => {
            let whole = chars_between(rest, 0, rest.len());
            assert(whole@ =~= rest@);
            (whole, Vec::new())
        },
    };
    assert(header_key_value(rest@) == (key@, value@));
    let oid = chars_of("branch.oid");
    let head = chars_of("branch.head");
    let upstream = chars_of("branch.upstream");
    let ab = chars_of("branch.ab");
    let Headers { oid: old_oid, head: old_head, upstream: old_upstream, ahead_behind } = headers;
    if same_chars(key.as_slice(), oid.as_slice()) {
        Ok(Headers { oid: Some(string_of(value.as_slice())), head: old_head, upstream: old_upstream, ahead_behind })
    } else if same_chars(key.as_slice(), head.as_slice()) {
        Ok(Headers { oid: old_oid, head: Some(string_of(value.as_slice())), upstream: old_upstream, ahead_behind })
    } else if same_chars(key.as_slice(), upstream.as_slice()) {
        Ok(Headers { oid: old_oid, head: old_head, upstream: Some(string_of(value.as_slice())), ahead_behind })
    } else if same_chars(key.as_slice(), ab.as_slice()) {
        match ahead_behind_in(value.as_slice()) {
            Some(counts) => Ok(Headers { oid: old_oid, head: old_head, upstream: old_upstream, ahead_behind: Some(counts) }),
            None => {
                let mut m = "unreadable branch.ab: ".to_owned();
                let shown = string_of(value.as_slice());
                m.append(debug_quoted(shown.as_str()).as_str());
                Err(m)
            },
        }
    } else {
        Ok(Headers { oid: old_oid, head: old_head, upstream: old_upstream, ahead_behind })
    }
}

/// The entry of a `1`, `2` or `u` record.
fn path_entry_in(
    rest: &[char],
    n: usize,
    kind: EntryKind,
    short: &str,
    record: &str,
) -> (entry: Result<Entry, String>)
    requires
        n >= 1,
    ensures
        match entry {
            Ok(e) => path_entry(rest@, n as nat, kind, short@, record@) == Ok::<EntryView, Seq<char>>(entry_view(e)),
            Err(m) => path_entry(rest@, n as nat, kind, short@, record@) == Err::<EntryView, Seq<char>>(m@),
        },
{
    let fields = split_n_chars(rest, n);
    let ghost views = fields@.map_values(|f: Vec<char>| f@);
    if fields.len() != n {
        let mut m = short.to_owned();
        m.append(debug_quoted(record).as_str());
        return Err(m);
    }
    assert(views[0] == fields@[0]@);
    assert(views[n - 1] == fields@[n - 1]@);
    match xy_of(fields[0].as_slice(), record) {
        Ok((x, y)) => {
            let path = string_of(fields[n - 1].as_slice());
            Ok(Entry { path, kind, x, y })
        },
        Err(m) => Err(m),
    }
}

/// Read the records of a `git status --porcelain=v2 -z --branch` output.
pub fn parse_status_records(records: &Vec<String>) -> (parsed: Result<Parsed, String>)
    ensures
        match parsed {
            Ok(p) => status_parse(texts(records@)) == Ok::<_, Seq<char>>(
                (headers_view(p.headers), entry_views(p.entries@)),
            ),
            Err(m) => status_parse(texts(records@)) == Err::<(HeadersView, Seq<EntryView>), Seq<char>>(m@),
        },
{
    let ghost all = texts(records@);
    let mut headers = Headers { oid: None, head: None, upstream: None, ahead_behind: None };
    let mut entries: Vec<Entry> = Vec::new();
    let mut i: usize = 0;
    assert(entry_views(entries@) =~= Seq::<EntryView>::empty());
    while i < records.len()
        invariant
            0 <= i <= records@.len(),
            all == texts(records@),
            status_parse(all) == parse_from(all, i as nat, headers_view(headers), entry_views(entries@)),
        decreases records@.len() - i,
    {
        proof {
            reveal_strlit("#");
            reveal_strlit("1");
            reveal_strlit("2");
            reveal_strlit("u");
            reveal_strlit("?");
            reveal_strlit("!");
        }
        let record = records[i].as_str();
        assert(all[i as int] == record@);
        let chars = chars_of(record);
        let cut = cut_at_space(chars.as_slice());
        match cut {
            None => {
                let mut m = "record without a tag: ".to_owned();
                m.append(debug_quoted(record).as_str());
                return Err(m);
            },
            Some((tag, rest)) => {
                let one = tag.len() == 1;
                if one && tag[0] == '#' {
                    assert(tag@ =~= "#"@);
                    match header_after(headers, rest.as_slice()) {
                        Ok(h) => {
                            headers = h;
                        },
                        Err(m) => {
                            return Err(m);
                        },
                    }
                    i += 1;
                } else if one && (tag[0] == '1' || tag[0] == '2' || tag[0] == 'u') {
                    let t = tag[0];
                    assert(t == '1' ==> tag@ =~= "1"@);
                    assert(t == '2' ==> tag@ =~= "2"@);
                    assert(t == 'u' ==> tag@ =~= "u"@);
                    assert(tag@ != "#"@);
                    assert(t != '1' ==> tag@ != "1"@);
                    assert(t != '2' ==> tag@ != "2"@);
                    let made = if t == '1' {
                        path_entry_in(rest.as_slice(), 8, EntryKind::Changed, "short `1` record: ", record)
                    } else if t == '2' {
                        path_entry_in(rest.as_slice(), 9, EntryKind::Renamed, "short `2` record: ", record)
                    } else {
                        path_entry_in(rest.as_slice(), 10, EntryKind::Unmerged, "short `u` record: ", record)
                    };
                    match made {
                        Ok(e) => {
                            if t == '2' {
                                if i + 1 >= records.len() {
                                    let mut m = "rename record without its original path: ".to_owned();
                                    m.append(debug_quoted(record).as_str());
                                    return Err(m);
                                }
                                let ghost before = entries@;
                                entries.push(e);
                                assert(entry_views(entries@) =~= entry_views(before).push(entry_view(e)));
                                i += 2;
                            } else {
                                let ghost before = entries@;
                                entries.push(e);
                                assert(entry_views(entries@) =~= entry_views(before).push(entry_view(e)));
                                i += 1;
                            }
                        },
                        Err(m) => {
                            return Err(m);
                        },
                    }
                } else if one && (tag[0] == '?' || tag[0] == '!') {
                    let t = tag[0];
                    assert(t == '?' ==> tag@ =~= "?"@);
                    assert(t == '!' ==> tag@ =~= "!"@);
                    let path = string_of(rest.as_slice());
                    let e = if t == '?' {
                        Entry { path, kind: EntryKind::Untracked, x: '?', y: '?' }
                    } else {
                        Entry { path, kind: EntryKind::Ignored, x: '!', y: '!' }
                    };
                    let ghost before = entries@;
                    entries.push(e);
                    assert(entry_views(entries@) =~= entry_views(before).push(entry_view(e)));
                    i += 1;
                } else {
                    let mut m = "unknown record tag ".to_owned();
                    let shown = string_of(tag.as_slice());
                    m.append(debug_quoted(shown.as_str()).as_str());
                    m.append(": ");
                    m.append(debug_quoted(record).as_str());
                    return Err(m);
                }
            },
        }
    }
    Ok(Parsed { headers, entries })
}


/// Parse `git status --porcelain=v2 -z --branch` output: NUL-terminated
/// records, each read as UTF-8 (invalid sequences replaced); a `2`
/// (rename) record is followed by its original path as a record of its
/// own.
pub fn parse_porcelain_v2(bytes: &[u8]) -> (parsed: Result<Parsed, String>)
    ensures
        match parsed {
            Ok(p) => status_parse(status_records(bytes@)) == Ok::<_, Seq<char>>(
                (headers_view(p.headers), entry_views(p.entries@)),
            ),
            Err(m) => status_parse(status_records(bytes@)) == Err::<(HeadersView, Seq<EntryView>), Seq<char>>(m@),
        },
{
    let raw = nul_records(bytes);
    let ghost pieces = nonempty_pieces(split_nul(bytes@));
    let mut records: Vec<String> = Vec::new();
    let mut k: usize = 0;
    while k < raw.len()
        invariant
            0 <= k <= raw@.len(),
            raw@.map_values(|r: Vec<u8>| r@) == pieces,
            texts(records@) == pieces.take(k as int).map_values(|r: Seq<u8>| utf8_lossy(r)),
        decreases raw@.len() - k,
    {
        assert(pieces.len() == raw@.len());
        assert(pieces[k as int] == raw@[k as int]@);
        let text = lossy_text(raw[k].as_slice());
        let ghost prev = records@;
        records.push(text);
        assert(records@ =~= prev.push(text));
        assert(texts(records@) =~= texts(prev).push(text@));
        assert(pieces.take(k + 1) =~= pieces.take(k as int).push(pieces[k as int]));
        assert(texts(records@) =~= pieces.take(k + 1).map_values(|r: Seq<u8>| utf8_lossy(r)));
        k += 1;
    }
    assert(pieces.take(raw@.len() as int) =~= pieces);
    assert(texts(records@) =~= status_records(bytes@));
    parse_status_records(&records)
}

} // verus!
