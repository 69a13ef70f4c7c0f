//! The file browser's rules: a requested directory is normalised
//! lexically — every escape refused — before anything touches the file
//! system; what a refusal says; which names are pipelines; and how file
//! times read as signed milliseconds.
use vstd::prelude::*;
use crate::protocol::{files_kind_tag, FileEntry, FileKind, FilesErrorKind};
use crate::text::{
    chars_of, holds_char, join, joined, lemma_text_less_total, lemma_text_less_transitive, same_chars,
    split_chars, split_on, string_of, text_before, text_less,
};
use std::time::{Duration, SystemTime, SystemTimeError};

verus! {

/// An OS error, carried as the file system reported it.
#[verifier::external_type_specification]
#[verifier::external_body]
pub struct ExIoError(std::io::Error);

/// A point in time as the file system reports it.
#[verifier::external_type_specification]
#[verifier::external_body]
pub struct ExSystemTime(SystemTime);

/// How far a time lies before the epoch, when asked how far after it.
#[verifier::external_type_specification]
#[verifier::external_body]
pub struct ExSystemTimeError(SystemTimeError);

/// Directories never listed besides dot-directories and the ones the OS
/// hides: the build trees no pipeline lives in.
pub const SKIPPED_DIRECTORIES: [&'static str; 2] = ["node_modules", "target"];

/// Why a listing was refused; [`FilesError::kind`] is the wire tag,
/// [`FilesError::message`] the reason in words, and the body carries the
/// `dir` as the client sent it.
#[derive(Debug)]
pub enum FilesError {
    /// `dir` is not a plain root-relative path (400).
    PathNotAllowed {
        /// The request's `dir`.
        dir: String,
        /// What was wrong with it.
        reason: &'static str,
    },
    /// `dir` exists but its canonical path leaves the root (400).
    OutsideRoot {
        /// The request's `dir`.
        dir: String,
    },
    /// No such directory under the root (404).
    NotFound {
        /// The request's `dir`.
        dir: String,
    },
    /// `dir` names a file (404).
    NotADirectory {
        /// The request's `dir`.
        dir: String,
    },
    /// The directory could not be read (403).
    Io {
        /// The request's `dir`.
        dir: String,
        /// The OS error.
        source: std::io::Error,
    },
}

/// The wire tag of a refusal.
pub open spec fn files_error_kind(error: FilesError) -> FilesErrorKind {
    match error {
        FilesError::PathNotAllowed { .. } => FilesErrorKind::PathNotAllowed,
        FilesError::OutsideRoot { .. } => FilesErrorKind::PathNotAllowed,
        FilesError::NotFound { .. } => FilesErrorKind::NotFound,
        FilesError::NotADirectory { .. } => FilesErrorKind::NotFound,
        FilesError::Io { .. } => FilesErrorKind::IoError,
    }
}

/// The `dir` a refusal carries.
pub open spec fn files_error_dir(error: FilesError) -> Seq<char> {
    match error {
        FilesError::PathNotAllowed { dir, .. } => dir@,
        FilesError::OutsideRoot { dir } => dir@,
        FilesError::NotFound { dir } => dir@,
        FilesError::NotADirectory { dir } => dir@,
        FilesError::Io { dir, .. } => dir@,
    }
}

/// How a refusal reads (the OS's own words, for an I/O failure, follow
/// the text given here).
pub open spec fn files_error_text(error: FilesError) -> Seq<char> {
    match error {
        FilesError::PathNotAllowed { dir, reason } => "`"@ + dir@
            + "` is not a root-relative directory path: "@ + reason@,
        FilesError::OutsideRoot { dir } => "`"@ + dir@ + "` resolves outside the served root — refused"@,
        FilesError::NotFound { dir } => "no directory `"@ + dir@ + "` under the root"@,
        FilesError::NotADirectory { dir } => "`"@ + dir@ + "` is not a directory"@,
        FilesError::Io { dir, .. } => "reading `"@ + dir@ + "`: "@,
    }
}

/// The OS error's own words.
#[verifier::external_body]
fn os_error_text(error: &std::io::Error) -> String {
    error.to_string()
}

/// A refusal's body: `{kind, message, path}`, the shape of every
/// git-route refusal too.
#[derive(Debug, Clone, PartialEq, Eq)]
pub struct FilesRefusal {
    /// The wire tag.
    pub kind: FilesErrorKind,
    /// The reason in words.
    pub message: String,
    /// The `dir` as the client sent it.
    pub path: String,
}

impl FilesError {
    /// The wire tag.
    pub fn kind(&self) -> (kind: FilesErrorKind)
        ensures
            kind == files_error_kind(*self),
    {
        match self {
            FilesError::PathNotAllowed { .. } => FilesErrorKind::PathNotAllowed,
            FilesError::OutsideRoot { .. } => FilesErrorKind::PathNotAllowed,
            FilesError::NotFound { .. } => FilesErrorKind::NotFound,
            FilesError::NotADirectory { .. } => FilesErrorKind::NotFound,
            FilesError::Io { .. } => FilesErrorKind::IoError,
        }
    }

    /// The `dir` the request named, verbatim.
    pub fn dir(&self) -> (dir: &str)
        ensures
            dir@ == files_error_dir(*self),
    {
        match self {
            FilesError::PathNotAllowed { dir, .. } => dir.as_str(),
            FilesError::OutsideRoot { dir } => dir.as_str(),
            FilesError::NotFound { dir } => dir.as_str(),
            FilesError::NotADirectory { dir } => dir.as_str(),
            FilesError::Io { dir, .. } => dir.as_str(),
        }
    }

    /// The reason in words.
    pub fn message(&self) -> (text: String)
        ensures
            self matches FilesError::Io { .. } ==> files_error_text(*self).len() <= text@.len()
                && text@.subrange(0, files_error_text(*self).len() as int) == files_error_text(*self),
            !(self matches FilesError::Io { .. }) ==> text@ == files_error_text(*self),
    {
        match self {
            FilesError::PathNotAllowed { dir, reason } => {
                let mut text = "`".to_owned();
                text.append(dir.as_str());
                text.append("` is not a root-relative directory path: ");
                text.append(reason);
                text
            },
            FilesError::OutsideRoot { dir } => {
                let mut text = "`".to_owned();
                text.append(dir.as_str());
                text.append("` resolves outside the served root — refused");
                text
            },
            FilesError::NotFound { dir } => {
                let mut text = "no directory `".to_owned();
                text.append(dir.as_str());
                text.append("` under the root");
                text
            },
            FilesError::NotADirectory { dir } => {
                let mut text = "`".to_owned();
                text.append(dir.as_str());
                text.append("` is not a directory");
                text
            },
            FilesError::Io { dir, source } => {
                let mut text = "reading `".to_owned();
                text.append(dir.as_str());
                text.append("`: ");
                let ghost head = text@;
                let os = os_error_text(source);
                text.append(os.as_str());
                assert(text@.subrange(0, head.len() as int) =~= head);
                text
            },
        }
    }

    /// The refusal body: `{kind, message, path}`.
    pub fn body(&self) -> (body: FilesRefusal)
        ensures
            body.kind == files_error_kind(*self),
            body.path@ == files_error_dir(*self),
            !(self matches FilesError::Io { .. }) ==> body.message@ == files_error_text(*self),
    {
        FilesRefusal { kind: self.kind(), message: self.message(), path: self.dir().to_owned() }
    }
}

// ---------------------------------------------------------------------
// Normalisation
// ---------------------------------------------------------------------

/// Why `dir` is refused before any file-system access, if it is: a NUL
/// byte, a backslash, a `:`, a leading `/`, or a `..` segment (checked in
/// that order).
pub open spec fn dir_refusal(dir: Seq<char>) -> Option<Seq<char>> {
    if dir.contains('\0') {
        Some("a NUL byte"@)
    } else if dir.contains('\\') {
        Some("a backslash — paths are `/`-separated"@)
    } else if dir.contains(':') {
        Some("a `:` — no drive prefixes or streams"@)
    } else if dir.len() > 0 && dir[0] == '/' {
        Some("an absolute path"@)
    } else if split_on(dir, '/').contains(".."@) {
        Some("a `..` segment"@)
    } else {
        None
    }
}

/// The pieces that name something: not empty, not `.`.
pub open spec fn named_segments(pieces: Seq<Seq<char>>) -> Seq<Seq<char>>
    decreases pieces.len(),
{
    if pieces.len() == 0 {
        pieces
    } else {
        let kept = named_segments(pieces.drop_last());
        if pieces.last().len() == 0 || pieces.last() == "."@ {
            kept
        } else {
            kept.push(pieces.last())
        }
    }
}

/// The normal segments of a directory path.
pub open spec fn dir_segments(dir: Seq<char>) -> Seq<Seq<char>> {
    named_segments(split_on(dir, '/'))
}

/// Normalise `dir` lexically, before any file-system access: its normal
/// segments. Empty and `.` segments vanish (`a//b/`, `./a/b` → `a/b`);
/// `..`, a leading `/`, a backslash, a `:` and a NUL byte are refused. The
/// root itself is no segments at all.
pub fn normalize_dir(dir: &str) -> (segments: Result<Vec<String>, FilesError>)
    ensures
        match segments {
            Ok(segments) => dir_refusal(dir@) is None && segments@.map_values(|s: String| s@)
                == dir_segments(dir@),
            Err(error) => dir_refusal(dir@) matches Some(reason) && error matches FilesError::PathNotAllowed {
                dir: d,
                reason: r,
            } && d@ == dir@ && r@ == reason,
        },
{
    proof {
        reveal_strlit("..");
        reveal_strlit(".");
    }
    let chars = chars_of(dir);
    if holds_char(chars.as_slice(), '\0') {
        return Err(FilesError::PathNotAllowed { dir: dir.to_owned(), reason: "a NUL byte" });
    }
    if holds_char(chars.as_slice(), '\\') {
        return Err(
            FilesError::PathNotAllowed {
                dir: dir.to_owned(),
                reason: "a backslash — paths are `/`-separated",
            },
        );
    }
    if holds_char(chars.as_slice(), ':') {
        return Err(
            FilesError::PathNotAllowed {
                dir: dir.to_owned(),
                reason: "a `:` — no drive prefixes or streams",
            },
        );
    }
    if chars.len() > 0 && chars[0] == '/' {
        return Err(FilesError::PathNotAllowed { dir: dir.to_owned(), reason: "an absolute path" });
    }
    let pieces = split_chars(chars.as_slice(), '/');
    let ghost views = pieces@.map_values(|p: Vec<char>| p@);
    let up: [char; 2] = ['.', '.'];
    let here: [char; 1] = ['.'];
    assert(up@ =~= ".."@);
    assert(here@ =~= "."@);
    let mut segments: Vec<String> = Vec::new();
    let mut i: usize = 0;
    assert(views.take(0) =~= Seq::<Seq<char>>::empty());
    while i < pieces.len()
        invariant
            0 <= i <= pieces@.len(),
            views == pieces@.map_values(|p: Vec<char>| p@),
            views == split_on(chars@, '/'),
            chars@ == dir@,
            !dir@.contains('\0'),
            !dir@.contains('\\'),
            !dir@.contains(':'),
            !(dir@.len() > 0 && dir@[0] == '/'),
            up@ == ".."@,
            here@ == "."@,
            forall|j: int| 0 <= j < i ==> views[j] != ".."@,
            segments@.map_values(|s: String| s@) == named_segments(views.take(i as int)),
        decreases pieces@.len() - i,
    {
        let piece = &pieces[i];
        proof {
            assert(views.take(i + 1).drop_last() =~= views.take(i as int));
            assert(views.take(i + 1).last() == piece@);
        }
        if same_chars(piece.as_slice(), &up) {
            proof {
                assert(views[i as int] == ".."@);
                assert(split_on(dir@, '/').contains(".."@));
            }
            return Err(FilesError::PathNotAllowed { dir: dir.to_owned(), reason: "a `..` segment" });
        }
        if piece.len() > 0 && !same_chars(piece.as_slice(), &here) {
            let named = string_of(piece.as_slice());
            segments.push(named);
            assert(segments@.map_values(|s: String| s@) =~= named_segments(views.take(i as int)).push(
                piece@,
            ));
        }
        i += 1;
    }
    proof {
        assert(views.take(views.len() as int) =~= views);
        if split_on(dir@, '/').contains(".."@) {
            let j = choose|j: int| 0 <= j < views.len() && views[j] == ".."@;
            assert(views[j] != ".."@);
        }
    }
    Ok(segments)
}

// ---------------------------------------------------------------------
// Names and times
// ---------------------------------------------------------------------

/// The last path component that names something (`None` for `..`, or a
/// path with no named component).
pub open spec fn file_name_of(path: Seq<char>) -> Option<Seq<char>> {
    let segments = dir_segments(path);
    if segments.len() == 0 || segments.last() == ".."@ {
        None
    } else {
        Some(segments.last())
    }
}

/// Where the last `.` of `name` is, if it has one.
pub open spec fn last_dot(name: Seq<char>) -> Option<int>
    decreases name.len(),
{
    if name.len() == 0 {
        None
    } else if name.last() == '.' {
        Some(name.len() - 1)
    } else {
        last_dot(name.drop_last())
    }
}

/// A file name's extension: what follows its last `.`, unless that `.` is
/// its first character.
pub open spec fn extension_of(name: Seq<char>) -> Option<Seq<char>> {
    match last_dot(name) {
        Some(i) => if i == 0 {
            None
        } else {
            Some(name.subrange(i + 1, name.len() as int))
        },
        None => None,
    }
}

/// ASCII letters folded to lower case; every other character as it is.
pub open spec fn ascii_lower(c: char) -> char {
    if 'A' <= c <= 'Z' {
        ((c as u32) + 32) as char
    } else {
        c
    }
}

/// `ext` is `cic`, ASCII case ignored.
pub open spec fn is_cic(ext: Seq<char>) -> bool {
    &&& ext.len() == 3
    &&& ascii_lower(ext[0]) == 'c'
    &&& ascii_lower(ext[1]) == 'i'
    &&& ascii_lower(ext[2]) == 'c'
}

/// `*.cic`: the file name's extension is `cic`, ASCII case ignored.
pub open spec fn pipeline_name(name: Seq<char>) -> bool {
    file_name_of(name) matches Some(file) && extension_of(file) matches Some(ext) && is_cic(ext)
}

/// Does `c` fold to the lower-case ASCII letter `lower` (`upper` its
/// capital)?
fn folds_to(c: char, lower: char, upper: char) -> (folds: bool)
    requires
        'a' <= lower <= 'z',
        upper as u32 + 32 == lower as u32,
    ensures
        folds == (ascii_lower(c) == lower),
{
    proof {
        if 'A' <= c <= 'Z' {
            assert(((c as u32) + 32) as char == lower <==> c == upper);
        }
    }
    c == lower || c == upper
}

/// Is `name` a pipeline's file name: `*.cic`, the extension compared
/// case-insensitively?
pub fn is_pipeline_name(name: &str) -> (pipeline: bool)
    ensures
        pipeline == pipeline_name(name@),
{
    let segments = match normalize_dir_lenient(name) {
        Some(segments) => segments,
        None => return false,
    };
    proof {
        reveal_strlit("..");
    }
    if segments.len() == 0 {
        return false;
    }
    let file = &segments[segments.len() - 1];
    let up: [char; 2] = ['.', '.'];
    assert(up@ =~= ".."@);
    if same_chars(file.as_slice(), &up) {
        return false;
    }
    // The last `.` of the file name.
    let mut i: usize = file.len();
    assert(file@.take(i as int) =~= file@);
    while i > 0 && file[i - 1] != '.'
        invariant
            0 <= i <= file@.len(),
            last_dot(file@) == last_dot(file@.take(i as int)),
        decreases i,
    {
        assert(file@.take(i as int).drop_last() =~= file@.take(i - 1));
        i -= 1;
    }
    proof {
        if i > 0 {
            assert(file@.take(i as int).last() == '.');
        } else {
            assert(file@.take(0) =~= Seq::<char>::empty());
        }
    }
    if i <= 1 {
        return false;
    }
    if file.len() - i != 3 {
        return false;
    }
    let ghost ext = file@.subrange(i as int, file@.len() as int);
    folds_to(file[i], 'c', 'C') && folds_to(file[i + 1], 'i', 'I') && folds_to(file[i + 2], 'c', 'C')
}

/// The named segments of any path (a `..` kept as a segment).
fn normalize_dir_lenient(path: &str) -> (segments: Option<Vec<Vec<char>>>)
    ensures
        segments matches Some(s) && s@.map_values(|p: Vec<char>| p@) == dir_segments(path@),
{
    proof {
        reveal_strlit(".");
    }
    let chars = chars_of(path);
    let pieces = split_chars(chars.as_slice(), '/');
    let ghost views = pieces@.map_values(|p: Vec<char>| p@);
    let here: [char; 1] = ['.'];
    assert(here@ =~= "."@);
    let mut segments: Vec<Vec<char>> = Vec::new();
    let mut i: usize = 0;
    assert(views.take(0) =~= Seq::<Seq<char>>::empty());
    while i < pieces.len()
        invariant
            0 <= i <= pieces@.len(),
            views == pieces@.map_values(|p: Vec<char>| p@),
            views == split_on(chars@, '/'),
            chars@ == path@,
            here@ == "."@,
            segments@.map_values(|s: Vec<char>| s@) == named_segments(views.take(i as int)),
        decreases pieces@.len() - i,
    {
        let piece = &pieces[i];
        proof {
            assert(views.take(i + 1).drop_last() =~= views.take(i as int));
            assert(views.take(i + 1).last() == piece@);
        }
        if piece.len() > 0 && !same_chars(piece.as_slice(), &here) {
            segments.push(piece.clone());
            assert(segments@.map_values(|s: Vec<char>| s@) =~= named_segments(views.take(i as int)).push(
                piece@,
            ));
        }
        i += 1;
    }
    assert(views.take(views.len() as int) =~= views);
    Some(segments)
}

/// What `SystemTime::duration_since(UNIX_EPOCH)` answers for a time: how
/// far after the epoch it lies, or an error holding how far before (a
/// function of the time value alone).
pub uninterp spec fn since_epoch_of(time: SystemTime) -> Result<Duration, SystemTimeError>;

/// How far after the Unix epoch `time` lies (`SystemTime::duration_since`);
/// the answer is [`since_epoch_of`] the time.
#[verifier::external_body]
fn since_epoch(time: SystemTime) -> (since: Result<Duration, SystemTimeError>)
    ensures
        since == since_epoch_of(time),
{
    time.duration_since(std::time::UNIX_EPOCH)
}

/// What `Duration::as_millis` answers: the whole milliseconds in a
/// duration.
pub uninterp spec fn whole_millis(duration: Duration) -> u128;

/// The whole milliseconds in `duration` (`Duration::as_millis`); they are
/// [`whole_millis`] of it.
#[verifier::external_body]
fn millis_of(duration: Duration) -> (millis: u128)
    ensures
        millis == whole_millis(duration),
{
    duration.as_millis()
}

/// What `SystemTimeError::duration` answers: how far before the epoch
/// the time lay.
pub uninterp spec fn time_before(error: SystemTimeError) -> Duration;

/// How far before the epoch the time lay (`SystemTimeError::duration`);
/// it is [`time_before`] the error.
#[verifier::external_body]
fn error_duration(error: &SystemTimeError) -> (before: Duration)
    ensures
        before == time_before(*error),
{
    error.duration()
}

/// A file time's distance from the Unix epoch in whole milliseconds, `Ok`
/// at or after it, `Err` before it.
pub open spec fn epoch_offset(time: SystemTime) -> Result<u128, u128> {
    match since_epoch_of(time) {
        Ok(after) => Ok(whole_millis(after)),
        Err(error) => Err(whole_millis(time_before(error))),
    }
}

/// A file time's distance from the Unix epoch in whole milliseconds (see
/// [`epoch_offset`]).
fn epoch_millis(time: SystemTime) -> (offset: Result<u128, u128>)
    ensures
        offset == epoch_offset(time),
{
    match since_epoch(time) {
        Ok(after) => Ok(millis_of(after)),
        Err(error) => Err(millis_of(error_duration(&error))),
    }
}

/// Signed milliseconds for a distance from the epoch, saturating at
/// `i64::MAX` either way.
pub open spec fn signed_millis_of(offset: Result<u128, u128>) -> i64 {
    match offset {
        Ok(after) => if after <= i64::MAX {
            after as i64
        } else {
            i64::MAX
        },
        Err(before) => if before <= i64::MAX {
            -(before as int) as i64
        } else {
            -(i64::MAX as int) as i64
        },
    }
}

/// Signed milliseconds for a distance from the epoch (`Ok` after it, `Err`
/// before it).
pub fn signed_millis(offset: Result<u128, u128>) -> (ms: i64)
    ensures
        ms == signed_millis_of(offset),
{
    match offset {
        Ok(after) => if after <= i64::MAX as u128 {
            after as i64
        } else {
            i64::MAX
        },
        Err(before) => if before <= i64::MAX as u128 {
            -(before as i64)
        } else {
            -i64::MAX
        },
    }
}

/// A file time as signed milliseconds since the Unix epoch (negative
/// before it), saturating past year 292 million.
pub fn modified_ms(time: SystemTime) -> (ms: i64)
    ensures
        ms == signed_millis_of(epoch_offset(time)),
{
    let offset = epoch_millis(time);
    signed_millis(offset)
}

// ---------------------------------------------------------------------
// What normalisation promises
// ---------------------------------------------------------------------

proof fn lemma_split_pieces(s: Seq<char>, sep: char)
    ensures
        forall|k: int, j: int|
            0 <= k < split_on(s, sep).len() && 0 <= j < split_on(s, sep)[k].len() ==> #[trigger] split_on(
                s,
                sep,
            )[k][j] != sep && s.contains(split_on(s, sep)[k][j]),
    decreases s.len(),
{
    if s.len() > 0 {
        let pieces = split_on(s.drop_last(), sep);
        lemma_split_pieces(s.drop_last(), sep);
        crate::text::lemma_split_nonempty(s.drop_last(), sep);
        assert forall|k: int, j: int|
            0 <= k < split_on(s, sep).len() && 0 <= j < split_on(s, sep)[k].len() implies #[trigger] split_on(
            s,
            sep,
        )[k][j] != sep && s.contains(split_on(s, sep)[k][j]) by {
            let c = split_on(s, sep)[k][j];
            if s.last() != sep && k == pieces.len() - 1 && j == pieces[k].len() {
                assert(c == s.last());
                assert(s[s.len() - 1] == c);
            } else {
                if s.last() == sep && k == pieces.len() {
                    assert(split_on(s, sep)[k].len() == 0);
                }
                assert(c == pieces[k][j]);
                let m = choose|m: int| 0 <= m < s.drop_last().len() && s.drop_last()[m] == c;
                assert(s[m] == c);
            }
        }
    }
}

proof fn lemma_named_segments(pieces: Seq<Seq<char>>)
    ensures
        forall|k: int|
            0 <= k < named_segments(pieces).len() ==> pieces.contains(#[trigger] named_segments(pieces)[k])
                && named_segments(pieces)[k].len() > 0 && named_segments(pieces)[k] != "."@,
    decreases pieces.len(),
{
    if pieces.len() > 0 {
        lemma_named_segments(pieces.drop_last());
        let kept = named_segments(pieces.drop_last());
        assert forall|k: int| 0 <= k < named_segments(pieces).len() implies pieces.contains(
            #[trigger] named_segments(pieces)[k],
        ) && named_segments(pieces)[k].len() > 0 && named_segments(pieces)[k] != "."@ by {
            if k < kept.len() {
                let m = choose|m: int| 0 <= m < pieces.drop_last().len() && pieces.drop_last()[m] == kept[k];
                assert(pieces[m] == kept[k]);
            } else {
                assert(pieces[pieces.len() - 1] == pieces.last());
            }
        }
    }
}

/// What normalisation accepts names nothing above the root: every segment
/// it returns is a plain name — not empty, not `.` or `..`, and free of
/// `/`, `\`, `:` and NUL.
pub proof fn lemma_normalised_segments_are_plain_names(dir: Seq<char>)
    requires
        dir_refusal(dir) is None,
    ensures
        forall|k: int|
            0 <= k < dir_segments(dir).len() ==> {
                let segment = #[trigger] dir_segments(dir)[k];
                &&& segment.len() > 0
                &&& segment != "."@
                &&& segment != ".."@
                &&& !segment.contains('/')
                &&& !segment.contains('\\')
                &&& !segment.contains(':')
                &&& !segment.contains('\0')
            },
{
    let pieces = split_on(dir, '/');
    lemma_split_pieces(dir, '/');
    lemma_named_segments(pieces);
    assert forall|k: int| 0 <= k < dir_segments(dir).len() implies {
        let segment = #[trigger] dir_segments(dir)[k];
        &&& segment.len() > 0
        &&& segment != "."@
        &&& segment != ".."@
        &&& !segment.contains('/')
        &&& !segment.contains('\\')
        &&& !segment.contains(':')
        &&& !segment.contains('\0')
    } by {
        let segment = dir_segments(dir)[k];
        let p = choose|p: int| 0 <= p < pieces.len() && pieces[p] == segment;
        if segment.contains('/') || segment.contains('\\') || segment.contains(':') || segment.contains('\0') {
            let j = choose|j: int|
                0 <= j < segment.len() && (segment[j] == '/' || segment[j] == '\\' || segment[j]
                    == ':' || segment[j] == '\0');
            assert(pieces[p][j] == segment[j]);
        }
    }
}

/// A text with no `sep` is one piece.
proof fn lemma_split_single(b: Seq<char>, sep: char)
    requires
        !b.contains(sep),
    ensures
        split_on(b, sep) == seq![b],
    decreases b.len(),
{
    if b.len() > 0 {
        let rest = b.drop_last();
        assert(!rest.contains(sep)) by {
            if rest.contains(sep) {
                let j = choose|j: int| 0 <= j < rest.len() && rest[j] == sep;
                assert(b[j] == sep);
            }
        }
        lemma_split_single(rest, sep);
        assert(b[b.len() - 1] == b.last());
        assert(b.last() != sep);
        assert(rest.push(b.last()) =~= b);
        assert(seq![rest].update(0, rest.push(b.last())) =~= seq![b]);
    } else {
        assert(b =~= Seq::<char>::empty());
    }
}

/// Cutting `a`, a `sep` and then a text with no `sep` gives the pieces of
/// `a` and that text.
proof fn lemma_split_after(a: Seq<char>, b: Seq<char>, sep: char)
    requires
        !b.contains(sep),
    ensures
        split_on(a + seq![sep] + b, sep) == split_on(a, sep).push(b),
    decreases b.len(),
{
    let s = a + seq![sep] + b;
    if b.len() == 0 {
        assert(s.drop_last() =~= a);
        assert(b =~= Seq::<char>::empty());
    } else {
        let rest = b.drop_last();
        assert(!rest.contains(sep)) by {
            if rest.contains(sep) {
                let j = choose|j: int| 0 <= j < rest.len() && rest[j] == sep;
                assert(b[j] == sep);
            }
        }
        lemma_split_after(a, rest, sep);
        assert(s.drop_last() =~= a + seq![sep] + rest);
        assert(b[b.len() - 1] == b.last());
        assert(s.last() == b.last());
        assert(rest.push(b.last()) =~= b);
        assert(split_on(a, sep).push(rest).update(split_on(a, sep).len() as int, rest.push(b.last()))
            =~= split_on(a, sep).push(b));
    }
}

/// Pieces free of `sep`, joined by it, cut back into themselves.
proof fn lemma_split_joined(ps: Seq<Seq<char>>, sep: char)
    requires
        ps.len() >= 1,
        forall|k: int| 0 <= k < ps.len() ==> !(#[trigger] ps[k]).contains(sep),
    ensures
        split_on(joined(ps, seq![sep]), sep) == ps,
    decreases ps.len(),
{
    if ps.len() == 1 {
        lemma_split_single(ps[0], sep);
        assert(seq![ps[0]] =~= ps);
    } else {
        let front = ps.drop_last();
        assert forall|k: int| 0 <= k < front.len() implies !(#[trigger] front[k]).contains(sep) by {
            assert(front[k] == ps[k]);
        }
        lemma_split_joined(front, sep);
        assert(ps[ps.len() - 1] == ps.last());
        lemma_split_after(joined(front, seq![sep]), ps.last(), sep);
        assert(front.push(ps.last()) =~= ps);
    }
}

/// Pieces that all name something are kept, all of them.
proof fn lemma_named_keeps_all(ps: Seq<Seq<char>>)
    requires
        forall|k: int| 0 <= k < ps.len() ==> (#[trigger] ps[k]).len() > 0 && ps[k] != "."@,
    ensures
        named_segments(ps) == ps,
    decreases ps.len(),
{
    if ps.len() > 0 {
        let front = ps.drop_last();
        assert forall|k: int| 0 <= k < front.len() implies (#[trigger] front[k]).len() > 0 && front[k]
            != "."@ by {
            assert(front[k] == ps[k]);
        }
        lemma_named_keeps_all(front);
        assert(ps[ps.len() - 1] == ps.last());
        assert(front.push(ps.last()) =~= ps);
    }
}

/// A property every character of the pieces and of the separator has,
/// every character of the joined text has.
proof fn lemma_joined_chars(ps: Seq<Seq<char>>, sep: Seq<char>, p: spec_fn(char) -> bool)
    requires
        forall|k: int, j: int| 0 <= k < ps.len() && 0 <= j < ps[k].len() ==> p(#[trigger] ps[k][j]),
        forall|j: int| 0 <= j < sep.len() ==> p(#[trigger] sep[j]),
    ensures
        forall|i: int| 0 <= i < joined(ps, sep).len() ==> p(#[trigger] joined(ps, sep)[i]),
    decreases ps.len(),
{
    if ps.len() == 1 {
        assert forall|i: int| 0 <= i < joined(ps, sep).len() implies p(#[trigger] joined(ps, sep)[i]) by {
            assert(ps[0][i] == joined(ps, sep)[i]);
        }
    } else if ps.len() > 1 {
        let front = ps.drop_last();
        assert forall|k: int, j: int| 0 <= k < front.len() && 0 <= j < front[k].len() implies p(
            #[trigger] front[k][j],
        ) by {
            assert(front[k] == ps[k]);
        }
        lemma_joined_chars(front, sep, p);
        let a = joined(front, sep);
        let last = ps.last();
        assert(ps[ps.len() - 1] == last);
        assert forall|i: int| 0 <= i < joined(ps, sep).len() implies p(#[trigger] joined(ps, sep)[i]) by {
            assert(joined(ps, sep) == a + sep + last);
            if i < a.len() {
                assert(joined(ps, sep)[i] == a[i]);
            } else if i < a.len() + sep.len() {
                assert(joined(ps, sep)[i] == sep[i - a.len()]);
            } else {
                assert(joined(ps, sep)[i] == last[i - a.len() - sep.len()]);
                assert(ps[ps.len() - 1][i - a.len() - sep.len()] == last[i - a.len() - sep.len()]);
            }
        }
    }
}

/// Normalisation is idempotent: the segments an accepted directory
/// normalises to, joined with `/`, are accepted again and normalise to
/// the same segments.
pub proof fn lemma_normalising_joined_segments_gives_them_back(dir: Seq<char>)
    requires
        dir_refusal(dir) is None,
    ensures
        dir_refusal(joined(dir_segments(dir), "/"@)) is None,
        dir_segments(joined(dir_segments(dir), "/"@)) == dir_segments(dir),
{
    reveal_strlit("/");
    reveal_strlit(".");
    reveal_strlit("..");
    let segs = dir_segments(dir);
    let text = joined(segs, "/"@);
    assert("/"@ =~= seq!['/']);
    lemma_normalised_segments_are_plain_names(dir);
    if segs.len() == 0 {
        assert(text =~= Seq::<char>::empty());
        assert(split_on(text, '/') =~= seq![Seq::<char>::empty()]);
        assert(seq![Seq::<char>::empty()].drop_last() =~= Seq::<Seq<char>>::empty());
        assert(named_segments(Seq::<Seq<char>>::empty()) == Seq::<Seq<char>>::empty());
        assert(seq![Seq::<char>::empty()].last().len() == 0);
        assert(named_segments(seq![Seq::<char>::empty()]) =~= Seq::<Seq<char>>::empty());
        assert(!text.contains('\0') && !text.contains('\\') && !text.contains(':'));
        assert(!split_on(text, '/').contains(".."@)) by {
            assert(split_on(text, '/')[0] == Seq::<char>::empty());
            assert(".."@.len() == 2);
        }
    } else {
        assert forall|k: int| 0 <= k < segs.len() implies !(#[trigger] segs[k]).contains('/') by {}
        lemma_split_joined(segs, '/');
        assert forall|k: int| 0 <= k < segs.len() implies (#[trigger] segs[k]).len() > 0 && segs[k]
            != "."@ by {}
        lemma_named_keeps_all(segs);
        let plain = |c: char| c != '\0' && c != '\\' && c != ':';
        assert forall|k: int, j: int| 0 <= k < segs.len() && 0 <= j < segs[k].len() implies plain(
            #[trigger] segs[k][j],
        ) by {
            let s = segs[k];
            if s[j] == '\0' {
                assert(s.contains('\0'));
            }
            if s[j] == '\\' {
                assert(s.contains('\\'));
            }
            if s[j] == ':' {
                assert(s.contains(':'));
            }
        }
        lemma_joined_chars(segs, "/"@, plain);
        assert(!text.contains('\0') && !text.contains('\\') && !text.contains(':')) by {
            if text.contains('\0') || text.contains('\\') || text.contains(':') {
                let i = choose|i: int|
                    0 <= i < text.len() && (text[i] == '\0' || text[i] == '\\' || text[i] == ':');
                assert(plain(text[i]));
            }
        }
        assert(text.len() == 0 || text[0] != '/') by {
            lemma_joined_first(segs, "/"@);
            let s0 = segs[0];
            if text.len() > 0 && text[0] == '/' {
                assert(s0.contains('/'));
            }
        }
        assert(!split_on(text, '/').contains(".."@)) by {
            if split_on(text, '/').contains(".."@) {
                let k = choose|k: int| 0 <= k < segs.len() && segs[k] == ".."@;
                assert(segs[k] != ".."@);
            }
        }
    }
}

/// A join of pieces starts with its first piece.
proof fn lemma_joined_first(ps: Seq<Seq<char>>, sep: Seq<char>)
    requires
        ps.len() >= 1,
    ensures
        joined(ps, sep).len() >= ps[0].len(),
        forall|j: int| 0 <= j < ps[0].len() ==> #[trigger] joined(ps, sep)[j] == ps[0][j],
    decreases ps.len(),
{
    if ps.len() > 1 {
        let front = ps.drop_last();
        lemma_joined_first(front, sep);
        assert(front[0] == ps[0]);
        assert(joined(ps, sep) == joined(front, sep) + sep + ps.last());
    }
}

/// The extension of `path`'s file name, if it has one.
pub fn extension_text(path: &str) -> (ext: Option<Vec<char>>)
    ensures
        match ext {
            Some(e) => file_name_of(path@) matches Some(file) && extension_of(file) == Some(e@),
            None => !(file_name_of(path@) matches Some(file) && extension_of(file) is Some),
        },
{
    proof {
        reveal_strlit("..");
    }
    let segments = match normalize_dir_lenient(path) {
        Some(segments) => segments,
        None => return None,
    };
    if segments.len() == 0 {
        return None;
    }
    let file = &segments[segments.len() - 1];
    let up: [char; 2] = ['.', '.'];
    assert(up@ =~= ".."@);
    if same_chars(file.as_slice(), &up) {
        return None;
    }
    let mut i: usize = file.len();
    assert(file@.take(i as int) =~= file@);
    while i > 0 && file[i - 1] != '.'
        invariant
            0 <= i <= file@.len(),
            last_dot(file@) == last_dot(file@.take(i as int)),
        decreases i,
    {
        assert(file@.take(i as int).drop_last() =~= file@.take(i - 1));
        i -= 1;
    }
    proof {
        if i > 0 {
            assert(file@.take(i as int).last() == '.');
        } else {
            assert(file@.take(0) =~= Seq::<char>::empty());
        }
    }
    if i <= 1 {
        return None;
    }
    let mut ext: Vec<char> = Vec::new();
    let mut k: usize = i;
    while k < file.len()
        invariant
            i <= k <= file@.len(),
            ext@ == file@.subrange(i as int, k as int),
        decreases file@.len() - k,
    {
        ext.push(file[k]);
        assert(ext@ =~= file@.subrange(i as int, k + 1));
        k += 1;
    }
    Some(ext)
}


/// The root's display name: its last path component — `None` for a
/// file-system root, which has none (its path is shown instead).
pub fn root_name(root: &str) -> (name: Option<String>)
    ensures
        match name {
            Some(n) => file_name_of(root@) == Some(n@),
            None => file_name_of(root@) is None,
        },
{
    proof {
        reveal_strlit("..");
    }
    let segments = match normalize_dir_lenient(root) {
        Some(segments) => segments,
        None => return None,
    };
    if segments.len() == 0 {
        return None;
    }
    let last = &segments[segments.len() - 1];
    assert(segments@.map_values(|p: Vec<char>| p@).last() == last@);
    let up: [char; 2] = ['.', '.'];
    assert(up@ =~= ".."@);
    if same_chars(last.as_slice(), &up) {
        return None;
    }
    Some(string_of(last.as_slice()))
}


/// A pipeline reference the server accepts: relative, `/`-separated, every
/// component a plain name (no leading `.`, no `..`), no `\` and no `:`,
/// and a `.cic` file name (ASCII case ignored).
pub open spec fn valid_pipeline_ref(path: Seq<char>) -> bool {
    &&& path.len() > 0
    &&& path[0] != '/'
    &&& !path.contains('\\')
    &&& !path.contains(':')
    &&& split_on(path, '/')[0] != "."@
    &&& forall|i: int| 0 <= i < split_on(path, '/').len() ==> #[trigger] split_on(path, '/')[i] != ".."@
    &&& pipeline_name(path)
}

/// Check a request's pipeline reference lexically, before any file-system
/// access: the only way to name a pipeline is by its place inside the
/// project. `Err` hands back the refused reference.
pub fn validate_pipeline_ref(relative: &str) -> (checked: Result<String, String>)
    ensures
        match checked {
            Ok(path) => valid_pipeline_ref(relative@) && path@ == relative@,
            Err(bad) => !valid_pipeline_ref(relative@) && bad@ == relative@,
        },
{
    proof {
        reveal_strlit(".");
        reveal_strlit("..");
    }
    let chars = chars_of(relative);
    if chars.len() == 0 || chars[0] == '/' || holds_char(chars.as_slice(), '\\') || holds_char(
        chars.as_slice(),
        ':',
    ) {
        return Err(relative.to_owned());
    }
    let pieces = split_chars(chars.as_slice(), '/');
    let ghost views = pieces@.map_values(|p: Vec<char>| p@);
    proof {
        crate::text::lemma_split_nonempty(chars@, '/');
    }
    let here: [char; 1] = ['.'];
    let up: [char; 2] = ['.', '.'];
    assert(here@ =~= "."@);
    assert(up@ =~= ".."@);
    assert(views[0] == pieces@[0]@);
    if same_chars(pieces[0].as_slice(), &here) {
        return Err(relative.to_owned());
    }
    let mut k: usize = 0;
    while k < pieces.len()
        invariant
            0 <= k <= pieces@.len(),
            views == pieces@.map_values(|p: Vec<char>| p@),
            views == split_on(relative@, '/'),
            up@ == ".."@,
            forall|m: int| 0 <= m < k ==> views[m] != ".."@,
        decreases pieces@.len() - k,
    {
        assert(views[k as int] == pieces@[k as int]@);
        if same_chars(pieces[k].as_slice(), &up) {
            return Err(relative.to_owned());
        }
        k += 1;
    }
    if !is_pipeline_name(relative) {
        return Err(relative.to_owned());
    }
    Ok(relative.to_owned())
}


// ---------------------------------------------------------------------
// Listing
// ---------------------------------------------------------------------

/// A directory entry left out of listings and walks: a dot-name, a name
/// in [`SKIPPED_DIRECTORIES`], or one the OS flags hidden. Unlisted, not
/// unenterable: the root is the boundary.
pub open spec fn skipped_name(name: Seq<char>, os_hidden: bool) -> bool {
    (name.len() > 0 && name[0] == '.') || os_hidden || name == "node_modules"@ || name == "target"@
}

/// Is a directory entry left out of listings (`os_hidden`: the OS's own
/// hidden flag on the entry's own metadata)?
pub fn skipped_directory(name: &str, os_hidden: bool) -> (skipped: bool)
    ensures
        skipped == skipped_name(name@, os_hidden),
{
    let chars = chars_of(name);
    if (chars.len() > 0 && chars[0] == '.') || os_hidden {
        return true;
    }
    let mut k: usize = 0;
    while k < 2
        invariant
            0 <= k <= 2,
            chars@ == name@,
            k >= 1 ==> name@ != "node_modules"@,
            k >= 2 ==> name@ != "target"@,
        decreases 2 - k,
    {
        let skipped = SKIPPED_DIRECTORIES[k];
        let skipped_chars = chars_of(skipped);
        if same_chars(chars.as_slice(), skipped_chars.as_slice()) {
            return true;
        }
        k += 1;
    }
    false
}

/// What an entry that is not skipped is, from its name and its target's
/// type: a directory, a `.cic` file, or nothing to list.
pub fn entry_kind(name: &str, is_dir: bool, is_file: bool) -> (kind: Option<FileKind>)
    ensures
        kind == if is_dir {
            Some(FileKind::Dir)
        } else if is_file && pipeline_name(name@) {
            Some(FileKind::Pipeline)
        } else {
            None
        },
{
    if is_dir {
        Some(FileKind::Dir)
    } else if is_file && is_pipeline_name(name) {
        Some(FileKind::Pipeline)
    } else {
        None
    }
}

/// Where a listing is: the normalised segments joined by `/`, and its
/// parent in the same form (`None` at the root).
pub fn listing_place(segments: &Vec<String>) -> (place: (String, Option<String>))
    ensures
        place.0@ == joined(texts_of(segments@), "/"@),
        match place.1 {
            Some(p) => segments@.len() > 0 && p@ == joined(texts_of(segments@).drop_last(), "/"@),
            None => segments@.len() == 0,
        },
{
    let dir = join(segments, "/");
    if segments.len() == 0 {
        return (dir, None);
    }
    let mut parents: Vec<String> = Vec::new();
    let mut k: usize = 0;
    let last = segments.len() - 1;
    while k < last
        invariant
            last == segments@.len() - 1,
            0 <= k < segments@.len(),
            texts_of(parents@) == texts_of(segments@).take(k as int),
        decreases segments@.len() - k,
    {
        let ghost prev = parents@;
        parents.push(segments[k].clone());
        assert(parents@ =~= prev.push(segments@[k as int]));
        assert(texts_of(parents@) =~= texts_of(prev).push(segments@[k as int]@));
        assert(texts_of(segments@).take(k + 1) =~= texts_of(segments@).take(k as int).push(segments@[k as int]@));
        k += 1;
    }
    assert(texts_of(segments@).take(k as int) =~= texts_of(segments@).drop_last());
    let parent = join(&parents, "/");
    (dir, Some(parent))
}

/// What a walk of the project makes of a directory entry.
#[derive(Debug, Clone, Copy, PartialEq, Eq, Structural)]
pub enum ProjectEntry {
    /// A directory to walk into.
    Descend,
    /// A `*.cic` pipeline.
    Pipeline,
    /// A `*.py` script node beside a pipeline (in a `scripts` directory).
    Script,
    /// Nothing the project lists.
    Pass,
}

/// `name`'s extension is `ext`.
pub open spec fn extension_is(name: Seq<char>, ext: Seq<char>) -> bool {
    file_name_of(name) matches Some(file) && extension_of(file) == Some(ext)
}

/// What the project walk makes of an entry named `name`, a directory or
/// not, in a `scripts` directory or not: skipped directories are passed
/// over; pipelines anywhere, scripts only in a `scripts` directory.
pub open spec fn project_entry_of(name: Seq<char>, is_dir: bool, in_scripts_dir: bool) -> ProjectEntry {
    if is_dir {
        if skipped_name(name, false) {
            ProjectEntry::Pass
        } else {
            ProjectEntry::Descend
        }
    } else if extension_is(name, "cic"@) {
        ProjectEntry::Pipeline
    } else if in_scripts_dir && extension_is(name, "py"@) {
        ProjectEntry::Script
    } else {
        ProjectEntry::Pass
    }
}

/// Does `name` have the extension `ext`?
fn has_extension(name: &str, ext: &[char]) -> (has: bool)
    ensures
        has == extension_is(name@, ext@),
{
    match extension_text(name) {
        Some(found) => same_chars(found.as_slice(), ext),
        None => false,
    }
}

/// What the project walk makes of an entry (see [`project_entry_of`]).
pub fn project_entry(name: &str, is_dir: bool, in_scripts_dir: bool) -> (entry: ProjectEntry)
    ensures
        entry == project_entry_of(name@, is_dir, in_scripts_dir),
{
    proof {
        reveal_strlit("cic");
        reveal_strlit("py");
    }
    if is_dir {
        if skipped_directory(name, false) {
            ProjectEntry::Pass
        } else {
            ProjectEntry::Descend
        }
    } else {
        let cic: [char; 3] = ['c', 'i', 'c'];
        let py: [char; 2] = ['p', 'y'];
        assert(cic@ =~= "cic"@);
        assert(py@ =~= "py"@);
        if has_extension(name, &cic) {
            ProjectEntry::Pipeline
        } else if in_scripts_dir && has_extension(name, &py) {
            ProjectEntry::Script
        } else {
            ProjectEntry::Pass
        }
    }
}

/// `text` with every `\` turned into `/`.
pub open spec fn forward_slashed(text: Seq<char>) -> Seq<char> {
    text.map_values(|c: char| if c == '\\' { '/' } else { c })
}

/// A project-relative path in the `/`-separated form every key uses.
pub fn forward_slashes(text: &str) -> (out: String)
    ensures
        out@ == forward_slashed(text@),
{
    let chars = chars_of(text);
    let mut out: Vec<char> = Vec::new();
    let mut k: usize = 0;
    while k < chars.len()
        invariant
            0 <= k <= chars@.len(),
            chars@ == text@,
            out@ == forward_slashed(text@.take(k as int)),
        decreases chars@.len() - k,
    {
        let c = chars[k];
        out.push(if c == '\\' { '/' } else { c });
        assert(forward_slashed(text@.take(k + 1)) =~= forward_slashed(text@.take(k as int)).push(
            if c == '\\' { '/' } else { c },
        ));
        k += 1;
    }
    assert(text@.take(text@.len() as int) =~= text@);
    string_of(out.as_slice())
}

/// The texts of a run of strings.
pub open spec fn texts_of(strings: Seq<String>) -> Seq<Seq<char>> {
    strings.map_values(|s: String| s@)
}

/// What `str::to_lowercase` makes of a text.
pub uninterp spec fn lowercase(text: Seq<char>) -> Seq<char>;

/// A text in lower case (`str::to_lowercase`).
#[verifier::external_body]
fn lower_text(text: &str) -> (lower: String)
    ensures
        lower@ == lowercase(text@),
{
    text.to_lowercase()
}

/// The listing order: directories before pipelines; within a kind by
/// lower-case name, then by name.
pub open spec fn listed_before(a: FileEntry, b: FileEntry) -> bool {
    if a.kind != b.kind {
        a.kind == FileKind::Dir
    } else if lowercase(a.name@) != lowercase(b.name@) {
        text_less(lowercase(a.name@), lowercase(b.name@))
    } else {
        text_less(a.name@, b.name@)
    }
}

/// Does `a` list before `b`?
fn lists_before(a: &FileEntry, b: &FileEntry) -> (before: bool)
    ensures
        before == listed_before(*a, *b),
{
    if a.kind != b.kind {
        return match a.kind {
            FileKind::Dir => true,
            FileKind::Pipeline => false,
        };
    }
    let la = lower_text(a.name.as_str());
    let lb = lower_text(b.name.as_str());
    let ca = chars_of(la.as_str());
    let cb = chars_of(lb.as_str());
    if !same_chars(ca.as_slice(), cb.as_slice()) {
        return text_before(ca.as_slice(), cb.as_slice());
    }
    let na = chars_of(a.name.as_str());
    let nb = chars_of(b.name.as_str());
    text_before(na.as_slice(), nb.as_slice())
}

/// `entries` are in listing order: no entry lists before one ahead of it.
pub open spec fn in_listing_order(entries: Seq<FileEntry>) -> bool {
    forall|i: int, j: int| 0 <= i < j < entries.len() ==> !listed_before(#[trigger] entries[j], #[trigger] entries[i])
}

/// Sort a directory's entries into listing order: directories first, each
/// group in case-insensitive name order (ties by name). The same entries,
/// in order.
pub fn sort_entries(entries: Vec<FileEntry>) -> (sorted: Vec<FileEntry>)
    ensures
        sorted@.to_multiset() == entries@.to_multiset(),
        in_listing_order(sorted@),
{
    let mut sorted: Vec<FileEntry> = Vec::new();
    let mut k: usize = 0;
    proof {
        broadcast use vstd::seq_lib::group_to_multiset_ensures;

        assert(entries@.take(0) =~= Seq::<FileEntry>::empty());
        assert(sorted@ =~= Seq::<FileEntry>::empty());
        assert(sorted@.to_multiset() =~= entries@.take(0).to_multiset());
    }
    while k < entries.len()
        invariant
            0 <= k <= entries@.len(),
            sorted@.to_multiset() == entries@.take(k as int).to_multiset(),
            in_listing_order(sorted@),
        decreases entries@.len() - k,
    {
        let entry = copy_entry(&entries[k]);
        // The first place where the entry lists before what is there.
        let mut at: usize = 0;
        while at < sorted.len() && !lists_before(&entry, &sorted[at])
            invariant
                0 <= at <= sorted@.len(),
                forall|i: int| 0 <= i < at ==> !listed_before(entry, #[trigger] sorted@[i]),
            decreases sorted@.len() - at,
        {
            at += 1;
        }
        let ghost before = sorted@;
        sorted.insert(at, entry);
        proof {
            broadcast use vstd::seq_lib::group_to_multiset_ensures;

            assert(entries@.take(k + 1) =~= entries@.take(k as int).push(entries@[k as int]));
            lemma_insert_multiset(before, at as int, entry);
            lemma_listing_insert(before, at as int, entry);
        }
        k += 1;
    }
    assert(entries@.take(entries@.len() as int) =~= entries@);
    sorted
}


/// The same entry, as a new value.
fn copy_entry(e: &FileEntry) -> (copy: FileEntry)
    ensures
        copy == *e,
{
    FileEntry { name: e.name.clone(), kind: e.kind, modified_ms: e.modified_ms }
}

/// Inserting an element adds it to the multiset.
proof fn lemma_insert_multiset(s: Seq<FileEntry>, at: int, x: FileEntry)
    requires
        0 <= at <= s.len(),
    ensures
        s.insert(at, x).to_multiset() == s.to_multiset().insert(x),
{
    broadcast use vstd::seq_lib::group_to_multiset_ensures;

    let t = s.insert(at, x);
    assert(t.remove(at) =~= s);
    assert(t[at] == x);
    assert(t.contains(x));
    assert(t.to_multiset().count(x) > 0);
    assert(t.to_multiset() =~= t.to_multiset().remove(x).insert(x));
}

/// The listing order is transitive.
proof fn lemma_listed_before_transitive(a: FileEntry, b: FileEntry, c: FileEntry)
    requires
        listed_before(a, b),
        listed_before(b, c),
    ensures
        listed_before(a, c),
{
    if a.kind == b.kind && b.kind == c.kind {
        let (la, lb, lc) = (lowercase(a.name@), lowercase(b.name@), lowercase(c.name@));
        if la != lb && lb != lc {
            lemma_text_less_transitive(la, lb, lc);
            if la == lc {
                lemma_text_less_total(la, lb);
            }
        } else if la != lb {
            assert(lb == lc);
        } else if lb != lc {
            assert(la == lb);
        } else {
            lemma_text_less_transitive(a.name@, b.name@, c.name@);
        }
    }
}

/// No two entries list before each other.
proof fn lemma_listed_before_asymmetric(a: FileEntry, b: FileEntry)
    ensures
        !(listed_before(a, b) && listed_before(b, a)),
{
    lemma_text_less_total(lowercase(a.name@), lowercase(b.name@));
    lemma_text_less_total(a.name@, b.name@);
}

/// Inserting an entry where it lists before the next one, and nothing
/// ahead of that place lists after it, keeps the order.
proof fn lemma_listing_insert(s: Seq<FileEntry>, at: int, x: FileEntry)
    requires
        0 <= at <= s.len(),
        in_listing_order(s),
        forall|i: int| 0 <= i < at ==> !listed_before(x, #[trigger] s[i]),
        at < s.len() ==> listed_before(x, s[at]),
    ensures
        in_listing_order(s.insert(at, x)),
{
    let t = s.insert(at, x);
    assert forall|i: int, j: int| 0 <= i < j < t.len() implies !listed_before(#[trigger] t[j], #[trigger] t[i]) by {
        if j < at {
            assert(t[i] == s[i] && t[j] == s[j]);
        } else if j == at {
            assert(t[i] == s[i]);
        } else if i < at {
            assert(t[i] == s[i] && t[j] == s[j - 1]);
            if listed_before(s[j - 1], s[i]) {
                assert(!listed_before(s[j - 1], s[i]));
            }
        } else if i == at {
            assert(t[i] == x && t[j] == s[j - 1]);
            if listed_before(s[j - 1], x) {
                if j - 1 == at {
                    lemma_listed_before_asymmetric(x, s[at]);
                } else {
                    lemma_listed_before_transitive(s[j - 1], x, s[at]);
                }
            }
        } else {
            assert(t[i] == s[i - 1] && t[j] == s[j - 1]);
        }
    }
}

} // verus!
