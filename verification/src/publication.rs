//! Ownership records, the publication journal, and the decisions that
//! publication and recovery of interrupted generations make.
use vstd::prelude::*;

use base64::Engine;

use crate::compiler::{outputs_sorted, Output, Plan};
use crate::config::{digest, hex, records_file, sha256, Inputs};
use crate::ignore::{block_lines, block_order, enabled, enabled_spec, outside_paths, update, update_spec, IgnoreFault};
use crate::outcome::{lemma_first_failure_concat, lemma_first_failure_none, lemma_first_failure_none_all};
use crate::path::path_views;
use crate::Failure;
use crate::outcome::{first_failure, lemma_first_failure_push, lemma_first_failure_prefix};
use crate::path::{is_prefix, parent_part, root_part, FsPath};
use crate::text::{chars_of, str_eq, string_views};

verus! {

/// The version of the ownership state and journal formats.
pub const STATE_VERSION: u32 = 1;

/// The prefix of every staging file's name.
pub open spec fn stage_prefix() -> Seq<char> {
    seq!['.', 'c', 'o', 'n', 'f', 's', 'e', 't', '-', 's', 't', 'a', 'g', 'e', '-']
}

/// What the staging prefix literal holds.
pub proof fn lemma_stage_prefix_literal()
    ensures
        ".confset-stage-"@ == stage_prefix(),
{
    reveal_strlit(".confset-stage-");
    assert(".confset-stage-"@ =~= stage_prefix());
}

/// Whether a name begins with the staging prefix.
pub fn has_stage_prefix(name: &str) -> (r: bool)
    ensures
        r == (stage_prefix().len() <= name@.len() && name@.take(stage_prefix().len() as int)
            == stage_prefix()),
{
    proof {
        lemma_stage_prefix_literal();
    }
    let p = chars_of(".confset-stage-");
    let n = chars_of(name);
    if n.len() < p.len() {
        return false;
    }
    let mut i: usize = 0;
    while i < p.len()
        invariant
            p@ == stage_prefix(),
            n@ == name@,
            p@.len() <= n@.len(),
            i <= p@.len(),
            n@.take(i as int) == p@.take(i as int),
        decreases p@.len() - i,
    {
        if n[i] != p[i] {
            assert(n@.take(p@.len() as int)[i as int] != p@[i as int]);
            return false;
        }
        assert(n@.take(i + 1) =~= n@.take(i as int).push(n@[i as int]));
        assert(p@.take(i + 1) =~= p@.take(i as int).push(p@[i as int]));
        i = i + 1;
    }
    assert(p@ =~= p@.take(p@.len() as int));
    true
}

/// Which file a path named when it was read: device and file number.
#[derive(Clone, Copy, Debug, PartialEq, Eq, Structural)]
pub struct Identity {
    pub device: u64,
    pub file: u64,
}

/// A file's content as the journal keeps it: base64 text, the fingerprint
/// of the bytes, the file's identity, and its permission bits.
pub struct Snapshot {
    pub content: String,
    pub hash: String,
    pub identity: Identity,
    pub mode: u32,
}

/// Why journal content cannot be trusted.
#[derive(Clone, Copy, Debug, PartialEq, Eq, Structural)]
pub enum ContentFault {
    /// The content is not valid base64.
    InvalidContent,
    /// The decoded bytes do not have the recorded fingerprint.
    HashMismatch,
}

/// The base64 text (standard alphabet, padded) of a byte sequence.
pub uninterp spec fn base64_encoding(bytes: Seq<u8>) -> Seq<char>;

/// The bytes that a text decodes to as padded standard base64, if it does.
pub uninterp spec fn base64_decoding(text: Seq<char>) -> Option<Seq<u8>>;

#[verifier::external_type_specification]
#[verifier::external_body]
pub struct ExDecodeError(base64::DecodeError);

/// `base64::engine::general_purpose::STANDARD.encode`: the padded standard
/// base64 text of `bytes`. Besides naming the text, the contract states that
/// the same engine decodes it back to `bytes`, as a canonical padded encoding
/// with no trailing bits does. The length bound keeps the engine's size
/// computation from overflowing.
#[verifier::external_body]
fn base64_encode(bytes: &[u8]) -> (r: String)
    requires
        bytes@.len() <= usize::MAX / 2,
    ensures
        r@ == base64_encoding(bytes@),
        base64_decoding(r@) == Some(bytes@),
{
    base64::engine::general_purpose::STANDARD.encode(bytes)
}

/// `base64::engine::general_purpose::STANDARD.decode`: the bytes that the
/// text decodes to, or the engine's error when it is not valid padded base64.
#[verifier::external_body]
fn base64_decode(text: &str) -> (r: Result<Vec<u8>, base64::DecodeError>)
    ensures
        match base64_decoding(text@) {
            Some(b) => r matches Ok(v) && v@ == b,
            None => r is Err,
        },
{
    base64::engine::general_purpose::STANDARD.decode(text)
}

/// The bytes a snapshot holds, once its content decodes and matches its
/// fingerprint.
pub open spec fn snapshot_bytes(s: Snapshot) -> Result<Seq<u8>, ContentFault> {
    match base64_decoding(s.content@) {
        None => Err(ContentFault::InvalidContent),
        Some(b) => if hex(sha256(b)) == s.hash@ {
            Ok(b)
        } else {
            Err(ContentFault::HashMismatch)
        },
    }
}

impl Snapshot {
    /// A copy equal to this snapshot.
    pub fn duplicate(&self) -> (r: Snapshot)
        ensures
            r == *self,
    {
        Snapshot {
            content: self.content.clone(),
            hash: self.hash.clone(),
            identity: self.identity,
            mode: self.mode,
        }
    }

    /// The bytes this snapshot holds, checked against its fingerprint.
    pub fn bytes(&self) -> (r: Result<Vec<u8>, ContentFault>)
        ensures
            match snapshot_bytes(*self) {
                Ok(b) => r matches Ok(v) && v@ == b,
                Err(f) => r == Err::<Vec<u8>, ContentFault>(f),
            },
    {
        let decoded = match base64_decode(self.content.as_str()) {
            Ok(b) => b,
            Err(_) => {
                return Err(ContentFault::InvalidContent);
            },
        };
        let fingerprint = digest(decoded.as_slice());
        if fingerprint == self.hash {
            Ok(decoded)
        } else {
            Err(ContentFault::HashMismatch)
        }
    }
}

/// The snapshot of a file that held `bytes`; its bytes read back unchanged.
pub fn snapshot_of(bytes: &[u8], identity: Identity, mode: u32) -> (r: Snapshot)
    requires
        bytes@.len() <= usize::MAX / 2,
    ensures
        r.content@ == base64_encoding(bytes@),
        r.hash@ == hex(sha256(bytes@)),
        r.identity == identity,
        r.mode == mode,
        snapshot_bytes(r) == Ok::<Seq<u8>, ContentFault>(bytes@),
{
    Snapshot { content: base64_encode(bytes), hash: digest(bytes), identity, mode }
}

/// Same bytes, judged by fingerprint; two absent files count as the same.
pub open spec fn same_content_spec(left: Option<Snapshot>, right: Option<Snapshot>) -> bool {
    match (left, right) {
        (None, None) => true,
        (Some(l), Some(r)) => l.hash@ == r.hash@,
        _ => false,
    }
}

/// Whether two possibly absent files hold the same bytes, by fingerprint.
pub fn same_content(left: Option<&Snapshot>, right: Option<&Snapshot>) -> (r: bool)
    ensures
        r == same_content_spec(
            match left {
                Some(s) => Some(*s),
                None => None,
            },
            match right {
                Some(s) => Some(*s),
                None => None,
            },
        ),
{
    match (left, right) {
        (None, None) => true,
        (Some(l), Some(r)) => l.hash == r.hash,
        _ => false,
    }
}

/// Whether a destination still is what publication expects to replace: the
/// same content and, when both exist, the same file.
pub fn verify_current(current: Option<&Snapshot>, expected: Option<&Snapshot>) -> (r: bool)
    ensures
        r == match (current, expected) {
            (None, None) => true,
            (Some(c), Some(e)) => c.hash@ == e.hash@ && c.identity == e.identity,
            _ => false,
        },
{
    if !same_content(current, expected) {
        return false;
    }
    match (current, expected) {
        (Some(c), Some(e)) => c.identity == e.identity,
        _ => true,
    }
}

/// The fingerprint of the bytes last written to an owned output.
pub struct Record {
    pub hash: String,
}

/// An owned output and its record.
pub struct Owned {
    pub path: FsPath,
    pub record: Record,
}

/// The ownership state: which outputs this project wrote, with what, and
/// which generation wrote them.
pub struct State {
    pub version: u32,
    pub root: FsPath,
    pub generation: String,
    pub outputs: Vec<Owned>,
}

/// The recorded fingerprint for a path: that of its first record.
pub open spec fn recorded_hash(outputs: Seq<Owned>, p: Seq<Seq<char>>) -> Option<Seq<char>>
    decreases outputs.len(),
{
    if outputs.len() == 0 {
        None
    } else if outputs[0].path@ == p {
        Some(outputs[0].record.hash@)
    } else {
        recorded_hash(outputs.drop_first(), p)
    }
}

/// The first record of a path that is recorded.
pub proof fn lemma_recorded_hash_at(outputs: Seq<Owned>, p: Seq<Seq<char>>, i: int)
    requires
        0 <= i < outputs.len(),
        outputs[i].path@ == p,
        forall|k: int| 0 <= k < i ==> (#[trigger] outputs[k]).path@ != p,
    ensures
        recorded_hash(outputs, p) == Some(outputs[i].record.hash@),
    decreases i,
{
    if i > 0 {
        lemma_recorded_hash_at(outputs.drop_first(), p, i - 1);
    }
}

/// A path that no record names has no recorded fingerprint.
pub proof fn lemma_recorded_hash_none(outputs: Seq<Owned>, p: Seq<Seq<char>>)
    requires
        forall|k: int| 0 <= k < outputs.len() ==> (#[trigger] outputs[k]).path@ != p,
    ensures
        recorded_hash(outputs, p) is None,
    decreases outputs.len(),
{
    if outputs.len() > 0 {
        lemma_recorded_hash_none(outputs.drop_first(), p);
    }
}

/// The index of the first record of `path`, if any.
pub fn find_record(outputs: &Vec<Owned>, path: &FsPath) -> (r: Option<usize>)
    ensures
        match r {
            Some(i) => i < outputs@.len() && outputs@[i as int].path@ == path@ && recorded_hash(
                outputs@,
                path@,
            ) == Some(outputs@[i as int].record.hash@),
            None => recorded_hash(outputs@, path@) is None,
        },
{
    let mut i: usize = 0;
    while i < outputs.len()
        invariant
            i <= outputs@.len(),
            forall|k: int| 0 <= k < i ==> (#[trigger] outputs@[k]).path@ != path@,
        decreases outputs@.len() - i,
    {
        if outputs[i].path.same(path) {
            proof {
                lemma_recorded_hash_at(outputs@, path@, i as int);
            }
            return Some(i);
        }
        i = i + 1;
    }
    proof {
        lemma_recorded_hash_none(outputs@, path@);
    }
    None
}

/// How a configured output stands against its ownership record.
#[derive(Clone, Copy, Debug, PartialEq, Eq, Structural)]
pub enum Status {
    /// No file exists at the destination.
    Missing,
    /// A file exists that this project does not own.
    Unowned,
    /// The file holds what this project last wrote.
    Managed,
    /// The file is owned but was edited since.
    Modified,
}

/// The word that `list` shows for a status.
pub open spec fn status_word(s: Status) -> Seq<char> {
    match s {
        Status::Missing => "missing"@,
        Status::Unowned => "unowned"@,
        Status::Managed => "managed"@,
        Status::Modified => "modified"@,
    }
}

impl Status {
    /// The word that `list` shows for this status.
    pub fn label(&self) -> (r: &'static str)
        ensures
            r@ == status_word(*self),
    {
        match self {
            Status::Missing => "missing",
            Status::Unowned => "unowned",
            Status::Managed => "managed",
            Status::Modified => "modified",
        }
    }
}

/// The status of a destination given the state and its current file.
pub open spec fn status_spec(outputs: Seq<Owned>, path: Seq<Seq<char>>, current: Option<Snapshot>) -> Status {
    match current {
        None => Status::Missing,
        Some(actual) => match recorded_hash(outputs, path) {
            None => Status::Unowned,
            Some(h) => if h == actual.hash@ {
                Status::Managed
            } else {
                Status::Modified
            },
        },
    }
}

/// The listed status of an output.
pub fn status(state: &State, path: &FsPath, current: Option<&Snapshot>) -> (r: Status)
    ensures
        r == status_spec(
            state.outputs@,
            path@,
            match current {
                Some(s) => Some(*s),
                None => None,
            },
        ),
{
    match current {
        None => Status::Missing,
        Some(actual) => match find_record(&state.outputs, path) {
            None => Status::Unowned,
            Some(i) => if state.outputs[i].record.hash == actual.hash {
                Status::Managed
            } else {
                Status::Modified
            },
        },
    }
}

/// Why publication refuses to touch a file.
pub enum OwnershipFault {
    /// The owned file was edited since this project wrote it.
    Modified(FsPath),
    /// The file exists but this project does not own it.
    Unowned(FsPath),
}

/// A destination that publication may replace or remove: absent, or owned
/// and unedited. Yields the current snapshot for the journal.
pub fn owned_snapshot(state: &State, path: &FsPath, current: Option<Snapshot>) -> (r: Result<
    Option<Snapshot>,
    OwnershipFault,
>)
    ensures
        match current {
            None => r matches Ok(None),
            Some(actual) => match recorded_hash(state.outputs@, path@) {
                Some(h) => if h == actual.hash@ {
                    r == Ok::<Option<Snapshot>, OwnershipFault>(Some(actual))
                } else {
                    r matches Err(OwnershipFault::Modified(p)) && p@ == path@
                },
                None => r matches Err(OwnershipFault::Unowned(p)) && p@ == path@,
            },
        },
{
    match current {
        None => Ok(None),
        Some(actual) => match find_record(&state.outputs, path) {
            Some(i) => {
                if state.outputs[i].record.hash == actual.hash {
                    Ok(Some(actual))
                } else {
                    Err(OwnershipFault::Modified(path.duplicate()))
                }
            },
            None => Err(OwnershipFault::Unowned(path.duplicate())),
        },
    }
}

/// A path that ownership records and journals may name: absolute, without
/// `..`, and outside the state directory.
pub open spec fn acceptable_destination(p: Seq<Seq<char>>, state_dir: Seq<Seq<char>>) -> bool {
    &&& p.len() > 0
    &&& p[0] == root_part()
    &&& !p.contains(parent_part())
    &&& !is_prefix(state_dir, p)
}

fn acceptable(p: &FsPath, state_dir: &FsPath) -> (r: bool)
    ensures
        r == acceptable_destination(p@, state_dir@),
{
    p.is_absolute() && !p.has_parent_part() && !p.starts_with(state_dir)
}

impl State {
    /// The state of a project that owns nothing yet.
    pub fn fresh(root: &FsPath) -> (r: State)
        ensures
            r.version == STATE_VERSION,
            r.root@ == root@,
            r.generation@ == Seq::<char>::empty(),
            r.outputs@.len() == 0,
    {
        State { version: STATE_VERSION, root: root.duplicate(), generation: String::new(), outputs: Vec::new() }
    }
}

/// Why a decoded ownership state is refused.
#[derive(Clone, Copy, Debug, PartialEq, Eq, Structural)]
pub enum StateFault {
    /// It records another version or another project root.
    Foreign,
    /// It names a relative path, a `..` path, a path in the state
    /// directory, or one path twice.
    InvalidPath,
}

/// Accepts a decoded ownership state for the project at `root`, whose state
/// directory is `state_dir`.
pub fn check_state(state: State, root: &FsPath, state_dir: &FsPath) -> (r: Result<State, StateFault>)
    ensures
        state.version != STATE_VERSION || state.root@ != root@ ==> r == Err::<State, StateFault>(
            StateFault::Foreign,
        ),
        state.version == STATE_VERSION && state.root@ == root@ ==> {
            if (forall|i: int|
                0 <= i < state.outputs@.len() ==> acceptable_destination(
                    (#[trigger] state.outputs@[i]).path@,
                    state_dir@,
                )) && distinct_owned(state.outputs@) {
                r == Ok::<State, StateFault>(state)
            } else {
                r == Err::<State, StateFault>(StateFault::InvalidPath)
            }
        },
{
    if state.version != STATE_VERSION || !state.root.same(root) {
        return Err(StateFault::Foreign);
    }
    let mut i: usize = 0;
    while i < state.outputs.len()
        invariant
            i <= state.outputs@.len(),
            state.version == STATE_VERSION && state.root@ == root@,
            forall|k: int|
                0 <= k < i ==> acceptable_destination((#[trigger] state.outputs@[k]).path@, state_dir@),
        decreases state.outputs@.len() - i,
    {
        if !acceptable(&state.outputs[i].path, state_dir) {
            return Err(StateFault::InvalidPath);
        }
        i = i + 1;
    }
    if find_repeat(&state.outputs) {
        return Err(StateFault::InvalidPath);
    }
    Ok(state)
}

/// No path is recorded twice, as a map keyed by path guarantees.
pub open spec fn distinct_owned(outputs: Seq<Owned>) -> bool {
    forall|a: int, b: int| 0 <= a < b < outputs.len() ==> (#[trigger] outputs[a]).path@ != (#[trigger] outputs[b]).path@
}

/// Whether some path is recorded twice.
fn find_repeat(outputs: &Vec<Owned>) -> (r: bool)
    ensures
        r == !distinct_owned(outputs@),
{
    let mut b: usize = 0;
    while b < outputs.len()
        invariant
            b <= outputs@.len(),
            forall|x: int, y: int| 0 <= x < y < b ==> (#[trigger] outputs@[x]).path@ != (#[trigger] outputs@[y]).path@,
        decreases outputs@.len() - b,
    {
        let mut a: usize = 0;
        while a < b
            invariant
                a <= b < outputs@.len(),
                forall|x: int| 0 <= x < a ==> (#[trigger] outputs@[x]).path@ != outputs@[b as int].path@,
            decreases b - a,
        {
            if outputs[a].path.same(&outputs[b].path) {
                return true;
            }
            a = a + 1;
        }
        b = b + 1;
    }
    false
}

/// Whether committing `new` over `old` changes nothing: the same owned paths
/// in the same order, each with the fingerprint it had.
pub open spec fn same_ownership(old: Seq<Owned>, new: Seq<Owned>) -> bool {
    &&& old.len() == new.len()
    &&& forall|i: int| 0 <= i < old.len() ==> (#[trigger] old[i]).path@ == new[i].path@
    &&& forall|i: int|
        0 <= i < old.len() ==> recorded_hash(new, (#[trigger] old[i]).path@) == Some(
            old[i].record.hash@,
        )
}

/// Whether a commit without changes may be skipped because the state it
/// would write records the same ownership as the state on disk.
pub fn ownership_unchanged(old: &State, new: &State) -> (r: bool)
    ensures
        r == same_ownership(old.outputs@, new.outputs@),
{
    if old.outputs.len() != new.outputs.len() {
        return false;
    }
    let mut i: usize = 0;
    while i < old.outputs.len()
        invariant
            old.outputs@.len() == new.outputs@.len(),
            i <= old.outputs@.len(),
            forall|k: int| 0 <= k < i ==> (#[trigger] old.outputs@[k]).path@ == new.outputs@[k].path@,
        decreases old.outputs@.len() - i,
    {
        if !old.outputs[i].path.same(&new.outputs[i].path) {
            return false;
        }
        i = i + 1;
    }
    let mut j: usize = 0;
    while j < old.outputs.len()
        invariant
            j <= old.outputs@.len(),
            forall|k: int|
                0 <= k < j ==> recorded_hash(new.outputs@, (#[trigger] old.outputs@[k]).path@) == Some(
                    old.outputs@[k].record.hash@,
                ),
        decreases old.outputs@.len() - j,
    {
        match find_record(&new.outputs, &old.outputs[j].path) {
            None => {
                return false;
            },
            Some(k) => {
                if new.outputs[k].record.hash != old.outputs[j].record.hash {
                    return false;
                }
            },
        }
        j = j + 1;
    }
    true
}

/// One destination in a publication: its content before, the staged content
/// after (absent for a removal), and where the staged file waits.
pub struct Change {
    pub path: FsPath,
    pub before: Option<Snapshot>,
    pub after: Option<Snapshot>,
    pub stage: Option<FsPath>,
}

/// The durable record of a publication in progress.
pub struct Journal {
    pub version: u32,
    pub root: FsPath,
    pub generation: String,
    pub changes: Vec<Change>,
}

/// Why a journal is not trusted for recovery.
#[derive(Clone, Copy, Debug, PartialEq, Eq, Structural)]
pub enum JournalFault {
    /// It records another version or another project root.
    Foreign,
    /// A destination is relative, holds `..`, lies in the state directory,
    /// or repeats an earlier one.
    InvalidDestination,
    /// A recorded content does not decode to its fingerprint.
    Content(ContentFault),
    /// A staged file is recorded without staged content, or the reverse.
    IncompleteStaging,
    /// A staging path is not a staging file beside its destination.
    InvalidStage,
}

/// The check of a snapshot's content that recovery makes.
pub open spec fn content_check(s: Option<Snapshot>) -> Option<ContentFault> {
    match s {
        None => None,
        Some(snap) => match snapshot_bytes(snap) {
            Ok(_) => None,
            Err(f) => Some(f),
        },
    }
}

/// A staging path beside `path` whose name carries the staging prefix.
pub open spec fn valid_stage(stage: Seq<Seq<char>>, path: Seq<Seq<char>>) -> bool {
    let stage_parent = if stage.len() == 0 || stage.last() == root_part() {
        None
    } else {
        Some(stage.drop_last())
    };
    let path_parent = if path.len() == 0 || path.last() == root_part() {
        None
    } else {
        Some(path.drop_last())
    };
    &&& stage_parent == path_parent
    &&& stage.len() > 0
    &&& stage.last() != root_part()
    &&& stage.last() != seq!['.']
    &&& stage.last() != parent_part()
    &&& stage_prefix().len() <= stage.last().len()
    &&& stage.last().take(stage_prefix().len() as int) == stage_prefix()
}

/// The check that recovery makes of the `i`-th change, in the order the
/// original makes its checks.
pub open spec fn change_check(changes: Seq<Change>, i: int, state_dir: Seq<Seq<char>>) -> Option<JournalFault> {
    let c = changes[i];
    if !acceptable_destination(c.path@, state_dir) || exists|j: int|
        0 <= j < i && (#[trigger] changes[j]).path@ == c.path@ {
        Some(JournalFault::InvalidDestination)
    } else if content_check(c.before) is Some {
        Some(JournalFault::Content(content_check(c.before)->0))
    } else if content_check(c.after) is Some {
        Some(JournalFault::Content(content_check(c.after)->0))
    } else if c.stage.is_some() != c.after.is_some() {
        Some(JournalFault::IncompleteStaging)
    } else if c.stage matches Some(s) && !valid_stage(s@, c.path@) {
        Some(JournalFault::InvalidStage)
    } else {
        None
    }
}

/// All change checks in order.
pub open spec fn change_checks(changes: Seq<Change>, state_dir: Seq<Seq<char>>) -> Seq<Option<JournalFault>> {
    Seq::new(changes.len(), |i: int| change_check(changes, i, state_dir))
}

fn content_fault(s: &Option<Snapshot>) -> (r: Option<ContentFault>)
    ensures
        r == content_check(*s),
{
    match s {
        None => None,
        Some(snap) => match snap.bytes() {
            Ok(_) => None,
            Err(f) => Some(f),
        },
    }
}

fn stage_beside(stage: &FsPath, path: &FsPath) -> (r: bool)
    ensures
        r == valid_stage(stage@, path@),
{
    proof {
        crate::path::lemma_part_literals();
    }
    let same_parent = match (stage.parent(), path.parent()) {
        (None, None) => true,
        (Some(a), Some(b)) => a.same(&b),
        _ => false,
    };
    if !same_parent {
        return false;
    }
    match stage.file_name() {
        None => false,
        Some(name) => has_stage_prefix(name.as_str()),
    }
}

/// Accepts a journal for recovery of the project at `root` whose state
/// directory is `state_dir`: the first failing check, in order, refuses it.
pub fn check_journal(journal: &Journal, root: &FsPath, state_dir: &FsPath) -> (r: Result<
    (),
    JournalFault,
>)
    ensures
        journal.version != STATE_VERSION || journal.root@ != root@ ==> r == Err::<(), JournalFault>(
            JournalFault::Foreign,
        ),
        journal.version == STATE_VERSION && journal.root@ == root@ ==> r == match first_failure(
            change_checks(journal.changes@, state_dir@),
        ) {
            None => Ok::<(), JournalFault>(()),
            Some(f) => Err(f),
        },
{
    if journal.version != STATE_VERSION || !journal.root.same(root) {
        return Err(JournalFault::Foreign);
    }
    let ghost checks = change_checks(journal.changes@, state_dir@);
    let mut i: usize = 0;
    while i < journal.changes.len()
        invariant
            i <= journal.changes@.len(),
            journal.version == STATE_VERSION && journal.root@ == root@,
            checks == change_checks(journal.changes@, state_dir@),
            first_failure(checks.take(i as int)) is None,
        decreases journal.changes@.len() - i,
    {
        let c = &journal.changes[i];
        let mut check: Option<JournalFault> = None;
        let mut repeated = false;
        let mut j: usize = 0;
        while j < i
            invariant
                i < journal.changes@.len(),
                j <= i,
                repeated == exists|k: int|
                    0 <= k < j && (#[trigger] journal.changes@[k]).path@ == journal.changes@[i as int].path@,
            decreases i - j,
        {
            if journal.changes[j].path.same(&journal.changes[i].path) {
                repeated = true;
            }
            j = j + 1;
        }
        if !acceptable(&c.path, state_dir) || repeated {
            check = Some(JournalFault::InvalidDestination);
        } else if let Some(f) = content_fault(&c.before) {
            check = Some(JournalFault::Content(f));
        } else if let Some(f) = content_fault(&c.after) {
            check = Some(JournalFault::Content(f));
        } else if c.stage.is_some() != c.after.is_some() {
            check = Some(JournalFault::IncompleteStaging);
        } else if let Some(s) = &c.stage {
            if !stage_beside(s, &c.path) {
                check = Some(JournalFault::InvalidStage);
            }
        }
        assert(check == checks[i as int]);
        proof {
            lemma_first_failure_push(checks, i as int);
        }
        if let Some(f) = check {
            proof {
                lemma_first_failure_prefix(checks, i + 1);
            }
            return Err(f);
        }
        i = i + 1;
    }
    assert(checks.take(journal.changes@.len() as int) =~= checks);
    Ok(())
}

/// Whether the journal's generation never became the recorded one, so its
/// destinations must be rolled back.
pub fn interrupted(state: &State, journal: &Journal) -> (r: bool)
    ensures
        r == (state.generation@ != journal.generation@),
{
    state.generation != journal.generation
}

/// What recovery does at one destination of an interrupted publication.
#[derive(Clone, Copy, Debug, PartialEq, Eq, Structural)]
pub enum RecoveryAction {
    /// The destination already holds its previous content.
    Keep,
    /// A file appeared that this publication did not write, where nothing
    /// was owned before: leave it and report it.
    PreserveForeign,
    /// The destination was edited during publication: stop, keeping it and
    /// the journal.
    Conflict,
    /// Put the previous content back; `replace` when a file is present.
    Restore { replace: bool },
    /// Remove the file this publication created.
    Remove,
}

/// The file at the destination is the one this publication staged, or both
/// are absent.
pub open spec fn written_by_us(current: Option<Snapshot>, after: Option<Snapshot>) -> bool {
    match (current, after) {
        (Some(c), Some(a)) => c.hash@ == a.hash@ && c.identity == a.identity,
        (None, None) => true,
        _ => false,
    }
}

/// The recovery decision for a destination, given what it holds now.
pub open spec fn recovery_spec(change: Change, current: Option<Snapshot>) -> RecoveryAction {
    if same_content_spec(current, change.before) {
        RecoveryAction::Keep
    } else if !written_by_us(current, change.after) {
        if change.before is None {
            RecoveryAction::PreserveForeign
        } else {
            RecoveryAction::Conflict
        }
    } else if change.before is Some {
        RecoveryAction::Restore { replace: current is Some }
    } else {
        RecoveryAction::Remove
    }
}

/// Decides how recovery treats one destination of an interrupted
/// publication. It restores or removes only a file this publication wrote
/// (or an absent one), and never touches a file that someone else wrote.
pub fn recovery_action(change: &Change, current: Option<&Snapshot>) -> (r: RecoveryAction)
    ensures
        r == recovery_spec(
            *change,
            match current {
                Some(s) => Some(*s),
                None => None,
            },
        ),
        (r is Restore || r is Remove) ==> written_by_us(
            match current {
                Some(s) => Some(*s),
                None => None,
            },
            change.after,
        ),
        r is Remove ==> current is Some && change.before is None,
        r == RecoveryAction::Keep <==> same_content_spec(
            match current {
                Some(s) => Some(*s),
                None => None,
            },
            change.before,
        ),
{
    if same_content(current, change.before.as_ref()) {
        return RecoveryAction::Keep;
    }
    let ours = match (current, &change.after) {
        (Some(c), Some(a)) => c.hash == a.hash && c.identity == a.identity,
        (None, None) => true,
        _ => false,
    };
    if !ours {
        if change.before.is_none() {
            RecoveryAction::PreserveForeign
        } else {
            RecoveryAction::Conflict
        }
    } else if change.before.is_some() {
        RecoveryAction::Restore { replace: current.is_some() }
    } else {
        RecoveryAction::Remove
    }
}

/// What recovery does with a change's staging file.
#[derive(Clone, Copy, Debug, PartialEq, Eq, Structural)]
pub enum StageAction {
    /// Nothing is staged, or the staged file is gone.
    Nothing,
    /// Remove the staged file: it is the one this publication wrote.
    Remove,
    /// The staged file was replaced: stop and keep it.
    Conflict,
}

/// Decides what to do with a change's staging file, given the file now at
/// the staging path (read only when the change has a stage and content).
pub fn stage_action(change: &Change, current: Option<&Snapshot>) -> (r: StageAction)
    ensures
        r == match (change.stage, change.after, current) {
            (Some(_), Some(after), Some(c)) => if c.identity != after.identity || c.hash@
                != after.hash@ {
                StageAction::Conflict
            } else {
                StageAction::Remove
            },
            _ => StageAction::Nothing,
        },
{
    match (&change.stage, &change.after, current) {
        (Some(_), Some(after), Some(c)) => {
            if c.identity != after.identity || c.hash != after.hash {
                StageAction::Conflict
            } else {
                StageAction::Remove
            }
        },
        _ => StageAction::Nothing,
    }
}

/// How publication puts one change in place.
#[derive(Clone, Copy, Debug, PartialEq, Eq, Structural)]
pub enum PublishAction {
    /// Replace the previous file with the staged one.
    Replace,
    /// Move the staged file into place, refusing to overwrite any file.
    Create,
    /// Remove the obsolete file.
    Remove,
}

/// The way a change is published: a staged file replaces an owned file or is
/// created exclusively; without staged content the file is removed.
pub fn publish_action(change: &Change) -> (r: PublishAction)
    ensures
        r == if change.stage is None {
            PublishAction::Remove
        } else if change.before is Some {
            PublishAction::Replace
        } else {
            PublishAction::Create
        },
{
    if change.stage.is_none() {
        PublishAction::Remove
    } else if change.before.is_some() {
        PublishAction::Replace
    } else {
        PublishAction::Create
    }
}


/// What one destination looks like on disk, as the program found it.
pub struct Probe {
    /// The real path the destination resolves to, when it resolves.
    pub canonical: Option<FsPath>,
    /// The outcome of checking its ancestors for links and non-directories.
    pub ancestors: Result<(), Failure>,
    /// The outcome of reading it: its snapshot, or `None` when absent.
    pub current: Result<Option<Snapshot>, Failure>,
}

/// The disk facts that publication checks: one probe per owned output and
/// per planned output, and whether each competing native file exists.
pub struct Facts {
    pub owned: Vec<Probe>,
    pub outputs: Vec<Probe>,
    pub alternatives: Vec<Result<bool, Failure>>,
}

/// The facts line up with the state and the plan they describe.
pub open spec fn facts_fit(plan: Plan, state: State, facts: Facts) -> bool {
    &&& facts.owned@.len() == state.outputs@.len()
    &&& facts.outputs@.len() == plan.outputs@.len()
    &&& facts.alternatives@.len() == plan.alternatives@.len()
}

/// Why publication refuses to proceed.
pub enum PublishFault {
    /// An owned output has become a configuration input.
    OwnedIsInput(FsPath),
    /// An owned output was edited outside this program.
    Modified(FsPath),
    /// An output is also a configuration input.
    OutputIsInput(FsPath),
    /// A file this project does not own is in the way.
    Unowned(FsPath),
    /// A competing native configuration exists and is not owned.
    AlternativeExists(FsPath),
    /// A disk operation failed.
    Io(Failure),
    /// The ignore file's journal copy is corrupt.
    Content(ContentFault),
    /// The ignore file cannot be managed.
    Ignore(IgnoreFault),
    /// The ignore file is also a generated output.
    IgnoreIsOutput,
    /// An interrupted publication awaits recovery.
    RecoveryPending,
}

/// A fault with its paths and messages as plain values.
pub enum PublishFaultView {
    OwnedIsInput(Seq<Seq<char>>),
    Modified(Seq<Seq<char>>),
    OutputIsInput(Seq<Seq<char>>),
    Unowned(Seq<Seq<char>>),
    AlternativeExists(Seq<Seq<char>>),
    Io(Seq<char>),
    Content(ContentFault),
    Ignore(IgnoreFault),
    IgnoreIsOutput,
    RecoveryPending,
}

impl View for PublishFault {
    type V = PublishFaultView;

    open spec fn view(&self) -> PublishFaultView {
        match self {
            PublishFault::OwnedIsInput(p) => PublishFaultView::OwnedIsInput(p@),
            PublishFault::Modified(p) => PublishFaultView::Modified(p@),
            PublishFault::OutputIsInput(p) => PublishFaultView::OutputIsInput(p@),
            PublishFault::Unowned(p) => PublishFaultView::Unowned(p@),
            PublishFault::AlternativeExists(p) => PublishFaultView::AlternativeExists(p@),
            PublishFault::Io(f) => PublishFaultView::Io(f.message@),
            PublishFault::Content(c) => PublishFaultView::Content(*c),
            PublishFault::Ignore(i) => PublishFaultView::Ignore(*i),
            PublishFault::IgnoreIsOutput => PublishFaultView::IgnoreIsOutput,
            PublishFault::RecoveryPending => PublishFaultView::RecoveryPending,
        }
    }
}

/// `Inputs::contains` as a predicate.
pub open spec fn is_input(inputs: Inputs, path: Seq<Seq<char>>, canonical: Option<FsPath>) -> bool {
    records_file(inputs.files@, path) || (canonical matches Some(c) && records_file(inputs.files@, c@))
}

/// The check of the `i`-th owned output.
pub open spec fn owned_check(plan: Plan, state: State, facts: Facts, i: int) -> Option<PublishFaultView> {
    let o = state.outputs@[i];
    let pr = facts.owned@[i];
    if is_input(plan.inputs, o.path@, pr.canonical) {
        Some(PublishFaultView::OwnedIsInput(o.path@))
    } else {
        match pr.current {
            Err(e) => Some(PublishFaultView::Io(e.message@)),
            Ok(Some(a)) => if a.hash@ != o.record.hash@ {
                Some(PublishFaultView::Modified(o.path@))
            } else {
                None
            },
            Ok(None) => None,
        }
    }
}

/// The check of the `j`-th planned output.
pub open spec fn output_check(plan: Plan, state: State, facts: Facts, j: int) -> Option<PublishFaultView> {
    let o = plan.outputs@[j];
    let pr = facts.outputs@[j];
    if pr.ancestors is Err {
        Some(PublishFaultView::Io(pr.ancestors->Err_0.message@))
    } else if is_input(plan.inputs, o.path@, pr.canonical) {
        Some(PublishFaultView::OutputIsInput(o.path@))
    } else {
        match pr.current {
            Err(e) => Some(PublishFaultView::Io(e.message@)),
            Ok(Some(_)) => if recorded_hash(state.outputs@, o.path@) is None {
                Some(PublishFaultView::Unowned(o.path@))
            } else {
                None
            },
            Ok(None) => None,
        }
    }
}

/// The check of the `k`-th competing native file.
pub open spec fn alternative_check(plan: Plan, state: State, facts: Facts, k: int) -> Option<PublishFaultView> {
    match facts.alternatives@[k] {
        Err(e) => Some(PublishFaultView::Io(e.message@)),
        Ok(exists) => if exists && recorded_hash(state.outputs@, plan.alternatives@[k]@) is None {
            Some(PublishFaultView::AlternativeExists(plan.alternatives@[k]@))
        } else {
            None
        },
    }
}

/// All preflight checks in the order they are made: owned outputs, planned
/// outputs, then competing native files.
pub open spec fn preflight_checks(plan: Plan, state: State, facts: Facts) -> Seq<Option<PublishFaultView>> {
    Seq::new(state.outputs@.len(), |i: int| owned_check(plan, state, facts, i)) + Seq::new(
        plan.outputs@.len(),
        |j: int| output_check(plan, state, facts, j),
    ) + Seq::new(plan.alternatives@.len(), |k: int| alternative_check(plan, state, facts, k))
}

fn io_fault(f: &Failure) -> (r: PublishFault)
    ensures
        r@ == PublishFaultView::Io(f.message@),
{
    PublishFault::Io(f.duplicate())
}

/// Checks a plan against the ownership state before anything is written:
/// owned outputs must be unedited and not inputs, outputs must not be
/// inputs or unowned existing files, and competing native files must be
/// owned. The first failing check, in order, is the result.
pub fn preflight(plan: &Plan, state: &State, facts: &Facts) -> (r: Result<(), PublishFault>)
    requires
        facts_fit(*plan, *state, *facts),
    ensures
        match first_failure(preflight_checks(*plan, *state, *facts)) {
            None => r is Ok,
            Some(f) => r matches Err(e) && e@ == f,
        },
{
    let ghost a = Seq::new(state.outputs@.len(), |i: int| owned_check(*plan, *state, *facts, i));
    let ghost b = Seq::new(plan.outputs@.len(), |j: int| output_check(*plan, *state, *facts, j));
    let ghost c = Seq::new(
        plan.alternatives@.len(),
        |k: int| alternative_check(*plan, *state, *facts, k),
    );
    proof {
        assert(preflight_checks(*plan, *state, *facts) == a + b + c);
        lemma_first_failure_concat(a + b, c);
        lemma_first_failure_concat(a, b);
    }
    let mut i: usize = 0;
    while i < state.outputs.len()
        invariant
            facts_fit(*plan, *state, *facts),
            preflight_checks(*plan, *state, *facts) == a + b + c,
            a == Seq::new(state.outputs@.len(), |i: int| owned_check(*plan, *state, *facts, i)),
            b == Seq::new(plan.outputs@.len(), |j: int| output_check(*plan, *state, *facts, j)),
            c == Seq::new(
                plan.alternatives@.len(),
                |k: int| alternative_check(*plan, *state, *facts, k),
            ),
            i <= state.outputs@.len(),
            a == Seq::new(state.outputs@.len(), |i: int| owned_check(*plan, *state, *facts, i)),
            first_failure(a.take(i as int)) is None,
        decreases state.outputs@.len() - i,
    {
        let o = &state.outputs[i];
        let pr = &facts.owned[i];
        proof {
            lemma_first_failure_push(a, i as int);
        }
        let mut check: Option<PublishFault> = None;
        if plan.inputs.contains(&o.path, pr.canonical.as_ref()) {
            check = Some(PublishFault::OwnedIsInput(o.path.duplicate()));
        } else {
            match &pr.current {
                Err(e) => {
                    check = Some(io_fault(e));
                },
                Ok(Some(actual)) => {
                    if actual.hash != o.record.hash {
                        check = Some(PublishFault::Modified(o.path.duplicate()));
                    }
                },
                Ok(None) => {},
            }
        }
        assert(match check {
            Some(f) => a[i as int] == Some(f@),
            None => a[i as int] is None,
        });
        if let Some(f) = check {
            proof {
                lemma_first_failure_prefix(a, i + 1);
                lemma_first_failure_concat(a + b, c);
                lemma_first_failure_concat(a, b);
            }
            return Err(f);
        }
        i = i + 1;
    }
    assert(a.take(a.len() as int) =~= a);
    let mut j: usize = 0;
    while j < plan.outputs.len()
        invariant
            facts_fit(*plan, *state, *facts),
            preflight_checks(*plan, *state, *facts) == a + b + c,
            a == Seq::new(state.outputs@.len(), |i: int| owned_check(*plan, *state, *facts, i)),
            b == Seq::new(plan.outputs@.len(), |j: int| output_check(*plan, *state, *facts, j)),
            c == Seq::new(
                plan.alternatives@.len(),
                |k: int| alternative_check(*plan, *state, *facts, k),
            ),
            first_failure(a) is None,
            j <= plan.outputs@.len(),
            b == Seq::new(plan.outputs@.len(), |j: int| output_check(*plan, *state, *facts, j)),
            first_failure(b.take(j as int)) is None,
        decreases plan.outputs@.len() - j,
    {
        let o = &plan.outputs[j];
        let pr = &facts.outputs[j];
        proof {
            lemma_first_failure_push(b, j as int);
        }
        let mut check: Option<PublishFault> = None;
        if let Err(e) = &pr.ancestors {
            check = Some(io_fault(e));
        } else if plan.inputs.contains(&o.path, pr.canonical.as_ref()) {
            check = Some(PublishFault::OutputIsInput(o.path.duplicate()));
        } else {
            match &pr.current {
                Err(e) => {
                    check = Some(io_fault(e));
                },
                Ok(Some(_)) => {
                    if find_record(&state.outputs, &o.path).is_none() {
                        check = Some(PublishFault::Unowned(o.path.duplicate()));
                    }
                },
                Ok(None) => {},
            }
        }
        assert(match check {
            Some(f) => b[j as int] == Some(f@),
            None => b[j as int] is None,
        });
        if let Some(f) = check {
            proof {
                lemma_first_failure_prefix(b, j + 1);
                lemma_first_failure_concat(a + b, c);
                lemma_first_failure_concat(a, b);
            }
            return Err(f);
        }
        j = j + 1;
    }
    assert(b.take(b.len() as int) =~= b);
    let mut k: usize = 0;
    while k < plan.alternatives.len()
        invariant
            facts_fit(*plan, *state, *facts),
            preflight_checks(*plan, *state, *facts) == a + b + c,
            a == Seq::new(state.outputs@.len(), |i: int| owned_check(*plan, *state, *facts, i)),
            b == Seq::new(plan.outputs@.len(), |j: int| output_check(*plan, *state, *facts, j)),
            c == Seq::new(
                plan.alternatives@.len(),
                |k: int| alternative_check(*plan, *state, *facts, k),
            ),
            first_failure(a) is None,
            first_failure(b) is None,
            k <= plan.alternatives@.len(),
            c == Seq::new(
                plan.alternatives@.len(),
                |k: int| alternative_check(*plan, *state, *facts, k),
            ),
            first_failure(c.take(k as int)) is None,
        decreases plan.alternatives@.len() - k,
    {
        proof {
            lemma_first_failure_push(c, k as int);
        }
        let mut check: Option<PublishFault> = None;
        match &facts.alternatives[k] {
            Err(e) => {
                check = Some(io_fault(e));
            },
            Ok(exists) => {
                if *exists && find_record(&state.outputs, &plan.alternatives[k]).is_none() {
                    check = Some(PublishFault::AlternativeExists(plan.alternatives[k].duplicate()));
                }
            },
        }
        assert(match check {
            Some(f) => c[k as int] == Some(f@),
            None => c[k as int] is None,
        });
        if let Some(f) = check {
            proof {
                lemma_first_failure_prefix(c, k + 1);
                lemma_first_failure_concat(a + b, c);
                lemma_first_failure_concat(a, b);
            }
            return Err(f);
        }
        k = k + 1;
    }
    assert(c.take(c.len() as int) =~= c);
    Ok(())
}


/// A change that publication is to make: the destination, what it holds
/// now, and the bytes it is to hold (`None` to remove it).
pub struct PlannedChange {
    pub path: FsPath,
    pub before: Option<Snapshot>,
    pub content: Option<Vec<u8>>,
}

impl View for PlannedChange {
    type V = (Seq<Seq<char>>, Option<Snapshot>, Option<Seq<u8>>);

    open spec fn view(&self) -> (Seq<Seq<char>>, Option<Snapshot>, Option<Seq<u8>>) {
        (
            self.path@,
            self.before,
            match self.content {
                Some(c) => Some(c@),
                None => None,
            },
        )
    }
}

/// The views of a sequence of changes.
pub open spec fn change_views(v: Seq<PlannedChange>) -> Seq<(Seq<Seq<char>>, Option<Snapshot>, Option<Seq<u8>>)> {
    v.map_values(|c: PlannedChange| c@)
}

/// Some planned output is at `p`.
pub open spec fn is_planned(plan: Plan, p: Seq<Seq<char>>) -> bool {
    exists|j: int| 0 <= j < plan.outputs@.len() && (#[trigger] plan.outputs@[j]).path@ == p
}

/// The destinations of the planned outputs.
pub open spec fn planned_paths(plan: Plan) -> Seq<Seq<Seq<char>>> {
    Seq::new(plan.outputs@.len(), |j: int| plan.outputs@[j].path@)
}

/// What a successful read found.
pub open spec fn current_of(pr: Probe) -> Option<Snapshot> {
    match pr.current {
        Ok(c) => c,
        Err(_) => None,
    }
}

/// The ownership check of a destination about to be replaced or removed.
pub open spec fn owned_fault(outputs: Seq<Owned>, p: Seq<Seq<char>>, cur: Option<Snapshot>) -> Option<PublishFaultView> {
    match cur {
        None => None,
        Some(a) => match recorded_hash(outputs, p) {
            Some(h) => if h == a.hash@ {
                None
            } else {
                Some(PublishFaultView::Modified(p))
            },
            None => Some(PublishFaultView::Unowned(p)),
        },
    }
}

/// The check made before removing the `i`-th owned output when it is no
/// longer planned.
pub open spec fn removal_check(plan: Plan, state: State, facts: Facts, i: int) -> Option<PublishFaultView> {
    let o = state.outputs@[i];
    if is_planned(plan, o.path@) {
        None
    } else {
        match facts.owned@[i].current {
            Err(e) => Some(PublishFaultView::Io(e.message@)),
            Ok(c) => owned_fault(state.outputs@, o.path@, c),
        }
    }
}

/// The check made before writing the `j`-th planned output.
pub open spec fn write_check(plan: Plan, state: State, facts: Facts, j: int) -> Option<PublishFaultView> {
    match facts.outputs@[j].current {
        Err(e) => Some(PublishFaultView::Io(e.message@)),
        Ok(c) => owned_fault(state.outputs@, plan.outputs@[j].path@, c),
    }
}

/// Every check a generation makes before it looks at the ignore file.
pub open spec fn generation_checks(plan: Plan, state: State, facts: Facts) -> Seq<Option<PublishFaultView>> {
    preflight_checks(plan, state, facts) + Seq::new(
        state.outputs@.len(),
        |i: int| removal_check(plan, state, facts, i),
    ) + Seq::new(plan.outputs@.len(), |j: int| write_check(plan, state, facts, j))
}

/// The removals of owned outputs that are no longer planned and still exist,
/// among the first `n` owned outputs.
pub open spec fn removals(plan: Plan, state: State, facts: Facts, n: int) -> Seq<(Seq<Seq<char>>, Option<Snapshot>, Option<Seq<u8>>)>
    decreases n,
{
    if n <= 0 {
        Seq::empty()
    } else {
        let prev = removals(plan, state, facts, n - 1);
        let o = state.outputs@[n - 1];
        if is_planned(plan, o.path@) {
            prev
        } else {
            match current_of(facts.owned@[n - 1]) {
                Some(s) => prev.push((o.path@, Some(s), None)),
                None => prev,
            }
        }
    }
}

/// The writes of planned outputs whose file does not already hold their
/// bytes, among the first `n` planned outputs.
pub open spec fn writes(plan: Plan, facts: Facts, n: int) -> Seq<(Seq<Seq<char>>, Option<Snapshot>, Option<Seq<u8>>)>
    decreases n,
{
    if n <= 0 {
        Seq::empty()
    } else {
        let prev = writes(plan, facts, n - 1);
        let o = plan.outputs@[n - 1];
        let cur = current_of(facts.outputs@[n - 1]);
        if cur matches Some(c) && c.hash@ == hex(sha256(o.bytes@)) {
            prev
        } else {
            prev.push((o.path@, cur, Some(o.bytes@)))
        }
    }
}

/// The path and fingerprint of each record.
pub open spec fn record_views(v: Seq<Owned>) -> Seq<(Seq<Seq<char>>, Seq<char>)> {
    v.map_values(|o: Owned| (o.path@, o.record.hash@))
}

/// The records a generation writes: each planned output with the
/// fingerprint of its bytes.
pub open spec fn planned_records(plan: Plan) -> Seq<(Seq<Seq<char>>, Seq<char>)> {
    Seq::new(plan.outputs@.len(), |j: int| (plan.outputs@[j].path@, hex(sha256(plan.outputs@[j].bytes@))))
}

/// The project's ignore file.
pub open spec fn ignore_path(root: Seq<Seq<char>>) -> Seq<Seq<char>> {
    root.push(".gitignore"@)
}

/// The bytes of the ignore file as read, checked against its fingerprint.
pub open spec fn ignore_bytes(cur: Result<Option<Snapshot>, Failure>) -> Result<Option<Seq<u8>>, PublishFaultView> {
    match cur {
        Err(e) => Err(PublishFaultView::Io(e.message@)),
        Ok(None) => Ok(None),
        Ok(Some(s)) => match snapshot_bytes(s) {
            Err(c) => Err(PublishFaultView::Content(c)),
            Ok(b) => Ok(Some(b)),
        },
    }
}

/// What a generation would publish.
pub struct Generation {
    /// The changes, in the order they are made.
    pub changes: Vec<PlannedChange>,
    /// The ownership state to record once they are made.
    pub state: State,
    /// Whether the ignore file's managed block is kept in step.
    pub manage_ignore: bool,
    /// Planned destinations outside the ignore file's scope.
    pub outside: Vec<FsPath>,
}

fn owned_or_fault(state: &State, path: &FsPath, cur: &Result<Option<Snapshot>, Failure>) -> (r: Result<
    Option<Snapshot>,
    PublishFault,
>)
    ensures
        match *cur {
            Err(e) => r matches Err(f) && f@ == PublishFaultView::Io(e.message@),
            Ok(c) => match owned_fault(state.outputs@, path@, c) {
                Some(v) => r matches Err(f) && f@ == v,
                None => r == Ok::<Option<Snapshot>, PublishFault>(c),
            },
        },
{
    match cur {
        Err(e) => Err(io_fault(e)),
        Ok(None) => Ok(None),
        Ok(Some(s)) => match owned_snapshot(state, path, Some(s.duplicate())) {
            Ok(x) => Ok(x),
            Err(OwnershipFault::Modified(p)) => Err(PublishFault::Modified(p)),
            Err(OwnershipFault::Unowned(p)) => Err(PublishFault::Unowned(p)),
        },
    }
}

fn planned_position(plan: &Plan, p: &FsPath) -> (r: bool)
    ensures
        r == is_planned(*plan, p@),
{
    let mut j: usize = 0;
    while j < plan.outputs.len()
        invariant
            j <= plan.outputs@.len(),
            forall|k: int| 0 <= k < j ==> (#[trigger] plan.outputs@[k]).path@ != p@,
        decreases plan.outputs@.len() - j,
    {
        if plan.outputs[j].path.same(p) {
            return true;
        }
        j = j + 1;
    }
    false
}

fn read_ignore(cur: &Result<Option<Snapshot>, Failure>) -> (r: Result<(Option<Snapshot>, Option<Vec<u8>>), PublishFault>)
    ensures
        match ignore_bytes(*cur) {
            Err(v) => r matches Err(f) && f@ == v,
            Ok(b) => r matches Ok((before, bytes)) && cur == Ok::<Option<Snapshot>, Failure>(before) && match bytes {
                Some(x) => b == Some(x@),
                None => b is None,
            },
        },
{
    match cur {
        Err(e) => Err(io_fault(e)),
        Ok(None) => Ok((None, None)),
        Ok(Some(s)) => match s.bytes() {
            Err(c) => Err(PublishFault::Content(c)),
            Ok(b) => Ok((Some(s.duplicate()), Some(b))),
        },
    }
}

fn planned_path_list(plan: &Plan) -> (r: Vec<FsPath>)
    ensures
        path_views(r@) == planned_paths(*plan),
{
    let mut r: Vec<FsPath> = Vec::new();
    let mut j: usize = 0;
    while j < plan.outputs.len()
        invariant
            j <= plan.outputs@.len(),
            path_views(r@) == planned_paths(*plan).take(j as int),
        decreases plan.outputs@.len() - j,
    {
        let ghost before = r@;
        let q = plan.outputs[j].path.duplicate();
        r.push(q);
        assert(path_views(r@) =~= path_views(before).push(q@));
        assert(path_views(r@) =~= planned_paths(*plan).take(j + 1));
        j = j + 1;
    }
    assert(planned_paths(*plan).take(plan.outputs@.len() as int) =~= planned_paths(*plan));
    r
}

fn same_bytes(a: &Option<Vec<u8>>, b: &Vec<u8>) -> (r: bool)
    ensures
        r == (a matches Some(x) && x@ == b@),
{
    match a {
        None => false,
        Some(x) => {
            if x.len() != b.len() {
                return false;
            }
            let mut i: usize = 0;
            while i < x.len()
                invariant
                    *a == Some(*x),
                    x@.len() == b@.len(),
                    i <= x@.len(),
                    forall|k: int| 0 <= k < i ==> x@[k] == b@[k],
                decreases x@.len() - i,
            {
                if x[i] != b[i] {
                    assert(x@[i as int] != b@[i as int]);
                    return false;
                }
                i = i + 1;
            }
            assert(x@ =~= b@);
            true
        },
    }
}


/// The changes a generation makes before the ignore file: removals of
/// unplanned owned outputs, then writes of changed planned outputs.
pub open spec fn base_changes(plan: Plan, state: State, facts: Facts) -> Seq<(Seq<Seq<char>>, Option<Snapshot>, Option<Seq<u8>>)> {
    removals(plan, state, facts, state.outputs@.len() as int) + writes(plan, facts, plan.outputs@.len() as int)
}

/// What a generation yields once its checks pass, given the ignore file
/// as read.
pub open spec fn generation_outcome(
    root: Seq<Seq<char>>,
    plan: Plan,
    state: State,
    facts: Facts,
    ignore_current: Result<Option<Snapshot>, Failure>,
    r: Result<Generation, PublishFault>,
) -> bool {
    let base = base_changes(plan, state, facts);
    match ignore_bytes(ignore_current) {
        Err(v) => r matches Err(e) && e@ == v,
        Ok(bytes) => match enabled_spec(bytes) {
            Err(f) => r matches Err(e) && e@ == PublishFaultView::Ignore(f),
            Ok(false) => r matches Ok(g) && !g.manage_ignore && change_views(g.changes@) == base
                && g.outside@.len() == 0,
            Ok(true) => if is_planned(plan, ignore_path(root)) {
                r matches Err(e) && e@ == PublishFaultView::IgnoreIsOutput
            } else {
                match r {
                    Ok(g) => g.manage_ignore && exists|os: Seq<Seq<char>>|
                        #![trigger update_spec(root, planned_paths(plan), bytes, block_lines(os))]
                        {
                            &&& block_order(os, root, planned_paths(plan))
                            &&& update_spec(root, planned_paths(plan), bytes, block_lines(os)) matches Ok(content)
                            &&& change_views(g.changes@) == (if bytes == Some(content) {
                                base
                            } else {
                                base.push((ignore_path(root), ignore_current->Ok_0, Some(content)))
                            })
                            &&& path_views(g.outside@) == outside_paths(root, planned_paths(plan))
                        },
                    Err(e) => exists|f: IgnoreFault|
                        e@ == PublishFaultView::Ignore(f) && forall|ps: Seq<Seq<char>>|
                            #[trigger] update_spec(root, planned_paths(plan), bytes, ps) == Err::<
                                Seq<u8>,
                                IgnoreFault,
                            >(f),
                }
            },
        },
    }
}

/// Plans a generation: checks the plan against the ownership state, then
/// removes owned outputs that are no longer planned, writes planned outputs
/// whose files do not already hold their bytes (files that do are left
/// untouched), keeps an opted-in ignore block in step, and records each
/// planned output with the fingerprint of its bytes. Nothing that is not
/// owned and unedited is ever replaced or removed.
pub fn plan_generation(
    root: &FsPath,
    plan: &Plan,
    state: &State,
    facts: &Facts,
    ignore_current: &Result<Option<Snapshot>, Failure>,
) -> (r: Result<Generation, PublishFault>)
    requires
        facts_fit(*plan, *state, *facts),
    ensures
        first_failure(generation_checks(*plan, *state, *facts)) matches Some(f) ==> (r matches Err(
            e,
        ) && e@ == f),
        first_failure(generation_checks(*plan, *state, *facts)) is None ==> generation_outcome(
            root@,
            *plan,
            *state,
            *facts,
            *ignore_current,
            r,
        ),
        r matches Ok(g) ==> record_views(g.state.outputs@) == planned_records(*plan)
            && g.state.version == state.version && g.state.root@ == state.root@
            && g.state.generation == state.generation,
{
    let ghost pre = preflight_checks(*plan, *state, *facts);
    let ghost rem = Seq::new(state.outputs@.len(), |i: int| removal_check(*plan, *state, *facts, i));
    let ghost wr = Seq::new(plan.outputs@.len(), |j: int| write_check(*plan, *state, *facts, j));
    proof {
        assert(generation_checks(*plan, *state, *facts) == pre + rem + wr);
        lemma_first_failure_concat(pre + rem, wr);
        lemma_first_failure_concat(pre, rem);
    }
    preflight(plan, state, facts)?;
    let mut changes: Vec<PlannedChange> = Vec::new();
    let mut i: usize = 0;
    while i < state.outputs.len()
        invariant
            facts_fit(*plan, *state, *facts),
            first_failure(pre) is None,
            generation_checks(*plan, *state, *facts) == pre + rem + wr,
            rem == Seq::new(state.outputs@.len(), |i: int| removal_check(*plan, *state, *facts, i)),
            wr == Seq::new(plan.outputs@.len(), |j: int| write_check(*plan, *state, *facts, j)),
            i <= state.outputs@.len(),
            first_failure(rem.take(i as int)) is None,
            change_views(changes@) == removals(*plan, *state, *facts, i as int),
        decreases state.outputs@.len() - i,
    {
        let o = &state.outputs[i];
        proof {
            lemma_first_failure_push(rem, i as int);
        }
        if !planned_position(plan, &o.path) {
            match owned_or_fault(state, &o.path, &facts.owned[i].current) {
                Err(f) => {
                    proof {
                        lemma_first_failure_prefix(rem, i + 1);
                        lemma_first_failure_concat(pre + rem, wr);
                        lemma_first_failure_concat(pre, rem);
                    }
                    return Err(f);
                },
                Ok(before) => {
                    if let Some(b) = before {
                        let ghost prev = changes@;
                        let c = PlannedChange { path: o.path.duplicate(), before: Some(b), content: None };
                        changes.push(c);
                        assert(change_views(changes@) =~= change_views(prev).push(c@));
                    }
                },
            }
        }
        i = i + 1;
    }
    assert(rem.take(rem.len() as int) =~= rem);
    let mut records: Vec<Owned> = Vec::new();
    let mut j: usize = 0;
    while j < plan.outputs.len()
        invariant
            facts_fit(*plan, *state, *facts),
            first_failure(pre) is None,
            first_failure(rem) is None,
            generation_checks(*plan, *state, *facts) == pre + rem + wr,
            wr == Seq::new(plan.outputs@.len(), |j: int| write_check(*plan, *state, *facts, j)),
            j <= plan.outputs@.len(),
            first_failure(wr.take(j as int)) is None,
            change_views(changes@) == removals(*plan, *state, *facts, state.outputs@.len() as int)
                + writes(*plan, *facts, j as int),
            record_views(records@) == planned_records(*plan).take(j as int),
        decreases plan.outputs@.len() - j,
    {
        let o = &plan.outputs[j];
        proof {
            lemma_first_failure_push(wr, j as int);
        }
        let before = match owned_or_fault(state, &o.path, &facts.outputs[j].current) {
            Err(f) => {
                proof {
                    lemma_first_failure_prefix(wr, j + 1);
                    lemma_first_failure_concat(pre + rem, wr);
                    lemma_first_failure_concat(pre, rem);
                }
                return Err(f);
            },
            Ok(before) => before,
        };
        let hash = digest(o.bytes.as_slice());
        let changed = match &before {
            None => true,
            Some(b) => b.hash != hash,
        };
        let ghost prev = changes@;
        if changed {
            let c = PlannedChange {
                path: o.path.duplicate(),
                before,
                content: Some(o.bytes.clone()),
            };
            changes.push(c);
            assert(change_views(changes@) =~= change_views(prev).push(c@));
        }
        let ghost prev_records = records@;
        let rec = Owned { path: o.path.duplicate(), record: Record { hash } };
        records.push(rec);
        assert(record_views(records@) =~= record_views(prev_records).push((rec.path@, rec.record.hash@)));
        assert(record_views(records@) =~= planned_records(*plan).take(j + 1));
        j = j + 1;
    }
    assert(wr.take(wr.len() as int) =~= wr);
    assert(planned_records(*plan).take(plan.outputs@.len() as int) =~= planned_records(*plan));
    let new_state = State {
        version: state.version,
        root: state.root.duplicate(),
        generation: state.generation.clone(),
        outputs: records,
    };
    let (before, bytes) = read_ignore(ignore_current)?;
    let bref: Option<&[u8]> = match &bytes {
        Some(b) => Some(b.as_slice()),
        None => None,
    };
    let manage = match enabled(bref) {
        Err(f) => {
            return Err(PublishFault::Ignore(f));
        },
        Ok(m) => m,
    };
    let mut outside: Vec<FsPath> = Vec::new();
    if manage {
        let ip = root.join_name(".gitignore");
        if planned_position(plan, &ip) {
            return Err(PublishFault::IgnoreIsOutput);
        }
        let paths = planned_path_list(plan);
        match update(root, &paths, bref) {
            Err(f) => {
                return Err(PublishFault::Ignore(f));
            },
            Ok(u) => {
                if !same_bytes(&bytes, &u.bytes) {
                    let ghost prev = changes@;
                    let c = PlannedChange { path: ip, before, content: Some(u.bytes) };
                    changes.push(c);
                    assert(change_views(changes@) =~= change_views(prev).push(c@));
                }
                outside = u.outside;
            },
        }
    }
    Ok(Generation { changes, state: new_state, manage_ignore: manage, outside })
}


/// Whether cleaning removes an owned output: it exists, still holds what
/// was recorded, and is not the configuration source.
pub open spec fn clean_removes(o: Owned, cur: Result<Option<Snapshot>, Failure>, source: Seq<Seq<char>>) -> bool {
    cur matches Ok(Some(b)) && b.hash@ == o.record.hash@ && o.path@ != source
}

/// Whether cleaning keeps an owned output and its record: it was edited,
/// cannot be read, or is the configuration source.
pub open spec fn clean_preserves(o: Owned, cur: Result<Option<Snapshot>, Failure>, source: Seq<Seq<char>>) -> bool {
    !(cur matches Ok(None)) && !clean_removes(o, cur, source)
}

/// The removals that cleaning makes among the first `n` owned outputs.
pub open spec fn clean_removals(
    outputs: Seq<Owned>,
    currents: Seq<Result<Option<Snapshot>, Failure>>,
    source: Seq<Seq<char>>,
    n: int,
) -> Seq<(Seq<Seq<char>>, Option<Snapshot>, Option<Seq<u8>>)>
    decreases n,
{
    if n <= 0 {
        Seq::empty()
    } else {
        let prev = clean_removals(outputs, currents, source, n - 1);
        if clean_removes(outputs[n - 1], currents[n - 1], source) {
            prev.push((outputs[n - 1].path@, currents[n - 1]->Ok_0, None))
        } else {
            prev
        }
    }
}

/// The owned outputs that cleaning keeps among the first `n`.
pub open spec fn clean_kept(
    outputs: Seq<Owned>,
    currents: Seq<Result<Option<Snapshot>, Failure>>,
    source: Seq<Seq<char>>,
    n: int,
) -> Seq<(Seq<Seq<char>>, Seq<char>)>
    decreases n,
{
    if n <= 0 {
        Seq::empty()
    } else {
        let prev = clean_kept(outputs, currents, source, n - 1);
        if clean_preserves(outputs[n - 1], currents[n - 1], source) {
            prev.push((outputs[n - 1].path@, outputs[n - 1].record.hash@))
        } else {
            prev
        }
    }
}

/// What cleaning would do.
pub struct Cleanup {
    /// Removals of unedited owned outputs, in state order.
    pub changes: Vec<PlannedChange>,
    /// Owned outputs left in place, to be reported.
    pub preserved: Vec<FsPath>,
    /// The ownership state to record: the kept outputs only.
    pub state: State,
}

/// Plans a cleanup: removes each owned output that still holds exactly
/// what was recorded (never the configuration source), forgets records of
/// outputs that no longer exist, and keeps, with their records, outputs
/// that were edited or cannot be read. `currents` holds what reading each
/// owned output found, in state order.
pub fn plan_clean(state: &State, source: &FsPath, currents: &Vec<Result<Option<Snapshot>, Failure>>) -> (r: Cleanup)
    requires
        currents@.len() == state.outputs@.len(),
    ensures
        change_views(r.changes@) == clean_removals(
            state.outputs@,
            currents@,
            source@,
            state.outputs@.len() as int,
        ),
        record_views(r.state.outputs@) == clean_kept(
            state.outputs@,
            currents@,
            source@,
            state.outputs@.len() as int,
        ),
        path_views(r.preserved@) == clean_kept(
            state.outputs@,
            currents@,
            source@,
            state.outputs@.len() as int,
        ).map_values(|e: (Seq<Seq<char>>, Seq<char>)| e.0),
        r.state.version == state.version,
        r.state.root@ == state.root@,
        r.state.generation == state.generation,
{
    let mut changes: Vec<PlannedChange> = Vec::new();
    let mut preserved: Vec<FsPath> = Vec::new();
    let mut remaining: Vec<Owned> = Vec::new();
    let mut i: usize = 0;
    while i < state.outputs.len()
        invariant
            currents@.len() == state.outputs@.len(),
            i <= state.outputs@.len(),
            change_views(changes@) == clean_removals(state.outputs@, currents@, source@, i as int),
            record_views(remaining@) == clean_kept(state.outputs@, currents@, source@, i as int),
            path_views(preserved@) == clean_kept(state.outputs@, currents@, source@, i as int).map_values(
                |e: (Seq<Seq<char>>, Seq<char>)| e.0,
            ),
        decreases state.outputs@.len() - i,
    {
        let o = &state.outputs[i];
        let ghost kept_before = clean_kept(state.outputs@, currents@, source@, i as int);
        let ghost prev_changes = changes@;
        let ghost prev_preserved = preserved@;
        let ghost prev_remaining = remaining@;
        match &currents[i] {
            Ok(None) => {},
            Ok(Some(b)) => {
                if b.hash == o.record.hash && !o.path.same(source) {
                    let c = PlannedChange { path: o.path.duplicate(), before: Some(b.duplicate()), content: None };
                    changes.push(c);
                    assert(change_views(changes@) =~= change_views(prev_changes).push(c@));
                } else {
                    let q = o.path.duplicate();
                    preserved.push(q);
                    let rec = Owned { path: o.path.duplicate(), record: Record { hash: o.record.hash.clone() } };
                    remaining.push(rec);
                    assert(record_views(remaining@) =~= record_views(prev_remaining).push((rec.path@, rec.record.hash@)));
                    assert(path_views(preserved@) =~= path_views(prev_preserved).push(q@));
                    assert(kept_before.push((o.path@, o.record.hash@)).map_values(
                        |e: (Seq<Seq<char>>, Seq<char>)| e.0,
                    ) =~= kept_before.map_values(|e: (Seq<Seq<char>>, Seq<char>)| e.0).push(o.path@));
                }
            },
            Err(_) => {
                let q = o.path.duplicate();
                preserved.push(q);
                let rec = Owned { path: o.path.duplicate(), record: Record { hash: o.record.hash.clone() } };
                remaining.push(rec);
                assert(record_views(remaining@) =~= record_views(prev_remaining).push((rec.path@, rec.record.hash@)));
                assert(path_views(preserved@) =~= path_views(prev_preserved).push(q@));
                assert(kept_before.push((o.path@, o.record.hash@)).map_values(
                    |e: (Seq<Seq<char>>, Seq<char>)| e.0,
                ) =~= kept_before.map_values(|e: (Seq<Seq<char>>, Seq<char>)| e.0).push(o.path@));
            },
        }
        i = i + 1;
    }
    let new_state = State {
        version: state.version,
        root: state.root.duplicate(),
        generation: state.generation.clone(),
        outputs: remaining,
    };
    Cleanup { changes, preserved, state: new_state }
}

/// Plans the opt-in of the ignore file (`init --gitignore`): the file's
/// new bytes hold a managed block for the planned outputs; no change is
/// planned when it already holds them. Returns the destinations outside
/// the ignore file's scope too.
pub fn plan_ignore_block(root: &FsPath, plan: &Plan, ignore_current: &Result<Option<Snapshot>, Failure>) -> (r:
    Result<(Option<PlannedChange>, Vec<FsPath>), PublishFault>)
    ensures
        is_planned(*plan, ignore_path(root@)) ==> (r matches Err(e) && e@
            == PublishFaultView::IgnoreIsOutput),
        !is_planned(*plan, ignore_path(root@)) ==> match ignore_bytes(*ignore_current) {
            Err(v) => r matches Err(e) && e@ == v,
            Ok(bytes) => match r {
                Ok((change, outside)) => exists|os: Seq<Seq<char>>|
                    #![trigger update_spec(root@, planned_paths(*plan), bytes, block_lines(os))]
                    {
                        &&& block_order(os, root@, planned_paths(*plan))
                        &&& update_spec(root@, planned_paths(*plan), bytes, block_lines(os)) matches Ok(content)
                        &&& if bytes == Some(content) {
                            change is None
                        } else {
                            change matches Some(c) && c@ == (
                                ignore_path(root@),
                                ignore_current->Ok_0,
                                Some(content),
                            )
                        }
                        &&& path_views(outside@) == outside_paths(root@, planned_paths(*plan))
                    },
                Err(e) => exists|f: IgnoreFault|
                    e@ == PublishFaultView::Ignore(f) && forall|ps: Seq<Seq<char>>|
                        #[trigger] update_spec(root@, planned_paths(*plan), bytes, ps) == Err::<
                            Seq<u8>,
                            IgnoreFault,
                        >(f),
            },
        },
{
    let ip = root.join_name(".gitignore");
    if planned_position(plan, &ip) {
        return Err(PublishFault::IgnoreIsOutput);
    }
    let (before, bytes) = read_ignore(ignore_current)?;
    let bref: Option<&[u8]> = match &bytes {
        Some(b) => Some(b.as_slice()),
        None => None,
    };
    let paths = planned_path_list(plan);
    match update(root, &paths, bref) {
        Err(f) => Err(PublishFault::Ignore(f)),
        Ok(u) => {
            if same_bytes(&bytes, &u.bytes) {
                Ok((None, u.outside))
            } else {
                let c = PlannedChange { path: ip, before, content: Some(u.bytes) };
                Ok((Some(c), u.outside))
            }
        },
    }
}

/// Checks, without writing, that a plan could be published: no recovery
/// is pending, the preflight checks pass, and an opted-in ignore file can
/// be updated. Returns the destinations outside the ignore file's scope.
pub fn validate(
    root: &FsPath,
    plan: &Plan,
    state: &State,
    facts: &Facts,
    recovery_pending: bool,
    ignore_current: &Result<Option<Snapshot>, Failure>,
) -> (r: Result<Vec<FsPath>, PublishFault>)
    requires
        facts_fit(*plan, *state, *facts),
    ensures
        recovery_pending ==> (r matches Err(e) && e@ == PublishFaultView::RecoveryPending),
        !recovery_pending ==> match first_failure(preflight_checks(*plan, *state, *facts)) {
            Some(f) => r matches Err(e) && e@ == f,
            None => match ignore_bytes(*ignore_current) {
                Err(v) => r matches Err(e) && e@ == v,
                Ok(bytes) => match enabled_spec(bytes) {
                    Err(f) => r matches Err(e) && e@ == PublishFaultView::Ignore(f),
                    Ok(false) => r matches Ok(outside) && outside@.len() == 0,
                    Ok(true) => if is_planned(*plan, ignore_path(root@)) {
                        r matches Err(e) && e@ == PublishFaultView::IgnoreIsOutput
                    } else {
                        match r {
                            Ok(outside) => path_views(outside@) == outside_paths(
                                root@,
                                planned_paths(*plan),
                            ) && exists|ps: Seq<Seq<char>>|
                                #[trigger] update_spec(root@, planned_paths(*plan), bytes, ps) is Ok,
                            Err(e) => exists|f: IgnoreFault|
                                e@ == PublishFaultView::Ignore(f) && forall|ps: Seq<Seq<char>>|
                                    #[trigger] update_spec(root@, planned_paths(*plan), bytes, ps)
                                        == Err::<Seq<u8>, IgnoreFault>(f),
                        }
                    },
                },
            },
        },
{
    if recovery_pending {
        return Err(PublishFault::RecoveryPending);
    }
    preflight(plan, state, facts)?;
    let (_before, bytes) = read_ignore(ignore_current)?;
    let bref: Option<&[u8]> = match &bytes {
        Some(b) => Some(b.as_slice()),
        None => None,
    };
    let manage = match enabled(bref) {
        Err(f) => {
            return Err(PublishFault::Ignore(f));
        },
        Ok(m) => m,
    };
    if !manage {
        return Ok(Vec::new());
    }
    let ip = root.join_name(".gitignore");
    if planned_position(plan, &ip) {
        return Err(PublishFault::IgnoreIsOutput);
    }
    let paths = planned_path_list(plan);
    match update(root, &paths, bref) {
        Err(f) => Err(PublishFault::Ignore(f)),
        Ok(u) => Ok(u.outside),
    }
}

} // verus!

verus! {

/// The directory whose entry list changes when `path` is renamed into
/// place or removed, and that is therefore synced: its parent; `None` when
/// the path has none.
pub fn sync_parent(path: &FsPath) -> (r: Option<FsPath>)
    ensures
        match r {
            None => path@.len() == 0 || path@.last() == crate::path::root_part(),
            Some(p) => path@.len() > 0 && path@.last() != crate::path::root_part() && p@ == path@.drop_last(),
        },
{
    path.parent()
}

} // verus!

verus! {

/// Cleaning removes only owned outputs that still hold exactly the bytes
/// recorded for them, and never the configuration source: each removal is
/// of an owned output whose current fingerprint is its recorded one.
pub proof fn law_clean_removes_only_unedited(
    outputs: Seq<Owned>,
    currents: Seq<Result<Option<Snapshot>, Failure>>,
    source: Seq<Seq<char>>,
    n: int,
)
    requires
        0 <= n <= outputs.len(),
        currents.len() == outputs.len(),
    ensures
        forall|k: int|
            #![trigger clean_removals(outputs, currents, source, n)[k]]
            0 <= k < clean_removals(outputs, currents, source, n).len() ==> exists|i: int|
                0 <= i < n && (#[trigger] outputs[i]).path@ == clean_removals(outputs, currents, source, n)[k].0
                    && clean_removes(outputs[i], currents[i], source) && clean_removals(
                    outputs,
                    currents,
                    source,
                    n,
                )[k].1 == currents[i]->Ok_0 && clean_removals(outputs, currents, source, n)[k].2 is None,
    decreases n,
{
    if n > 0 {
        law_clean_removes_only_unedited(outputs, currents, source, n - 1);
        let prev = clean_removals(outputs, currents, source, n - 1);
        let now = clean_removals(outputs, currents, source, n);
        assert forall|k: int| #![trigger now[k]] 0 <= k < now.len() implies exists|i: int|
            0 <= i < n && (#[trigger] outputs[i]).path@ == now[k].0 && clean_removes(
                outputs[i],
                currents[i],
                source,
            ) && now[k].1 == currents[i]->Ok_0 && now[k].2 is None by {
            if k < prev.len() {
                assert(now[k] == prev[k]);
                let i = choose|i: int|
                    0 <= i < n - 1 && (#[trigger] outputs[i]).path@ == prev[k].0 && clean_removes(
                        outputs[i],
                        currents[i],
                        source,
                    ) && prev[k].1 == currents[i]->Ok_0 && prev[k].2 is None;
                assert(outputs[i].path@ == now[k].0);
            } else {
                assert(outputs[n - 1].path@ == now[k].0);
            }
        }
    }
}

/// A generation rewrites only the outputs whose files do not already hold
/// their bytes, so unchanged files are left as they are: each write's
/// previous content, if any, has another fingerprint than the new bytes.
pub proof fn law_unchanged_outputs_are_not_rewritten(plan: Plan, facts: Facts, n: int)
    requires
        0 <= n <= plan.outputs@.len(),
    ensures
        forall|k: int|
            0 <= k < writes(plan, facts, n).len() ==> ((#[trigger] writes(plan, facts, n)[k]).2 matches Some(b)
                && (writes(plan, facts, n)[k].1 matches Some(c) ==> c.hash@ != hex(sha256(b)))),
    decreases n,
{
    if n > 0 {
        law_unchanged_outputs_are_not_rewritten(plan, facts, n - 1);
        let prev = writes(plan, facts, n - 1);
        let now = writes(plan, facts, n);
        assert forall|k: int| 0 <= k < now.len() implies ((#[trigger] now[k]).2 matches Some(b) && (now[k].1 matches Some(
            c,
        ) ==> c.hash@ != hex(sha256(b)))) by {
            if k < prev.len() {
                assert(now[k] == prev[k]);
            }
        }
    }
}

} // verus!

verus! {

proof fn lemma_removals_owned(plan: Plan, state: State, facts: Facts, n: int)
    requires
        0 <= n <= state.outputs@.len(),
        facts_fit(plan, state, facts),
        forall|i: int| 0 <= i < n ==> (#[trigger] removal_check(plan, state, facts, i)) is None,
    ensures
        forall|k: int|
            #![trigger removals(plan, state, facts, n)[k]]
            0 <= k < removals(plan, state, facts, n).len() ==> (removals(plan, state, facts, n)[k].1 matches Some(
                b,
            ) ==> recorded_hash(state.outputs@, removals(plan, state, facts, n)[k].0) == Some(b.hash@)),
    decreases n,
{
    if n > 0 {
        lemma_removals_owned(plan, state, facts, n - 1);
        let prev = removals(plan, state, facts, n - 1);
        let now = removals(plan, state, facts, n);
        assert(removal_check(plan, state, facts, n - 1) is None);
        assert forall|k: int| #![trigger now[k]] 0 <= k < now.len() implies (now[k].1 matches Some(b)
            ==> recorded_hash(state.outputs@, now[k].0) == Some(b.hash@)) by {
            if k < prev.len() {
                assert(now[k] == prev[k]);
            }
        }
    }
}

proof fn lemma_writes_owned(plan: Plan, state: State, facts: Facts, n: int)
    requires
        0 <= n <= plan.outputs@.len(),
        facts_fit(plan, state, facts),
        forall|j: int| 0 <= j < n ==> (#[trigger] write_check(plan, state, facts, j)) is None,
    ensures
        forall|k: int|
            #![trigger writes(plan, facts, n)[k]]
            0 <= k < writes(plan, facts, n).len() ==> (writes(plan, facts, n)[k].1 matches Some(b)
                ==> recorded_hash(state.outputs@, writes(plan, facts, n)[k].0) == Some(b.hash@)),
    decreases n,
{
    if n > 0 {
        lemma_writes_owned(plan, state, facts, n - 1);
        let prev = writes(plan, facts, n - 1);
        let now = writes(plan, facts, n);
        assert(write_check(plan, state, facts, n - 1) is None);
        assert forall|k: int| #![trigger now[k]] 0 <= k < now.len() implies (now[k].1 matches Some(b)
            ==> recorded_hash(state.outputs@, now[k].0) == Some(b.hash@)) by {
            if k < prev.len() {
                assert(now[k] == prev[k]);
            }
        }
    }
}

/// A generation whose checks pass replaces or removes only files that this
/// project owns and that still hold the recorded bytes: every change that
/// has a previous content names an owned path whose recorded fingerprint is
/// that content's.
pub proof fn law_generation_touches_only_owned_unedited(plan: Plan, state: State, facts: Facts)
    requires
        facts_fit(plan, state, facts),
        first_failure(generation_checks(plan, state, facts)) is None,
    ensures
        forall|k: int|
            #![trigger base_changes(plan, state, facts)[k]]
            0 <= k < base_changes(plan, state, facts).len() ==> (base_changes(plan, state, facts)[k].1 matches Some(
                b,
            ) ==> recorded_hash(state.outputs@, base_changes(plan, state, facts)[k].0) == Some(b.hash@)),
{
    let checks = generation_checks(plan, state, facts);
    let pre = preflight_checks(plan, state, facts);
    let rem = Seq::new(state.outputs@.len(), |i: int| removal_check(plan, state, facts, i));
    let wr = Seq::new(plan.outputs@.len(), |j: int| write_check(plan, state, facts, j));
    assert(checks == pre + rem + wr);
    crate::outcome::lemma_first_failure_none_all(checks);
    assert forall|i: int| 0 <= i < state.outputs@.len() implies (#[trigger] removal_check(plan, state, facts, i)) is None by {
        assert(checks[pre.len() + i] == rem[i]);
    }
    assert forall|j: int| 0 <= j < plan.outputs@.len() implies (#[trigger] write_check(plan, state, facts, j)) is None by {
        assert(checks[pre.len() + rem.len() + j] == wr[j]);
    }
    lemma_removals_owned(plan, state, facts, state.outputs@.len() as int);
    lemma_writes_owned(plan, state, facts, plan.outputs@.len() as int);
    let r = removals(plan, state, facts, state.outputs@.len() as int);
    let w = writes(plan, facts, plan.outputs@.len() as int);
    let all = base_changes(plan, state, facts);
    assert forall|k: int| #![trigger all[k]] 0 <= k < all.len() implies (all[k].1 matches Some(b)
        ==> recorded_hash(state.outputs@, all[k].0) == Some(b.hash@)) by {
        if k < r.len() {
            assert(all[k] == r[k]);
        } else {
            assert(all[k] == w[k - r.len()]);
        }
    }
}

/// Every owned output is no configuration input and, where it exists,
/// still holds its recorded bytes; every planned output has sound
/// ancestors, is no configuration input and, where it exists, is owned;
/// every competing native file that exists is owned; and every probe was
/// read without failure.
pub open spec fn preflight_ok(plan: Plan, state: State, facts: Facts) -> bool {
    &&& forall|i: int|
        0 <= i < state.outputs@.len() ==> {
            let o = #[trigger] state.outputs@[i];
            let pr = facts.owned@[i];
            &&& !is_input(plan.inputs, o.path@, pr.canonical)
            &&& pr.current is Ok
            &&& (pr.current matches Ok(Some(a)) ==> a.hash@ == o.record.hash@)
        }
    &&& forall|j: int|
        0 <= j < plan.outputs@.len() ==> {
            let o = #[trigger] plan.outputs@[j];
            let pr = facts.outputs@[j];
            &&& pr.ancestors is Ok
            &&& !is_input(plan.inputs, o.path@, pr.canonical)
            &&& pr.current is Ok
            &&& (pr.current matches Ok(Some(_)) ==> recorded_hash(state.outputs@, o.path@) is Some)
        }
    &&& forall|k: int|
        0 <= k < plan.alternatives@.len() ==> {
            &&& (#[trigger] facts.alternatives@[k]) is Ok
            &&& (facts.alternatives@[k] matches Ok(true) ==> recorded_hash(
                state.outputs@,
                plan.alternatives@[k]@,
            ) is Some)
        }
}

/// Preflight passes exactly when the plan, the state and the files agree
/// as `preflight_ok` says.
pub proof fn law_preflight_passes(plan: Plan, state: State, facts: Facts)
    requires
        facts_fit(plan, state, facts),
    ensures
        (first_failure(preflight_checks(plan, state, facts)) is None) == preflight_ok(plan, state, facts),
{
    let checks = preflight_checks(plan, state, facts);
    let a = Seq::new(state.outputs@.len(), |i: int| owned_check(plan, state, facts, i));
    let b = Seq::new(plan.outputs@.len(), |j: int| output_check(plan, state, facts, j));
    let c = Seq::new(plan.alternatives@.len(), |k: int| alternative_check(plan, state, facts, k));
    assert(checks == a + b + c);
    if first_failure(checks) is None {
        crate::outcome::lemma_first_failure_none_all(checks);
        assert forall|i: int| 0 <= i < state.outputs@.len() implies owned_check(plan, state, facts, i) is None by {
            assert(checks[i] == a[i]);
        }
        assert forall|j: int| 0 <= j < plan.outputs@.len() implies output_check(plan, state, facts, j) is None by {
            assert(checks[a.len() + j] == b[j]);
        }
        assert forall|k: int| 0 <= k < plan.alternatives@.len() implies alternative_check(plan, state, facts, k)
            is None by {
            assert(checks[a.len() + b.len() + k] == c[k]);
        }
        assert forall|i: int| 0 <= i < state.outputs@.len() implies {
            let o = #[trigger] state.outputs@[i];
            let pr = facts.owned@[i];
            &&& !is_input(plan.inputs, o.path@, pr.canonical)
            &&& pr.current is Ok
            &&& (pr.current matches Ok(Some(x)) ==> x.hash@ == o.record.hash@)
        } by {
            assert(owned_check(plan, state, facts, i) is None);
        }
        assert forall|j: int| 0 <= j < plan.outputs@.len() implies {
            let o = #[trigger] plan.outputs@[j];
            let pr = facts.outputs@[j];
            &&& pr.ancestors is Ok
            &&& !is_input(plan.inputs, o.path@, pr.canonical)
            &&& pr.current is Ok
            &&& (pr.current matches Ok(Some(_)) ==> recorded_hash(state.outputs@, o.path@) is Some)
        } by {
            assert(output_check(plan, state, facts, j) is None);
        }
        assert forall|k: int| 0 <= k < plan.alternatives@.len() implies {
            &&& (#[trigger] facts.alternatives@[k]) is Ok
            &&& (facts.alternatives@[k] matches Ok(true) ==> recorded_hash(
                state.outputs@,
                plan.alternatives@[k]@,
            ) is Some)
        } by {
            assert(alternative_check(plan, state, facts, k) is None);
        }
    }
    if preflight_ok(plan, state, facts) {
        assert forall|m: int| 0 <= m < checks.len() implies checks[m] is None by {
            if m < a.len() {
                assert(checks[m] == a[m]);
                assert(owned_check(plan, state, facts, m) is None);
            } else if m < a.len() + b.len() {
                assert(checks[m] == b[m - a.len()]);
                assert(output_check(plan, state, facts, m - a.len()) is None);
            } else {
                assert(checks[m] == c[m - a.len() - b.len()]);
                assert(alternative_check(plan, state, facts, m - a.len() - b.len()) is None);
            }
        }
        crate::outcome::lemma_first_failure_none(checks);
    }
}

} // verus!

verus! {

/// Every planned output whose file does not already hold its bytes (no
/// file, or a file with another fingerprint) is written: among the first
/// `n` planned outputs, each such output appears among the writes with
/// its current content as the previous one and its bytes as the new one.
pub proof fn law_changed_outputs_are_written(plan: Plan, facts: Facts, n: int, j: int)
    requires
        0 <= j < n <= plan.outputs@.len(),
        current_of(facts.outputs@[j]) matches Some(c) ==> c.hash@ != hex(sha256(plan.outputs@[j].bytes@)),
    ensures
        writes(plan, facts, n).contains(
            (plan.outputs@[j].path@, current_of(facts.outputs@[j]), Some(plan.outputs@[j].bytes@)),
        ),
    decreases n,
{
    let w = (plan.outputs@[j].path@, current_of(facts.outputs@[j]), Some(plan.outputs@[j].bytes@));
    let now = writes(plan, facts, n);
    let prev = writes(plan, facts, n - 1);
    if j == n - 1 {
        assert(now == prev.push(w));
        assert(now[prev.len() as int] == w);
    } else {
        law_changed_outputs_are_written(plan, facts, n - 1, j);
        let k = choose|k: int| 0 <= k < prev.len() && prev[k] == w;
        assert(now[k] == w);
    }
}

/// A generation whose checks pass carries, among its base changes, a write
/// of every planned output whose file does not already hold its bytes.
pub proof fn law_generation_writes_every_changed_output(plan: Plan, state: State, facts: Facts, j: int)
    requires
        0 <= j < plan.outputs@.len(),
        current_of(facts.outputs@[j]) matches Some(c) ==> c.hash@ != hex(sha256(plan.outputs@[j].bytes@)),
    ensures
        base_changes(plan, state, facts).contains(
            (plan.outputs@[j].path@, current_of(facts.outputs@[j]), Some(plan.outputs@[j].bytes@)),
        ),
{
    let w = (plan.outputs@[j].path@, current_of(facts.outputs@[j]), Some(plan.outputs@[j].bytes@));
    let r = removals(plan, state, facts, state.outputs@.len() as int);
    let ws = writes(plan, facts, plan.outputs@.len() as int);
    law_changed_outputs_are_written(plan, facts, plan.outputs@.len() as int, j);
    let k = choose|k: int| 0 <= k < ws.len() && ws[k] == w;
    assert((r + ws)[r.len() + k] == w);
}

/// Every recorded output that is no longer planned and whose file still
/// exists is removed: among the first `n` records, each such one appears
/// among the removals with its current content as the previous one and no
/// new content.
pub proof fn law_obsolete_outputs_are_removed(plan: Plan, state: State, facts: Facts, n: int, i: int)
    requires
        0 <= i < n <= state.outputs@.len(),
        !is_planned(plan, state.outputs@[i].path@),
        current_of(facts.owned@[i]) is Some,
    ensures
        removals(plan, state, facts, n).contains(
            (state.outputs@[i].path@, current_of(facts.owned@[i]), None::<Seq<u8>>),
        ),
    decreases n,
{
    let w = (state.outputs@[i].path@, current_of(facts.owned@[i]), None::<Seq<u8>>);
    let now = removals(plan, state, facts, n);
    let prev = removals(plan, state, facts, n - 1);
    if i == n - 1 {
        assert(now == prev.push(w));
        assert(now[prev.len() as int] == w);
    } else {
        law_obsolete_outputs_are_removed(plan, state, facts, n - 1, i);
        let k = choose|k: int| 0 <= k < prev.len() && prev[k] == w;
        assert(now[k] == w);
    }
}

/// The state a generation records holds every planned output, in order,
/// with the fingerprint of the bytes it plans for it.
pub proof fn law_generation_records_planned_bytes(plan: Plan)
    ensures
        planned_records(plan).len() == plan.outputs@.len(),
        forall|j: int|
            0 <= j < plan.outputs@.len() ==> #[trigger] planned_records(plan)[j] == (
                plan.outputs@[j].path@,
                hex(sha256(plan.outputs@[j].bytes@)),
            ),
{
}

} // verus!
