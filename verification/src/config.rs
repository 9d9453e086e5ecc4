//! Configuration discovery decisions, content fingerprints, and the record of
//! the files that an evaluation read.
use vstd::prelude::*;

use sha2::Digest;

use crate::path::{is_normal_absolute, is_prefix, path_views, FsPath};
use crate::Failure;
use crate::text::string_of;

verus! {

/// The SHA-256 digest of a byte sequence.
pub uninterp spec fn sha256(bytes: Seq<u8>) -> Seq<u8>;

/// `sha2::Sha256::digest`: the 32-byte SHA-256 digest of `bytes`. The
/// contract names the digest and states its length, which `Sha256`'s output
/// size fixes; it says nothing more of its value.
#[verifier::external_body]
fn sha256_bytes(bytes: &[u8]) -> (r: Vec<u8>)
    ensures
        r@ == sha256(bytes@),
        r@.len() == 32,
{
    sha2::Sha256::digest(bytes).to_vec()
}

/// The lowercase hexadecimal digit of a value below sixteen.
pub open spec fn hex_digit(n: u8) -> char {
    if n < 10 {
        (48 + n) as char
    } else {
        (87 + n) as char
    }
}

/// Two lowercase hexadecimal digits per byte, most significant first.
pub open spec fn hex(bytes: Seq<u8>) -> Seq<char>
    decreases bytes.len(),
{
    if bytes.len() == 0 {
        Seq::empty()
    } else {
        hex(bytes.drop_last()) + seq![
            hex_digit(bytes.last() / 16),
            hex_digit(bytes.last() % 16),
        ]
    }
}

fn hex_char(n: u8) -> (c: char)
    requires
        n < 16,
    ensures
        c == hex_digit(n),
{
    if n < 10 {
        (48u8 + n) as char
    } else {
        (87u8 + n) as char
    }
}

/// The fingerprint of a byte sequence: its SHA-256 digest in lowercase hex.
pub fn digest(bytes: &[u8]) -> (r: String)
    ensures
        r@ == hex(sha256(bytes@)),
        r@.len() == 64,
{
    let raw = sha256_bytes(bytes);
    let mut out: Vec<char> = Vec::new();
    let mut i: usize = 0;
    while i < raw.len()
        invariant
            i <= raw@.len(),
            raw@.len() == 32,
            out@ == hex(raw@.take(i as int)),
            out@.len() == 2 * i,
        decreases raw@.len() - i,
    {
        let b = raw[i];
        out.push(hex_char(b / 16));
        out.push(hex_char(b % 16));
        assert(raw@.take(i + 1).drop_last() =~= raw@.take(i as int));
        i = i + 1;
    }
    assert(raw@.take(raw@.len() as int) =~= raw@);
    string_of(out.as_slice())
}

} // verus!

verus! {

/// A file that evaluation read, with the fingerprint of what it held;
/// `None` records that it did not exist.
pub struct InputFile {
    pub path: FsPath,
    pub hash: Option<String>,
}

/// A glob that evaluation expanded: its base, its pattern, and the matches.
pub struct GlobRecord {
    pub base: FsPath,
    pub pattern: String,
    pub matches: Vec<FsPath>,
}

/// The inputs that one evaluation depended on.
pub struct Inputs {
    pub files: Vec<InputFile>,
    pub directories: Vec<FsPath>,
    pub globs: Vec<GlobRecord>,
    pub excluded: Vec<FsPath>,
}

/// Some recorded file has the path `p`.
pub open spec fn records_file(files: Seq<InputFile>, p: Seq<Seq<char>>) -> bool {
    exists|i: int| 0 <= i < files.len() && (#[trigger] files[i]).path@ == p
}

/// Some directory in `dirs` is a leading part of `p`.
pub open spec fn under_any(dirs: Seq<FsPath>, p: Seq<Seq<char>>) -> bool {
    exists|i: int| 0 <= i < dirs.len() && is_prefix((#[trigger] dirs[i])@, p)
}

/// A recorded file as plain values: its path and its fingerprint.
pub open spec fn file_view(f: InputFile) -> (Seq<Seq<char>>, Option<Seq<char>>) {
    (
        f.path@,
        match f.hash {
            Some(h) => Some(h@),
            None => None,
        },
    )
}

/// The recorded files as plain values.
pub open spec fn file_views(files: Seq<InputFile>) -> Seq<(Seq<Seq<char>>, Option<Seq<char>>)> {
    files.map_values(|f: InputFile| file_view(f))
}

/// The fingerprint recorded for a read: of the bytes read, or none when the
/// file did not exist.
pub open spec fn read_hash(bytes: Option<Seq<u8>>) -> Option<Seq<char>> {
    match bytes {
        Some(b) => Some(hex(sha256(b))),
        None => None,
    }
}

/// The records after a read of `p` is noted: the record of `p` replaced
/// where it stands, or a new one at the end.
pub open spec fn noted(
    v: Seq<(Seq<Seq<char>>, Option<Seq<char>>)>,
    p: Seq<Seq<char>>,
    h: Option<Seq<char>>,
) -> Seq<(Seq<Seq<char>>, Option<Seq<char>>)> {
    if exists|i: int| 0 <= i < v.len() && (#[trigger] v[i]).0 == p {
        v.update(choose|i: int| 0 <= i < v.len() && (#[trigger] v[i]).0 == p, (p, h))
    } else {
        v.push((p, h))
    }
}

/// The view of optional bytes.
pub open spec fn bytes_view(b: Option<&[u8]>) -> Option<Seq<u8>> {
    match b {
        Some(x) => Some(x@),
        None => None,
    }
}

impl Inputs {
    /// Each file is recorded once.
    pub open spec fn wf(&self) -> bool {
        forall|i: int, j: int|
            0 <= i < j < self.files@.len() ==> (#[trigger] self.files@[i]).path@ != (
            #[trigger] self.files@[j]).path@
    }

    /// Inputs that record nothing.
    pub fn empty() -> (r: Inputs)
        ensures
            r.wf(),
            r.files@.len() == 0,
            r.directories@.len() == 0,
            r.globs@.len() == 0,
            r.excluded@.len() == 0,
    {
        Inputs { files: Vec::new(), directories: Vec::new(), globs: Vec::new(), excluded: Vec::new() }
    }

    /// Whether `path`, or the real path it resolves to (`canonical`, when it
    /// resolves), is a recorded input file.
    pub fn contains(&self, path: &FsPath, canonical: Option<&FsPath>) -> (r: bool)
        ensures
            r == (records_file(self.files@, path@) || (canonical matches Some(c) && records_file(
                self.files@,
                c@,
            ))),
    {
        if self.position(path).is_some() {
            return true;
        }
        match canonical {
            Some(c) => self.position(c).is_some(),
            None => false,
        }
    }

    /// The index of the record for `path`, if there is one.
    pub fn position(&self, path: &FsPath) -> (r: Option<usize>)
        ensures
            match r {
                Some(i) => i < self.files@.len() && self.files@[i as int].path@ == path@,
                None => !records_file(self.files@, path@),
            },
    {
        let mut i: usize = 0;
        while i < self.files.len()
            invariant
                i <= self.files@.len(),
                forall|k: int| 0 <= k < i ==> (#[trigger] self.files@[k]).path@ != path@,
            decreases self.files@.len() - i,
        {
            if self.files[i].path.same(path) {
                return Some(i);
            }
            i = i + 1;
        }
        None
    }

    /// Whether `path` lies inside a directory that evaluation excluded.
    pub fn ignores(&self, path: &FsPath) -> (r: bool)
        ensures
            r == under_any(self.excluded@, path@),
    {
        let mut i: usize = 0;
        while i < self.excluded.len()
            invariant
                i <= self.excluded@.len(),
                forall|k: int| 0 <= k < i ==> !is_prefix((#[trigger] self.excluded@[k])@, path@),
            decreases self.excluded@.len() - i,
        {
            if path.starts_with(&self.excluded[i]) {
                return true;
            }
            i = i + 1;
        }
        false
    }

    /// Records what a read of `path` found: the fingerprint of its bytes, or
    /// that it did not exist. A later record of the same path replaces the
    /// earlier one; the other records stay.
    pub fn note_read(&mut self, path: &FsPath, bytes: Option<&[u8]>)
        requires
            old(self).wf(),
        ensures
            final(self).wf(),
            records_file(final(self).files@, path@),
            forall|i: int|
                0 <= i < final(self).files@.len() && (#[trigger] final(self).files@[i]).path@ == path@
                    ==> match bytes {
                    Some(b) => final(self).files@[i].hash matches Some(h) && h@ == hex(sha256(b@)),
                    None => final(self).files@[i].hash is None,
                },
            forall|q: Seq<Seq<char>>|
                q != path@ ==> (records_file(final(self).files@, q) == records_file(
                    old(self).files@,
                    q,
                )),
            file_views(final(self).files@) == noted(file_views(old(self).files@), path@, read_hash(bytes_view(bytes))),
            final(self).directories@ == old(self).directories@,
            final(self).excluded@ == old(self).excluded@,
            final(self).globs@ == old(self).globs@,
    {
        let hash = match bytes {
            Some(b) => Some(digest(b)),
            None => None,
        };
        let ghost old_files = self.files@;
        let ghost ov = file_views(old_files);
        match self.position(path) {
            Some(i) => {
                self.files.set(i, InputFile { path: path.duplicate(), hash });
                assert(file_views(self.files@) == noted(ov, path@, read_hash(bytes_view(bytes)))) by {
                    assert(ov[i as int].0 == path@);
                    let j = choose|j: int| 0 <= j < ov.len() && (#[trigger] ov[j]).0 == path@;
                    assert(old_files[j].path@ == path@);
                    if j != i {
                        if j < i {
                            assert(old_files[j].path@ != old_files[i as int].path@);
                        } else {
                            assert(old_files[i as int].path@ != old_files[j].path@);
                        }
                    }
                    assert(file_views(self.files@) =~= ov.update(i as int, (path@, read_hash(bytes_view(bytes)))));
                }
                assert forall|q: Seq<Seq<char>>| q != path@ implies (records_file(self.files@, q)
                    == records_file(old_files, q)) by {
                    if records_file(old_files, q) {
                        let k = choose|k: int| 0 <= k < old_files.len() && (#[trigger] old_files[k]).path@ == q;
                        assert(self.files@[k].path@ == q);
                    }
                    if records_file(self.files@, q) {
                        let k = choose|k: int| 0 <= k < self.files@.len() && (#[trigger] self.files@[k]).path@ == q;
                        assert(old_files[k].path@ == q);
                    }
                }
                assert(self.files@[i as int].path@ == path@);
                assert forall|k: int|
                    0 <= k < self.files@.len() && (#[trigger] self.files@[k]).path@ == path@ implies k
                    == i by {
                    if k != i {
                        assert(old_files[k].path@ == path@);
                    }
                }
                assert forall|a: int, b: int| 0 <= a < b < self.files@.len() implies (
                #[trigger] self.files@[a]).path@ != (#[trigger] self.files@[b]).path@ by {
                    if a != i && b != i {
                        assert(old_files[a] == self.files@[a]);
                        assert(old_files[b] == self.files@[b]);
                    } else if a == i {
                        assert(old_files[b] == self.files@[b]);
                    } else {
                        assert(old_files[a] == self.files@[a]);
                    }
                }
            },
            None => {
                self.files.push(InputFile { path: path.duplicate(), hash });
                assert(file_views(self.files@) == noted(ov, path@, read_hash(bytes_view(bytes)))) by {
                    assert forall|j: int| 0 <= j < ov.len() implies (#[trigger] ov[j]).0 != path@ by {
                        assert(old_files[j].path@ == ov[j].0);
                    }
                    assert(file_views(self.files@) =~= ov.push((path@, read_hash(bytes_view(bytes)))));
                }
                let n = self.files.len() - 1;
                assert(self.files@[n as int].path@ == path@);
                assert forall|q: Seq<Seq<char>>| q != path@ implies (records_file(self.files@, q)
                    == records_file(old_files, q)) by {
                    if records_file(old_files, q) {
                        let k = choose|k: int| 0 <= k < old_files.len() && (#[trigger] old_files[k]).path@ == q;
                        assert(self.files@[k].path@ == q);
                    }
                }
                assert forall|k: int|
                    0 <= k < self.files@.len() && (#[trigger] self.files@[k]).path@ == path@ implies k
                    == n by {
                    if k < n {
                        assert(old_files[k].path@ == path@);
                    }
                }
                assert forall|a: int, b: int| 0 <= a < b < self.files@.len() implies (
                #[trigger] self.files@[a]).path@ != (#[trigger] self.files@[b]).path@ by {
                    if b < n {
                        assert(old_files[a] == self.files@[a]);
                        assert(old_files[b] == self.files@[b]);
                    } else {
                        assert(old_files[a] == self.files@[a]);
                    }
                }
            },
        }
    }
}

} // verus!

verus! {

/// A glob record as plain values: its base, its pattern, its matches.
pub open spec fn glob_view(g: GlobRecord) -> (Seq<Seq<char>>, Seq<char>, Seq<Seq<Seq<char>>>) {
    (g.base@, g.pattern@, path_views(g.matches@))
}

/// The glob records as plain values.
pub open spec fn glob_views(v: Seq<GlobRecord>) -> Seq<(Seq<Seq<char>>, Seq<char>, Seq<Seq<Seq<char>>>)> {
    v.map_values(|g: GlobRecord| glob_view(g))
}

/// The record at `i` is the first one of this base and pattern.
pub open spec fn first_glob_at(
    v: Seq<(Seq<Seq<char>>, Seq<char>, Seq<Seq<Seq<char>>>)>,
    base: Seq<Seq<char>>,
    pattern: Seq<char>,
    i: int,
) -> bool {
    &&& 0 <= i < v.len()
    &&& v[i].0 == base && v[i].1 == pattern
    &&& forall|j: int| 0 <= j < i ==> !((#[trigger] v[j]).0 == base && v[j].1 == pattern)
}

/// The records after a glob is noted: the first record of the same base
/// and pattern gets the new matches, or a new record comes at the end.
pub open spec fn globbed(
    v: Seq<(Seq<Seq<char>>, Seq<char>, Seq<Seq<Seq<char>>>)>,
    base: Seq<Seq<char>>,
    pattern: Seq<char>,
    m: Seq<Seq<Seq<char>>>,
) -> Seq<(Seq<Seq<char>>, Seq<char>, Seq<Seq<Seq<char>>>)> {
    if exists|i: int| first_glob_at(v, base, pattern, i) {
        v.update(choose|i: int| first_glob_at(v, base, pattern, i), (base, pattern, m))
    } else {
        v.push((base, pattern, m))
    }
}

/// The matches that lie outside `cache`, in order.
pub open spec fn not_cached(found: Seq<Seq<Seq<char>>>, cache: Seq<Seq<char>>) -> Seq<Seq<Seq<char>>>
    decreases found.len(),
{
    if found.len() == 0 {
        Seq::empty()
    } else {
        let r = not_cached(found.drop_last(), cache);
        if is_prefix(cache, found.last()) {
            r
        } else {
            r.push(found.last())
        }
    }
}

fn dir_position(dirs: &Vec<FsPath>, base: &FsPath) -> (r: Option<usize>)
    ensures
        match r {
            Some(i) => i < dirs@.len() && dirs@[i as int]@ == base@,
            None => !path_views(dirs@).contains(base@),
        },
{
    let mut d: usize = 0;
    while d < dirs.len()
        invariant
            d <= dirs@.len(),
            forall|k: int| 0 <= k < d ==> (#[trigger] dirs@[k])@ != base@,
        decreases dirs@.len() - d,
    {
        if dirs[d].same(base) {
            return Some(d);
        }
        d = d + 1;
    }
    assert forall|k: int| 0 <= k < dirs@.len() implies path_views(dirs@)[k] != base@ by {
        assert(path_views(dirs@)[k] == dirs@[k]@);
    }
    None
}

fn glob_position(globs: &Vec<GlobRecord>, base: &FsPath, pattern: &str) -> (r: Option<usize>)
    ensures
        match r {
            Some(i) => first_glob_at(glob_views(globs@), base@, pattern@, i as int),
            None => forall|c: int| !first_glob_at(glob_views(globs@), base@, pattern@, c),
        },
{
    let ghost gv = glob_views(globs@);
    let mut g: usize = 0;
    while g < globs.len()
        invariant
            g <= globs@.len(),
            gv == glob_views(globs@),
            forall|k: int| 0 <= k < g ==> !((#[trigger] gv[k]).0 == base@ && gv[k].1 == pattern@),
        decreases globs@.len() - g,
    {
        if globs[g].base.same(base) && crate::text::str_eq(globs[g].pattern.as_str(), pattern) {
            assert(gv[g as int] == glob_view(globs@[g as int]));
            return Some(g);
        }
        assert(gv[g as int] == glob_view(globs@[g as int]));
        g = g + 1;
    }
    assert forall|c: int| !first_glob_at(gv, base@, pattern@, c) by {
        if 0 <= c < gv.len() {
            assert(!(gv[c].0 == base@ && gv[c].1 == pattern@));
        }
    }
    None
}

impl Inputs {
    /// Records a read that evaluation made: nothing for a file inside the
    /// package `cache`; otherwise the file, and the real path it resolves
    /// to (`canonical`, when it resolves) with the same fingerprint.
    pub fn note_input(&mut self, path: &FsPath, canonical: Option<&FsPath>, bytes: Option<&[u8]>, cache: &FsPath)
        requires
            old(self).wf(),
        ensures
            final(self).wf(),
            file_views(final(self).files@) == (if is_prefix(cache@, path@) {
                file_views(old(self).files@)
            } else {
                match canonical {
                    None => noted(file_views(old(self).files@), path@, read_hash(bytes_view(bytes))),
                    Some(c) => noted(
                        noted(file_views(old(self).files@), path@, read_hash(bytes_view(bytes))),
                        c@,
                        read_hash(bytes_view(bytes)),
                    ),
                }
            }),
            final(self).directories@ == old(self).directories@,
            final(self).excluded@ == old(self).excluded@,
            final(self).globs@ == old(self).globs@,
    {
        if path.starts_with(cache) {
            return;
        }
        self.note_read(path, bytes);
        if let Some(c) = canonical {
            self.note_read(c, bytes);
        }
    }
}

impl Inputs {
    /// Records a glob that evaluation expanded and gives back its matches
    /// outside the package `cache`, in order. The glob's base directory is
    /// recorded once; the first record of the same base and pattern gets
    /// the new matches, or a new record is added at the end.
    pub fn note_glob(&mut self, base: &FsPath, pattern: &str, found: &Vec<FsPath>, cache: &FsPath) -> (r: Vec<
        FsPath,
    >)
        ensures
            path_views(r@) == not_cached(path_views(found@), cache@),
            path_views(final(self).directories@) == (if path_views(old(self).directories@).contains(base@) {
                path_views(old(self).directories@)
            } else {
                path_views(old(self).directories@).push(base@)
            }),
            glob_views(final(self).globs@) == globbed(
                glob_views(old(self).globs@),
                base@,
                pattern@,
                path_views(r@),
            ),
            final(self).files@ == old(self).files@,
            final(self).excluded@ == old(self).excluded@,
    {
        let ghost fv = path_views(found@);
        let mut kept: Vec<FsPath> = Vec::new();
        let mut copy: Vec<FsPath> = Vec::new();
        let mut i: usize = 0;
        while i < found.len()
            invariant
                i <= found@.len(),
                fv == path_views(found@),
                path_views(kept@) == not_cached(fv.take(i as int), cache@),
                path_views(copy@) == path_views(kept@),
            decreases found@.len() - i,
        {
            let p = &found[i];
            assert(fv.take(i + 1).drop_last() =~= fv.take(i as int));
            assert(fv.take(i + 1).last() == p@);
            if !p.starts_with(cache) {
                let ghost before = kept@;
                let ghost before_copy = copy@;
                let a = p.duplicate();
                let b = p.duplicate();
                kept.push(a);
                copy.push(b);
                assert(path_views(kept@) =~= path_views(before).push(p@));
                assert(path_views(copy@) =~= path_views(before_copy).push(p@));
            }
            i = i + 1;
        }
        assert(fv.take(found@.len() as int) =~= fv);
        let ghost dirs = path_views(self.directories@);
        match dir_position(&self.directories, base) {
            Some(at) => {
                assert(dirs[at as int] == base@);
                assert(dirs.contains(base@));
            },
            None => {
                let q = base.duplicate();
                self.directories.push(q);
                assert(path_views(self.directories@) =~= dirs.push(base@));
            },
        }
        let ghost gv = glob_views(self.globs@);
        let at = glob_position(&self.globs, base, pattern);
        let record = GlobRecord { base: base.duplicate(), pattern: pattern.to_owned(), matches: copy };
        match at {
            Some(k) => {
                proof {
                    let c = choose|c: int| first_glob_at(gv, base@, pattern@, c);
                    if c < k {
                        assert(!(gv[c].0 == base@ && gv[c].1 == pattern@));
                    }
                    if k < c {
                        assert(!(gv[k as int].0 == base@ && gv[k as int].1 == pattern@));
                    }
                    assert(c == k);
                }
                self.globs.set(k, record);
                assert(glob_views(self.globs@) =~= gv.update(k as int, (base@, pattern@, path_views(kept@))));
            },
            None => {
                self.globs.push(record);
                assert(glob_views(self.globs@) =~= gv.push((base@, pattern@, path_views(kept@))));
            },
        }
        kept
    }
}

/// The address of the Pkl package that a release embeds.
pub open spec fn package_uri_spec(version: Seq<char>) -> Seq<char> {
    "package://github.com/mathematic-inc/confset/releases/download/v"@ + version + "/confset@"@ + version
}

/// The address of the Pkl package of release `version`, as a starter
/// configuration names it.
pub fn package_uri(version: &str) -> (r: String)
    ensures
        r@ == package_uri_spec(version@),
{
    let mut r = "package://github.com/mathematic-inc/confset/releases/download/v".to_owned();
    crate::text::append_str(&mut r, version);
    crate::text::append_str(&mut r, "/confset@");
    crate::text::append_str(&mut r, version);
    r
}

/// The starter configuration that `init` writes: it amends the release's
/// configuration module, imports its built-ins, and declares no tool yet.
pub open spec fn starter_spec(version: Seq<char>) -> Seq<char> {
    "amends \""@ + package_uri_spec(version) + "#/Config.pkl\"\n\nimport \""@ + package_uri_spec(version)
        + "#/Builtins.pkl\"\n\n// Enable and amend the configurations your project uses.\ntools {}\n"@
}

/// The text of the starter configuration for release `version`.
pub fn starter_source(version: &str) -> (r: String)
    ensures
        r@ == starter_spec(version@),
{
    let base = package_uri(version);
    let mut r = "amends \"".to_owned();
    crate::text::append_str(&mut r, base.as_str());
    crate::text::append_str(&mut r, "#/Config.pkl\"\n\nimport \"");
    crate::text::append_str(&mut r, base.as_str());
    crate::text::append_str(
        &mut r,
        "#/Builtins.pkl\"\n\n// Enable and amend the configurations your project uses.\ntools {}\n",
    );
    r
}

/// An environment variable as the process found it.
pub enum EnvValue {
    /// Not set.
    Missing,
    /// Set, but not Unicode.
    NotUnicode,
    /// Set to this text.
    Text(String),
}

/// A switch read from the environment: `1` and `true` turn it on; `0`,
/// `false`, the empty text and an unset variable leave it off; anything
/// else is refused.
pub open spec fn flag_spec(value: EnvValue) -> Option<bool> {
    match value {
        EnvValue::Missing => Some(false),
        EnvValue::NotUnicode => None,
        EnvValue::Text(t) => if t@ == "1"@ || t@ == "true"@ {
            Some(true)
        } else if t@ == "0"@ || t@ == "false"@ || t@ == ""@ {
            Some(false)
        } else {
            None
        },
    }
}

/// Reads a switch (see `flag_spec`); `None` when the value is refused.
pub fn env_flag(value: &EnvValue) -> (r: Option<bool>)
    ensures
        r == flag_spec(*value),
{
    match value {
        EnvValue::Missing => Some(false),
        EnvValue::NotUnicode => None,
        EnvValue::Text(t) => {
            let t = t.as_str();
            if crate::text::str_eq(t, "1") || crate::text::str_eq(t, "true") {
                Some(true)
            } else if crate::text::str_eq(t, "0") || crate::text::str_eq(t, "false") || crate::text::str_eq(
                t,
                "",
            ) {
                Some(false)
            } else {
                None
            }
        },
    }
}

/// What a fresh look at a recorded file found: its fingerprint now, or that
/// it could not be read, with whether it exists (`None` when that could
/// not be told either).
pub enum FileProbe {
    Read(String),
    Unreadable(Option<bool>),
}

/// A recorded file has changed: it now reads differently; or it was absent
/// and now exists, or cannot be told; or it was present and cannot be read.
pub open spec fn file_changed(recorded: Option<String>, probe: FileProbe) -> bool {
    match (recorded, probe) {
        (Some(old), FileProbe::Read(now)) => old@ != now@,
        (None, FileProbe::Unreadable(exists)) => match exists {
            Some(e) => e,
            None => true,
        },
        _ => true,
    }
}

/// A glob now matches something else than it did, outside the excluded
/// directories; a glob that fails now counts as changed.
pub open spec fn glob_changed(excluded: Seq<FsPath>, record: GlobRecord, now: Option<Vec<FsPath>>) -> bool {
    match now {
        None => true,
        Some(paths) => outside_excluded(excluded, path_views(paths@)) != path_views(record.matches@),
    }
}

/// The paths that lie outside every excluded directory, in order.
pub open spec fn outside_excluded(excluded: Seq<FsPath>, s: Seq<Seq<Seq<char>>>) -> Seq<Seq<Seq<char>>>
    decreases s.len(),
{
    if s.len() == 0 {
        s
    } else if under_any(excluded, s.last()) {
        outside_excluded(excluded, s.drop_last())
    } else {
        outside_excluded(excluded, s.drop_last()).push(s.last())
    }
}

impl Inputs {
    /// Whether anything this evaluation read has changed, given a fresh look
    /// at each recorded file (in record order) and a fresh expansion of
    /// each recorded glob (in record order).
    pub fn changed(&self, files: &Vec<FileProbe>, globs: &Vec<Option<Vec<FsPath>>>) -> (r: bool)
        requires
            files@.len() == self.files@.len(),
            globs@.len() == self.globs@.len(),
        ensures
            r == ((exists|i: int|
                0 <= i < files@.len() && file_changed(self.files@[i].hash, #[trigger] files@[i])) || (exists|
                j: int,
            |
                0 <= j < globs@.len() && glob_changed(self.excluded@, self.globs@[j], #[trigger] globs@[j]))),
    {
        let mut i: usize = 0;
        while i < files.len()
            invariant
                i <= files@.len(),
                files@.len() == self.files@.len(),
                forall|k: int| 0 <= k < i ==> !file_changed(self.files@[k].hash, #[trigger] files@[k]),
            decreases files@.len() - i,
        {
            let c = match (&self.files[i].hash, &files[i]) {
                (Some(old), FileProbe::Read(now)) => !crate::text::str_eq(old.as_str(), now.as_str()),
                (None, FileProbe::Unreadable(exists)) => match exists {
                    Some(e) => *e,
                    None => true,
                },
                _ => true,
            };
            if c {
                assert(file_changed(self.files@[i as int].hash, files@[i as int]));
                return true;
            }
            i = i + 1;
        }
        let mut j: usize = 0;
        while j < globs.len()
            invariant
                j <= globs@.len(),
                globs@.len() == self.globs@.len(),
                forall|k: int| 0 <= k < files@.len() ==> !file_changed(self.files@[k].hash, #[trigger] files@[k]),
                forall|k: int| 0 <= k < j ==> !glob_changed(self.excluded@, self.globs@[k], #[trigger] globs@[k]),
            decreases globs@.len() - j,
        {
            let c = match &globs[j] {
                None => true,
                Some(paths) => !self.same_matches(paths, &self.globs[j].matches),
            };
            if c {
                assert(glob_changed(self.excluded@, self.globs@[j as int], globs@[j as int]));
                return true;
            }
            j = j + 1;
        }
        false
    }

    /// Whether the paths outside the excluded directories are, in order,
    /// the expected ones.
    fn same_matches(&self, paths: &Vec<FsPath>, expected: &Vec<FsPath>) -> (r: bool)
        ensures
            r == (outside_excluded(self.excluded@, path_views(paths@)) == path_views(expected@)),
    {
        let mut kept: Vec<FsPath> = Vec::new();
        let mut i: usize = 0;
        assert(path_views(kept@) =~= outside_excluded(self.excluded@, path_views(paths@).take(0)));
        while i < paths.len()
            invariant
                i <= paths@.len(),
                path_views(kept@) == outside_excluded(self.excluded@, path_views(paths@).take(i as int)),
            decreases paths@.len() - i,
        {
            let ghost before = kept@;
            let ignored = self.ignores(&paths[i]);
            let ghost s = path_views(paths@).take(i + 1);
            assert(s.drop_last() =~= path_views(paths@).take(i as int));
            assert(s.last() == paths@[i as int]@);
            if !ignored {
                let c = paths[i].duplicate();
                kept.push(c);
                assert(path_views(kept@) =~= path_views(before).push(c@));
            }
            i = i + 1;
        }
        assert(path_views(paths@).take(paths@.len() as int) =~= path_views(paths@));
        if kept.len() != expected.len() {
            return false;
        }
        let mut k: usize = 0;
        while k < kept.len()
            invariant
                k <= kept@.len(),
                kept@.len() == expected@.len(),
                path_views(kept@) == outside_excluded(self.excluded@, path_views(paths@)),
                forall|m: int| 0 <= m < k ==> kept@[m]@ == expected@[m]@,
            decreases kept@.len() - k,
        {
            if !kept[k].same(&expected[k]) {
                assert(path_views(kept@)[k as int] != path_views(expected@)[k as int]);
                return false;
            }
            k = k + 1;
        }
        assert(path_views(kept@) =~= path_views(expected@));
        true
    }
}

} // verus!

verus! {

/// The selected configuration: the source file and the root that relative
/// destinations start from.
pub struct Source {
    pub path: FsPath,
    pub root: FsPath,
}

impl Source {
    /// The source file.
    pub fn path(&self) -> (r: &FsPath)
        ensures
            r == &self.path,
    {
        &self.path
    }

    /// The root of relative destinations.
    pub fn root(&self) -> (r: &FsPath)
        ensures
            r == &self.root,
    {
        &self.root
    }
}

/// What resolving one directory to its real path gave.
pub enum Resolution {
    /// The real path.
    Real(FsPath),
    /// The directory does not exist.
    NotFound,
    /// Resolution failed otherwise.
    Failed(Failure),
}

/// Why a configuration path cannot be resolved.
pub enum ResolveFault {
    /// The path has no parent directory.
    NoParent,
    /// Resolving an ancestor failed for another reason than its absence.
    Failed { path: FsPath, failure: Failure },
    /// No ancestor resolves.
    Unresolved(FsPath),
}

/// A resolve fault as plain values.
pub enum ResolveFaultView {
    NoParent,
    Failed(Seq<Seq<char>>, Seq<char>),
    Unresolved(Seq<Seq<char>>),
}

impl View for ResolveFault {
    type V = ResolveFaultView;

    open spec fn view(&self) -> ResolveFaultView {
        match self {
            ResolveFault::NoParent => ResolveFaultView::NoParent,
            ResolveFault::Failed { path, failure } => ResolveFaultView::Failed(path@, failure.message@),
            ResolveFault::Unresolved(p) => ResolveFaultView::Unresolved(p@),
        }
    }
}

/// The path resolved through the first `j` ancestors of its parent, the
/// parent first: `resolutions[j]` is what resolving the ancestor with
/// `n - 1 - j` components gave, `n` being the path's length. The first that
/// resolves gives the real directory, and the rest of the path follows it
/// unchanged; an absent one is skipped; any other failure stops.
pub open spec fn resolve_from(p: Seq<Seq<char>>, resolutions: Seq<Resolution>, j: int) -> Result<
    Seq<Seq<char>>,
    ResolveFaultView,
>
    decreases resolutions.len() - j,
{
    if j < 0 || j >= resolutions.len() || j >= p.len() - 1 {
        Err(ResolveFaultView::Unresolved(p))
    } else {
        match resolutions[j] {
            Resolution::Real(r) => Ok(r@ + p.skip(p.len() - 1 - j)),
            Resolution::NotFound => resolve_from(p, resolutions, j + 1),
            Resolution::Failed(f) => Err(ResolveFaultView::Failed(p, f.message@)),
        }
    }
}

/// A configuration path with its existing directories resolved (see
/// `resolve_from`); a path without a parent fails.
pub open spec fn resolve_spec(p: Seq<Seq<char>>, resolutions: Seq<Resolution>) -> Result<
    Seq<Seq<char>>,
    ResolveFaultView,
> {
    if p.len() < 2 {
        Err(ResolveFaultView::NoParent)
    } else {
        resolve_from(p, resolutions, 0)
    }
}

proof fn lemma_resolve_skips(p: Seq<Seq<char>>, resolutions: Seq<Resolution>, j: int, k: int)
    requires
        0 <= j <= k < resolutions.len(),
        k < p.len() - 1,
        forall|m: int| j <= m < k ==> (#[trigger] resolutions[m]) is NotFound,
    ensures
        resolve_from(p, resolutions, j) == resolve_from(p, resolutions, k),
    decreases k - j,
{
    if j < k {
        assert(resolutions[j] is NotFound);
        lemma_resolve_skips(p, resolutions, j + 1, k);
    }
}

/// A configuration path resolves through its nearest existing ancestor
/// directory: when the first `k` ancestors of its parent (the parent first)
/// do not exist and the next one resolves to a real path, the result is
/// that real path followed by the rest of the path below that ancestor. A
/// path whose probed ancestors are all missing is refused.
pub proof fn law_resolution_uses_nearest_existing(p: Seq<Seq<char>>, resolutions: Seq<Resolution>, k: int)
    requires
        0 <= k < resolutions.len(),
        k < p.len() - 1,
        forall|m: int| 0 <= m < k ==> (#[trigger] resolutions[m]) is NotFound,
    ensures
        resolutions[k] matches Resolution::Real(found) ==> resolve_spec(p, resolutions) == Ok::<
            Seq<Seq<char>>,
            ResolveFaultView,
        >(found@ + p.skip(p.take(p.len() - 1 - k).len() as int)),
        resolutions[k] is NotFound && k + 1 == resolutions.len() ==> resolve_spec(p, resolutions) == Err::<
            Seq<Seq<char>>,
            ResolveFaultView,
        >(ResolveFaultView::Unresolved(p)),
{
    lemma_resolve_skips(p, resolutions, 0, k);
    if resolutions[k] is NotFound && k + 1 == resolutions.len() {
        assert(resolve_from(p, resolutions, k + 1) == Err::<Seq<Seq<char>>, ResolveFaultView>(
            ResolveFaultView::Unresolved(p),
        ));
    }
}

/// Resolves the existing directories of a configuration path without
/// requiring the file, or its nearest directories, to exist yet.
/// `resolutions` holds what resolving each ancestor of the parent gave, the
/// parent first, as far as they were resolved.
pub fn resolve_source_path(path: &FsPath, resolutions: &Vec<Resolution>) -> (r: Result<FsPath, ResolveFault>)
    requires
        is_normal_absolute(path@),
    ensures
        match resolve_spec(path@, resolutions@) {
            Ok(q) => r matches Ok(x) && x@ == q,
            Err(f) => r matches Err(e) && e@ == f,
        },
{
    let n = path.parts.len();
    if n < 2 {
        return Err(ResolveFault::NoParent);
    }
    let mut j: usize = 0;
    while j < resolutions.len() && j < n - 1
        invariant
            n == path@.len(),
            n >= 2,
            j <= resolutions@.len(),
            resolve_spec(path@, resolutions@) == resolve_from(path@, resolutions@, j as int),
        decreases resolutions@.len() - j,
    {
        match &resolutions[j] {
            Resolution::Real(found) => {
                let mut out = found.duplicate();
                let mut k: usize = n - 1 - j;
                let ghost start = out@;
                while k < n
                    invariant
                        n == path@.len(),
                        n - 1 - j <= k <= n,
                        j < n - 1,
                        out@ == start + path@.subrange(n - 1 - j, k as int),
                    decreases n - k,
                {
                    let ghost before = out@;
                    out.parts.push(path.parts[k].clone());
                    assert(out@ =~= before.push(path@[k as int]));
                    assert(path@.subrange(n - 1 - j, k + 1) =~= path@.subrange(n - 1 - j, k as int).push(
                        path@[k as int],
                    ));
                    k = k + 1;
                }
                assert(path@.subrange(n - 1 - j, n as int) =~= path@.skip(n - 1 - j));
                return Ok(out);
            },
            Resolution::NotFound => {},
            Resolution::Failed(f) => {
                return Err(ResolveFault::Failed { path: path.duplicate(), failure: f.duplicate() });
            },
        }
        j = j + 1;
    }
    Err(ResolveFault::Unresolved(path.duplicate()))
}

/// Which commands a discovery serves: one that needs an existing source,
/// `init`, or `clean`.
#[derive(Clone, Copy, Debug, PartialEq, Eq, Structural)]
pub enum Discovery {
    Existing,
    Initialize,
    Cleanup,
}

/// What discovery found in one directory: whether it holds `confset.pkl`
/// (or the failure to tell), and whether it holds a state file.
pub struct AncestorProbe {
    pub source: Result<bool, Failure>,
    pub state_file: bool,
}

/// Why no source could be selected.
pub enum DiscoverFault {
    /// The explicit path is empty.
    EmptyExplicit,
    /// The explicit path leaves the filesystem root.
    Escapes(String),
    /// The explicit source does not exist and the command needs one.
    Missing(FsPath),
    /// The source has no parent directory.
    NoParent,
    /// A directory could not be inspected for `confset.pkl`.
    Inspect { path: FsPath, failure: Failure },
    /// The user configuration could not be inspected.
    UserInspect(Failure),
    /// Nothing was found and the command needs a source.
    NotFound,
    /// A configuration path could not be resolved.
    Resolve(ResolveFault),
}

/// The source file name that discovery looks for.
pub open spec fn source_name() -> Seq<char> {
    "confset.pkl"@
}

/// The explicit path made absolute against the working directory; empty
/// text is refused.
pub fn explicit_path(cwd: &FsPath, text: &str) -> (r: Result<FsPath, DiscoverFault>)
    requires
        is_normal_absolute(cwd@),
    ensures
        text@.len() == 0 ==> (r matches Err(DiscoverFault::EmptyExplicit)),
        text@.len() > 0 ==> match crate::path::absolute_spec(cwd@, text@) {
            Some(p) => r matches Ok(x) && x@ == p && is_normal_absolute(p),
            None => r matches Err(DiscoverFault::Escapes(t)) && t@ == text@,
        },
{
    if text.is_empty() {
        return Err(DiscoverFault::EmptyExplicit);
    }
    match crate::path::absolute(cwd, text) {
        Ok(p) => Ok(p),
        Err(()) => Err(DiscoverFault::Escapes(text.to_owned())),
    }
}

/// The explicit source once resolved: its directory is the root. A command
/// that needs an existing source refuses one that is not a file.
pub fn explicit_source(path: FsPath, mode: Discovery, is_file: bool) -> (r: Result<Source, DiscoverFault>)
    ensures
        mode == Discovery::Existing && !is_file ==> (r matches Err(DiscoverFault::Missing(p)) && p@ == path@),
        !(mode == Discovery::Existing && !is_file) ==> match r {
            Ok(s) => s.path@ == path@ && path@.len() > 0 && path@.last() != crate::path::root_part()
                && s.root@ == path@.drop_last(),
            Err(e) => e is NoParent && (path@.len() == 0 || path@.last() == crate::path::root_part()),
        },
{
    if mode == Discovery::Existing && !is_file {
        return Err(DiscoverFault::Missing(path));
    }
    match path.parent() {
        Some(root) => Ok(Source { path, root }),
        None => Err(DiscoverFault::NoParent),
    }
}

/// What the walk up from the working directory decides after the first `j`
/// directories, the working directory first: `None` to go on.
pub open spec fn search_from(cwd: Seq<Seq<char>>, mode: Discovery, probes: Seq<AncestorProbe>, j: int) -> Option<
    Result<(Seq<Seq<char>>, Seq<Seq<char>>), (Seq<Seq<char>>, Seq<char>)>,
>
    decreases probes.len() - j,
{
    if j < 0 || j >= probes.len() || j >= cwd.len() {
        None
    } else {
        let dir = cwd.take(cwd.len() - j);
        let path = dir.push(source_name());
        match probes[j].source {
            Err(f) => Some(Err((path, f.message@))),
            Ok(true) => Some(Ok((path, dir))),
            Ok(false) => if mode == Discovery::Cleanup && probes[j].state_file {
                Some(Ok((path, dir)))
            } else {
                search_from(cwd, mode, probes, j + 1)
            },
        }
    }
}

/// Walks up from the working directory: the nearest directory holding
/// `confset.pkl` is the root; for `clean`, so is the nearest one holding a
/// state file. `probes[j]` is what was found in the directory `j` levels
/// up. `None` when no directory decides.
pub fn search(cwd: &FsPath, mode: Discovery, probes: &Vec<AncestorProbe>) -> (r: Option<Result<Source, DiscoverFault>>)
    ensures
        match search_from(cwd@, mode, probes@, 0) {
            None => r is None,
            Some(Ok((p, d))) => r matches Some(Ok(s)) && s.path@ == p && s.root@ == d,
            Some(Err((p, m))) => r matches Some(Err(DiscoverFault::Inspect { path, failure })) && path@ == p
                && failure.message@ == m,
        },
{
    proof {
        reveal_strlit("confset.pkl");
    }
    let n = cwd.parts.len();
    let mut j: usize = 0;
    while j < probes.len() && j < n
        invariant
            n == cwd@.len(),
            j <= probes@.len(),
            search_from(cwd@, mode, probes@, 0) == search_from(cwd@, mode, probes@, j as int),
        decreases probes@.len() - j,
    {
        let dir = cwd.prefix(n - j);
        let path = dir.join_name("confset.pkl");
        match &probes[j].source {
            Err(f) => {
                return Some(Err(DiscoverFault::Inspect { path, failure: f.duplicate() }));
            },
            Ok(true) => {
                return Some(Ok(Source { path, root: dir }));
            },
            Ok(false) => {
                if mode == Discovery::Cleanup && probes[j].state_file {
                    return Some(Ok(Source { path, root: dir }));
                }
            },
        }
        j = j + 1;
    }
    None
}

/// What was found of the user configuration: its path with the existing
/// directories resolved (or why not), and whether it exists (looked at only
/// once the path resolved).
pub struct UserProbe {
    pub resolved: Result<FsPath, ResolveFault>,
    pub exists: Result<bool, Failure>,
}

/// The last resort of discovery: an existing user configuration, whose
/// destinations start from the working directory; then, for `init` and
/// `clean`, `confset.pkl` in the working directory; else nothing is found.
pub fn fallback(cwd: &FsPath, mode: Discovery, user: Option<UserProbe>) -> (r: Result<Source, DiscoverFault>)
    ensures
        match user {
            Some(u) => match u.resolved {
                Err(e) => r matches Err(DiscoverFault::Resolve(x)) && x@ == e@,
                Ok(p) => match u.exists {
                    Err(f) => r matches Err(DiscoverFault::UserInspect(g)) && g.message@ == f.message@,
                    Ok(true) => r matches Ok(s) && s.path@ == p@ && s.root@ == cwd@,
                    Ok(false) => fallback_default(cwd@, mode, r),
                },
            },
            None => fallback_default(cwd@, mode, r),
        },
{
    if let Some(u) = user {
        match u.resolved {
            Err(e) => {
                return Err(DiscoverFault::Resolve(e));
            },
            Ok(p) => match u.exists {
                Err(f) => {
                    return Err(DiscoverFault::UserInspect(f));
                },
                Ok(true) => {
                    return Ok(Source { path: p, root: cwd.duplicate() });
                },
                Ok(false) => {},
            },
        }
    }
    proof {
        reveal_strlit("confset.pkl");
    }
    match mode {
        Discovery::Existing => Err(DiscoverFault::NotFound),
        _ => Ok(Source { path: cwd.join_name("confset.pkl"), root: cwd.duplicate() }),
    }
}

/// Nothing found: a command that needs a source fails; `init` and `clean`
/// use `confset.pkl` in the working directory.
pub open spec fn fallback_default(cwd: Seq<Seq<char>>, mode: Discovery, r: Result<Source, DiscoverFault>) -> bool {
    if mode == Discovery::Existing {
        r matches Err(DiscoverFault::NotFound)
    } else {
        r matches Ok(s) && s.path@ == cwd.push(source_name()) && s.root@ == cwd
    }
}

impl Inputs {
    /// The recorded files, in record order.
    pub fn paths(&self) -> (r: Vec<FsPath>)
        ensures
            path_views(r@) == self.files@.map_values(|f: InputFile| f.path@),
    {
        let mut r: Vec<FsPath> = Vec::new();
        let mut i: usize = 0;
        while i < self.files.len()
            invariant
                i <= self.files@.len(),
                path_views(r@) == self.files@.map_values(|f: InputFile| f.path@).take(i as int),
            decreases self.files@.len() - i,
        {
            let ghost before = r@;
            let p = self.files[i].path.duplicate();
            let ghost pv = p@;
            r.push(p);
            assert(path_views(r@) =~= path_views(before).push(pv));
            assert(path_views(r@) =~= self.files@.map_values(|f: InputFile| f.path@).take(i + 1));
            i = i + 1;
        }
        assert(self.files@.map_values(|f: InputFile| f.path@).take(self.files@.len() as int)
            =~= self.files@.map_values(|f: InputFile| f.path@));
        r
    }

    /// The directories that globs were expanded in.
    pub fn directories(&self) -> (r: &Vec<FsPath>)
        ensures
            r == &self.directories,
    {
        &self.directories
    }
}

} // verus!

verus! {

/// A recorded file counts as unchanged only when a fresh look finds what
/// was recorded: the same fingerprint for a file that was read, or, for a
/// file that was absent, a file known to be absent still. So a file that
/// was read and can no longer be read has changed, a file that was absent
/// and now reads has changed, and either makes the recorded inputs changed.
pub proof fn law_input_changes(ins: Inputs, files: Seq<FileProbe>, i: int)
    requires
        0 <= i < files.len(),
        files.len() == ins.files@.len(),
    ensures
        !file_changed(ins.files@[i].hash, files[i]) <==> ((ins.files@[i].hash matches Some(old) && files[i] matches FileProbe::Read(
            now,
        ) && old@ == now@) || (ins.files@[i].hash is None && files[i] == FileProbe::Unreadable(Some(false)))),
        ins.files@[i].hash is Some && files[i] is Unreadable ==> file_changed(ins.files@[i].hash, files[i]),
        ins.files@[i].hash is None && files[i] is Read ==> file_changed(ins.files@[i].hash, files[i]),
        file_changed(ins.files@[i].hash, files[i]) ==> exists|k: int|
            0 <= k < files.len() && file_changed(ins.files@[k].hash, #[trigger] files[k]),
{
}


/// The matches kept from a glob are exactly those outside every excluded
/// directory: a path is kept when, and only when, it was matched and lies
/// under no excluded directory.
pub proof fn law_exclusion_keeps_outside_matches(excluded: Seq<FsPath>, s: Seq<Seq<Seq<char>>>, p: Seq<Seq<char>>)
    ensures
        outside_excluded(excluded, s).contains(p) <==> (s.contains(p) && !under_any(excluded, p)),
        outside_excluded(excluded, s).len() <= s.len(),
    decreases s.len(),
{
    if s.len() > 0 {
        let d = s.drop_last();
        let last = s.last();
        law_exclusion_keeps_outside_matches(excluded, d, p);
        let prev = outside_excluded(excluded, d);
        assert(s =~= d.push(last));
        assert(s.contains(p) <==> (d.contains(p) || last == p)) by {
            if s.contains(p) {
                let k = choose|k: int| 0 <= k < s.len() && s[k] == p;
                if k < d.len() {
                    assert(d[k] == p);
                }
            }
            if d.contains(p) {
                let k = choose|k: int| 0 <= k < d.len() && d[k] == p;
                assert(s[k] == p);
            }
            if last == p {
                assert(s[s.len() - 1] == p);
            }
        }
        if !under_any(excluded, last) {
            let r = prev.push(last);
            assert(r.contains(p) <==> (prev.contains(p) || last == p)) by {
                if r.contains(p) {
                    let k = choose|k: int| 0 <= k < r.len() && r[k] == p;
                    if k < prev.len() {
                        assert(prev[k] == p);
                    }
                }
                if prev.contains(p) {
                    let k = choose|k: int| 0 <= k < prev.len() && prev[k] == p;
                    assert(r[k] == p);
                }
                if last == p {
                    assert(r[prev.len() as int] == p);
                }
            }
        }
    }
}

/// A glob that can no longer be expanded counts as changed, and one that
/// expands counts as unchanged exactly when its matches outside the excluded
/// directories are the recorded ones, in the same order.
pub proof fn law_glob_changes(excluded: Seq<FsPath>, record: GlobRecord, now: Option<Vec<FsPath>>)
    ensures
        now is None ==> glob_changed(excluded, record, now),
        now matches Some(paths) ==> (!glob_changed(excluded, record, now) <==> outside_excluded(
            excluded,
            path_views(paths@),
        ) == path_views(record.matches@)),
{
}

} // verus!
