//! The project-owned Git ignore block, preserving all text outside it.
use vstd::prelude::*;

use vstd::utf8::{decode_utf8, encode_utf8, valid_utf8};

use crate::outcome::{
    first_failure, lemma_first_failure_none_all, lemma_first_failure_prefix, lemma_first_failure_push,
};
use crate::path::{current_part, is_prefix, joined, parent_part, path_views, root_part, FsPath};
use crate::text::{
    chars_lt, chars_of, insert_sorted, push_char, string_of, string_views, strictly_sorted,
};

verus! {

/// The line that opens the managed block.
pub const BEGIN: &'static str = "# BEGIN CONFSET GENERATED FILES";

/// The line that closes the managed block.
pub const END: &'static str = "# END CONFSET GENERATED FILES";

/// The pattern that ignores the state directory.
pub const STATE_PATTERN: &'static str = "/.confset/";

/// The pattern that ignores staging files.
pub const STAGE_PATTERN: &'static str = ".confset-stage-*";

/// `std::str::from_utf8`: the text that valid UTF-8 bytes encode, `None`
/// for invalid bytes (the `Utf8Error` is dropped), as the standard library
/// documents.
#[verifier::external_body]
fn utf8_text(bytes: &[u8]) -> (r: Option<&str>)
    ensures
        r is Some <==> valid_utf8(bytes@),
        r matches Some(s) ==> s@ == decode_utf8(bytes@),
{
    std::str::from_utf8(bytes).ok()
}

/// Why the managed block cannot be located.
#[derive(Clone, Copy, Debug, PartialEq, Eq, Structural)]
pub enum BlockFault {
    /// A marker repeats or comes out of order.
    Ambiguous,
    /// One marker is missing.
    Incomplete,
}

/// A line without its trailing line feeds and carriage returns.
pub open spec fn trim_newlines(l: Seq<char>) -> Seq<char>
    decreases l.len(),
{
    if l.len() > 0 && (l.last() == '\n' || l.last() == '\r') {
        trim_newlines(l.drop_last())
    } else {
        l
    }
}

/// Where the line that starts at `start` ends: just past its line feed, or
/// at the end of the text.
pub open spec fn line_end(t: Seq<char>, start: int) -> int
    decreases t.len() - start,
{
    if start >= t.len() {
        t.len() as int
    } else if t[start] == '\n' {
        start + 1
    } else {
        line_end(t, start + 1)
    }
}

/// The positions of the markers found so far, or the fault that stopped
/// the search.
pub type Markers = Result<(Option<int>, Option<int>), BlockFault>;

/// One line, starting at `offset`, taken into account.
pub open spec fn scan_line(acc: Markers, line: Seq<char>, offset: int) -> Markers {
    match acc {
        Err(f) => Err(f),
        Ok((b, e)) => {
            let t = trim_newlines(line);
            if t == BEGIN@ && b is None && e is None {
                Ok((Some(offset), e))
            } else if t == END@ && b is Some && e is None {
                Ok((b, Some(offset + line.len())))
            } else if t == BEGIN@ || t == END@ {
                Err(BlockFault::Ambiguous)
            } else {
                Ok((b, e))
            }
        },
    }
}

/// The lines from `start` on taken into account, in order.
pub open spec fn scan_from(t: Seq<char>, start: int, acc: Markers) -> Markers
    decreases t.len() - start,
{
    if start < 0 || start >= t.len() {
        acc
    } else {
        let e = line_end(t, start);
        if e <= start || e > t.len() {
            acc
        } else {
            scan_from(t, e, scan_line(acc, t.subrange(start, e), start))
        }
    }
}

/// The managed block of a text: the offsets of its first character and of
/// the character after it, `None` when the text has no markers.
pub open spec fn block_spec(t: Seq<char>) -> Result<Option<(int, int)>, BlockFault> {
    match scan_from(t, 0, Ok((None, None))) {
        Err(f) => Err(f),
        Ok((None, None)) => Ok(None),
        Ok((Some(s), Some(e))) => Ok(Some((s, e))),
        _ => Err(BlockFault::Incomplete),
    }
}

proof fn lemma_line_end_bounds(t: Seq<char>, start: int)
    requires
        0 <= start < t.len(),
    ensures
        start < line_end(t, start) <= t.len(),
    decreases t.len() - start,
{
    if t[start] != '\n' {
        if start + 1 < t.len() {
            lemma_line_end_bounds(t, start + 1);
        } else {
            assert(line_end(t, start + 1) == t.len());
        }
    }
}

proof fn lemma_scan_err(t: Seq<char>, start: int, f: BlockFault)
    ensures
        scan_from(t, start, Err(f)) == Err::<(Option<int>, Option<int>), BlockFault>(f),
    decreases t.len() - start,
{
    if start >= 0 && start < t.len() {
        let e = line_end(t, start);
        if e > start && e <= t.len() {
            lemma_scan_err(t, e, f);
        }
    }
}

/// Whether `t[start..end]`, without trailing line breaks, is the marker `m`.
fn trimmed_is(t: &Vec<char>, start: usize, end: usize, m: &Vec<char>) -> (r: bool)
    requires
        start <= end <= t@.len(),
    ensures
        r == (trim_newlines(t@.subrange(start as int, end as int)) == m@),
{
    let mut te = end;
    while te > start && (t[te - 1] == '\n' || t[te - 1] == '\r')
        invariant
            start <= te <= end <= t@.len(),
            trim_newlines(t@.subrange(start as int, end as int)) == trim_newlines(
                t@.subrange(start as int, te as int),
            ),
        decreases te,
    {
        assert(t@.subrange(start as int, te as int).drop_last() =~= t@.subrange(
            start as int,
            te - 1,
        ));
        te = te - 1;
    }
    assert(trim_newlines(t@.subrange(start as int, te as int)) == t@.subrange(
        start as int,
        te as int,
    ));
    if te - start != m.len() {
        return false;
    }
    let mut i: usize = 0;
    while i < m.len()
        invariant
            start <= te <= end <= t@.len(),
            trim_newlines(t@.subrange(start as int, end as int)) == t@.subrange(start as int, te as int),
            te - start == m@.len(),
            i <= m@.len(),
            forall|k: int| 0 <= k < i ==> t@[start + k] == m@[k],
        decreases m@.len() - i,
    {
        if t[start + i] != m[i] {
            assert(t@.subrange(start as int, te as int)[i as int] != m@[i as int]);
            return false;
        }
        i = i + 1;
    }
    assert(t@.subrange(start as int, te as int) =~= m@);
    true
}

/// Locates the managed block of a text given as characters.
pub fn block(t: &Vec<char>) -> (r: Result<Option<(usize, usize)>, BlockFault>)
    ensures
        match block_spec(t@) {
            Err(f) => r == Err::<Option<(usize, usize)>, BlockFault>(f),
            Ok(None) => r matches Ok(None),
            Ok(Some((s, e))) => r matches Ok(Some((a, b))) && a == s && b == e,
        },
{
    let begin_marker = chars_of(BEGIN);
    let end_marker = chars_of(END);
    let mut begin: Option<usize> = None;
    let mut end: Option<usize> = None;
    let mut start: usize = 0;
    while start < t.len()
        invariant
            begin_marker@ == BEGIN@,
            end_marker@ == END@,
            start <= t@.len(),
            scan_from(t@, 0, Ok((None, None))) == scan_from(
                t@,
                start as int,
                Ok(
                    (
                        match begin {
                            Some(x) => Some(x as int),
                            None => None,
                        },
                        match end {
                            Some(x) => Some(x as int),
                            None => None,
                        },
                    ),
                ),
            ),
        decreases t@.len() - start,
    {
        let mut e = start;
        while e < t.len() && t[e] != '\n'
            invariant
                start <= e <= t@.len(),
                line_end(t@, start as int) == line_end(t@, e as int),
            decreases t@.len() - e,
        {
            e = e + 1;
        }
        if e < t.len() {
            e = e + 1;
        }
        proof {
            lemma_line_end_bounds(t@, start as int);
        }
        assert(e == line_end(t@, start as int));
        let is_begin = trimmed_is(t, start, e, &begin_marker);
        let is_end = trimmed_is(t, start, e, &end_marker);
        if is_begin && begin.is_none() && end.is_none() {
            begin = Some(start);
        } else if is_end && begin.is_some() && end.is_none() {
            end = Some(e);
        } else if is_begin || is_end {
            proof {
                lemma_scan_err(t@, e as int, BlockFault::Ambiguous);
            }
            return Err(BlockFault::Ambiguous);
        }
        start = e;
    }
    match (begin, end) {
        (None, None) => Ok(None),
        (Some(s), Some(x)) => Ok(Some((s, x))),
        _ => Err(BlockFault::Incomplete),
    }
}

/// The marker's characters taken as bytes.
pub open spec fn marker_bytes(m: Seq<char>) -> Seq<u8> {
    m.map_values(|c: char| #[verifier::truncate] (c as u8))
}

/// The bytes hold the opening marker somewhere.
pub open spec fn holds_begin_bytes(bytes: Seq<u8>) -> bool {
    exists|i: int|
        0 <= i && i + BEGIN@.len() <= bytes.len() && #[trigger] bytes.subrange(
            i,
            i + BEGIN@.len(),
        ) == marker_bytes(BEGIN@)
}

/// Why the ignore file cannot be managed.
#[derive(Clone, Copy, Debug, PartialEq, Eq, Structural)]
pub enum IgnoreFault {
    /// The file is not UTF-8.
    NotUtf8,
    /// The markers are ambiguous or incomplete.
    Block(BlockFault),
    /// A destination cannot be written as an ignore pattern.
    Pattern(PatternFault),
}

fn holds_begin(bytes: &[u8]) -> (r: bool)
    ensures
        r == holds_begin_bytes(bytes@),
{
    let m = chars_of(BEGIN);
    let n = m.len();
    if bytes.len() < n {
        return false;
    }
    let mut i: usize = 0;
    while i <= bytes.len() - n
        invariant
            m@ == BEGIN@,
            n == m@.len(),
            n <= bytes@.len(),
            i <= bytes@.len() - n + 1,
            forall|k: int|
                0 <= k < i ==> #[trigger] bytes@.subrange(k, k + n) != marker_bytes(BEGIN@),
        decreases bytes@.len() + 1 - i,
    {
        let mut j: usize = 0;
        let mut same = true;
        while j < n
            invariant
                m@ == BEGIN@,
                n == m@.len(),
                i + n <= bytes@.len(),
                bytes@.len() == bytes.len(),
                j <= n,
                same == forall|k: int| 0 <= k < j ==> bytes@[i + k] == (#[verifier::truncate] (m@[k] as u8)),
            decreases n - j,
        {
            if bytes[i + j] != (#[verifier::truncate] (m[j] as u8)) {
                same = false;
            }
            j = j + 1;
        }
        if same {
            assert(bytes@.subrange(i as int, i + n) =~= marker_bytes(BEGIN@));
            return true;
        }
        assert(bytes@.subrange(i as int, i + n) != marker_bytes(BEGIN@)) by {
            let k = choose|k: int| 0 <= k < n && bytes@[i + k] != (#[verifier::truncate] (m@[k] as u8));
            assert(bytes@.subrange(i as int, i + n)[k] != marker_bytes(BEGIN@)[k]);
        }
        i = i + 1;
    }
    false
}

/// Whether an ignore file (absent, or holding `bytes`) has a managed block.
pub open spec fn enabled_spec(bytes: Option<Seq<u8>>) -> Result<bool, IgnoreFault> {
    match bytes {
        None => Ok(false),
        Some(b) => if valid_utf8(b) {
            match block_spec(decode_utf8(b)) {
                Err(f) => Err(IgnoreFault::Block(f)),
                Ok(found) => Ok(found is Some),
            }
        } else if holds_begin_bytes(b) {
            Err(IgnoreFault::NotUtf8)
        } else {
            Ok(false)
        },
    }
}

/// Whether the project's ignore file opted into a managed block. A file
/// that is not UTF-8 counts as not opted in unless it holds the opening
/// marker, which makes it an error.
pub fn enabled(bytes: Option<&[u8]>) -> (r: Result<bool, IgnoreFault>)
    ensures
        r == enabled_spec(
            match bytes {
                Some(b) => Some(b@),
                None => None,
            },
        ),
{
    let b = match bytes {
        None => {
            return Ok(false);
        },
        Some(b) => b,
    };
    match utf8_text(b) {
        Some(text) => {
            let t = chars_of(text);
            match block(&t) {
                Err(f) => Err(IgnoreFault::Block(f)),
                Ok(found) => Ok(found.is_some()),
            }
        },
        None => {
            if holds_begin(b) {
                Err(IgnoreFault::NotUtf8)
            } else {
                Ok(false)
            }
        },
    }
}

/// Why a destination has no ignore pattern.
#[derive(Clone, Copy, Debug, PartialEq, Eq, Structural)]
pub enum PatternFault {
    /// A component is not a plain name: the path leaves the project.
    OutsideProject,
    /// A name holds a line break or NUL, which Git cannot ignore.
    LineBreak,
    /// The path is the project root itself.
    ProjectRoot,
}

/// Characters that Git patterns treat specially.
pub open spec fn is_special(c: char) -> bool {
    c == '\\' || c == '*' || c == '?' || c == '[' || c == ']' || c == '#' || c == '!' || c == ' '
}

/// A name with each special character preceded by a backslash.
pub open spec fn escape(s: Seq<char>) -> Seq<char>
    decreases s.len(),
{
    if s.len() == 0 {
        Seq::empty()
    } else if is_special(s.last()) {
        escape(s.drop_last()) + seq!['\\', s.last()]
    } else {
        escape(s.drop_last()).push(s.last())
    }
}

/// The escaped names joined by slashes.
pub open spec fn join_escaped(parts: Seq<Seq<char>>) -> Seq<char>
    decreases parts.len(),
{
    if parts.len() == 0 {
        Seq::empty()
    } else if parts.len() == 1 {
        escape(parts[0])
    } else {
        join_escaped(parts.drop_last()).push('/') + escape(parts.last())
    }
}

/// The check of one relative component.
pub open spec fn part_fault(p: Seq<char>) -> Option<PatternFault> {
    if p == root_part() || p == current_part() || p == parent_part() {
        Some(PatternFault::OutsideProject)
    } else if p.contains('\n') || p.contains('\r') || p.contains('\0') {
        Some(PatternFault::LineBreak)
    } else {
        None
    }
}

/// The anchored, escaped ignore pattern of a path relative to the project.
pub open spec fn pattern_spec(parts: Seq<Seq<char>>) -> Result<Seq<char>, PatternFault> {
    match first_failure(parts.map_values(|p: Seq<char>| part_fault(p))) {
        Some(f) => Err(f),
        None => if parts.len() == 0 {
            Err(PatternFault::ProjectRoot)
        } else {
            Ok(seq!['/'] + join_escaped(parts))
        },
    }
}

fn contains_char(s: &Vec<char>, c: char) -> (r: bool)
    ensures
        r == s@.contains(c),
{
    let mut i: usize = 0;
    while i < s.len()
        invariant
            i <= s@.len(),
            forall|k: int| 0 <= k < i ==> s@[k] != c,
        decreases s@.len() - i,
    {
        if s[i] == c {
            return true;
        }
        i = i + 1;
    }
    false
}

fn component_fault(p: &String) -> (r: Option<PatternFault>)
    ensures
        r == part_fault(p@),
{
    proof {
        crate::path::lemma_part_literals();
    }
    let s = p.as_str();
    if crate::text::str_eq(s, "/") || crate::text::str_eq(s, ".") || crate::text::str_eq(s, "..") {
        return Some(PatternFault::OutsideProject);
    }
    let cs = chars_of(s);
    if contains_char(&cs, '\n') || contains_char(&cs, '\r') || contains_char(&cs, '\0') {
        Some(PatternFault::LineBreak)
    } else {
        None
    }
}

fn push_escaped(out: &mut Vec<char>, name: &String)
    ensures
        final(out)@ == old(out)@ + escape(name@),
{
    let cs = chars_of(name.as_str());
    let mut i: usize = 0;
    while i < cs.len()
        invariant
            cs@ == name@,
            i <= cs@.len(),
            out@ == old(out)@ + escape(cs@.take(i as int)),
        decreases cs@.len() - i,
    {
        let c = cs[i];
        assert(cs@.take(i + 1).drop_last() =~= cs@.take(i as int));
        if c == '\\' || c == '*' || c == '?' || c == '[' || c == ']' || c == '#' || c == '!' || c
            == ' ' {
            out.push('\\');
        }
        out.push(c);
        assert(out@ =~= old(out)@ + escape(cs@.take(i + 1)));
        i = i + 1;
    }
    assert(cs@.take(cs@.len() as int) =~= cs@);
}

/// The ignore pattern of a path given by its components relative to the
/// project root.
pub fn pattern(parts: &[String]) -> (r: Result<String, PatternFault>)
    ensures
        match pattern_spec(string_views(parts@)) {
            Ok(p) => r matches Ok(s) && s@ == p,
            Err(f) => r == Err::<String, PatternFault>(f),
        },
{
    let ghost views = string_views(parts@);
    let ghost checks = views.map_values(|p: Seq<char>| part_fault(p));
    let mut i: usize = 0;
    while i < parts.len()
        invariant
            i <= parts@.len(),
            views == string_views(parts@),
            checks == views.map_values(|p: Seq<char>| part_fault(p)),
            first_failure(checks.take(i as int)) is None,
        decreases parts@.len() - i,
    {
        let f = component_fault(&parts[i]);
        proof {
            lemma_first_failure_push(checks, i as int);
        }
        if let Some(fault) = f {
            proof {
                lemma_first_failure_prefix(checks, i + 1);
            }
            return Err(fault);
        }
        i = i + 1;
    }
    assert(checks.take(parts@.len() as int) =~= checks);
    if parts.len() == 0 {
        return Err(PatternFault::ProjectRoot);
    }
    let mut out: Vec<char> = Vec::new();
    out.push('/');
    let mut k: usize = 0;
    while k < parts.len()
        invariant
            0 < parts@.len(),
            k <= parts@.len(),
            views == string_views(parts@),
            k > 0 ==> out@ == seq!['/'] + join_escaped(views.take(k as int)),
            k == 0 ==> out@ == seq!['/'],
        decreases parts@.len() - k,
    {
        if k > 0 {
            out.push('/');
        }
        push_escaped(&mut out, &parts[k]);
        proof {
            assert(views.take(k + 1).drop_last() =~= views.take(k as int));
            if k == 0 {
                assert(out@ =~= seq!['/'] + join_escaped(views.take(1)));
            } else {
                assert(out@ =~= seq!['/'] + join_escaped(views.take(k + 1)));
            }
        }
        k = k + 1;
    }
    assert(views.take(parts@.len() as int) =~= views);
    Ok(string_of(out.as_slice()))
}


/// The text holds a carriage return followed by a line feed.
pub open spec fn has_crlf(t: Seq<char>) -> bool {
    exists|i: int| 0 <= i && i + 1 < t.len() && #[trigger] t[i] == '\r' && t[i + 1] == '\n'
}

/// The line ending that a text already uses: CRLF if it holds one anywhere.
pub open spec fn newline_of(t: Seq<char>) -> Seq<char> {
    if has_crlf(t) {
        seq!['\r', '\n']
    } else {
        seq!['\n']
    }
}

/// Each pattern followed by a line ending.
pub open spec fn pattern_lines(ps: Seq<Seq<char>>, nl: Seq<char>) -> Seq<char>
    decreases ps.len(),
{
    if ps.len() == 0 {
        Seq::empty()
    } else {
        pattern_lines(ps.drop_last(), nl) + ps.last() + nl
    }
}

/// The managed block: the markers around the patterns, one per line.
pub open spec fn managed_block(ps: Seq<Seq<char>>, nl: Seq<char>) -> Seq<char> {
    BEGIN@ + nl + pattern_lines(ps, nl) + END@ + nl
}

/// `b` is a suffix of `a`.
pub open spec fn ends_with(a: Seq<char>, b: Seq<char>) -> bool {
    b.len() <= a.len() && a.skip(a.len() - b.len()) == b
}

/// The text with its managed block replaced, or with the block appended
/// after a blank line when the text had none.
pub open spec fn updated_text(t: Seq<char>, ps: Seq<Seq<char>>, found: Option<(int, int)>) -> Seq<char> {
    let nl = newline_of(t);
    let managed = managed_block(ps, nl);
    match found {
        Some((s, e)) => t.take(s) + managed + t.skip(e),
        None => {
            let a = if t.len() > 0 && t.last() != '\n' {
                t + nl
            } else {
                t
            };
            let b = if a.len() > 0 && !ends_with(a, nl + nl) {
                a + nl
            } else {
                a
            };
            b + managed
        },
    }
}

/// The pattern check of each destination inside the project.
pub open spec fn pattern_checks(root: Seq<Seq<char>>, paths: Seq<Seq<Seq<char>>>) -> Seq<Option<PatternFault>> {
    Seq::new(
        paths.len(),
        |i: int|
            if is_prefix(root, paths[i]) {
                match pattern_spec(paths[i].skip(root.len() as int)) {
                    Err(f) => Some(f),
                    Ok(_) => None,
                }
            } else {
                None
            },
    )
}

/// The patterns of the managed block: the state directory, the staging
/// files, and each destination inside the project among the first `n`.
pub open spec fn pattern_set(root: Seq<Seq<char>>, paths: Seq<Seq<Seq<char>>>, n: int) -> Set<Seq<char>> {
    set![STATE_PATTERN@, STAGE_PATTERN@].union(
        Set::new(
            |p: Seq<char>|
                exists|i: int|
                    0 <= i < n && is_prefix(root, #[trigger] paths[i]) && pattern_spec(
                        paths[i].skip(root.len() as int),
                    ) == Ok::<Seq<char>, PatternFault>(p),
        ),
    )
}

/// The patterns of the destinations among the first `n` that lie inside
/// the project, apart from the two fixed lines.
pub open spec fn output_patterns(root: Seq<Seq<char>>, paths: Seq<Seq<Seq<char>>>, n: int) -> Set<Seq<char>> {
    pattern_set(root, paths, n).remove(STAGE_PATTERN@).remove(STATE_PATTERN@)
}

/// The lines of a managed block in the order written: the staging files
/// first, then the destinations' patterns, then the state directory last.
pub open spec fn block_lines(os: Seq<Seq<char>>) -> Seq<Seq<char>> {
    seq![STAGE_PATTERN@] + os + seq![STATE_PATTERN@]
}

/// `os` lists the destinations' patterns of the managed block: sorted,
/// without repetition, and without either fixed line.
pub open spec fn block_order(os: Seq<Seq<char>>, root: Seq<Seq<char>>, paths: Seq<Seq<Seq<char>>>) -> bool {
    &&& strictly_sorted(os)
    &&& os.to_set() == output_patterns(root, paths, paths.len() as int)
}

/// One more destination adds its pattern when it lies inside the project.
proof fn lemma_pattern_set_step(root: Seq<Seq<char>>, pv: Seq<Seq<Seq<char>>>, i: int)
    requires
        0 <= i < pv.len(),
    ensures
        is_prefix(root, pv[i]) && pattern_spec(pv[i].skip(root.len() as int)) is Ok ==> pattern_set(root, pv, i + 1)
            == pattern_set(root, pv, i).insert(pattern_spec(pv[i].skip(root.len() as int))->Ok_0),
        !(is_prefix(root, pv[i]) && pattern_spec(pv[i].skip(root.len() as int)) is Ok) ==> pattern_set(root, pv, i + 1)
            == pattern_set(root, pv, i),
{
    let fixed = set![STATE_PATTERN@, STAGE_PATTERN@];
    let nx = pattern_set(root, pv, i + 1);
    let pr = pattern_set(root, pv, i);
    let good = is_prefix(root, pv[i]) && pattern_spec(pv[i].skip(root.len() as int)) is Ok;
    if good {
        let pat = pattern_spec(pv[i].skip(root.len() as int))->Ok_0;
        assert forall|x: Seq<char>| nx.contains(x) == pr.insert(pat).contains(x) by {
            if nx.contains(x) && !fixed.contains(x) {
                let k = choose|k: int|
                    0 <= k < i + 1 && is_prefix(root, #[trigger] pv[k]) && pattern_spec(pv[k].skip(root.len() as int))
                        == Ok::<Seq<char>, PatternFault>(x);
                if k < i {
                    assert(pr.contains(x));
                }
            }
            if pr.contains(x) && !fixed.contains(x) {
                let k = choose|k: int|
                    0 <= k < i && is_prefix(root, #[trigger] pv[k]) && pattern_spec(pv[k].skip(root.len() as int))
                        == Ok::<Seq<char>, PatternFault>(x);
                assert(0 <= k < i + 1);
            }
            if x == pat && !fixed.contains(x) {
                assert(is_prefix(root, pv[i]));
            }
        }
        assert(nx =~= pr.insert(pat));
    } else {
        assert forall|x: Seq<char>| nx.contains(x) == pr.contains(x) by {
            if nx.contains(x) && !fixed.contains(x) {
                let k = choose|k: int|
                    0 <= k < i + 1 && is_prefix(root, #[trigger] pv[k]) && pattern_spec(pv[k].skip(root.len() as int))
                        == Ok::<Seq<char>, PatternFault>(x);
                assert(k != i);
            }
            if pr.contains(x) && !fixed.contains(x) {
                let k = choose|k: int|
                    0 <= k < i && is_prefix(root, #[trigger] pv[k]) && pattern_spec(pv[k].skip(root.len() as int))
                        == Ok::<Seq<char>, PatternFault>(x);
                assert(0 <= k < i + 1);
            }
        }
        assert(nx =~= pr);
    }
}

/// The block's lines are, as a set, the whole pattern set.
proof fn lemma_block_lines_set(os: Seq<Seq<char>>, root: Seq<Seq<char>>, paths: Seq<Seq<Seq<char>>>)
    requires
        block_order(os, root, paths),
    ensures
        block_lines(os).to_set() == pattern_set(root, paths, paths.len() as int),
{
    let ps = block_lines(os);
    let all = pattern_set(root, paths, paths.len() as int);
    assert(all.contains(STATE_PATTERN@));
    assert(all.contains(STAGE_PATTERN@));
    assert forall|x: Seq<char>| ps.to_set().contains(x) == all.contains(x) by {
        if ps.to_set().contains(x) {
            let k = choose|k: int| 0 <= k < ps.len() && ps[k] == x;
            if 0 < k < ps.len() - 1 {
                assert(ps[k] == os[k - 1]);
                assert(os.to_set().contains(os[k - 1]));
            }
        }
        if all.contains(x) {
            if x == STAGE_PATTERN@ {
                assert(ps[0] == x);
            } else if x == STATE_PATTERN@ {
                assert(ps[ps.len() - 1] == x);
            } else {
                assert(os.to_set().contains(x));
                let k = choose|k: int| 0 <= k < os.len() && os[k] == x;
                assert(ps[k + 1] == x);
            }
        }
    }
    assert(ps.to_set() =~= all);
}

/// The destinations outside the project, in order.
pub open spec fn outside_paths(root: Seq<Seq<char>>, paths: Seq<Seq<Seq<char>>>) -> Seq<Seq<Seq<char>>>
    decreases paths.len(),
{
    if paths.len() == 0 {
        Seq::empty()
    } else if is_prefix(root, paths.last()) {
        outside_paths(root, paths.drop_last())
    } else {
        outside_paths(root, paths.drop_last()).push(paths.last())
    }
}

/// A rewritten ignore file and the destinations it cannot cover.
pub struct Updated {
    pub bytes: Vec<u8>,
    pub outside: Vec<FsPath>,
}

/// The text of an ignore file that is absent or holds `bytes`.
pub open spec fn ignore_text(original: Option<Seq<u8>>) -> Seq<char> {
    match original {
        None => Seq::empty(),
        Some(b) => decode_utf8(b),
    }
}

/// What `update` yields: the first fault, or a file whose managed block
/// lists `ps`.
pub open spec fn update_spec(
    root: Seq<Seq<char>>,
    paths: Seq<Seq<Seq<char>>>,
    original: Option<Seq<u8>>,
    ps: Seq<Seq<char>>,
) -> Result<Seq<u8>, IgnoreFault> {
    if original matches Some(b) && !valid_utf8(b) {
        Err(IgnoreFault::NotUtf8)
    } else if first_failure(pattern_checks(root, paths)) is Some {
        Err(IgnoreFault::Pattern(first_failure(pattern_checks(root, paths))->0))
    } else {
        match block_spec(ignore_text(original)) {
            Err(f) => Err(IgnoreFault::Block(f)),
            Ok(found) => Ok(encode_utf8(updated_text(ignore_text(original), ps, found))),
        }
    }
}

fn push_all(out: &mut Vec<char>, s: &Vec<char>)
    ensures
        final(out)@ == old(out)@ + s@,
{
    let mut i: usize = 0;
    while i < s.len()
        invariant
            i <= s@.len(),
            out@ == old(out)@ + s@.take(i as int),
        decreases s@.len() - i,
    {
        out.push(s[i]);
        assert(s@.take(i + 1) =~= s@.take(i as int).push(s@[i as int]));
        i = i + 1;
    }
    assert(s@.take(s@.len() as int) =~= s@);
}

fn detect_crlf(t: &Vec<char>) -> (r: bool)
    ensures
        r == has_crlf(t@),
{
    let mut i: usize = 0;
    while i < t.len()
        invariant
            i <= t@.len(),
            forall|k: int| 0 <= k < i && k + 1 < t@.len() ==> !(#[trigger] t@[k] == '\r' && t@[k + 1] == '\n'),
        decreases t@.len() - i,
    {
        if i + 1 < t.len() && t[i] == '\r' && t[i + 1] == '\n' {
            return true;
        }
        i = i + 1;
    }
    false
}

fn tail_parts(path: &FsPath, from: usize) -> (r: Vec<String>)
    requires
        from <= path@.len(),
    ensures
        string_views(r@) == path@.skip(from as int),
{
    let mut r: Vec<String> = Vec::new();
    let mut i = from;
    while i < path.parts.len()
        invariant
            from <= i <= path@.len(),
            string_views(r@) == path@.subrange(from as int, i as int),
        decreases path@.len() - i,
    {
        let ghost before = r@;
        let x = path.parts[i].clone();
        r.push(x);
        proof {
            crate::text::lemma_views_push(before, x);
            assert(path@.subrange(from as int, i + 1) =~= path@.subrange(from as int, i as int).push(
                path@[i as int],
            ));
        }
        i = i + 1;
    }
    assert(path@.subrange(from as int, path@.len() as int) =~= path@.skip(from as int));
    r
}

fn ends_with_chars(a: &Vec<char>, b: &Vec<char>) -> (r: bool)
    ensures
        r == ends_with(a@, b@),
{
    if b.len() > a.len() {
        return false;
    }
    let off = a.len() - b.len();
    let mut i: usize = 0;
    while i < b.len()
        invariant
            off == a@.len() - b@.len(),
            off + b@.len() == a.len(),
            b@.len() <= a@.len(),
            i <= b@.len(),
            forall|k: int| 0 <= k < i ==> a@[off + k] == b@[k],
        decreases b@.len() - i,
    {
        if a[off + i] != b[i] {
            assert(a@.skip(off as int)[i as int] != b@[i as int]);
            return false;
        }
        i = i + 1;
    }
    assert(a@.skip(off as int) =~= b@);
    true
}

/// The block's lines: the staging files, the given patterns, the state
/// directory.
fn block_of(os: Vec<String>) -> (r: Vec<String>)
    ensures
        string_views(r@) == block_lines(string_views(os@)),
{
    let mut r: Vec<String> = Vec::new();
    let first = STAGE_PATTERN.to_owned();
    r.push(first);
    let mut i: usize = 0;
    while i < os.len()
        invariant
            i <= os@.len(),
            string_views(r@) == seq![STAGE_PATTERN@] + string_views(os@).take(i as int),
        decreases os@.len() - i,
    {
        let ghost before = r@;
        let x = os[i].clone();
        r.push(x);
        proof {
            crate::text::lemma_views_push(before, x);
            assert(string_views(os@).take(i + 1) =~= string_views(os@).take(i as int).push(os@[i as int]@));
        }
        i = i + 1;
    }
    let ghost before = r@;
    let last = STATE_PATTERN.to_owned();
    r.push(last);
    proof {
        crate::text::lemma_views_push(before, last);
        assert(string_views(os@).take(os@.len() as int) =~= string_views(os@));
    }
    assert(string_views(r@) =~= block_lines(string_views(os@)));
    r
}

/// The bytes of an optional slice.
pub open spec fn opt_bytes(b: Option<&[u8]>) -> Option<Seq<u8>> {
    match b {
        Some(x) => Some(x@),
        None => None,
    }
}

/// Rewrites an ignore file (absent, or holding `original`) so that its
/// managed block lists the staging files first, then the pattern of each
/// destination inside `root`, sorted and without repetition, then the
/// state directory last.
/// Text outside the block, and its line endings, stay as they were.
/// Destinations outside `root` are returned to be reported.
pub fn update(root: &FsPath, paths: &Vec<FsPath>, original: Option<&[u8]>) -> (r: Result<
    Updated,
    IgnoreFault,
>)
    ensures
        match r {
            Ok(u) => exists|os: Seq<Seq<char>>|
                block_order(os, root@, path_views(paths@)) && update_spec(
                    root@,
                    path_views(paths@),
                    opt_bytes(original),
                    block_lines(os),
                ) == Ok::<Seq<u8>, IgnoreFault>(u.bytes@) && path_views(u.outside@)
                    == outside_paths(root@, path_views(paths@)),
            Err(f) => forall|ps: Seq<Seq<char>>|
                #[trigger] update_spec(
                    root@,
                    path_views(paths@),
                    opt_bytes(original),
                    ps,
                ) == Err::<Seq<u8>, IgnoreFault>(f),
        },
{
    let ghost orig = opt_bytes(original);
    let ghost pv = path_views(paths@);
    let text: Vec<char> = match original {
        None => Vec::new(),
        Some(b) => match utf8_text(b) {
            None => {
                return Err(IgnoreFault::NotUtf8);
            },
            Some(s) => chars_of(s),
        },
    };
    assert(text@ == ignore_text(orig));
    let crlf = detect_crlf(&text);
    let mut nl: Vec<char> = Vec::new();
    if crlf {
        nl.push('\r');
    }
    nl.push('\n');
    assert(nl@ =~= newline_of(text@));
    let mut patterns: Vec<String> = Vec::new();
    assert(string_views(patterns@).to_set() =~= output_patterns(root@, pv, 0));
    let mut outside: Vec<FsPath> = Vec::new();
    let ghost checks = pattern_checks(root@, pv);
    let mut i: usize = 0;
    assert(pv.take(0) =~= Seq::<Seq<Seq<char>>>::empty());
    while i < paths.len()
        invariant
            i <= paths@.len(),
            checks == pattern_checks(root@, pv),
            pv == path_views(paths@),
            orig == opt_bytes(original),
            !(orig matches Some(b) && !valid_utf8(b)),
            first_failure(checks.take(i as int)) is None,
            strictly_sorted(string_views(patterns@)),
            string_views(patterns@).to_set() == output_patterns(root@, pv, i as int),
            path_views(outside@) == outside_paths(root@, pv.take(i as int)),
        decreases paths@.len() - i,
    {
        let p = &paths[i];
        proof {
            lemma_first_failure_push(checks, i as int);
            assert(pv.take(i + 1).drop_last() =~= pv.take(i as int));
            assert(pv.take(i + 1).last() == paths@[i as int]@);
        }
        if p.starts_with(root) {
            let rel = tail_parts(p, root.parts.len());
            match pattern(rel.as_slice()) {
                Err(f) => {
                    proof {
                        lemma_first_failure_prefix(checks, i + 1);
                    }
                    return Err(IgnoreFault::Pattern(f));
                },
                Ok(pat) => {
                    proof {
                        assert(string_views(rel@) == pv[i as int].skip(root@.len() as int));
                        lemma_pattern_set_step(root@, pv, i as int);
                    }
                    let fixed = crate::text::str_eq(pat.as_str(), STATE_PATTERN) || crate::text::str_eq(
                        pat.as_str(),
                        STAGE_PATTERN,
                    );
                    let ghost before = string_views(patterns@).to_set();
                    if !fixed {
                        insert_sorted(&mut patterns, pat);
                    }
                    assert(string_views(patterns@).to_set() =~= output_patterns(root@, pv, i + 1));
                },
            }
        } else {
            let ghost before = outside@;
            let q = p.duplicate();
            outside.push(q);
            proof {
                assert(path_views(outside@) == outside_paths(root@, pv.take(i + 1))) by {
                    assert(path_views(outside@) =~= path_views(before).push(q@));
                }
                lemma_pattern_set_step(root@, pv, i as int);
                assert(output_patterns(root@, pv, i as int) =~= output_patterns(root@, pv, i + 1));
            }
        }
        i = i + 1;
    }
    assert(checks.take(paths@.len() as int) =~= checks);
    assert(pv.take(paths@.len() as int) =~= pv);
    let begin_chars = chars_of(BEGIN);
    let end_chars = chars_of(END);
    let mut managed: Vec<char> = Vec::new();
    push_all(&mut managed, &begin_chars);
    push_all(&mut managed, &nl);
    let ghost os = string_views(patterns@);
    let mut patterns = block_of(patterns);
    let ghost ps = string_views(patterns@);
    assert(ps == block_lines(os));
    let mut k: usize = 0;
    while k < patterns.len()
        invariant
            k <= patterns@.len(),
            ps == string_views(patterns@),
            managed@ == BEGIN@ + nl@ + pattern_lines(ps.take(k as int), nl@),
        decreases patterns@.len() - k,
    {
        let pc = chars_of(patterns[k].as_str());
        push_all(&mut managed, &pc);
        push_all(&mut managed, &nl);
        assert(ps.take(k + 1).drop_last() =~= ps.take(k as int));
        assert(managed@ =~= BEGIN@ + nl@ + pattern_lines(ps.take(k + 1), nl@));
        k = k + 1;
    }
    assert(ps.take(patterns@.len() as int) =~= ps);
    push_all(&mut managed, &end_chars);
    push_all(&mut managed, &nl);
    assert(managed@ =~= managed_block(ps, nl@));
    let found = match block(&text) {
        Err(f) => {
            return Err(IgnoreFault::Block(f));
        },
        Ok(found) => found,
    };
    let mut out: Vec<char> = Vec::new();
    match found {
        Some((s, e)) => {
            proof {
                lemma_block_bounds(text@);
            }
            let mut j: usize = 0;
            while j < s
                invariant
                    s <= text@.len(),
                    j <= s,
                    out@ == text@.take(j as int),
                decreases s - j,
            {
                out.push(text[j]);
                assert(text@.take(j + 1) =~= text@.take(j as int).push(text@[j as int]));
                j = j + 1;
            }
            push_all(&mut out, &managed);
            let mut j2: usize = e;
            while j2 < text.len()
                invariant
                    e <= j2 <= text@.len(),
                    out@ == text@.take(s as int) + managed@ + text@.subrange(e as int, j2 as int),
                decreases text@.len() - j2,
            {
                out.push(text[j2]);
                assert(text@.subrange(e as int, j2 + 1) =~= text@.subrange(e as int, j2 as int).push(
                    text@[j2 as int],
                ));
                j2 = j2 + 1;
            }
            assert(text@.subrange(e as int, text@.len() as int) =~= text@.skip(e as int));
        },
        None => {
            push_all(&mut out, &text);
            if out.len() > 0 && out[out.len() - 1] != '\n' {
                push_all(&mut out, &nl);
            }
            let mut nl2: Vec<char> = Vec::new();
            push_all(&mut nl2, &nl);
            push_all(&mut nl2, &nl);
            if out.len() > 0 && !ends_with_chars(&out, &nl2) {
                push_all(&mut out, &nl);
            }
            push_all(&mut out, &managed);
        },
    }
    assert(out@ =~= updated_text(
        text@,
        ps,
        match found {
            Some((a, b)) => Some((a as int, b as int)),
            None => None,
        },
    ));
    let s = string_of(out.as_slice());
    let bytes = vstd::slice::slice_to_vec(s.as_str().as_bytes());
    assert(block_order(os, root@, pv));
    assert(update_spec(root@, pv, orig, block_lines(os)) == Ok::<Seq<u8>, IgnoreFault>(bytes@));
    Ok(Updated { bytes, outside })
}

/// A name with each backslash turned into a slash, as Git lists paths.
pub open spec fn slashed(s: Seq<char>) -> Seq<char> {
    Seq::new(
        s.len(),
        |k: int|
            if s[k] == '\\' {
                '/'
            } else {
                s[k]
            },
    )
}

/// The name under which Git lists a destination inside the project: the
/// project's place in the repository, then the path below the root.
pub open spec fn index_name(prefix: Seq<char>, root: Seq<Seq<char>>, path: Seq<Seq<char>>) -> Seq<char> {
    prefix + slashed(joined(path.skip(root.len() as int)))
}

/// Whether a listing of NUL-terminated names holds `name` as one of them.
pub open spec fn listed(listing: Seq<u8>, name: Seq<u8>) -> bool {
    &&& !name.contains(0u8)
    &&& exists|i: int|
        0 <= i && i + name.len() <= listing.len() && (i == 0 || listing[i - 1] == 0u8) && (i
            + name.len() == listing.len() || listing[i + name.len()] == 0u8)
            && #[trigger] listing.subrange(i, i + name.len()) == name
}

/// The destinations, in order, that lie inside the project and that Git
/// already tracks.
pub open spec fn tracked_spec(
    root: Seq<Seq<char>>,
    paths: Seq<Seq<Seq<char>>>,
    listing: Seq<u8>,
    prefix: Seq<char>,
) -> Seq<Seq<Seq<char>>>
    decreases paths.len(),
{
    if paths.len() == 0 {
        Seq::empty()
    } else {
        let before = tracked_spec(root, paths.drop_last(), listing, prefix);
        let p = paths.last();
        if is_prefix(root, p) && listed(listing, encode_utf8(index_name(prefix, root, p))) {
            before.push(p)
        } else {
            before
        }
    }
}

fn listing_holds(listing: &[u8], name: &[u8]) -> (r: bool)
    ensures
        r == listed(listing@, name@),
{
    let n = name.len();
    let mut z: usize = 0;
    while z < n
        invariant
            n == name@.len(),
            z <= n,
            forall|k: int| 0 <= k < z ==> name@[k] != 0u8,
        decreases n - z,
    {
        if name[z] == 0u8 {
            assert(name@.contains(0u8)) by {
                assert(name@[z as int] == 0u8);
            }
            return false;
        }
        z = z + 1;
    }
    if n > listing.len() {
        return false;
    }
    let m = listing.len();
    let last = m - n;
    let mut i: usize = 0;
    loop
        invariant
            n == name@.len(),
            m == listing@.len(),
            n <= m,
            last == m - n,
            i <= last,
            !name@.contains(0u8),
            forall|k: int|
                0 <= k < i ==> !((k == 0 || listing@[k - 1] == 0u8) && (k + n == m || listing@[k + n]
                    == 0u8) && #[trigger] listing@.subrange(k, k + n) == name@),
        ensures
            forall|k: int|
                0 <= k <= last ==> !((k == 0 || listing@[k - 1] == 0u8) && (k + n == m || listing@[k
                    + n] == 0u8) && #[trigger] listing@.subrange(k, k + n) == name@),
        decreases last - i,
    {
        let starts = i == 0 || listing[i - 1] == 0u8;
        let ends = i + n == m || listing[i + n] == 0u8;
        if starts && ends {
            let mut j: usize = 0;
            let mut same = true;
            while j < n
                invariant
                    n == name@.len(),
                    m == listing@.len(),
                    i + n <= m,
                    j <= n,
                    same == forall|k: int| 0 <= k < j ==> listing@[i + k] == name@[k],
                decreases n - j,
            {
                if listing[i + j] != name[j] {
                    same = false;
                }
                j = j + 1;
            }
            if same {
                assert(listing@.subrange(i as int, i + n) =~= name@);
                return true;
            }
            assert(listing@.subrange(i as int, i + n) != name@) by {
                let k = choose|k: int| 0 <= k < n && listing@[i + k] != name@[k];
                assert(listing@.subrange(i as int, i + n)[k] != name@[k]);
            }
        }
        if i == last {
            break;
        }
        i = i + 1;
    }
    false
}

/// The name under which Git lists a destination inside the project.
fn index_name_of(prefix: &str, root: &FsPath, path: &FsPath) -> (r: String)
    requires
        is_prefix(root@, path@),
    ensures
        r@ == index_name(prefix@, root@, path@),
{
    let mut out: Vec<char> = chars_of(prefix);
    let ghost rel = path@.skip(root@.len() as int);
    let start = root.parts.len();
    let mut i: usize = start;
    assert(rel.take(0) =~= Seq::<Seq<char>>::empty());
    assert(out@ =~= prefix@ + slashed(joined(rel.take(0))));
    while i < path.parts.len()
        invariant
            start == root@.len(),
            start <= i <= path@.len(),
            rel == path@.skip(start as int),
            out@ == prefix@ + slashed(joined(rel.take(i - start))),
        decreases path@.len() - i,
    {
        let ghost before = out@;
        let k = i - start;
        if k > 0 {
            out.push('/');
        }
        let cs = chars_of(path.parts[i].as_str());
        let ghost mid = out@;
        let mut c: usize = 0;
        while c < cs.len()
            invariant
                c <= cs@.len(),
                out@ == mid + slashed(cs@.take(c as int)),
            decreases cs@.len() - c,
        {
            let x = cs[c];
            let y = if x == '\\' {
                '/'
            } else {
                x
            };
            out.push(y);
            assert(out@ =~= mid + slashed(cs@.take(c + 1)));
            c = c + 1;
        }
        assert(cs@.take(cs@.len() as int) =~= cs@);
        assert(rel.take(k + 1).drop_last() =~= rel.take(k as int));
        assert(rel[k as int] == path@[i as int]);
        if k == 0 {
            assert(joined(rel.take(1)) == rel[0]);
            assert(out@ =~= prefix@ + slashed(joined(rel.take(k + 1))));
        } else {
            assert(joined(rel.take(k + 1)) == joined(rel.take(k as int)) + seq!['/'] + rel[k as int]);
            assert(out@ =~= prefix@ + slashed(joined(rel.take(k + 1))));
        }
        i = i + 1;
    }
    assert(rel.take(path@.len() - start) =~= rel);
    string_of(out.as_slice())
}

/// The destinations inside the project that Git already tracks, in order,
/// to be reported, since ignoring them does not untrack them. `listing` is
/// what `git ls-files -z --full-name` printed; `prefix` is the project's
/// place in the repository, as `git rev-parse --show-prefix` printed it.
pub fn tracked_outputs(root: &FsPath, paths: &Vec<FsPath>, listing: &[u8], prefix: &str) -> (r: Vec<FsPath>)
    ensures
        path_views(r@) == tracked_spec(root@, path_views(paths@), listing@, prefix@),
{
    let mut found: Vec<FsPath> = Vec::new();
    let ghost pv = path_views(paths@);
    let mut i: usize = 0;
    while i < paths.len()
        invariant
            i <= paths@.len(),
            pv == path_views(paths@),
            path_views(found@) == tracked_spec(root@, pv.take(i as int), listing@, prefix@),
        decreases paths@.len() - i,
    {
        let p = &paths[i];
        assert(pv.take(i + 1).drop_last() =~= pv.take(i as int));
        assert(pv.take(i + 1).last() == p@);
        if p.starts_with(root) {
            let name = index_name_of(prefix, root, p);
            if listing_holds(listing, name.as_str().as_bytes()) {
                let ghost before = found@;
                let q = p.duplicate();
                found.push(q);
                assert(path_views(found@) =~= path_views(before).push(q@));
            }
        }
        i = i + 1;
    }
    assert(pv.take(paths@.len() as int) =~= pv);
    found
}

/// A located block lies within its text.
proof fn lemma_block_bounds(t: Seq<char>)
    ensures
        block_spec(t) matches Ok(Some((s, e))) ==> 0 <= s <= e <= t.len(),
{
    lemma_scan_bounds(t, 0, Ok((None, None)));
}

/// The marker offsets found stay within the text and in order.
proof fn lemma_scan_bounds(t: Seq<char>, start: int, acc: Markers)
    requires
        0 <= start <= t.len(),
        acc matches Ok((b, e)) ==> (b matches Some(x) ==> 0 <= x <= start) && (e matches Some(
            y,
        ) ==> b is Some && b->0 <= y <= start),
    ensures
        scan_from(t, start, acc) matches Ok((b, e)) ==> (b matches Some(x) ==> 0 <= x <= t.len()) && (
        e matches Some(y) ==> b is Some && b->0 <= y <= t.len()),
    decreases t.len() - start,
{
    if start < t.len() {
        lemma_line_end_bounds(t, start);
        let e = line_end(t, start);
        lemma_scan_bounds(t, e, scan_line(acc, t.subrange(start, e), start));
    }
}

} // verus!

verus! {

/// Which markers a scan has met, or the fault that stopped it: a scan's
/// result without its offsets.
type Seen = Result<(bool, bool), BlockFault>;

spec fn seen(m: Markers) -> Seen {
    match m {
        Err(f) => Err(f),
        Ok((b, e)) => Ok((b is Some, e is Some)),
    }
}

/// One line taken into account, offsets aside.
spec fn step(st: Seen, line: Seq<char>) -> Seen {
    match st {
        Err(f) => Err(f),
        Ok((b, e)) => {
            let t = trim_newlines(line);
            if t == BEGIN@ && !b && !e {
                Ok((true, e))
            } else if t == END@ && b && !e {
                Ok((b, true))
            } else if t == BEGIN@ || t == END@ {
                Err(BlockFault::Ambiguous)
            } else {
                Ok((b, e))
            }
        },
    }
}

/// The lines of a text from `start` on, each with its line feed.
pub open spec fn lines_from(t: Seq<char>, start: int) -> Seq<Seq<char>>
    decreases t.len() - start,
{
    if start < 0 || start >= t.len() {
        Seq::empty()
    } else {
        let e = line_end(t, start);
        if e <= start || e > t.len() {
            Seq::empty()
        } else {
            seq![t.subrange(start, e)] + lines_from(t, e)
        }
    }
}

spec fn fold_lines(st: Seen, ls: Seq<Seq<char>>) -> Seen
    decreases ls.len(),
{
    if ls.len() == 0 {
        st
    } else {
        fold_lines(step(st, ls[0]), ls.drop_first())
    }
}

/// The text is empty or ends a line.
spec fn closed_lines(x: Seq<char>) -> bool {
    x.len() == 0 || x.last() == '\n'
}

/// The text is one line ending in a line feed.
spec fn one_line(z: Seq<char>) -> bool {
    z.len() > 0 && z.last() == '\n' && forall|k: int| 0 <= k < z.len() - 1 ==> z[k] != '\n'
}

/// A line ending: a line feed, perhaps after a carriage return.
spec fn is_newline(nl: Seq<char>) -> bool {
    nl == seq!['\n'] || nl == seq!['\r', '\n']
}

/// A line that is neither marker however it ends: no line break, and no
/// leading `#`.
spec fn plain_line(p: Seq<char>) -> bool {
    (forall|k: int| 0 <= k < p.len() ==> p[k] != '\n' && p[k] != '\r') && (p.len() == 0 || p[0] != '#')
}

proof fn lemma_scan_seen(t: Seq<char>, start: int, acc: Markers)
    requires
        0 <= start,
    ensures
        seen(scan_from(t, start, acc)) == fold_lines(seen(acc), lines_from(t, start)),
    decreases t.len() - start,
{
    if start < t.len() {
        lemma_line_end_bounds(t, start);
        let e = line_end(t, start);
        let line = t.subrange(start, e);
        lemma_scan_seen(t, e, scan_line(acc, line, start));
        let ls = lines_from(t, start);
        assert(ls[0] == line);
        assert(ls.drop_first() =~= lines_from(t, e));
    }
}

proof fn lemma_fold_concat(st: Seen, a: Seq<Seq<char>>, b: Seq<Seq<char>>)
    ensures
        fold_lines(st, a + b) == fold_lines(fold_lines(st, a), b),
    decreases a.len(),
{
    if a.len() > 0 {
        assert((a + b)[0] == a[0]);
        assert((a + b).drop_first() =~= a.drop_first() + b);
        lemma_fold_concat(step(st, a[0]), a.drop_first(), b);
    } else {
        assert(a + b =~= b);
    }
}

proof fn lemma_fold_one(st: Seen, a: Seq<char>)
    ensures
        fold_lines(st, seq![a]) == step(st, a),
{
    let ls = seq![a];
    assert(ls[0] == a);
    assert(ls.drop_first() =~= Seq::<Seq<char>>::empty());
    assert(fold_lines(step(st, a), Seq::<Seq<char>>::empty()) == step(st, a));
}

proof fn lemma_line_end_last(t: Seq<char>, start: int)
    requires
        0 <= start < t.len(),
    ensures
        line_end(t, start) == t.len() || t[line_end(t, start) - 1] == '\n',
    decreases t.len() - start,
{
    if t[start] != '\n' {
        if start + 1 < t.len() {
            lemma_line_end_last(t, start + 1);
        } else {
            assert(line_end(t, start + 1) == t.len());
        }
    }
}

proof fn lemma_line_end_shift(x: Seq<char>, y: Seq<char>, j: int)
    requires
        0 <= j,
    ensures
        line_end(x + y, x.len() + j) == x.len() + line_end(y, j),
    decreases y.len() - j,
{
    if j < y.len() {
        assert((x + y)[x.len() + j] == y[j]);
        if y[j] != '\n' {
            lemma_line_end_shift(x, y, j + 1);
        }
    }
}

proof fn lemma_lines_shift(x: Seq<char>, y: Seq<char>, j: int)
    requires
        0 <= j,
    ensures
        lines_from(x + y, x.len() + j) == lines_from(y, j),
    decreases y.len() - j,
{
    if j < y.len() {
        lemma_line_end_shift(x, y, j);
        lemma_line_end_bounds(y, j);
        let e = line_end(y, j);
        lemma_lines_shift(x, y, e);
        assert((x + y).subrange(x.len() + j, x.len() + e) =~= y.subrange(j, e));
    }
}

/// A line that ends inside `x` ends at the same place after more text.
proof fn lemma_line_end_inside(x: Seq<char>, y: Seq<char>, i: int)
    requires
        0 <= i < x.len(),
        x.last() == '\n' || line_end(x, i) < x.len(),
    ensures
        line_end(x + y, i) == line_end(x, i),
    decreases x.len() - i,
{
    assert((x + y)[i] == x[i]);
    if x[i] != '\n' {
        if i + 1 < x.len() {
            lemma_line_end_inside(x, y, i + 1);
        } else {
            assert(line_end(x, i + 1) == x.len());
        }
    }
}

/// A last line without a line feed runs on into what follows.
proof fn lemma_line_end_runs_on(x: Seq<char>, y: Seq<char>, i: int)
    requires
        0 <= i < x.len(),
        x.last() != '\n',
        line_end(x, i) == x.len(),
    ensures
        line_end(x + y, i) == x.len() + line_end(y, 0),
    decreases x.len() - i,
{
    assert((x + y)[i] == x[i]);
    if i + 1 == x.len() {
        lemma_line_end_shift(x, y, 0);
    } else {
        lemma_line_end_runs_on(x, y, i + 1);
    }
}

proof fn lemma_lines_concat(x: Seq<char>, y: Seq<char>, i: int)
    requires
        closed_lines(x),
        0 <= i <= x.len(),
    ensures
        lines_from(x + y, i) == lines_from(x, i) + lines_from(y, 0),
    decreases x.len() - i,
{
    if i == x.len() {
        lemma_lines_shift(x, y, 0);
        assert(lines_from(x, i) + lines_from(y, 0) =~= lines_from(y, 0));
    } else {
        lemma_line_end_inside(x, y, i);
        lemma_line_end_bounds(x, i);
        let e = line_end(x, i);
        lemma_lines_concat(x, y, e);
        assert((x + y).subrange(i, e) =~= x.subrange(i, e));
        assert(lines_from(x + y, i) =~= lines_from(x, i) + lines_from(y, 0));
    }
}

proof fn lemma_one_line_end(z: Seq<char>, i: int)
    requires
        one_line(z),
        0 <= i < z.len(),
    ensures
        line_end(z, i) == z.len(),
    decreases z.len() - i,
{
    if z[i] != '\n' {
        lemma_one_line_end(z, i + 1);
    }
}

proof fn lemma_one_line(z: Seq<char>)
    requires
        one_line(z),
    ensures
        lines_from(z, 0) == seq![z],
{
    lemma_one_line_end(z, 0);
    assert(z.subrange(0, z.len() as int) =~= z);
    assert(lines_from(z, z.len() as int) =~= Seq::<Seq<char>>::empty());
    assert(lines_from(z, 0) =~= seq![z]);
}

/// Trimming keeps a leading part of the line.
proof fn lemma_trim_prefix(l: Seq<char>)
    ensures
        trim_newlines(l).len() <= l.len(),
        trim_newlines(l) == l.take(trim_newlines(l).len() as int),
    decreases l.len(),
{
    if l.len() > 0 && (l.last() == '\n' || l.last() == '\r') {
        lemma_trim_prefix(l.drop_last());
        assert(l.drop_last().take(trim_newlines(l).len() as int) =~= l.take(
            trim_newlines(l).len() as int,
        ));
    } else {
        assert(l.take(l.len() as int) =~= l);
    }
}

/// Line breaks added at the end vanish when the line is trimmed.
proof fn lemma_trim_breaks(s: Seq<char>, nl: Seq<char>)
    requires
        forall|k: int| 0 <= k < nl.len() ==> nl[k] == '\n' || nl[k] == '\r',
    ensures
        trim_newlines(s + nl) == trim_newlines(s),
    decreases nl.len(),
{
    if nl.len() == 0 {
        assert(s + nl =~= s);
    } else {
        assert((s + nl).drop_last() =~= s + nl.drop_last());
        lemma_trim_breaks(s, nl.drop_last());
    }
}

proof fn lemma_marker_facts()
    ensures
        BEGIN@.len() > 0,
        BEGIN@[0] == '#',
        END@.len() > 0,
        END@[0] == '#',
        BEGIN@ != END@,
        trim_newlines(BEGIN@) == BEGIN@,
        trim_newlines(END@) == END@,
        forall|k: int| 0 <= k < BEGIN@.len() ==> BEGIN@[k] != '\n' && BEGIN@[k] != '\r',
        forall|k: int| 0 <= k < END@.len() ==> END@[k] != '\n' && END@[k] != '\r',
{
    reveal_strlit("# BEGIN CONFSET GENERATED FILES");
    reveal_strlit("# END CONFSET GENERATED FILES");
    assert(BEGIN@[2] != END@[2]);
}

/// A marker or plain line followed by a line ending is one line, and its
/// trimmed form is what it was before the ending.
proof fn lemma_line_with_newline(p: Seq<char>, nl: Seq<char>)
    requires
        is_newline(nl),
        forall|k: int| 0 <= k < p.len() ==> p[k] != '\n',
    ensures
        one_line(p + nl),
        trim_newlines(p + nl) == trim_newlines(p),
        lines_from(p + nl, 0) == seq![p + nl],
{
    assert(one_line(p + nl)) by {
        assert forall|k: int| 0 <= k < (p + nl).len() - 1 implies (p + nl)[k] != '\n' by {
            if k >= p.len() {
                assert(nl == seq!['\r', '\n']);
            }
        }
    }
    lemma_trim_breaks(p, nl);
    lemma_one_line(p + nl);
}

/// A plain line is no marker, so it leaves the scan as it was.
proof fn lemma_plain_step(st: Seen, p: Seq<char>, nl: Seq<char>)
    requires
        is_newline(nl),
        plain_line(p),
        st is Ok,
    ensures
        step(st, p + nl) == st,
{
    lemma_marker_facts();
    lemma_line_with_newline(p, nl);
    lemma_trim_prefix(p);
    let tr = trim_newlines(p);
    if tr == BEGIN@ || tr == END@ {
        assert(tr[0] == p[0]);
    }
}

proof fn lemma_pattern_lines_fold(ps: Seq<Seq<char>>, nl: Seq<char>)
    requires
        is_newline(nl),
        forall|k: int| 0 <= k < ps.len() ==> plain_line(#[trigger] ps[k]),
    ensures
        closed_lines(pattern_lines(ps, nl)),
        fold_lines(Ok((true, false)), lines_from(pattern_lines(ps, nl), 0)) == Ok::<(bool, bool), BlockFault>((true, false)),
    decreases ps.len(),
{
    if ps.len() == 0 {
        assert(lines_from(pattern_lines(ps, nl), 0) =~= Seq::<Seq<char>>::empty());
    } else {
        let rest = ps.drop_last();
        assert forall|k: int| 0 <= k < rest.len() implies plain_line(#[trigger] rest[k]) by {
            assert(rest[k] == ps[k]);
        }
        lemma_pattern_lines_fold(rest, nl);
        let x = pattern_lines(rest, nl);
        let last = ps.last();
        assert(plain_line(ps[ps.len() - 1]));
        assert(pattern_lines(ps, nl) =~= x + (last + nl));
        lemma_lines_concat(x, last + nl, 0);
        lemma_line_with_newline(last, nl);
        lemma_fold_concat(Ok((true, false)), lines_from(x, 0), seq![last + nl]);
        lemma_fold_one(Ok((true, false)), last + nl);
        lemma_plain_step(Ok((true, false)), last, nl);
    }
}

/// Scanning a managed block from the start finds both markers.
proof fn lemma_managed_fold(ps: Seq<Seq<char>>, nl: Seq<char>)
    requires
        is_newline(nl),
        forall|k: int| 0 <= k < ps.len() ==> plain_line(#[trigger] ps[k]),
    ensures
        closed_lines(managed_block(ps, nl)),
        fold_lines(Ok((false, false)), lines_from(managed_block(ps, nl), 0)) == Ok::<(bool, bool), BlockFault>((true, true)),
{
    lemma_marker_facts();
    let b = BEGIN@ + nl;
    let pl = pattern_lines(ps, nl);
    let en = END@ + nl;
    lemma_pattern_lines_fold(ps, nl);
    lemma_line_with_newline(BEGIN@, nl);
    lemma_line_with_newline(END@, nl);
    assert(managed_block(ps, nl) =~= b + (pl + en));
    lemma_lines_concat(b, pl + en, 0);
    lemma_lines_concat(pl, en, 0);
    lemma_fold_concat(Ok((false, false)), seq![b], lines_from(pl, 0) + seq![en]);
    lemma_fold_one(Ok((false, false)), b);
    assert(step(Ok((false, false)), b) == Ok::<(bool, bool), BlockFault>((true, false)));
    lemma_fold_concat(Ok((true, false)), lines_from(pl, 0), seq![en]);
    lemma_fold_one(Ok((true, false)), en);
}

/// Once the opening marker is found it stays; once both are found the
/// scan ends as it is or fails.
proof fn lemma_scan_keeps(t: Seq<char>, start: int, acc: Markers)
    ensures
        acc matches Ok((Some(x), _)) ==> (scan_from(t, start, acc) is Err || (scan_from(
            t,
            start,
            acc,
        ) matches Ok((Some(y), _)) && y == x)),
        acc matches Ok((Some(_), Some(_))) ==> (scan_from(t, start, acc) is Err || scan_from(
            t,
            start,
            acc,
        ) == acc),
    decreases t.len() - start,
{
    if 0 <= start < t.len() {
        let e = line_end(t, start);
        if e > start && e <= t.len() {
            let next = scan_line(acc, t.subrange(start, e), start);
            match next {
                Err(f) => {
                    lemma_scan_err(t, e, f);
                },
                Ok(_) => {
                    lemma_scan_keeps(t, e, next);
                },
            }
        }
    }
}

/// Up to the opening marker the scan meets no marker, and the opening
/// marker starts a line.
proof fn lemma_scan_begin(t: Seq<char>, start: int)
    requires
        0 <= start <= t.len(),
        start == 0 || start == t.len() || t[start - 1] == '\n',
    ensures
        scan_from(t, start, Ok((None, None))) matches Ok((Some(s), Some(_))) ==> {
            &&& start <= s < t.len()
            &&& (s == 0 || t[s - 1] == '\n')
            &&& fold_lines(Ok((false, false)), lines_from(t.take(s), start)) == Ok::<
                (bool, bool),
                BlockFault,
            >((false, false))
            &&& trim_newlines(t.subrange(s, line_end(t, s))) == BEGIN@
            &&& scan_from(t, line_end(t, s), Ok((Some(s), None))) == scan_from(
                t,
                start,
                Ok((None, None)),
            )
        },
    decreases t.len() - start,
{
    if start < t.len() {
        lemma_line_end_bounds(t, start);
        lemma_line_end_last(t, start);
        let e = line_end(t, start);
        let line = t.subrange(start, e);
        let tr = trim_newlines(line);
        let acc0: Markers = Ok((None, None));
        let acc1 = scan_line(acc0, line, start);
        assert(scan_from(t, start, acc0) == scan_from(t, e, acc1));
        if tr == BEGIN@ {
            lemma_scan_keeps(t, e, acc1);
            assert(lines_from(t.take(start), start) =~= Seq::<Seq<char>>::empty());
        } else if tr == END@ {
            lemma_scan_err(t, e, BlockFault::Ambiguous);
        } else {
            assert(acc1 == acc0);
            lemma_scan_begin(t, e);
            if let Ok((Some(s), Some(_))) = scan_from(t, start, acc0) {
                let x = t.take(s);
                let y = t.skip(s);
                assert(t =~= x + y);
                lemma_line_end_inside(x, y, start);
                assert(x.subrange(start, e) =~= line);
                let ls = lines_from(x, start);
                assert(ls[0] == line);
                assert(ls.drop_first() =~= lines_from(x, e));
                assert(step(Ok((false, false)), line) == Ok::<(bool, bool), BlockFault>((false, false)));
            }
        }
    }
}

/// After the opening marker, the closing marker ends a line, and what
/// follows it must leave the scan as it is.
proof fn lemma_scan_end(t: Seq<char>, start: int, b: int)
    requires
        0 <= start <= t.len(),
    ensures
        scan_from(t, start, Ok((Some(b), None))) matches Ok((Some(_), Some(e))) ==> {
            &&& start < e <= t.len()
            &&& (e == t.len() || t[e - 1] == '\n')
            &&& scan_from(t, e, Ok((Some(b), Some(e)))) == scan_from(t, start, Ok((Some(b), None)))
        },
    decreases t.len() - start,
{
    if start < t.len() {
        lemma_line_end_bounds(t, start);
        lemma_line_end_last(t, start);
        let e1 = line_end(t, start);
        let line = t.subrange(start, e1);
        let tr = trim_newlines(line);
        let acc0: Markers = Ok((Some(b), None));
        let acc1 = scan_line(acc0, line, start);
        assert(scan_from(t, start, acc0) == scan_from(t, e1, acc1));
        if tr == END@ {
            assert(acc1 == Ok::<(Option<int>, Option<int>), BlockFault>((Some(b), Some(e1))));
            lemma_scan_keeps(t, e1, acc1);
        } else if tr == BEGIN@ {
            lemma_scan_err(t, e1, BlockFault::Ambiguous);
        } else {
            assert(acc1 == acc0);
            lemma_scan_end(t, e1, b);
        }
    } else {
        assert(scan_from(t, start, Ok((Some(b), None))) == Ok::<(Option<int>, Option<int>), BlockFault>((Some(b), None)));
    }
}

/// A text without a block has no line that the scan takes for a marker.
proof fn lemma_no_block_fold(t: Seq<char>)
    ensures
        block_spec(t) == Ok::<Option<(int, int)>, BlockFault>(None) ==> fold_lines(
            Ok((false, false)),
            lines_from(t, 0),
        ) == Ok::<(bool, bool), BlockFault>((false, false)),
{
    lemma_scan_seen(t, 0, Ok((None, None)));
}

/// Closing a last unterminated line with a line ending changes nothing the
/// scan sees.
proof fn lemma_close_last_line(t: Seq<char>, nl: Seq<char>, i: int, st: Seen)
    requires
        is_newline(nl),
        0 <= i < t.len(),
        t.last() != '\n',
    ensures
        fold_lines(st, lines_from(t + nl, i)) == fold_lines(st, lines_from(t, i)),
    decreases t.len() - i,
{
    lemma_line_end_bounds(t, i);
    lemma_line_end_last(t, i);
    let e = line_end(t, i);
    let line = t.subrange(i, e);
    let ls = lines_from(t, i);
    let ms = lines_from(t + nl, i);
    assert(ls[0] == line);
    assert(ls.drop_first() =~= lines_from(t, e));
    if e < t.len() {
        lemma_line_end_inside(t, nl, i);
        assert((t + nl).subrange(i, e) =~= line);
        assert(ms[0] == line);
        assert(ms.drop_first() =~= lines_from(t + nl, e));
        lemma_close_last_line(t, nl, e, step(st, line));
    } else {
        lemma_line_end_runs_on(t, nl, i);
        assert(one_line(nl)) by {
            if nl == seq!['\r', '\n'] {
                assert(nl[0] != '\n');
            }
        }
        lemma_one_line_end(nl, 0);
        let whole = (t + nl).subrange(i, (t + nl).len() as int);
        assert(whole =~= line + nl);
        assert(ms[0] == whole);
        assert(lines_from(t + nl, (t + nl).len() as int) =~= Seq::<Seq<char>>::empty());
        assert(ms.drop_first() =~= Seq::<Seq<char>>::empty());
        assert(lines_from(t, e) =~= Seq::<Seq<char>>::empty());
        lemma_trim_breaks(line, nl);
        assert(step(st, line + nl) == step(st, line));
    }
}

/// The text in front of an appended block ends a line and holds no marker
/// line.
proof fn lemma_prefix_before_append(t: Seq<char>, nl: Seq<char>)
    requires
        is_newline(nl),
        fold_lines(Ok((false, false)), lines_from(t, 0)) == Ok::<(bool, bool), BlockFault>((false, false)),
    ensures
        ({
            let a = if t.len() > 0 && t.last() != '\n' {
                t + nl
            } else {
                t
            };
            let b = if a.len() > 0 && !ends_with(a, nl + nl) {
                a + nl
            } else {
                a
            };
            closed_lines(b) && fold_lines(Ok((false, false)), lines_from(b, 0)) == Ok::<
                (bool, bool),
                BlockFault,
            >((false, false))
        }),
{
    let ff: Seen = Ok((false, false));
    let a = if t.len() > 0 && t.last() != '\n' {
        t + nl
    } else {
        t
    };
    if t.len() > 0 && t.last() != '\n' {
        lemma_close_last_line(t, nl, 0, ff);
    }
    assert(closed_lines(a));
    if a.len() > 0 && !ends_with(a, nl + nl) {
        lemma_lines_concat(a, nl, 0);
        lemma_line_with_newline(Seq::empty(), nl);
        assert(Seq::<char>::empty() + nl =~= nl);
        lemma_fold_concat(ff, lines_from(a, 0), seq![nl]);
        lemma_fold_one(ff, nl);
        lemma_marker_facts();
        assert(trim_newlines(Seq::<char>::empty()) =~= Seq::<char>::empty());
        assert(step(ff, nl) == ff);
    }
}

/// Each pattern of the managed block is a plain line.
proof fn lemma_patterns_plain(root: Seq<Seq<char>>, paths: Seq<Seq<Seq<char>>>, p: Seq<char>)
    requires
        pattern_set(root, paths, paths.len() as int).contains(p),
    ensures
        plain_line(p),
{
    if p == STATE_PATTERN@ {
        reveal_strlit("/.confset/");
        assert(p =~= seq!['/', '.', 'c', 'o', 'n', 'f', 's', 'e', 't', '/']);
    } else if p == STAGE_PATTERN@ {
        reveal_strlit(".confset-stage-*");
        assert(p =~= seq!['.', 'c', 'o', 'n', 'f', 's', 'e', 't', '-', 's', 't', 'a', 'g', 'e', '-', '*']);
    } else {
        let i = choose|i: int|
            0 <= i < paths.len() && is_prefix(root, #[trigger] paths[i]) && pattern_spec(
                paths[i].skip(root.len() as int),
            ) == Ok::<Seq<char>, PatternFault>(p);
        let parts = paths[i].skip(root.len() as int);
        let checks = parts.map_values(|q: Seq<char>| part_fault(q));
        lemma_first_failure_none_all(checks);
        assert forall|k: int| 0 <= k < parts.len() implies lacks(#[trigger] parts[k], '\n') && lacks(
            parts[k],
            '\r',
        ) by {
            assert(checks[k] is None);
            if exists|j: int| 0 <= j < parts[k].len() && parts[k][j] == '\n' {
                let j = choose|j: int| 0 <= j < parts[k].len() && parts[k][j] == '\n';
                assert(parts[k].contains('\n'));
            }
            if exists|j: int| 0 <= j < parts[k].len() && parts[k][j] == '\r' {
                let j = choose|j: int| 0 <= j < parts[k].len() && parts[k][j] == '\r';
                assert(parts[k].contains('\r'));
            }
        }
        lemma_join_lacks(parts, '\n');
        lemma_join_lacks(parts, '\r');
        assert(p == seq!['/'] + join_escaped(parts));
        assert(p[0] == '/');
        assert forall|k: int| 0 <= k < p.len() implies p[k] != '\n' && p[k] != '\r' by {
            if k > 0 {
                assert(p[k] == join_escaped(parts)[k - 1]);
            }
        }
    }
}

/// The text holds no `c`.
spec fn lacks(s: Seq<char>, c: char) -> bool {
    forall|k: int| 0 <= k < s.len() ==> s[k] != c
}

proof fn lemma_escape_lacks(s: Seq<char>, c: char)
    requires
        lacks(s, c),
        c != '\\',
    ensures
        lacks(escape(s), c),
    decreases s.len(),
{
    if s.len() > 0 {
        assert(lacks(s.drop_last(), c)) by {
            assert forall|k: int| 0 <= k < s.drop_last().len() implies s.drop_last()[k] != c by {
                assert(s.drop_last()[k] == s[k]);
            }
        }
        lemma_escape_lacks(s.drop_last(), c);
        assert(s.last() == s[s.len() - 1]);
    }
}

proof fn lemma_join_lacks(parts: Seq<Seq<char>>, c: char)
    requires
        forall|k: int| 0 <= k < parts.len() ==> lacks(#[trigger] parts[k], c),
        c != '\\',
        c != '/',
    ensures
        lacks(join_escaped(parts), c),
    decreases parts.len(),
{
    if parts.len() == 1 {
        lemma_escape_lacks(parts[0], c);
    } else if parts.len() > 1 {
        let rest = parts.drop_last();
        assert forall|k: int| 0 <= k < rest.len() implies lacks(#[trigger] rest[k], c) by {
            assert(rest[k] == parts[k]);
        }
        lemma_join_lacks(rest, c);
        assert(lacks(parts[parts.len() - 1], c));
        lemma_escape_lacks(parts.last(), c);
    }
}

/// Offsets moved by `d`.
spec fn shift(m: Markers, d: int) -> Markers {
    match m {
        Err(f) => Err(f),
        Ok((b, e)) => Ok(
            (
                match b {
                    Some(x) => Some(x + d),
                    None => None,
                },
                match e {
                    Some(x) => Some(x + d),
                    None => None,
                },
            ),
        ),
    }
}

/// Scanning text that follows `x` finds what scanning it alone finds,
/// moved by the length of `x`.
proof fn lemma_scan_shift(x: Seq<char>, y: Seq<char>, j: int, acc: Markers)
    requires
        0 <= j,
    ensures
        scan_from(x + y, x.len() + j, shift(acc, x.len() as int)) == shift(
            scan_from(y, j, acc),
            x.len() as int,
        ),
    decreases y.len() - j,
{
    if j < y.len() {
        lemma_line_end_shift(x, y, j);
        lemma_line_end_bounds(y, j);
        let e = line_end(y, j);
        let line = y.subrange(j, e);
        assert((x + y).subrange(x.len() + j, x.len() + e) =~= line);
        assert(scan_line(shift(acc, x.len() as int), line, x.len() + j) == shift(
            scan_line(acc, line, j),
            x.len() as int,
        ));
        lemma_scan_shift(x, y, e, scan_line(acc, line, j));
    }
}

/// Scanning text made of complete lines and more goes through the first
/// part, then on.
proof fn lemma_scan_concat(x: Seq<char>, y: Seq<char>, i: int, acc: Markers)
    requires
        closed_lines(x),
        0 <= i <= x.len(),
    ensures
        scan_from(x + y, i, acc) == scan_from(x + y, x.len() as int, scan_from(x, i, acc)),
    decreases x.len() - i,
{
    if i < x.len() {
        lemma_line_end_inside(x, y, i);
        lemma_line_end_bounds(x, i);
        let e = line_end(x, i);
        assert((x + y).subrange(i, e) =~= x.subrange(i, e));
        lemma_scan_concat(x, y, e, scan_line(acc, x.subrange(i, e), i));
    }
}

/// No line is a marker (lines compared without trailing line breaks).
pub open spec fn quiet(ls: Seq<Seq<char>>) -> bool {
    forall|k: int|
        0 <= k < ls.len() ==> trim_newlines(#[trigger] ls[k]) != BEGIN@ && trim_newlines(ls[k]) != END@
}

proof fn lemma_scan_quiet(t: Seq<char>, start: int, acc: Markers)
    requires
        0 <= start,
        acc is Ok,
        quiet(lines_from(t, start)),
    ensures
        scan_from(t, start, acc) == acc,
    decreases t.len() - start,
{
    if start < t.len() {
        lemma_line_end_bounds(t, start);
        let e = line_end(t, start);
        let ls = lines_from(t, start);
        assert(ls[0] == t.subrange(start, e));
        assert(ls.drop_first() =~= lines_from(t, e));
        assert forall|k: int| 0 <= k < lines_from(t, e).len() implies trim_newlines(
            #[trigger] lines_from(t, e)[k],
        ) != BEGIN@ && trim_newlines(lines_from(t, e)[k]) != END@ by {
            assert(lines_from(t, e)[k] == ls[k + 1]);
        }
        lemma_scan_quiet(t, e, acc);
    }
}

/// A fault stays, and a marker once met stays met.
proof fn lemma_fold_monotone(st: Seen, ls: Seq<Seq<char>>)
    ensures
        st is Err ==> fold_lines(st, ls) is Err,
        st matches Ok((true, _)) ==> (fold_lines(st, ls) is Err || fold_lines(st, ls) matches Ok((true, _))),
        st matches Ok((_, true)) ==> (fold_lines(st, ls) is Err || fold_lines(st, ls) matches Ok((_, true))),
    decreases ls.len(),
{
    if ls.len() > 0 {
        lemma_fold_monotone(step(st, ls[0]), ls.drop_first());
    }
}

/// Lines that leave the scan where it was hold no marker.
proof fn lemma_fold_quiet(st: Seen, ls: Seq<Seq<char>>)
    requires
        st == Ok::<(bool, bool), BlockFault>((false, false)) || st == Ok::<(bool, bool), BlockFault>(
            (true, false),
        ) || st == Ok::<(bool, bool), BlockFault>((true, true)),
        fold_lines(st, ls) == st,
    ensures
        quiet(ls),
    decreases ls.len(),
{
    if ls.len() > 0 {
        let tr = trim_newlines(ls[0]);
        let next = step(st, ls[0]);
        lemma_fold_monotone(next, ls.drop_first());
        lemma_marker_facts();
        if tr == BEGIN@ || tr == END@ {
            assert(false);
        }
        assert(next == st);
        lemma_fold_quiet(st, ls.drop_first());
        assert forall|k: int| 0 <= k < ls.len() implies trim_newlines(#[trigger] ls[k]) != BEGIN@
            && trim_newlines(ls[k]) != END@ by {
            if k > 0 {
                assert(ls[k] == ls.drop_first()[k - 1]);
            }
        }
    }
}

proof fn lemma_scan_one_line(z: Seq<char>, acc: Markers)
    requires
        one_line(z),
    ensures
        scan_from(z, 0, acc) == scan_line(acc, z, 0),
{
    lemma_one_line_end(z, 0);
    assert(z.subrange(0, z.len() as int) =~= z);
    assert(scan_from(z, z.len() as int, scan_line(acc, z, 0)) == scan_line(acc, z, 0));
}

/// Scanning a managed block alone finds it from its first character to
/// its end.
proof fn lemma_managed_scan(ps: Seq<Seq<char>>, nl: Seq<char>)
    requires
        is_newline(nl),
        forall|k: int| 0 <= k < ps.len() ==> plain_line(#[trigger] ps[k]),
    ensures
        scan_from(managed_block(ps, nl), 0, Ok((None, None))) == Ok::<(Option<int>, Option<int>), BlockFault>(
            (Some(0), Some(managed_block(ps, nl).len() as int)),
        ),
{
    lemma_marker_facts();
    let b = BEGIN@ + nl;
    let pl = pattern_lines(ps, nl);
    let en = END@ + nl;
    let m = managed_block(ps, nl);
    assert(m =~= b + (pl + en));
    lemma_line_with_newline(BEGIN@, nl);
    lemma_line_with_newline(END@, nl);
    lemma_pattern_lines_fold(ps, nl);
    lemma_fold_quiet(Ok((true, false)), lines_from(pl, 0));
    let ff: Markers = Ok((None, None));
    lemma_scan_one_line(b, ff);
    assert(scan_from(b, 0, ff) == Ok::<(Option<int>, Option<int>), BlockFault>((Some(0), None)));
    lemma_scan_concat(b, pl + en, 0, ff);
    let acc2: Markers = Ok((Some(-(b.len() as int)), None));
    assert(shift(acc2, b.len() as int) == Ok::<(Option<int>, Option<int>), BlockFault>((Some(0), None)));
    lemma_scan_shift(b, pl + en, 0, acc2);
    lemma_scan_concat(pl, en, 0, acc2);
    lemma_scan_quiet(pl, 0, acc2);
    let acc3: Markers = Ok((Some(-(b.len() as int) - pl.len()), None));
    assert(shift(acc3, pl.len() as int) == acc2);
    lemma_scan_shift(pl, en, 0, acc3);
    lemma_scan_one_line(en, acc3);
    assert(scan_from(en, 0, acc3) == Ok::<(Option<int>, Option<int>), BlockFault>(
        (Some(-(b.len() as int) - pl.len()), Some(en.len() as int)),
    ));
}

/// A managed block between complete lines that hold no marker is the block
/// found, exactly where it stands.
proof fn lemma_block_at(p: Seq<char>, q: Seq<char>, ps: Seq<Seq<char>>, nl: Seq<char>)
    requires
        is_newline(nl),
        forall|k: int| 0 <= k < ps.len() ==> plain_line(#[trigger] ps[k]),
        closed_lines(p),
        quiet(lines_from(p, 0)),
        quiet(lines_from(q, 0)),
    ensures
        block_spec(p + managed_block(ps, nl) + q) == Ok::<Option<(int, int)>, BlockFault>(
            Some((p.len() as int, (p.len() + managed_block(ps, nl).len()) as int)),
        ),
{
    let m = managed_block(ps, nl);
    let out = p + m + q;
    assert(out =~= p + (m + q));
    let ff: Markers = Ok((None, None));
    lemma_scan_concat(p, m + q, 0, ff);
    lemma_scan_quiet(p, 0, ff);
    assert(shift(ff, p.len() as int) == ff);
    lemma_scan_shift(p, m + q, 0, ff);
    lemma_managed_fold(ps, nl);
    lemma_managed_scan(ps, nl);
    lemma_scan_concat(m, q, 0, ff);
    lemma_lines_shift(m, q, 0);
    lemma_scan_quiet(m + q, m.len() as int, Ok((Some(0), Some(m.len() as int))));
}

/// A file whose last line ends in a lone carriage return, with no CRLF
/// anywhere and no managed block: appending the block's separating line
/// feed makes its first CRLF.
pub open spec fn ends_in_lone_cr(t: Seq<char>) -> bool {
    block_spec(t) == Ok::<Option<(int, int)>, BlockFault>(None) && t.len() > 0 && t.last() == '\r'
        && !has_crlf(t)
}

proof fn lemma_crlf_concat(x: Seq<char>, y: Seq<char>)
    ensures
        has_crlf(x + y) == (has_crlf(x) || has_crlf(y) || (x.len() > 0 && y.len() > 0 && x.last()
            == '\r' && y[0] == '\n')),
{
    let z = x + y;
    if has_crlf(z) {
        let i = choose|i: int| 0 <= i && i + 1 < z.len() && #[trigger] z[i] == '\r' && z[i + 1] == '\n';
        if i + 1 < x.len() {
            assert(x[i] == '\r' && x[i + 1] == '\n');
        } else if i >= x.len() {
            let j = i - x.len();
            assert(y[j] == z[i]);
            assert(y[j + 1] == z[i + 1]);
        } else {
            assert(x.last() == z[i]);
            assert(y[0] == z[i + 1]);
        }
    }
    if has_crlf(x) {
        let i = choose|i: int| 0 <= i && i + 1 < x.len() && #[trigger] x[i] == '\r' && x[i + 1] == '\n';
        assert(z[i] == x[i] && z[i + 1] == x[i + 1]);
    }
    if has_crlf(y) {
        let j = choose|j: int| 0 <= j && j + 1 < y.len() && #[trigger] y[j] == '\r' && y[j + 1] == '\n';
        assert(z[x.len() + j] == y[j] && z[x.len() + j + 1] == y[j + 1]);
    }
    if x.len() > 0 && y.len() > 0 && x.last() == '\r' && y[0] == '\n' {
        assert(z[x.len() - 1] == x.last() && z[x.len() as int] == y[0]);
    }
}

proof fn lemma_lacks_no_crlf(t: Seq<char>)
    requires
        lacks(t, '\r'),
    ensures
        !has_crlf(t),
{
    if has_crlf(t) {
        let i = choose|i: int| 0 <= i && i + 1 < t.len() && #[trigger] t[i] == '\r' && t[i + 1] == '\n';
    }
}

proof fn lemma_lacks_concat(a: Seq<char>, b: Seq<char>, c: char)
    requires
        lacks(a, c),
        lacks(b, c),
    ensures
        lacks(a + b, c),
{
    assert forall|k: int| 0 <= k < (a + b).len() implies (a + b)[k] != c by {
        if k >= a.len() {
            assert((a + b)[k] == b[k - a.len()]);
        }
    }
}

proof fn lemma_pattern_lines_lacks_cr(ps: Seq<Seq<char>>, nl: Seq<char>)
    requires
        lacks(nl, '\r'),
        forall|k: int| 0 <= k < ps.len() ==> plain_line(#[trigger] ps[k]),
    ensures
        lacks(pattern_lines(ps, nl), '\r'),
    decreases ps.len(),
{
    if ps.len() > 0 {
        let rest = ps.drop_last();
        assert forall|k: int| 0 <= k < rest.len() implies plain_line(#[trigger] rest[k]) by {
            assert(rest[k] == ps[k]);
        }
        lemma_pattern_lines_lacks_cr(rest, nl);
        assert(plain_line(ps[ps.len() - 1]));
        lemma_lacks_concat(pattern_lines(rest, nl), ps.last(), '\r');
        lemma_lacks_concat(pattern_lines(rest, nl) + ps.last(), nl, '\r');
    }
}

/// A managed block holds a CRLF exactly when it is written with CRLF line
/// endings.
proof fn lemma_managed_crlf(ps: Seq<Seq<char>>, nl: Seq<char>)
    requires
        is_newline(nl),
        forall|k: int| 0 <= k < ps.len() ==> plain_line(#[trigger] ps[k]),
    ensures
        has_crlf(managed_block(ps, nl)) == (nl == seq!['\r', '\n']),
        managed_block(ps, nl).last() == '\n',
        managed_block(ps, nl)[0] == '#',
{
    lemma_marker_facts();
    let m = managed_block(ps, nl);
    assert(m[0] == BEGIN@[0]);
    assert(m.last() == nl.last());
    if nl == seq!['\r', '\n'] {
        let i = BEGIN@.len() as int;
        assert(m[i] == nl[0] && m[i + 1] == nl[1]);
    } else {
        assert(lacks(nl, '\r'));
        lemma_pattern_lines_lacks_cr(ps, nl);
        lemma_lacks_concat(BEGIN@, nl, '\r');
        lemma_lacks_concat(BEGIN@ + nl, pattern_lines(ps, nl), '\r');
        lemma_lacks_concat(BEGIN@ + nl + pattern_lines(ps, nl), END@, '\r');
        lemma_lacks_concat(BEGIN@ + nl + pattern_lines(ps, nl) + END@, nl, '\r');
        lemma_lacks_no_crlf(m);
    }
}

/// The text in front of a managed block and the text after it.
spec fn front(t: Seq<char>, found: Option<(int, int)>) -> Seq<char> {
    match found {
        Some((s, _)) => t.take(s),
        None => {
            let nl = newline_of(t);
            let a = if t.len() > 0 && t.last() != '\n' {
                t + nl
            } else {
                t
            };
            if a.len() > 0 && !ends_with(a, nl + nl) {
                a + nl
            } else {
                a
            }
        },
    }
}

spec fn back(t: Seq<char>, found: Option<(int, int)>) -> Seq<char> {
    match found {
        Some((_, e)) => t.skip(e),
        None => Seq::empty(),
    }
}

/// An updated text is the managed block between complete lines that hold
/// no marker.
proof fn lemma_update_parts(t: Seq<char>, ps: Seq<Seq<char>>)
    requires
        block_spec(t) is Ok,
    ensures
        ({
            let found = block_spec(t)->Ok_0;
            &&& updated_text(t, ps, found) == front(t, found) + managed_block(ps, newline_of(t))
                + back(t, found)
            &&& closed_lines(front(t, found))
            &&& fold_lines(Ok((false, false)), lines_from(front(t, found), 0)) == Ok::<
                (bool, bool),
                BlockFault,
            >((false, false))
            &&& fold_lines(Ok((true, true)), lines_from(back(t, found), 0)) == Ok::<
                (bool, bool),
                BlockFault,
            >((true, true))
            &&& found matches Some((s, e)) ==> 0 <= s < e <= t.len() && (e == t.len() || t[e - 1]
                == '\n')
        }),
{
    let found = block_spec(t)->Ok_0;
    let m = managed_block(ps, newline_of(t));
    match found {
        Some((s, e)) => {
            lemma_scan_begin(t, 0);
            lemma_line_end_bounds(t, s);
            lemma_scan_end(t, line_end(t, s), s);
            lemma_scan_seen(t, e, Ok((Some(s), Some(e))));
            let q = t.skip(e);
            assert(t =~= t.take(e) + q);
            lemma_lines_shift(t.take(e), q, 0);
            assert(updated_text(t, ps, found) == t.take(s) + m + q);
        },
        None => {
            lemma_no_block_fold(t);
            lemma_prefix_before_append(t, newline_of(t));
            assert(lines_from(Seq::<char>::empty(), 0) =~= Seq::<Seq<char>>::empty());
            assert(updated_text(t, ps, found) =~= front(t, found) + m + back(t, found));
        },
    }
}

/// Updating keeps the file's line ending, except after a lone carriage
/// return at the end of a file without CRLF.
proof fn lemma_newline_kept(t: Seq<char>, ps: Seq<Seq<char>>)
    requires
        block_spec(t) is Ok,
        !ends_in_lone_cr(t),
        forall|k: int| 0 <= k < ps.len() ==> plain_line(#[trigger] ps[k]),
    ensures
        newline_of(updated_text(t, ps, block_spec(t)->Ok_0)) == newline_of(t),
{
    let found = block_spec(t)->Ok_0;
    let nl = newline_of(t);
    let m = managed_block(ps, nl);
    lemma_update_parts(t, ps);
    lemma_managed_crlf(ps, nl);
    let f = front(t, found);
    let b = back(t, found);
    let out = updated_text(t, ps, found);
    assert(out =~= f + (m + b));
    lemma_crlf_concat(f, m + b);
    lemma_crlf_concat(m, b);
    match found {
        Some((s, e)) => {
            let r = t.subrange(s, e);
            assert(t =~= f + (r + b));
            lemma_crlf_concat(f, r + b);
            lemma_crlf_concat(r, b);
            if b.len() > 0 {
                assert(r.last() == t[e - 1]);
            }
            if has_crlf(t) {
                if has_crlf(r) {
                    assert(nl == seq!['\r', '\n']);
                }
            }
        },
        None => {
            if has_crlf(t) {
                let rest = f.skip(t.len() as int);
                assert(f =~= t + rest);
                lemma_crlf_concat(t, rest);
            } else {
                assert(nl == seq!['\n']);
                let a = if t.len() > 0 && t.last() != '\n' {
                    t + nl
                } else {
                    t
                };
                lemma_crlf_concat(t, nl);
                lemma_crlf_concat(a, nl);
                assert(!has_crlf(nl));
                assert(a.len() > 0 ==> a.last() == '\n');
            }
        },
    }
}

/// Two strictly sorted sequences with the same elements are the same.
proof fn lemma_sorted_unique(a: Seq<Seq<char>>, b: Seq<Seq<char>>)
    requires
        strictly_sorted(a),
        strictly_sorted(b),
        a.to_set() == b.to_set(),
    ensures
        a == b,
    decreases a.len(),
{
    if a.len() == 0 {
        if b.len() > 0 {
            assert(b.to_set().contains(b[0]));
        }
        assert(a =~= b);
    } else {
        assert(a.to_set().contains(a[0]));
        assert(b.len() > 0);
        assert(b.to_set().contains(b[0]));
        let k = choose|k: int| 0 <= k < b.len() && b[k] == a[0];
        let j = choose|j: int| 0 <= j < a.len() && a[j] == b[0];
        if k > 0 {
            assert(chars_lt(b[0], b[k]));
            if j > 0 {
                assert(chars_lt(a[0], a[j]));
                crate::text::lemma_chars_lt_asymmetric(a[0], b[0]);
            } else {
                crate::text::lemma_chars_lt_irreflexive(a[0]);
            }
        }
        assert(a[0] == b[0]);
        let a1 = a.drop_first();
        let b1 = b.drop_first();
        assert(a1.to_set() =~= b1.to_set()) by {
            assert forall|x: Seq<char>| a1.to_set().contains(x) implies b1.to_set().contains(x) by {
                let i = choose|i: int| 0 <= i < a1.len() && a1[i] == x;
                assert(a.to_set().contains(a[i + 1]));
                assert(chars_lt(a[0], a[i + 1]));
                crate::text::lemma_chars_lt_irreflexive(a[0]);
                let i2 = choose|i2: int| 0 <= i2 < b.len() && b[i2] == x;
                assert(i2 != 0);
                assert(b1[i2 - 1] == x);
            }
            assert forall|x: Seq<char>| b1.to_set().contains(x) implies a1.to_set().contains(x) by {
                let i = choose|i: int| 0 <= i < b1.len() && b1[i] == x;
                assert(b.to_set().contains(b[i + 1]));
                assert(chars_lt(b[0], b[i + 1]));
                crate::text::lemma_chars_lt_irreflexive(b[0]);
                let i2 = choose|i2: int| 0 <= i2 < a.len() && a[i2] == x;
                assert(i2 != 0);
                assert(a1[i2 - 1] == x);
            }
        }
        lemma_sorted_unique(a1, b1);
        assert(a =~= b) by {
            assert forall|i: int| 0 <= i < a.len() implies a[i] == b[i] by {
                if i > 0 {
                    assert(a[i] == a1[i - 1]);
                    assert(b[i] == b1[i - 1]);
                }
            }
        }
    }
}

/// Where the managed block of an updated text stands: right after the text
/// in front of it, which ends a line.
proof fn lemma_update_layout(
    root: Seq<Seq<char>>,
    paths: Seq<Seq<Seq<char>>>,
    t: Seq<char>,
    ps: Seq<Seq<char>>,
)
    requires
        ps.to_set() == pattern_set(root, paths, paths.len() as int),
        block_spec(t) is Ok,
    ensures
        forall|k: int| 0 <= k < ps.len() ==> plain_line(#[trigger] ps[k]),
        block_spec(updated_text(t, ps, block_spec(t)->Ok_0)) == Ok::<Option<(int, int)>, BlockFault>(
            Some(
                (
                    front(t, block_spec(t)->Ok_0).len() as int,
                    (front(t, block_spec(t)->Ok_0).len() + managed_block(ps, newline_of(t)).len()) as int,
                ),
            ),
        ),
        updated_text(t, ps, block_spec(t)->Ok_0) == front(t, block_spec(t)->Ok_0) + managed_block(
            ps,
            newline_of(t),
        ) + back(t, block_spec(t)->Ok_0),
{
    let found = block_spec(t)->Ok_0;
    let nl = newline_of(t);
    assert forall|k: int| 0 <= k < ps.len() implies plain_line(#[trigger] ps[k]) by {
        assert(ps.to_set().contains(ps[k]));
        lemma_patterns_plain(root, paths, ps[k]);
    }
    lemma_update_parts(t, ps);
    lemma_fold_quiet(Ok((false, false)), lines_from(front(t, found), 0));
    lemma_fold_quiet(Ok((true, true)), lines_from(back(t, found), 0));
    lemma_block_at(front(t, found), back(t, found), ps, nl);
}

/// Rewriting an ignore file keeps everything outside its managed block:
/// the text before and after an existing block stays as it was, and a text
/// without a block stays in front of the appended one.
pub proof fn law_update_keeps_manual_text(t: Seq<char>, ps: Seq<Seq<char>>)
    requires
        block_spec(t) is Ok,
    ensures
        ({
            let out = updated_text(t, ps, block_spec(t)->Ok_0);
            match block_spec(t)->Ok_0 {
                Some((s, e)) => out.take(s) == t.take(s) && out.skip(out.len() - (t.len() - e)) == t.skip(e),
                None => out.take(t.len() as int) == t,
            }
        }),
{
    lemma_block_bounds(t);
    let out = updated_text(t, ps, block_spec(t)->Ok_0);
    let nl = newline_of(t);
    let managed = managed_block(ps, nl);
    match block_spec(t)->Ok_0 {
        Some((s, e)) => {
            assert(out == t.take(s) + managed + t.skip(e));
            assert(out.take(s) =~= t.take(s));
            assert(out.skip(out.len() - (t.len() - e)) =~= t.skip(e));
        },
        None => {
            let a = if t.len() > 0 && t.last() != '\n' {
                t + nl
            } else {
                t
            };
            let b = if a.len() > 0 && !ends_with(a, nl + nl) {
                a + nl
            } else {
                a
            };
            assert(out == b + managed);
            assert(a.take(t.len() as int) =~= t);
            assert(b.take(t.len() as int) =~= t);
            assert(out.take(t.len() as int) =~= t);
        },
    }
}

/// Once an update has written the managed block, the file counts as opted
/// in: whatever it held before, the bytes an update yields always hold a
/// block, so later generations keep it synchronized.
pub proof fn law_update_enables_block(
    root: Seq<Seq<char>>,
    paths: Seq<Seq<Seq<char>>>,
    original: Option<Seq<u8>>,
    ps: Seq<Seq<char>>,
)
    requires
        ps.to_set() == pattern_set(root, paths, paths.len() as int),
        update_spec(root, paths, original, ps) is Ok,
    ensures
        enabled_spec(Some(update_spec(root, paths, original, ps)->Ok_0)) == Ok::<bool, IgnoreFault>(
            true,
        ),
{
    let t = ignore_text(original);
    let found = block_spec(t)->Ok_0;
    let out = updated_text(t, ps, found);
    lemma_update_layout(root, paths, t, ps);
    vstd::utf8::encode_utf8_valid_utf8(out);
    vstd::utf8::encode_utf8_decode_utf8(out);
}

/// Updating is idempotent: updating the bytes that an update yielded, with
/// the same destinations, gives them back unchanged, so a repeated
/// generation leaves the ignore file as it is. The one exception is a file
/// without a block whose last line ends in a lone carriage return and that
/// holds no CRLF: the line feed appended after that line makes a CRLF,
/// which the next update then follows.
pub proof fn law_update_is_idempotent(
    root: Seq<Seq<char>>,
    paths: Seq<Seq<Seq<char>>>,
    original: Option<Seq<u8>>,
    os: Seq<Seq<char>>,
    qs: Seq<Seq<char>>,
)
    requires
        block_order(os, root, paths),
        block_order(qs, root, paths),
        update_spec(root, paths, original, block_lines(os)) is Ok,
        !ends_in_lone_cr(ignore_text(original)),
    ensures
        update_spec(root, paths, Some(update_spec(root, paths, original, block_lines(os))->Ok_0), block_lines(qs))
            == update_spec(root, paths, original, block_lines(os)),
{
    lemma_sorted_unique(os, qs);
    lemma_block_lines_set(os, root, paths);
    let ps = block_lines(os);
    let t = ignore_text(original);
    let found = block_spec(t)->Ok_0;
    let nl = newline_of(t);
    let m = managed_block(ps, nl);
    let out = updated_text(t, ps, found);
    lemma_update_layout(root, paths, t, ps);
    let f = front(t, found);
    lemma_newline_kept(t, ps);
    vstd::utf8::encode_utf8_valid_utf8(out);
    vstd::utf8::encode_utf8_decode_utf8(out);
    assert(updated_text(out, ps, Some((f.len() as int, (f.len() + m.len()) as int))) =~= out);
}

/// Some line is the closing marker and no other line is a marker.
pub open spec fn closes(ls: Seq<Seq<char>>) -> bool {
    exists|j: int|
        0 <= j < ls.len() && trim_newlines(#[trigger] ls[j]) == END@ && quiet(ls.take(j)) && quiet(
            ls.skip(j + 1),
        )
}

/// One line is the opening marker, a later one the closing marker, and no
/// other line is a marker.
pub open spec fn marked_once(ls: Seq<Seq<char>>) -> bool {
    exists|i: int|
        0 <= i < ls.len() && trim_newlines(#[trigger] ls[i]) == BEGIN@ && quiet(ls.take(i)) && closes(
            ls.skip(i + 1),
        )
}

proof fn lemma_quiet_fold(st: Seen, ls: Seq<Seq<char>>)
    requires
        st is Ok,
        quiet(ls),
    ensures
        fold_lines(st, ls) == st,
    decreases ls.len(),
{
    if ls.len() > 0 {
        assert(trim_newlines(ls[0]) != BEGIN@ && trim_newlines(ls[0]) != END@);
        assert(quiet(ls.drop_first())) by {
            assert forall|k: int| 0 <= k < ls.drop_first().len() implies trim_newlines(
                #[trigger] ls.drop_first()[k],
            ) != BEGIN@ && trim_newlines(ls.drop_first()[k]) != END@ by {
                assert(ls.drop_first()[k] == ls[k + 1]);
            }
        }
        lemma_quiet_fold(st, ls.drop_first());
    }
}

/// A quiet run with one more quiet line in front is quiet, and the other
/// way round.
proof fn lemma_quiet_front(ls: Seq<Seq<char>>)
    requires
        ls.len() > 0,
    ensures
        quiet(ls) == (trim_newlines(ls[0]) != BEGIN@ && trim_newlines(ls[0]) != END@ && quiet(
            ls.drop_first(),
        )),
{
    if quiet(ls) {
        assert(trim_newlines(ls[0]) != BEGIN@);
        assert forall|k: int| 0 <= k < ls.drop_first().len() implies trim_newlines(
            #[trigger] ls.drop_first()[k],
        ) != BEGIN@ && trim_newlines(ls.drop_first()[k]) != END@ by {
            assert(ls.drop_first()[k] == ls[k + 1]);
        }
    }
    if trim_newlines(ls[0]) != BEGIN@ && trim_newlines(ls[0]) != END@ && quiet(ls.drop_first()) {
        assert forall|k: int| 0 <= k < ls.len() implies trim_newlines(#[trigger] ls[k]) != BEGIN@
            && trim_newlines(ls[k]) != END@ by {
            if k > 0 {
                assert(ls[k] == ls.drop_first()[k - 1]);
            }
        }
    }
}

proof fn lemma_fold_closes(ls: Seq<Seq<char>>)
    ensures
        (fold_lines(Ok((true, false)), ls) == Ok::<(bool, bool), BlockFault>((true, true))) == closes(ls),
    decreases ls.len(),
{
    lemma_marker_facts();
    let tf: Seen = Ok((true, false));
    let tt: Seen = Ok((true, true));
    if ls.len() == 0 {
        assert(!closes(ls));
    } else {
        let rest = ls.drop_first();
        let tr = trim_newlines(ls[0]);
        lemma_fold_closes(rest);
        lemma_fold_monotone(Err(BlockFault::Ambiguous), rest);
        if tr == END@ {
            if quiet(rest) {
                lemma_quiet_fold(tt, rest);
                assert(ls.take(0) =~= Seq::<Seq<char>>::empty());
                assert(ls.skip(1) =~= rest);
                assert(closes(ls));
            } else {
                if fold_lines(tt, rest) == tt {
                    lemma_fold_quiet(tt, rest);
                }
                if closes(ls) {
                    let j = choose|j: int|
                        0 <= j < ls.len() && trim_newlines(#[trigger] ls[j]) == END@ && quiet(ls.take(j)) && quiet(
                            ls.skip(j + 1),
                        );
                    if j == 0 {
                        assert(ls.skip(1) =~= rest);
                    } else {
                        assert(ls.take(j)[0] == ls[0]);
                    }
                }
            }
        } else if tr == BEGIN@ {
            if closes(ls) {
                let j = choose|j: int|
                    0 <= j < ls.len() && trim_newlines(#[trigger] ls[j]) == END@ && quiet(ls.take(j)) && quiet(
                        ls.skip(j + 1),
                    );
                if j > 0 {
                    assert(ls.take(j)[0] == ls[0]);
                }
            }
        } else {
            assert(step(tf, ls[0]) == tf);
            if closes(rest) {
                let j = choose|j: int|
                    0 <= j < rest.len() && trim_newlines(#[trigger] rest[j]) == END@ && quiet(rest.take(j))
                        && quiet(rest.skip(j + 1));
                assert(ls[j + 1] == rest[j]);
                assert(ls.take(j + 1).drop_first() =~= rest.take(j));
                lemma_quiet_front(ls.take(j + 1));
                assert(ls.skip(j + 2) =~= rest.skip(j + 1));
                assert(closes(ls));
            }
            if closes(ls) {
                let j = choose|j: int|
                    0 <= j < ls.len() && trim_newlines(#[trigger] ls[j]) == END@ && quiet(ls.take(j)) && quiet(
                        ls.skip(j + 1),
                    );
                assert(j > 0);
                assert(rest[j - 1] == ls[j]);
                assert(ls.take(j).drop_first() =~= rest.take(j - 1));
                lemma_quiet_front(ls.take(j));
                assert(ls.skip(j + 1) =~= rest.skip(j));
                assert(closes(rest));
            }
        }
    }
}

proof fn lemma_fold_marked(ls: Seq<Seq<char>>)
    ensures
        (fold_lines(Ok((false, false)), ls) == Ok::<(bool, bool), BlockFault>((true, true))) == marked_once(ls),
    decreases ls.len(),
{
    lemma_marker_facts();
    let ff: Seen = Ok((false, false));
    let tf: Seen = Ok((true, false));
    if ls.len() == 0 {
        assert(!marked_once(ls));
    } else {
        let rest = ls.drop_first();
        let tr = trim_newlines(ls[0]);
        lemma_fold_marked(rest);
        lemma_fold_closes(rest);
        lemma_fold_monotone(Err(BlockFault::Ambiguous), rest);
        if tr == BEGIN@ {
            assert(step(ff, ls[0]) == tf);
            if closes(rest) {
                assert(ls.take(0) =~= Seq::<Seq<char>>::empty());
                assert(ls.skip(1) =~= rest);
                assert(marked_once(ls));
            }
            if marked_once(ls) {
                let i = choose|i: int|
                    0 <= i < ls.len() && trim_newlines(#[trigger] ls[i]) == BEGIN@ && quiet(ls.take(i)) && closes(
                        ls.skip(i + 1),
                    );
                if i == 0 {
                    assert(ls.skip(1) =~= rest);
                } else {
                    assert(ls.take(i)[0] == ls[0]);
                }
            }
        } else if tr == END@ {
            if marked_once(ls) {
                let i = choose|i: int|
                    0 <= i < ls.len() && trim_newlines(#[trigger] ls[i]) == BEGIN@ && quiet(ls.take(i)) && closes(
                        ls.skip(i + 1),
                    );
                if i > 0 {
                    assert(ls.take(i)[0] == ls[0]);
                }
            }
        } else {
            assert(step(ff, ls[0]) == ff);
            if marked_once(rest) {
                let i = choose|i: int|
                    0 <= i < rest.len() && trim_newlines(#[trigger] rest[i]) == BEGIN@ && quiet(rest.take(i))
                        && closes(rest.skip(i + 1));
                assert(ls[i + 1] == rest[i]);
                assert(ls.take(i + 1).drop_first() =~= rest.take(i));
                lemma_quiet_front(ls.take(i + 1));
                assert(ls.skip(i + 2) =~= rest.skip(i + 1));
                assert(marked_once(ls));
            }
            if marked_once(ls) {
                let i = choose|i: int|
                    0 <= i < ls.len() && trim_newlines(#[trigger] ls[i]) == BEGIN@ && quiet(ls.take(i)) && closes(
                        ls.skip(i + 1),
                    );
                assert(i > 0);
                assert(rest[i - 1] == ls[i]);
                assert(ls.take(i).drop_first() =~= rest.take(i - 1));
                lemma_quiet_front(ls.take(i));
                assert(ls.skip(i + 1) =~= rest.skip(i));
                assert(marked_once(rest));
            }
        }
    }
}

/// One line is the opening marker and no other line is a marker.
pub open spec fn opens_only(ls: Seq<Seq<char>>) -> bool {
    exists|i: int|
        0 <= i < ls.len() && trim_newlines(#[trigger] ls[i]) == BEGIN@ && quiet(ls.take(i)) && quiet(
            ls.skip(i + 1),
        )
}

/// A scan never has the closing marker without the opening one.
proof fn lemma_fold_no_lone_end(st: Seen, ls: Seq<Seq<char>>)
    requires
        !(st == Ok::<(bool, bool), BlockFault>((false, true))),
    ensures
        !(fold_lines(st, ls) == Ok::<(bool, bool), BlockFault>((false, true))),
    decreases ls.len(),
{
    if ls.len() > 0 {
        lemma_fold_no_lone_end(step(st, ls[0]), ls.drop_first());
    }
}

proof fn lemma_fold_opens(ls: Seq<Seq<char>>)
    ensures
        (fold_lines(Ok((false, false)), ls) == Ok::<(bool, bool), BlockFault>((true, false))) == opens_only(ls),
    decreases ls.len(),
{
    lemma_marker_facts();
    let ff: Seen = Ok((false, false));
    let tf: Seen = Ok((true, false));
    if ls.len() == 0 {
        assert(!opens_only(ls));
    } else {
        let rest = ls.drop_first();
        let tr = trim_newlines(ls[0]);
        lemma_fold_opens(rest);
        lemma_fold_monotone(Err(BlockFault::Ambiguous), rest);
        if tr == BEGIN@ {
            assert(step(ff, ls[0]) == tf);
            if quiet(rest) {
                lemma_quiet_fold(tf, rest);
                assert(ls.take(0) =~= Seq::<Seq<char>>::empty());
                assert(ls.skip(1) =~= rest);
                assert(opens_only(ls));
            }
            if fold_lines(tf, rest) == tf {
                lemma_fold_quiet(tf, rest);
            }
            if opens_only(ls) {
                let i = choose|i: int|
                    0 <= i < ls.len() && trim_newlines(#[trigger] ls[i]) == BEGIN@ && quiet(ls.take(i)) && quiet(
                        ls.skip(i + 1),
                    );
                if i == 0 {
                    assert(ls.skip(1) =~= rest);
                } else {
                    assert(ls.take(i)[0] == ls[0]);
                }
            }
        } else if tr == END@ {
            if opens_only(ls) {
                let i = choose|i: int|
                    0 <= i < ls.len() && trim_newlines(#[trigger] ls[i]) == BEGIN@ && quiet(ls.take(i)) && quiet(
                        ls.skip(i + 1),
                    );
                if i > 0 {
                    assert(ls.take(i)[0] == ls[0]);
                }
            }
        } else {
            assert(step(ff, ls[0]) == ff);
            if opens_only(rest) {
                let i = choose|i: int|
                    0 <= i < rest.len() && trim_newlines(#[trigger] rest[i]) == BEGIN@ && quiet(rest.take(i))
                        && quiet(rest.skip(i + 1));
                assert(ls[i + 1] == rest[i]);
                assert(ls.take(i + 1).drop_first() =~= rest.take(i));
                lemma_quiet_front(ls.take(i + 1));
                assert(ls.skip(i + 2) =~= rest.skip(i + 1));
                assert(opens_only(ls));
            }
            if opens_only(ls) {
                let i = choose|i: int|
                    0 <= i < ls.len() && trim_newlines(#[trigger] ls[i]) == BEGIN@ && quiet(ls.take(i)) && quiet(
                        ls.skip(i + 1),
                    );
                assert(i > 0);
                assert(rest[i - 1] == ls[i]);
                assert(ls.take(i).drop_first() =~= rest.take(i - 1));
                lemma_quiet_front(ls.take(i));
                assert(ls.skip(i + 1) =~= rest.skip(i));
                assert(opens_only(rest));
            }
        }
    }
}

/// Which texts have a managed block, line by line (lines compared without
/// their trailing line breaks): a text has no block exactly when no line is
/// a marker; a block exactly when one line is the opening marker, a later
/// line is the closing marker, and no other line is a marker; an incomplete
/// block exactly when one line is the opening marker and no other line is
/// a marker; every other text has ambiguous markers (a marker repeats, or
/// the closing one comes first).
pub proof fn law_block_markers(t: Seq<char>)
    ensures
        (block_spec(t) == Ok::<Option<(int, int)>, BlockFault>(None)) == quiet(lines_from(t, 0)),
        (block_spec(t) matches Ok(Some(_))) == marked_once(lines_from(t, 0)),
        (block_spec(t) == Err::<Option<(int, int)>, BlockFault>(BlockFault::Incomplete)) == opens_only(
            lines_from(t, 0),
        ),
        (block_spec(t) == Err::<Option<(int, int)>, BlockFault>(BlockFault::Ambiguous)) == (!quiet(
            lines_from(t, 0),
        ) && !marked_once(lines_from(t, 0)) && !opens_only(lines_from(t, 0))),
{
    let ls = lines_from(t, 0);
    let ff: Seen = Ok((false, false));
    lemma_scan_seen(t, 0, Ok((None, None)));
    lemma_fold_marked(ls);
    lemma_fold_opens(ls);
    lemma_fold_no_lone_end(ff, ls);
    if quiet(ls) {
        lemma_quiet_fold(ff, ls);
    }
    if fold_lines(ff, ls) == ff {
        lemma_fold_quiet(ff, ls);
    }
    lemma_scan_fault(t, 0, Ok((None, None)));
}

/// The only fault a scan meets is an ambiguous marker.
proof fn lemma_scan_fault(t: Seq<char>, start: int, acc: Markers)
    requires
        !(acc matches Err(f) && f != BlockFault::Ambiguous),
    ensures
        !(scan_from(t, start, acc) matches Err(f) && f != BlockFault::Ambiguous),
    decreases t.len() - start,
{
    if 0 <= start < t.len() {
        let e = line_end(t, start);
        if e > start && e <= t.len() {
            lemma_scan_fault(t, e, scan_line(acc, t.subrange(start, e), start));
        }
    }
}

/// Encoding text in UTF-8 encodes each part in turn.
proof fn lemma_encode_concat(a: Seq<char>, b: Seq<char>)
    ensures
        encode_utf8(a + b) == encode_utf8(a) + encode_utf8(b),
    decreases a.len(),
{
    if a.len() == 0 {
        assert(a + b =~= b);
        assert(encode_utf8(a) =~= Seq::<u8>::empty());
        assert(encode_utf8(a) + encode_utf8(b) =~= encode_utf8(b));
    } else {
        lemma_encode_concat(a.drop_first(), b);
        assert((a + b).drop_first() =~= a.drop_first() + b);
        assert((a + b)[0] == a[0]);
        let h = vstd::utf8::encode_scalar(a[0] as u32);
        assert(encode_utf8(a + b) == h + encode_utf8(a.drop_first() + b));
        assert(encode_utf8(a) == h + encode_utf8(a.drop_first()));
        assert(h + (encode_utf8(a.drop_first()) + encode_utf8(b)) =~= (h + encode_utf8(a.drop_first()))
            + encode_utf8(b));
    }
}

/// Updating a file that has a managed block keeps its bytes before and
/// after the block: the file is the bytes before the block, the block, and
/// the bytes after it, and the update is the same bytes before, the new
/// block, and the same bytes after.
pub proof fn law_update_keeps_manual_bytes(
    root: Seq<Seq<char>>,
    paths: Seq<Seq<Seq<char>>>,
    o: Seq<u8>,
    ps: Seq<Seq<char>>,
)
    requires
        update_spec(root, paths, Some(o), ps) is Ok,
        block_spec(decode_utf8(o)) matches Ok(Some(_)),
    ensures
        ({
            let t = decode_utf8(o);
            let (s, e) = block_spec(t)->Ok_0->0;
            &&& o == encode_utf8(t.take(s)) + encode_utf8(t.subrange(s, e)) + encode_utf8(t.skip(e))
            &&& update_spec(root, paths, Some(o), ps)->Ok_0 == encode_utf8(t.take(s)) + encode_utf8(
                managed_block(ps, newline_of(t)),
            ) + encode_utf8(t.skip(e))
        }),
{
    let t = decode_utf8(o);
    let (s, e) = block_spec(t)->Ok_0->0;
    lemma_block_bounds(t);
    vstd::utf8::decode_utf8_encode_utf8(o);
    assert(t =~= t.take(s) + t.subrange(s, e) + t.skip(e));
    lemma_encode_concat(t.take(s), t.subrange(s, e));
    lemma_encode_concat(t.take(s) + t.subrange(s, e), t.skip(e));
    let m = managed_block(ps, newline_of(t));
    assert(updated_text(t, ps, Some((s, e))) == t.take(s) + m + t.skip(e));
    lemma_encode_concat(t.take(s), m);
    lemma_encode_concat(t.take(s) + m, t.skip(e));
}

} // verus!
