//! Filesystem paths as sequences of components, the way `Path::components`
//! yields them on Unix: `/` for the root, `.` and `..` for the current and
//! parent directory, and plain names otherwise.
use vstd::prelude::*;

use crate::text::{lemma_views_push, chars_lt, chars_of, lemma_chars_lt_irreflexive, lemma_chars_lt_total, lemma_chars_lt_transitive, str_eq, str_less, string_views};

verus! {

/// A path given by its components, each as text.
pub struct FsPath {
    pub parts: Vec<String>,
}

impl View for FsPath {
    type V = Seq<Seq<char>>;

    open spec fn view(&self) -> Seq<Seq<char>> {
        string_views(self.parts@)
    }
}

/// The components of each path in a sequence.
pub open spec fn path_views(v: Seq<FsPath>) -> Seq<Seq<Seq<char>>> {
    v.map_values(|p: FsPath| p@)
}

/// The root component.
pub open spec fn root_part() -> Seq<char> {
    seq!['/']
}

/// The current-directory component.
pub open spec fn current_part() -> Seq<char> {
    seq!['.']
}

/// The parent-directory component.
pub open spec fn parent_part() -> Seq<char> {
    seq!['.', '.']
}

/// A plain name: what `Component::Normal` holds.
pub open spec fn is_name(p: Seq<char>) -> bool {
    &&& p.len() > 0
    &&& p != current_part()
    &&& p != parent_part()
    &&& !p.contains('/')
}

/// An absolute path without `.` or `..`: the root followed by plain names.
pub open spec fn is_normal_absolute(v: Seq<Seq<char>>) -> bool {
    &&& v.len() >= 1
    &&& v[0] == root_part()
    &&& forall|i: int| 1 <= i < v.len() ==> is_name(#[trigger] v[i])
}

/// `prefix` is a leading run of whole components of `path`.
pub open spec fn is_prefix(prefix: Seq<Seq<char>>, path: Seq<Seq<char>>) -> bool {
    prefix.len() <= path.len() && path.take(prefix.len() as int) == prefix
}

/// The pieces of a path text between slashes, empty ones included.
pub open spec fn split_slash(s: Seq<char>) -> Seq<Seq<char>>
    decreases s.len(),
{
    if s.len() == 0 {
        seq![Seq::<char>::empty()]
    } else {
        let rest = split_slash(s.drop_last());
        if s.last() == '/' {
            rest.push(Seq::<char>::empty())
        } else {
            rest.update(rest.len() - 1, rest.last().push(s.last()))
        }
    }
}

/// One piece applied to a normalized path: empty pieces and `.` vanish, `..`
/// removes the last name and fails at the root, a name is appended.
pub open spec fn step(p: Seq<Seq<char>>, piece: Seq<char>) -> Option<Seq<Seq<char>>> {
    if piece.len() == 0 || piece == current_part() {
        Some(p)
    } else if piece == parent_part() {
        if p.len() > 1 {
            Some(p.drop_last())
        } else {
            None
        }
    } else {
        Some(p.push(piece))
    }
}

/// The pieces applied in order; `None` once a `..` passes the root.
pub open spec fn resolve(base: Seq<Seq<char>>, pieces: Seq<Seq<char>>) -> Option<Seq<Seq<char>>>
    decreases pieces.len(),
{
    if pieces.len() == 0 {
        Some(base)
    } else {
        match resolve(base, pieces.drop_last()) {
            None => None,
            Some(p) => step(p, pieces.last()),
        }
    }
}

/// A path text made absolute against `base` and normalized: an absolute text
/// starts from the root, a relative one from `base`.
pub open spec fn absolute_spec(base: Seq<Seq<char>>, text: Seq<char>) -> Option<Seq<Seq<char>>> {
    if text.len() > 0 && text[0] == '/' {
        resolve(seq![root_part()], split_slash(text))
    } else {
        resolve(base, split_slash(text))
    }
}

/// What the component literals hold.
pub proof fn lemma_part_literals()
    ensures
        "/"@ == root_part(),
        "."@ == current_part(),
        ".."@ == parent_part(),
{
    reveal_strlit("/");
    reveal_strlit(".");
    reveal_strlit("..");
    assert("/"@ =~= root_part());
    assert("."@ =~= current_part());
    assert(".."@ =~= parent_part());
}

/// No piece of a split text holds a slash.
pub proof fn lemma_split_slash_pieces(s: Seq<char>)
    ensures
        split_slash(s).len() >= 1,
        forall|i: int| 0 <= i < split_slash(s).len() ==> !(#[trigger] split_slash(s)[i]).contains('/'),
    decreases s.len(),
{
    if s.len() > 0 {
        lemma_split_slash_pieces(s.drop_last());
        let rest = split_slash(s.drop_last());
        if s.last() != '/' {
            assert forall|i: int| 0 <= i < split_slash(s).len() implies !(
            #[trigger] split_slash(s)[i]).contains('/') by {
                if i == rest.len() - 1 {
                    let q = rest.last().push(s.last());
                    if q.contains('/') {
                        let k = choose|k: int| 0 <= k < q.len() && q[k] == '/';
                        assert(rest.last()[k] == '/');
                    }
                }
            }
        }
    }
}

/// Resolving slash-free pieces keeps a path normal and absolute.
pub proof fn lemma_resolve_normal(base: Seq<Seq<char>>, pieces: Seq<Seq<char>>)
    requires
        is_normal_absolute(base),
        forall|i: int| 0 <= i < pieces.len() ==> !(#[trigger] pieces[i]).contains('/'),
    ensures
        resolve(base, pieces) matches Some(p) ==> is_normal_absolute(p),
    decreases pieces.len(),
{
    if pieces.len() > 0 {
        lemma_resolve_normal(base, pieces.drop_last());
        assert(!pieces[pieces.len() - 1].contains('/'));
    }
}

impl FsPath {
    /// The path of the filesystem root.
    pub fn root() -> (r: FsPath)
        ensures
            r@ == seq![root_part()],
    {
        let mut parts: Vec<String> = Vec::new();
        parts.push(String::from_str("/"));
        proof {
            lemma_part_literals();
        }
        let r = FsPath { parts };
        assert(r@ =~= seq![root_part()]);
        r
    }

    /// A copy with the same components.
    pub fn duplicate(&self) -> (r: FsPath)
        ensures
            r@ == self@,
    {
        let mut parts: Vec<String> = Vec::new();
        let mut i: usize = 0;
        while i < self.parts.len()
            invariant
                i <= self.parts@.len(),
                string_views(parts@) == self@.take(i as int),
            decreases self.parts@.len() - i,
        {
            let ghost before = parts@;
            let x = self.parts[i].clone();
            parts.push(x);
            proof {
                lemma_views_push(before, x);
                assert(self@.take(i + 1) =~= self@.take(i as int).push(self@[i as int]));
            }
            i = i + 1;
        }
        assert(self@.take(self@.len() as int) =~= self@);
        FsPath { parts }
    }

    /// Component-wise equality, as `PathBuf` compares.
    pub fn same(&self, other: &FsPath) -> (r: bool)
        ensures
            r == (self@ == other@),
    {
        if self.parts.len() != other.parts.len() {
            return false;
        }
        let mut i: usize = 0;
        while i < self.parts.len()
            invariant
                i <= self.parts@.len(),
                self.parts@.len() == other.parts@.len(),
                self@.take(i as int) == other@.take(i as int),
            decreases self.parts@.len() - i,
        {
            if self.parts[i] != other.parts[i] {
                assert(self@[i as int] != other@[i as int]);
                return false;
            }
            assert(self@.take(i + 1) =~= self@.take(i as int).push(self@[i as int]));
            assert(other@.take(i + 1) =~= other@.take(i as int).push(other@[i as int]));
            i = i + 1;
        }
        assert(self@ =~= self@.take(self@.len() as int));
        assert(other@ =~= other@.take(other@.len() as int));
        true
    }

    /// Whether `prefix` is a leading run of this path's components.
    pub fn starts_with(&self, prefix: &FsPath) -> (r: bool)
        ensures
            r == is_prefix(prefix@, self@),
    {
        if prefix.parts.len() > self.parts.len() {
            return false;
        }
        let mut i: usize = 0;
        while i < prefix.parts.len()
            invariant
                i <= prefix.parts@.len() <= self.parts@.len(),
                self@.take(i as int) == prefix@.take(i as int),
            decreases prefix.parts@.len() - i,
        {
            if self.parts[i] != prefix.parts[i] {
                assert(self@.take(prefix@.len() as int)[i as int] != prefix@[i as int]);
                return false;
            }
            assert(self@.take(i + 1) =~= self@.take(i as int).push(self@[i as int]));
            assert(prefix@.take(i + 1) =~= prefix@.take(i as int).push(prefix@[i as int]));
            i = i + 1;
        }
        assert(prefix@ =~= prefix@.take(prefix@.len() as int));
        true
    }

    /// Whether the path begins at the root.
    pub fn is_absolute(&self) -> (r: bool)
        ensures
            r == (self@.len() > 0 && self@[0] == root_part()),
    {
        proof {
            lemma_part_literals();
        }
        self.parts.len() > 0 && str_eq(self.parts[0].as_str(), "/")
    }

    /// Whether some component is `..`.
    pub fn has_parent_part(&self) -> (r: bool)
        ensures
            r == self@.contains(parent_part()),
    {
        proof {
            lemma_part_literals();
        }
        let mut i: usize = 0;
        while i < self.parts.len()
            invariant
                i <= self.parts@.len(),
                ".."@ == parent_part(),
                forall|k: int| 0 <= k < i ==> self@[k] != parent_part(),
            decreases self.parts@.len() - i,
        {
            if str_eq(self.parts[i].as_str(), "..") {
                assert(self@[i as int] == parent_part());
                return true;
            }
            i = i + 1;
        }
        false
    }

    /// `Path::parent`: the path without its last component, unless it is
    /// empty or ends at the root.
    pub fn parent(&self) -> (r: Option<FsPath>)
        ensures
            match r {
                None => self@.len() == 0 || self@.last() == root_part(),
                Some(p) => self@.len() > 0 && self@.last() != root_part() && p@ == self@.drop_last(),
            },
    {
        proof {
            lemma_part_literals();
        }
        let n = self.parts.len();
        if n == 0 || str_eq(self.parts[n - 1].as_str(), "/") {
            return None;
        }
        let mut parts: Vec<String> = Vec::new();
        let mut i: usize = 0;
        while i + 1 < n
            invariant
                n == self.parts@.len(),
                n > 0,
                i + 1 <= n,
                string_views(parts@) == self@.take(i as int),
            decreases n - i,
        {
            let ghost before = parts@;
            let x = self.parts[i].clone();
            parts.push(x);
            proof {
                lemma_views_push(before, x);
                assert(self@.take(i + 1) =~= self@.take(i as int).push(self@[i as int]));
            }
            i = i + 1;
        }
        let p = FsPath { parts };
        assert(p@ =~= self@.drop_last());
        Some(p)
    }

    /// `Path::file_name`: the last component when it is a plain name.
    pub fn file_name(&self) -> (r: Option<String>)
        ensures
            match r {
                None => self@.len() == 0 || self@.last() == root_part() || self@.last()
                    == current_part() || self@.last() == parent_part(),
                Some(name) => self@.len() > 0 && self@.last() != root_part() && self@.last()
                    != current_part() && self@.last() != parent_part() && name@ == self@.last(),
            },
    {
        proof {
            lemma_part_literals();
        }
        let n = self.parts.len();
        if n == 0 {
            return None;
        }
        let last = self.parts[n - 1].as_str();
        if str_eq(last, "/") || str_eq(last, ".") || str_eq(last, "..") {
            None
        } else {
            Some(self.parts[n - 1].clone())
        }
    }

    /// The path made of the first `k` components.
    pub fn prefix(&self, k: usize) -> (r: FsPath)
        requires
            k <= self@.len(),
        ensures
            r@ == self@.take(k as int),
    {
        let mut parts: Vec<String> = Vec::new();
        let mut i: usize = 0;
        while i < k
            invariant
                i <= k <= self@.len(),
                string_views(parts@) == self@.take(i as int),
            decreases k - i,
        {
            let ghost before = parts@;
            let x = self.parts[i].clone();
            parts.push(x);
            proof {
                lemma_views_push(before, x);
                assert(self@.take(i + 1) =~= self@.take(i as int).push(self@[i as int]));
            }
            i = i + 1;
        }
        FsPath { parts }
    }

    /// The path with one more plain name at its end.
    pub fn join_name(&self, name: &str) -> (r: FsPath)
        ensures
            r@ == self@.push(name@),
    {
        let mut r = self.duplicate();
        r.parts.push(name.to_owned());
        assert(r@ =~= self@.push(name@));
        r
    }
}

/// Makes a path text absolute: joins it to `base` (an absolute text stands
/// alone), then removes `.`, `..` and empty components. Fails when `..`
/// would pass the root or when the joined path is not absolute.
pub fn absolute(base: &FsPath, text: &str) -> (r: Result<FsPath, ()>)
    ensures
        match absolute_any(base@, text@) {
            Some(p) => r matches Ok(q) && q@ == p && is_normal_absolute(p),
            None => r is Err,
        },
        is_normal_absolute(base@) ==> absolute_any(base@, text@) == absolute_spec(base@, text@),
{
    proof {
        law_absolute_normalizes(base@, base@, text@);
    }
    if is_normal(base) {
        proof {
            lemma_absolute_any(base@, text@);
        }
        return absolute_normal(base, text);
    }
    let cs = chars_of(text);
    let rooted = cs.len() > 0 && cs[0] == '/';
    let base_text = path_string(base);
    let bcs = chars_of(base_text.as_str());
    let joined: String = if rooted || bcs.len() == 0 {
        text.to_owned()
    } else {
        let mut j = base_text.clone();
        crate::text::push_char(&mut j, '/');
        crate::text::append_str(&mut j, text);
        j
    };
    assert(joined@ == joined_text(base@, text@));
    let jcs = chars_of(joined.as_str());
    if jcs.len() > 0 && jcs[0] == '/' {
        proof {
            assert(is_normal_absolute(seq![root_part()]));
        }
        let root = FsPath::root();
        absolute_normal(&root, joined.as_str())
    } else {
        Err(())
    }
}

/// Makes a path text absolute against a normalized absolute `base`, then
/// removes `.`, `..` and empty components; fails when `..` would pass the root.
fn absolute_normal(base: &FsPath, text: &str) -> (r: Result<FsPath, ()>)
    requires
        is_normal_absolute(base@),
    ensures
        match absolute_spec(base@, text@) {
            Some(p) => r matches Ok(q) && q@ == p && is_normal_absolute(p),
            None => r is Err,
        },
{
    let cs = chars_of(text);
    let ghost s = text@;
    let rooted = cs.len() > 0 && cs[0] == '/';
    let mut acc = if rooted {
        FsPath::root()
    } else {
        base.duplicate()
    };
    let ghost start = acc@;
    let mut failed = false;
    let mut current: Vec<char> = Vec::new();
    let mut i: usize = 0;
    proof {
        lemma_split_slash_pieces(s);
        assert(s.take(0) =~= Seq::<char>::empty());
        assert(split_slash(s.take(0)).drop_last() =~= Seq::<Seq<char>>::empty());
    }
    while i < cs.len()
        invariant
            cs@ == s,
            i <= cs@.len(),
            is_normal_absolute(start),
            failed ==> resolve(start, split_slash(s.take(i as int)).drop_last()) is None,
            !failed ==> resolve(start, split_slash(s.take(i as int)).drop_last()) == Some(acc@),
            !failed ==> is_normal_absolute(acc@),
            current@ == split_slash(s.take(i as int)).last(),
        decreases cs@.len() - i,
    {
        let c = cs[i];
        let ghost before = split_slash(s.take(i as int));
        assert(s.take(i + 1).drop_last() =~= s.take(i as int));
        assert(s.take(i + 1).last() == c);
        proof {
            lemma_split_slash_pieces(s.take(i as int));
        }
        if c == '/' {
            assert(split_slash(s.take(i + 1)).drop_last() =~= before);
            assert(before =~= before.drop_last().push(before.last()));
            if !failed {
                failed = apply_piece(&mut acc, &current);
            }
            current = Vec::new();
            assert(current@ =~= split_slash(s.take(i + 1)).last());
        } else {
            assert(split_slash(s.take(i + 1)).drop_last() =~= before.drop_last());
            current.push(c);
        }
        i = i + 1;
    }
    assert(s.take(cs@.len() as int) =~= s);
    proof {
        lemma_split_slash_pieces(s);
        let all = split_slash(s);
        assert(all =~= all.drop_last().push(all.last()));
    }
    if !failed {
        failed = apply_piece(&mut acc, &current);
    }
    proof {
        if rooted {
            assert(start == seq![root_part()]);
        }
        if cs@.len() == 0 {
            assert(!rooted);
        }
    }
    if failed {
        Err(())
    } else {
        Ok(acc)
    }
}

/// Applies one slash-free piece to a normalized path in place; reports
/// whether the piece was a `..` at the root.
fn apply_piece(acc: &mut FsPath, piece: &Vec<char>) -> (failed: bool)
    requires
        is_normal_absolute(old(acc)@),
        !piece@.contains('/'),
    ensures
        match step(old(acc)@, piece@) {
            Some(p) => !failed && final(acc)@ == p && is_normal_absolute(p),
            None => failed,
        },
{
    let n = piece.len();
    if n == 0 || (n == 1 && piece[0] == '.') {
        assert(n == 1 ==> piece@ =~= current_part());
        return false;
    }
    if n == 2 && piece[0] == '.' && piece[1] == '.' {
        assert(piece@ =~= parent_part());
        if acc.parts.len() > 1 {
            let ghost before = acc@;
            acc.parts.pop();
            assert(acc@ =~= before.drop_last());
            return false;
        }
        return true;
    }
    assert(piece@ != current_part() && piece@ != parent_part()) by {
        if piece@ == current_part() {
            assert(piece@[0] == '.');
        }
        if piece@ == parent_part() {
            assert(piece@[0] == '.' && piece@[1] == '.');
        }
    }
    let ghost before = acc@;
    let name = crate::text::string_of(piece.as_slice());
    acc.parts.push(name);
    assert(acc@ =~= before.push(piece@));
    false
}

/// The order of `Path` values restricted to root-and-name paths:
/// lexicographic over components, each compared as text.
pub open spec fn path_lt(a: Seq<Seq<char>>, b: Seq<Seq<char>>) -> bool
    decreases a.len(),
{
    if a.len() == 0 {
        b.len() > 0
    } else if b.len() == 0 {
        false
    } else if a[0] != b[0] {
        chars_lt(a[0], b[0])
    } else {
        path_lt(a.drop_first(), b.drop_first())
    }
}

/// The path order is irreflexive.
pub proof fn lemma_path_lt_irreflexive(a: Seq<Seq<char>>)
    ensures
        !path_lt(a, a),
    decreases a.len(),
{
    if a.len() > 0 {
        lemma_path_lt_irreflexive(a.drop_first());
    }
}

/// The path order is transitive.
pub proof fn lemma_path_lt_transitive(a: Seq<Seq<char>>, b: Seq<Seq<char>>, c: Seq<Seq<char>>)
    requires
        path_lt(a, b),
        path_lt(b, c),
    ensures
        path_lt(a, c),
    decreases a.len(),
{
    if a.len() > 0 && b.len() > 0 && c.len() > 0 {
        if a[0] == b[0] && b[0] == c[0] {
            lemma_path_lt_transitive(a.drop_first(), b.drop_first(), c.drop_first());
        } else if a[0] != b[0] && b[0] != c[0] {
            lemma_chars_lt_transitive(a[0], b[0], c[0]);
            if a[0] == c[0] {
                lemma_chars_lt_irreflexive(a[0]);
                crate::text::lemma_chars_lt_asymmetric(a[0], b[0]);
            }
        }
    }
}

/// Two distinct paths are ordered one way or the other.
pub proof fn lemma_path_lt_total(a: Seq<Seq<char>>, b: Seq<Seq<char>>)
    requires
        a != b,
    ensures
        path_lt(a, b) || path_lt(b, a),
    decreases a.len(),
{
    if a.len() > 0 && b.len() > 0 {
        if a[0] == b[0] {
            if a.drop_first() == b.drop_first() {
                assert(a =~= seq![a[0]] + a.drop_first());
                assert(b =~= seq![b[0]] + b.drop_first());
            }
            lemma_path_lt_total(a.drop_first(), b.drop_first());
        } else {
            lemma_chars_lt_total(a[0], b[0]);
        }
    } else if a.len() == 0 && b.len() == 0 {
        assert(a =~= b);
    }
}

/// Compares two paths in the path order.
pub fn path_less(a: &FsPath, b: &FsPath) -> (r: bool)
    ensures
        r == path_lt(a@, b@),
{
    let mut i: usize = 0;
    assert(a@.skip(0) =~= a@);
    assert(b@.skip(0) =~= b@);
    while i < a.parts.len() && i < b.parts.len()
        invariant
            i <= a@.len(),
            i <= b@.len(),
            path_lt(a@, b@) == path_lt(a@.skip(i as int), b@.skip(i as int)),
        decreases a@.len() - i,
    {
        if a.parts[i] != b.parts[i] {
            return str_less(a.parts[i].as_str(), b.parts[i].as_str());
        }
        assert(a@.skip(i as int).drop_first() =~= a@.skip(i + 1));
        assert(b@.skip(i as int).drop_first() =~= b@.skip(i + 1));
        i = i + 1;
    }
    i == a.parts.len() && i < b.parts.len()
}

} // verus!

verus! {

/// Names joined by `/`.
pub open spec fn joined(names: Seq<Seq<char>>) -> Seq<char>
    decreases names.len(),
{
    if names.len() == 0 {
        Seq::empty()
    } else if names.len() == 1 {
        names[0]
    } else {
        joined(names.drop_last()) + seq!['/'] + names.last()
    }
}

/// The text of a path as Unix displays it: the root's `/`, then the other
/// components joined by `/`.
pub open spec fn path_text(p: Seq<Seq<char>>) -> Seq<char> {
    if p.len() > 0 && p[0] == root_part() {
        seq!['/'] + joined(p.skip(1))
    } else {
        joined(p)
    }
}

/// The path's text, as Unix displays it.
pub fn path_string(path: &FsPath) -> (r: String)
    ensures
        r@ == path_text(path@),
{
    proof {
        lemma_part_literals();
    }
    let n = path.parts.len();
    let rooted = n > 0 && str_eq(path.parts[0].as_str(), "/");
    let start: usize = if rooted {
        1
    } else {
        0
    };
    let mut out = String::new();
    if rooted {
        crate::text::push_char(&mut out, '/');
    }
    let ghost head: Seq<char> = if rooted {
        seq!['/']
    } else {
        Seq::empty()
    };
    let ghost names = path@.skip(start as int);
    assert(out@ =~= head + joined(names.take(0)));
    let mut i: usize = start;
    while i < n
        invariant
            n == path@.len(),
            start <= i <= n,
            names == path@.skip(start as int),
            out@ == head + joined(names.take(i - start)),
        decreases n - i,
    {
        let ghost before = out@;
        let k = i - start;
        if k > 0 {
            crate::text::push_char(&mut out, '/');
        }
        crate::text::append_str(&mut out, path.parts[i].as_str());
        assert(names.take(k + 1).drop_last() =~= names.take(k as int));
        assert(names[k as int] == path@[i as int]);
        if k == 0 {
            assert(out@ =~= head + joined(names.take(k + 1)));
        } else {
            assert(out@ =~= head + joined(names.take(k + 1)));
        }
        i = i + 1;
    }
    assert(names.take(n - start) =~= names);
    assert(path@.skip(0) =~= path@);
    assert(rooted == (path@.len() > 0 && path@[0] == root_part()));
    out
}

/// `str::to_lowercase`: the text with each character replaced by its
/// lowercase mapping, as Unicode defines it.
pub uninterp spec fn lowercase(s: Seq<char>) -> Seq<char>;

/// `str::to_lowercase`: the text lowercased as Unicode defines it (named by
/// `lowercase`, not described).
#[verifier::external_body]
fn lowercase_text(s: &str) -> (r: String)
    ensures
        r@ == lowercase(s@),
{
    s.to_lowercase()
}

/// The key under which two paths name the same file: the path's text,
/// lowercased where the file system ignores letter case (`fold_case`, as on
/// Windows and macOS).
pub open spec fn key_text(p: Seq<Seq<char>>, fold_case: bool) -> Seq<char> {
    if fold_case {
        lowercase(path_text(p))
    } else {
        path_text(p)
    }
}

/// The key under which outputs are compared for collisions (see
/// `key_text`); `fold_case` holds where names differing only in letter case
/// name one file.
pub fn path_key(path: &FsPath, fold_case: bool) -> (r: String)
    ensures
        r@ == key_text(path@, fold_case),
{
    let text = path_string(path);
    if fold_case {
        lowercase_text(text.as_str())
    } else {
        text
    }
}

/// Paths in strictly increasing order, hence distinct.
pub open spec fn paths_sorted(v: Seq<Seq<Seq<char>>>) -> bool {
    forall|i: int, j: int| 0 <= i < j < v.len() ==> path_lt(#[trigger] v[i], #[trigger] v[j])
}

/// Inserts a path into strictly ordered paths unless it is there already.
pub fn insert_path(v: &mut Vec<FsPath>, p: FsPath)
    requires
        paths_sorted(path_views(old(v)@)),
    ensures
        paths_sorted(path_views(final(v)@)),
        path_views(final(v)@).to_set() == path_views(old(v)@).to_set().insert(p@),
{
    let ghost ov = path_views(v@);
    let mut i: usize = 0;
    while i < v.len() && path_less(&v[i], &p)
        invariant
            i <= v@.len(),
            path_views(v@) == ov,
            forall|k: int| 0 <= k < i ==> path_lt(#[trigger] ov[k], p@),
        decreases v@.len() - i,
    {
        i = i + 1;
    }
    if i < v.len() && v[i].same(&p) {
        assert(path_views(v@).to_set() =~= ov.to_set().insert(p@)) by {
            assert(ov[i as int] == p@);
        }
        return;
    }
    proof {
        if i < ov.len() {
            lemma_path_lt_total(ov[i as int], p@);
        }
    }
    let ghost x = p@;
    v.insert(i, p);
    let ghost nv = path_views(v@);
    assert(nv =~= ov.insert(i as int, x));
    assert forall|a: int, b: int| 0 <= a < b < nv.len() implies path_lt(#[trigger] nv[a], #[trigger] nv[b]) by {
        if b == i {
            assert(nv[a] == ov[a]);
        } else if a == i {
            assert(nv[b] == ov[b - 1]);
            if b - 1 > i {
                lemma_path_lt_transitive(x, ov[i as int], ov[b - 1]);
            }
        } else if a < i && b > i {
            if b - 1 > i {
                lemma_path_lt_transitive(x, ov[i as int], ov[b - 1]);
            }
            lemma_path_lt_transitive(ov[a], x, ov[b - 1]);
        } else if a > i {
            assert(nv[a] == ov[a - 1]);
            assert(nv[b] == ov[b - 1]);
        } else {
            assert(nv[a] == ov[a]);
            assert(nv[b] == ov[b]);
        }
    }
    assert(nv.to_set() =~= ov.to_set().insert(x)) by {
        assert forall|y: Seq<Seq<char>>| nv.to_set().contains(y) implies ov.to_set().insert(x).contains(y) by {
            let k = choose|k: int| 0 <= k < nv.len() && nv[k] == y;
            if k < i {
                assert(ov[k] == y);
            } else if k > i {
                assert(ov[k - 1] == y);
            }
        }
        assert forall|y: Seq<Seq<char>>| ov.to_set().insert(x).contains(y) implies nv.to_set().contains(y) by {
            if y == x {
                assert(nv[i as int] == y);
            } else {
                let k = choose|k: int| 0 <= k < ov.len() && ov[k] == y;
                if k < i {
                    assert(nv[k] == y);
                } else {
                    assert(nv[k + 1] == y);
                }
            }
        }
    }
}

/// The paths ordered and without repeats.
pub fn sort_paths(paths: &Vec<FsPath>) -> (r: Vec<FsPath>)
    ensures
        paths_sorted(path_views(r@)),
        path_views(r@).to_set() == path_views(paths@).to_set(),
{
    let mut sorted: Vec<FsPath> = Vec::new();
    let mut k: usize = 0;
    assert(path_views(sorted@).to_set() =~= path_views(paths@).take(0).to_set());
    while k < paths.len()
        invariant
            k <= paths@.len(),
            paths_sorted(path_views(sorted@)),
            path_views(sorted@).to_set() == path_views(paths@).take(k as int).to_set(),
        decreases paths@.len() - k,
    {
        let p = paths[k].duplicate();
        insert_path(&mut sorted, p);
        assert(path_views(paths@).take(k + 1) =~= path_views(paths@).take(k as int).push(p@));
        proof {
            path_views(paths@).take(k as int).lemma_push_to_set_commute(p@);
        }
        k = k + 1;
    }
    assert(path_views(paths@).take(paths@.len() as int) =~= path_views(paths@));
    sorted
}

/// Whether `p` is among the paths.
pub fn path_in(paths: &Vec<FsPath>, p: &FsPath) -> (r: bool)
    ensures
        r == path_views(paths@).contains(p@),
{
    let mut i: usize = 0;
    while i < paths.len()
        invariant
            i <= paths@.len(),
            forall|k: int| 0 <= k < i ==> (#[trigger] path_views(paths@)[k]) != p@,
        decreases paths@.len() - i,
    {
        if paths[i].same(p) {
            assert(path_views(paths@)[i as int] == p@);
            return true;
        }
        i = i + 1;
    }
    false
}

/// Whether a path is absolute and made of plain names after the root.
pub fn is_normal(p: &FsPath) -> (r: bool)
    ensures
        r == is_normal_absolute(p@),
{
    proof {
        lemma_part_literals();
    }
    if p.parts.len() == 0 || !str_eq(p.parts[0].as_str(), "/") {
        return false;
    }
    let mut i: usize = 1;
    while i < p.parts.len()
        invariant
            1 <= i <= p@.len(),
            p@[0] == root_part(),
            forall|k: int| 1 <= k < i ==> is_name(#[trigger] p@[k]),
        decreases p@.len() - i,
    {
        proof {
            lemma_part_literals();
        }
        let cs = chars_of(p.parts[i].as_str());
        let mut slash = false;
        let mut j: usize = 0;
        while j < cs.len()
            invariant
                j <= cs@.len(),
                slash == (exists|m: int| 0 <= m < j && cs@[m] == '/'),
            decreases cs@.len() - j,
        {
            if cs[j] == '/' {
                slash = true;
            }
            j = j + 1;
        }
        assert(cs@ == p@[i as int]);
        assert(slash == cs@.contains('/')) by {
            if slash {
                let m = choose|m: int| 0 <= m < cs@.len() && cs@[m] == '/';
                assert(cs@.contains('/'));
            }
            if cs@.contains('/') {
                let m = choose|m: int| 0 <= m < cs@.len() && cs@[m] == '/';
                assert(exists|m: int| 0 <= m < cs@.len() && cs@[m] == '/');
            }
        }
        if cs.len() == 0 || str_eq(p.parts[i].as_str(), ".") || str_eq(p.parts[i].as_str(), "..") || slash {
            assert(!is_name(p@[i as int]));
            return false;
        }
        i = i + 1;
    }
    true
}

/// Splitting at a slash splits each side on its own.
proof fn lemma_split_concat(a: Seq<char>, b: Seq<char>)
    ensures
        split_slash(a + seq!['/'] + b) == split_slash(a) + split_slash(b),
    decreases b.len(),
{
    if b.len() == 0 {
        assert(a + seq!['/'] + b =~= a + seq!['/']);
        assert((a + seq!['/']).drop_last() =~= a);
        assert(split_slash(a).push(Seq::<char>::empty()) =~= split_slash(a) + split_slash(b));
    } else {
        let x = a + seq!['/'] + b;
        assert(x.drop_last() =~= a + seq!['/'] + b.drop_last());
        assert(x.last() == b.last());
        lemma_split_concat(a, b.drop_last());
        lemma_split_slash_pieces(b.drop_last());
        let l = split_slash(a);
        let r = split_slash(b.drop_last());
        if b.last() == '/' {
            assert((l + r).push(Seq::<char>::empty()) =~= l + r.push(Seq::<char>::empty()));
        } else {
            assert((l + r).update((l + r).len() - 1, (l + r).last().push(b.last())) =~= l + r.update(
                r.len() - 1,
                r.last().push(b.last()),
            ));
        }
    }
}

/// A text without a slash is one piece.
proof fn lemma_split_name(s: Seq<char>)
    requires
        !s.contains('/'),
    ensures
        split_slash(s) == seq![s],
    decreases s.len(),
{
    if s.len() > 0 {
        assert(!s.drop_last().contains('/')) by {
            if s.drop_last().contains('/') {
                let k = choose|k: int| 0 <= k < s.drop_last().len() && s.drop_last()[k] == '/';
                assert(s[k] == '/');
            }
        }
        lemma_split_name(s.drop_last());
        assert(s.last() != '/') by {
            if s.last() == '/' {
                assert(s[s.len() - 1] == '/');
            }
        }
        assert(s.drop_last().push(s.last()) =~= s);
    } else {
        assert(s =~= Seq::<char>::empty());
    }
}

/// Names joined by slashes split back into the names.
proof fn lemma_split_joined(names: Seq<Seq<char>>)
    requires
        names.len() > 0,
        forall|i: int| 0 <= i < names.len() ==> is_name(#[trigger] names[i]),
    ensures
        split_slash(joined(names)) == names,
    decreases names.len(),
{
    if names.len() == 1 {
        assert(is_name(names[0]));
        lemma_split_name(names[0]);
        assert(seq![names[0]] =~= names);
    } else {
        let rest = names.drop_last();
        assert forall|i: int| 0 <= i < rest.len() implies is_name(#[trigger] rest[i]) by {
            assert(rest[i] == names[i]);
        }
        lemma_split_joined(rest);
        assert(is_name(names[names.len() - 1]));
        lemma_split_name(names.last());
        lemma_split_concat(joined(rest), names.last());
        assert(rest + seq![names.last()] =~= names);
    }
}

/// Resolving an empty piece and then names appends the names.
proof fn lemma_resolve_names(base: Seq<Seq<char>>, names: Seq<Seq<char>>)
    requires
        forall|i: int| 0 <= i < names.len() ==> is_name(#[trigger] names[i]),
    ensures
        resolve(base, seq![Seq::<char>::empty()] + names) == Some(base + names),
    decreases names.len(),
{
    let ps = seq![Seq::<char>::empty()] + names;
    if names.len() == 0 {
        assert(ps.drop_last() =~= Seq::<Seq<char>>::empty());
        assert(resolve(base, ps.drop_last()) == Some(base));
        assert(ps.last() == Seq::<char>::empty());
        assert(step(base, ps.last()) == Some(base));
        assert(base + names =~= base);
    } else {
        let rest = names.drop_last();
        assert forall|i: int| 0 <= i < rest.len() implies is_name(#[trigger] rest[i]) by {
            assert(rest[i] == names[i]);
        }
        lemma_resolve_names(base, rest);
        assert(ps.drop_last() =~= seq![Seq::<char>::empty()] + rest);
        assert(ps.last() == names.last());
        assert(is_name(names[names.len() - 1]));
        assert(step(base + rest, ps.last()) == Some((base + rest).push(names.last())));
        assert((base + rest).push(names.last()) =~= base + names);
    }
}

/// The text of a normalized absolute path resolves, from the root, back to
/// the path.
proof fn lemma_text_resolves(r: Seq<Seq<char>>)
    requires
        is_normal_absolute(r),
    ensures
        path_text(r).len() > 0 && path_text(r)[0] == '/',
        resolve(seq![root_part()], split_slash(path_text(r))) == Some(r),
{
    let root = seq![root_part()];
    let names = r.skip(1);
    assert forall|i: int| 0 <= i < names.len() implies is_name(#[trigger] names[i]) by {
        assert(names[i] == r[i + 1]);
    }
    let t = path_text(r);
    assert(t == seq!['/'] + joined(names));
    assert(t.len() > 0 && t[0] == '/');
    assert(seq!['/'] + joined(names) =~= Seq::<char>::empty() + seq!['/'] + joined(names));
    lemma_split_concat(Seq::<char>::empty(), joined(names));
    assert(split_slash(Seq::<char>::empty()) == seq![Seq::<char>::empty()]);
    if names.len() > 0 {
        lemma_split_joined(names);
        lemma_resolve_names(root, names);
        assert(root + names =~= r);
    } else {
        assert(joined(names) =~= Seq::<char>::empty());
        let ps = seq![Seq::<char>::empty()] + seq![Seq::<char>::empty()];
        assert(split_slash(t) == ps);
        assert(ps.drop_last() =~= seq![Seq::<char>::empty()]);
        assert(seq![Seq::<char>::empty()].drop_last() =~= Seq::<Seq<char>>::empty());
        assert(resolve(root, Seq::<Seq<char>>::empty()) == Some(root));
        assert(step(root, Seq::<char>::empty()) == Some(root));
        assert(resolve(root, seq![Seq::<char>::empty()]) == Some(root));
        assert(r =~= root);
    }
}

/// Resolving two runs of pieces resolves the first, then the second.
proof fn lemma_resolve_concat(b: Seq<Seq<char>>, xs: Seq<Seq<char>>, ys: Seq<Seq<char>>)
    ensures
        resolve(b, xs + ys) == match resolve(b, xs) {
            None => None,
            Some(p) => resolve(p, ys),
        },
    decreases ys.len(),
{
    if ys.len() == 0 {
        assert(xs + ys =~= xs);
    } else {
        lemma_resolve_concat(b, xs, ys.drop_last());
        assert((xs + ys).drop_last() =~= xs + ys.drop_last());
        assert((xs + ys).last() == ys.last());
        if resolve(b, xs) is None {
            lemma_resolve_none(b, xs + ys.drop_last(), ys.last());
        }
    }
}

proof fn lemma_resolve_none(b: Seq<Seq<char>>, xs: Seq<Seq<char>>, y: Seq<char>)
    requires
        resolve(b, xs) is None,
    ensures
        resolve(b, xs.push(y)) is None,
{
    assert(xs.push(y).drop_last() =~= xs);
}

/// The text a path text is joined into against `base`, as `Path::join`
/// does: an absolute text stands alone, and so does any text against an
/// empty base; otherwise the base's text, a slash, and the text.
pub open spec fn joined_text(base: Seq<Seq<char>>, text: Seq<char>) -> Seq<char> {
    if (text.len() > 0 && text[0] == '/') || path_text(base).len() == 0 {
        text
    } else {
        path_text(base) + seq!['/'] + text
    }
}

/// A path text made absolute against any `base` and normalized: the joined
/// text, with `.`, `..` and empty components removed; `None` when `..`
/// would pass the root or when the joined path is not absolute.
pub open spec fn absolute_any(base: Seq<Seq<char>>, text: Seq<char>) -> Option<Seq<Seq<char>>> {
    let j = joined_text(base, text);
    if j.len() > 0 && j[0] == '/' {
        resolve(seq![root_part()], split_slash(j))
    } else {
        None
    }
}

/// Against a normalized absolute base, joining and normalizing is
/// resolving the text's pieces from the base.
pub proof fn lemma_absolute_any(base: Seq<Seq<char>>, text: Seq<char>)
    requires
        is_normal_absolute(base),
    ensures
        absolute_any(base, text) == absolute_spec(base, text),
{
    if !(text.len() > 0 && text[0] == '/') {
        lemma_text_resolves(base);
        let a = path_text(base);
        let j = a + seq!['/'] + text;
        assert(joined_text(base, text) == j);
        assert(j[0] == a[0]);
        lemma_split_concat(a, text);
        lemma_resolve_concat(seq![root_part()], split_slash(a), split_slash(text));
    }
}

/// Making a path absolute gives a normalized absolute path; a text that
/// starts at the root gives the same path whatever the base; making the
/// result's own text absolute, against any base, gives the result back;
/// and a relative text against a relative base is refused.
pub proof fn law_absolute_normalizes(base: Seq<Seq<char>>, other: Seq<Seq<char>>, text: Seq<char>)
    ensures
        absolute_any(base, text) matches Some(r) ==> is_normal_absolute(r) && absolute_any(other, path_text(r))
            == Some(r),
        text.len() > 0 && text[0] == '/' ==> absolute_any(base, text) == absolute_any(other, text),
        !(text.len() > 0 && text[0] == '/') && !(path_text(base).len() > 0 && path_text(base)[0] == '/')
            ==> absolute_any(base, text) is None,
{
    let root = seq![root_part()];
    assert(is_normal_absolute(root));
    let j = joined_text(base, text);
    lemma_split_slash_pieces(j);
    lemma_resolve_normal(root, split_slash(j));
    if let Some(r) = absolute_any(base, text) {
        lemma_text_resolves(r);
    }
    if !(text.len() > 0 && text[0] == '/') && path_text(base).len() > 0 {
        assert(j[0] == path_text(base)[0]);
    }
}

} // verus!
