//! The decisions of watch mode: which file events matter, which directories
//! to watch, and when to compile and publish. Waiting for events, the
//! watcher itself and the compiler thread are the surrounding program's.
use vstd::prelude::*;

use crate::config::{under_any, Inputs, InputFile, Source};
use crate::path::{insert_path, is_prefix, path_views, paths_sorted, sort_paths, FsPath};
use crate::publication::{has_stage_prefix, stage_prefix};

verus! {

/// A name that carries the staging prefix.
pub open spec fn staged_name(name: Seq<char>) -> bool {
    stage_prefix().len() <= name.len() && name.take(stage_prefix().len() as int) == stage_prefix()
}

/// A path that a file event reports is worth a new generation: it is not
/// in an excluded directory, in the state directory, a generated output,
/// or a staging file; and it is the source, a recorded input, a directory
/// above a recorded input, or inside a globbed directory.
pub open spec fn path_relevant(
    p: Seq<Seq<char>>,
    source: Seq<Seq<char>>,
    root: Seq<Seq<char>>,
    inputs: Inputs,
    outputs: Seq<Seq<Seq<char>>>,
) -> bool {
    &&& !under_any(inputs.excluded@, p)
    &&& !is_prefix(root.push(".confset"@), p)
    &&& !outputs.contains(p)
    &&& !(p.len() > 0 && staged_name(p.last()))
    &&& (p == source || (exists|i: int|
        0 <= i < inputs.files@.len() && is_prefix(p, (#[trigger] inputs.files@[i]).path@)) || under_any(
        inputs.directories@,
        p,
    ))
}

/// Whether a file event is worth a new generation: it is not a mere access,
/// and one of its paths is relevant (see `path_relevant`).
pub fn relevant(access: bool, paths: &Vec<FsPath>, source: &Source, inputs: &Inputs, outputs: &Vec<FsPath>) -> (r:
    bool)
    ensures
        r == (!access && exists|k: int|
            0 <= k < paths@.len() && path_relevant(
                (#[trigger] paths@[k])@,
                source.path@,
                source.root@,
                *inputs,
                path_views(outputs@),
            )),
{
    if access {
        return false;
    }
    let state = source.root.join_name(".confset");
    let mut k: usize = 0;
    while k < paths.len()
        invariant
            !access,
            k <= paths@.len(),
            state@ == source.root@.push(".confset"@),
            forall|m: int|
                0 <= m < k ==> !path_relevant(
                    (#[trigger] paths@[m])@,
                    source.path@,
                    source.root@,
                    *inputs,
                    path_views(outputs@),
                ),
        decreases paths@.len() - k,
    {
        if path_matters(&paths[k], source, &state, inputs, outputs) {
            assert(path_relevant(paths@[k as int]@, source.path@, source.root@, *inputs, path_views(outputs@)));
            return true;
        }
        k = k + 1;
    }
    false
}

fn path_matters(p: &FsPath, source: &Source, state: &FsPath, inputs: &Inputs, outputs: &Vec<FsPath>) -> (r: bool)
    requires
        state@ == source.root@.push(".confset"@),
    ensures
        r == path_relevant(p@, source.path@, source.root@, *inputs, path_views(outputs@)),
{
    if inputs.ignores(p) || p.starts_with(state) || crate::path::path_in(outputs, p) {
        return false;
    }
    let n = p.parts.len();
    if n > 0 && has_stage_prefix(p.parts[n - 1].as_str()) {
        return false;
    }
    if p.same(&source.path) {
        return true;
    }
    let ghost clear = !under_any(inputs.excluded@, p@) && !is_prefix(source.root@.push(".confset"@), p@)
        && !path_views(outputs@).contains(p@) && !(p@.len() > 0 && staged_name(p@.last())) && p@ != source.path@;
    assert(clear);
    let mut i: usize = 0;
    while i < inputs.files.len()
        invariant
            clear == (!under_any(inputs.excluded@, p@) && !is_prefix(source.root@.push(".confset"@), p@)
                && !path_views(outputs@).contains(p@) && !(p@.len() > 0 && staged_name(p@.last())) && p@
                != source.path@),
            clear,
            i <= inputs.files@.len(),
            forall|m: int| 0 <= m < i ==> !is_prefix(p@, (#[trigger] inputs.files@[m]).path@),
        decreases inputs.files@.len() - i,
    {
        if inputs.files[i].path.starts_with(p) {
            assert(is_prefix(p@, inputs.files@[i as int].path@));
            return true;
        }
        i = i + 1;
    }
    let mut d: usize = 0;
    while d < inputs.directories.len()
        invariant
            clear == (!under_any(inputs.excluded@, p@) && !is_prefix(source.root@.push(".confset"@), p@)
                && !path_views(outputs@).contains(p@) && !(p@.len() > 0 && staged_name(p@.last())) && p@
                != source.path@),
            clear,
            forall|m: int| 0 <= m < inputs.files@.len() ==> !is_prefix(p@, (#[trigger] inputs.files@[m]).path@),
            d <= inputs.directories@.len(),
            forall|m: int| 0 <= m < d ==> !is_prefix((#[trigger] inputs.directories@[m])@, p@),
        decreases inputs.directories@.len() - d,
    {
        if p.starts_with(&inputs.directories[d]) {
            assert(is_prefix(inputs.directories@[d as int]@, p@));
            return true;
        }
        d = d + 1;
    }
    false
}

/// A watched directory and whether its subdirectories are watched too.
pub struct Watch {
    pub dir: FsPath,
    pub recursive: bool,
}

/// A change to what the watcher watches.
pub enum WatchAction {
    /// Start watching a directory.
    Watch { dir: FsPath, recursive: bool },
    /// Stop watching a directory.
    Unwatch(FsPath),
}

/// A change to the watcher as plain values.
pub enum WatchActionView {
    Watch(Seq<Seq<char>>, bool),
    Unwatch(Seq<Seq<char>>),
}

impl View for WatchAction {
    type V = WatchActionView;

    open spec fn view(&self) -> WatchActionView {
        match self {
            WatchAction::Watch { dir, recursive } => WatchActionView::Watch(dir@, *recursive),
            WatchAction::Unwatch(d) => WatchActionView::Unwatch(d@),
        }
    }
}

/// The views of watched directories.
pub open spec fn watch_views(v: Seq<Watch>) -> Seq<(Seq<Seq<char>>, bool)> {
    v.map_values(|w: Watch| (w.dir@, w.recursive))
}

/// The views of watcher changes.
pub open spec fn action_views(v: Seq<WatchAction>) -> Seq<WatchActionView> {
    v.map_values(|a: WatchAction| a@)
}

/// A directory lies strictly inside one that is watched recursively.
pub open spec fn covered(d: Seq<Seq<char>>, recursive: Seq<Seq<Seq<char>>>) -> bool {
    exists|k: int| 0 <= k < recursive.len() && (#[trigger] recursive[k]) != d && is_prefix(recursive[k], d)
}

/// A directory to watch: one holding the source or a recorded input
/// (`files`), or one holding globbed files (`recursive`), unless a
/// recursively watched one already covers it.
pub open spec fn wanted(d: Seq<Seq<char>>, files: Seq<Seq<Seq<char>>>, recursive: Seq<Seq<Seq<char>>>) -> bool {
    (files.contains(d) || recursive.contains(d)) && !covered(d, recursive)
}

/// How a directory is watched now, if it is.
pub open spec fn watched_mode(w: Seq<(Seq<Seq<char>>, bool)>, d: Seq<Seq<char>>) -> Option<bool>
    decreases w.len(),
{
    if w.len() == 0 {
        None
    } else if w[0].0 == d {
        Some(w[0].1)
    } else {
        watched_mode(w.drop_first(), d)
    }
}

/// The changes that bring the first `n` wanted directories (in order) from
/// how they are watched to how they should be: nothing when already so; a
/// directory watched the other way is unwatched first.
pub open spec fn start_actions(desired: Seq<(Seq<Seq<char>>, bool)>, w: Seq<(Seq<Seq<char>>, bool)>, n: int) -> Seq<
    WatchActionView,
>
    decreases n,
{
    if n <= 0 {
        Seq::empty()
    } else {
        let prev = start_actions(desired, w, n - 1);
        let (d, m) = desired[n - 1];
        match watched_mode(w, d) {
            Some(old) => if old == m {
                prev
            } else {
                prev + seq![WatchActionView::Unwatch(d), WatchActionView::Watch(d, m)]
            },
            None => prev.push(WatchActionView::Watch(d, m)),
        }
    }
}

/// The changes that stop watching the first `n` watched directories (in
/// order) that are no longer wanted.
pub open spec fn stop_actions(w: Seq<(Seq<Seq<char>>, bool)>, desired: Seq<(Seq<Seq<char>>, bool)>, n: int) -> Seq<
    WatchActionView,
>
    decreases n,
{
    if n <= 0 {
        Seq::empty()
    } else {
        let prev = stop_actions(w, desired, n - 1);
        if watched_mode(desired, w[n - 1].0) is Some {
            prev
        } else {
            prev.push(WatchActionView::Unwatch(w[n - 1].0))
        }
    }
}

/// What to watch next, and the watcher changes that get there from what is
/// watched now.
pub struct WatchPlan {
    pub desired: Vec<Watch>,
    pub actions: Vec<WatchAction>,
}

fn mode_of(w: &Vec<Watch>, d: &FsPath) -> (r: Option<bool>)
    ensures
        r == watched_mode(watch_views(w@), d@),
{
    let mut i: usize = 0;
    assert(watch_views(w@).skip(0) =~= watch_views(w@));
    while i < w.len()
        invariant
            i <= w@.len(),
            watched_mode(watch_views(w@), d@) == watched_mode(watch_views(w@).skip(i as int), d@),
        decreases w@.len() - i,
    {
        assert(watch_views(w@).skip(i as int)[0] == (w@[i as int].dir@, w@[i as int].recursive));
        if w[i].dir.same(d) {
            return Some(w[i].recursive);
        }
        assert(watch_views(w@).skip(i as int).drop_first() =~= watch_views(w@).skip(i + 1));
        i = i + 1;
    }
    None
}

fn is_covered(d: &FsPath, recursive: &Vec<FsPath>) -> (r: bool)
    ensures
        r == covered(d@, path_views(recursive@)),
{
    let mut k: usize = 0;
    while k < recursive.len()
        invariant
            k <= recursive@.len(),
            forall|m: int|
                0 <= m < k ==> !((#[trigger] path_views(recursive@)[m]) != d@ && is_prefix(
                    path_views(recursive@)[m],
                    d@,
                )),
        decreases recursive@.len() - k,
    {
        if !recursive[k].same(d) && d.starts_with(&recursive[k]) {
            assert(path_views(recursive@)[k as int] == recursive@[k as int]@);
            return true;
        }
        k = k + 1;
    }
    false
}

/// Some watch is of directory `d`.
pub open spec fn has_watch(v: Seq<Watch>, d: Seq<Seq<char>>) -> bool {
    exists|a: int| 0 <= a < v.len() && (#[trigger] v[a]).dir@ == d
}

/// Among the first `j` candidates, `d` is one that no recursive watch covers.
pub open spec fn kept_before(cs: Seq<Seq<Seq<char>>>, j: int, d: Seq<Seq<char>>, rv: Seq<Seq<Seq<char>>>) -> bool {
    exists|m: int| 0 <= m < j && #[trigger] cs[m] == d && !covered(d, rv)
}

/// The directories of watches.
pub open spec fn watch_dirs(v: Seq<Watch>) -> Seq<Seq<Seq<char>>> {
    v.map_values(|w: Watch| w.dir@)
}

proof fn lemma_watched_mode(w: Seq<(Seq<Seq<char>>, bool)>, d: Seq<Seq<char>>)
    ensures
        watched_mode(w, d) is Some <==> exists|i: int| 0 <= i < w.len() && (#[trigger] w[i]).0 == d,
        watched_mode(w, d) matches Some(m) ==> exists|i: int| 0 <= i < w.len() && (#[trigger] w[i]).0 == d && w[i].1 == m,
    decreases w.len(),
{
    if w.len() > 0 {
        lemma_watched_mode(w.drop_first(), d);
        if w[0].0 != d {
            if exists|i: int| 0 <= i < w.len() && (#[trigger] w[i]).0 == d {
                let i = choose|i: int| 0 <= i < w.len() && (#[trigger] w[i]).0 == d;
                assert(w.drop_first()[i - 1] == w[i]);
            }
            if watched_mode(w, d) is Some {
                let m = watched_mode(w, d)->0;
                let i = choose|i: int|
                    0 <= i < w.len() - 1 && (#[trigger] w.drop_first()[i]).0 == d && w.drop_first()[i].1 == m;
                assert(w[i + 1] == w.drop_first()[i]);
            }
        }
    }
}

/// Decides what to watch: the directories holding the source and the
/// recorded inputs, without recursion (`files`, one per file: the nearest
/// existing directory above it); the directories that globs were expanded
/// in, with recursion (`recursive`); minus those inside a recursively
/// watched one; ordered by path. The changes start, in that order, each
/// directory not yet watched the wanted way, then stop, in the order of
/// `watched`, each watched directory no longer wanted.
pub fn plan_watches(files: &Vec<FsPath>, recursive: &Vec<FsPath>, watched: &Vec<Watch>) -> (r: WatchPlan)
    ensures
        paths_sorted(watch_dirs(r.desired@)),
        forall|d: Seq<Seq<char>>|
            #[trigger] watched_mode(watch_views(r.desired@), d) is Some <==> wanted(
                d,
                path_views(files@),
                path_views(recursive@),
            ),
        forall|d: Seq<Seq<char>>|
            #[trigger] watched_mode(watch_views(r.desired@), d) matches Some(m) ==> m == path_views(
                recursive@,
            ).contains(d),
        action_views(r.actions@) == start_actions(
            watch_views(r.desired@),
            watch_views(watched@),
            r.desired@.len() as int,
        ) + stop_actions(watch_views(watched@), watch_views(r.desired@), watched@.len() as int),
{
    let mut all: Vec<FsPath> = Vec::new();
    let mut i: usize = 0;
    while i < files.len()
        invariant
            i <= files@.len(),
            path_views(all@) == path_views(files@).take(i as int),
        decreases files@.len() - i,
    {
        let ghost before = path_views(all@);
        let p = files[i].duplicate();
        let ghost pv = p@;
        all.push(p);
        assert(path_views(all@) =~= before.push(pv));
        assert(path_views(files@).take(i + 1) =~= path_views(files@).take(i as int).push(pv));
        i = i + 1;
    }
    assert(path_views(files@).take(files@.len() as int) =~= path_views(files@));
    let mut k: usize = 0;
    while k < recursive.len()
        invariant
            k <= recursive@.len(),
            path_views(all@) == path_views(files@) + path_views(recursive@).take(k as int),
        decreases recursive@.len() - k,
    {
        let ghost before = path_views(all@);
        let p = recursive[k].duplicate();
        let ghost pv = p@;
        all.push(p);
        assert(path_views(all@) =~= before.push(pv));
        assert(path_views(recursive@).take(k + 1) =~= path_views(recursive@).take(k as int).push(pv));
        k = k + 1;
    }
    assert(path_views(recursive@).take(recursive@.len() as int) =~= path_views(recursive@));
    let candidates = sort_paths(&all);
    let ghost cs = path_views(candidates@);
    let ghost fv = path_views(files@);
    let ghost rv = path_views(recursive@);
    let mut desired: Vec<Watch> = Vec::new();
    let mut j: usize = 0;
    while j < candidates.len()
        invariant
            j <= candidates@.len(),
            cs == path_views(candidates@),
            fv == path_views(files@),
            rv == path_views(recursive@),
            paths_sorted(cs),
            paths_sorted(watch_dirs(desired@)),
            forall|a: int, m: int|
                0 <= a < desired@.len() && j <= m < cs.len() ==> crate::path::path_lt(
                    (#[trigger] desired@[a]).dir@,
                    #[trigger] cs[m],
                ),
            forall|a: int| 0 <= a < desired@.len() ==> (#[trigger] desired@[a]).recursive == rv.contains(desired@[a].dir@),
            forall|d: Seq<Seq<char>>|
                #![trigger has_watch(desired@, d)]
                #![trigger kept_before(cs, j as int, d, rv)]
                has_watch(desired@, d) <==> kept_before(cs, j as int, d, rv),
        decreases candidates@.len() - j,
    {
        let c = &candidates[j];
        assert(cs[j as int] == c@);
        if !is_covered(c, recursive) {
            let rec = crate::path::path_in(recursive, c);
            let ghost before = desired@;
            desired.push(Watch { dir: c.duplicate(), recursive: rec });
            assert forall|a: int, b: int| 0 <= a < b < desired@.len() implies crate::path::path_lt(
                #[trigger] watch_dirs(desired@)[a],
                #[trigger] watch_dirs(desired@)[b],
            ) by {
                if b == desired@.len() - 1 {
                    assert(before[a] == desired@[a]);
                } else {
                    assert(watch_dirs(before)[a] == watch_dirs(desired@)[a]);
                    assert(watch_dirs(before)[b] == watch_dirs(desired@)[b]);
                }
            }
            assert forall|d: Seq<Seq<char>>|
                #![trigger has_watch(desired@, d)]
                #![trigger kept_before(cs, j + 1, d, rv)]
                has_watch(desired@, d) <==> kept_before(cs, j + 1, d, rv) by {
                if has_watch(desired@, d) {
                    let a = choose|a: int| 0 <= a < desired@.len() && (#[trigger] desired@[a]).dir@ == d;
                    if a < before.len() {
                        assert(before[a] == desired@[a]);
                        assert(has_watch(before, d));
                    } else {
                        assert(cs[j as int] == d);
                    }
                }
                if kept_before(cs, j + 1, d, rv) {
                    let m = choose|m: int| 0 <= m < j + 1 && #[trigger] cs[m] == d && !covered(d, rv);
                    if m < j {
                        assert(kept_before(cs, j as int, d, rv));
                        assert(has_watch(before, d));
                        let a = choose|a: int| 0 <= a < before.len() && (#[trigger] before[a]).dir@ == d;
                        assert(desired@[a] == before[a]);
                    } else {
                        assert(desired@[desired@.len() - 1].dir@ == d);
                    }
                }
            }
            assert forall|a: int, m: int|
                0 <= a < desired@.len() && j + 1 <= m < cs.len() implies crate::path::path_lt(
                (#[trigger] desired@[a]).dir@,
                #[trigger] cs[m],
            ) by {
                if a < before.len() {
                    assert(before[a] == desired@[a]);
                }
            }
        }
        j = j + 1;
    }
    proof {
        assert forall|d: Seq<Seq<char>>|
            #[trigger] watched_mode(watch_views(desired@), d) is Some <==> wanted(d, fv, rv) by {
            lemma_watched_mode(watch_views(desired@), d);
            if has_watch(desired@, d) {
                let a = choose|a: int| 0 <= a < desired@.len() && (#[trigger] desired@[a]).dir@ == d;
                assert(watch_views(desired@)[a].0 == d);
            }
            if exists|i: int| 0 <= i < watch_views(desired@).len() && (#[trigger] watch_views(desired@)[i]).0 == d {
                let i = choose|i: int| 0 <= i < watch_views(desired@).len() && (#[trigger] watch_views(desired@)[i]).0 == d;
                assert(desired@[i].dir@ == d);
            }
            if wanted(d, fv, rv) {
                assert((fv + rv).to_set().contains(d)) by {
                    if fv.contains(d) {
                        let q = choose|q: int| 0 <= q < fv.len() && fv[q] == d;
                        assert((fv + rv)[q] == d);
                    } else {
                        let q = choose|q: int| 0 <= q < rv.len() && rv[q] == d;
                        assert((fv + rv)[fv.len() + q] == d);
                    }
                }
                assert(cs.to_set().contains(d));
                let m = choose|m: int| 0 <= m < cs.len() && cs[m] == d;
                assert(kept_before(cs, cs.len() as int, d, rv));
            }
            if kept_before(cs, cs.len() as int, d, rv) {
                let m = choose|m: int| 0 <= m < cs.len() && #[trigger] cs[m] == d && !covered(d, rv);
                assert(cs.to_set().contains(d));
                assert((fv + rv).to_set().contains(d));
                let q = choose|q: int| 0 <= q < (fv + rv).len() && (fv + rv)[q] == d;
                if q < fv.len() {
                    assert(fv[q] == d);
                } else {
                    assert(rv[q - fv.len()] == d);
                }
            }
        }
        assert forall|d: Seq<Seq<char>>|
            #[trigger] watched_mode(watch_views(desired@), d) is Some implies watched_mode(watch_views(desired@), d)->0
                == rv.contains(d) by {
            lemma_watched_mode(watch_views(desired@), d);
            let m = watched_mode(watch_views(desired@), d)->0;
            let i = choose|i: int| 0 <= i < watch_views(desired@).len() && (#[trigger] watch_views(desired@)[i]).0 == d
                && watch_views(desired@)[i].1 == m;
            assert(desired@[i].dir@ == d && desired@[i].recursive == m);
        }
    }
    let ghost dv = watch_views(desired@);
    let ghost wv = watch_views(watched@);
    let mut actions: Vec<WatchAction> = Vec::new();
    assert(action_views(actions@) =~= start_actions(dv, wv, 0));
    let mut a: usize = 0;
    while a < desired.len()
        invariant
            a <= desired@.len(),
            dv == watch_views(desired@),
            wv == watch_views(watched@),
            action_views(actions@) == start_actions(dv, wv, a as int),
        decreases desired@.len() - a,
    {
        let ghost before = action_views(actions@);
        let d = &desired[a];
        assert(dv[a as int] == (d.dir@, d.recursive));
        match mode_of(watched, &d.dir) {
            Some(old) => {
                if old != d.recursive {
                    actions.push(WatchAction::Unwatch(d.dir.duplicate()));
                    actions.push(WatchAction::Watch { dir: d.dir.duplicate(), recursive: d.recursive });
                    assert(action_views(actions@) =~= before + seq![
                        WatchActionView::Unwatch(d.dir@),
                        WatchActionView::Watch(d.dir@, d.recursive),
                    ]);
                }
            },
            None => {
                actions.push(WatchAction::Watch { dir: d.dir.duplicate(), recursive: d.recursive });
                assert(action_views(actions@) =~= before.push(WatchActionView::Watch(d.dir@, d.recursive)));
            },
        }
        a = a + 1;
    }
    let ghost started = action_views(actions@);
    assert(action_views(actions@) =~= started + stop_actions(wv, dv, 0));
    let mut b: usize = 0;
    while b < watched.len()
        invariant
            b <= watched@.len(),
            dv == watch_views(desired@),
            wv == watch_views(watched@),
            action_views(actions@) == started + stop_actions(wv, dv, b as int),
        decreases watched@.len() - b,
    {
        let ghost before = action_views(actions@);
        assert(wv[b as int] == (watched@[b as int].dir@, watched@[b as int].recursive));
        if mode_of(&desired, &watched[b].dir).is_none() {
            actions.push(WatchAction::Unwatch(watched[b].dir.duplicate()));
            assert(action_views(actions@) =~= before.push(WatchActionView::Unwatch(watched@[b as int].dir@)));
        }
        b = b + 1;
    }
    WatchPlan { desired, actions }
}

/// The pause that lets a burst of saves settle before compiling, in
/// milliseconds.
pub const SAVE_DEBOUNCE: u64 = 150;

/// The moment a pause starting `now` ends; the clock's end caps it.
pub open spec fn after_pause(now: u64) -> u64 {
    if now > u64::MAX - SAVE_DEBOUNCE {
        u64::MAX
    } else {
        (now + SAVE_DEBOUNCE) as u64
    }
}

fn pause_end(now: u64) -> (r: u64)
    ensures
        r == after_pause(now),
{
    if now > u64::MAX - SAVE_DEBOUNCE {
        u64::MAX
    } else {
        now + SAVE_DEBOUNCE
    }
}

/// Where watch mode stands between events: whether a compilation runs, and
/// when the next one is due (milliseconds on a monotonic clock), if one is.
pub struct WatchState {
    pub compiling: bool,
    pub deadline: Option<u64>,
}

impl WatchState {
    /// Watch mode starts with a compilation due at once.
    pub fn new(now: u64) -> (r: WatchState)
        ensures
            r == (WatchState { compiling: false, deadline: Some(now) }),
    {
        WatchState { compiling: false, deadline: Some(now) }
    }

    /// Whether to start a compilation now: none runs and one is due. Starting
    /// marks one as running and clears the deadline.
    pub fn start_due(&mut self, now: u64) -> (r: bool)
        ensures
            r == (!old(self).compiling && (old(self).deadline matches Some(d) && now >= d)),
            r ==> *final(self) == (WatchState { compiling: true, deadline: None }),
            !r ==> *final(self) == *old(self),
    {
        let due = match self.deadline {
            Some(d) => !self.compiling && now >= d,
            None => false,
        };
        if due {
            self.compiling = true;
            self.deadline = None;
        }
        due
    }

    /// Until when to wait for the next event: the deadline, when one is set
    /// and no compilation runs; otherwise (`None`) until an event comes.
    pub fn wait_until(&self) -> (r: Option<u64>)
        ensures
            r == (if self.compiling {
                None
            } else {
                self.deadline
            }),
    {
        if self.compiling {
            None
        } else {
            self.deadline
        }
    }

    /// A relevant file event: the next compilation is due after a pause.
    pub fn on_change(&mut self, now: u64)
        ensures
            *final(self) == (WatchState { compiling: old(self).compiling, deadline: Some(after_pause(now)) }),
    {
        self.deadline = Some(pause_end(now));
    }

    /// A compilation finished. Its plan is published (`true`) only when no
    /// change arrived meanwhile and no input changed since it was read;
    /// otherwise another compilation is due, no later than already planned.
    pub fn on_compiled(&mut self, changed: bool, now: u64) -> (r: bool)
        ensures
            r == (old(self).deadline is None && !changed),
            final(self).compiling == false,
            r ==> final(self).deadline is None,
            !r ==> final(self).deadline == (match old(self).deadline {
                Some(d) => Some(d),
                None => Some(after_pause(now)),
            }),
    {
        self.compiling = false;
        if self.deadline.is_some() || changed {
            if self.deadline.is_none() {
                self.deadline = Some(pause_end(now));
            }
            return false;
        }
        true
    }

    /// Publication failed. When an input changed meanwhile, another
    /// compilation is due after a pause and the failure is not reported
    /// (`false`); otherwise it is reported and the outputs stay as they
    /// were until the next change.
    pub fn on_failure(&mut self, changed: bool, now: u64) -> (r: bool)
        ensures
            r == !changed,
            changed ==> *final(self) == (WatchState { compiling: old(self).compiling, deadline: Some(after_pause(now)) }),
            !changed ==> *final(self) == *old(self),
    {
        if changed {
            self.deadline = Some(pause_end(now));
            false
        } else {
            true
        }
    }
}

} // verus!
