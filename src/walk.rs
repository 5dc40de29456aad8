//! One root's upward walk: the levels of its ancestor chain, each as listed,
//! are matched nearest first, and the walk either stops at the first level
//! with a match or goes on to the root collecting every match.

use vstd::prelude::*;
use crate::matcher::{Matcher, MatcherModel, entry_name_matches};
use crate::path::{chain, depth, is_absolute, lemma_chain_shape, parent};

verus! {

/// One immediate child of a directory: its full path, and its base name when
/// that can be read as text.
#[derive(Clone, Debug)]
pub struct Entry {
    pub path: String,
    pub name: Option<String>,
}

/// One directory of an ancestor chain and what listing it gave: its entries,
/// or `None` when it could not be listed.
#[derive(Clone, Debug)]
pub struct Level {
    pub dir: String,
    pub entries: Option<Vec<Entry>>,
}

/// A problem met during a search that does not stop it.
#[derive(Clone, Debug, PartialEq, Eq)]
pub enum WalkError {
    /// A start path that could not be resolved; that root contributes nothing.
    Unresolved(String),
    /// A directory on the way up that could not be listed; that level
    /// contributes nothing and the walk goes on.
    Unreadable(String),
}

pub ghost struct EntryModel {
    pub path: Seq<char>,
    pub name: Option<Seq<char>>,
}

pub ghost struct LevelModel {
    pub dir: Seq<char>,
    pub entries: Option<Seq<EntryModel>>,
}

pub ghost enum WalkErrorModel {
    Unresolved(Seq<char>),
    Unreadable(Seq<char>),
}

impl View for Entry {
    type V = EntryModel;

    open spec fn view(&self) -> EntryModel {
        EntryModel {
            path: self.path@,
            name: match self.name {
                Some(n) => Some(n@),
                None => None,
            },
        }
    }
}

impl View for Level {
    type V = LevelModel;

    open spec fn view(&self) -> LevelModel {
        LevelModel {
            dir: self.dir@,
            entries: match self.entries {
                Some(es) => Some(es@.map_values(|e: Entry| e@)),
                None => None,
            },
        }
    }
}

impl View for WalkError {
    type V = WalkErrorModel;

    open spec fn view(&self) -> WalkErrorModel {
        match self {
            WalkError::Unresolved(p) => WalkErrorModel::Unresolved(p@),
            WalkError::Unreadable(d) => WalkErrorModel::Unreadable(d@),
        }
    }
}

/// The text of each string, in order.
pub open spec fn texts(v: Seq<String>) -> Seq<Seq<char>> {
    v.map_values(|s: String| s@)
}

/// The models of a sequence of levels.
pub open spec fn level_models(v: Seq<Level>) -> Seq<LevelModel> {
    v.map_values(|l: Level| l@)
}

/// The models of a sequence of errors.
pub open spec fn error_models(v: Seq<WalkError>) -> Seq<WalkErrorModel> {
    v.map_values(|e: WalkError| e@)
}

/// The paths of the entries that match, in listing order.
pub open spec fn entry_hits(m: MatcherModel, es: Seq<EntryModel>) -> Seq<Seq<char>>
    decreases es.len(),
{
    if es.len() == 0 {
        Seq::empty()
    } else {
        let rest = entry_hits(m, es.drop_last());
        if entry_name_matches(m, es.last().name) {
            rest.push(es.last().path)
        } else {
            rest
        }
    }
}

/// The matches that one level contributes; an unlisted level gives none.
pub open spec fn level_hits(m: MatcherModel, l: LevelModel) -> Seq<Seq<char>> {
    match l.entries {
        Some(es) => entry_hits(m, es),
        None => Seq::empty(),
    }
}

/// Whether the walk ends at this level: only when it stops at the first
/// match and the level has one.
pub open spec fn stops_here(m: MatcherModel, l: LevelModel, find_all: bool) -> bool {
    !find_all && level_hits(m, l).len() > 0
}

/// How many levels, from index `i` on, the walk lists before it ends: up to
/// and including the first level where it stops, else every level left.
pub open spec fn visited_from(
    m: MatcherModel,
    ls: Seq<LevelModel>,
    find_all: bool,
    i: int,
) -> int
    decreases ls.len() - i,
{
    if i >= ls.len() {
        ls.len() as int
    } else if stops_here(m, ls[i], find_all) {
        i + 1
    } else {
        visited_from(m, ls, find_all, i + 1)
    }
}

/// How many levels of the chain the walk lists.
pub open spec fn visited(m: MatcherModel, ls: Seq<LevelModel>, find_all: bool) -> int {
    visited_from(m, ls, find_all, 0)
}

/// The matches of the first `n` levels, nearest level first.
pub open spec fn hits_upto(m: MatcherModel, ls: Seq<LevelModel>, n: int) -> Seq<Seq<char>>
    decreases n,
{
    if n <= 0 {
        Seq::empty()
    } else {
        hits_upto(m, ls, n - 1) + level_hits(m, ls[n - 1])
    }
}

/// The unlisted directories among the first `n` levels, nearest first.
pub open spec fn errors_upto(ls: Seq<LevelModel>, n: int) -> Seq<WalkErrorModel>
    decreases n,
{
    if n <= 0 {
        Seq::empty()
    } else if ls[n - 1].entries is None {
        errors_upto(ls, n - 1).push(WalkErrorModel::Unreadable(ls[n - 1].dir))
    } else {
        errors_upto(ls, n - 1)
    }
}

/// What one root's walk finds.
pub open spec fn walk_hits(m: MatcherModel, ls: Seq<LevelModel>, find_all: bool) -> Seq<Seq<char>> {
    hits_upto(m, ls, visited(m, ls, find_all))
}

/// The listing failures one root's walk meets.
pub open spec fn walk_errors(m: MatcherModel, ls: Seq<LevelModel>, find_all: bool) -> Seq<WalkErrorModel> {
    errors_upto(ls, visited(m, ls, find_all))
}

/// The walk lists at least one level of a non-empty chain and never more
/// than the chain holds; it ends either at the last level or at a level
/// where it stops with a match, and it stops at no earlier level.
pub proof fn lemma_visited_bounds(m: MatcherModel, ls: Seq<LevelModel>, find_all: bool, i: int)
    requires
        0 <= i <= ls.len(),
    ensures
        i <= visited_from(m, ls, find_all, i) <= ls.len(),
        i < ls.len() ==> i < visited_from(m, ls, find_all, i),
        visited_from(m, ls, find_all, i) == ls.len() || stops_here(
            m,
            ls[visited_from(m, ls, find_all, i) - 1],
            find_all,
        ),
        forall|j: int|
            i <= j < visited_from(m, ls, find_all, i) - 1 ==> !stops_here(m, #[trigger] ls[j], find_all),
    decreases ls.len() - i,
{
    if i < ls.len() && !stops_here(m, ls[i], find_all) {
        lemma_visited_bounds(m, ls, find_all, i + 1);
    }
}

/// Termination: on the ancestor chain of an absolute start path, a walk lists
/// at least one and at most `depth(start) + 1` directories, and ends either at
/// the root or, earlier, at a level where it stops with a match.
pub proof fn lemma_walk_terminates(
    m: MatcherModel,
    start: Seq<char>,
    ls: Seq<LevelModel>,
    find_all: bool,
)
    requires
        is_absolute(start),
        ls.len() == chain(start).len(),
        forall|i: int| 0 <= i < ls.len() ==> (#[trigger] ls[i]).dir == chain(start)[i],
    ensures
        1 <= visited(m, ls, find_all) <= depth(start) + 1,
        parent(ls[visited(m, ls, find_all) - 1].dir) is None || stops_here(
            m,
            ls[visited(m, ls, find_all) - 1],
            find_all,
        ),
{
    lemma_chain_shape(start);
    lemma_visited_bounds(m, ls, find_all, 0);
    if visited(m, ls, find_all) == ls.len() {
        assert(ls[ls.len() - 1].dir == chain(start).last());
    }
}

proof fn lemma_hits_upto_none(m: MatcherModel, ls: Seq<LevelModel>, n: int)
    requires
        0 <= n <= ls.len(),
        forall|k: int| 0 <= k < n ==> level_hits(m, #[trigger] ls[k]).len() == 0,
    ensures
        hits_upto(m, ls, n) == Seq::<Seq<char>>::empty(),
    decreases n,
{
    if n > 0 {
        lemma_hits_upto_none(m, ls, n - 1);
        assert(level_hits(m, ls[n - 1]).len() == 0);
        assert(hits_upto(m, ls, n) =~= Seq::<Seq<char>>::empty());
    }
}

proof fn lemma_visited_first_hit(m: MatcherModel, ls: Seq<LevelModel>, i: int, j: int)
    requires
        0 <= j <= i < ls.len(),
        forall|k: int| 0 <= k < i ==> level_hits(m, #[trigger] ls[k]).len() == 0,
        level_hits(m, ls[i]).len() > 0,
    ensures
        visited_from(m, ls, false, j) == i + 1,
    decreases i - j,
{
    if j < i {
        assert(level_hits(m, ls[j]).len() == 0);
        lemma_visited_first_hit(m, ls, i, j + 1);
    }
}

/// First-match stop: when stopping at the first match, the result is exactly
/// the matches of the nearest level that has any, whatever lies above it.
pub proof fn lemma_first_match_stop(m: MatcherModel, ls: Seq<LevelModel>, i: int)
    requires
        0 <= i < ls.len(),
        forall|k: int| 0 <= k < i ==> level_hits(m, #[trigger] ls[k]).len() == 0,
        level_hits(m, ls[i]).len() > 0,
    ensures
        visited(m, ls, false) == i + 1,
        walk_hits(m, ls, false) == level_hits(m, ls[i]),
{
    lemma_visited_first_hit(m, ls, i, 0);
    lemma_hits_upto_none(m, ls, i);
    assert(hits_upto(m, ls, i + 1) =~= level_hits(m, ls[i]));
}

proof fn lemma_visited_all(m: MatcherModel, ls: Seq<LevelModel>, j: int)
    requires
        0 <= j <= ls.len(),
    ensures
        visited_from(m, ls, true, j) == ls.len(),
    decreases ls.len() - j,
{
    if j < ls.len() {
        lemma_visited_all(m, ls, j + 1);
    }
}

/// When collecting every match, the walk lists the whole chain.
pub proof fn lemma_collect_all_visits_chain(m: MatcherModel, ls: Seq<LevelModel>)
    ensures
        visited(m, ls, true) == ls.len(),
        walk_hits(m, ls, true) == hits_upto(m, ls, ls.len() as int),
{
    lemma_visited_all(m, ls, 0);
}

proof fn lemma_hits_upto_two(m: MatcherModel, ls: Seq<LevelModel>, i: int, j: int, n: int)
    requires
        0 <= i < j < ls.len(),
        0 <= n <= ls.len(),
        forall|k: int|
            0 <= k < ls.len() && k != i && k != j ==> level_hits(m, #[trigger] ls[k]).len() == 0,
    ensures
        hits_upto(m, ls, n) == (if n <= i {
            Seq::<Seq<char>>::empty()
        } else if n <= j {
            level_hits(m, ls[i])
        } else {
            level_hits(m, ls[i]) + level_hits(m, ls[j])
        }),
    decreases n,
{
    if n > 0 {
        lemma_hits_upto_two(m, ls, i, j, n - 1);
        let k = n - 1;
        if k != i && k != j {
            assert(level_hits(m, ls[k]).len() == 0);
            assert(hits_upto(m, ls, n) =~= hits_upto(m, ls, n - 1));
        } else if k == i {
            assert(hits_upto(m, ls, n) =~= level_hits(m, ls[i]));
        }
    }
}

/// Exhaustive collection: with matches at two levels of the chain and none
/// elsewhere, collecting every match yields both, the nearer level's first.
pub proof fn lemma_collect_all_both(m: MatcherModel, ls: Seq<LevelModel>, i: int, j: int)
    requires
        0 <= i < j < ls.len(),
        forall|k: int|
            0 <= k < ls.len() && k != i && k != j ==> level_hits(m, #[trigger] ls[k]).len() == 0,
    ensures
        walk_hits(m, ls, true) == level_hits(m, ls[i]) + level_hits(m, ls[j]),
{
    lemma_collect_all_visits_chain(m, ls);
    lemma_hits_upto_two(m, ls, i, j, ls.len() as int);
}

/// Whether every level of a chain was listed and none has a match.
pub open spec fn clean_and_empty(m: MatcherModel, ls: Seq<LevelModel>) -> bool {
    forall|k: int|
        0 <= k < ls.len() ==> (#[trigger] ls[k]).entries is Some && level_hits(m, ls[k]).len() == 0
}

proof fn lemma_errors_upto_none(ls: Seq<LevelModel>, n: int)
    requires
        0 <= n <= ls.len(),
        forall|k: int| 0 <= k < n ==> (#[trigger] ls[k]).entries is Some,
    ensures
        errors_upto(ls, n) == Seq::<WalkErrorModel>::empty(),
    decreases n,
{
    if n > 0 {
        assert(ls[n - 1].entries is Some);
        lemma_errors_upto_none(ls, n - 1);
    }
}

/// A walk over a chain that lists cleanly and matches nowhere finds nothing
/// and records no problem.
pub proof fn lemma_clean_walk_is_empty(m: MatcherModel, ls: Seq<LevelModel>, find_all: bool)
    requires
        clean_and_empty(m, ls),
    ensures
        walk_hits(m, ls, find_all) == Seq::<Seq<char>>::empty(),
        walk_errors(m, ls, find_all) == Seq::<WalkErrorModel>::empty(),
{
    lemma_visited_bounds(m, ls, find_all, 0);
    let n = visited(m, ls, find_all);
    assert forall|k: int| 0 <= k < n implies level_hits(m, #[trigger] ls[k]).len() == 0 by {
        assert(clean_and_empty(m, ls));
    }
    assert forall|k: int| 0 <= k < n implies (#[trigger] ls[k]).entries is Some by {
        assert(clean_and_empty(m, ls));
    }
    lemma_hits_upto_none(m, ls, n);
    lemma_errors_upto_none(ls, n);
}

/// Runs one root's walk over its ancestor chain `levels` (start directory
/// first, root last), appending its matches to `paths` and the directories it
/// could not list to `errors`.
pub fn walk(
    matcher: &Matcher,
    levels: &[Level],
    find_all: bool,
    paths: &mut Vec<String>,
    errors: &mut Vec<WalkError>,
)
    ensures
        texts(final(paths)@) == texts(old(paths)@) + walk_hits(
            matcher@,
            level_models(levels@),
            find_all,
        ),
        error_models(final(errors)@) == error_models(old(errors)@) + walk_errors(
            matcher@,
            level_models(levels@),
            find_all,
        ),
{
    let ghost ls = level_models(levels@);
    let ghost paths_before = texts(paths@);
    let ghost errors_before = error_models(errors@);
    let ghost total = visited(matcher@, ls, find_all);
    proof {
        lemma_visited_bounds(matcher@, ls, find_all, 0);
    }
    let mut i: usize = 0;
    while i < levels.len()
        invariant
            ls == level_models(levels@),
            paths_before == texts(old(paths)@),
            errors_before == error_models(old(errors)@),
            total == visited(matcher@, ls, find_all),
            0 <= i <= total,
            total == visited_from(matcher@, ls, find_all, i as int),
            total == ls.len() || stops_here(matcher@, ls[total - 1], find_all),
            texts(paths@) == paths_before + hits_upto(matcher@, ls, i as int),
            error_models(errors@) == errors_before + errors_upto(ls, i as int),
        decreases levels.len() - i,
    {
        let level = &levels[i];
        assert(ls[i as int] == level@);
        let mut found = false;
        match &level.entries {
            Some(es) => {
                let ghost es_m = es@.map_values(|e: Entry| e@);
                let ghost before = texts(paths@);
                let mut k: usize = 0;
                while k < es.len()
                    invariant
                        0 <= k <= es@.len(),
                        es_m == es@.map_values(|e: Entry| e@),
                        texts(paths@) == before + entry_hits(matcher@, es_m.take(k as int)),
                        found == (entry_hits(matcher@, es_m.take(k as int)).len() > 0),
                    decreases es.len() - k,
                {
                    let e = &es[k];
                    assert(es_m.take(k as int + 1).drop_last() =~= es_m.take(k as int));
                    assert(es_m.take(k as int + 1).last() == e@);
                    let hit = matcher.matches_entry(e.name.as_ref());
                    if hit {
                        let ghost old_paths = paths@;
                        paths.push(e.path.clone());
                        assert(texts(paths@) =~= texts(old_paths).push(e.path@));
                        found = true;
                    }
                    k = k + 1;
                }
                assert(es_m.take(es@.len() as int) =~= es_m);
                assert(found == (level_hits(matcher@, ls[i as int]).len() > 0));
            },
            None => {
                let ghost old_errors = errors@;
                errors.push(WalkError::Unreadable(level.dir.clone()));
                assert(error_models(errors@) =~= error_models(old_errors).push(
                    WalkErrorModel::Unreadable(level@.dir),
                ));
            },
        }
        proof {
            assert(hits_upto(matcher@, ls, i + 1) == hits_upto(matcher@, ls, i as int) + level_hits(matcher@, ls[i as int]));
            assert(texts(paths@) =~= paths_before + hits_upto(matcher@, ls, i + 1));
            assert(error_models(errors@) =~= errors_before + errors_upto(ls, i + 1));
            lemma_visited_bounds(matcher@, ls, find_all, i + 1);
        }
        assert(found == (level_hits(matcher@, ls[i as int]).len() > 0));
        i = i + 1;
        if found && !find_all {
            assert(stops_here(matcher@, ls[i - 1], find_all));
            assert(total == i);
            return;
        }
    }
}

} // verus!
