//! The searcher: its configuration, and the search over several start
//! directories, each walked on its own and reported in the order given.

use vstd::prelude::*;
use crate::matcher::{InvalidPattern, MatchMode, Matcher, MatcherModel, model_of, term_accepted};
use crate::path::parent;
use crate::walk::{
    Level,
    LevelModel,
    WalkError,
    WalkErrorModel,
    clean_and_empty,
    error_models,
    lemma_clean_walk_is_empty,
    level_models,
    texts,
    walk,
    walk_errors,
    walk_hits,
};

verus! {

/// A start directory as the caller resolved it: the path it was given as,
/// and its ancestor chain (start first, root last) with each level's listing,
/// or `None` when the path could not be resolved.
#[derive(Clone, Debug)]
pub struct Root {
    pub given: String,
    pub levels: Option<Vec<Level>>,
}

pub ghost struct RootModel {
    pub given: Seq<char>,
    pub levels: Option<Seq<LevelModel>>,
}

impl View for Root {
    type V = RootModel;

    open spec fn view(&self) -> RootModel {
        RootModel {
            given: self.given@,
            levels: match self.levels {
                Some(ls) => Some(level_models(ls@)),
                None => None,
            },
        }
    }
}

/// The models of a sequence of roots.
pub open spec fn root_models(v: Seq<Root>) -> Seq<RootModel> {
    v.map_values(|r: Root| r@)
}

/// What one root contributes; an unresolved root contributes nothing.
pub open spec fn root_hits(m: MatcherModel, r: RootModel, find_all: bool) -> Seq<Seq<char>> {
    match r.levels {
        Some(ls) => walk_hits(m, ls, find_all),
        None => Seq::empty(),
    }
}

/// The problems one root's walk records.
pub open spec fn root_errors(m: MatcherModel, r: RootModel, find_all: bool) -> Seq<WalkErrorModel> {
    match r.levels {
        Some(ls) => walk_errors(m, ls, find_all),
        None => seq![WalkErrorModel::Unresolved(r.given)],
    }
}

/// The matches of every root, each root's in full before the next one's.
pub open spec fn search_hits(m: MatcherModel, rs: Seq<RootModel>, find_all: bool) -> Seq<Seq<char>>
    decreases rs.len(),
{
    if rs.len() == 0 {
        Seq::empty()
    } else {
        search_hits(m, rs.drop_last(), find_all) + root_hits(m, rs.last(), find_all)
    }
}

/// The problems of every root, in the order of the roots.
pub open spec fn search_errors(m: MatcherModel, rs: Seq<RootModel>, find_all: bool) -> Seq<WalkErrorModel>
    decreases rs.len(),
{
    if rs.len() == 0 {
        Seq::empty()
    } else {
        search_errors(m, rs.drop_last(), find_all) + root_errors(m, rs.last(), find_all)
    }
}

/// Two roots are searched independently: the result is the first root's
/// matches followed by the second's. So when one root's chain has no match,
/// both orders give exactly the other root's matches.
pub proof fn lemma_roots_independent(m: MatcherModel, a: RootModel, b: RootModel, find_all: bool)
    ensures
        search_hits(m, seq![a, b], find_all) == root_hits(m, a, find_all) + root_hits(m, b, find_all),
        search_hits(m, seq![b, a], find_all) == root_hits(m, b, find_all) + root_hits(m, a, find_all),
        root_hits(m, a, find_all).len() == 0 ==> search_hits(m, seq![a, b], find_all) == root_hits(
            m,
            b,
            find_all,
        ) && search_hits(m, seq![b, a], find_all) == root_hits(m, b, find_all),
{
    assert(seq![a, b].drop_last() =~= seq![a]);
    assert(seq![a].drop_last() =~= Seq::<RootModel>::empty());
    assert(seq![b, a].drop_last() =~= seq![b]);
    assert(seq![b].drop_last() =~= Seq::<RootModel>::empty());
    assert(search_hits(m, Seq::<RootModel>::empty(), find_all) =~= Seq::<Seq<char>>::empty());
    assert(seq![a].last() == a && seq![b].last() == b);
    assert(seq![a, b].last() == b && seq![b, a].last() == a);
    assert(search_hits(m, seq![a], find_all) =~= root_hits(m, a, find_all));
    assert(search_hits(m, seq![b], find_all) =~= root_hits(m, b, find_all));
    if root_hits(m, a, find_all).len() == 0 {
        assert(search_hits(m, seq![a, b], find_all) =~= root_hits(m, b, find_all));
        assert(search_hits(m, seq![b, a], find_all) =~= root_hits(m, b, find_all));
    }
}

/// Whether every root resolved and its whole chain lists cleanly and matches
/// nowhere.
pub open spec fn all_clean_and_empty(m: MatcherModel, rs: Seq<RootModel>) -> bool {
    forall|i: int|
        0 <= i < rs.len() ==> match (#[trigger] rs[i]).levels {
            Some(ls) => clean_and_empty(m, ls),
            None => false,
        }
}

/// A search whose every ascent is clean and finds nothing gives an empty
/// result with no recorded problem.
pub proof fn lemma_clean_search_is_empty(m: MatcherModel, rs: Seq<RootModel>, find_all: bool)
    requires
        all_clean_and_empty(m, rs),
    ensures
        search_hits(m, rs, find_all) == Seq::<Seq<char>>::empty(),
        search_errors(m, rs, find_all) == Seq::<WalkErrorModel>::empty(),
    decreases rs.len(),
{
    if rs.len() > 0 {
        let init = rs.drop_last();
        assert forall|i: int| 0 <= i < init.len() implies match (#[trigger] init[i]).levels {
            Some(ls) => clean_and_empty(m, ls),
            None => false,
        } by {
            assert(init[i] == rs[i]);
        }
        lemma_clean_search_is_empty(m, init, find_all);
        assert(rs.last() == rs[rs.len() - 1]);
        let ls = rs.last().levels.unwrap();
        lemma_clean_walk_is_empty(m, ls, find_all);
        assert(search_hits(m, rs, find_all) =~= Seq::<Seq<char>>::empty());
        assert(search_errors(m, rs, find_all) =~= Seq::<WalkErrorModel>::empty());
    }
}

/// The outcome of a search: every match found, and the problems met on the
/// way, which never hide the matches found elsewhere.
#[derive(Clone, Debug)]
pub struct SearchResult {
    pub paths: Vec<String>,
    pub errors: Vec<WalkError>,
}

struct Config {
    find_all: bool,
    regex: bool,
}

/// What a searcher is set to do.
pub ghost struct SearcherModel {
    pub find_all: bool,
    pub mode: MatchMode,
}

/// Searches upward from start directories for entries whose base name
/// matches a term.
pub struct Searcher {
    config: Config,
}

impl View for Searcher {
    type V = SearcherModel;

    closed spec fn view(&self) -> SearcherModel {
        SearcherModel {
            find_all: self.config.find_all,
            mode: if self.config.regex {
                MatchMode::Pattern
            } else {
                MatchMode::Exact
            },
        }
    }
}

impl Searcher {
    /// A searcher that reads the term as a pattern and stops each walk at
    /// the first level with a match.
    pub fn build() -> (r: Searcher)
        ensures
            r@ == (SearcherModel { find_all: false, mode: MatchMode::Pattern }),
    {
        Searcher { config: Config { find_all: false, regex: true } }
    }

    /// The same searcher, reading the term as a pattern when `reg` holds and
    /// as an exact name otherwise.
    pub fn regex(self, reg: bool) -> (r: Searcher)
        ensures
            r@.find_all == self@.find_all,
            r@.mode == (if reg {
                MatchMode::Pattern
            } else {
                MatchMode::Exact
            }),
    {
        Searcher { config: Config { find_all: self.config.find_all, regex: reg } }
    }

    /// The same searcher, collecting every match up to the root when `all`
    /// holds and stopping at the first level with a match otherwise.
    pub fn find_all(self, all: bool) -> (r: Searcher)
        ensures
            r@.mode == self@.mode,
            r@.find_all == all,
    {
        Searcher { config: Config { find_all: all, regex: self.config.regex } }
    }

    /// How the term is read.
    pub fn mode(&self) -> (r: MatchMode)
        ensures
            r == self@.mode,
    {
        if self.config.regex {
            MatchMode::Pattern
        } else {
            MatchMode::Exact
        }
    }

    /// Whether `path` is the root, the one directory without a parent.
    pub fn is_root(&self, path: &str) -> (r: bool)
        ensures
            r == (parent(path@) is None),
    {
        path.unicode_len() <= 1
    }

    /// Searches from each root in turn. Fails only when the term is read as
    /// a pattern and does not compile; otherwise every root is walked, and
    /// the result holds each root's matches in full, in the order of the
    /// roots, with the problems met along the way.
    pub fn search(&self, roots: &[Root], needle: &str) -> (r: Result<SearchResult, InvalidPattern>)
        ensures
            r is Ok <==> term_accepted(needle@, self@.mode),
            r matches Err(e) ==> e.term@ == needle@,
            r matches Ok(res) ==> texts(res.paths@) == search_hits(
                model_of(needle@, self@.mode),
                root_models(roots@),
                self@.find_all,
            ) && error_models(res.errors@) == search_errors(
                model_of(needle@, self@.mode),
                root_models(roots@),
                self@.find_all,
            ),
    {
        let matcher = match Matcher::new(needle, self.mode()) {
            Ok(m) => m,
            Err(e) => return Err(e),
        };
        let ghost m = matcher@;
        let ghost rs = root_models(roots@);
        let find_all = self.config.find_all;
        let mut paths: Vec<String> = Vec::new();
        let mut errors: Vec<WalkError> = Vec::new();
        let mut i: usize = 0;
        while i < roots.len()
            invariant
                m == matcher@,
                rs == root_models(roots@),
                0 <= i <= roots@.len(),
                texts(paths@) == search_hits(m, rs.take(i as int), find_all),
                error_models(errors@) == search_errors(m, rs.take(i as int), find_all),
            decreases roots.len() - i,
        {
            let root = &roots[i];
            assert(rs.take(i + 1).drop_last() =~= rs.take(i as int));
            assert(rs.take(i + 1).last() == root@);
            match &root.levels {
                Some(ls) => {
                    walk(&matcher, ls.as_slice(), find_all, &mut paths, &mut errors);
                },
                None => {
                    let ghost before = errors@;
                    errors.push(WalkError::Unresolved(root.given.clone()));
                    assert(error_models(errors@) =~= error_models(before).push(
                        WalkErrorModel::Unresolved(root@.given),
                    ));
                    assert(texts(paths@) =~= search_hits(m, rs.take(i as int), find_all)
                        + root_hits(m, root@, find_all));
                },
            }
            i = i + 1;
        }
        assert(rs.take(roots@.len() as int) =~= rs);
        Ok(SearchResult { paths, errors })
    }
}

} // verus!
