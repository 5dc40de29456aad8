//! Absolute paths as text, and the chain of ancestors that an upward walk
//! visits: the start directory, its parent, and so on up to the root.

use vstd::prelude::*;

verus! {

/// An absolute path: it begins at the root.
pub open spec fn is_absolute(p: Seq<char>) -> bool {
    p.len() > 0 && p[0] == '/'
}

/// The index of the last `/` among the first `n` characters of `p`, or -1.
pub open spec fn last_slash(p: Seq<char>, n: int) -> int
    decreases n,
{
    if n <= 0 {
        -1
    } else if p[n - 1] == '/' {
        n - 1
    } else {
        last_slash(p, n - 1)
    }
}

/// The directory that directly contains `p`; the root (`/`) has none.
pub open spec fn parent(p: Seq<char>) -> Option<Seq<char>> {
    if p.len() <= 1 {
        None
    } else {
        let i = last_slash(p, p.len() as int);
        if i <= 0 {
            Some(seq!['/'])
        } else {
            Some(p.subrange(0, i))
        }
    }
}

pub proof fn lemma_last_slash_bounds(p: Seq<char>, n: int)
    requires
        0 <= n <= p.len(),
    ensures
        -1 <= last_slash(p, n) < n,
        last_slash(p, n) >= 0 ==> p[last_slash(p, n)] == '/',
        forall|j: int| last_slash(p, n) < j < n ==> p[j] != '/',
    decreases n,
{
    if n > 0 && p[n - 1] != '/' {
        lemma_last_slash_bounds(p, n - 1);
    }
}

/// The parent of an absolute path is a shorter absolute path.
pub proof fn lemma_parent_shorter(p: Seq<char>)
    requires
        is_absolute(p),
    ensures
        parent(p) matches Some(q) ==> is_absolute(q) && q.len() < p.len(),
{
    lemma_last_slash_bounds(p, p.len() as int);
}

/// The ancestor chain of an absolute path: the path itself, then each parent
/// in turn, ending at the root.
pub open spec fn chain(p: Seq<char>) -> Seq<Seq<char>>
    decreases p.len(),
{
    if is_absolute(p) {
        match parent(p) {
            Some(q) => {
                if q.len() < p.len() {
                    seq![p] + chain(q)
                } else {
                    seq![p]
                }
            },
            None => seq![p],
        }
    } else {
        seq![p]
    }
}

/// How many times an absolute path can be ascended before reaching the root.
pub open spec fn depth(p: Seq<char>) -> nat
    decreases p.len(),
{
    if is_absolute(p) {
        match parent(p) {
            Some(q) => {
                if q.len() < p.len() {
                    1 + depth(q)
                } else {
                    0
                }
            },
            None => 0,
        }
    } else {
        0
    }
}

/// The chain of an absolute path has one entry per level and one for the
/// root; it starts at the path, each entry is the parent of the one before,
/// and the last has no parent. Its depth never exceeds the path's length.
pub proof fn lemma_chain_shape(p: Seq<char>)
    requires
        is_absolute(p),
    ensures
        chain(p).len() == depth(p) + 1,
        depth(p) < p.len(),
        chain(p)[0] == p,
        parent(chain(p).last()) is None,
        forall|i: int|
            0 <= i < chain(p).len() ==> #[trigger] is_absolute(chain(p)[i]),
        forall|i: int|
            0 <= i < chain(p).len() - 1 ==> parent(#[trigger] chain(p)[i]) == Some(chain(p)[i + 1]),
    decreases p.len(),
{
    lemma_parent_shorter(p);
    if let Some(q) = parent(p) {
        lemma_chain_shape(q);
        let c = chain(p);
        assert(c == seq![p] + chain(q));
        assert forall|i: int| 0 <= i < c.len() implies #[trigger] is_absolute(c[i]) by {
            if i > 0 {
                assert(c[i] == chain(q)[i - 1]);
            }
        }
        assert forall|i: int| 0 <= i < c.len() - 1 implies parent(#[trigger] c[i]) == Some(c[i + 1]) by {
            if i > 0 {
                assert(c[i] == chain(q)[i - 1]);
                assert(c[i + 1] == chain(q)[i]);
            } else {
                assert(c[1] == chain(q)[0]);
            }
        }
    }
}

/// The parent of an absolute path, as computed by `parent`.
pub fn parent_dir(p: &str) -> (r: Option<String>)
    requires
        is_absolute(p@),
    ensures
        r matches Some(q) ==> parent(p@) == Some(q@),
        r is None ==> parent(p@) is None,
{
    let n = p.unicode_len();
    if n <= 1 {
        return None;
    }
    let mut i: usize = n;
    while i > 0 && p.get_char(i - 1) != '/'
        invariant
            0 <= i <= n,
            n == p@.len(),
            last_slash(p@, n as int) == last_slash(p@, i as int),
        decreases i,
    {
        i = i - 1;
    }
    proof {
        lemma_last_slash_bounds(p@, n as int);
    }
    if i <= 1 {
        let root = "/";
        proof {
            reveal_strlit("/");
        }
        let r = root.to_string();
        assert(r@ =~= seq!['/']);
        Some(r)
    } else {
        Some(p.substring_char(0, i - 1).to_string())
    }
}

/// The ancestor chain of `p`, from `p` itself up to the root.
pub fn ancestors(p: &str) -> (r: Vec<String>)
    requires
        is_absolute(p@),
    ensures
        r@.len() == chain(p@).len(),
        forall|i: int| 0 <= i < r@.len() ==> #[trigger] r@[i]@ == chain(p@)[i],
{
    let mut out: Vec<String> = Vec::new();
    let mut cur: String = p.to_string();
    loop
        invariant
            is_absolute(cur@),
            out@.len() + chain(cur@).len() == chain(p@).len(),
            forall|i: int| 0 <= i < out@.len() ==> #[trigger] out@[i]@ == chain(p@)[i],
            forall|i: int|
                0 <= i < chain(cur@).len() ==> #[trigger] chain(cur@)[i] == chain(p@)[out@.len() + i],
        decreases cur@.len(),
    {
        proof {
            lemma_parent_shorter(cur@);
        }
        let next = parent_dir(cur.as_str());
        let ghost c = cur@;
        match next {
            Some(q) => {
                assert(chain(c) == seq![c] + chain(q@));
                assert(chain(c)[0] == c);
                out.push(cur);
                assert forall|i: int| 0 <= i < chain(q@).len() implies #[trigger] chain(q@)[i] == chain(p@)[out@.len() + i] by {
                    assert(chain(q@)[i] == chain(c)[i + 1]);
                }
                cur = q;
            },
            None => {
                assert(chain(c) == seq![c]);
                assert(chain(c)[0] == chain(p@)[out@.len() as int]);
                out.push(cur);
                assert(out@[out@.len() - 1]@ == c);
                return out;
            },
        }
    }
}

} // verus!
