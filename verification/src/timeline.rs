//! Ordering of rows by time: a stable sort that puts the highest rank
//! first, used for "newest message first" and "oldest queued first".

use vstd::prelude::*;
use crate::models::{Message, MessageView};

verus! {

/// A row with a rank by which it is ordered.
pub trait Ranked {
    spec fn rank(&self) -> int;
}

/// Rows are ordered by their time stamp: the later, the higher.
impl Ranked for MessageView {
    open spec fn rank(&self) -> int {
        self.create_at as int
    }
}

/// `s` with `x` placed right after the last row whose rank is at least
/// that of `x` (at the front when there is none).
pub open spec fn insert_by_rank<T: Ranked>(s: Seq<T>, x: T) -> Seq<T>
    decreases s.len(),
{
    if s.len() == 0 {
        seq![x]
    } else if s.last().rank() >= x.rank() {
        s.push(x)
    } else {
        insert_by_rank(s.drop_last(), x).push(s.last())
    }
}

/// The stable sort of `s` by rank, highest first: rows of equal rank keep
/// the order they have in `s`.
pub open spec fn by_rank<T: Ranked>(s: Seq<T>) -> Seq<T>
    decreases s.len(),
{
    if s.len() == 0 {
        s
    } else {
        insert_by_rank(by_rank(s.drop_last()), s.last())
    }
}

/// Ranks do not increase along `s`.
pub open spec fn rank_descending<T: Ranked>(s: Seq<T>) -> bool {
    forall|i: int, j: int| 0 <= i < j < s.len() ==> s[i].rank() >= s[j].rank()
}

/// Inserting at the position that the exec code finds, scanning back from
/// the end past the rows of lower rank, is `insert_by_rank`.
pub proof fn lemma_insert_by_rank_at<T: Ranked>(s: Seq<T>, x: T, p: int)
    requires
        0 <= p <= s.len(),
        forall|q: int| p <= q < s.len() ==> #[trigger] s[q].rank() < x.rank(),
        p > 0 ==> s[p - 1].rank() >= x.rank(),
    ensures
        insert_by_rank(s, x) == s.insert(p, x),
    decreases s.len(),
{
    if s.len() == 0 {
        assert(s.insert(p, x) =~= seq![x]);
    } else if p == s.len() {
        assert(s.last() == s[p - 1]);
        assert(s.insert(p, x) =~= s.push(x));
    } else {
        let t = s.drop_last();
        assert(s.last() == s[s.len() - 1]);
        assert forall|q: int| p <= q < t.len() implies #[trigger] t[q].rank() < x.rank() by {
            assert(t[q] == s[q]);
        }
        if p > 0 {
            assert(t[p - 1] == s[p - 1]);
        }
        lemma_insert_by_rank_at(t, x, p);
        assert(t.insert(p, x).push(s.last()) =~= s.insert(p, x));
    }
}

/// Inserting keeps a descending sequence descending and adds exactly `x`.
pub proof fn lemma_insert_by_rank<T: Ranked>(s: Seq<T>, x: T)
    requires
        rank_descending(s),
    ensures
        rank_descending(insert_by_rank(s, x)),
        insert_by_rank(s, x).to_multiset() == s.to_multiset().insert(x),
        insert_by_rank(s, x).len() == s.len() + 1,
    decreases s.len(),
{
    broadcast use vstd::seq_lib::group_to_multiset_ensures;

    if s.len() == 0 {
        assert(seq![x] =~= Seq::<T>::empty().push(x));
    } else if s.last().rank() >= x.rank() {
        let r = s.push(x);
        assert forall|i: int, j: int| 0 <= i < j < r.len() implies r[i].rank() >= r[j].rank() by {
            if j == s.len() {
                assert(s[s.len() - 1] == s.last());
                assert(r[i] == s[i]);
            } else {
                assert(r[i] == s[i] && r[j] == s[j]);
            }
        }
    } else {
        let t = s.drop_last();
        assert(rank_descending(t)) by {
            assert forall|i: int, j: int| 0 <= i < j < t.len() implies t[i].rank() >= t[j].rank() by {
                assert(t[i] == s[i] && t[j] == s[j]);
            }
        }
        lemma_insert_by_rank(t, x);
        let u = insert_by_rank(t, x);
        let r = u.push(s.last());
        assert(s.last() == s[s.len() - 1]);
        assert forall|i: int, j: int| 0 <= i < j < r.len() implies r[i].rank() >= r[j].rank() by {
            if j == u.len() {
                assert(r[i] == u[i]);
                assert(u.to_multiset().count(u[i]) > 0);
                assert(u.contains(u[i]));
                if u[i] != x {
                    assert(t.to_multiset().count(u[i]) > 0);
                    assert(t.contains(u[i]));
                    let k = choose|k: int| 0 <= k < t.len() && t[k] == u[i];
                    assert(s[k] == t[k]);
                }
            } else {
                assert(r[i] == u[i] && r[j] == u[j]);
            }
        }
        assert(t.push(s.last()) =~= s);
    }
}

/// The sort yields a descending arrangement of exactly the rows of `s`.
pub proof fn lemma_by_rank<T: Ranked>(s: Seq<T>)
    ensures
        rank_descending(by_rank(s)),
        by_rank(s).to_multiset() == s.to_multiset(),
        by_rank(s).len() == s.len(),
    decreases s.len(),
{
    broadcast use vstd::seq_lib::group_to_multiset_ensures;

    if s.len() > 0 {
        let t = s.drop_last();
        lemma_by_rank(t);
        lemma_insert_by_rank(by_rank(t), s.last());
        assert(t.push(s.last()) =~= s);
    }
}

/// A row in memory that can be ordered by the rank of its contents.
pub trait RankedRow: Sized {
    type Content: Ranked;

    spec fn content(&self) -> Self::Content;

    /// Whether this row ranks strictly below `other`.
    fn ranks_below(&self, other: &Self) -> (b: bool)
        ensures
            b == (self.content().rank() < other.content().rank()),
    ;
}

/// The contents of a sequence of rows.
pub open spec fn contents<T: RankedRow>(s: Seq<T>) -> Seq<T::Content> {
    s.map_values(|x: T| x.content())
}

impl RankedRow for Message {
    type Content = MessageView;

    open spec fn content(&self) -> MessageView {
        self@
    }

    fn ranks_below(&self, other: &Self) -> (b: bool) {
        assert(self.content().rank() == self.create_at as int);
        assert(other.content().rank() == other.create_at as int);
        self.create_at < other.create_at
    }
}

/// Sorts rows by rank, highest first, keeping the order of rows of equal
/// rank.
pub fn sort_by_rank<T: RankedRow>(v: Vec<T>) -> (r: Vec<T>)
    ensures
        contents(r@) == by_rank(contents(v@)),
{
    let ghost orig = contents(v@);
    let mut rest = v;
    let mut out: Vec<T> = Vec::new();
    let ghost mut done: int = 0;
    while rest.len() > 0
        invariant
            0 <= done <= orig.len(),
            rest@.len() == orig.len() - done,
            contents(rest@) == orig.subrange(done, orig.len() as int),
            contents(out@) == by_rank(orig.subrange(0, done)),
        decreases rest.len(),
    {
        let ghost old_rest = rest@;
        proof {
            assert(contents(old_rest)[0] == old_rest[0].content());
            assert(orig.subrange(done, orig.len() as int)[0] == orig[done]);
        }
        let m = rest.remove(0);
        proof {
            assert(m.content() == orig[done]);
            assert(rest@ =~= old_rest.subrange(1, old_rest.len() as int));
            assert forall|k: int| 0 <= k < rest@.len() implies contents(rest@)[k]
                == orig[done + 1 + k] by {
                assert(rest@[k] == old_rest[k + 1]);
                assert(contents(old_rest)[k + 1] == old_rest[k + 1].content());
                assert(orig.subrange(done, orig.len() as int)[k + 1] == orig[done + 1 + k]);
            }
            assert(contents(rest@) =~= orig.subrange(done + 1, orig.len() as int));
        }
        let mut p: usize = out.len();
        while p > 0 && out[p - 1].ranks_below(&m)
            invariant
                p <= out.len(),
                forall|q: int|
                    p <= q < out.len() ==> #[trigger] out@[q].content().rank() < m.content().rank(),
            decreases p,
        {
            p = p - 1;
        }
        proof {
            let s = contents(out@);
            assert forall|q: int| p <= q < s.len() implies #[trigger] s[q].rank()
                < m.content().rank() by {
                assert(s[q] == out@[q].content());
            }
            if p > 0 {
                assert(s[p - 1] == out@[p - 1].content());
            }
            lemma_insert_by_rank_at(s, m.content(), p as int);
            let next = orig.subrange(0, done + 1);
            assert(next.drop_last() =~= orig.subrange(0, done));
        }
        let ghost before = out@;
        out.insert(p, m);
        proof {
            assert(contents(out@) =~= contents(before).insert(p as int, m.content()));
            done = done + 1;
        }
    }
    proof {
        assert(orig.subrange(0, done) =~= orig);
    }
    out
}

} // verus!
