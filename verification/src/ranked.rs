//! Putting things in order, those that tie staying in the order they came in.

use crate::note::NoteId;
use crate::ordered;
use crate::text;
use vstd::prelude::*;

verus! {

/// What can be ranked: anything that knows which of two goes first.
pub trait Ranked: View + Sized {
    /// Whether `a` goes before `b`.
    spec fn before(a: Self::V, b: Self::V) -> bool;

    /// Whether this goes before the other.
    fn goes_before(&self, other: &Self) -> (r: bool)
        ensures
            r == Self::before(self@, other@),
    ;
}

/// `x` put into a ranking, behind whatever it does not go before.
pub open spec fn placed<T: Ranked>(s: Seq<T::V>, x: T::V) -> Seq<T::V>
    decreases s.len(),
{
    if s.len() > 0 && T::before(x, s.last()) {
        placed::<T>(s.drop_last(), x).push(s.last())
    } else {
        s.push(x)
    }
}

/// A sequence put in order.
pub open spec fn ranked<T: Ranked>(s: Seq<T::V>) -> Seq<T::V>
    decreases s.len(),
{
    if s.len() == 0 {
        s
    } else {
        placed::<T>(ranked::<T>(s.drop_last()), s.last())
    }
}

/// Whether `before` is an order in which different things may tie.
pub open spec fn is_order<T: Ranked>() -> bool {
    &&& forall|a: T::V| !#[trigger] T::before(a, a)
    &&& forall|a: T::V, b: T::V, c: T::V|
        #![trigger T::before(a, b), T::before(b, c)]
        T::before(a, b) && T::before(b, c) ==> T::before(a, c)
    &&& forall|a: T::V, b: T::V, c: T::V|
        #![trigger T::before(a, b), T::before(b, c)]
        !T::before(a, b) && !T::before(b, c) ==> !T::before(a, c)
}

/// Whether nothing in a sequence goes before something ahead of it.
pub open spec fn in_order<T: Ranked>(s: Seq<T::V>) -> bool {
    forall|i: int, j: int| 0 <= i < j < s.len() ==> !T::before(#[trigger] s[j], #[trigger] s[i])
}

proof fn lemma_placed_multiset<T: Ranked>(s: Seq<T::V>, x: T::V)
    ensures
        placed::<T>(s, x).to_multiset() == s.to_multiset().insert(x),
        placed::<T>(s, x).len() == s.len() + 1,
    decreases s.len(),
{
    broadcast use vstd::seq_lib::group_to_multiset_ensures;

    if s.len() > 0 && T::before(x, s.last()) {
        lemma_placed_multiset::<T>(s.drop_last(), x);
        assert(s =~= s.drop_last().push(s.last()));
        assert(placed::<T>(s, x).to_multiset() =~= s.to_multiset().insert(x));
    }
}

/// Ranking keeps every item, and each as often as it was there.
pub proof fn lemma_ranked_multiset<T: Ranked>(s: Seq<T::V>)
    ensures
        ranked::<T>(s).to_multiset() == s.to_multiset(),
        ranked::<T>(s).len() == s.len(),
    decreases s.len(),
{
    broadcast use vstd::seq_lib::group_to_multiset_ensures;

    if s.len() > 0 {
        lemma_ranked_multiset::<T>(s.drop_last());
        lemma_placed_multiset::<T>(ranked::<T>(s.drop_last()), s.last());
        assert(s =~= s.drop_last().push(s.last()));
    }
}

/// An item is in the ranking exactly when it was ranked.
pub proof fn lemma_ranked_contains<T: Ranked>(s: Seq<T::V>, x: T::V)
    ensures
        ranked::<T>(s).contains(x) == s.contains(x),
{
    broadcast use vstd::seq_lib::group_to_multiset_ensures;

    lemma_ranked_multiset::<T>(s);
    assert(ranked::<T>(s).contains(x) <==> ranked::<T>(s).to_multiset().count(x) > 0);
    assert(s.contains(x) <==> s.to_multiset().count(x) > 0);
}

proof fn lemma_placed_in_order<T: Ranked>(s: Seq<T::V>, x: T::V)
    requires
        is_order::<T>(),
        in_order::<T>(s),
    ensures
        in_order::<T>(placed::<T>(s, x)),
    decreases s.len(),
{
    let p = placed::<T>(s, x);
    if s.len() > 0 && T::before(x, s.last()) {
        let t = s.drop_last();
        lemma_placed_in_order::<T>(t, x);
        lemma_placed_multiset::<T>(t, x);
        let q = placed::<T>(t, x);
        assert forall|i: int, j: int| 0 <= i < j < p.len() implies !T::before(
            #[trigger] p[j],
            #[trigger] p[i],
        ) by {
            if j < p.len() - 1 {
                assert(p[j] == q[j] && p[i] == q[i]);
            } else {
                assert(p[j] == s.last() && p[i] == q[i]);
                lemma_placed_item::<T>(t, x, i);
                if q[i] == x {
                    if T::before(s.last(), x) {
                        assert(T::before(x, x));
                    }
                } else {
                    let k = choose|k: int| 0 <= k < t.len() && t[k] == q[i];
                    assert(s[k] == q[i]);
                    assert(!T::before(s[s.len() - 1], s[k]));
                }
            }
        }
    } else {
        assert forall|i: int, j: int| 0 <= i < j < p.len() implies !T::before(
            #[trigger] p[j],
            #[trigger] p[i],
        ) by {
            if j < p.len() - 1 {
                assert(p[j] == s[j] && p[i] == s[i]);
            } else {
                assert(p[j] == x && p[i] == s[i]);
                if i < s.len() - 1 {
                    assert(!T::before(s[s.len() - 1], s[i]));
                    assert(!T::before(x, s.last()));
                }
            }
        }
    }
}

proof fn lemma_placed_item<T: Ranked>(s: Seq<T::V>, x: T::V, i: int)
    requires
        0 <= i < placed::<T>(s, x).len(),
    ensures
        placed::<T>(s, x)[i] == x || s.contains(placed::<T>(s, x)[i]),
    decreases s.len(),
{
    let p = placed::<T>(s, x);
    if s.len() > 0 && T::before(x, s.last()) {
        lemma_placed_multiset::<T>(s.drop_last(), x);
        if i < p.len() - 1 {
            lemma_placed_item::<T>(s.drop_last(), x, i);
            if p[i] != x {
                let k = choose|k: int|
                    0 <= k < s.drop_last().len() && s.drop_last()[k] == p[i];
                assert(s[k] == p[i]);
            }
        } else {
            assert(s[s.len() - 1] == p[i]);
        }
    } else if i < s.len() {
        assert(s[i] == p[i]);
    }
}

/// A ranking is in order.
pub proof fn lemma_ranked_in_order<T: Ranked>(s: Seq<T::V>)
    requires
        is_order::<T>(),
    ensures
        in_order::<T>(ranked::<T>(s)),
    decreases s.len(),
{
    if s.len() > 0 {
        lemma_ranked_in_order::<T>(s.drop_last());
        lemma_placed_in_order::<T>(ranked::<T>(s.drop_last()), s.last());
    }
}

/// What is in order already stays as it is.
pub proof fn lemma_ranked_stays<T: Ranked>(s: Seq<T::V>)
    requires
        in_order::<T>(s),
    ensures
        ranked::<T>(s) == s,
    decreases s.len(),
{
    if s.len() > 0 {
        let rest = s.drop_last();
        assert forall|i: int, j: int| 0 <= i < j < rest.len() implies !T::before(
            #[trigger] rest[j],
            #[trigger] rest[i],
        ) by {
            assert(rest[i] == s[i] && rest[j] == s[j]);
        }
        lemma_ranked_stays::<T>(rest);
        if rest.len() > 0 {
            assert(rest.last() == s[s.len() - 2]);
            assert(!T::before(s[s.len() - 1], s[s.len() - 2]));
        }
        assert(s =~= rest.push(s.last()));
    }
}

/// Where nothing ties with anything else, the ranking does not depend on the
/// order in which the items came.
pub proof fn lemma_ranked_unique<T: Ranked>(a: Seq<T::V>, b: Seq<T::V>)
    requires
        is_order::<T>(),
        forall|x: T::V, y: T::V| x != y ==> #[trigger] T::before(x, y) || T::before(y, x),
        a.to_multiset() == b.to_multiset(),
    ensures
        ranked::<T>(a) == ranked::<T>(b),
{
    let leq = |x: T::V, y: T::V| !T::before(y, x);
    lemma_ranked_multiset::<T>(a);
    lemma_ranked_multiset::<T>(b);
    lemma_ranked_in_order::<T>(a);
    lemma_ranked_in_order::<T>(b);
    assert(vstd::relations::total_ordering(leq)) by {
        assert(forall|x: T::V, y: T::V, z: T::V|
            #![trigger leq(x, y), leq(y, z)]
            leq(x, y) && leq(y, z) ==> leq(x, z)) by {
            assert forall|x: T::V, y: T::V, z: T::V|
                #![trigger leq(x, y), leq(y, z)]
                leq(x, y) && leq(y, z) implies leq(x, z) by {
                assert(!T::before(z, y) && !T::before(y, x));
            }
        }
        assert(forall|x: T::V, y: T::V|
            #![trigger leq(x, y), leq(y, x)]
            leq(x, y) && leq(y, x) ==> x == y);
        assert forall|x: T::V, y: T::V| #![trigger leq(x, y), leq(y, x)] leq(x, y) || leq(y, x) by {
            if T::before(x, y) && T::before(y, x) {
                assert(T::before(x, x));
            }
        }
    }
    assert(vstd::relations::sorted_by(ranked::<T>(a), leq));
    assert(vstd::relations::sorted_by(ranked::<T>(b), leq));
    vstd::seq_lib::lemma_sorted_unique(ranked::<T>(a), ranked::<T>(b), leq);
}

/// Things that differ in some respect, each from every other, do so when they
/// are ranked.
pub proof fn lemma_ranked_apart<T: Ranked, K>(s: Seq<T::V>, key: spec_fn(T::V) -> K)
    requires
        forall|i: int, j: int|
            0 <= i < j < s.len() ==> key(#[trigger] s[i]) != key(#[trigger] s[j]),
    ensures
        forall|i: int, j: int|
            0 <= i < j < ranked::<T>(s).len() ==> key(#[trigger] ranked::<T>(s)[i]) != key(
                #[trigger] ranked::<T>(s)[j],
            ),
    decreases s.len(),
{
    if s.len() > 0 {
        let rest = s.drop_last();
        let x = s.last();
        assert forall|i: int, j: int| 0 <= i < j < rest.len() implies key(#[trigger] rest[i])
            != key(#[trigger] rest[j]) by {
            assert(rest[i] == s[i] && rest[j] == s[j]);
        }
        lemma_ranked_apart::<T, K>(rest, key);
        let r = ranked::<T>(rest);
        assert forall|i: int| 0 <= i < r.len() implies key(#[trigger] r[i]) != key(x) by {
            lemma_ranked_contains::<T>(rest, r[i]);
            let k = choose|k: int| 0 <= k < rest.len() && rest[k] == r[i];
            assert(s[k] == r[i]);
            assert(s[s.len() - 1] == x);
        }
        lemma_placed_apart::<T, K>(r, x, key);
    }
}

proof fn lemma_placed_apart<T: Ranked, K>(s: Seq<T::V>, x: T::V, key: spec_fn(T::V) -> K)
    requires
        forall|i: int, j: int|
            0 <= i < j < s.len() ==> key(#[trigger] s[i]) != key(#[trigger] s[j]),
        forall|i: int| 0 <= i < s.len() ==> key(#[trigger] s[i]) != key(x),
    ensures
        forall|i: int, j: int|
            0 <= i < j < placed::<T>(s, x).len() ==> key(#[trigger] placed::<T>(s, x)[i]) != key(
                #[trigger] placed::<T>(s, x)[j],
            ),
    decreases s.len(),
{
    let p = placed::<T>(s, x);
    if s.len() > 0 && T::before(x, s.last()) {
        let t = s.drop_last();
        assert forall|i: int, j: int| 0 <= i < j < t.len() implies key(#[trigger] t[i]) != key(
            #[trigger] t[j],
        ) by {
            assert(t[i] == s[i] && t[j] == s[j]);
        }
        assert forall|i: int| 0 <= i < t.len() implies key(#[trigger] t[i]) != key(x) by {
            assert(t[i] == s[i]);
        }
        lemma_placed_apart::<T, K>(t, x, key);
        let q = placed::<T>(t, x);
        assert forall|i: int, j: int| 0 <= i < j < p.len() implies key(#[trigger] p[i]) != key(
            #[trigger] p[j],
        ) by {
            assert(p[i] == q[i]);
            if j < p.len() - 1 {
                assert(p[j] == q[j]);
            } else {
                assert(p[j] == s[s.len() - 1]);
                lemma_placed_item::<T>(t, x, i);
                if q[i] != x {
                    let k = choose|k: int| 0 <= k < t.len() && t[k] == q[i];
                    assert(s[k] == q[i]);
                }
            }
        }
    } else {
        assert forall|i: int, j: int| 0 <= i < j < p.len() implies key(#[trigger] p[i]) != key(
            #[trigger] p[j],
        ) by {
            assert(p[i] == s[i]);
            if j < s.len() {
                assert(p[j] == s[j]);
            }
        }
    }
}

/// Put things in order.
pub fn rank<T: Ranked>(items: Vec<T>) -> (out: Vec<T>)
    ensures
        text::views(out@) == ranked::<T>(text::views(items@)),
{
    let mut items = items;
    let ghost all = text::views(items@);
    let mut out: Vec<T> = Vec::new();
    let ghost mut done: int = 0;
    assert(text::views(out@) =~= ranked::<T>(all.take(0)));
    while items.len() > 0
        invariant
            0 <= done <= all.len(),
            text::views(items@) == all.skip(done),
            text::views(out@) == ranked::<T>(all.take(done)),
        decreases items@.len(),
    {
        let ghost left = items@;
        assert(text::views(left).len() == all.skip(done).len());
        let x = items.remove(0);
        assert(x@ == all[done]) by {
            assert(text::views(left)[0] == all.skip(done)[0]);
        }
        let ghost before = text::views(out@);
        let mut j: usize = out.len();
        assert(before.take(j as int) =~= before);
        assert(placed::<T>(before, x@) =~= placed::<T>(before.take(j as int), x@) + before.skip(
            j as int,
        ));
        while j > 0 && x.goes_before(&out[j - 1])
            invariant
                j <= out@.len(),
                before == text::views(out@),
                placed::<T>(before, x@) == placed::<T>(before.take(j as int), x@) + before.skip(
                    j as int,
                ),
            decreases j,
        {
            proof {
                let t = before.take(j as int);
                assert(t.drop_last() =~= before.take(j - 1));
                assert(t.last() == out@[j - 1]@);
                assert(placed::<T>(t, x@) + before.skip(j as int) =~= placed::<T>(
                    before.take(j - 1),
                    x@,
                ) + before.skip(j - 1));
            }
            j = j - 1;
        }
        proof {
            let t = before.take(j as int);
            if j > 0 {
                assert(t.last() == out@[j - 1]@);
            }
            assert(placed::<T>(before, x@) =~= before.insert(j as int, x@));
            assert(all.take(done + 1).drop_last() =~= all.take(done));
        }
        let ghost x_view = x@;
        let ghost out_was = out@;
        out.insert(j, x);
        proof {
            assert(text::views(out@) =~= before.insert(j as int, x_view));
            assert(text::views(items@) =~= all.skip(done + 1)) by {
                assert forall|i: int| 0 <= i < items@.len() implies #[trigger] text::views(
                    items@,
                )[i] == all.skip(done + 1)[i] by {
                    assert(text::views(left)[i + 1] == all.skip(done)[i + 1]);
                }
            }
            done = done + 1;
        }
    }
    assert(all.take(done) =~= all);
    out
}

// ---- notes with a score ----

/// A note with a score, by a whole number that orders as the score does.
#[derive(Debug, PartialEq, Eq)]
pub struct Scored {
    pub id: NoteId,
    pub score: u32,
}

impl View for Scored {
    type V = (Seq<char>, u32);

    open spec fn view(&self) -> (Seq<char>, u32) {
        (self.id@, self.score)
    }
}

impl Ranked for Scored {
    /// The higher score first; ties by id, so that two notes never swap
    /// between identical queries.
    open spec fn before(a: (Seq<char>, u32), b: (Seq<char>, u32)) -> bool {
        a.1 > b.1 || (a.1 == b.1 && ordered::precedes(a.0, b.0))
    }

    fn goes_before(&self, other: &Self) -> (r: bool) {
        self.score > other.score || (self.score == other.score && ordered::comes_before(
            self.id.as_str(),
            other.id.as_str(),
        ))
    }
}

/// Whether a ranking names no note twice.
pub open spec fn names_each_once(ranking: Seq<(Seq<char>, u32)>) -> bool {
    forall|i: int, j: int|
        0 <= i < j < ranking.len() ==> (#[trigger] ranking[i]).0 != (#[trigger] ranking[j]).0
}

/// Those of some scored notes whose score is high enough.
pub open spec fn at_least(s: Seq<(Seq<char>, u32)>, least: u32) -> Seq<(Seq<char>, u32)>
    decreases s.len(),
{
    if s.len() == 0 {
        s
    } else if s.last().1 >= least {
        at_least(s.drop_last(), least).push(s.last())
    } else {
        at_least(s.drop_last(), least)
    }
}

/// The first so many of a sequence, or all of it.
pub open spec fn first<A>(s: Seq<A>, limit: int) -> Seq<A> {
    if s.len() <= limit {
        s
    } else {
        s.take(limit)
    }
}

/// The best of some scored notes: ranked, those below `least` dropped, and cut
/// to a limit.
pub open spec fn best(s: Seq<(Seq<char>, u32)>, least: u32, limit: int) -> Seq<(Seq<char>, u32)> {
    first(at_least(ranked::<Scored>(s), least), limit)
}

/// The best of some scored notes.
pub fn shortlist(scored: Vec<Scored>, least: u32, limit: usize) -> (out: Vec<Scored>)
    ensures
        text::views(out@) == best(text::views(scored@), least, limit as int),
{
    let mut all = rank(scored);
    let ghost order = text::views(all@);
    let ghost kept = at_least(order, least);
    let mut out: Vec<Scored> = Vec::new();
    let ghost mut done: int = 0;
    assert(text::views(out@) =~= at_least(order.take(0), least));
    while all.len() > 0
        invariant
            0 <= done <= order.len(),
            text::views(all@) == order.skip(done),
            text::views(out@) == at_least(order.take(done), least),
        decreases all@.len(),
    {
        let ghost left = all@;
        assert(text::views(left).len() == order.skip(done).len());
        let x = all.remove(0);
        proof {
            assert(text::views(left)[0] == order.skip(done)[0]);
            assert(order.take(done + 1).drop_last() =~= order.take(done));
            assert(text::views(all@) =~= order.skip(done + 1)) by {
                assert forall|i: int| 0 <= i < all@.len() implies #[trigger] text::views(all@)[i]
                    == order.skip(done + 1)[i] by {
                    assert(text::views(left)[i + 1] == order.skip(done)[i + 1]);
                }
            }
            done = done + 1;
        }
        if x.score >= least {
            proof {
                text::lemma_views_push(out@, x);
            }
            out.push(x);
        }
    }
    assert(order.take(done) =~= order);
    assert(text::views(out@).len() == out@.len());
    if out.len() > limit {
        out.truncate(limit);
        assert(text::views(out@) =~= kept.take(limit as int));
    }
    out
}

/// Scored notes are in a strict order: no two different ones tie.
pub proof fn lemma_scores_are_an_order()
    ensures
        is_order::<Scored>(),
        forall|x: (Seq<char>, u32), y: (Seq<char>, u32)|
            x != y ==> #[trigger] Scored::before(x, y) || Scored::before(y, x),
{
    assert forall|a: (Seq<char>, u32)| !#[trigger] Scored::before(a, a) by {
        ordered::lemma_precedes_irreflexive(a.0);
    }
    assert forall|a: (Seq<char>, u32), b: (Seq<char>, u32), c: (Seq<char>, u32)|
        #![trigger Scored::before(a, b), Scored::before(b, c)]
        Scored::before(a, b) && Scored::before(b, c) implies Scored::before(a, c) by {
        if a.1 == b.1 && b.1 == c.1 {
            ordered::lemma_precedes_transitive(a.0, b.0, c.0);
        }
    }
    assert forall|x: (Seq<char>, u32), y: (Seq<char>, u32)| x != y implies #[trigger] Scored::before(
        x,
        y,
    ) || Scored::before(y, x) by {
        ordered::lemma_precedes_total(x.0, y.0);
    }
    assert forall|a: (Seq<char>, u32), b: (Seq<char>, u32), c: (Seq<char>, u32)|
        #![trigger Scored::before(a, b), Scored::before(b, c)]
        !Scored::before(a, b) && !Scored::before(b, c) implies !Scored::before(a, c) by {
        if Scored::before(a, c) {
            if a == b || b == c {
            } else {
                assert(Scored::before(b, a));
                assert(Scored::before(c, b));
                if c.1 == b.1 && b.1 == a.1 {
                    ordered::lemma_precedes_transitive(c.0, b.0, a.0);
                    ordered::lemma_precedes_transitive(c.0, a.0, c.0);
                    ordered::lemma_precedes_irreflexive(c.0);
                }
            }
        }
    }
}

/// The best of some scored notes do not depend on the order in which they
/// came: the same notes with the same scores give the same list.
pub proof fn lemma_the_best_never_reshuffle(
    a: Seq<(Seq<char>, u32)>,
    b: Seq<(Seq<char>, u32)>,
    least: u32,
    limit: int,
)
    requires
        a.to_multiset() == b.to_multiset(),
    ensures
        best(a, least, limit) == best(b, least, limit),
{
    lemma_scores_are_an_order();
    lemma_ranked_unique::<Scored>(a, b);
}

/// The best of some scored notes are among them, high enough, in order, and no
/// more than asked for.
pub proof fn lemma_the_best_are_in_order(s: Seq<(Seq<char>, u32)>, least: u32, limit: int)
    requires
        0 <= limit,
    ensures
        best(s, least, limit).len() <= limit,
        in_order::<Scored>(best(s, least, limit)),
        forall|i: int|
            0 <= i < best(s, least, limit).len() ==> s.contains(
                #[trigger] best(s, least, limit)[i],
            ) && best(s, least, limit)[i].1 >= least,
{
    lemma_scores_are_an_order();
    let r = ranked::<Scored>(s);
    lemma_ranked_in_order::<Scored>(s);
    lemma_at_least(r, least);
    let k = at_least(r, least);
    let b = best(s, least, limit);
    assert forall|i: int| 0 <= i < b.len() implies s.contains(#[trigger] b[i]) && b[i].1
        >= least by {
        assert(b[i] == k[i]);
        assert(r.contains(k[i]));
        lemma_ranked_contains::<Scored>(s, k[i]);
    }
    assert forall|i: int, j: int| 0 <= i < j < b.len() implies !Scored::before(
        #[trigger] b[j],
        #[trigger] b[i],
    ) by {
        assert(b[i] == k[i] && b[j] == k[j]);
    }
}

/// The best of some scored notes name no note twice if the notes do not.
pub proof fn lemma_the_best_are_different(s: Seq<(Seq<char>, u32)>, least: u32, limit: int)
    requires
        names_each_once(s),
        0 <= limit,
    ensures
        names_each_once(best(s, least, limit)),
{
    let key = |x: (Seq<char>, u32)| x.0;
    assert forall|i: int, j: int| 0 <= i < j < s.len() implies key(#[trigger] s[i]) != key(
        #[trigger] s[j],
    ) by {
        assert(s[i].0 != s[j].0);
    }
    lemma_ranked_apart::<Scored, Seq<char>>(s, key);
    let r = ranked::<Scored>(s);
    assert forall|i: int, j: int| 0 <= i < j < r.len() implies (#[trigger] r[i]).0 != (
    #[trigger] r[j]).0 by {
        assert(key(r[i]) != key(r[j]));
    }
    lemma_at_least_different(r, least);
}

proof fn lemma_at_least_different(s: Seq<(Seq<char>, u32)>, least: u32)
    requires
        names_each_once(s),
    ensures
        names_each_once(at_least(s, least)),
        forall|i: int|
            0 <= i < at_least(s, least).len() ==> s.contains(#[trigger] at_least(s, least)[i]),
    decreases s.len(),
{
    if s.len() > 0 {
        let rest = s.drop_last();
        assert forall|i: int, j: int| 0 <= i < j < rest.len() implies (#[trigger] rest[i]).0 != (
        #[trigger] rest[j]).0 by {
            assert(rest[i] == s[i] && rest[j] == s[j]);
        }
        lemma_at_least_different(rest, least);
        let b = at_least(rest, least);
        let k = at_least(s, least);
        assert forall|i: int| 0 <= i < b.len() implies s.contains(#[trigger] b[i]) && b[i].0
            != s.last().0 by {
            let n = choose|n: int| 0 <= n < rest.len() && rest[n] == b[i];
            assert(s[n] == b[i]);
            assert(s[s.len() - 1] == s.last());
        }
        assert(s[s.len() - 1] == s.last());
        assert forall|i: int| 0 <= i < k.len() implies s.contains(#[trigger] k[i]) by {
            if i < b.len() {
                assert(k[i] == b[i]);
            }
        }
        assert forall|i: int, j: int| 0 <= i < j < k.len() implies (#[trigger] k[i]).0 != (
        #[trigger] k[j]).0 by {
            assert(k[i] == b[i]);
            if j < b.len() {
                assert(k[j] == b[j]);
            }
        }
    }
}

/// Asking for fewer of the best gives the first of those that asking for more
/// gives.
pub proof fn lemma_fewer_are_the_first(
    s: Seq<(Seq<char>, u32)>,
    least: u32,
    fewer: int,
    more: int,
)
    requires
        0 <= fewer <= more,
    ensures
        best(s, least, fewer) == first(best(s, least, more), fewer),
{
    assert(best(s, least, fewer) =~= first(best(s, least, more), fewer));
}

proof fn lemma_at_least(s: Seq<(Seq<char>, u32)>, least: u32)
    requires
        in_order::<Scored>(s),
    ensures
        in_order::<Scored>(at_least(s, least)),
        forall|i: int|
            0 <= i < at_least(s, least).len() ==> s.contains(#[trigger] at_least(s, least)[i])
                && at_least(s, least)[i].1 >= least,
    decreases s.len(),
{
    if s.len() > 0 {
        let rest = s.drop_last();
        assert forall|i: int, j: int| 0 <= i < j < rest.len() implies !Scored::before(
            #[trigger] rest[j],
            #[trigger] rest[i],
        ) by {
            assert(rest[i] == s[i] && rest[j] == s[j]);
        }
        lemma_at_least(rest, least);
        let k = at_least(s, least);
        let b = at_least(rest, least);
        assert forall|i: int| 0 <= i < b.len() implies s.contains(#[trigger] b[i]) by {
            let n = choose|n: int| 0 <= n < rest.len() && rest[n] == b[i];
            assert(s[n] == b[i]);
        }
        assert(s[s.len() - 1] == s.last());
        assert forall|i: int| 0 <= i < k.len() implies s.contains(#[trigger] k[i]) && k[i].1
            >= least by {
            if i < b.len() {
                assert(k[i] == b[i]);
            }
        }
        assert forall|i: int, j: int| 0 <= i < j < k.len() implies !Scored::before(
            #[trigger] k[j],
            #[trigger] k[i],
        ) by {
            if j < b.len() {
                assert(k[i] == b[i] && k[j] == b[j]);
            } else {
                assert(k[i] == b[i] && k[j] == s.last());
                let n = choose|n: int| 0 <= n < rest.len() && rest[n] == b[i];
                assert(s[n] == b[i]);
                assert(!Scored::before(s[s.len() - 1], s[n]));
            }
        }
    }
}

// ---- what comes first ----

/// The first so many of a sequence are as many as there are, up to the limit,
/// each where it was.
pub proof fn lemma_the_first_are_where_they_were<A>(s: Seq<A>, limit: int)
    requires
        0 <= limit,
    ensures
        first(s, limit).len() == if s.len() <= limit {
            s.len() as int
        } else {
            limit
        },
        forall|i: int| 0 <= i < first(s, limit).len() ==> #[trigger] first(s, limit)[i] == s[i],
{
}

/// What is left out of the first so many goes before none of them, and nothing
/// is left out while there is room.
pub proof fn lemma_what_is_left_out_is_no_better<T: Ranked>(s: Seq<T::V>, limit: int, x: T::V)
    requires
        is_order::<T>(),
        0 <= limit,
        s.contains(x),
        !first(ranked::<T>(s), limit).contains(x),
    ensures
        first(ranked::<T>(s), limit).len() == limit,
        forall|i: int|
            0 <= i < limit ==> !T::before(x, #[trigger] first(ranked::<T>(s), limit)[i]),
{
    let all = ranked::<T>(s);
    lemma_ranked_contains::<T>(s, x);
    lemma_ranked_in_order::<T>(s);
    let k = choose|k: int| 0 <= k < all.len() && all[k] == x;
    let r = first(all, limit);
    if k < r.len() {
        assert(r[k] == x);
    }
    assert forall|i: int| 0 <= i < limit implies !T::before(x, #[trigger] r[i]) by {
        assert(r[i] == all[i]);
    }
}

/// The best of some scored notes are those that score at least so much, the
/// higher score first and ties by id, as many as there is room for: one that is
/// left out scores too little, or there was no room and it goes behind them
/// all.
pub proof fn lemma_the_best_score_highest(
    s: Seq<(Seq<char>, u32)>,
    least: u32,
    limit: int,
    x: (Seq<char>, u32),
)
    requires
        names_each_once(s),
        0 <= limit,
        s.contains(x),
    ensures
        ({
            let r = best(s, least, limit);
            &&& forall|i: int, j: int|
                0 <= i < j < r.len() ==> (#[trigger] r[i]).1 > (#[trigger] r[j]).1 || (r[i].1
                    == r[j].1 && ordered::precedes(r[i].0, r[j].0))
            &&& r.contains(x) ==> x.1 >= least
            &&& x.1 >= least && !r.contains(x) ==> r.len() == limit && forall|i: int|
                0 <= i < limit ==> (#[trigger] r[i]).1 > x.1 || (r[i].1 == x.1
                    && ordered::precedes(r[i].0, x.0))
        }),
{
    let r = best(s, least, limit);
    let all = ranked::<Scored>(s);
    let kept = at_least(all, least);
    lemma_scores_are_an_order();
    lemma_the_best_are_in_order(s, least, limit);
    lemma_the_best_are_different(s, least, limit);
    assert forall|i: int, j: int| 0 <= i < j < r.len() implies (#[trigger] r[i]).1 > (
    #[trigger] r[j]).1 || (r[i].1 == r[j].1 && ordered::precedes(r[i].0, r[j].0)) by {
        assert(!Scored::before(r[j], r[i]));
        ordered::lemma_precedes_total(r[i].0, r[j].0);
    }
    lemma_ranked_in_order::<Scored>(s);
    lemma_ranked_contains::<Scored>(s, x);
    lemma_at_least(all, least);
    if x.1 >= least && !r.contains(x) {
        lemma_at_least_keeps(all, least, x);
        let k = choose|k: int| 0 <= k < kept.len() && kept[k] == x;
        if k < r.len() {
            assert(r[k] == x);
        }
        assert forall|i: int| 0 <= i < limit implies (#[trigger] r[i]).1 > x.1 || (r[i].1 == x.1
            && ordered::precedes(r[i].0, x.0)) by {
            assert(r[i] == kept[i]);
            assert(!Scored::before(kept[k], kept[i]));
            ordered::lemma_precedes_total(r[i].0, x.0);
            if r[i].0 == x.0 {
                assert(s.contains(r[i]));
                let a = choose|a: int| 0 <= a < s.len() && s[a] == r[i];
                let b = choose|b: int| 0 <= b < s.len() && s[b] == x;
                assert(a == b);
                assert(r.contains(x));
            }
        }
    }
}

proof fn lemma_at_least_keeps(s: Seq<(Seq<char>, u32)>, least: u32, x: (Seq<char>, u32))
    requires
        s.contains(x),
        x.1 >= least,
    ensures
        at_least(s, least).contains(x),
    decreases s.len(),
{
    let rest = s.drop_last();
    let kept = at_least(s, least);
    if s.last() == x {
        assert(kept[kept.len() - 1] == x);
    } else {
        let k = choose|k: int| 0 <= k < s.len() && s[k] == x;
        assert(rest[k] == x);
        lemma_at_least_keeps(rest, least, x);
        let before = at_least(rest, least);
        let j = choose|j: int| 0 <= j < before.len() && before[j] == x;
        assert(kept[j] == x);
    }
}

} // verus!
