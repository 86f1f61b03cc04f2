//! A set of string pairs kept sorted by the byte order of its first and
//! then its second component, without duplicates. It holds the
//! access-control tables: group memberships and rules.

use vstd::prelude::*;
use crate::order::{Rank, text_lt, compare_text, lemma_text_lt_transitive, lemma_text_lt_strict_total};

verus! {

/// A pair of strings, as its characters.
pub type TextPair = (Seq<char>, Seq<char>);

/// `p` sorts strictly before `q`: by first component, then by second.
pub open spec fn pair_lt(p: TextPair, q: TextPair) -> bool {
    text_lt(p.0, q.0) || (p.0 == q.0 && text_lt(p.1, q.1))
}

/// Every element sorts strictly before every later one.
pub open spec fn strictly_sorted(s: Seq<TextPair>) -> bool {
    forall|i: int, j: int| 0 <= i < j < s.len() ==> pair_lt(#[trigger] s[i], #[trigger] s[j])
}

/// The second components of the pairs whose first component is `a`, in order.
pub open spec fn seconds(s: Seq<TextPair>, a: Seq<char>) -> Seq<Seq<char>>
    decreases s.len(),
{
    if s.len() == 0 {
        Seq::empty()
    } else if s.last().0 == a {
        seconds(s.drop_last(), a).push(s.last().1)
    } else {
        seconds(s.drop_last(), a)
    }
}

/// A member of `seconds(s, a)` is exactly a `b` with `(a, b)` in `s`.
pub proof fn lemma_seconds_contains(s: Seq<TextPair>, a: Seq<char>, b: Seq<char>)
    ensures
        seconds(s, a).contains(b) <==> s.contains((a, b)),
    decreases s.len(),
{
    if s.len() > 0 {
        lemma_seconds_contains(s.drop_last(), a, b);
        assert(s =~= s.drop_last().push(s.last()));
        if s.drop_last().contains((a, b)) {
            let k = choose|k: int| 0 <= k < s.drop_last().len() && s.drop_last()[k] == (a, b);
            assert(s[k] == (a, b));
        }
        if s.contains((a, b)) {
            let k = choose|k: int| 0 <= k < s.len() && s[k] == (a, b);
            if k < s.len() - 1 {
                assert(s.drop_last()[k] == (a, b));
            }
        }
        let r = seconds(s.drop_last(), a);
        if s.last().0 == a {
            assert(r.push(s.last().1).last() == s.last().1);
            if r.contains(b) {
                let k = choose|k: int| 0 <= k < r.len() && r[k] == b;
                assert(r.push(s.last().1)[k] == b);
            }
            if r.push(s.last().1).contains(b) {
                let k = choose|k: int| 0 <= k < r.len() + 1 && r.push(s.last().1)[k] == b;
                if k < r.len() {
                    assert(r[k] == b);
                }
            }
        }
    }
}

proof fn lemma_pair_lt_transitive(p: TextPair, q: TextPair, r: TextPair)
    requires
        pair_lt(p, q),
        pair_lt(q, r),
    ensures
        pair_lt(p, r),
{
    if text_lt(p.0, q.0) && text_lt(q.0, r.0) {
        lemma_text_lt_transitive(p.0, q.0, r.0);
    }
    if p.0 == q.0 && q.0 == r.0 && text_lt(p.1, q.1) && text_lt(q.1, r.1) {
        lemma_text_lt_transitive(p.1, q.1, r.1);
    }
}

proof fn lemma_pair_lt_strict(p: TextPair, q: TextPair)
    ensures
        !pair_lt(p, p),
        pair_lt(p, q) ==> !pair_lt(q, p),
        p == q || pair_lt(p, q) || pair_lt(q, p),
{
    lemma_text_lt_strict_total(p.0, q.0);
    lemma_text_lt_strict_total(p.1, q.1);
    lemma_text_lt_strict_total(q.0, p.0);
}

/// A sorted set of string pairs.
pub struct PairSet {
    items: Vec<(String, String)>,
}

/// The characters of a pair of strings.
pub open spec fn pair_view(p: (String, String)) -> TextPair {
    (p.0@, p.1@)
}

/// The characters of each pair in a list.
pub open spec fn pairs_view(v: Seq<(String, String)>) -> Seq<TextPair> {
    v.map_values(|p: (String, String)| pair_view(p))
}

impl View for PairSet {
    type V = Seq<TextPair>;

    closed spec fn view(&self) -> Seq<TextPair> {
        pairs_view(self.items@)
    }
}

impl PairSet {
    /// The set is kept strictly sorted, so each pair occurs once.
    pub open spec fn wf(&self) -> bool {
        strictly_sorted(self@)
    }

    /// The empty set.
    pub fn new() -> (s: PairSet)
        ensures
            s.wf(),
            s@ == Seq::<TextPair>::empty(),
    {
        let s = PairSet { items: Vec::new() };
        assert(s@ =~= Seq::<TextPair>::empty());
        s
    }

    /// The number of pairs.
    pub fn len(&self) -> (n: usize)
        ensures
            n == self@.len(),
    {
        self.items.len()
    }

    fn rank_pair(x: &(String, String), a: &str, b: &str) -> (r: Rank)
        ensures
            r == Rank::Below <==> pair_lt(pair_view(*x), (a@, b@)),
            r == Rank::Above <==> pair_lt((a@, b@), pair_view(*x)),
            r == Rank::Same <==> pair_view(*x) == (a@, b@),
    {
        proof {
            lemma_pair_lt_strict(pair_view(*x), (a@, b@));
            lemma_text_lt_strict_total(x.0@, a@);
        }
        match compare_text(x.0.as_str(), a) {
            Rank::Below => Rank::Below,
            Rank::Above => Rank::Above,
            Rank::Same => compare_text(x.1.as_str(), b),
        }
    }

    /// The first position whose pair does not sort before `(a, b)`, and
    /// whether the pair there is `(a, b)`.
    fn locate(&self, a: &str, b: &str) -> (res: (usize, bool))
        requires
            self.wf(),
        ensures
            res.0 <= self@.len(),
            forall|i: int| 0 <= i < res.0 ==> pair_lt(#[trigger] self@[i], (a@, b@)),
            res.1 ==> res.0 < self@.len() && self@[res.0 as int] == (a@, b@),
            !res.1 ==> (res.0 < self@.len() ==> pair_lt((a@, b@), self@[res.0 as int])),
    {
        let mut i: usize = 0;
        while i < self.items.len()
            invariant
                i <= self.items@.len(),
                self@.len() == self.items@.len(),
                forall|k: int| 0 <= k < i ==> pair_lt(#[trigger] self@[k], (a@, b@)),
            decreases self.items.len() - i,
        {
            let r = Self::rank_pair(&self.items[i], a, b);
            assert(self@[i as int] == pair_view(self.items@[i as int]));
            match r {
                Rank::Below => {},
                Rank::Same => {
                    return (i, true);
                },
                Rank::Above => {
                    return (i, false);
                },
            }
            i = i + 1;
        }
        (i, false)
    }

    /// Whether `(a, b)` is in the set.
    pub fn contains(&self, a: &str, b: &str) -> (r: bool)
        requires
            self.wf(),
        ensures
            r == self@.contains((a@, b@)),
    {
        let (pos, found) = self.locate(a, b);
        proof {
            if !found && self@.contains((a@, b@)) {
                let k = choose|k: int| 0 <= k < self@.len() && self@[k] == (a@, b@);
                lemma_pair_lt_strict(self@[k], (a@, b@));
                if k >= pos as int && k > pos as int {
                    lemma_pair_lt_transitive((a@, b@), self@[pos as int], self@[k]);
                }
            }
        }
        found
    }

    /// Adds `(a, b)`; a pair already present is left as it is.
    pub fn insert(&mut self, a: &str, b: &str)
        requires
            old(self).wf(),
        ensures
            final(self).wf(),
            forall|q: TextPair| #[trigger] final(self)@.contains(q) <==> (old(self)@.contains(q) || q == (a@, b@)),
    {
        let (pos, found) = self.locate(a, b);
        if found {
            return;
        }
        let ghost old_view = self@;
        let ghost x = (a@, b@);
        self.items.insert(pos, (a.to_owned(), b.to_owned()));
        proof {
            assert(self@ =~= old_view.insert(pos as int, x));
            assert forall|i: int, j: int| 0 <= i < j < self@.len() implies pair_lt(#[trigger] self@[i], #[trigger] self@[j]) by {
                let p = pos as int;
                if i < p && j < p {
                } else if i < p && j == p {
                } else if i < p && j > p {
                    assert(self@[j] == old_view[j - 1]);
                    assert(pair_lt(old_view[i], x));
                    if j - 1 > p {
                        lemma_pair_lt_transitive(x, old_view[p], old_view[j - 1]);
                    }
                    assert(pair_lt(x, old_view[j - 1]));
                    lemma_pair_lt_transitive(old_view[i], x, old_view[j - 1]);
                } else if i == p {
                    assert(self@[j] == old_view[j - 1]);
                    if j - 1 > p {
                        lemma_pair_lt_transitive(x, old_view[p], old_view[j - 1]);
                    }
                } else {
                    assert(self@[i] == old_view[i - 1]);
                    assert(self@[j] == old_view[j - 1]);
                }
            }
            assert forall|q: TextPair| #[trigger] self@.contains(q) <==> (old_view.contains(q) || q == x) by {
                if self@.contains(q) {
                    let k = choose|k: int| 0 <= k < self@.len() && self@[k] == q;
                    if k < pos as int {
                        assert(old_view[k] == q);
                    } else if k > pos as int {
                        assert(old_view[k - 1] == q);
                    }
                }
                if old_view.contains(q) {
                    let k = choose|k: int| 0 <= k < old_view.len() && old_view[k] == q;
                    if k < pos as int {
                        assert(self@[k] == q);
                    } else {
                        assert(self@[k + 1] == q);
                    }
                }
                if q == x {
                    assert(self@[pos as int] == q);
                }
            }
        }
    }

    /// Removes `(a, b)` if present.
    pub fn remove(&mut self, a: &str, b: &str)
        requires
            old(self).wf(),
        ensures
            final(self).wf(),
            forall|q: TextPair| #[trigger] final(self)@.contains(q) <==> (old(self)@.contains(q) && q != (a@, b@)),
    {
        let (pos, found) = self.locate(a, b);
        let ghost old_view = self@;
        let ghost x = (a@, b@);
        if !found {
            proof {
                assert forall|q: TextPair| #[trigger] old_view.contains(q) implies q != x by {
                    let k = choose|k: int| 0 <= k < old_view.len() && old_view[k] == q;
                    if q == x {
                        lemma_pair_lt_strict(x, x);
                        if k > pos as int {
                            lemma_pair_lt_transitive(x, old_view[pos as int], old_view[k]);
                        }
                    }
                }
            }
            return;
        }
        self.items.remove(pos);
        proof {
            assert(self@ =~= old_view.remove(pos as int));
            assert forall|i: int, j: int| 0 <= i < j < self@.len() implies pair_lt(#[trigger] self@[i], #[trigger] self@[j]) by {
                let ii = if i < pos as int { i } else { i + 1 };
                let jj = if j < pos as int { j } else { j + 1 };
                assert(self@[i] == old_view[ii]);
                assert(self@[j] == old_view[jj]);
            }
            assert forall|q: TextPair| #[trigger] self@.contains(q) <==> (old_view.contains(q) && q != x) by {
                if self@.contains(q) {
                    let k = choose|k: int| 0 <= k < self@.len() && self@[k] == q;
                    let kk = if k < pos as int { k } else { k + 1 };
                    assert(old_view[kk] == q);
                    lemma_pair_lt_strict(old_view[pos as int], q);
                }
                if old_view.contains(q) && q != x {
                    let k = choose|k: int| 0 <= k < old_view.len() && old_view[k] == q;
                    if k < pos as int {
                        assert(self@[k] == q);
                    } else {
                        assert(k != pos as int);
                        assert(self@[k - 1] == q);
                    }
                }
            }
        }
    }

    /// All pairs, in order.
    pub fn to_vec(&self) -> (v: Vec<(String, String)>)
        ensures
            pairs_view(v@) == self@,
    {
        let mut v: Vec<(String, String)> = Vec::new();
        let mut i: usize = 0;
        while i < self.items.len()
            invariant
                i <= self.items@.len(),
                v@.len() == i,
                pairs_view(v@) == pairs_view(self.items@.take(i as int)),
            decreases self.items.len() - i,
        {
            let p = &self.items[i];
            let first = p.0.clone();
            let second = p.1.clone();
            assert(pair_view((first, second)) == pair_view(self.items@[i as int]));
            let ghost prev = v@;
            v.push((first, second));
            proof {
                assert(v@ == prev.push((first, second)));
                assert forall|k: int| 0 <= k < i implies pairs_view(v@)[k] == pairs_view(prev)[k] by {
                    assert(v@[k] == prev[k]);
                }
                assert(pairs_view(prev).len() == i);
                assert forall|k: int| 0 <= k < i + 1 implies pairs_view(v@)[k] == pairs_view(self.items@.take(i as int + 1))[k] by {
                    if k < i {
                        assert(pairs_view(prev)[k] == pairs_view(self.items@.take(i as int))[k]);
                        assert(self.items@.take(i as int)[k] == self.items@[k]);
                    }
                    assert(self.items@.take(i as int + 1)[k] == self.items@[k]);
                }
                assert(self.items@.take(i as int + 1) =~= self.items@.take(i as int).push(self.items@[i as int]));
                assert(pairs_view(v@) =~= pairs_view(self.items@.take(i as int + 1)));
            }
            i = i + 1;
        }
        assert(self.items@.take(i as int) =~= self.items@);
        v
    }

    /// The second components of the pairs whose first component is `a`, in order.
    pub fn seconds_of(&self, a: &str) -> (v: Vec<String>)
        ensures
            v@.map_values(|s: String| s@) == seconds(self@, a@),
    {
        let mut v: Vec<String> = Vec::new();
        let mut i: usize = 0;
        while i < self.items.len()
            invariant
                i <= self.items@.len(),
                self@.len() == self.items@.len(),
                v@.map_values(|s: String| s@) == seconds(self@.take(i as int), a@),
            decreases self.items.len() - i,
        {
            let p = &self.items[i];
            proof {
                assert(self@.take(i as int + 1).drop_last() =~= self@.take(i as int));
                assert(self@[i as int] == pair_view(self.items@[i as int]));
            }
            if crate::text::str_eq(p.0.as_str(), a) {
                v.push(p.1.clone());
                assert(v@.map_values(|s: String| s@) =~= seconds(self@.take(i as int), a@).push(p.1@));
            }
            i = i + 1;
        }
        assert(self@.take(i as int) =~= self@);
        v
    }
}


/// Two strictly sorted sequences with the same members are equal: a table's
/// listing depends only on which pairs it holds.
pub proof fn lemma_sorted_same_members(a: Seq<TextPair>, b: Seq<TextPair>)
    requires
        strictly_sorted(a),
        strictly_sorted(b),
        forall|q: TextPair| a.contains(q) <==> b.contains(q),
    ensures
        a == b,
    decreases a.len(),
{
    if a.len() == 0 {
        if b.len() > 0 {
            assert(b.contains(b[0]));
        }
        assert(a =~= b);
    } else if b.len() == 0 {
        assert(a.contains(a[0]));
    } else {
        assert(a.contains(a[0]));
        assert(b.contains(b[0]));
        let j = choose|j: int| 0 <= j < b.len() && b[j] == a[0];
        let i = choose|i: int| 0 <= i < a.len() && a[i] == b[0];
        lemma_pair_lt_strict(a[0], b[0]);
        if a[0] != b[0] {
            assert(i > 0 && j > 0);
            assert(pair_lt(a[0], a[i]));
            assert(pair_lt(b[0], b[j]));
        }
        let a1 = a.drop_first();
        let b1 = b.drop_first();
        assert(strictly_sorted(a1)) by {
            assert forall|x: int, y: int| 0 <= x < y < a1.len() implies pair_lt(#[trigger] a1[x], #[trigger] a1[y]) by {
                assert(a1[x] == a[x + 1] && a1[y] == a[y + 1]);
            }
        }
        assert(strictly_sorted(b1)) by {
            assert forall|x: int, y: int| 0 <= x < y < b1.len() implies pair_lt(#[trigger] b1[x], #[trigger] b1[y]) by {
                assert(b1[x] == b[x + 1] && b1[y] == b[y + 1]);
            }
        }
        assert forall|q: TextPair| a1.contains(q) <==> b1.contains(q) by {
            lemma_pair_lt_strict(q, q);
            if a1.contains(q) {
                let k = choose|k: int| 0 <= k < a1.len() && a1[k] == q;
                assert(a[k + 1] == q);
                assert(pair_lt(a[0], a[k + 1]));
                assert(b.contains(q));
                let m = choose|m: int| 0 <= m < b.len() && b[m] == q;
                assert(m != 0);
                assert(b1[m - 1] == q);
            }
            if b1.contains(q) {
                let k = choose|k: int| 0 <= k < b1.len() && b1[k] == q;
                assert(b[k + 1] == q);
                assert(pair_lt(b[0], b[k + 1]));
                assert(a.contains(q));
                let m = choose|m: int| 0 <= m < a.len() && a[m] == q;
                assert(m != 0);
                assert(a1[m - 1] == q);
            }
        }
        lemma_sorted_same_members(a1, b1);
        assert(a =~= b) by {
            assert forall|x: int| 0 <= x < a.len() implies a[x] == b[x] by {
                if x > 0 {
                    assert(a[x] == a1[x - 1] && b[x] == b1[x - 1]);
                }
            }
        }
    }
}

/// Adding a pair the table did not hold and then removing it gives back the
/// same table, listed the same.
pub proof fn lemma_add_then_remove_restores(before: Seq<TextPair>, mid: Seq<TextPair>, after: Seq<TextPair>, q: TextPair)
    requires
        strictly_sorted(before),
        strictly_sorted(after),
        !before.contains(q),
        forall|p: TextPair| #[trigger] mid.contains(p) <==> (before.contains(p) || p == q),
        forall|p: TextPair| #[trigger] after.contains(p) <==> (mid.contains(p) && p != q),
    ensures
        after == before,
{
    assert forall|p: TextPair| after.contains(p) <==> before.contains(p) by {
        assert(mid.contains(p) <==> (before.contains(p) || p == q));
    }
    lemma_sorted_same_members(after, before);
}


/// One add (`(true, p)`) or remove (`(false, p)`) of a pair.
pub type PairChange = (bool, TextPair);

/// `after` is `before` with `change` applied.
pub open spec fn applies(before: Seq<TextPair>, after: Seq<TextPair>, change: PairChange) -> bool {
    forall|p: TextPair| #[trigger] after.contains(p) <==>
        (if change.0 { before.contains(p) || p == change.1 } else { before.contains(p) && p != change.1 })
}

/// Whether `q` is held after `changes`, starting from a table that holds
/// it exactly when `start`: the last change of `q` decides.
pub open spec fn held_after(start: bool, changes: Seq<PairChange>, q: TextPair) -> bool
    decreases changes.len(),
{
    if changes.len() == 0 {
        start
    } else if changes.last().1 == q {
        changes.last().0
    } else {
        held_after(start, changes.drop_last(), q)
    }
}

/// Over any sequence of adds and removes, a pair is in the table exactly
/// when the last add or remove of it was an add (or, when there was none,
/// when the table held it at the start). With the tables kept strictly
/// sorted, [`lemma_sorted_same_members`] then fixes the listing as well.
pub proof fn lemma_tables_follow_last_change(tables: Seq<Seq<TextPair>>, changes: Seq<PairChange>)
    requires
        tables.len() == changes.len() + 1,
        forall|k: int| 0 <= k < changes.len() ==> applies(tables[k], tables[k + 1], #[trigger] changes[k]),
    ensures
        forall|p: TextPair| #[trigger] tables.last().contains(p) <==> held_after(tables[0].contains(p), changes, p),
    decreases changes.len(),
{
    if changes.len() > 0 {
        let t1 = tables.drop_last();
        let c1 = changes.drop_last();
        assert forall|k: int| 0 <= k < c1.len() implies applies(t1[k], t1[k + 1], #[trigger] c1[k]) by {
            assert(c1[k] == changes[k]);
            assert(applies(tables[k], tables[k + 1], changes[k]));
        }
        lemma_tables_follow_last_change(t1, c1);
        let n = changes.len() - 1;
        assert(applies(tables[n], tables[n + 1], changes[n]));
        assert forall|p: TextPair| #[trigger] tables.last().contains(p) <==> held_after(tables[0].contains(p), changes, p) by {
            assert(t1.last() == tables[n]);
            assert(t1[0] == tables[0]);
            assert(tables.last() == tables[n + 1]);
            assert(tables[n + 1].contains(p) <==>
                (if changes[n].0 { tables[n].contains(p) || p == changes[n].1 } else { tables[n].contains(p) && p != changes[n].1 }));
        }
    }
}

} // verus!
