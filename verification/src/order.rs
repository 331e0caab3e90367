//! The lexicographic order of texts by character, and listings kept in that
//! order without repeats.

use crate::text::views;
use vstd::prelude::*;
use vstd::slice::slice_to_vec;

verus! {

/// Whether `a` comes before `b` in lexicographic order: at the first index
/// where they differ `a` has the smaller character, or `a` ends there and
/// `b` goes on.
pub open spec fn lex_lt(a: Seq<char>, b: Seq<char>) -> bool
    decreases a.len(),
{
    if b.len() == 0 {
        false
    } else if a.len() == 0 {
        true
    } else if a[0] != b[0] {
        a[0] < b[0]
    } else {
        lex_lt(a.drop_first(), b.drop_first())
    }
}

/// No text comes before itself, and of two texts at most one comes before
/// the other.
pub proof fn lex_lt_asymmetric(a: Seq<char>, b: Seq<char>)
    ensures
        !(lex_lt(a, b) && lex_lt(b, a)),
        a == b ==> !lex_lt(a, b),
    decreases a.len(),
{
    if a.len() > 0 && b.len() > 0 && a[0] == b[0] {
        lex_lt_asymmetric(a.drop_first(), b.drop_first());
    }
}

/// The order is transitive.
pub proof fn lex_lt_transitive(a: Seq<char>, b: Seq<char>, c: Seq<char>)
    requires
        lex_lt(a, b),
        lex_lt(b, c),
    ensures
        lex_lt(a, c),
    decreases a.len(),
{
    if a.len() > 0 && a[0] == b[0] && b[0] == c[0] {
        lex_lt_transitive(a.drop_first(), b.drop_first(), c.drop_first());
    }
}

/// Of two different texts one comes before the other.
pub proof fn lex_lt_total(a: Seq<char>, b: Seq<char>)
    ensures
        lex_lt(a, b) || a == b || lex_lt(b, a),
    decreases a.len(),
{
    if a.len() > 0 && b.len() > 0 && a[0] == b[0] {
        lex_lt_total(a.drop_first(), b.drop_first());
        if a.drop_first() == b.drop_first() {
            assert(a =~= seq![a[0]] + a.drop_first());
            assert(b =~= seq![b[0]] + b.drop_first());
        }
    } else if a.len() == 0 && b.len() == 0 {
        assert(a =~= b);
    }
}

/// Where two texts stand to each other in lexicographic order.
#[derive(Clone, Copy, Debug, PartialEq, Eq, Structural)]
pub enum Order {
    /// The first comes before the second.
    Before,
    /// They are the same text.
    Same,
    /// The first comes after the second.
    After,
}

/// Compares two texts in lexicographic order.
pub fn lex_order(a: &[char], b: &[char]) -> (r: Order)
    ensures
        r is Before <==> lex_lt(a@, b@),
        r is Same <==> a@ == b@,
        r is After <==> lex_lt(b@, a@),
{
    let mut i: usize = 0;
    assert(a@.skip(0) =~= a@);
    assert(b@.skip(0) =~= b@);
    while i < a.len() && i < b.len() && a[i] == b[i]
        invariant
            i <= a.len(),
            i <= b.len(),
            a@.take(i as int) == b@.take(i as int),
            lex_lt(a@, b@) == lex_lt(a@.skip(i as int), b@.skip(i as int)),
            lex_lt(b@, a@) == lex_lt(b@.skip(i as int), a@.skip(i as int)),
        decreases a.len() - i,
    {
        assert(a@.skip(i as int).drop_first() =~= a@.skip(i + 1));
        assert(b@.skip(i as int).drop_first() =~= b@.skip(i + 1));
        assert(a@.take(i + 1) =~= a@.take(i as int).push(a@[i as int]));
        assert(b@.take(i + 1) =~= b@.take(i as int).push(b@[i as int]));
        i += 1;
    }
    if i == a.len() && i == b.len() {
        assert(a@.take(i as int) =~= a@);
        assert(b@.take(i as int) =~= b@);
        Order::Same
    } else if i == a.len() {
        Order::Before
    } else if i == b.len() {
        Order::After
    } else if a[i] < b[i] {
        Order::Before
    } else {
        Order::After
    }
}

/// Whether each text of the listing comes before all that follow it: the
/// listing is in order and holds nothing twice.
pub open spec fn strictly_sorted(list: Seq<Seq<char>>) -> bool {
    forall|i: int, j: int| 0 <= i < j < list.len() ==> lex_lt(#[trigger] list[i], #[trigger] list[j])
}

/// Two listings in strict order with the same members are the same listing.
pub proof fn sorted_listing_is_unique(a: Seq<Seq<char>>, b: Seq<Seq<char>>)
    requires
        strictly_sorted(a),
        strictly_sorted(b),
        forall|t: Seq<char>|
            #![trigger a.contains(t)]
            #![trigger b.contains(t)]
            a.contains(t) <==> b.contains(t),
    ensures
        a == b,
    decreases a.len(),
{
    if a.len() == 0 {
        if b.len() > 0 {
            assert(b.contains(b[0]));
        }
        assert(a =~= b);
    } else {
        assert(a.contains(a[0]));
        let j = choose|j: int| 0 <= j < b.len() && b[j] == a[0];
        assert(b.contains(b[0]));
        let i = choose|i: int| 0 <= i < a.len() && a[i] == b[0];
        lex_lt_asymmetric(a[0], b[0]);
        assert(a[0] == b[0]);
        let x = a.drop_first();
        let y = b.drop_first();
        assert forall|t: Seq<char>|
            #![trigger x.contains(t)]
            #![trigger y.contains(t)]
            x.contains(t) <==> y.contains(t) by {
            if x.contains(t) {
                let k = choose|k: int| 0 <= k < x.len() && x[k] == t;
                assert(a[k + 1] == t);
                assert(a.contains(t));
                lex_lt_asymmetric(a[0], t);
                let m = choose|m: int| 0 <= m < b.len() && b[m] == t;
                assert(y[m - 1] == t);
            }
            if y.contains(t) {
                let k = choose|k: int| 0 <= k < y.len() && y[k] == t;
                assert(b[k + 1] == t);
                assert(b.contains(t));
                lex_lt_asymmetric(b[0], t);
                let m = choose|m: int| 0 <= m < a.len() && a[m] == t;
                assert(x[m - 1] == t);
            }
        }
        assert forall|p: int, q: int| 0 <= p < q < x.len() implies lex_lt(
            #[trigger] x[p],
            #[trigger] x[q],
        ) by {
            assert(x[p] == a[p + 1] && x[q] == a[q + 1]);
        }
        assert forall|p: int, q: int| 0 <= p < q < y.len() implies lex_lt(
            #[trigger] y[p],
            #[trigger] y[q],
        ) by {
            assert(y[p] == b[p + 1] && y[q] == b[q + 1]);
        }
        sorted_listing_is_unique(x, y);
        assert(a =~= seq![a[0]] + x);
        assert(b =~= seq![b[0]] + y);
    }
}

/// Puts a text into a listing in strict order, at its place, unless the
/// listing holds it already.
pub fn insert_sorted(list: &mut Vec<Vec<char>>, item: Vec<char>)
    requires
        strictly_sorted(views(old(list)@)),
    ensures
        strictly_sorted(views(final(list)@)),
        forall|t: Seq<char>|
            #![trigger views(final(list)@).contains(t)]
            #![trigger views(old(list)@).contains(t)]
            views(final(list)@).contains(t) <==> (views(old(list)@).contains(t) || t == item@),
{
    let ghost before = views(list@);
    let mut k: usize = 0;
    let mut place: Option<usize> = None;
    while k < list.len() && place.is_none()
        invariant
            k <= list.len(),
            list@ == old(list)@,
            before == views(list@),
            strictly_sorted(before),
            forall|j: int| 0 <= j < k && place is None ==> lex_lt(#[trigger] before[j], item@),
            place matches Some(p) ==> {
                &&& p < list.len()
                &&& lex_lt(item@, before[p as int])
                &&& forall|j: int| 0 <= j < p ==> lex_lt(#[trigger] before[j], item@)
            },
        decreases list.len() - k + if place is None { 1int } else { 0int },
    {
        match lex_order(list[k].as_slice(), item.as_slice()) {
            Order::Before => {
                k += 1;
            },
            Order::Same => {
                assert(before[k as int] == item@);
                return ;
            },
            Order::After => {
                place = Some(k);
            },
        }
    }
    let at: usize = match place {
        Some(p) => p,
        None => list.len(),
    };
    list.insert(at, item);
    proof {
        let after = views(list@);
        assert(after =~= before.insert(at as int, item@));
        assert forall|i: int, j: int| 0 <= i < j < after.len() implies lex_lt(
            #[trigger] after[i],
            #[trigger] after[j],
        ) by {
            if j < at {
                assert(after[i] == before[i] && after[j] == before[j]);
            } else if j == at {
                assert(after[i] == before[i]);
            } else if i < at {
                assert(after[i] == before[i] && after[j] == before[j - 1]);
                if j - 1 > at {
                    lex_lt_transitive(before[i], item@, before[at as int]);
                    lex_lt_transitive(before[i], before[at as int], before[j - 1]);
                } else {
                    lex_lt_transitive(before[i], item@, before[at as int]);
                }
            } else if i == at {
                assert(after[j] == before[j - 1]);
                if j - 1 > at {
                    lex_lt_transitive(item@, before[at as int], before[j - 1]);
                }
            } else {
                assert(after[i] == before[i - 1] && after[j] == before[j - 1]);
            }
        }
        assert forall|t: Seq<char>|
            #![trigger after.contains(t)]
            #![trigger before.contains(t)]
            after.contains(t) <==> (before.contains(t) || t == item@) by {
            if after.contains(t) {
                let i = choose|i: int| 0 <= i < after.len() && after[i] == t;
                if i < at {
                    assert(before[i] == t);
                } else if i > at {
                    assert(before[i - 1] == t);
                }
            }
            if before.contains(t) {
                let i = choose|i: int| 0 <= i < before.len() && before[i] == t;
                if i < at {
                    assert(after[i] == t);
                } else {
                    assert(after[i + 1] == t);
                }
            }
            if t == item@ {
                assert(after[at as int] == t);
            }
        }
    }
}

/// A listing in strict order holds nothing twice.
pub proof fn sorted_has_no_duplicates(list: Seq<Seq<char>>)
    requires
        strictly_sorted(list),
    ensures
        list.no_duplicates(),
{
    assert forall|i: int, j: int| 0 <= i < list.len() && 0 <= j < list.len() && i != j implies list[i]
        != list[j] by {
        lex_lt_asymmetric(list[i], list[j]);
        lex_lt_asymmetric(list[j], list[i]);
    }
}

/// The given texts as a listing in strict order: each once, in
/// lexicographic order.
pub fn sorted_set(items: &Vec<Vec<char>>) -> (list: Vec<Vec<char>>)
    ensures
        strictly_sorted(views(list@)),
        forall|t: Seq<char>|
            #![trigger views(list@).contains(t)]
            #![trigger views(items@).contains(t)]
            views(list@).contains(t) <==> views(items@).contains(t),
{
    let mut list: Vec<Vec<char>> = Vec::new();
    let mut i: usize = 0;
    while i < items.len()
        invariant
            i <= items.len(),
            strictly_sorted(views(list@)),
            forall|t: Seq<char>|
                #![trigger views(list@).contains(t)]
                #![trigger views(items@).take(i as int).contains(t)]
                views(list@).contains(t) <==> views(items@).take(i as int).contains(t),
        decreases items.len() - i,
    {
        let item = slice_to_vec(items[i].as_slice());
        let ghost was = views(list@);
        insert_sorted(&mut list, item);
        proof {
            let seen = views(items@).take(i as int);
            let now = views(items@).take(i + 1);
            assert(now =~= seen.push(item@));
            assert forall|t: Seq<char>|
                #![trigger views(list@).contains(t)]
                #![trigger now.contains(t)]
                views(list@).contains(t) <==> now.contains(t) by {
                if now.contains(t) {
                    let k = choose|k: int| 0 <= k < now.len() && now[k] == t;
                    if k < i {
                        assert(seen[k] == t);
                        assert(seen.contains(t));
                    }
                }
                if seen.contains(t) {
                    let k = choose|k: int| 0 <= k < seen.len() && seen[k] == t;
                    assert(now[k] == t);
                }
                if t == item@ {
                    assert(now[i as int] == t);
                }
                assert(views(list@).contains(t) <==> (was.contains(t) || t == item@));
            }
        }
        i += 1;
    }
    assert(views(items@).take(items@.len() as int) =~= views(items@));
    list
}

} // verus!
