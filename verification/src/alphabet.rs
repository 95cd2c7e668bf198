//! Alphabetical order: by the code points of the characters, the first difference deciding.
use crate::text::same_list;
use vstd::prelude::*;

verus! {

/// Does `a` come before `b` in alphabetical order, or is it the same?
pub open spec fn alphabetical(a: Seq<char>, b: Seq<char>) -> bool
    decreases a.len(),
{
    if a.len() == 0 {
        true
    } else if b.len() == 0 {
        false
    } else if a[0] != b[0] {
        a[0] < b[0]
    } else {
        alphabetical(a.skip(1), b.skip(1))
    }
}

/// Are the names in alphabetical order?
pub open spec fn in_order(names: Seq<Seq<char>>) -> bool {
    forall|i: int, j: int| 0 <= i < j < names.len() ==> alphabetical(names[i], names[j])
}

proof fn lemma_alphabetical_total(a: Seq<char>, b: Seq<char>)
    ensures
        alphabetical(a, b) || alphabetical(b, a),
    decreases a.len(),
{
    if a.len() > 0 && b.len() > 0 && a[0] == b[0] {
        lemma_alphabetical_total(a.skip(1), b.skip(1));
    }
}

proof fn lemma_alphabetical_transitive(a: Seq<char>, b: Seq<char>, c: Seq<char>)
    requires
        alphabetical(a, b),
        alphabetical(b, c),
    ensures
        alphabetical(a, c),
    decreases a.len(),
{
    if a.len() > 0 && b.len() > 0 && c.len() > 0 && a[0] == b[0] && b[0] == c[0] {
        lemma_alphabetical_transitive(a.skip(1), b.skip(1), c.skip(1));
    }
}

fn comes_first(a: &Vec<char>, b: &Vec<char>) -> (r: bool)
    ensures
        r == alphabetical(a@, b@),
{
    let mut i: usize = 0;
    assert(a@.skip(0) =~= a@ && b@.skip(0) =~= b@);
    while i < a.len() && i < b.len() && a[i] == b[i]
        invariant
            i <= a.len(),
            i <= b.len(),
            alphabetical(a@, b@) == alphabetical(a@.skip(i as int), b@.skip(i as int)),
        decreases a.len() - i,
    {
        assert(a@.skip(i as int).skip(1) =~= a@.skip(i + 1));
        assert(b@.skip(i as int).skip(1) =~= b@.skip(i + 1));
        i = i + 1;
    }
    if i >= a.len() {
        true
    } else if i >= b.len() {
        false
    } else {
        a[i] < b[i]
    }
}

/// Where a name goes in a list that is in order.
fn place_of(names: &Vec<Vec<char>>, name: &Vec<char>) -> (r: usize)
    requires
        in_order(crate::text::line_views(names@)),
    ensures
        r <= names.len(),
        forall|i: int| 0 <= i < r ==> alphabetical(#[trigger] names[i]@, name@),
        forall|i: int| r <= i < names.len() ==> !alphabetical(#[trigger] names[i]@, name@),
{
    let mut at: usize = names.len();
    while at > 0 && !comes_first(&names[at - 1], name)
        invariant
            at <= names.len(),
            in_order(crate::text::line_views(names@)),
            forall|i: int| at <= i < names.len() ==> !alphabetical(#[trigger] names[i]@, name@),
        decreases at,
    {
        at = at - 1;
    }
    assert forall|i: int| 0 <= i < at implies alphabetical(#[trigger] names[i]@, name@) by {
        if i < at - 1 {
            let views = crate::text::line_views(names@);
            assert(alphabetical(views[i], views[at - 1]));
            lemma_alphabetical_transitive(names[i]@, names[at - 1]@, name@);
        }
    }
    at
}

proof fn lemma_alphabetical_antisymmetric(a: Seq<char>, b: Seq<char>)
    requires
        alphabetical(a, b),
        alphabetical(b, a),
    ensures
        a == b,
    decreases a.len(),
{
    if a.len() > 0 && b.len() > 0 {
        lemma_alphabetical_antisymmetric(a.skip(1), b.skip(1));
        assert forall|i: int| 0 <= i < a.len() implies a[i] == b[i] by {
            if i > 0 {
                assert(a[i] == a.skip(1)[i - 1]);
                assert(b[i] == b.skip(1)[i - 1]);
            }
        }
        assert(a.skip(1).len() == b.skip(1).len());
        assert(a =~= b);
    } else {
        assert(a =~= b);
    }
}

proof fn lemma_alphabetical_reflexive(a: Seq<char>)
    ensures
        alphabetical(a, a),
    decreases a.len(),
{
    if a.len() > 0 {
        lemma_alphabetical_reflexive(a.skip(1));
    }
}

/// A list with one more name where it belongs is in order.
proof fn lemma_insert_keeps_order(before: Seq<Seq<char>>, at: int, name: Seq<char>)
    requires
        in_order(before),
        0 <= at <= before.len(),
        forall|i: int| 0 <= i < at ==> alphabetical(#[trigger] before[i], name),
        forall|i: int| at <= i < before.len() ==> !alphabetical(#[trigger] before[i], name),
    ensures
        in_order(before.insert(at, name)),
{
    let now = before.insert(at, name);
    assert forall|p: int, q: int| 0 <= p < q < now.len() implies alphabetical(now[p], now[q]) by {
        if q < at {
            assert(now[p] == before[p] && now[q] == before[q]);
        } else if q == at {
            assert(now[p] == before[p]);
        } else if p == at {
            assert(now[q] == before[q - 1]);
            lemma_alphabetical_total(before[q - 1], name);
        } else if p < at {
            assert(now[p] == before[p] && now[q] == before[q - 1]);
        } else {
            assert(now[p] == before[p - 1] && now[q] == before[q - 1]);
        }
    }
}

/// Put a name where it belongs.
pub fn insert_in_order(names: &mut Vec<Vec<char>>, name: Vec<char>)
    requires
        in_order(crate::text::line_views(old(names)@)),
    ensures
        in_order(crate::text::line_views(final(names)@)),
        crate::text::line_views(final(names)@).to_multiset() == crate::text::line_views(
            old(names)@,
        ).to_multiset().insert(name@),
{
    let at = place_of(names, &name);
    let ghost before = crate::text::line_views(names@);
    let ghost view = name@;
    proof {
        assert forall|i: int| 0 <= i < at implies alphabetical(#[trigger] before[i], view) by {
            assert(before[i] == names[i]@);
        }
        assert forall|i: int| at <= i < before.len() implies !alphabetical(
            #[trigger] before[i],
            view,
        ) by {
            assert(before[i] == names[i]@);
        }
        lemma_insert_keeps_order(before, at as int, view);
        vstd::seq_lib::to_multiset_insert(before, at as int, view);
    }
    names.insert(at, name);
    assert(crate::text::line_views(names@) =~= before.insert(at as int, view));
}

/// Put a name where it belongs, unless it is there.
pub fn insert_new(names: &mut Vec<Vec<char>>, name: Vec<char>)
    requires
        in_order(crate::text::line_views(old(names)@)),
        crate::text::line_views(old(names)@).no_duplicates(),
    ensures
        in_order(crate::text::line_views(final(names)@)),
        crate::text::line_views(final(names)@).no_duplicates(),
        crate::text::line_views(final(names)@).to_set() == crate::text::line_views(
            old(names)@,
        ).to_set().insert(name@),
{
    let at = place_of(names, &name);
    let ghost before = crate::text::line_views(names@);
    let ghost view = name@;
    proof {
        assert forall|i: int| 0 <= i < at implies alphabetical(#[trigger] before[i], view) by {
            assert(before[i] == names[i]@);
        }
        assert forall|i: int| at <= i < before.len() implies !alphabetical(
            #[trigger] before[i],
            view,
        ) by {
            assert(before[i] == names[i]@);
        }
    }
    if at > 0 && same_list(&names[at - 1], &name) {
        proof {
            assert(before[at - 1] == view);
            assert(before.to_set().insert(view) =~= before.to_set());
        }
        return;
    }
    proof {
        lemma_insert_keeps_order(before, at as int, view);
        assert forall|i: int| 0 <= i < before.len() implies #[trigger] before[i] != view by {
            if before[i] == view {
                lemma_alphabetical_reflexive(view);
                assert(i < at);
                if i < at - 1 {
                    assert(alphabetical(before[i], before[at - 1]));
                    lemma_alphabetical_antisymmetric(before[at - 1], view);
                }
                assert(before[at - 1] == names[at - 1]@);
            }
        }
        let now = before.insert(at as int, view);
        assert forall|p: int, q: int| 0 <= p < q < now.len() implies now[p] != now[q] by {
            if p < at && q > at {
                assert(now[p] == before[p] && now[q] == before[q - 1]);
            } else if q < at {
                assert(now[p] == before[p] && now[q] == before[q]);
            } else if q == at {
                assert(now[p] == before[p]);
            } else if p == at {
                assert(now[q] == before[q - 1]);
            } else {
                assert(now[p] == before[p - 1] && now[q] == before[q - 1]);
            }
        }
        assert forall|s: Seq<char>| #[trigger] now.to_set().contains(s) == before.to_set().insert(
            view,
        ).contains(s) by {
            if now.contains(s) {
                let k = choose|k: int| 0 <= k < now.len() && now[k] == s;
                if k < at {
                    assert(before[k] == s);
                } else if k > at {
                    assert(before[k - 1] == s);
                }
            }
            if before.contains(s) {
                let k = choose|k: int| 0 <= k < before.len() && before[k] == s;
                if k < at {
                    assert(now[k] == s);
                } else {
                    assert(now[k + 1] == s);
                }
            }
            assert(now[at as int] == view);
        }
        assert(now.to_set() =~= before.to_set().insert(view));
    }
    names.insert(at, name);
    assert(crate::text::line_views(names@) =~= before.insert(at as int, view));
}

/// A list in alphabetical order without repetitions is settled by the names in it: sorting can come
/// out in one way only.
pub proof fn law_order_is_settled_by_the_names(a: Seq<Seq<char>>, b: Seq<Seq<char>>)
    requires
        in_order(a),
        in_order(b),
        a.no_duplicates(),
        b.no_duplicates(),
        a.to_set() == b.to_set(),
    ensures
        a == b,
    decreases a.len(),
{
    if a.len() == 0 {
        if b.len() > 0 {
            assert(b.to_set().contains(b[0]));
            assert(a.contains(b[0]));
        }
        assert(a =~= b);
    } else {
        assert(a.to_set().contains(a.last()));
        assert(b.contains(a.last()));
        assert(b.to_set().contains(b.last()));
        assert(a.contains(b.last()));
        let i = choose|i: int| 0 <= i < b.len() && b[i] == a.last();
        let j = choose|j: int| 0 <= j < a.len() && a[j] == b.last();
        if i < b.len() - 1 && j < a.len() - 1 {
            assert(alphabetical(b[i], b[b.len() - 1]));
            assert(alphabetical(a[j], a[a.len() - 1]));
            lemma_alphabetical_antisymmetric(a.last(), b.last());
        }
        assert(a.last() == b.last());
        let x = a.drop_last();
        let y = b.drop_last();
        assert forall|s: Seq<char>| #[trigger] x.to_set().contains(s) == y.to_set().contains(s) by {
            if x.contains(s) {
                let k = choose|k: int| 0 <= k < x.len() && x[k] == s;
                assert(a[k] == s);
                assert(a.to_set().contains(s));
                assert(b.contains(s));
                let m = choose|m: int| 0 <= m < b.len() && b[m] == s;
                assert(m < b.len() - 1);
                assert(y[m] == s);
            }
            if y.contains(s) {
                let k = choose|k: int| 0 <= k < y.len() && y[k] == s;
                assert(b[k] == s);
                assert(b.to_set().contains(s));
                assert(a.contains(s));
                let m = choose|m: int| 0 <= m < a.len() && a[m] == s;
                assert(m < a.len() - 1);
                assert(x[m] == s);
            }
        }
        assert(x.to_set() =~= y.to_set());
        law_order_is_settled_by_the_names(x, y);
        assert(a =~= x.push(a.last()));
        assert(b =~= y.push(b.last()));
    }
}

} // verus!
