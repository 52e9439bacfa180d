//! Facts about sequences that the loops of this crate lean on.
use vstd::prelude::*;

verus! {

/// Filtering one element more: the element at `i` is appended to what the first `i`
/// elements gave if it passes, and dropped if it does not.
pub proof fn lemma_filter_take_next<A>(s: Seq<A>, keep: spec_fn(A) -> bool, i: int)
    requires
        0 <= i < s.len(),
    ensures
        s.take(i + 1).filter(keep) == if keep(s[i]) {
            s.take(i).filter(keep).push(s[i])
        } else {
            s.take(i).filter(keep)
        },
{
    reveal(Seq::filter);
    assert(s.take(i + 1).drop_last() =~= s.take(i));
    assert(s.take(i + 1).last() == s[i]);
}

/// Mapping commutes with appending one element.
pub proof fn lemma_map_values_push<A, B>(s: Seq<A>, f: spec_fn(A) -> B, a: A)
    ensures
        s.push(a).map_values(f) == s.map_values(f).push(f(a)),
{
    assert(s.push(a).map_values(f) =~= s.map_values(f).push(f(a)));
}

/// The positions at which the elements that pass `keep` stand in `s`: one for each
/// element of the filtered sequence, in rising order.
pub proof fn lemma_filter_positions<A>(s: Seq<A>, keep: spec_fn(A) -> bool) -> (at: Seq<int>)
    ensures
        at.len() == s.filter(keep).len(),
        forall|a: int| 0 <= a < at.len() ==> 0 <= #[trigger] at[a] < s.len(),
        forall|a: int| 0 <= a < at.len() ==> s.filter(keep)[a] == s[#[trigger] at[a]],
        forall|a: int| 0 <= a < at.len() ==> keep(s[#[trigger] at[a]]),
        forall|a: int, b: int| 0 <= a < b < at.len() ==> #[trigger] at[a] < #[trigger] at[b],
        forall|i: int| 0 <= i < s.len() && keep(#[trigger] s[i]) ==> at.contains(i),
    decreases s.len(),
{
    reveal(Seq::filter);
    if s.len() == 0 {
        Seq::empty()
    } else {
        let front = lemma_filter_positions(s.drop_last(), keep);
        let last = s.len() - 1;
        if keep(s.last()) {
            let at = front.push(last);
            assert forall|i: int| 0 <= i < s.len() && keep(s[i]) implies at.contains(i) by {
                if i < last {
                    assert(s.drop_last()[i] == s[i]);
                    assert(keep(s.drop_last()[i]));
                    assert(front.contains(i));
                    let a = choose|a: int| 0 <= a < front.len() && front[a] == i;
                    assert(at[a] == i);
                } else {
                    assert(at[front.len() as int] == i);
                }
            }
            at
        } else {
            assert forall|i: int| 0 <= i < s.len() && keep(s[i]) implies front.contains(i) by {
                assert(s.drop_last()[i] == s[i]);
                assert(keep(s.drop_last()[i]));
            }
            front
        }
    }
}

/// An element passes through a filter exactly if it stands in the sequence and
/// passes the test.
pub proof fn lemma_filter_member<A>(s: Seq<A>, keep: spec_fn(A) -> bool, a: A)
    ensures
        s.filter(keep).contains(a) <==> s.contains(a) && keep(a),
{
    let at = lemma_filter_positions(s, keep);
    if s.filter(keep).contains(a) {
        let k = choose|k: int| 0 <= k < s.filter(keep).len() && s.filter(keep)[k] == a;
        assert(s[at[k]] == a);
    }
    if s.contains(a) && keep(a) {
        let i = choose|i: int| 0 <= i < s.len() && s[i] == a;
        assert(at.contains(i));
        let k = choose|k: int| 0 <= k < at.len() && at[k] == i;
        assert(s.filter(keep)[k] == a);
    }
}

/// What passes a filter and what fails it add up: of the elements that pass `count`,
/// those that `keep` lets through and those that it holds back are all there are.
pub proof fn lemma_filter_split_len<A>(
    s: Seq<A>,
    keep: spec_fn(A) -> bool,
    drop: spec_fn(A) -> bool,
    count: spec_fn(A) -> bool,
)
    requires
        forall|a: A| #[trigger] drop(a) == !keep(a),
    ensures
        s.filter(keep).filter(count).len() + s.filter(drop).filter(count).len() == s.filter(
            count,
        ).len(),
        s.filter(keep).len() + s.filter(drop).len() == s.len(),
    decreases s.len(),
{
    reveal(Seq::filter);
    if s.len() > 0 {
        lemma_filter_split_len(s.drop_last(), keep, drop, count);
        let front = s.drop_last();
        assert(drop(s.last()) == !keep(s.last()));
        if keep(s.last()) {
            front.filter(keep).lemma_filter_push(s.last(), count);
        } else {
            front.filter(drop).lemma_filter_push(s.last(), count);
        }
    }
}

/// Counting after one element was replaced: the old element no longer counts, the
/// new one does.
pub proof fn lemma_filter_update_len<A>(s: Seq<A>, count: spec_fn(A) -> bool, i: int, a: A)
    requires
        0 <= i < s.len(),
    ensures
        s.update(i, a).filter(count).len() + (if count(s[i]) {
            1int
        } else {
            0int
        }) == s.filter(count).len() + (if count(a) {
            1int
        } else {
            0int
        }),
{
    let head = s.take(i);
    let tail = s.skip(i + 1);
    assert(s =~= head + seq![s[i]] + tail);
    assert(s.update(i, a) =~= head + seq![a] + tail);
    Seq::filter_distributes_over_add(head + seq![s[i]], tail, count);
    Seq::filter_distributes_over_add(head, seq![s[i]], count);
    Seq::filter_distributes_over_add(head + seq![a], tail, count);
    Seq::filter_distributes_over_add(head, seq![a], count);
    lemma_filter_one(s[i], count);
    lemma_filter_one(a, count);
}

/// Counting after one element was taken out.
pub proof fn lemma_filter_remove_len<A>(s: Seq<A>, count: spec_fn(A) -> bool, i: int)
    requires
        0 <= i < s.len(),
    ensures
        s.remove(i).filter(count).len() + (if count(s[i]) {
            1int
        } else {
            0int
        }) == s.filter(count).len(),
{
    let head = s.take(i);
    let tail = s.skip(i + 1);
    assert(s =~= head + seq![s[i]] + tail);
    assert(s.remove(i) =~= head + tail);
    Seq::filter_distributes_over_add(head + seq![s[i]], tail, count);
    Seq::filter_distributes_over_add(head, seq![s[i]], count);
    Seq::filter_distributes_over_add(head, tail, count);
    lemma_filter_one(s[i], count);
}

/// A filter that every element passes changes nothing.
pub proof fn lemma_filter_all<A>(s: Seq<A>, keep: spec_fn(A) -> bool)
    requires
        forall|i: int| 0 <= i < s.len() ==> keep(#[trigger] s[i]),
    ensures
        s.filter(keep) == s,
    decreases s.len(),
{
    reveal(Seq::filter);
    if s.len() > 0 {
        assert forall|i: int| 0 <= i < s.drop_last().len() implies keep(
            #[trigger] s.drop_last()[i],
        ) by {
            assert(s.drop_last()[i] == s[i]);
        }
        lemma_filter_all(s.drop_last(), keep);
        assert(keep(s[s.len() - 1]));
        assert(s.drop_last().push(s.last()) =~= s);
    } else {
        assert(s.filter(keep) =~= s);
    }
}

/// A filter that no element passes leaves nothing.
pub proof fn lemma_filter_none<A>(s: Seq<A>, keep: spec_fn(A) -> bool)
    requires
        forall|i: int| 0 <= i < s.len() ==> !keep(#[trigger] s[i]),
    ensures
        s.filter(keep).len() == 0,
{
    let at = lemma_filter_positions(s, keep);
    if s.filter(keep).len() > 0 {
        assert(keep(s[at[0]]));
    }
}

/// Filtering twice is filtering once by both tests.
pub proof fn lemma_filter_filter<A>(
    s: Seq<A>,
    first: spec_fn(A) -> bool,
    second: spec_fn(A) -> bool,
    both: spec_fn(A) -> bool,
)
    requires
        forall|a: A| #[trigger] both(a) == (first(a) && second(a)),
    ensures
        s.filter(first).filter(second) == s.filter(both),
    decreases s.len(),
{
    reveal(Seq::filter);
    if s.len() > 0 {
        lemma_filter_filter(s.drop_last(), first, second, both);
        assert(both(s.last()) == (first(s.last()) && second(s.last())));
        if first(s.last()) {
            s.drop_last().filter(first).lemma_filter_push(s.last(), second);
        }
    } else {
        assert(s.filter(first) =~= s);
    }
}

/// A sequence of one element passes a filter whole or not at all.
pub proof fn lemma_filter_one<A>(a: A, keep: spec_fn(A) -> bool)
    ensures
        seq![a].filter(keep) == if keep(a) {
            seq![a]
        } else {
            Seq::<A>::empty()
        },
{
    reveal(Seq::filter);
    assert(seq![a].drop_last() =~= Seq::<A>::empty());
    assert(seq![a].drop_last().filter(keep) =~= Seq::<A>::empty());
    assert(Seq::<A>::empty().push(a) =~= seq![a]);
}

} // verus!
