//! Bookkeeping of the broadcast server: which client connections to drop
//! after a liveness check.
use vstd::prelude::*;

verus! {

/// The positions of `gone` that hold `true`, in ascending order.
pub open spec fn gone_positions(gone: Seq<bool>) -> Seq<usize>
    decreases gone.len(),
{
    if gone.len() == 0 {
        Seq::empty()
    } else if gone.last() {
        gone_positions(gone.drop_last()).push((gone.len() - 1) as usize)
    } else {
        gone_positions(gone.drop_last())
    }
}

/// The elements of `s`, in order, whose position is not listed in `pos`.
pub open spec fn keep_unlisted<T>(s: Seq<T>, pos: Seq<usize>) -> Seq<T>
    decreases s.len(),
{
    if s.len() == 0 {
        Seq::empty()
    } else {
        let before = keep_unlisted(s.drop_last(), pos);
        if pos.contains((s.len() - 1) as usize) {
            before
        } else {
            before.push(s.last())
        }
    }
}

/// The elements of `s`, in order, whose position is listed in `pos`.
pub open spec fn take_listed<T>(s: Seq<T>, pos: Seq<usize>) -> Seq<T>
    decreases s.len(),
{
    if s.len() == 0 {
        Seq::empty()
    } else {
        let before = take_listed(s.drop_last(), pos);
        if pos.contains((s.len() - 1) as usize) {
            before.push(s.last())
        } else {
            before
        }
    }
}

/// Position `i` is listed as gone exactly when `gone[i]` holds.
proof fn lemma_gone_positions(gone: Seq<bool>, i: usize)
    requires
        gone.len() <= usize::MAX,
    ensures
        gone_positions(gone).contains(i) <==> (i < gone.len() && gone[i as int]),
        forall|k: int| 0 <= k < gone_positions(gone).len() ==> #[trigger] gone_positions(gone)[k] < gone.len(),
    decreases gone.len(),
{
    if gone.len() > 0 {
        let init = gone.drop_last();
        lemma_gone_positions(init, i);
        let before = gone_positions(init);
        let last = (gone.len() - 1) as usize;
        if gone.last() {
            assert(gone_positions(gone) == before.push(last));
            if before.contains(i) {
                let k = choose|k: int| 0 <= k < before.len() && before[k] == i;
                assert(before.push(last)[k] == i);
            }
            if i == last {
                assert(before.push(last)[before.len() as int] == i);
            }
            if before.push(last).contains(i) {
                let k = choose|k: int| 0 <= k < before.push(last).len() && before.push(last)[k] == i;
                if k < before.len() {
                    assert(before[k] == i);
                }
            }
            assert forall|k: int| 0 <= k < before.push(last).len() implies #[trigger] before.push(last)[k] < gone.len() by {
                if k < before.len() {
                    assert(before[k] < init.len());
                }
            }
        }
        if i < init.len() {
            assert(init[i as int] == gone[i as int]);
        }
        if !gone.last() {
            assert(gone_positions(gone) == before);
            if i == last {
                if before.contains(i) {
                    let k = choose|k: int| 0 <= k < before.len() && before[k] == i;
                    assert(before[k] < init.len());
                }
            }
        }
    }
}

/// The positions of the connections that the liveness check reported gone,
/// ascending: a position is listed exactly when its check said gone.
pub fn dead_connections(gone: &Vec<bool>) -> (to_remove: Vec<usize>)
    ensures
        to_remove@ == gone_positions(gone@),
        forall|i: usize| #[trigger] to_remove@.contains(i) <==> (i < gone@.len() && gone@[i as int]),
{
    let mut to_remove: Vec<usize> = Vec::new();
    for i in 0..gone.len()
        invariant
            to_remove@ == gone_positions(gone@.take(i as int)),
    {
        assert(gone@.take(i + 1).drop_last() =~= gone@.take(i as int));
        if gone[i] {
            to_remove.push(i);
        }
    }
    assert(gone@.take(gone.len() as int) =~= gone@);
    proof {
        assert forall|i: usize| #[trigger] to_remove@.contains(i) <==> (i < gone@.len() && gone@[i as int]) by {
            lemma_gone_positions(gone@, i);
        }
    }
    to_remove
}

/// Whether `i` is listed in `pos`.
fn position_listed(pos: &Vec<usize>, i: usize) -> (r: bool)
    ensures
        r == pos@.contains(i),
{
    let mut k: usize = 0;
    while k < pos.len()
        invariant
            k <= pos.len(),
            forall|j: int| 0 <= j < k ==> pos@[j] != i,
        decreases pos.len() - k,
    {
        if pos[k] == i {
            assert(pos@[k as int] == i);
            return true;
        }
        k = k + 1;
    }
    false
}

/// Takes out of `v` the elements at the positions listed in `positions`
/// (counted in `v` as it was), keeping the others in their order, and
/// returns the elements taken out, in their order in `v`. Positions past
/// the end are ignored.
pub fn remove_positions<T>(v: &mut Vec<T>, positions: &Vec<usize>) -> (removed: Vec<T>)
    ensures
        final(v)@ == keep_unlisted(old(v)@, positions@),
        removed@ == take_listed(old(v)@, positions@),
{
    let ghost orig = v@;
    let n = v.len();
    let mut reversed: Vec<T> = Vec::new();
    while v.len() > 0
        invariant
            v@ == orig.take(v@.len() as int),
            n == orig.len(),
            reversed@.len() + v@.len() == n,
            forall|k: int| 0 <= k < reversed@.len() ==> #[trigger] reversed@[k] == orig[n - 1 - k],
        decreases v@.len(),
    {
        let item = v.pop().unwrap();
        reversed.push(item);
        assert(v@ =~= orig.take(v@.len() as int));
    }
    let mut kept: Vec<T> = Vec::new();
    let mut removed: Vec<T> = Vec::new();
    let mut i: usize = 0;
    assert(orig.take(0) =~= Seq::<T>::empty());
    while i < n
        invariant
            n == orig.len(),
            i <= n,
            reversed@.len() == n - i,
            forall|k: int| 0 <= k < reversed@.len() ==> #[trigger] reversed@[k] == orig[n - 1 - k],
            kept@ == keep_unlisted(orig.take(i as int), positions@),
            removed@ == take_listed(orig.take(i as int), positions@),
        decreases n - i,
    {
        assert(reversed@[reversed@.len() - 1] == orig[i as int]);
        let item = reversed.pop().unwrap();
        assert(orig.take(i + 1).drop_last() =~= orig.take(i as int));
        assert(orig.take(i + 1).last() == orig[i as int]);
        if position_listed(positions, i) {
            removed.push(item);
        } else {
            kept.push(item);
        }
        i = i + 1;
    }
    assert(orig.take(n as int) =~= orig);
    *v = kept;
    removed
}

/// Every element is either kept or taken out: the two lists together are as
/// long as the list they came from.
pub proof fn lemma_removal_partitions<T>(s: Seq<T>, pos: Seq<usize>)
    ensures
        keep_unlisted(s, pos).len() + take_listed(s, pos).len() == s.len(),
    decreases s.len(),
{
    if s.len() > 0 {
        lemma_removal_partitions(s.drop_last(), pos);
    }
}

/// With the positions that the liveness check reported gone, exactly the
/// connections whose check said alive are kept, in their order.
pub proof fn lemma_keep_alive<T>(s: Seq<T>, gone: Seq<bool>)
    requires
        s.len() == gone.len(),
        gone.len() <= usize::MAX,
    ensures
        keep_unlisted(s, gone_positions(gone)) == keep_unlisted_by_flag(s, gone),
        take_listed(s, gone_positions(gone)) == take_listed_by_flag(s, gone),
    decreases s.len(),
{
    if s.len() > 0 {
        lemma_keep_alive(s.drop_last(), gone.drop_last());
        let last = (s.len() - 1) as usize;
        lemma_gone_positions(gone, last);
        assert forall|j: usize| j < s.len() - 1 implies (gone_positions(gone).contains(j) <==> gone_positions(gone.drop_last()).contains(j)) by {
            lemma_gone_positions(gone, j);
            lemma_gone_positions(gone.drop_last(), j);
        }
        lemma_unlisted_depends_below(s.drop_last(), gone_positions(gone), gone_positions(gone.drop_last()));
        assert(gone_positions(gone).contains(last) == gone.last());
    }
}

/// Keeping and taking by position only looks at positions below the length.
proof fn lemma_unlisted_depends_below<T>(s: Seq<T>, p: Seq<usize>, q: Seq<usize>)
    requires
        forall|j: usize| j < s.len() ==> (p.contains(j) <==> q.contains(j)),
    ensures
        keep_unlisted(s, p) == keep_unlisted(s, q),
        take_listed(s, p) == take_listed(s, q),
    decreases s.len(),
{
    if s.len() > 0 {
        lemma_unlisted_depends_below(s.drop_last(), p, q);
        assert(p.contains((s.len() - 1) as usize) <==> q.contains((s.len() - 1) as usize));
    }
}

/// The elements of `s`, in order, whose flag in `gone` is false.
pub open spec fn keep_unlisted_by_flag<T>(s: Seq<T>, gone: Seq<bool>) -> Seq<T>
    decreases s.len(),
{
    if s.len() == 0 {
        Seq::empty()
    } else {
        let before = keep_unlisted_by_flag(s.drop_last(), gone.drop_last());
        if gone.last() {
            before
        } else {
            before.push(s.last())
        }
    }
}

/// The elements of `s`, in order, whose flag in `gone` is true.
pub open spec fn take_listed_by_flag<T>(s: Seq<T>, gone: Seq<bool>) -> Seq<T>
    decreases s.len(),
{
    if s.len() == 0 {
        Seq::empty()
    } else {
        let before = take_listed_by_flag(s.drop_last(), gone.drop_last());
        if gone.last() {
            before.push(s.last())
        } else {
            before
        }
    }
}

} // verus!
