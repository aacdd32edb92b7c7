//! Bookkeeping of the output streams that a line is fanned out to.
use vstd::prelude::*;

verus! {

broadcast use vstd::seq_lib::group_to_multiset_ensures;

/// The items of `s` whose flag in `ok` is set, in order.
pub open spec fn kept<T>(s: Seq<T>, ok: Seq<bool>) -> Seq<T>
    decreases s.len(),
{
    if s.len() == 0 {
        Seq::empty()
    } else {
        let rest = kept(s.drop_first(), ok.drop_first());
        if ok[0] {
            seq![s[0]] + rest
        } else {
            rest
        }
    }
}

/// `s` with its item at `i` replaced by its last item, and the last place
/// dropped: what `Vec::swap_remove(i)` leaves.
pub open spec fn swap_removed<T>(s: Seq<T>, i: int) -> Seq<T> {
    s.update(i, s.last()).drop_last()
}

/// What is left of `s` after the failed items among its first `j` places are
/// swap-removed, from the highest index down.
pub open spec fn pruned<T>(s: Seq<T>, ok: Seq<bool>, j: nat) -> Seq<T>
    decreases j,
{
    if j == 0 {
        s
    } else {
        let i = j - 1;
        pruned(
            if ok[i] {
                s
            } else {
                swap_removed(s, i)
            },
            ok,
            i as nat,
        )
    }
}

/// Removes the outputs whose write failed (those whose flag in `succeeded` is
/// clear), from the highest index down, each by moving the last output into
/// its place. The outputs left are exactly those that succeeded; their order
/// may change.
pub fn remove_failed<T>(outputs: &mut Vec<T>, succeeded: &Vec<bool>)
    requires
        old(outputs).len() == succeeded.len(),
    ensures
        final(outputs)@ == pruned(old(outputs)@, succeeded@, succeeded@.len()),
        final(outputs)@.len() == kept(old(outputs)@, succeeded@).len(),
        final(outputs)@.to_multiset() == kept(old(outputs)@, succeeded@).to_multiset(),
{
    let ghost orig = outputs@;
    let ghost ok = succeeded@;
    let mut j: usize = succeeded.len();
    proof {
        assert(orig.skip(j as int) =~= Seq::<T>::empty());
        assert(outputs@.skip(j as int) =~= Seq::<T>::empty());
    }
    while j > 0
        invariant
            0 <= j <= orig.len(),
            ok == succeeded@,
            ok.len() == orig.len(),
            j <= outputs@.len(),
            pruned(outputs@, ok, j as nat) == pruned(orig, ok, ok.len()),
            outputs@.take(j as int) == orig.take(j as int),
            outputs@.skip(j as int).to_multiset() == kept(orig.skip(j as int), ok.skip(j as int)).to_multiset(),
        decreases j,
    {
        let ghost cur = outputs@;
        let ghost q = cur.skip(j as int);
        let idx = j - 1;
        proof {
            assert(orig.skip(idx as int).drop_first() =~= orig.skip(j as int));
            assert(ok.skip(idx as int).drop_first() =~= ok.skip(j as int));
            assert(orig.skip(idx as int)[0] == orig[idx as int]);
            assert(ok.skip(idx as int)[0] == ok[idx as int]);
            assert(cur[idx as int] == cur.take(j as int)[idx as int]);
        }
        if succeeded[idx] {
            proof {
                assert(cur.skip(idx as int) =~= seq![cur[idx as int]] + q);
                vstd::seq_lib::lemma_multiset_commutative(seq![cur[idx as int]], q);
                vstd::seq_lib::lemma_multiset_commutative(
                    seq![orig[idx as int]],
                    kept(orig.skip(j as int), ok.skip(j as int)),
                );
                assert(outputs@.take(idx as int) =~= orig.take(idx as int));
            }
        } else {
            outputs.swap_remove(idx);
            proof {
                let nxt = outputs@;
                assert(nxt.take(idx as int) =~= orig.take(idx as int));
                if idx + 1 == cur.len() {
                    assert(nxt.skip(idx as int) =~= Seq::<T>::empty());
                    assert(q =~= Seq::<T>::empty());
                } else {
                    let mid = cur.subrange(j as int, cur.len() - 1);
                    let lst = seq![cur.last()];
                    assert(nxt.skip(idx as int) =~= lst + mid);
                    assert(q =~= mid + lst);
                    vstd::seq_lib::lemma_multiset_commutative(lst, mid);
                    vstd::seq_lib::lemma_multiset_commutative(mid, lst);
                }
            }
        }
        j = idx;
    }
    proof {
        assert(outputs@.skip(0) =~= outputs@);
        assert(orig.skip(0) =~= orig);
        assert(ok.skip(0) =~= ok);
        assert(outputs@.len() == outputs@.to_multiset().len());
        assert(kept(orig, ok).len() == kept(orig, ok).to_multiset().len());
    }
}

/// Law: the outputs kept are built output by output: nothing is kept of no
/// outputs, and one more output is kept, after the others, exactly when its
/// write succeeded.
pub proof fn lemma_kept_one_more<T>(s: Seq<T>, ok: Seq<bool>, x: T, b: bool)
    requires
        s.len() == ok.len(),
    ensures
        kept(Seq::<T>::empty(), Seq::<bool>::empty()) == Seq::<T>::empty(),
        kept(s.push(x), ok.push(b)) == kept(s, ok) + if b {
            seq![x]
        } else {
            Seq::<T>::empty()
        },
    decreases s.len(),
{
    if s.len() > 0 {
        lemma_kept_one_more(s.drop_first(), ok.drop_first(), x, b);
        assert(s.push(x).drop_first() =~= s.drop_first().push(x));
        assert(ok.push(b).drop_first() =~= ok.drop_first().push(b));
        if ok[0] {
            assert(seq![s[0]] + (kept(s.drop_first(), ok.drop_first()) + if b {
                seq![x]
            } else {
                Seq::<T>::empty()
            }) =~= seq![s[0]] + kept(s.drop_first(), ok.drop_first()) + if b {
                seq![x]
            } else {
                Seq::<T>::empty()
            });
        }
    } else {
        assert(s.push(x) =~= seq![x]);
        assert(seq![x].drop_first() =~= Seq::<T>::empty());
        assert(ok.push(b).drop_first() =~= Seq::<bool>::empty());
        assert(seq![x] + Seq::<T>::empty() =~= seq![x]);
        assert(Seq::<T>::empty() + seq![x] =~= seq![x]);
        assert(Seq::<T>::empty() + Seq::<T>::empty() =~= Seq::<T>::empty());
    }
}

} // verus!
