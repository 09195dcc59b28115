use vstd::prelude::*;
use vstd::std_specs::cmp::PartialEqSpec;

verus! {

/// The sequence of elements after appending `x` at the tail of `s`.
pub open spec fn appended<T>(s: Seq<T>, x: T) -> Seq<T> {
    s.push(x)
}

/// The sequence of elements after removing the tail element of `s`;
/// an empty sequence stays empty.
pub open spec fn removed_last<T>(s: Seq<T>) -> Seq<T> {
    if s.len() == 0 {
        s
    } else {
        s.drop_last()
    }
}

/// Whether some element of `s` compares equal to `x` under `T`'s `==`.
pub open spec fn holds_equal<T: PartialEq>(s: Seq<T>, x: T) -> bool {
    exists|i: int| 0 <= i < s.len() && #[trigger] s[i].eq_spec(&x)
}

/// One call on a list: `append(x)` or `remove_last()`.
pub enum ListOp<T> {
    Append(T),
    RemoveLast,
}

/// The value an `append` call adds; `None` for a removal.
pub open spec fn appended_value<T>(op: ListOp<T>) -> Option<T> {
    match op {
        ListOp::Append(x) => Some(x),
        ListOp::RemoveLast => None,
    }
}

/// The elements of a list that starts empty and undergoes `ops` in order.
pub open spec fn replay<T>(ops: Seq<ListOp<T>>) -> Seq<T>
    decreases ops.len(),
{
    if ops.len() == 0 {
        Seq::empty()
    } else {
        let before = replay(ops.drop_last());
        match ops.last() {
            ListOp::Append(x) => appended(before, x),
            ListOp::RemoveLast => removed_last(before),
        }
    }
}

/// How many elements a list that starts empty holds after `ops`, counted
/// without looking at the values.
pub open spec fn count_after<T>(ops: Seq<ListOp<T>>) -> nat
    decreases ops.len(),
{
    if ops.len() == 0 {
        0
    } else {
        let c = count_after(ops.drop_last());
        match ops.last() {
            ListOp::Append(_) => c + 1,
            ListOp::RemoveLast => if c == 0 {
                0
            } else {
                (c - 1) as nat
            },
        }
    }
}

/// Whether `ops[i]` is an `append` whose element has not been removed by a
/// later `remove_last`: after it, the list never shrinks back to the length
/// it had before that append.
pub open spec fn still_present<T>(ops: Seq<ListOp<T>>, i: int) -> bool {
    &&& 0 <= i < ops.len()
    &&& ops[i] is Append
    &&& forall|j: int|
        i < j <= ops.len() ==> #[trigger] count_after(ops.take(j)) > count_after(ops.take(i))
}

/// Whether position `k` of the list holds an element added by a
/// still-present `append` that was made when the list had length `k`.
spec fn position_filled<T>(ops: Seq<ListOp<T>>, k: int) -> bool {
    exists|i: int| #[trigger] still_present(ops, i) && count_after(ops.take(i)) == k
}

/// Where each element of `replay(ops)` comes from: the length matches the
/// count, the element appended by a still-present call stands at the
/// position it was appended at, and each position holds such an element.
proof fn lemma_replay_positions<T>(ops: Seq<ListOp<T>>)
    ensures
        replay(ops).len() == count_after(ops),
        forall|i: int|
            #[trigger] still_present(ops, i) ==> {
                &&& count_after(ops.take(i)) < count_after(ops)
                &&& Some(replay(ops)[count_after(ops.take(i)) as int]) == appended_value(ops[i])
            },
        forall|k: int| 0 <= k < count_after(ops) ==> #[trigger] position_filled(ops, k),
    decreases ops.len(),
{
    if ops.len() == 0 {
        return;
    }
    let pre = ops.drop_last();
    let len = pre.len() as int;
    lemma_replay_positions(pre);
    let n = count_after(pre);
    let n2 = count_after(ops);
    assert(ops.take(len) =~= pre);
    assert(ops.take(len + 1) =~= ops);
    assert forall|j: int| 0 <= j <= len implies #[trigger] ops.take(j) == pre.take(j) by {
        assert(ops.take(j) =~= pre.take(j));
    }
    // a call before the last survives `ops` when it survives `pre` and the
    // last call leaves the list longer than it was before that call
    assert forall|i: int| 0 <= i < len implies #[trigger] still_present(ops, i) == (
    still_present(pre, i) && n2 > count_after(pre.take(i))) by {
        assert(ops[i] == pre[i]);
        if still_present(ops, i) {
            assert forall|j: int| i < j <= pre.len() implies #[trigger] count_after(pre.take(j))
                > count_after(pre.take(i)) by {
                assert(ops.take(j) == pre.take(j));
            }
            assert(ops.take(len + 1) == ops);
        }
        if still_present(pre, i) && n2 > count_after(pre.take(i)) {
            assert forall|j: int| i < j <= ops.len() implies #[trigger] count_after(ops.take(j))
                > count_after(ops.take(i)) by {
                if j <= len {
                    assert(ops.take(j) == pre.take(j));
                }
            }
        }
    }
    assert(ops.last() == ops[len]);
    match ops.last() {
        ListOp::Append(y) => {
            assert(n2 == n + 1);
            assert(still_present(ops, len));
            assert forall|i: int| #[trigger] still_present(ops, i) implies {
                &&& count_after(ops.take(i)) < n2
                &&& Some(replay(ops)[count_after(ops.take(i)) as int]) == appended_value(ops[i])
            } by {
                if i < len {
                    assert(still_present(pre, i));
                    assert(ops[i] == pre[i]);
                }
            }
            assert forall|k: int| 0 <= k < n2 implies #[trigger] position_filled(ops, k) by {
                if k < n {
                    assert(position_filled(pre, k));
                    let i = choose|i: int| #[trigger]
                        still_present(pre, i) && count_after(pre.take(i)) == k;
                    assert(still_present(ops, i));
                } else {
                    assert(still_present(ops, len));
                }
            }
        },
        ListOp::RemoveLast => {
            assert(!still_present(ops, len));
            assert forall|i: int| #[trigger] still_present(ops, i) implies {
                &&& count_after(ops.take(i)) < n2
                &&& Some(replay(ops)[count_after(ops.take(i)) as int]) == appended_value(ops[i])
            } by {
                assert(still_present(pre, i));
                assert(ops[i] == pre[i]);
            }
            assert forall|k: int| 0 <= k < n2 implies #[trigger] position_filled(ops, k) by {
                assert(position_filled(pre, k));
                let i = choose|i: int| #[trigger]
                    still_present(pre, i) && count_after(pre.take(i)) == k;
                assert(still_present(ops, i));
            }
        },
    }
}

/// After any sequence of calls on a list that starts empty, some element
/// equals `x` exactly when some `append` call added a value equal to `x`
/// and no later `remove_last` took that element away.
pub proof fn lemma_find_after_calls<T: PartialEq>(ops: Seq<ListOp<T>>, x: T)
    ensures
        holds_equal(replay(ops), x) <==> exists|i: int|
            #[trigger] still_present(ops, i) && appended_value(ops[i]).unwrap().eq_spec(&x),
{
    lemma_replay_positions(ops);
    let s = replay(ops);
    if holds_equal(s, x) {
        let k = choose|k: int| 0 <= k < s.len() && #[trigger] s[k].eq_spec(&x);
        assert(position_filled(ops, k));
        let i = choose|i: int| #[trigger] still_present(ops, i) && count_after(ops.take(i)) == k;
        assert(still_present(ops, i) && appended_value(ops[i]).unwrap().eq_spec(&x));
    }
    if exists|i: int|
        #[trigger] still_present(ops, i) && appended_value(ops[i]).unwrap().eq_spec(&x) {
        let i = choose|i: int|
            #[trigger] still_present(ops, i) && appended_value(ops[i]).unwrap().eq_spec(&x);
        let k = count_after(ops.take(i)) as int;
        assert(s[k].eq_spec(&x));
    }
}

/// Appending `x` and then removing the last element gives back the elements
/// as they were before the append.
pub proof fn lemma_append_then_remove_last<T>(s: Seq<T>, x: T)
    ensures
        removed_last(appended(s, x)) == s,
{
    assert(s.push(x).drop_last() =~= s);
}

/// Removing the last element of an empty list leaves it empty.
pub proof fn lemma_remove_last_on_empty<T>()
    ensures
        removed_last(Seq::<T>::empty()) == Seq::<T>::empty(),
{
}

/// The elements after appending each of `xs` in order to `s`.
pub open spec fn appended_all<T>(s: Seq<T>, xs: Seq<T>) -> Seq<T>
    decreases xs.len(),
{
    if xs.len() == 0 {
        s
    } else {
        appended(appended_all(s, xs.drop_last()), xs.last())
    }
}

/// The elements after removing the last element `n` times.
pub open spec fn removed_last_times<T>(s: Seq<T>, n: nat) -> Seq<T>
    decreases n,
{
    if n == 0 {
        s
    } else {
        removed_last_times(removed_last(s), (n - 1) as nat)
    }
}

/// Appending `n` elements to a list and then removing the last element `n`
/// times gives back the list as it was; from an empty list, an empty list.
pub proof fn lemma_remove_as_many_as_appended<T>(s: Seq<T>, xs: Seq<T>)
    ensures
        removed_last_times(appended_all(s, xs), xs.len()) == s,
        s.len() == 0 ==> removed_last_times(appended_all(s, xs), xs.len()).len() == 0,
    decreases xs.len(),
{
    if xs.len() > 0 {
        let before = appended_all(s, xs.drop_last());
        lemma_append_then_remove_last(before, xs.last());
        lemma_remove_as_many_as_appended(s, xs.drop_last());
    }
}

} // verus!
