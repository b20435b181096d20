//! Facts about sequences that several modules use.

use vstd::prelude::*;

verus! {

/// Taking one more item is pushing that item onto what was taken.
pub proof fn lemma_take_push<T>(s: Seq<T>, i: int)
    requires
        0 <= i < s.len(),
    ensures
        s.take(i + 1) == s.take(i).push(s[i]),
{
    assert(s.take(i + 1) =~= s.take(i).push(s[i]));
}

/// The items of a filtered sequence are the items of the sequence that pass.
pub proof fn lemma_filter_member<T>(s: Seq<T>, pred: spec_fn(T) -> bool, x: T)
    ensures
        s.filter(pred).contains(x) <==> s.contains(x) && pred(x),
{
    if s.filter(pred).contains(x) {
        s.lemma_filter_contains_rev(pred, x);
        let i = choose|i: int| 0 <= i < s.filter(pred).len() && s.filter(pred)[i] == x;
        s.lemma_filter_pred(pred, i);
    }
    if s.contains(x) && pred(x) {
        let i = choose|i: int| 0 <= i < s.len() && s[i] == x;
        s.lemma_filter_contains(pred, i);
    }
}

/// Filtering a sequence without duplicates leaves no duplicates.
pub proof fn lemma_filter_no_duplicates<T>(s: Seq<T>, pred: spec_fn(T) -> bool)
    requires
        s.no_duplicates(),
    ensures
        s.filter(pred).no_duplicates(),
    decreases s.len(),
{
    reveal(Seq::filter);
    if s.len() > 0 {
        let init = s.drop_last();
        lemma_filter_no_duplicates(init, pred);
        let rest = init.filter(pred);
        if pred(s.last()) {
            assert forall|k: int| 0 <= k < rest.len() implies rest[k] != s.last() by {
                if rest[k] == s.last() {
                    assert(rest.contains(s.last()));
                    init.lemma_filter_contains_rev(pred, s.last());
                    let j = choose|j: int| 0 <= j < init.len() && init[j] == s.last();
                    assert(s[j] == s[s.len() - 1]);
                }
            }
        }
    }
}


/// Skipping one item less adds that item to the set of those kept.
pub proof fn lemma_skip_prev_set<T>(s: Seq<T>, i: int)
    requires
        0 < i <= s.len(),
    ensures
        s.skip(i - 1).to_set() == s.skip(i).to_set().insert(s[i - 1]),
{
    let a = s.skip(i - 1);
    let b = s.skip(i);
    assert forall|x: T| a.contains(x) <==> (x == s[i - 1] || b.contains(x)) by {
        if a.contains(x) {
            let k = choose|k: int| 0 <= k < a.len() && a[k] == x;
            if k > 0 {
                assert(b[k - 1] == x);
            }
        }
        if x == s[i - 1] {
            assert(a[0] == x);
        } else if b.contains(x) {
            let k = choose|k: int| 0 <= k < b.len() && b[k] == x;
            assert(a[k + 1] == x);
        }
    }
    assert(a.to_set() =~= b.to_set().insert(s[i - 1]));
}


/// Whether `x` is an item of one of the sequences.
pub open spec fn in_some<T>(pieces: Seq<Seq<T>>, x: T) -> bool {
    exists|i: int| 0 <= i < pieces.len() && (#[trigger] pieces[i]).contains(x)
}

/// The items of a flattened sequence are the items of its pieces.
pub proof fn lemma_flatten_members<T>(pieces: Seq<Seq<T>>, x: T)
    ensures
        pieces.flatten().contains(x) <==> in_some(pieces, x),
    decreases pieces.len(),
{
    if pieces.len() > 0 {
        let first = pieces.first();
        let rest = pieces.drop_first();
        let flat = pieces.flatten();
        lemma_flatten_members(rest, x);
        assert(flat == first + rest.flatten());
        if flat.contains(x) {
            let k = choose|k: int| 0 <= k < flat.len() && flat[k] == x;
            if k < first.len() {
                assert(first[k] == x);
                assert(pieces[0].contains(x));
            } else {
                assert(rest.flatten()[k - first.len()] == x);
                assert(rest.flatten().contains(x));
                let i = choose|i: int| 0 <= i < rest.len() && (#[trigger] rest[i]).contains(x);
                assert(pieces[i + 1].contains(x));
            }
        }
        if in_some(pieces, x) {
            let i = choose|i: int| 0 <= i < pieces.len() && (#[trigger] pieces[i]).contains(x);
            if i == 0 {
                let k = choose|k: int| 0 <= k < first.len() && first[k] == x;
                assert(flat[k] == x);
            } else {
                assert(rest[i - 1].contains(x));
                assert(rest.flatten().contains(x));
                let k = choose|k: int| 0 <= k < rest.flatten().len() && rest.flatten()[k] == x;
                assert(flat[first.len() + k] == x);
            }
        }
    }
}

} // verus!
