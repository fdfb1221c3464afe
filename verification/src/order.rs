//! Ordering entries for display: ascending by index, ties kept in input
//! order.

use vstd::prelude::*;

use crate::entry::{models_of, EntryModel, Todo};

verus! {

/// Indices never decrease along `s`.
pub open spec fn sorted_by_index(s: Seq<EntryModel>) -> bool {
    forall|i: int, j: int| 0 <= i < j < s.len() ==> s[i].index <= s[j].index
}

/// `e` placed after every entry of `s` whose index is at or below its own:
/// the stable insertion step.
pub open spec fn insert_sorted(s: Seq<EntryModel>, e: EntryModel) -> Seq<EntryModel>
    decreases s.len(),
{
    if s.len() == 0 {
        seq![e]
    } else if s[0].index <= e.index {
        seq![s[0]] + insert_sorted(s.drop_first(), e)
    } else {
        seq![e] + s
    }
}

/// Stable insertion sort by index: entries sharing an index keep their
/// input order.
pub open spec fn sort_entries(s: Seq<EntryModel>) -> Seq<EntryModel>
    decreases s.len(),
{
    if s.len() == 0 {
        s
    } else {
        insert_sorted(sort_entries(s.drop_last()), s.last())
    }
}

/// Inserting at the first position whose entry outranks `e` is exactly the
/// insertion step.
proof fn lemma_insert_sorted_at(s: Seq<EntryModel>, e: EntryModel, p: int)
    requires
        0 <= p <= s.len(),
        forall|q: int| 0 <= q < p ==> s[q].index <= e.index,
        p < s.len() ==> s[p].index > e.index,
    ensures
        insert_sorted(s, e) == s.insert(p, e),
    decreases s.len(),
{
    if s.len() == 0 {
        assert(s.insert(0, e) =~= seq![e]);
    } else if s[0].index <= e.index {
        assert(p >= 1);
        lemma_insert_sorted_at(s.drop_first(), e, p - 1);
        assert(seq![s[0]] + s.drop_first().insert(p - 1, e) =~= s.insert(p, e));
    } else {
        assert(p == 0);
        assert(seq![e] + s =~= s.insert(0, e));
    }
}

proof fn lemma_insert_sorted_len(s: Seq<EntryModel>, e: EntryModel)
    ensures
        insert_sorted(s, e).len() == s.len() + 1,
    decreases s.len(),
{
    if s.len() > 0 && s[0].index <= e.index {
        lemma_insert_sorted_len(s.drop_first(), e);
    }
}

/// Inserting keeps a sorted run sorted, adds exactly the new entry, and
/// keeps everything else.
proof fn lemma_insert_sorted_sorted(s: Seq<EntryModel>, e: EntryModel)
    requires
        sorted_by_index(s),
    ensures
        sorted_by_index(insert_sorted(s, e)),
        insert_sorted(s, e).to_multiset() == s.to_multiset().insert(e),
    decreases s.len(),
{
    broadcast use vstd::seq_lib::group_to_multiset_ensures;

    if s.len() == 0 {
        assert(seq![e] =~= Seq::<EntryModel>::empty().push(e));
        assert(seq![e].to_multiset() == s.to_multiset().insert(e));
    } else if s[0].index <= e.index {
        assert(sorted_by_index(s.drop_first()));
        lemma_insert_sorted_sorted(s.drop_first(), e);
        lemma_insert_sorted_len(s.drop_first(), e);
        let r = seq![s[0]] + insert_sorted(s.drop_first(), e);
        assert forall|i: int, j: int| 0 <= i < j < r.len() implies r[i].index <= r[j].index by {
            let inner = insert_sorted(s.drop_first(), e);
            if i == 0 {
                // r[j] is either e or an entry of s at or past position 1
                assert(inner.to_multiset().contains(r[j]));
                assert(inner.to_multiset() == s.drop_first().to_multiset().insert(e));
                if r[j] != e {
                    assert(s.drop_first().to_multiset().contains(r[j]));
                    assert(s.drop_first().contains(r[j]));
                    let w = choose|w: int|
                        0 <= w < s.drop_first().len() && s.drop_first()[w] == r[j];
                    assert(s[0].index <= s[w + 1].index);
                }
            }
        }
        assert(r =~= s.take(1) + insert_sorted(s.drop_first(), e));
        assert(s.take(1).push(s[0]) =~= seq![s[0]] + seq![s[0]]);
        // multiset: (seq![s[0]] + x).to_multiset() == x.to_multiset().insert(s[0])
        lemma_prepend_multiset(s[0], insert_sorted(s.drop_first(), e));
        lemma_prepend_multiset(s[0], s.drop_first());
        assert(seq![s[0]] + s.drop_first() =~= s);
    } else {
        lemma_prepend_multiset(e, s);
    }
}

/// Putting one entry in front adds it to the run's multiset.
proof fn lemma_prepend_multiset(e: EntryModel, s: Seq<EntryModel>)
    ensures
        (seq![e] + s).to_multiset() == s.to_multiset().insert(e),
    decreases s.len(),
{
    broadcast use vstd::seq_lib::group_to_multiset_ensures;

    if s.len() == 0 {
        assert(seq![e] + s =~= Seq::<EntryModel>::empty().push(e));
    } else {
        lemma_prepend_multiset(e, s.drop_last());
        assert((seq![e] + s.drop_last()).push(s.last()) =~= seq![e] + s);
        assert((seq![e] + s.drop_last()).to_multiset().insert(s.last())
            == s.to_multiset().insert(e)) by {
            assert(s.drop_last().push(s.last()) =~= s);
            assert(s.drop_last().to_multiset().insert(s.last()) == s.to_multiset());
            broadcast use vstd::multiset::group_multiset_axioms;

            assert(s.drop_last().to_multiset().insert(e).insert(s.last())
                =~= s.drop_last().to_multiset().insert(s.last()).insert(e));
        }
    }
}

/// The sorted view of any run of entries is sorted by index and holds
/// exactly the same entries, duplicates included.
pub proof fn lemma_sort_entries_permutes(s: Seq<EntryModel>)
    ensures
        sorted_by_index(sort_entries(s)),
        sort_entries(s).to_multiset() == s.to_multiset(),
        sort_entries(s).len() == s.len(),
    decreases s.len(),
{
    broadcast use vstd::seq_lib::group_to_multiset_ensures;

    if s.len() > 0 {
        lemma_sort_entries_permutes(s.drop_last());
        lemma_insert_sorted_sorted(sort_entries(s.drop_last()), s.last());
        lemma_insert_sorted_len(sort_entries(s.drop_last()), s.last());
        assert(s.drop_last().push(s.last()) =~= s);
        assert(s.drop_last().to_multiset().insert(s.last()) == s.to_multiset());
    }
}

/// Sorts entries by index, ascending; entries sharing an index stay in
/// their input order, exactly as [`sort_entries`] says.
pub fn sort_todos(todos: Vec<Todo>) -> (r: Vec<Todo>)
    ensures
        models_of(r@) == sort_entries(models_of(todos@)),
        sorted_by_index(models_of(r@)),
        r@.len() == todos@.len(),
{
    let ghost orig = todos@;
    let mut input = todos;
    let mut out: Vec<Todo> = Vec::new();
    proof {
        assert(input@ =~= orig.subrange(orig.len() - input@.len(), orig.len() as int));
        assert(models_of(orig.take(orig.len() - input@.len())) =~= Seq::<EntryModel>::empty());
        assert(models_of(out@) =~= Seq::<EntryModel>::empty());
    }
    while input.len() > 0
        invariant
            input@.len() <= orig.len(),
            input@ == orig.subrange(orig.len() - input@.len(), orig.len() as int),
            models_of(out@) == sort_entries(models_of(orig.take(orig.len() - input@.len()))),
            sorted_by_index(models_of(out@)),
        decreases input@.len(),
    {
        let ghost pc: int = orig.len() - input@.len();
        let ghost input_before = input@;
        let t = input.remove(0);
        proof {
            assert(t == orig[pc]);
            assert(input_before.remove(0) =~= orig.subrange(pc + 1, orig.len() as int));
        }
        let mut p: usize = 0;
        loop
            invariant
                0 <= p <= out@.len(),
                forall|q: int| 0 <= q < p ==> models_of(out@)[q].index <= t@.index,
            ensures
                0 <= p <= out@.len(),
                forall|q: int| 0 <= q < p ==> models_of(out@)[q].index <= t@.index,
                p < out@.len() ==> models_of(out@)[p as int].index > t@.index,
            decreases out@.len() - p,
        {
            if p >= out.len() {
                break ;
            }
            if out[p].index > t.index {
                break ;
            }
            p += 1;
        }
        let ghost out_before = out@;
        out.insert(p, t);
        proof {
            lemma_insert_sorted_at(models_of(out_before), t@, p as int);
            models_of(out_before).insert_ensures(p as int, t@);
            assert(models_of(out@) =~= models_of(out_before).insert(p as int, t@));
            let done = orig.take(pc + 1);
            assert(done.drop_last() =~= orig.take(pc));
            assert(models_of(done).drop_last() =~= models_of(done.drop_last()));
            assert(models_of(done).last() == t@);
            assert(models_of(done).len() > 0);
            assert(sort_entries(models_of(done)) == insert_sorted(
                sort_entries(models_of(done).drop_last()),
                models_of(done).last(),
            ));
            lemma_insert_sorted_sorted(sort_entries(models_of(orig.take(pc))), t@);
            lemma_sort_entries_permutes(models_of(orig.take(pc)));
        }
    }
    proof {
        assert(orig.take(orig.len() as int) =~= orig);
        lemma_sort_entries_permutes(models_of(orig));
        assert(models_of(out@).len() == out@.len());
        assert(models_of(orig).len() == orig.len());
    }
    out
}

} // verus!
