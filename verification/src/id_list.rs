use vstd::prelude::*;
use crate::base_types::Id;

verus! {

/// `s` with `x` appended, unless `x` already occurs in it.
pub open spec fn with_id(s: Seq<Id>, x: Id) -> Seq<Id> {
    if s.contains(x) {
        s
    } else {
        s.push(x)
    }
}

/// Whether `x` occurs in `v`.
pub fn contains_id(v: &Vec<Id>, x: Id) -> (r: bool)
    ensures
        r == v@.contains(x),
{
    let mut i: usize = 0;
    while i < v.len()
        invariant
            i <= v@.len(),
            forall|k: int| 0 <= k < i ==> v@[k] != x,
        decreases v@.len() - i,
    {
        if v[i] == x {
            return true;
        }
        i = i + 1;
    }
    false
}

/// Appends `x` to `v` unless it already occurs there.
pub fn push_unique(v: &mut Vec<Id>, x: Id)
    ensures
        final(v)@ == with_id(old(v)@, x),
{
    if !contains_id(v, x) {
        v.push(x);
    }
}

/// The index of the first occurrence of `x` in `s` at or after `i`, or -1.
pub open spec fn index_from(s: Seq<Id>, x: Id, i: int) -> int
    decreases s.len() - i,
{
    if i < 0 || i >= s.len() {
        -1
    } else if s[i] == x {
        i
    } else {
        index_from(s, x, i + 1)
    }
}

/// The index of the first occurrence of `x` in `s`, or -1.
pub open spec fn first_index(s: Seq<Id>, x: Id) -> int {
    index_from(s, x, 0)
}

/// What `index_from` finds: an occurrence with none before it, or nothing.
pub proof fn lemma_index_from(s: Seq<Id>, x: Id, i: int)
    requires
        0 <= i <= s.len(),
    ensures
        index_from(s, x, i) == -1 <==> forall|k: int| i <= k < s.len() ==> s[k] != x,
        index_from(s, x, i) != -1 ==> {
            &&& i <= index_from(s, x, i) < s.len()
            &&& s[index_from(s, x, i)] == x
            &&& forall|k: int| i <= k < index_from(s, x, i) ==> s[k] != x
        },
    decreases s.len() - i,
{
    if i < s.len() {
        lemma_index_from(s, x, i + 1);
    }
}

/// The index of the first occurrence of `x` in `v`, if any.
pub fn position_of(v: &Vec<Id>, x: Id) -> (r: Option<usize>)
    ensures
        match r {
            Some(i) => i as int == first_index(v@, x),
            None => first_index(v@, x) == -1,
        },
        r is None <==> !v@.contains(x),
{
    proof {
        lemma_index_from(v@, x, 0);
    }
    let mut i: usize = 0;
    while i < v.len()
        invariant
            i <= v@.len(),
            forall|k: int| 0 <= k < i ==> v@[k] != x,
            index_from(v@, x, 0) == index_from(v@, x, i as int),
        decreases v@.len() - i,
    {
        if v[i] == x {
            return Some(i);
        }
        i = i + 1;
    }
    proof {
        assert(!v@.contains(x));
    }
    None
}

/// `with_id` never introduces a repeated id.
pub proof fn lemma_with_id_no_duplicates(s: Seq<Id>, x: Id)
    requires
        s.no_duplicates(),
    ensures
        with_id(s, x).no_duplicates(),
        with_id(s, x).contains(x),
        forall|y: Id| s.contains(y) ==> with_id(s, x).contains(y),
{
    if !s.contains(x) {
        let t = s.push(x);
        assert forall|y: Id| s.contains(y) implies t.contains(y) by {
            let k = choose|k: int| 0 <= k < s.len() && s[k] == y;
            assert(t[k] == y);
        }
        assert(t[t.len() - 1] == x);
    }
}

/// `s` with each id after its first occurrence dropped: what appending the
/// ids of `s` in order with [`push_unique`] leaves.
pub open spec fn dedup(s: Seq<Id>) -> Seq<Id>
    decreases s.len(),
{
    if s.len() == 0 {
        s
    } else {
        with_id(dedup(s.drop_last()), s.last())
    }
}

/// Among sources `0..n`, stored under the ids of a run of inserts into a
/// fresh arena (index `j`, generation 0), those whose list names `t`, in
/// order.
pub open spec fn sources_linking(lists: Seq<Seq<Id>>, t: Id, n: int) -> Seq<Id>
    decreases n,
{
    if n <= 0 {
        Seq::empty()
    } else if lists[n - 1].contains(t) {
        sources_linking(lists, t, n - 1).push(Id { index: (n - 1) as u32, generation: 0 })
    } else {
        sources_linking(lists, t, n - 1)
    }
}

/// `lists` with the list of source `j` cut to its first `i` ids: the
/// sources' lists when source `j` has been linked to its first `i` targets.
pub open spec fn lists_upto(lists: Seq<Seq<Id>>, j: int, i: int) -> Seq<Seq<Id>> {
    lists.update(j, lists[j].take(i))
}

pub proof fn lemma_dedup_step(s: Seq<Id>, i: int)
    requires
        0 <= i < s.len(),
    ensures
        dedup(s.take(i + 1)) == with_id(dedup(s.take(i)), s[i]),
{
    assert(s.take(i + 1).drop_last() =~= s.take(i));
}

pub proof fn lemma_dedup_contains(s: Seq<Id>, x: Id)
    ensures
        dedup(s).contains(x) <==> s.contains(x),
    decreases s.len(),
{
    if s.len() > 0 {
        lemma_dedup_contains(s.drop_last(), x);
        let d = dedup(s.drop_last());
        if !d.contains(s.last()) {
            assert(d.push(s.last())[d.len() as int] == s.last());
            if d.contains(x) {
                let k = choose|k: int| 0 <= k < d.len() && d[k] == x;
                assert(d.push(s.last())[k] == x);
            }
            if d.push(s.last()).contains(x) && x != s.last() {
                let k = choose|k: int| 0 <= k < d.len() + 1 && d.push(s.last())[k] == x;
                assert(d[k] == x);
            }
        }
        if s.contains(x) {
            let k = choose|k: int| 0 <= k < s.len() && s[k] == x;
            if k < s.len() - 1 {
                assert(s.drop_last()[k] == x);
            }
        }
        if s.drop_last().contains(x) {
            let k = choose|k: int| 0 <= k < s.len() - 1 && s.drop_last()[k] == x;
            assert(s[k] == x);
        }
        if s.last() == x {
            assert(s[s.len() - 1] == x);
        }
    }
}

pub proof fn lemma_dedup_no_duplicates(s: Seq<Id>)
    ensures
        dedup(s).no_duplicates(),
    decreases s.len(),
{
    if s.len() > 0 {
        lemma_dedup_no_duplicates(s.drop_last());
        lemma_with_id_no_duplicates(dedup(s.drop_last()), s.last());
    }
}

/// Only the lists of sources below `n` matter.
pub proof fn lemma_sources_linking_frame(a: Seq<Seq<Id>>, b: Seq<Seq<Id>>, t: Id, n: int)
    requires
        forall|k: int| 0 <= k < n ==> a[k] == b[k],
    ensures
        sources_linking(a, t, n) == sources_linking(b, t, n),
    decreases n,
{
    if n > 0 {
        lemma_sources_linking_frame(a, b, t, n - 1);
    }
}

/// The linking sources below `n` have indices below `n` and generation 0.
pub proof fn lemma_sources_linking_below(lists: Seq<Seq<Id>>, t: Id, n: int)
    requires
        n <= u32::MAX,
    ensures
        forall|k: int|
            0 <= k < sources_linking(lists, t, n).len() ==> (#[trigger] sources_linking(lists, t, n)[k]).index
                < n && sources_linking(lists, t, n)[k].generation == 0,
        sources_linking(lists, t, n).no_duplicates(),
    decreases n,
{
    if n > 0 {
        lemma_sources_linking_below(lists, t, n - 1);
        let prev = sources_linking(lists, t, n - 1);
        let cur = sources_linking(lists, t, n);
        assert forall|k: int| 0 <= k < cur.len() implies (#[trigger] cur[k]).index < n && cur[k].generation == 0 by {
            if k < prev.len() {
                assert(cur[k] == prev[k]);
            }
        }
    }
}

/// Linking source `j` to the target at position `i` of its list: the
/// target's list of sources gains `j` (once), the others are unchanged.
pub proof fn lemma_sources_linking_step(lists: Seq<Seq<Id>>, t: Id, j: int, i: int)
    requires
        0 <= j < lists.len(),
        0 <= i < lists[j].len(),
        j < u32::MAX,
    ensures
        sources_linking(lists_upto(lists, j, i + 1), t, j + 1) == (if lists[j][i] == t {
            with_id(sources_linking(lists_upto(lists, j, i), t, j + 1), Id { index: j as u32, generation: 0 })
        } else {
            sources_linking(lists_upto(lists, j, i), t, j + 1)
        }),
{
    let a = lists_upto(lists, j, i + 1);
    let b = lists_upto(lists, j, i);
    let base = sources_linking(lists, t, j);
    lemma_sources_linking_frame(a, lists, t, j);
    lemma_sources_linking_frame(b, lists, t, j);
    lemma_sources_linking_below(lists, t, j);
    let id = Id { index: j as u32, generation: 0 };
    assert(a[j] == lists[j].take(i + 1));
    assert(b[j] == lists[j].take(i));
    if b[j].contains(t) {
        let k = choose|k: int| 0 <= k < b[j].len() && b[j][k] == t;
        assert(a[j][k] == t);
        assert(base.push(id)[base.len() as int] == id);
    } else {
        if lists[j][i] == t {
            assert(a[j][i] == t);
            assert(!base.contains(id));
        } else {
            if a[j].contains(t) {
                let k = choose|k: int| 0 <= k < a[j].len() && a[j][k] == t;
                assert(b[j][k] == t);
            }
        }
    }
}

/// Before source `j` is linked to anything, its cut list is empty.
pub proof fn lemma_sources_linking_start(lists: Seq<Seq<Id>>, t: Id, j: int)
    requires
        0 <= j < lists.len(),
    ensures
        sources_linking(lists_upto(lists, j, 0), t, j + 1) == sources_linking(lists, t, j),
{
    let b = lists_upto(lists, j, 0);
    lemma_sources_linking_frame(b, lists, t, j);
    assert(b[j] =~= Seq::<Id>::empty());
}

/// Once source `j` is linked to all its targets, the cut lists are the lists.
pub proof fn lemma_lists_upto_done(lists: Seq<Seq<Id>>, j: int)
    requires
        0 <= j < lists.len(),
    ensures
        lists_upto(lists, j, lists[j].len() as int) == lists,
{
    let a = lists_upto(lists, j, lists[j].len() as int);
    assert(lists[j].take(lists[j].len() as int) =~= lists[j]);
    assert(a =~= lists);
}

/// Source `j` is among the sources linking `t` exactly when its list names `t`.
pub proof fn lemma_sources_linking_contains(lists: Seq<Seq<Id>>, t: Id, n: int, j: int)
    requires
        0 <= j < n <= u32::MAX,
    ensures
        sources_linking(lists, t, n).contains(Id { index: j as u32, generation: 0 }) <==> lists[j].contains(t),
    decreases n,
{
    let id = Id { index: j as u32, generation: 0 };
    let prev = sources_linking(lists, t, n - 1);
    lemma_sources_linking_below(lists, t, n - 1);
    if j < n - 1 {
        lemma_sources_linking_contains(lists, t, n - 1, j);
        if lists[n - 1].contains(t) {
            let cur = prev.push(Id { index: (n - 1) as u32, generation: 0 });
            if prev.contains(id) {
                let k = choose|k: int| 0 <= k < prev.len() && prev[k] == id;
                assert(cur[k] == id);
            }
            if cur.contains(id) {
                let k = choose|k: int| 0 <= k < cur.len() && cur[k] == id;
                if k < prev.len() {
                    assert(prev[k] == id);
                }
            }
        }
    } else {
        if lists[n - 1].contains(t) {
            let cur = prev.push(id);
            assert(cur[prev.len() as int] == id);
        } else {
            if prev.contains(id) {
                let k = choose|k: int| 0 <= k < prev.len() && prev[k] == id;
                assert(prev[k].index < n - 1);
            }
        }
    }
}

} // verus!
