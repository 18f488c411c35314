//! Properties of the replacement engine and of the group parser, stated over
//! the spec functions that the executable functions' contracts use.

use crate::cmd::{first_malformed, has_named, has_positional, parse_outcome, Outcome};
use crate::replace::{
    insert_by_start, matched_groups, replaced, resolved, selected, sorted_by_start, splice_prefix,
    spliced, within, Span,
};
use crate::types::{superset, GroupModel};
use vstd::multiset::Multiset;
use vstd::prelude::*;

verus! {

/// Each group ends no later than the next one starts.
pub open spec fn ordered_disjoint(ms: Seq<GroupModel>) -> bool {
    forall|k: int| 0 < k < ms.len() ==> ms[k - 1].end <= #[trigger] ms[k].start
}

/// How much longer the output gets by replacing the groups `ms`.
pub open spec fn length_delta(ms: Seq<GroupModel>) -> int
    decreases ms.len(),
{
    if ms.len() == 0 {
        0
    } else {
        length_delta(ms.drop_last()) + ms.last().replace.len() - (ms.last().end
            - ms.last().start)
    }
}

/// Each group's replacement is the very bytes it spans in `whole`.
pub open spec fn replaces_with_itself(whole: Seq<u8>, base: int, ms: Seq<GroupModel>) -> bool {
    forall|k: int|
        0 <= k < ms.len() ==> (#[trigger] ms[k]).replace == whole.subrange(
            ms[k].start - base,
            ms[k].end - base,
        )
}

/// Two groups either nest, the outer one declared first, or lie apart with
/// distinct starts.
pub open spec fn well_nested(a: GroupModel, b: GroupModel) -> bool {
    ||| superset(a, b)
    ||| superset(b, a)
    ||| (a.start < b.start && a.end <= b.start)
    ||| (b.start < a.start && b.end <= a.start)
}

/// Any two groups at distinct positions of `s` are well nested.
pub open spec fn pairwise_nested(s: Seq<GroupModel>) -> bool {
    forall|j: int, k: int|
        0 <= j < s.len() && 0 <= k < s.len() && j != k ==> well_nested(
            #[trigger] s[j],
            #[trigger] s[k],
        )
}

pub open spec fn starts_sorted(s: Seq<GroupModel>) -> bool {
    forall|j: int, k: int| 0 <= j < k < s.len() ==> #[trigger] s[j].start <= #[trigger] s[k].start
}

pub open spec fn starts_increasing(s: Seq<GroupModel>) -> bool {
    forall|j: int, k: int| 0 <= j < k < s.len() ==> #[trigger] s[j].start < #[trigger] s[k].start
}

/// With no group to replace, the splicer gives back the matched bytes.
pub proof fn law_splice_without_groups(whole: Seq<u8>, base: int)
    ensures
        spliced(whole, base, Seq::empty()) == whole,
{
    assert(whole.subrange(0, whole.len() as int) =~= whole);
}

proof fn lemma_splice_prefix_ordered(whole: Seq<u8>, base: int, ms: Seq<GroupModel>)
    requires
        within(ms, base, base + whole.len()),
        ordered_disjoint(ms),
    ensures
        splice_prefix(whole, base, ms).1 == if ms.len() == 0 {
            0
        } else {
            ms.last().end - base
        },
        splice_prefix(whole, base, ms).0.len() == splice_prefix(whole, base, ms).1 + length_delta(
            ms,
        ),
        replaces_with_itself(whole, base, ms) ==> splice_prefix(whole, base, ms).0 == whole.subrange(
            0,
            splice_prefix(whole, base, ms).1,
        ),
    decreases ms.len(),
{
    if ms.len() > 0 {
        let t = ms.drop_last();
        assert forall|k: int| 0 <= k < t.len() implies base <= #[trigger] t[k].start <= t[k].end
            <= base + whole.len() by {
            assert(t[k] == ms[k]);
        }
        assert forall|k: int| 0 < k < t.len() implies t[k - 1].end <= #[trigger] t[k].start by {
            assert(t[k] == ms[k] && t[k - 1] == ms[k - 1]);
        }
        lemma_splice_prefix_ordered(whole, base, t);
        let m = ms.last();
        assert(m == ms[ms.len() - 1]);
        assert(base <= ms[ms.len() - 1].start <= ms[ms.len() - 1].end <= base + whole.len());
        if t.len() > 0 {
            assert(t.last() == ms[ms.len() - 2]);
            assert(ms[ms.len() - 2].end <= ms[ms.len() - 1].start);
        }
        let prev = splice_prefix(whole, base, t);
        if replaces_with_itself(whole, base, ms) {
            assert(replaces_with_itself(whole, base, t)) by {
                assert forall|k: int| 0 <= k < t.len() implies (#[trigger] t[k]).replace
                    == whole.subrange(t[k].start - base, t[k].end - base) by {
                    assert(t[k] == ms[k]);
                }
            }
            assert(m.replace == whole.subrange(m.start - base, m.end - base));
            let gap = if m.start > base + prev.1 {
                whole.subrange(prev.1, m.start - base)
            } else {
                Seq::empty()
            };
            assert(prev.0 + gap + m.replace =~= whole.subrange(0, m.end - base));
        }
    }
}

/// Splicing groups that are ordered and do not overlap changes the length
/// of the matched bytes only by what each replacement adds over the span it
/// replaces: no byte of the match is dropped or read twice.
pub proof fn law_splice_length(whole: Seq<u8>, base: int, ms: Seq<GroupModel>)
    requires
        within(ms, base, base + whole.len()),
        ordered_disjoint(ms),
    ensures
        spliced(whole, base, ms).len() == whole.len() + length_delta(ms),
{
    lemma_splice_prefix_ordered(whole, base, ms);
}

/// Splicing ordered, non-overlapping groups, each replaced by the bytes it
/// spans, rebuilds the matched bytes exactly: the gaps and the spans cover the
/// match once each.
pub proof fn law_splice_covers_match(whole: Seq<u8>, base: int, ms: Seq<GroupModel>)
    requires
        within(ms, base, base + whole.len()),
        ordered_disjoint(ms),
        replaces_with_itself(whole, base, ms),
    ensures
        spliced(whole, base, ms) == whole,
{
    lemma_splice_prefix_ordered(whole, base, ms);
    let p = splice_prefix(whole, base, ms);
    assert(p.0 + whole.subrange(p.1, whole.len() as int) =~= whole);
}

proof fn lemma_resolved_from_input(s: Seq<GroupModel>)
    requires
        starts_sorted(s),
        pairwise_nested(s),
    ensures
        starts_increasing(resolved(s)),
        ordered_disjoint(resolved(s)),
        forall|k: int| 0 <= k < resolved(s).len() ==> exists|j: int| 0 <= j < s.len() && #[trigger] resolved(s)[k] == s[j],
    decreases s.len(),
{
    if s.len() > 0 {
        let n = s.len() - 1;
        let t = s.drop_last();
        assert forall|j: int, k: int| 0 <= j < k < t.len() implies #[trigger] t[j].start <= #[trigger] t[k].start by {
            assert(t[j] == s[j] && t[k] == s[k]);
        }
        assert forall|j: int, k: int| 0 <= j < t.len() && 0 <= k < t.len() && j != k implies well_nested(#[trigger] t[j], #[trigger] t[k]) by {
            assert(t[j] == s[j] && t[k] == s[k]);
        }
        lemma_resolved_from_input(t);
        let acc = resolved(t);
        let m = s.last();
        assert(m == s[n]);
        assert forall|k: int| 0 <= k < acc.len() implies exists|j: int| 0 <= j < n && #[trigger] acc[k] == s[j] by {
            let j = choose|j: int| 0 <= j < t.len() && #[trigger] acc[k] == t[j];
            assert(t[j] == s[j]);
        }
        let r = resolved(s);
        if acc.len() == 0 {
            assert(r =~= seq![m]);
        } else {
            let p = acc.last();
            let jp = choose|j: int| 0 <= j < n && #[trigger] acc[acc.len() - 1] == s[j];
            assert(p == s[jp]);
            assert(p.start <= m.start);
            if superset(p, m) {
                assert(r == acc);
            } else if superset(m, p) {
                assert(m.start == p.start);
                let d = acc.drop_last();
                assert(r == d.push(m));
                assert forall|j: int, k: int| 0 <= j < k < r.len() implies #[trigger] r[j].start < #[trigger] r[k].start by {
                    assert(r[j] == acc[j]);
                    if k < d.len() {
                        assert(r[k] == acc[k]);
                    } else {
                        assert(acc[j].start < acc[acc.len() - 1].start);
                    }
                }
                assert forall|k: int| 0 < k < r.len() implies r[k - 1].end <= #[trigger] r[k].start by {
                    assert(r[k - 1] == acc[k - 1]);
                    if k < d.len() {
                        assert(r[k] == acc[k]);
                    } else {
                        assert(acc[k - 1].end <= acc[k].start);
                    }
                }
                assert forall|k: int| 0 <= k < r.len() implies exists|j: int| 0 <= j < s.len() && #[trigger] r[k] == s[j] by {
                    if k < d.len() {
                        assert(r[k] == acc[k]);
                    } else {
                        assert(r[k] == s[n]);
                    }
                }
            } else {
                assert(well_nested(s[jp], s[n]));
                assert(p.start < m.start);
                assert(r == acc.push(m));
                assert forall|j: int, k: int| 0 <= j < k < r.len() implies #[trigger] r[j].start < #[trigger] r[k].start by {
                    assert(r[j] == acc[j]);
                    if k < acc.len() {
                        assert(r[k] == acc[k]);
                    } else if j < acc.len() - 1 {
                        assert(acc[j].start < acc[acc.len() - 1].start);
                    }
                }
                assert(p.end <= m.start);
                assert forall|k: int| 0 < k < r.len() implies r[k - 1].end <= #[trigger] r[k].start by {
                    assert(r[k - 1] == acc[k - 1]);
                    if k < acc.len() {
                        assert(r[k] == acc[k]);
                    }
                }
                assert forall|k: int| 0 <= k < r.len() implies exists|j: int| 0 <= j < s.len() && #[trigger] r[k] == s[j] by {
                    if k < acc.len() {
                        assert(r[k] == acc[k]);
                    } else {
                        assert(r[k] == s[n]);
                    }
                }
            }
        }
    }
}

/// On groups sorted by start in which any two either nest, the outer one
/// declared first, or lie apart, the overlap resolver's output is strictly
/// increasing in start offset and no two of its groups overlap.
pub proof fn law_resolved_increasing(s: Seq<GroupModel>)
    requires
        starts_sorted(s),
        pairwise_nested(s),
    ensures
        starts_increasing(resolved(s)),
        ordered_disjoint(resolved(s)),
{
    lemma_resolved_from_input(s);
}

proof fn lemma_insert_members(s: Seq<GroupModel>, m: GroupModel)
    ensures
        insert_by_start(s, m).len() == s.len() + 1,
        forall|k: int|
            0 <= k < insert_by_start(s, m).len() ==> #[trigger] insert_by_start(s, m)[k] == m
                || exists|j: int| 0 <= j < s.len() && insert_by_start(s, m)[k] == s[j],
    decreases s.len(),
{
    let r = insert_by_start(s, m);
    if s.len() == 0 {
    } else if s.last().start <= m.start {
        assert forall|k: int| 0 <= k < r.len() implies #[trigger] r[k] == m || exists|j: int|
            0 <= j < s.len() && r[k] == s[j] by {
            if k < s.len() {
                assert(r[k] == s[k]);
            }
        }
    } else {
        let t = s.drop_last();
        lemma_insert_members(t, m);
        let q = insert_by_start(t, m);
        assert forall|k: int| 0 <= k < r.len() implies #[trigger] r[k] == m || exists|j: int|
            0 <= j < s.len() && r[k] == s[j] by {
            if k < q.len() {
                assert(r[k] == q[k]);
                if q[k] != m {
                    let j = choose|j: int| 0 <= j < t.len() && q[k] == t[j];
                    assert(t[j] == s[j]);
                }
            } else {
                assert(r[k] == s[s.len() - 1]);
            }
        }
    }
}

proof fn lemma_sorted_members(s: Seq<GroupModel>)
    ensures
        sorted_by_start(s).len() == s.len(),
        forall|k: int|
            0 <= k < sorted_by_start(s).len() ==> exists|j: int|
                0 <= j < s.len() && #[trigger] sorted_by_start(s)[k] == s[j],
    decreases s.len(),
{
    if s.len() > 0 {
        let t = s.drop_last();
        lemma_sorted_members(t);
        let q = sorted_by_start(t);
        lemma_insert_members(q, s.last());
        let r = sorted_by_start(s);
        assert forall|k: int| 0 <= k < r.len() implies exists|j: int|
            0 <= j < s.len() && #[trigger] r[k] == s[j] by {
            if r[k] == s.last() {
                assert(r[k] == s[s.len() - 1]);
            } else {
                let i = choose|i: int| 0 <= i < q.len() && r[k] == q[i];
                let j = choose|j: int| 0 <= j < t.len() && #[trigger] q[i] == t[j];
                assert(t[j] == s[j]);
            }
        }
    }
}

proof fn lemma_insert_sorted(s: Seq<GroupModel>, m: GroupModel)
    requires
        starts_sorted(s),
    ensures
        starts_sorted(insert_by_start(s, m)),
    decreases s.len(),
{
    let r = insert_by_start(s, m);
    if s.len() == 0 {
    } else if s.last().start <= m.start {
        assert forall|j: int, k: int| 0 <= j < k < r.len() implies #[trigger] r[j].start
            <= #[trigger] r[k].start by {
            assert(r[j] == s[j]);
            if k < s.len() {
                assert(r[k] == s[k]);
            } else if j < s.len() - 1 {
                assert(s[j].start <= s[s.len() - 1].start);
            }
        }
    } else {
        let t = s.drop_last();
        let l = s.last();
        assert(l == s[s.len() - 1]);
        assert forall|j: int, k: int| 0 <= j < k < t.len() implies #[trigger] t[j].start
            <= #[trigger] t[k].start by {
            assert(t[j] == s[j] && t[k] == s[k]);
        }
        lemma_insert_sorted(t, m);
        lemma_insert_members(t, m);
        let q = insert_by_start(t, m);
        assert forall|j: int, k: int| 0 <= j < k < r.len() implies #[trigger] r[j].start
            <= #[trigger] r[k].start by {
            assert(r[j] == q[j]);
            if k < q.len() {
                assert(r[k] == q[k]);
            } else {
                assert(r[k] == l);
                if q[j] != m {
                    let i = choose|i: int| 0 <= i < t.len() && q[j] == t[i];
                    assert(t[i] == s[i]);
                    assert(s[i].start <= s[s.len() - 1].start);
                }
            }
        }
    }
}

proof fn lemma_sorted_is_sorted(s: Seq<GroupModel>)
    ensures
        starts_sorted(sorted_by_start(s)),
    decreases s.len(),
{
    if s.len() > 0 {
        lemma_sorted_is_sorted(s.drop_last());
        lemma_insert_sorted(sorted_by_start(s.drop_last()), s.last());
    }
}

/// The groups of `s` that start at offset `v`, in their order in `s`.
pub open spec fn starting_at(s: Seq<GroupModel>, v: int) -> Seq<GroupModel> {
    s.filter(|x: GroupModel| x.start == v)
}

proof fn lemma_insert_permutes(s: Seq<GroupModel>, m: GroupModel, v: int)
    ensures
        insert_by_start(s, m).to_multiset() == s.to_multiset().insert(m),
        starting_at(insert_by_start(s, m), v) == if m.start == v {
            starting_at(s, v).push(m)
        } else {
            starting_at(s, v)
        },
    decreases s.len(),
{
    broadcast use vstd::seq_lib::group_to_multiset_ensures;

    reveal(Seq::filter);
    let r = insert_by_start(s, m);
    if s.len() == 0 {
        assert(r =~= Seq::<GroupModel>::empty().push(m));
        assert(r.drop_last() =~= s);
        assert(r.last() == m);
        assert(s.to_multiset() =~= Multiset::empty());
        assert(starting_at(s, v) =~= Seq::<GroupModel>::empty());
        assert(starting_at(r, v) == if m.start == v {
            starting_at(s, v).push(m)
        } else {
            starting_at(s, v)
        });
    } else if s.last().start <= m.start {
        assert(r.drop_last() =~= s);
        assert(r.last() == m);
        assert(starting_at(r, v) == if m.start == v {
            starting_at(s, v).push(m)
        } else {
            starting_at(s, v)
        });
    } else {
        let t = s.drop_last();
        let l = s.last();
        assert(s =~= t.push(l));
        lemma_insert_permutes(t, m, v);
        let q = insert_by_start(t, m);
        assert(r.drop_last() =~= q);
        assert(r.last() == l);
        assert(r.to_multiset() =~= s.to_multiset().insert(m));
        assert(starting_at(r, v) == if l.start == v {
            starting_at(q, v).push(l)
        } else {
            starting_at(q, v)
        });
        assert(starting_at(s, v) == if l.start == v {
            starting_at(t, v).push(l)
        } else {
            starting_at(t, v)
        });
    }
}

/// Sorting by start orders the groups by start offset, keeps exactly the
/// same groups, and keeps the groups that share a start in their order.
pub proof fn law_sort_by_start(s: Seq<GroupModel>, v: int)
    ensures
        starts_sorted(sorted_by_start(s)),
        sorted_by_start(s).to_multiset() == s.to_multiset(),
        starting_at(sorted_by_start(s), v) == starting_at(s, v),
    decreases s.len(),
{
    broadcast use vstd::seq_lib::group_to_multiset_ensures;

    reveal(Seq::filter);
    lemma_sorted_is_sorted(s);
    if s.len() > 0 {
        let t = s.drop_last();
        let l = s.last();
        assert(s =~= t.push(l));
        law_sort_by_start(t, v);
        lemma_insert_permutes(sorted_by_start(t), l, v);
        assert(starting_at(s, v) == if l.start == v {
            starting_at(t, v).push(l)
        } else {
            starting_at(t, v)
        });
    } else {
        assert(s.to_multiset() =~= Multiset::empty());
        assert(sorted_by_start(s) == s);
    }
}

proof fn lemma_insert_nested(s: Seq<GroupModel>, m: GroupModel)
    requires
        pairwise_nested(s),
        forall|j: int| 0 <= j < s.len() ==> well_nested(#[trigger] s[j], m),
    ensures
        pairwise_nested(insert_by_start(s, m)),
    decreases s.len(),
{
    let r = insert_by_start(s, m);
    if s.len() == 0 {
    } else if s.last().start <= m.start {
        assert forall|j: int, k: int|
            0 <= j < r.len() && 0 <= k < r.len() && j != k implies well_nested(
            #[trigger] r[j],
            #[trigger] r[k],
        ) by {
            if j < s.len() && k < s.len() {
                assert(r[j] == s[j] && r[k] == s[k]);
            } else if j < s.len() {
                assert(r[j] == s[j] && r[k] == m);
            } else {
                assert(r[k] == s[k] && r[j] == m);
            }
        }
    } else {
        let t = s.drop_last();
        let l = s.last();
        assert(l == s[s.len() - 1]);
        assert forall|j: int, k: int|
            0 <= j < t.len() && 0 <= k < t.len() && j != k implies well_nested(
            #[trigger] t[j],
            #[trigger] t[k],
        ) by {
            assert(t[j] == s[j] && t[k] == s[k]);
        }
        assert forall|j: int| 0 <= j < t.len() implies well_nested(#[trigger] t[j], m) by {
            assert(t[j] == s[j]);
        }
        lemma_insert_nested(t, m);
        lemma_insert_members(t, m);
        let q = insert_by_start(t, m);
        assert forall|j: int| 0 <= j < q.len() implies well_nested(#[trigger] q[j], l) by {
            if q[j] == m {
                assert(well_nested(s[s.len() - 1], m));
            } else {
                let i = choose|i: int| 0 <= i < t.len() && q[j] == t[i];
                assert(t[i] == s[i]);
                assert(well_nested(s[i], s[s.len() - 1]));
            }
        }
        assert forall|j: int, k: int|
            0 <= j < r.len() && 0 <= k < r.len() && j != k implies well_nested(
            #[trigger] r[j],
            #[trigger] r[k],
        ) by {
            if j < q.len() && k < q.len() {
                assert(r[j] == q[j] && r[k] == q[k]);
            } else if j < q.len() {
                assert(r[j] == q[j] && r[k] == l);
            } else {
                assert(r[k] == q[k] && r[j] == l);
                assert(well_nested(q[k], l));
            }
        }
    }
}

proof fn lemma_sorted_nested(s: Seq<GroupModel>)
    requires
        pairwise_nested(s),
    ensures
        pairwise_nested(sorted_by_start(s)),
    decreases s.len(),
{
    if s.len() > 0 {
        let t = s.drop_last();
        let l = s.last();
        assert(l == s[s.len() - 1]);
        assert forall|j: int, k: int|
            0 <= j < t.len() && 0 <= k < t.len() && j != k implies well_nested(
            #[trigger] t[j],
            #[trigger] t[k],
        ) by {
            assert(t[j] == s[j] && t[k] == s[k]);
        }
        lemma_sorted_nested(t);
        lemma_sorted_members(t);
        let q = sorted_by_start(t);
        assert forall|j: int| 0 <= j < q.len() implies well_nested(#[trigger] q[j], l) by {
            let i = choose|i: int| 0 <= i < t.len() && #[trigger] q[j] == t[i];
            assert(t[i] == s[i]);
            assert(well_nested(s[i], s[s.len() - 1]));
        }
        lemma_insert_nested(q, l);
    }
}

/// When the groups selected from one match are pairwise well nested, the
/// winning groups (sorted by start, then resolved) strictly increase in start
/// offset and do not overlap.
pub proof fn law_matched_groups_increasing(caps: Seq<Span>, reps: Map<usize, Seq<u8>>)
    requires
        pairwise_nested(selected(caps, reps)),
    ensures
        starts_increasing(matched_groups(caps, reps)),
        ordered_disjoint(matched_groups(caps, reps)),
{
    let s = selected(caps, reps);
    lemma_sorted_is_sorted(s);
    lemma_sorted_nested(s);
    lemma_resolved_from_input(sorted_by_start(s));
}

/// Group 0 of a match, with its replacement.
pub open spec fn whole_group(caps: Seq<Span>, reps: Map<usize, Seq<u8>>) -> GroupModel {
    GroupModel {
        start: caps[0]->Some_0.0 as int,
        end: caps[0]->Some_0.1 as int,
        replace: reps[0usize],
        group_id: 0,
    }
}

proof fn lemma_selected_head(caps: Seq<Span>, reps: Map<usize, Seq<u8>>, n: int)
    requires
        1 <= n <= caps.len(),
        caps.len() <= usize::MAX,
        caps[0] is Some,
        reps.contains_key(0usize),
        forall|j: int|
            0 <= j < caps.len() && (#[trigger] caps[j]) is Some ==> caps[0]->Some_0.0
                <= caps[j]->Some_0.0 && caps[j]->Some_0.1 <= caps[0]->Some_0.1,
    ensures
        selected(caps.subrange(0, n), reps).len() >= 1,
        selected(caps.subrange(0, n), reps)[0] == whole_group(caps, reps),
        forall|k: int|
            1 <= k < selected(caps.subrange(0, n), reps).len() ==> superset(
                whole_group(caps, reps),
                #[trigger] selected(caps.subrange(0, n), reps)[k],
            ),
    decreases n,
{
    let sub = caps.subrange(0, n);
    let g0 = whole_group(caps, reps);
    assert(sub.last() == caps[n - 1]);
    let i = (sub.len() - 1) as usize;
    assert(i as int == n - 1);
    if n == 1 {
        assert(sub.drop_last() =~= Seq::<Span>::empty());
        assert(selected(sub.drop_last(), reps) == Seq::<GroupModel>::empty());
        let span = caps[0]->Some_0;
        assert(selected(sub, reps) == Seq::<GroupModel>::empty().push(
            GroupModel {
                start: span.0 as int,
                end: span.1 as int,
                replace: reps[i],
                group_id: i as int,
            },
        ));
        assert(selected(sub, reps)[0] == g0);
    } else {
        lemma_selected_head(caps, reps, n - 1);
        assert(sub.drop_last() =~= caps.subrange(0, n - 1));
        let prev = selected(caps.subrange(0, n - 1), reps);
        let cur = selected(sub, reps);
        if caps[n - 1] is Some && reps.contains_key(i) {
            let span = caps[n - 1]->Some_0;
            let x = GroupModel {
                start: span.0 as int,
                end: span.1 as int,
                replace: reps[i],
                group_id: i as int,
            };
            assert(cur == prev.push(x));
            assert(superset(g0, x));
        } else {
            assert(cur == prev);
        }
        assert(cur[0] == prev[0]);
        assert forall|k: int| 1 <= k < cur.len() implies superset(g0, #[trigger] cur[k]) by {
            if k < prev.len() {
                assert(cur[k] == prev[k]);
            }
        }
    }
}

proof fn lemma_insert_keeps_head(s: Seq<GroupModel>, m: GroupModel)
    requires
        s.len() > 0,
        s[0].start <= m.start,
    ensures
        insert_by_start(s, m)[0] == s[0],
    decreases s.len(),
{
    if s.last().start > m.start {
        let t = s.drop_last();
        assert(s.len() > 1);
        assert(t[0] == s[0]);
        lemma_insert_keeps_head(t, m);
        lemma_insert_members(t, m);
    }
}

proof fn lemma_sorted_keeps_head(s: Seq<GroupModel>)
    requires
        s.len() > 0,
        forall|k: int| 0 <= k < s.len() ==> s[0].start <= (#[trigger] s[k]).start,
    ensures
        sorted_by_start(s)[0] == s[0],
    decreases s.len(),
{
    let t = s.drop_last();
    assert(s.last() == s[s.len() - 1]);
    if s.len() == 1 {
        assert(sorted_by_start(t) =~= Seq::<GroupModel>::empty());
    } else {
        assert(t[0] == s[0]);
        assert forall|k: int| 0 <= k < t.len() implies t[0].start <= (#[trigger] t[k]).start by {
            assert(t[k] == s[k]);
        }
        lemma_sorted_keeps_head(t);
        lemma_sorted_members(t);
        lemma_insert_keeps_head(sorted_by_start(t), s.last());
    }
}

proof fn lemma_resolved_single(s: Seq<GroupModel>)
    requires
        s.len() > 0,
        forall|k: int| 1 <= k < s.len() ==> superset(s[0], #[trigger] s[k]),
    ensures
        resolved(s) == seq![s[0]],
    decreases s.len(),
{
    let t = s.drop_last();
    assert(s.last() == s[s.len() - 1]);
    if s.len() == 1 {
        assert(resolved(t) =~= Seq::<GroupModel>::empty());
        assert(resolved(t).push(s[0]) =~= seq![s[0]]);
    } else {
        assert(t[0] == s[0]);
        assert forall|k: int| 1 <= k < t.len() implies superset(t[0], #[trigger] t[k]) by {
            assert(t[k] == s[k]);
        }
        lemma_resolved_single(t);
    }
}

/// When group 0 has a replacement, every group that took part lies inside
/// the whole match, the whole match alone wins: all inner groups are
/// suppressed.
pub proof fn law_whole_match_wins(caps: Seq<Span>, reps: Map<usize, Seq<u8>>)
    requires
        0 < caps.len() <= usize::MAX,
        caps[0] is Some,
        reps.contains_key(0usize),
        forall|j: int|
            0 <= j < caps.len() && (#[trigger] caps[j]) is Some ==> caps[0]->Some_0.0
                <= caps[j]->Some_0.0 && caps[j]->Some_0.1 <= caps[0]->Some_0.1,
    ensures
        matched_groups(caps, reps) == seq![whole_group(caps, reps)],
{
    broadcast use vstd::seq_lib::group_to_multiset_ensures;

    let g0 = whole_group(caps, reps);
    lemma_selected_head(caps, reps, caps.len() as int);
    assert(caps.subrange(0, caps.len() as int) =~= caps);
    let sel = selected(caps, reps);
    assert forall|k: int| 0 <= k < sel.len() implies sel[0].start <= (#[trigger] sel[k]).start by {
        if k >= 1 {
            assert(superset(g0, sel[k]));
        }
    }
    lemma_sorted_keeps_head(sel);
    law_sort_by_start(sel, 0);
    let srt = sorted_by_start(sel);
    assert(srt.len() == sel.len()) by {
        lemma_sorted_members(sel);
    }
    assert(srt.remove(0).to_multiset() =~= sel.remove(0).to_multiset());
    assert forall|k: int| 1 <= k < srt.len() implies superset(srt[0], #[trigger] srt[k]) by {
        let x = srt[k];
        assert(srt.remove(0)[k - 1] == x);
        assert(srt.remove(0).contains(x));
        assert(sel.remove(0).to_multiset().count(x) > 0);
        assert(sel.remove(0).contains(x));
        let j = choose|j: int| 0 <= j < sel.remove(0).len() && sel.remove(0)[j] == x;
        assert(sel[j + 1] == x);
    }
    lemma_resolved_single(srt);
}

/// A document in which the pattern matches nothing comes back unchanged.
pub proof fn law_no_match_no_change(data: Seq<u8>, reps: Map<usize, Seq<u8>>)
    ensures
        replaced(data, Seq::<Seq<Span>>::empty(), reps) == data,
{
    assert(data.subrange(0, data.len() as int) =~= data);
}

/// Tokens that are all `key=value` but mix positional and named keys are
/// rejected.
pub proof fn law_mixed_keys_rejected(toks: Seq<Seq<char>>)
    requires
        first_malformed(toks) is None,
        has_positional(toks),
        has_named(toks),
    ensures
        parse_outcome(toks) == Outcome::Mixed,
{
}

} // verus!
