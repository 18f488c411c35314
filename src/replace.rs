//! The group-aware replacement engine: selecting, ordering and resolving the
//! groups of one match, splicing them into the matched bytes, and driving that
//! over every match of a document.

use crate::pattern::{captures_all, matches_of};
use crate::types::{superset, Cmd, File, GroupModel, Groups, MatchedGroup, PosGroups};
use vstd::prelude::*;

verus! {

broadcast use vstd::std_specs::hash::group_hash_axioms;

/// Byte range `[start, end)` of one capture group, or `None` when the group
/// did not take part in the match.
pub type Span = Option<(usize, usize)>;

/// The replacement bytes of a positional group map.
pub open spec fn replacements(groups: &PosGroups) -> Map<usize, Seq<u8>> {
    groups@.map_values(|v: Vec<u8>| v@)
}

pub open spec fn models(ms: Seq<MatchedGroup>) -> Seq<GroupModel> {
    ms.map_values(|m: MatchedGroup| m@)
}

/// The groups of one match that took part in it and have a replacement, in
/// group order.
pub open spec fn selected(caps: Seq<Span>, reps: Map<usize, Seq<u8>>) -> Seq<GroupModel>
    decreases caps.len(),
{
    if caps.len() == 0 {
        Seq::empty()
    } else {
        let prev = selected(caps.drop_last(), reps);
        let i = (caps.len() - 1) as usize;
        match caps.last() {
            Some(span) => if reps.contains_key(i) {
                prev.push(
                    GroupModel {
                        start: span.0 as int,
                        end: span.1 as int,
                        replace: reps[i],
                        group_id: i as int,
                    },
                )
            } else {
                prev
            },
            None => prev,
        }
    }
}

/// Inserts `m` after every element that starts no later than it.
pub open spec fn insert_by_start(s: Seq<GroupModel>, m: GroupModel) -> Seq<GroupModel>
    decreases s.len(),
{
    if s.len() == 0 {
        seq![m]
    } else if s.last().start <= m.start {
        s.push(m)
    } else {
        insert_by_start(s.drop_last(), m).push(s.last())
    }
}

/// Stable sort by start offset.
pub open spec fn sorted_by_start(s: Seq<GroupModel>) -> Seq<GroupModel>
    decreases s.len(),
{
    if s.len() == 0 {
        s
    } else {
        insert_by_start(sorted_by_start(s.drop_last()), s.last())
    }
}

/// The single left-to-right pass that keeps, of two neighbours where one is a
/// superset of the other, only the superset.
pub open spec fn resolved(s: Seq<GroupModel>) -> Seq<GroupModel>
    decreases s.len(),
{
    if s.len() == 0 {
        s
    } else {
        let acc = resolved(s.drop_last());
        let m = s.last();
        if acc.len() == 0 {
            acc.push(m)
        } else if superset(acc.last(), m) {
            acc
        } else if superset(m, acc.last()) {
            acc.drop_last().push(m)
        } else {
            acc.push(m)
        }
    }
}

/// The winning groups of one match.
pub open spec fn matched_groups(caps: Seq<Span>, reps: Map<usize, Seq<u8>>) -> Seq<GroupModel> {
    resolved(sorted_by_start(selected(caps, reps)))
}

/// Every group lies inside `[lo, hi]`.
pub open spec fn within(ms: Seq<GroupModel>, lo: int, hi: int) -> bool {
    forall|k: int| 0 <= k < ms.len() ==> lo <= #[trigger] ms[k].start <= ms[k].end <= hi
}

/// Output so far, and the offset in `whole` up to which it accounts for the
/// source, after splicing the groups `ms` into `whole`, the matched bytes
/// that begin at document offset `base`.
pub open spec fn splice_prefix(whole: Seq<u8>, base: int, ms: Seq<GroupModel>) -> (Seq<u8>, int)
    decreases ms.len(),
{
    if ms.len() == 0 {
        (Seq::empty(), 0)
    } else {
        let prev = splice_prefix(whole, base, ms.drop_last());
        let m = ms.last();
        let gap = if m.start > base + prev.1 {
            whole.subrange(prev.1, m.start - base)
        } else {
            Seq::empty()
        };
        (prev.0 + gap + m.replace, m.end - base)
    }
}

/// `whole` with each group of `ms` replaced, the bytes between them kept.
pub open spec fn spliced(whole: Seq<u8>, base: int, ms: Seq<GroupModel>) -> Seq<u8> {
    let p = splice_prefix(whole, base, ms);
    p.0 + whole.subrange(p.1, whole.len() as int)
}

pub proof fn lemma_insert_within(s: Seq<GroupModel>, m: GroupModel, lo: int, hi: int)
    requires
        within(s, lo, hi),
        lo <= m.start <= m.end <= hi,
    ensures
        within(insert_by_start(s, m), lo, hi),
        insert_by_start(s, m).len() == s.len() + 1,
    decreases s.len(),
{
    if s.len() > 0 && s.last().start > m.start {
        lemma_insert_within(s.drop_last(), m, lo, hi);
        let r = insert_by_start(s.drop_last(), m);
        assert forall|k: int| 0 <= k < r.push(s.last()).len() implies lo <= #[trigger] r.push(
            s.last(),
        )[k].start <= r.push(s.last())[k].end <= hi by {
            if k < r.len() {
                assert(r.push(s.last())[k] == r[k]);
            } else {
                assert(s.last() == s[s.len() - 1]);
            }
        }
    } else if s.len() > 0 {
        assert forall|k: int| 0 <= k < s.push(m).len() implies lo <= #[trigger] s.push(
            m,
        )[k].start <= s.push(m)[k].end <= hi by {
            if k < s.len() {
                assert(s.push(m)[k] == s[k]);
            }
        }
    }
}

pub proof fn lemma_sorted_within(s: Seq<GroupModel>, lo: int, hi: int)
    requires
        within(s, lo, hi),
    ensures
        within(sorted_by_start(s), lo, hi),
        sorted_by_start(s).len() == s.len(),
    decreases s.len(),
{
    if s.len() > 0 {
        let t = s.drop_last();
        assert(within(t, lo, hi)) by {
            assert forall|k: int| 0 <= k < t.len() implies lo <= #[trigger] t[k].start <= t[k].end
                <= hi by {
                assert(t[k] == s[k]);
            }
        }
        lemma_sorted_within(t, lo, hi);
        assert(s.last() == s[s.len() - 1]);
        lemma_insert_within(sorted_by_start(t), s.last(), lo, hi);
    }
}

pub proof fn lemma_resolved_within(s: Seq<GroupModel>, lo: int, hi: int)
    requires
        within(s, lo, hi),
    ensures
        within(resolved(s), lo, hi),
    decreases s.len(),
{
    if s.len() > 0 {
        let t = s.drop_last();
        assert(within(t, lo, hi)) by {
            assert forall|k: int| 0 <= k < t.len() implies lo <= #[trigger] t[k].start <= t[k].end
                <= hi by {
                assert(t[k] == s[k]);
            }
        }
        lemma_resolved_within(t, lo, hi);
        let acc = resolved(t);
        let m = s.last();
        assert(m == s[s.len() - 1]);
        assert forall|k: int| 0 <= k < acc.push(m).len() implies lo <= #[trigger] acc.push(
            m,
        )[k].start <= acc.push(m)[k].end <= hi by {
            if k < acc.len() {
                assert(acc.push(m)[k] == acc[k]);
            }
        }
        if acc.len() > 0 {
            let d = acc.drop_last();
            assert forall|k: int| 0 <= k < d.push(m).len() implies lo <= #[trigger] d.push(
                m,
            )[k].start <= d.push(m)[k].end <= hi by {
                if k < d.len() {
                    assert(d.push(m)[k] == acc[k]);
                }
            }
        }
    }
}

/// Group selector: the captures of one match that took part in it and have a
/// replacement, in group order.
fn select_groups(groups: &PosGroups, caps: &Vec<Span>) -> (r: Vec<MatchedGroup>)
    ensures
        models(r@) == selected(caps@, replacements(groups)),
{
    let mut r: Vec<MatchedGroup> = Vec::new();
    let mut i: usize = 0;
    while i < caps.len()
        invariant
            i <= caps@.len(),
            models(r@) == selected(caps@.subrange(0, i as int), replacements(groups)),
        decreases caps@.len() - i,
    {
        let ghost pre = caps@.subrange(0, i as int);
        let ghost next = caps@.subrange(0, i + 1);
        assert(next.drop_last() == pre);
        assert(next.last() == caps@[i as int]);
        let ghost r0 = r@;
        if let Some((s, e)) = caps[i] {
            if let Some(g) = groups.get(&i) {
                let replace = g.clone();
                assert(replace@ =~= g@);
                r.push(MatchedGroup { start: s, end: e, replace, group_id: i });
                assert(models(r@) =~= models(r0).push(r@.last()@));
            }
        }
        i += 1;
    }
    assert(caps@.subrange(0, caps@.len() as int) == caps@);
    r
}

/// Stable sort of the selected groups by start offset.
fn sort_by_start(v: &Vec<MatchedGroup>) -> (r: Vec<MatchedGroup>)
    ensures
        models(r@) == sorted_by_start(models(v@)),
{
    let ghost src = models(v@);
    let mut r: Vec<MatchedGroup> = Vec::new();
    let mut i: usize = 0;
    while i < v.len()
        invariant
            i <= v@.len(),
            src == models(v@),
            models(r@) == sorted_by_start(src.subrange(0, i as int)),
        decreases v@.len() - i,
    {
        let ghost next = src.subrange(0, i + 1);
        assert(next.drop_last() =~= src.subrange(0, i as int));
        assert(next.last() == v@[i as int]@);
        insert_by_start_exec(&mut r, v[i].duplicate());
        i += 1;
    }
    assert(src.subrange(0, v@.len() as int) =~= src);
    r
}

/// Inserts `x` after every element of `r` that starts no later than it.
fn insert_by_start_exec(r: &mut Vec<MatchedGroup>, x: MatchedGroup)
    ensures
        models(final(r)@) == insert_by_start(models(old(r)@), x@),
{
    let ghost s = models(r@);
    let mut k: usize = r.len();
    assert(s.subrange(0, k as int) =~= s);
    assert(s.subrange(k as int, s.len() as int) =~= Seq::<GroupModel>::empty());
    while k > 0 && r[k - 1].start > x.start
        invariant
            k <= r@.len(),
            r@ == old(r)@,
            s == models(r@),
            insert_by_start(s, x@) == insert_by_start(s.subrange(0, k as int), x@) + s.subrange(
                k as int,
                s.len() as int,
            ),
        decreases k,
    {
        let ghost pre = s.subrange(0, k as int);
        assert(pre.last() == s[k - 1]);
        assert(pre.drop_last() =~= s.subrange(0, k - 1));
        assert(s.subrange(k - 1, s.len() as int) =~= seq![s[k - 1]] + s.subrange(
            k as int,
            s.len() as int,
        ));
        k -= 1;
    }
    let ghost pre = s.subrange(0, k as int);
    if k > 0 {
        assert(pre.last() == s[k - 1]);
    }
    r.insert(k, x);
    assert(models(r@) =~= pre.push(x@) + s.subrange(k as int, s.len() as int));
    assert(k == 0 ==> pre =~= Seq::<GroupModel>::empty());
}

/// Overlap resolver: walks the groups in order, keeping of two neighbours
/// where one is a superset of the other only the superset.
fn resolve_overlaps(sorted: &Vec<MatchedGroup>) -> (r: Vec<MatchedGroup>)
    ensures
        models(r@) == resolved(models(sorted@)),
{
    let ghost src = models(sorted@);
    let mut matched: Vec<MatchedGroup> = Vec::new();
    let mut i: usize = 0;
    while i < sorted.len()
        invariant
            i <= sorted@.len(),
            src == models(sorted@),
            models(matched@) == resolved(src.subrange(0, i as int)),
        decreases sorted@.len() - i,
    {
        let ghost next = src.subrange(0, i + 1);
        let ghost acc = models(matched@);
        assert(next.drop_last() =~= src.subrange(0, i as int));
        assert(next.last() == sorted@[i as int]@);
        let m = sorted[i].duplicate();
        let len = matched.len();
        if len == 0 {
            matched.push(m);
            assert(models(matched@) =~= acc.push(m@));
        } else if matched[len - 1].is_superset(&m) {
            assert(acc.last() == matched@[len - 1]@);
        } else if m.is_superset(&matched[len - 1]) {
            assert(acc.last() == matched@[len - 1]@);
            matched.pop();
            matched.push(m);
            assert(models(matched@) =~= acc.drop_last().push(m@));
        } else {
            assert(acc.last() == matched@[len - 1]@);
            matched.push(m);
            assert(models(matched@) =~= acc.push(m@));
        }
        i += 1;
    }
    assert(src.subrange(0, sorted@.len() as int) =~= src);
    matched
}


/// Start of the whole match of one capture list.
pub open spec fn match_start(caps: Seq<Span>) -> int {
    caps[0]->Some_0.0 as int
}

/// End of the whole match of one capture list.
pub open spec fn match_end(caps: Seq<Span>) -> int {
    caps[0]->Some_0.1 as int
}

/// The capture list of one match in a document of `len` bytes: group 0 is
/// present, and every group that took part lies inside it.
pub open spec fn match_ok(caps: Seq<Span>, len: int) -> bool {
    &&& caps.len() > 0
    &&& caps[0] is Some
    &&& match_start(caps) <= match_end(caps) <= len
    &&& forall|j: int|
        0 <= j < caps.len() && (#[trigger] caps[j]) is Some ==> match_start(caps)
            <= caps[j]->Some_0.0 <= caps[j]->Some_0.1 <= match_end(caps)
}

/// Every match of a document in order, none overlapping the next.
pub open spec fn captures_ok(all: Seq<Seq<Span>>, len: int) -> bool {
    &&& forall|i: int| 0 <= i < all.len() ==> match_ok(#[trigger] all[i], len)
    &&& forall|i: int| 0 < i < all.len() ==> match_end(all[i - 1]) <= #[trigger] match_start(all[i])
}

pub open spec fn capture_lists(all: Seq<Vec<Span>>) -> Seq<Seq<Span>> {
    all.map_values(|c: Vec<Span>| c@)
}

/// The bytes that replace one match of `data`.
pub open spec fn match_output(data: Seq<u8>, caps: Seq<Span>, reps: Map<usize, Seq<u8>>) -> Seq<u8> {
    spliced(
        data.subrange(match_start(caps), match_end(caps)),
        match_start(caps),
        matched_groups(caps, reps),
    )
}

/// Output so far, and the document offset up to which it accounts for
/// `data`, after replacing the matches `all`.
pub open spec fn replaced_prefix(data: Seq<u8>, all: Seq<Seq<Span>>, reps: Map<usize, Seq<u8>>) -> (
    Seq<u8>,
    int,
)
    decreases all.len(),
{
    if all.len() == 0 {
        (Seq::empty(), 0)
    } else {
        let prev = replaced_prefix(data, all.drop_last(), reps);
        let caps = all.last();
        (
            prev.0 + data.subrange(prev.1, match_start(caps)) + match_output(data, caps, reps),
            match_end(caps),
        )
    }
}

/// `data` with every match of `all` replaced and the bytes between matches kept.
pub open spec fn replaced(data: Seq<u8>, all: Seq<Seq<Span>>, reps: Map<usize, Seq<u8>>) -> Seq<u8> {
    let p = replaced_prefix(data, all, reps);
    p.0 + data.subrange(p.1, data.len() as int)
}

pub proof fn lemma_selected_within(caps: Seq<Span>, reps: Map<usize, Seq<u8>>, lo: int, hi: int)
    requires
        forall|j: int|
            0 <= j < caps.len() && (#[trigger] caps[j]) is Some ==> lo <= caps[j]->Some_0.0
                <= caps[j]->Some_0.1 <= hi,
    ensures
        within(selected(caps, reps), lo, hi),
    decreases caps.len(),
{
    if caps.len() > 0 {
        let t = caps.drop_last();
        assert forall|j: int| 0 <= j < t.len() && (#[trigger] t[j]) is Some implies lo
            <= t[j]->Some_0.0 <= t[j]->Some_0.1 <= hi by {
            assert(t[j] == caps[j]);
        }
        lemma_selected_within(t, reps, lo, hi);
        assert(caps.last() == caps[caps.len() - 1]);
        let prev = selected(t, reps);
        let r = selected(caps, reps);
        assert forall|k: int| 0 <= k < r.len() implies lo <= #[trigger] r[k].start <= r[k].end
            <= hi by {
            if k < prev.len() {
                assert(r[k] == prev[k]);
            }
        }
    }
}

pub proof fn lemma_matched_within(caps: Seq<Span>, reps: Map<usize, Seq<u8>>, len: int)
    requires
        match_ok(caps, len),
    ensures
        within(matched_groups(caps, reps), match_start(caps), match_end(caps)),
{
    lemma_selected_within(caps, reps, match_start(caps), match_end(caps));
    lemma_sorted_within(selected(caps, reps), match_start(caps), match_end(caps));
    lemma_resolved_within(
        sorted_by_start(selected(caps, reps)),
        match_start(caps),
        match_end(caps),
    );
}

/// Group selector, ordering and overlap resolver for one match: the groups
/// whose replacements are written, in order.
pub fn get_matched_groups(groups: &PosGroups, caps: &Vec<Span>) -> (r: Vec<MatchedGroup>)
    ensures
        models(r@) == matched_groups(caps@, replacements(groups)),
{
    let raw = select_groups(groups, caps);
    let sorted = sort_by_start(&raw);
    resolve_overlaps(&sorted)
}

fn append_bytes(dst: &mut Vec<u8>, src: &[u8])
    ensures
        final(dst)@ == old(dst)@ + src@,
{
    let mut i: usize = 0;
    while i < src.len()
        invariant
            i <= src@.len(),
            dst@ == old(dst)@ + src@.subrange(0, i as int),
        decreases src@.len() - i,
    {
        dst.push(src[i]);
        i += 1;
        assert(dst@ =~= old(dst)@ + src@.subrange(0, i as int));
    }
    assert(src@.subrange(0, src@.len() as int) =~= src@);
}

/// Span splicer: appends to `dst` the bytes `whole`, which begin at document
/// offset `base`, with each group of `matched` replaced in order.
pub fn splice(whole: &[u8], base: usize, matched: &Vec<MatchedGroup>, dst: &mut Vec<u8>)
    requires
        base + whole@.len() <= usize::MAX,
        within(models(matched@), base as int, base + whole@.len()),
    ensures
        final(dst)@ == old(dst)@ + spliced(whole@, base as int, models(matched@)),
{
    let ghost ms = models(matched@);
    let mut loc: usize = 0;
    let mut i: usize = 0;
    while i < matched.len()
        invariant
            i <= matched@.len(),
            ms == models(matched@),
            within(ms, base as int, base + whole@.len()),
            base + whole@.len() <= usize::MAX,
            dst@ == old(dst)@ + splice_prefix(whole@, base as int, ms.subrange(0, i as int)).0,
            loc == splice_prefix(whole@, base as int, ms.subrange(0, i as int)).1,
            loc <= whole@.len(),
        decreases matched@.len() - i,
    {
        let ghost next = ms.subrange(0, i + 1);
        assert(next.drop_last() =~= ms.subrange(0, i as int));
        assert(next.last() == matched@[i as int]@);
        let m = &matched[i];
        assert(base <= m.start <= m.end <= base + whole@.len()) by {
            assert(ms[i as int] == m@);
            assert(base <= ms[i as int].start <= ms[i as int].end <= base + whole@.len());
        }
        let ghost d0 = dst@;
        if m.start > base + loc {
            append_bytes(dst, &whole[loc..m.start - base]);
        }
        append_bytes(dst, m.replace.as_slice());
        assert(dst@ =~= old(dst)@ + splice_prefix(whole@, base as int, next).0);
        loc = m.end - base;
        i += 1;
    }
    assert(ms.subrange(0, matched@.len() as int) =~= ms);
    append_bytes(dst, &whole[loc..whole.len()]);
    assert(dst@ =~= old(dst)@ + spliced(whole@, base as int, ms));
}

/// Appends to `dst` what replaces one match of `data` whose capture spans are
/// `caps`.
pub fn replace_append_pos(groups: &PosGroups, data: &[u8], caps: &Vec<Span>, dst: &mut Vec<u8>)
    requires
        match_ok(caps@, data@.len() as int),
    ensures
        final(dst)@ == old(dst)@ + match_output(data@, caps@, replacements(groups)),
{
    let matched = get_matched_groups(groups, caps);
    proof {
        lemma_matched_within(caps@, replacements(groups), data@.len() as int);
    }
    let (start, end) = match caps[0] {
        Some(span) => span,
        None => (0, 0),
    };
    let whole = &data[start..end];
    splice(whole, start, &matched, dst);
}

/// Appends to `dst` what replaces one match; only positional groups are
/// supported.
pub fn replace_append(groups: &Groups, data: &[u8], caps: &Vec<Span>, dst: &mut Vec<u8>)
    requires
        groups is Pos,
        match_ok(caps@, data@.len() as int),
    ensures
        final(dst)@ == old(dst)@ + match_output(data@, caps@, replacements(&groups->Pos_0)),
{
    match groups {
        Groups::Pos(g) => replace_append_pos(g, data, caps, dst),
        Groups::Named(_) => {},
    }
}

/// Match driver over already-found matches: replaces each match of `all` in
/// `data` and keeps every byte outside them.
pub fn replace_captures(groups: &PosGroups, data: &[u8], all: &Vec<Vec<Span>>) -> (r: Vec<u8>)
    requires
        captures_ok(capture_lists(all@), data@.len() as int),
    ensures
        r@ == replaced(data@, capture_lists(all@), replacements(groups)),
{
    let ghost lists = capture_lists(all@);
    let ghost reps = replacements(groups);
    let mut dst: Vec<u8> = Vec::new();
    let mut last: usize = 0;
    let mut i: usize = 0;
    while i < all.len()
        invariant
            i <= all@.len(),
            lists == capture_lists(all@),
            reps == replacements(groups),
            captures_ok(lists, data@.len() as int),
            dst@ == replaced_prefix(data@, lists.subrange(0, i as int), reps).0,
            last == replaced_prefix(data@, lists.subrange(0, i as int), reps).1,
            last <= data@.len(),
            i > 0 ==> last == match_end(lists[i - 1]),
        decreases all@.len() - i,
    {
        let ghost next = lists.subrange(0, i + 1);
        assert(next.drop_last() =~= lists.subrange(0, i as int));
        assert(next.last() == all@[i as int]@);
        let caps = &all[i];
        assert(match_ok(lists[i as int], data@.len() as int));
        assert(last as int <= match_start(caps@));
        let (start, end) = match caps[0] {
            Some(span) => span,
            None => (0, 0),
        };
        append_bytes(&mut dst, &data[last..start]);
        replace_append_pos(groups, data, caps, &mut dst);
        assert(dst@ =~= replaced_prefix(data@, next, reps).0);
        last = end;
        i += 1;
    }
    assert(lists.subrange(0, all@.len() as int) =~= lists);
    append_bytes(&mut dst, &data[last..data.len()]);
    dst
}

/// Match driver: `data` with every match of the command's pattern replaced
/// and every byte outside the matches kept. Only positional groups are
/// supported.
pub fn replace(cmd: &Cmd, data: &[u8]) -> (r: Vec<u8>)
    requires
        cmd.groups is Pos,
    ensures
        r@ == replaced(data@, matches_of(cmd.regex@, data@), replacements(&cmd.groups->Pos_0)),
{
    let all = captures_all(&cmd.regex, data);
    match &cmd.groups {
        Groups::Pos(g) => replace_captures(g, data, &all),
        Groups::Named(_) => Vec::new(),
    }
}

/// The document with its content replaced as [`replace`] does.
pub fn replace_file(cmd: &Cmd, f: &File) -> (r: File)
    requires
        cmd.groups is Pos,
    ensures
        r.path@ == f.path@,
        r.data@ == replaced(
            f.data@,
            matches_of(cmd.regex@, f.data@),
            replacements(&cmd.groups->Pos_0),
        ),
{
    File { path: f.path.clone(), data: replace(cmd, f.data.as_slice()) }
}

} // verus!
