//! Clip groups: clips that share a group id move and delete together. The
//! project's clips are seen here in track order, each as its id and group.

use vstd::prelude::*;
use crate::model::IdGen;

verus! {

/// What grouping reads and writes of a clip.
#[derive(Clone, Copy, PartialEq, Eq, Structural, Debug)]
pub struct ClipGroup {
    pub id: u64,
    pub group: Option<u64>,
}

/// Clip `k` is the first one in `s` with its id: the clip a lookup by id finds.
pub open spec fn is_first(s: Seq<ClipGroup>, k: int) -> bool {
    forall|j: int| 0 <= j < k ==> #[trigger] s[j].id != s[k].id
}

/// Some clip of `s` has the id `x`.
pub open spec fn has_clip(s: Seq<ClipGroup>, x: u64) -> bool {
    exists|k: int| 0 <= k < s.len() && #[trigger] s[k].id == x
}

/// No two clips of `s` share an id.
pub open spec fn ids_distinct(s: Seq<ClipGroup>) -> bool {
    forall|i: int, j: int| 0 <= i < j < s.len() ==> #[trigger] s[i].id != #[trigger] s[j].id
}

/// The clips after giving each clip named in `ids` (the first with that id)
/// the group `g`.
pub open spec fn spec_regroup(s: Seq<ClipGroup>, ids: Seq<u64>, g: Option<u64>) -> Seq<ClipGroup> {
    Seq::new(
        s.len(),
        |k: int|
            if ids.contains(s[k].id) && is_first(s, k) {
                ClipGroup { id: s[k].id, group: g }
            } else {
                s[k]
            },
    )
}

/// The ids of the clips in group `g`, in clip order.
pub open spec fn spec_members(s: Seq<ClipGroup>, g: u64) -> Seq<u64>
    decreases s.len(),
{
    if s.len() == 0 {
        Seq::empty()
    } else {
        let rest = spec_members(s.drop_last(), g);
        if s.last().group == Some(g) {
            rest.push(s.last().id)
        } else {
            rest
        }
    }
}

proof fn lemma_members_contains(s: Seq<ClipGroup>, g: u64, x: u64)
    ensures
        spec_members(s, g).contains(x) <==> exists|k: int|
            0 <= k < s.len() && #[trigger] s[k].id == x && s[k].group == Some(g),
    decreases s.len(),
{
    if s.len() > 0 {
        let p = s.drop_last();
        lemma_members_contains(p, g, x);
        let rest = spec_members(p, g);
        if spec_members(s, g).contains(x) {
            if s.last().group == Some(g) && s.last().id == x {
                assert(s[s.len() - 1].id == x);
            } else {
                if s.last().group == Some(g) {
                    let i = choose|i: int| 0 <= i < rest.push(s.last().id).len()
                        && rest.push(s.last().id)[i] == x;
                    assert(i < rest.len());
                    assert(rest[i] == x);
                }
                assert(rest.contains(x));
                let k = choose|k: int| 0 <= k < p.len() && #[trigger] p[k].id == x && p[k].group == Some(g);
                assert(s[k] == p[k]);
            }
        }
        if exists|k: int| 0 <= k < s.len() && #[trigger] s[k].id == x && s[k].group == Some(g) {
            let k = choose|k: int| 0 <= k < s.len() && #[trigger] s[k].id == x && s[k].group == Some(g);
            if k == s.len() - 1 {
                assert(spec_members(s, g) == rest.push(x));
                assert(rest.push(x)[rest.len() as int] == x);
            } else {
                assert(p[k] == s[k]);
                assert(rest.contains(x));
                let i = choose|i: int| 0 <= i < rest.len() && rest[i] == x;
                if s.last().group == Some(g) {
                    assert(rest.push(s.last().id)[i] == x);
                }
            }
        }
    }
}

proof fn lemma_first_exists(s: Seq<ClipGroup>, x: u64, k: int)
    requires
        0 <= k < s.len(),
        s[k].id == x,
    ensures
        exists|f: int| 0 <= f < s.len() && #[trigger] s[f].id == x && is_first(s, f),
    decreases k,
{
    if is_first(s, k) {
        assert(s[k].id == x && is_first(s, k));
    } else {
        let j = choose|j: int| 0 <= j < k && #[trigger] s[j].id == s[k].id;
        lemma_first_exists(s, x, j);
    }
}

/// The ids of all clips in group `group_id`, in track order.
pub fn group_members(clips: &Vec<ClipGroup>, group_id: u64) -> (r: Vec<u64>)
    ensures
        r@ == spec_members(clips@, group_id),
{
    let mut r: Vec<u64> = Vec::new();
    let mut i: usize = 0;
    while i < clips.len()
        invariant
            i <= clips.len(),
            r@ == spec_members(clips@.subrange(0, i as int), group_id),
        decreases clips.len() - i,
    {
        let c = clips[i];
        assert(clips@.subrange(0, i as int + 1).drop_last() =~= clips@.subrange(0, i as int));
        match c.group {
            Some(h) => {
                if h == group_id {
                    r.push(c.id);
                }
            },
            None => {},
        }
        i = i + 1;
    }
    assert(clips@.subrange(0, clips.len() as int) =~= clips@);
    r
}

/// Index of the first clip with id `id`, if any.
fn find_clip(clips: &Vec<ClipGroup>, id: u64) -> (r: Option<usize>)
    ensures
        match r {
            Some(k) => k < clips.len() && clips@[k as int].id == id && is_first(clips@, k as int),
            None => !has_clip(clips@, id),
        },
{
    let mut k: usize = 0;
    while k < clips.len()
        invariant
            k <= clips.len(),
            forall|j: int| 0 <= j < k ==> #[trigger] clips@[j].id != id,
        decreases clips.len() - k,
    {
        if clips[k].id == id {
            return Some(k);
        }
        k = k + 1;
    }
    None
}

/// Gives the first clip with each id in `ids` the group `g`.
fn regroup(clips: &mut Vec<ClipGroup>, ids: &[u64], g: Option<u64>)
    ensures
        final(clips)@ == spec_regroup(old(clips)@, ids@, g),
{
    let ghost s0 = clips@;
    let mut i: usize = 0;
    assert(clips@ =~= spec_regroup(s0, ids@.subrange(0, 0), g));
    while i < ids.len()
        invariant
            i <= ids.len(),
            clips@.len() == s0.len(),
            clips@ == spec_regroup(s0, ids@.subrange(0, i as int), g),
            forall|k: int| 0 <= k < s0.len() ==> #[trigger] clips@[k].id == s0[k].id,
        decreases ids.len() - i,
    {
        let id = ids[i];
        let ghost before = clips@;
        let found = find_clip(clips, id);
        proof {
            assert forall|k: int| 0 <= k < s0.len() implies is_first(before, k) == is_first(s0, k) by {
                assert(before[k].id == s0[k].id);
                if is_first(before, k) {
                    assert forall|j: int| 0 <= j < k implies #[trigger] s0[j].id != s0[k].id by {
                        assert(before[j].id == s0[j].id);
                    }
                }
                if is_first(s0, k) {
                    assert forall|j: int| 0 <= j < k implies #[trigger] before[j].id != before[k].id by {
                        assert(before[j].id == s0[j].id);
                    }
                }
            }
        }
        match found {
            Some(k) => {
                clips.set(k, ClipGroup { id, group: g });
            },
            None => {},
        }
        proof {
            let pre = ids@.subrange(0, i as int);
            let post = ids@.subrange(0, i as int + 1);
            assert forall|x: u64| post.contains(x) <==> (pre.contains(x) || x == id) by {
                if post.contains(x) {
                    let j = choose|j: int| 0 <= j < post.len() && post[j] == x;
                    if j < i {
                        assert(pre[j] == x);
                    }
                }
                if pre.contains(x) {
                    let j = choose|j: int| 0 <= j < pre.len() && pre[j] == x;
                    assert(post[j] == x);
                }
                if x == id {
                    assert(post[i as int] == x);
                }
            }
            assert forall|k: int| 0 <= k < s0.len() implies #[trigger] clips@[k] == spec_regroup(
                s0,
                post,
                g,
            )[k] by {
                if s0[k].id == id && is_first(s0, k) {
                    match found {
                        Some(f) => {
                            if f != k {
                                if (f as int) < k {
                                    assert(s0[f as int].id == before[f as int].id);
                                } else {
                                    assert(before[f as int].id == s0[f as int].id);
                                    assert(is_first(before, f as int));
                                    assert(before[k].id == id);
                                }
                            }
                        },
                        None => {
                            assert(before[k].id == id);
                        },
                    }
                }
            }
            assert(clips@ =~= spec_regroup(s0, post, g));
        }
        i = i + 1;
    }
    assert(ids@.subrange(0, ids.len() as int) =~= ids@);
}

/// Puts the clips named in `ids` into a new group, whose id comes from
/// `gen`, and returns it. Ids that name no clip are passed over.
pub fn group_clips(clips: &mut Vec<ClipGroup>, ids: &[u64], gen: &mut IdGen) -> (g: u64)
    ensures
        g == old(gen).peek(),
        final(gen).peek() == (if old(gen).peek() == u64::MAX {
            0
        } else {
            (old(gen).peek() + 1) as u64
        }),
        final(clips)@ == spec_regroup(old(clips)@, ids@, Some(g)),
{
    let g = gen.next_id();
    regroup(clips, ids, Some(g));
    g
}

/// Takes the clips named in `ids` out of their groups.
pub fn ungroup_clips(clips: &mut Vec<ClipGroup>, ids: &[u64])
    ensures
        final(clips)@ == spec_regroup(old(clips)@, ids@, None),
{
    regroup(clips, ids, None);
}

/// Grouping under an id that no clip carried yet makes the group's members
/// exactly the named ids that are clips of the project.
pub proof fn lemma_group_members_after_grouping(s: Seq<ClipGroup>, ids: Seq<u64>, g: u64)
    requires
        forall|k: int| 0 <= k < s.len() ==> #[trigger] s[k].group != Some(g),
    ensures
        forall|x: u64|
            #[trigger] spec_members(spec_regroup(s, ids, Some(g)), g).contains(x) <==> (ids.contains(x)
                && has_clip(s, x)),
{
    let t = spec_regroup(s, ids, Some(g));
    assert forall|x: u64| #[trigger] spec_members(t, g).contains(x) <==> (ids.contains(x) && has_clip(s, x)) by {
        lemma_members_contains(t, g, x);
        if spec_members(t, g).contains(x) {
            let k = choose|k: int| 0 <= k < t.len() && #[trigger] t[k].id == x && t[k].group == Some(g);
            assert(s[k].id == x);
        }
        if ids.contains(x) && has_clip(s, x) {
            let k = choose|k: int| 0 <= k < s.len() && #[trigger] s[k].id == x;
            lemma_first_exists(s, x, k);
            let f = choose|f: int| 0 <= f < s.len() && #[trigger] s[f].id == x && is_first(s, f);
            assert(t[f].id == x && t[f].group == Some(g));
        }
    }
}

/// Ungrouping leaves none of the named clips in any group, where clip ids
/// are distinct; the other clips keep their groups.
pub proof fn lemma_ungroup_leaves_no_member(s: Seq<ClipGroup>, ids: Seq<u64>, h: u64)
    requires
        ids_distinct(s),
    ensures
        forall|x: u64| #[trigger] ids.contains(x) ==> !spec_members(spec_regroup(s, ids, None), h).contains(x),
        forall|x: u64|
            !ids.contains(x) ==> (#[trigger] spec_members(spec_regroup(s, ids, None), h).contains(x)
                <==> spec_members(s, h).contains(x)),
{
    let t = spec_regroup(s, ids, None);
    assert forall|k: int| 0 <= k < s.len() implies #[trigger] is_first(s, k) by {
        assert forall|j: int| 0 <= j < k implies #[trigger] s[j].id != s[k].id by {
            assert(s[j].id != s[k].id);
        }
    }
    assert forall|x: u64| #[trigger] ids.contains(x) implies !spec_members(t, h).contains(x) by {
        lemma_members_contains(t, h, x);
        if spec_members(t, h).contains(x) {
            let k = choose|k: int| 0 <= k < t.len() && #[trigger] t[k].id == x && t[k].group == Some(h);
            assert(is_first(s, k));
        }
    }
    assert forall|x: u64| !ids.contains(x) implies (#[trigger] spec_members(t, h).contains(x)
        <==> spec_members(s, h).contains(x)) by {
        lemma_members_contains(t, h, x);
        lemma_members_contains(s, h, x);
        if spec_members(s, h).contains(x) {
            let k = choose|k: int| 0 <= k < s.len() && #[trigger] s[k].id == x && s[k].group == Some(h);
            assert(t[k] == s[k]);
        }
        if spec_members(t, h).contains(x) {
            let k = choose|k: int| 0 <= k < t.len() && #[trigger] t[k].id == x && t[k].group == Some(h);
            assert(t[k] == s[k]);
        }
    }
}

} // verus!
