//! General laws of the duplicate index, stated over the model and proved
//! once and for all. The executable operations in `index` tie themselves to
//! the model through their `ensures`, so these laws speak about every state
//! an index can reach.

use vstd::prelude::*;

verus! {

use crate::model::IndexV;
use crate::model::KeyV;
use crate::model::MemberV;
use crate::model::GroupV;
use crate::model::RecordV;
use crate::model::empty_index;
use crate::model::fs_index_of;
use crate::model::fs_has;
use crate::model::fs_path;
use crate::model::gs_index_of;
use crate::model::gs_has;
use crate::model::gs_members;
use crate::model::ingest_spec;
use crate::model::scan_spec;
use crate::model::scan_result;
use crate::model::record_key;
use crate::model::elig_paths;
use crate::model::group_marked_paths;
use crate::model::marked_paths_spec;
use crate::model::prune_members;
use crate::model::prune_groups;
use crate::model::remove_spec;
use crate::model::toggle_spec;
use crate::model::index_wf;
use crate::model::lemma_toggle_wf;
use crate::model::lemma_fs_index_of;
use crate::model::lemma_fs_index_of_push;
use crate::model::lemma_gs_index_of;
use crate::model::lemma_gs_index_of_push;
use crate::model::lemma_gs_index_of_update;
use crate::model::lemma_remove_wf;
use crate::model::lemma_prune_groups_shape;

/// A record below the size threshold leaves the index exactly as it was: it
/// neither produces nor extends any group, nor a first-occurrence entry.
pub proof fn lemma_below_threshold_ignored(s: IndexV, r: RecordV)
    requires
        r.size < s.min_size,
    ensures
        ingest_spec(s, r) == s,
{
}

/// A scan of no records yields a fresh index: no groups survive from any
/// earlier state. Together with the `search_duplicate_files` contract, whose
/// result depends on nothing of the old state but the threshold, a re-scan
/// never merges with a previous scan's groups.
pub proof fn lemma_empty_scan_is_fresh(m: u64)
    ensures
        scan_result(m, Seq::<RecordV>::empty()) == empty_index(m),
{
    assert(scan_result(m, Seq::<RecordV>::empty()) =~~= empty_index(m));
}

/// After a removal pass, every surviving group still has at least two
/// members: none is left with zero or one.
pub proof fn lemma_surviving_groups_have_two(s: IndexV, deleted: Seq<Seq<char>>)
    ensures
        forall|i: int|
            0 <= i < remove_spec(s, deleted).groups.len() ==> (#[trigger] remove_spec(
                s,
                deleted,
            ).groups[i]).members.len() >= 2,
{
    lemma_prune_groups_shape(s.groups, deleted);
}

/// What one scan builds, key by key: a key has a first-occurrence entry iff
/// at least one eligible record (at or above the threshold) carries it, and
/// the entry holds the first such path; a key has a group iff at least two
/// eligible records carry it — and then the group holds exactly the eligible
/// paths, in scan order, all unmarked.
pub proof fn lemma_scan_groups_exact(rs: Seq<RecordV>, m: u64, k: KeyV)
    ensures
        scan_spec(empty_index(m), rs).min_size == m,
        fs_has(scan_spec(empty_index(m), rs).first_seen, k) <==> elig_paths(rs, m, k).len() >= 1,
        elig_paths(rs, m, k).len() >= 1 ==> fs_path(scan_spec(empty_index(m), rs).first_seen, k)
            == elig_paths(rs, m, k)[0],
        gs_has(scan_spec(empty_index(m), rs).groups, k) <==> elig_paths(rs, m, k).len() >= 2,
        elig_paths(rs, m, k).len() >= 2 ==> gs_members(scan_spec(empty_index(m), rs).groups, k)
            == elig_paths(rs, m, k).map_values(|p: Seq<char>| MemberV { path: p, marked: false }),
    decreases rs.len(),
{
    let s = scan_spec(empty_index(m), rs);
    let ps = elig_paths(rs, m, k);
    if rs.len() == 0 {
        assert(fs_index_of(s.first_seen, k) == -1);
        assert(gs_index_of(s.groups, k) == -1);
    } else {
        let pre = rs.drop_last();
        let r = rs.last();
        lemma_scan_groups_exact(pre, m, k);
        let s1 = scan_spec(empty_index(m), pre);
        let ps1 = elig_paths(pre, m, k);
        assert(s == ingest_spec(s1, r));
        if r.size < m {
            assert(s == s1 && ps == ps1);
        } else {
            let rk = record_key(r);
            lemma_fs_index_of(s1.first_seen, rk);
            lemma_gs_index_of(s1.groups, rk);
            lemma_fs_index_of(s1.first_seen, k);
            lemma_gs_index_of(s1.groups, k);
            if rk == k {
                assert(ps == ps1.push(r.path));
                if !fs_has(s1.first_seen, k) {
                    assert(ps1.len() == 0);
                    assert(ps.len() == 1);
                    lemma_fs_index_of_push(s1.first_seen, k, (k, r.path));
                    assert(s.first_seen[s1.first_seen.len() as int] == (k, r.path));
                    assert(fs_path(s.first_seen, k) == r.path);
                    assert(ps[0] == r.path);
                    assert(s.groups == s1.groups);
                } else if !gs_has(s1.groups, k) {
                    assert(ps1.len() == 1);
                    assert(ps.len() == 2);
                    let g = GroupV {
                        key: k,
                        members: seq![
                            MemberV { path: fs_path(s1.first_seen, k), marked: false },
                            MemberV { path: r.path, marked: false },
                        ],
                    };
                    lemma_gs_index_of_push(s1.groups, k, g);
                    assert(gs_index_of(s.groups, k) == s1.groups.len());
                    assert(s.groups[s1.groups.len() as int] == g);
                    assert(gs_members(s.groups, k) == g.members);
                    assert(g.members =~= ps.map_values(
                        |p: Seq<char>| MemberV { path: p, marked: false },
                    ));
                    assert(s.first_seen == s1.first_seen);
                    assert(ps[0] == ps1[0]);
                } else {
                    assert(ps1.len() >= 2);
                    let gi = gs_index_of(s1.groups, k);
                    let gnew = GroupV {
                        key: s1.groups[gi].key,
                        members: s1.groups[gi].members.push(MemberV { path: r.path, marked: false }),
                    };
                    lemma_gs_index_of_update(s1.groups, k, gi, gnew);
                    assert(gs_index_of(s.groups, k) == gi);
                    assert(s.groups[gi] == gnew);
                    assert(gs_members(s.groups, k) == gnew.members);
                    assert(gnew.members =~= ps.map_values(
                        |p: Seq<char>| MemberV { path: p, marked: false },
                    ));
                    assert(s.first_seen == s1.first_seen);
                    assert(ps[0] == ps1[0]);
                }
            } else {
                assert(ps == ps1);
                if !fs_has(s1.first_seen, rk) {
                    lemma_fs_index_of_push(s1.first_seen, k, (rk, r.path));
                    assert(fs_index_of(s.first_seen, k) == fs_index_of(s1.first_seen, k));
                    if fs_has(s1.first_seen, k) {
                        assert(s.first_seen[fs_index_of(s1.first_seen, k)] == s1.first_seen[fs_index_of(
                            s1.first_seen,
                            k,
                        )]);
                    }
                    assert(s.groups == s1.groups);
                } else if !gs_has(s1.groups, rk) {
                    let g = GroupV {
                        key: rk,
                        members: seq![
                            MemberV { path: fs_path(s1.first_seen, rk), marked: false },
                            MemberV { path: r.path, marked: false },
                        ],
                    };
                    lemma_gs_index_of_push(s1.groups, k, g);
                    assert(gs_index_of(s.groups, k) == gs_index_of(s1.groups, k));
                    if gs_has(s1.groups, k) {
                        assert(s.groups[gs_index_of(s1.groups, k)] == s1.groups[gs_index_of(
                            s1.groups,
                            k,
                        )]);
                    }
                    assert(s.first_seen == s1.first_seen);
                } else {
                    let gi = gs_index_of(s1.groups, rk);
                    let gnew = GroupV {
                        key: s1.groups[gi].key,
                        members: s1.groups[gi].members.push(MemberV { path: r.path, marked: false }),
                    };
                    lemma_gs_index_of_update(s1.groups, k, gi, gnew);
                    assert(gs_index_of(s.groups, k) == gs_index_of(s1.groups, k));
                    if gs_has(s1.groups, k) {
                        let ik = gs_index_of(s1.groups, k);
                        assert(s1.groups[ik].key == k);
                        assert(s1.groups[gi].key == rk);
                        assert(ik != gi);
                        assert(s.groups[ik] == s1.groups[ik]);
                    }
                    assert(s.first_seen == s1.first_seen);
                }
            }
        }
    }
}

/// A group exists for a key after a scan iff at least two of the scanned
/// records at or above the threshold share that key.
pub proof fn lemma_group_iff_two_records(rs: Seq<RecordV>, m: u64, k: KeyV)
    ensures
        gs_has(scan_result(m, rs).groups, k) <==> elig_paths(rs, m, k).len() >= 2,
{
    lemma_scan_groups_exact(rs, m, k);
}

/// No member of `gs` is marked for deletion.
pub open spec fn no_marks(gs: Seq<GroupV>) -> bool {
    forall|i: int, j: int|
        0 <= i < gs.len() && 0 <= j < (#[trigger] gs[i]).members.len() ==> !(
        #[trigger] gs[i].members[j]).marked
}

/// With nothing marked, a member list survives a removal pass unchanged.
proof fn lemma_prune_members_no_marks(ms: Seq<MemberV>, deleted: Seq<Seq<char>>)
    requires
        forall|j: int| 0 <= j < ms.len() ==> !(#[trigger] ms[j]).marked,
    ensures
        prune_members(ms, deleted) == ms,
    decreases ms.len(),
{
    if ms.len() == 0 {
        assert(prune_members(ms, deleted) =~= ms);
    } else {
        let pre = ms.drop_last();
        assert(forall|j: int| 0 <= j < pre.len() ==> #[trigger] pre[j] == ms[j]);
        lemma_prune_members_no_marks(pre, deleted);
        assert(prune_members(ms, deleted) == pre.push(ms.last()));
        assert(pre.push(ms.last()) =~= ms);
    }
}

/// With nothing marked, a removal pass is a no-op: no error, no state
/// change. In particular, running `remove_marked` a second time, when the
/// first pass deleted everything that was marked, changes nothing.
pub proof fn lemma_remove_with_no_marks_is_noop(s: IndexV, deleted: Seq<Seq<char>>)
    requires
        index_wf(s),
        no_marks(s.groups),
    ensures
        remove_spec(s, deleted) == s,
{
    lemma_prune_groups_no_marks(s.groups, deleted);
    assert(remove_spec(s, deleted) =~~= s);
}

proof fn lemma_prune_groups_no_marks(gs: Seq<GroupV>, deleted: Seq<Seq<char>>)
    requires
        no_marks(gs),
        forall|i: int| 0 <= i < gs.len() ==> (#[trigger] gs[i]).members.len() >= 2,
    ensures
        prune_groups(gs, deleted) == gs,
    decreases gs.len(),
{
    if gs.len() == 0 {
        assert(prune_groups(gs, deleted) =~= gs);
    } else {
        let pre = gs.drop_last();
        assert(forall|i: int| 0 <= i < pre.len() ==> #[trigger] pre[i] == gs[i]);
        lemma_prune_groups_no_marks(pre, deleted);
        let last = gs.last();
        assert(gs[gs.len() - 1] == last);
        assert(forall|j: int| 0 <= j < last.members.len() ==> !(#[trigger] last.members[j]).marked);
        lemma_prune_members_no_marks(last.members, deleted);
        let g = GroupV { key: last.key, members: prune_members(last.members, deleted) };
        assert(g =~= last);
        assert(prune_groups(gs, deleted) == pre.push(last));
        assert(pre.push(last) =~= gs);
    }
}

/// With nothing marked, a removal pass has nothing to attempt: the list of
/// paths handed out for deletion is empty.
pub proof fn lemma_no_marks_nothing_to_delete(gs: Seq<GroupV>)
    requires
        no_marks(gs),
    ensures
        marked_paths_spec(gs) == Seq::<Seq<char>>::empty(),
    decreases gs.len(),
{
    if gs.len() == 0 {
        assert(marked_paths_spec(gs) =~= Seq::<Seq<char>>::empty());
    } else {
        let pre = gs.drop_last();
        assert(forall|i: int| 0 <= i < pre.len() ==> #[trigger] pre[i] == gs[i]);
        lemma_no_marks_nothing_to_delete(pre);
        let last = gs.last();
        assert(gs[gs.len() - 1] == last);
        lemma_group_marked_paths_no_marks(last.members);
        assert(marked_paths_spec(gs) =~= Seq::<Seq<char>>::empty());
    }
}

/// The unmarked members of a list, in order: what a removal pass in which
/// every deletion succeeds leaves of a group.
pub open spec fn unmarked_members(ms: Seq<MemberV>) -> Seq<MemberV>
    decreases ms.len(),
{
    if ms.len() == 0 {
        Seq::empty()
    } else {
        let rest = unmarked_members(ms.drop_last());
        if !ms.last().marked {
            rest.push(ms.last())
        } else {
            rest
        }
    }
}

/// Every flagged path of `gs` stands in `d`: the case of a removal pass in
/// which every attempted deletion succeeded.
pub open spec fn covers_marked(gs: Seq<GroupV>, d: Seq<Seq<char>>) -> bool {
    forall|i: int, j: int|
        0 <= i < gs.len() && 0 <= j < gs[i].members.len() && (
        #[trigger] gs[i].members[j]).marked ==> d.contains(gs[i].members[j].path)
}

proof fn lemma_prune_members_covered(ms: Seq<MemberV>, d: Seq<Seq<char>>)
    requires
        forall|j: int|
            0 <= j < ms.len() && (#[trigger] ms[j]).marked ==> d.contains(ms[j].path),
    ensures
        prune_members(ms, d) == unmarked_members(ms),
    decreases ms.len(),
{
    if ms.len() == 0 {
        assert(prune_members(ms, d) =~= unmarked_members(ms));
    } else {
        let pre = ms.drop_last();
        assert(forall|j: int| 0 <= j < pre.len() ==> #[trigger] pre[j] == ms[j]);
        assert(ms[ms.len() - 1] == ms.last());
        lemma_prune_members_covered(pre, d);
    }
}

proof fn lemma_unmarked_members_unmarked(ms: Seq<MemberV>)
    ensures
        forall|j: int| 0 <= j < unmarked_members(ms).len() ==> !(
        #[trigger] unmarked_members(ms)[j]).marked,
    decreases ms.len(),
{
    if ms.len() == 0 {
    } else {
        lemma_unmarked_members_unmarked(ms.drop_last());
        let rest = unmarked_members(ms.drop_last());
        assert forall|j: int| 0 <= j < unmarked_members(ms).len() implies !(
        #[trigger] unmarked_members(ms)[j]).marked by {
            if j < rest.len() {
                assert(unmarked_members(ms)[j] == rest[j]);
            }
        }
    }
}

/// Pruning with unique keys, exactly: each group keeps exactly its surviving
/// members under its key, a group with fewer than two of them loses its key,
/// and no key appears from nowhere.
pub proof fn lemma_prune_groups_exact(gs: Seq<GroupV>, d: Seq<Seq<char>>)
    requires
        forall|i: int, j: int|
            0 <= i < j < gs.len() ==> (#[trigger] gs[i]).key != (#[trigger] gs[j]).key,
    ensures
        forall|gi: int|
            0 <= gi < gs.len() ==> {
                let kept = prune_members((#[trigger] gs[gi]).members, d);
                &&& kept.len() >= 2 ==> gs_has(prune_groups(gs, d), gs[gi].key) && gs_members(
                    prune_groups(gs, d),
                    gs[gi].key,
                ) == kept
                &&& kept.len() < 2 ==> !gs_has(prune_groups(gs, d), gs[gi].key)
            },
        forall|k: KeyV| #[trigger] gs_has(prune_groups(gs, d), k) ==> gs_has(gs, k),
    decreases gs.len(),
{
    if gs.len() == 0 {
        assert forall|k: KeyV| #[trigger] gs_has(prune_groups(gs, d), k) implies gs_has(gs, k) by {
            lemma_gs_index_of(prune_groups(gs, d), k);
        }
    } else {
        let pre = gs.drop_last();
        assert(forall|i: int| 0 <= i < pre.len() ==> #[trigger] pre[i] == gs[i]);
        lemma_prune_groups_exact(pre, d);
        let last = gs.last();
        assert(gs[gs.len() - 1] == last);
        let res_pre = prune_groups(pre, d);
        let res = prune_groups(gs, d);
        let kept_last = prune_members(last.members, d);
        let gnew = GroupV { key: last.key, members: kept_last };

        // The key of the last group is new to `pre` and to `res_pre`.
        assert forall|j: int| 0 <= j < pre.len() implies (#[trigger] pre[j]).key != last.key by {
            assert(gs[j].key != gs[gs.len() - 1].key);
        }
        lemma_gs_index_of(pre, last.key);
        lemma_gs_index_of(res_pre, last.key);
        if gs_has(res_pre, last.key) {
            assert(gs_has(pre, last.key));
        }
        assert(!gs_has(res_pre, last.key));

        if kept_last.len() >= 2 {
            assert(res == res_pre.push(gnew));
            assert forall|gi: int| 0 <= gi < gs.len() implies {
                let kept = prune_members((#[trigger] gs[gi]).members, d);
                &&& kept.len() >= 2 ==> gs_has(res, gs[gi].key) && gs_members(res, gs[gi].key)
                    == kept
                &&& kept.len() < 2 ==> !gs_has(res, gs[gi].key)
            } by {
                let k = gs[gi].key;
                lemma_gs_index_of_push(res_pre, k, gnew);
                if gi < pre.len() {
                    assert(pre[gi] == gs[gi]);
                    assert(k != last.key);
                    let kept = prune_members(gs[gi].members, d);
                    if kept.len() >= 2 {
                        lemma_gs_index_of(res_pre, k);
                        assert(res[gs_index_of(res_pre, k)] == res_pre[gs_index_of(res_pre, k)]);
                    }
                } else {
                    assert(gs[gi] == last);
                    assert(gs_index_of(res, k) == res_pre.len());
                    assert(res[res_pre.len() as int] == gnew);
                }
            }
            assert forall|k: KeyV| #[trigger] gs_has(res, k) implies gs_has(gs, k) by {
                lemma_gs_index_of_push(res_pre, k, gnew);
                if gs_has(res_pre, k) {
                    assert(gs_has(pre, k));
                    lemma_gs_index_of(pre, k);
                    let j = gs_index_of(pre, k);
                    assert(gs[j].key == k);
                    lemma_gs_index_of(gs, k);
                } else {
                    assert(k == last.key);
                    assert(gs[gs.len() - 1].key == k);
                    lemma_gs_index_of(gs, k);
                }
            }
        } else {
            assert(res == res_pre);
            assert forall|gi: int| 0 <= gi < gs.len() implies {
                let kept = prune_members((#[trigger] gs[gi]).members, d);
                &&& kept.len() >= 2 ==> gs_has(res, gs[gi].key) && gs_members(res, gs[gi].key)
                    == kept
                &&& kept.len() < 2 ==> !gs_has(res, gs[gi].key)
            } by {
                if gi < pre.len() {
                    assert(pre[gi] == gs[gi]);
                } else {
                    assert(gs[gi] == last);
                    assert(!gs_has(res, last.key));
                }
            }
            assert forall|k: KeyV| #[trigger] gs_has(res, k) implies gs_has(gs, k) by {
                assert(gs_has(pre, k));
                lemma_gs_index_of(pre, k);
                let j = gs_index_of(pre, k);
                assert(gs[j].key == k);
                lemma_gs_index_of(gs, k);
            }
        }
    }
}

proof fn lemma_prune_groups_covered_no_marks(gs: Seq<GroupV>, d: Seq<Seq<char>>)
    requires
        covers_marked(gs, d),
    ensures
        no_marks(prune_groups(gs, d)),
    decreases gs.len(),
{
    if gs.len() == 0 {
    } else {
        let pre = gs.drop_last();
        assert(forall|i: int| 0 <= i < pre.len() ==> #[trigger] pre[i] == gs[i]);
        assert forall|i: int, j: int|
            0 <= i < pre.len() && 0 <= j < pre[i].members.len() && (
            #[trigger] pre[i].members[j]).marked implies d.contains(pre[i].members[j].path) by {
            assert(gs[i].members[j].marked);
        }
        lemma_prune_groups_covered_no_marks(pre, d);
        let last = gs.last();
        assert(gs[gs.len() - 1] == last);
        assert forall|j: int|
            0 <= j < last.members.len() && (#[trigger] last.members[j]).marked implies d.contains(
            last.members[j].path,
        ) by {
            assert(gs[gs.len() - 1].members[j].marked);
        }
        lemma_prune_members_covered(last.members, d);
        lemma_unmarked_members_unmarked(last.members);
        let res_pre = prune_groups(pre, d);
        let res = prune_groups(gs, d);
        if prune_members(last.members, d).len() >= 2 {
            assert forall|i: int, j: int|
                0 <= i < res.len() && 0 <= j < (#[trigger] res[i]).members.len() implies !(
            #[trigger] res[i].members[j]).marked by {
                if i < res_pre.len() {
                    assert(res[i] == res_pre[i]);
                } else {
                    assert(res[i].members == unmarked_members(last.members));
                }
            }
        }
    }
}

/// A removal pass in which every flagged path was successfully deleted
/// removes exactly the flagged members and no other: each group keeps
/// exactly its unmarked members, in order and with their flags; a group left
/// with fewer than two of them disappears; no group appears from nowhere;
/// and afterwards nothing is marked any more.
pub proof fn lemma_remove_marked_exact(s: IndexV, d: Seq<Seq<char>>)
    requires
        index_wf(s),
        covers_marked(s.groups, d),
    ensures
        forall|gi: int|
            0 <= gi < s.groups.len() ==> {
                let kept = unmarked_members((#[trigger] s.groups[gi]).members);
                &&& kept.len() >= 2 ==> gs_has(remove_spec(s, d).groups, s.groups[gi].key)
                    && gs_members(remove_spec(s, d).groups, s.groups[gi].key) == kept
                &&& kept.len() < 2 ==> !gs_has(remove_spec(s, d).groups, s.groups[gi].key)
            },
        forall|k: KeyV| #[trigger] gs_has(remove_spec(s, d).groups, k) ==> gs_has(s.groups, k),
        no_marks(remove_spec(s, d).groups),
{
    lemma_prune_groups_exact(s.groups, d);
    lemma_prune_groups_covered_no_marks(s.groups, d);
    assert forall|gi: int| 0 <= gi < s.groups.len() implies prune_members(
        (#[trigger] s.groups[gi]).members,
        d,
    ) == unmarked_members(s.groups[gi].members) by {
        assert forall|j: int|
            0 <= j < s.groups[gi].members.len() && (
            #[trigger] s.groups[gi].members[j]).marked implies d.contains(
            s.groups[gi].members[j].path,
        ) by {}
        lemma_prune_members_covered(s.groups[gi].members, d);
    }
}

/// Toggling a mark and then running a removal pass deletes exactly the
/// flagged paths and no other: what the pass attempts is exactly the marked
/// paths of the toggled state, and when all those deletions succeed, each
/// group keeps exactly its unmarked members (groups left below two members
/// disappear from the visible set).
pub proof fn lemma_toggle_then_remove_exact(s: IndexV, k: KeyV, p: Seq<char>, d: Seq<Seq<char>>)
    requires
        index_wf(s),
        covers_marked(toggle_spec(s, k, p).groups, d),
    ensures
        ({
            let st = toggle_spec(s, k, p);
            &&& forall|q: Seq<char>|
                #[trigger] marked_paths_spec(st.groups).contains(q) <==> exists|i: int, j: int|
                    0 <= i < st.groups.len() && 0 <= j < st.groups[i].members.len() && (
                    #[trigger] st.groups[i].members[j]).marked && st.groups[i].members[j].path == q
            &&& forall|gi: int|
                0 <= gi < st.groups.len() ==> {
                    let kept = unmarked_members((#[trigger] st.groups[gi]).members);
                    &&& kept.len() >= 2 ==> gs_has(remove_spec(st, d).groups, st.groups[gi].key)
                        && gs_members(remove_spec(st, d).groups, st.groups[gi].key) == kept
                    &&& kept.len() < 2 ==> !gs_has(remove_spec(st, d).groups, st.groups[gi].key)
                }
            &&& no_marks(remove_spec(st, d).groups)
        }),
{
    lemma_toggle_wf(s, k, p);
    lemma_marked_paths_exact(toggle_spec(s, k, p).groups);
    lemma_remove_marked_exact(toggle_spec(s, k, p), d);
}

/// Running a removal pass a second time, when the first one deleted
/// everything that was flagged and nothing was marked since, is a no-op:
/// nothing is attempted and the state does not change.
pub proof fn lemma_remove_marked_idempotent(s: IndexV, d: Seq<Seq<char>>, d2: Seq<Seq<char>>)
    requires
        index_wf(s),
        covers_marked(s.groups, d),
    ensures
        marked_paths_spec(remove_spec(s, d).groups) == Seq::<Seq<char>>::empty(),
        remove_spec(remove_spec(s, d), d2) == remove_spec(s, d),
{
    lemma_remove_marked_exact(s, d);
    lemma_remove_wf(s, d);
    lemma_no_marks_nothing_to_delete(remove_spec(s, d).groups);
    lemma_remove_with_no_marks_is_noop(remove_spec(s, d), d2);
}

proof fn lemma_group_marked_paths_exact(ms: Seq<MemberV>)
    ensures
        forall|p: Seq<char>|
            #[trigger] group_marked_paths(ms).contains(p) <==> exists|j: int|
                0 <= j < ms.len() && (#[trigger] ms[j]).marked && ms[j].path == p,
    decreases ms.len(),
{
    if ms.len() == 0 {
        assert(group_marked_paths(ms) =~= Seq::<Seq<char>>::empty());
    } else {
        let pre = ms.drop_last();
        assert(forall|j: int| 0 <= j < pre.len() ==> #[trigger] pre[j] == ms[j]);
        lemma_group_marked_paths_exact(pre);
        let last = ms.last();
        assert(ms[ms.len() - 1] == last);
        let rest = group_marked_paths(pre);
        let whole = group_marked_paths(ms);
        assert forall|p: Seq<char>| #[trigger] whole.contains(p) implies (exists|j: int|
            0 <= j < ms.len() && (#[trigger] ms[j]).marked && ms[j].path == p) by {
            let idx = choose|idx: int| 0 <= idx < whole.len() && whole[idx] == p;
            if idx < rest.len() {
                assert(rest[idx] == p);
                assert(rest.contains(p));
                let j = choose|j: int| 0 <= j < pre.len() && (#[trigger] pre[j]).marked && pre[j].path == p;
                assert(ms[j].marked && ms[j].path == p);
            } else {
                assert(last.marked && p == last.path);
                assert(ms[ms.len() - 1].marked && ms[ms.len() - 1].path == p);
            }
        }
        assert forall|p: Seq<char>| (exists|j: int|
            0 <= j < ms.len() && (#[trigger] ms[j]).marked && ms[j].path == p) implies #[trigger] whole.contains(
            p,
        ) by {
            let j = choose|j: int| 0 <= j < ms.len() && (#[trigger] ms[j]).marked && ms[j].path == p;
            if j < ms.len() - 1 {
                assert(pre[j].marked && pre[j].path == p);
                assert(rest.contains(p));
                let idx = choose|idx: int| 0 <= idx < rest.len() && rest[idx] == p;
                assert(whole[idx] == p);
            } else {
                assert(whole[rest.len() as int] == p);
            }
        }
    }
}

/// A path is handed out for deletion iff some member carrying it is marked:
/// a removal pass attempts to delete exactly the flagged paths and no other.
pub proof fn lemma_marked_paths_exact(gs: Seq<GroupV>)
    ensures
        forall|p: Seq<char>|
            #[trigger] marked_paths_spec(gs).contains(p) <==> exists|i: int, j: int|
                0 <= i < gs.len() && 0 <= j < gs[i].members.len() && (
                #[trigger] gs[i].members[j]).marked && gs[i].members[j].path == p,
    decreases gs.len(),
{
    if gs.len() == 0 {
        assert(marked_paths_spec(gs) =~= Seq::<Seq<char>>::empty());
    } else {
        let pre = gs.drop_last();
        assert(forall|i: int| 0 <= i < pre.len() ==> #[trigger] pre[i] == gs[i]);
        lemma_marked_paths_exact(pre);
        let last = gs.last();
        assert(gs[gs.len() - 1] == last);
        lemma_group_marked_paths_exact(last.members);
        let rest = marked_paths_spec(pre);
        let gm = group_marked_paths(last.members);
        let whole = marked_paths_spec(gs);
        assert(whole == rest + gm);
        assert forall|p: Seq<char>| #[trigger] whole.contains(p) implies (exists|i: int, j: int|
            0 <= i < gs.len() && 0 <= j < gs[i].members.len() && (
            #[trigger] gs[i].members[j]).marked && gs[i].members[j].path == p) by {
            let idx = choose|idx: int| 0 <= idx < whole.len() && whole[idx] == p;
            if idx < rest.len() {
                assert(rest[idx] == p);
                assert(rest.contains(p));
                let (i, j): (int, int) = choose|i: int, j: int|
                    0 <= i < pre.len() && 0 <= j < pre[i].members.len() && (
                    #[trigger] pre[i].members[j]).marked && pre[i].members[j].path == p;
                assert(gs[i].members[j].marked && gs[i].members[j].path == p);
            } else {
                assert(gm[idx - rest.len()] == p);
                assert(gm.contains(p));
                let j = choose|j: int|
                    0 <= j < last.members.len() && (#[trigger] last.members[j]).marked
                        && last.members[j].path == p;
                assert(gs[gs.len() - 1].members[j].marked && gs[gs.len() - 1].members[j].path == p);
            }
        }
        assert forall|p: Seq<char>| (exists|i: int, j: int|
            0 <= i < gs.len() && 0 <= j < gs[i].members.len() && (
            #[trigger] gs[i].members[j]).marked && gs[i].members[j].path == p) implies #[trigger] whole.contains(
            p,
        ) by {
            let (i, j): (int, int) = choose|i: int, j: int|
                0 <= i < gs.len() && 0 <= j < gs[i].members.len() && (
                #[trigger] gs[i].members[j]).marked && gs[i].members[j].path == p;
            if i < gs.len() - 1 {
                assert(pre[i].members[j].marked && pre[i].members[j].path == p);
                assert(rest.contains(p));
                let idx = choose|idx: int| 0 <= idx < rest.len() && rest[idx] == p;
                assert(whole[idx] == p);
            } else {
                assert(last.members[j].marked && last.members[j].path == p);
                assert(gm.contains(p));
                let idx = choose|idx: int| 0 <= idx < gm.len() && gm[idx] == p;
                assert(whole[rest.len() + idx] == p);
            }
        }
    }
}

proof fn lemma_group_marked_paths_no_marks(ms: Seq<MemberV>)
    requires
        forall|j: int| 0 <= j < ms.len() ==> !(#[trigger] ms[j]).marked,
    ensures
        group_marked_paths(ms) == Seq::<Seq<char>>::empty(),
    decreases ms.len(),
{
    if ms.len() == 0 {
        assert(group_marked_paths(ms) =~= Seq::<Seq<char>>::empty());
    } else {
        let pre = ms.drop_last();
        assert(forall|j: int| 0 <= j < pre.len() ==> #[trigger] pre[j] == ms[j]);
        lemma_group_marked_paths_no_marks(pre);
        assert(ms[ms.len() - 1] == ms.last());
    }
}

} // verus!
