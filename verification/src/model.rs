//! Mathematical model of the duplicate index.
//!
//! The executable types in `index` are viewed as the ghost types here; every
//! operation of the index has a spec-level counterpart (`ingest_spec`,
//! `toggle_spec`, `remove_spec`, ...) that its `ensures` refers to, and the
//! general laws in `laws` are stated and proved over these.

use vstd::prelude::*;

verus! {

/// Grouping identity of a file: (base name, byte size). Two files with the
/// same key count as duplicates of each other, regardless of content.
pub type KeyV = (Seq<char>, u64);

/// One file met by a scan.
#[verifier::ext_equal]
pub struct RecordV {
    pub name: Seq<char>,
    pub size: u64,
    pub path: Seq<char>,
}

/// One entry of a duplicate group: a path and its deletion mark.
#[verifier::ext_equal]
pub struct MemberV {
    pub path: Seq<char>,
    pub marked: bool,
}

/// A duplicate group: the shared key and the member list, in scan order.
#[verifier::ext_equal]
pub struct GroupV {
    pub key: KeyV,
    pub members: Seq<MemberV>,
}

/// The whole index: the size threshold, the first-occurrence table of the
/// current scan, and the duplicate groups.
#[verifier::ext_equal]
pub struct IndexV {
    pub min_size: u64,
    pub first_seen: Seq<(KeyV, Seq<char>)>,
    pub groups: Seq<GroupV>,
}

pub open spec fn record_key(r: RecordV) -> KeyV {
    (r.name, r.size)
}

pub open spec fn empty_index(min_size: u64) -> IndexV {
    IndexV { min_size, first_seen: Seq::empty(), groups: Seq::empty() }
}

/// First-occurrence table lookup: index of the entry for key `k`, or -1.
pub open spec fn fs_index_of(fs: Seq<(KeyV, Seq<char>)>, k: KeyV) -> int
    decreases fs.len(),
{
    if fs.len() == 0 {
        -1
    } else if fs[0].0 == k {
        0
    } else {
        let r = fs_index_of(fs.drop_first(), k);
        if r < 0 {
            -1
        } else {
            r + 1
        }
    }
}

pub open spec fn fs_has(fs: Seq<(KeyV, Seq<char>)>, k: KeyV) -> bool {
    fs_index_of(fs, k) >= 0
}

/// The path recorded for key `k` (meaningful only when `fs_has(fs, k)`).
pub open spec fn fs_path(fs: Seq<(KeyV, Seq<char>)>, k: KeyV) -> Seq<char> {
    fs[fs_index_of(fs, k)].1
}

/// Group lookup: index of the first group with key `k`, or -1.
pub open spec fn gs_index_of(gs: Seq<GroupV>, k: KeyV) -> int
    decreases gs.len(),
{
    if gs.len() == 0 {
        -1
    } else if gs[0].key == k {
        0
    } else {
        let r = gs_index_of(gs.drop_first(), k);
        if r < 0 {
            -1
        } else {
            r + 1
        }
    }
}

pub open spec fn gs_has(gs: Seq<GroupV>, k: KeyV) -> bool {
    gs_index_of(gs, k) >= 0
}

/// The member list of the group with key `k` (meaningful only when `gs_has`).
pub open spec fn gs_members(gs: Seq<GroupV>, k: KeyV) -> Seq<MemberV> {
    gs[gs_index_of(gs, k)].members
}

/// Member lookup inside one group: index of the first member with path `p`,
/// or -1.
pub open spec fn member_index_of(ms: Seq<MemberV>, p: Seq<char>) -> int
    decreases ms.len(),
{
    if ms.len() == 0 {
        -1
    } else if ms[0].path == p {
        0
    } else {
        let r = member_index_of(ms.drop_first(), p);
        if r < 0 {
            -1
        } else {
            r + 1
        }
    }
}

/// One step of a scan. A record below the threshold is discarded. Otherwise
/// its key is looked up: a first sighting only enters the first-occurrence
/// table; a second sighting forms a group of the first-seen path and the new
/// one; a later sighting appends to the existing group. New members are
/// unmarked.
pub open spec fn ingest_spec(s: IndexV, r: RecordV) -> IndexV {
    if r.size < s.min_size {
        s
    } else {
        let k = record_key(r);
        if !fs_has(s.first_seen, k) {
            IndexV { first_seen: s.first_seen.push((k, r.path)), ..s }
        } else if !gs_has(s.groups, k) {
            IndexV {
                groups: s.groups.push(
                    GroupV {
                        key: k,
                        members: seq![
                            MemberV { path: fs_path(s.first_seen, k), marked: false },
                            MemberV { path: r.path, marked: false },
                        ],
                    },
                ),
                ..s
            }
        } else {
            let i = gs_index_of(s.groups, k);
            IndexV {
                groups: s.groups.update(
                    i,
                    GroupV {
                        key: s.groups[i].key,
                        members: s.groups[i].members.push(MemberV { path: r.path, marked: false }),
                    },
                ),
                ..s
            }
        }
    }
}

/// A whole scan: ingest the records in order, starting from `s0`.
pub open spec fn scan_spec(s0: IndexV, rs: Seq<RecordV>) -> IndexV
    decreases rs.len(),
{
    if rs.len() == 0 {
        s0
    } else {
        ingest_spec(scan_spec(s0, rs.drop_last()), rs.last())
    }
}

/// The state after a completed scan over `rs` with threshold `m`: the scan
/// runs from a fresh index, and the first-occurrence table, transient
/// bookkeeping of one scan, is discarded at its end.
pub open spec fn scan_result(m: u64, rs: Seq<RecordV>) -> IndexV {
    IndexV { first_seen: Seq::empty(), ..scan_spec(empty_index(m), rs) }
}

/// The paths of the records in `rs` that carry key `k` and pass threshold
/// `m`, in order: the paths a scan over `rs` gathers for the group of `k`.
pub open spec fn elig_paths(rs: Seq<RecordV>, m: u64, k: KeyV) -> Seq<Seq<char>>
    decreases rs.len(),
{
    if rs.len() == 0 {
        Seq::empty()
    } else {
        let rest = elig_paths(rs.drop_last(), m, k);
        let r = rs.last();
        if r.size >= m && record_key(r) == k {
            rest.push(r.path)
        } else {
            rest
        }
    }
}

/// Flipping the deletion mark of the member with path `p` in the group with
/// key `k`; the identity where no such group or member exists.
pub open spec fn toggle_spec(s: IndexV, k: KeyV, p: Seq<char>) -> IndexV {
    let gi = gs_index_of(s.groups, k);
    if gi < 0 {
        s
    } else {
        let ms = s.groups[gi].members;
        let mi = member_index_of(ms, p);
        if mi < 0 {
            s
        } else {
            IndexV {
                groups: s.groups.update(
                    gi,
                    GroupV {
                        key: s.groups[gi].key,
                        members: ms.update(mi, MemberV { path: p, marked: !ms[mi].marked }),
                    },
                ),
                ..s
            }
        }
    }
}

/// Whether `toggle_spec` finds the member it is asked to flip.
pub open spec fn toggle_finds(s: IndexV, k: KeyV, p: Seq<char>) -> bool {
    gs_has(s.groups, k) && member_index_of(gs_members(s.groups, k), p) >= 0
}

/// The marked paths of one member list, in order.
pub open spec fn group_marked_paths(ms: Seq<MemberV>) -> Seq<Seq<char>>
    decreases ms.len(),
{
    if ms.len() == 0 {
        Seq::empty()
    } else {
        let rest = group_marked_paths(ms.drop_last());
        if ms.last().marked {
            rest.push(ms.last().path)
        } else {
            rest
        }
    }
}

/// All marked paths of the index, group by group, members in order: the
/// paths a removal pass will attempt to delete.
pub open spec fn marked_paths_spec(gs: Seq<GroupV>) -> Seq<Seq<char>>
    decreases gs.len(),
{
    if gs.len() == 0 {
        Seq::empty()
    } else {
        marked_paths_spec(gs.drop_last()) + group_marked_paths(gs.last().members)
    }
}

/// A member survives a removal pass unless it was marked and its deletion
/// succeeded (its path is among `deleted`).
pub open spec fn keep_member(m: MemberV, deleted: Seq<Seq<char>>) -> bool {
    !(m.marked && deleted.contains(m.path))
}

/// The members of one group that survive a removal pass, in order, marks
/// untouched.
pub open spec fn prune_members(ms: Seq<MemberV>, deleted: Seq<Seq<char>>) -> Seq<MemberV>
    decreases ms.len(),
{
    if ms.len() == 0 {
        Seq::empty()
    } else {
        let rest = prune_members(ms.drop_last(), deleted);
        if keep_member(ms.last(), deleted) {
            rest.push(ms.last())
        } else {
            rest
        }
    }
}

/// The groups after a removal pass: each keeps its surviving members, and a
/// group that falls below two members is dropped entirely.
pub open spec fn prune_groups(gs: Seq<GroupV>, deleted: Seq<Seq<char>>) -> Seq<GroupV>
    decreases gs.len(),
{
    if gs.len() == 0 {
        Seq::empty()
    } else {
        let rest = prune_groups(gs.drop_last(), deleted);
        let g = GroupV { key: gs.last().key, members: prune_members(gs.last().members, deleted) };
        if g.members.len() >= 2 {
            rest.push(g)
        } else {
            rest
        }
    }
}

/// The index after a removal pass, given which deletions succeeded. The
/// threshold and the first-occurrence table are untouched.
pub open spec fn remove_spec(s: IndexV, deleted: Seq<Seq<char>>) -> IndexV {
    IndexV { groups: prune_groups(s.groups, deleted), ..s }
}

/// Well-formedness of an index: keys are unique in the first-occurrence
/// table and among the groups, and every group has at least two members.
pub open spec fn index_wf(s: IndexV) -> bool {
    &&& forall|i: int, j: int|
        0 <= i < j < s.first_seen.len() ==> (#[trigger] s.first_seen[i]).0 != (
        #[trigger] s.first_seen[j]).0
    &&& forall|i: int, j: int|
        0 <= i < j < s.groups.len() ==> (#[trigger] s.groups[i]).key != (#[trigger] s.groups[j]).key
    &&& forall|i: int| 0 <= i < s.groups.len() ==> (#[trigger] s.groups[i]).members.len() >= 2
}

/// What the first-occurrence lookup returns: a hit is in range, carries the
/// key, and is the first of its key; a miss means no entry carries the key.
pub proof fn lemma_fs_index_of(fs: Seq<(KeyV, Seq<char>)>, k: KeyV)
    ensures
        -1 <= fs_index_of(fs, k) < fs.len(),
        fs_index_of(fs, k) >= 0 ==> fs[fs_index_of(fs, k)].0 == k,
        forall|j: int| 0 <= j < fs.len() && (#[trigger] fs[j]).0 == k ==> fs_index_of(fs, k) >= 0,
        forall|j: int| 0 <= j < fs_index_of(fs, k) ==> (#[trigger] fs[j]).0 != k,
    decreases fs.len(),
{
    if fs.len() == 0 {
    } else if fs[0].0 == k {
    } else {
        let d = fs.drop_first();
        lemma_fs_index_of(d, k);
        assert forall|j: int| 0 <= j < fs.len() && (#[trigger] fs[j]).0 == k implies fs_index_of(
            fs,
            k,
        ) >= 0 by {
            if j > 0 {
                assert(d[j - 1] == fs[j]);
            }
        }
        assert forall|j: int| 0 <= j < fs_index_of(fs, k) implies (#[trigger] fs[j]).0 != k by {
            if j > 0 {
                assert(d[j - 1] == fs[j]);
            }
        }
    }
}

/// The lookup after a push at the end: an earlier hit stays; otherwise the
/// pushed entry decides.
pub proof fn lemma_fs_index_of_push(fs: Seq<(KeyV, Seq<char>)>, k: KeyV, e: (KeyV, Seq<char>))
    ensures
        fs_index_of(fs.push(e), k) == if fs_index_of(fs, k) >= 0 {
            fs_index_of(fs, k)
        } else if e.0 == k {
            fs.len() as int
        } else {
            -1
        },
    decreases fs.len(),
{
    if fs.len() == 0 {
        assert(fs.push(e)[0] == e);
        assert(fs.push(e).drop_first() =~= Seq::<(KeyV, Seq<char>)>::empty());
        assert(fs_index_of(Seq::<(KeyV, Seq<char>)>::empty(), k) == -1);
    } else {
        let d = fs.drop_first();
        assert(fs.push(e)[0] == fs[0]);
        assert(fs.push(e).drop_first() =~= d.push(e));
        lemma_fs_index_of_push(d, k, e);
        assert(fs_index_of(fs.push(e), k) == if fs.push(e)[0].0 == k {
            0
        } else {
            let r = fs_index_of(d.push(e), k);
            if r < 0 {
                -1int
            } else {
                r + 1
            }
        });
        assert(fs_index_of(fs, k) == if fs[0].0 == k {
            0
        } else {
            let r = fs_index_of(d, k);
            if r < 0 {
                -1int
            } else {
                r + 1
            }
        });
    }
}

/// What the group lookup returns, as `lemma_fs_index_of` for groups.
pub proof fn lemma_gs_index_of(gs: Seq<GroupV>, k: KeyV)
    ensures
        -1 <= gs_index_of(gs, k) < gs.len(),
        gs_index_of(gs, k) >= 0 ==> gs[gs_index_of(gs, k)].key == k,
        forall|j: int| 0 <= j < gs.len() && (#[trigger] gs[j]).key == k ==> gs_index_of(gs, k) >= 0,
        forall|j: int| 0 <= j < gs_index_of(gs, k) ==> (#[trigger] gs[j]).key != k,
    decreases gs.len(),
{
    if gs.len() == 0 {
    } else if gs[0].key == k {
    } else {
        let d = gs.drop_first();
        lemma_gs_index_of(d, k);
        assert forall|j: int| 0 <= j < gs.len() && (#[trigger] gs[j]).key == k implies gs_index_of(
            gs,
            k,
        ) >= 0 by {
            if j > 0 {
                assert(d[j - 1] == gs[j]);
            }
        }
        assert forall|j: int| 0 <= j < gs_index_of(gs, k) implies (#[trigger] gs[j]).key != k by {
            if j > 0 {
                assert(d[j - 1] == gs[j]);
            }
        }
    }
}

/// The group lookup after a push at the end.
pub proof fn lemma_gs_index_of_push(gs: Seq<GroupV>, k: KeyV, g: GroupV)
    ensures
        gs_index_of(gs.push(g), k) == if gs_index_of(gs, k) >= 0 {
            gs_index_of(gs, k)
        } else if g.key == k {
            gs.len() as int
        } else {
            -1
        },
    decreases gs.len(),
{
    if gs.len() == 0 {
        assert(gs.push(g)[0] == g);
        assert(gs.push(g).drop_first() =~= Seq::<GroupV>::empty());
        assert(gs_index_of(Seq::<GroupV>::empty(), k) == -1);
    } else {
        let d = gs.drop_first();
        assert(gs.push(g)[0] == gs[0]);
        assert(gs.push(g).drop_first() =~= d.push(g));
        lemma_gs_index_of_push(d, k, g);
        assert(gs_index_of(gs.push(g), k) == if gs.push(g)[0].key == k {
            0
        } else {
            let r = gs_index_of(d.push(g), k);
            if r < 0 {
                -1int
            } else {
                r + 1
            }
        });
        assert(gs_index_of(gs, k) == if gs[0].key == k {
            0
        } else {
            let r = gs_index_of(d, k);
            if r < 0 {
                -1int
            } else {
                r + 1
            }
        });
    }
}

/// The group lookup is unchanged by an update that keeps the slot's key.
pub proof fn lemma_gs_index_of_update(gs: Seq<GroupV>, k: KeyV, i: int, g: GroupV)
    requires
        0 <= i < gs.len(),
        g.key == gs[i].key,
    ensures
        gs_index_of(gs.update(i, g), k) == gs_index_of(gs, k),
    decreases gs.len(),
{
    let gs2 = gs.update(i, g);
    if i == 0 {
        assert(gs2[0] == g);
        if gs[0].key != k {
            assert(gs2.drop_first() =~= gs.drop_first());
        }
    } else {
        assert(gs2[0] == gs[0]);
        if gs[0].key != k {
            assert(gs2.drop_first() =~= gs.drop_first().update(i - 1, g));
            lemma_gs_index_of_update(gs.drop_first(), k, i - 1, g);
        }
    }
}

/// What the member lookup returns, as `lemma_fs_index_of` for members.
pub proof fn lemma_member_index_of(ms: Seq<MemberV>, p: Seq<char>)
    ensures
        -1 <= member_index_of(ms, p) < ms.len(),
        member_index_of(ms, p) >= 0 ==> ms[member_index_of(ms, p)].path == p,
        forall|j: int|
            0 <= j < ms.len() && (#[trigger] ms[j]).path == p ==> member_index_of(ms, p) >= 0,
        forall|j: int| 0 <= j < member_index_of(ms, p) ==> (#[trigger] ms[j]).path != p,
    decreases ms.len(),
{
    if ms.len() == 0 {
    } else if ms[0].path == p {
    } else {
        let d = ms.drop_first();
        lemma_member_index_of(d, p);
        assert forall|j: int|
            0 <= j < ms.len() && (#[trigger] ms[j]).path == p implies member_index_of(ms, p)
            >= 0 by {
            if j > 0 {
                assert(d[j - 1] == ms[j]);
            }
        }
        assert forall|j: int|
            0 <= j < member_index_of(ms, p) implies (#[trigger] ms[j]).path != p by {
            if j > 0 {
                assert(d[j - 1] == ms[j]);
            }
        }
    }
}

/// Ingesting preserves well-formedness.
pub proof fn lemma_ingest_wf(s: IndexV, r: RecordV)
    requires
        index_wf(s),
    ensures
        index_wf(ingest_spec(s, r)),
{
    if r.size < s.min_size {
    } else {
        let k = record_key(r);
        lemma_fs_index_of(s.first_seen, k);
        lemma_gs_index_of(s.groups, k);
        if !fs_has(s.first_seen, k) {
            let fs2 = s.first_seen.push((k, r.path));
            assert forall|i: int, j: int| 0 <= i < j < fs2.len() implies (#[trigger] fs2[i]).0 != (
            #[trigger] fs2[j]).0 by {
                if j < s.first_seen.len() {
                    assert(fs2[i] == s.first_seen[i] && fs2[j] == s.first_seen[j]);
                } else {
                    assert(fs2[i] == s.first_seen[i] && fs2[j] == (k, r.path));
                }
            }
        } else if !gs_has(s.groups, k) {
            let s2 = ingest_spec(s, r);
            assert forall|i: int, j: int| 0 <= i < j < s2.groups.len() implies (
            #[trigger] s2.groups[i]).key != (#[trigger] s2.groups[j]).key by {
                if j < s.groups.len() {
                    assert(s2.groups[i] == s.groups[i] && s2.groups[j] == s.groups[j]);
                } else {
                    assert(s2.groups[i] == s.groups[i]);
                }
            }
            assert forall|i: int| 0 <= i < s2.groups.len() implies (
            #[trigger] s2.groups[i]).members.len() >= 2 by {
                if i < s.groups.len() {
                    assert(s2.groups[i] == s.groups[i]);
                }
            }
        } else {
            let i0 = gs_index_of(s.groups, k);
            let s2 = ingest_spec(s, r);
            assert(s2.groups.len() == s.groups.len());
            assert forall|i: int, j: int| 0 <= i < j < s2.groups.len() implies (
            #[trigger] s2.groups[i]).key != (#[trigger] s2.groups[j]).key by {
                assert(s2.groups[i].key == s.groups[i].key);
                assert(s2.groups[j].key == s.groups[j].key);
            }
            assert forall|i: int| 0 <= i < s2.groups.len() implies (
            #[trigger] s2.groups[i]).members.len() >= 2 by {
                if i != i0 {
                    assert(s2.groups[i] == s.groups[i]);
                }
            }
        }
    }
}

/// Toggling a mark preserves well-formedness.
pub proof fn lemma_toggle_wf(s: IndexV, k: KeyV, p: Seq<char>)
    requires
        index_wf(s),
    ensures
        index_wf(toggle_spec(s, k, p)),
{
    let gi = gs_index_of(s.groups, k);
    lemma_gs_index_of(s.groups, k);
    if gi >= 0 {
        let ms = s.groups[gi].members;
        let mi = member_index_of(ms, p);
        lemma_member_index_of(ms, p);
        if mi >= 0 {
            let s2 = toggle_spec(s, k, p);
            assert forall|i: int, j: int| 0 <= i < j < s2.groups.len() implies (
            #[trigger] s2.groups[i]).key != (#[trigger] s2.groups[j]).key by {
                assert(s2.groups[i].key == s.groups[i].key);
                assert(s2.groups[j].key == s.groups[j].key);
            }
            assert forall|i: int| 0 <= i < s2.groups.len() implies (
            #[trigger] s2.groups[i]).members.len() >= 2 by {
                if i != gi {
                    assert(s2.groups[i] == s.groups[i]);
                }
            }
        }
    }
}

/// Every group of a pruned group list has at least two members, and every
/// one of its keys stands in the unpruned list.
pub proof fn lemma_prune_groups_shape(gs: Seq<GroupV>, deleted: Seq<Seq<char>>)
    ensures
        forall|i: int|
            0 <= i < prune_groups(gs, deleted).len() ==> (#[trigger] prune_groups(gs, deleted)[i]).members.len()
                >= 2,
        forall|i: int|
            0 <= i < prune_groups(gs, deleted).len() ==> exists|j: int|
                0 <= j < gs.len() && (#[trigger] prune_groups(gs, deleted)[i]).key == (
                #[trigger] gs[j]).key,
    decreases gs.len(),
{
    if gs.len() == 0 {
    } else {
        lemma_prune_groups_shape(gs.drop_last(), deleted);
        let rest = prune_groups(gs.drop_last(), deleted);
        assert forall|i: int| 0 <= i < prune_groups(gs, deleted).len() implies exists|j: int|
            0 <= j < gs.len() && (#[trigger] prune_groups(gs, deleted)[i]).key == (
            #[trigger] gs[j]).key by {
            if i < rest.len() {
                let j0 = choose|j: int|
                    0 <= j < gs.drop_last().len() && rest[i].key == gs.drop_last()[j].key;
                assert(gs.drop_last()[j0] == gs[j0]);
                assert(0 <= j0 < gs.len() && prune_groups(gs, deleted)[i].key == gs[j0].key);
            } else {
                assert(prune_groups(gs, deleted)[i].key == gs[gs.len() - 1].key);
            }
        }
    }
}

/// A removal pass preserves well-formedness.
pub proof fn lemma_remove_wf(s: IndexV, deleted: Seq<Seq<char>>)
    requires
        index_wf(s),
    ensures
        index_wf(remove_spec(s, deleted)),
{
    lemma_prune_groups_unique(s.groups, deleted);
    lemma_prune_groups_shape(s.groups, deleted);
}

/// Pruning keeps group keys unique when they were unique.
pub proof fn lemma_prune_groups_unique(gs: Seq<GroupV>, deleted: Seq<Seq<char>>)
    requires
        forall|i: int, j: int|
            0 <= i < j < gs.len() ==> (#[trigger] gs[i]).key != (#[trigger] gs[j]).key,
    ensures
        forall|i: int, j: int|
            0 <= i < j < prune_groups(gs, deleted).len() ==> (
            #[trigger] prune_groups(gs, deleted)[i]).key != (
            #[trigger] prune_groups(gs, deleted)[j]).key,
    decreases gs.len(),
{
    if gs.len() == 0 {
    } else {
        let pre = gs.drop_last();
        assert(forall|i: int| 0 <= i < pre.len() ==> #[trigger] pre[i] == gs[i]);
        lemma_prune_groups_unique(pre, deleted);
        lemma_prune_groups_shape(pre, deleted);
        let rest = prune_groups(pre, deleted);
        let whole = prune_groups(gs, deleted);
        assert forall|i: int, j: int| 0 <= i < j < whole.len() implies (#[trigger] whole[i]).key
            != (#[trigger] whole[j]).key by {
            if j < rest.len() {
                assert(whole[i] == rest[i] && whole[j] == rest[j]);
            } else if whole.len() > rest.len() {
                assert(whole[j].key == gs[gs.len() - 1].key);
                assert(whole[i] == rest[i]);
                let j0 = choose|j0: int| 0 <= j0 < pre.len() && rest[i].key == pre[j0].key;
                assert(gs[j0].key != gs[gs.len() - 1].key);
            }
        }
    }
}

} // verus!
