//! The executable duplicate index.
//!
//! `MyApp` consumes the file records a scan produced, groups them by
//! (name, size), carries the per-member deletion marks, and prunes groups
//! after a removal pass. Directory traversal and the deletions themselves are
//! I/O and belong to the surrounding program: it walks the roots into a list
//! of `FileRecord`s, feeds them to `search_duplicate_files`, attempts to
//! delete the paths `marked_paths` hands out, and reports the successes back
//! to `remove_marked`.

use vstd::prelude::*;

verus! {

use crate::model::IndexV;
use crate::model::KeyV;
use crate::model::MemberV;
use crate::model::GroupV;
use crate::model::RecordV;
use crate::model::empty_index;
use crate::model::fs_index_of;
use crate::model::fs_path;
use crate::model::gs_index_of;
use crate::model::member_index_of;
use crate::model::ingest_spec;
use crate::model::scan_spec;
use crate::model::scan_result;
use crate::model::toggle_spec;
use crate::model::toggle_finds;
use crate::model::group_marked_paths;
use crate::model::marked_paths_spec;
use crate::model::prune_members;
use crate::model::prune_groups;
use crate::model::remove_spec;
use crate::model::index_wf;
use crate::model::lemma_fs_index_of;
use crate::model::lemma_gs_index_of;
use crate::model::lemma_member_index_of;
use crate::model::lemma_ingest_wf;
use crate::model::lemma_toggle_wf;
use crate::model::lemma_remove_wf;

/// One file met during a scan: base name, byte size, absolute path. The path
/// is only a locator; identity for duplicate grouping is (name, size).
pub struct FileRecord {
    pub name: String,
    pub size: u64,
    pub path: String,
}

impl View for FileRecord {
    type V = RecordV;

    open spec fn view(&self) -> RecordV {
        RecordV { name: self.name@, size: self.size, path: self.path@ }
    }
}

/// The grouping identity of a file: its base name and byte size.
pub struct FileKey {
    pub name: String,
    pub size: u64,
}

impl View for FileKey {
    type V = KeyV;

    open spec fn view(&self) -> KeyV {
        (self.name@, self.size)
    }
}

/// One member of a duplicate group: a path and its deletion mark.
pub struct Member {
    pub path: String,
    pub marked: bool,
}

impl View for Member {
    type V = MemberV;

    open spec fn view(&self) -> MemberV {
        MemberV { path: self.path@, marked: self.marked }
    }
}

/// A duplicate group: the shared key and its members, in scan order.
pub struct Group {
    pub key: FileKey,
    pub members: Vec<Member>,
}

impl View for Group {
    type V = GroupV;

    open spec fn view(&self) -> GroupV {
        GroupV { key: self.key@, members: members_view(self.members@) }
    }
}

pub open spec fn members_view(ms: Seq<Member>) -> Seq<MemberV> {
    ms.map_values(|m: Member| m@)
}

pub open spec fn groups_view(gs: Seq<Group>) -> Seq<GroupV> {
    gs.map_values(|g: Group| g@)
}

pub open spec fn entries_view(es: Seq<(FileKey, String)>) -> Seq<(KeyV, Seq<char>)> {
    es.map_values(|e: (FileKey, String)| (e.0@, e.1@))
}

pub open spec fn records_view(rs: Seq<FileRecord>) -> Seq<RecordV> {
    rs.map_values(|r: FileRecord| r@)
}

pub open spec fn paths_view(ps: Seq<String>) -> Seq<Seq<char>> {
    ps.map_values(|p: String| p@)
}

/// The duplicate index: the size threshold, the first-occurrence table of
/// the running scan, and the duplicate groups.
pub struct MyApp {
    min_size: u64,
    first_seen: Vec<(FileKey, String)>,
    groups: Vec<Group>,
}

impl View for MyApp {
    type V = IndexV;

    closed spec fn view(&self) -> IndexV {
        IndexV {
            min_size: self.min_size,
            first_seen: entries_view(self.first_seen@),
            groups: groups_view(self.groups@),
        }
    }
}

/// Membership of a path in a list of paths.
fn contains_path(ps: &Vec<String>, p: &String) -> (r: bool)
    ensures
        r == paths_view(ps@).contains(p@),
{
    let ghost pv = paths_view(ps@);
    let mut i: usize = 0;
    while i < ps.len()
        invariant
            i <= ps.len(),
            pv == paths_view(ps@),
            forall|j: int| 0 <= j < i ==> pv[j] != p@,
        decreases ps.len() - i,
    {
        if ps[i] == *p {
            assert(pv[i as int] == p@);
            return true;
        }
        i += 1;
    }
    assert(forall|j: int| 0 <= j < pv.len() ==> pv[j] != p@);
    false
}

/// Position of the first-occurrence entry for (name, size), if any.
fn find_first_seen(es: &Vec<(FileKey, String)>, name: &String, size: u64) -> (r: Option<usize>)
    ensures
        match r {
            Some(i) => fs_index_of(entries_view(es@), (name@, size)) == i as int,
            None => fs_index_of(entries_view(es@), (name@, size)) == -1,
        },
{
    let ghost ev = entries_view(es@);
    let ghost k: KeyV = (name@, size);
    proof {
        lemma_fs_index_of(ev, k);
    }
    let mut i: usize = 0;
    while i < es.len()
        invariant
            i <= es.len(),
            ev == entries_view(es@),
            k == (name@, size),
            forall|j: int| 0 <= j < i ==> (#[trigger] ev[j]).0 != k,
        decreases es.len() - i,
    {
        let e = &es[i];
        if e.0.size == size && e.0.name == *name {
            proof {
                assert(ev[i as int].0 == k);
                lemma_fs_index_of(ev, k);
            }
            return Some(i);
        }
        i += 1;
    }
    proof {
        lemma_fs_index_of(ev, k);
    }
    None
}

/// Position of the group for (name, size), if any.
fn find_group(gs: &Vec<Group>, name: &String, size: u64) -> (r: Option<usize>)
    ensures
        match r {
            Some(i) => gs_index_of(groups_view(gs@), (name@, size)) == i as int,
            None => gs_index_of(groups_view(gs@), (name@, size)) == -1,
        },
{
    let ghost gv = groups_view(gs@);
    let ghost k: KeyV = (name@, size);
    let mut i: usize = 0;
    while i < gs.len()
        invariant
            i <= gs.len(),
            gv == groups_view(gs@),
            k == (name@, size),
            forall|j: int| 0 <= j < i ==> (#[trigger] gv[j]).key != k,
        decreases gs.len() - i,
    {
        let g = &gs[i];
        if g.key.size == size && g.key.name == *name {
            proof {
                assert(gv[i as int].key == k);
                lemma_gs_index_of(gv, k);
            }
            return Some(i);
        }
        i += 1;
    }
    proof {
        lemma_gs_index_of(gv, k);
    }
    None
}

/// Position of the first member with this path, if any.
fn find_member(ms: &Vec<Member>, path: &String) -> (r: Option<usize>)
    ensures
        match r {
            Some(i) => member_index_of(members_view(ms@), path@) == i as int,
            None => member_index_of(members_view(ms@), path@) == -1,
        },
{
    let ghost mv = members_view(ms@);
    let mut i: usize = 0;
    while i < ms.len()
        invariant
            i <= ms.len(),
            mv == members_view(ms@),
            forall|j: int| 0 <= j < i ==> (#[trigger] mv[j]).path != path@,
        decreases ms.len() - i,
    {
        if ms[i].path == *path {
            proof {
                assert(mv[i as int].path == path@);
                lemma_member_index_of(mv, path@);
            }
            return Some(i);
        }
        i += 1;
    }
    proof {
        lemma_member_index_of(mv, path@);
    }
    None
}

impl MyApp {
    /// Well-formedness: unique keys, and every group holds at least two
    /// members. Established by `new` and preserved by every operation.
    pub open spec fn wf(&self) -> bool {
        index_wf(self@)
    }

    /// A fresh index with the given size threshold: no groups, no
    /// first-occurrence entries.
    pub fn new(min_size: u64) -> (r: Self)
        ensures
            r@ == empty_index(min_size),
            r.wf(),
    {
        let r = MyApp { min_size, first_seen: Vec::new(), groups: Vec::new() };
        proof {
            assert(r@ =~~= empty_index(min_size));
        }
        r
    }

    /// The configured threshold: records strictly smaller are ignored.
    pub fn min_size(&self) -> (r: u64)
        ensures
            r == self@.min_size,
    {
        self.min_size
    }

    /// Configure the threshold for the next scan; groups and first-occurrence
    /// entries are untouched.
    pub fn set_min_size(&mut self, min_size: u64)
        ensures
            final(self)@ == (IndexV { min_size, ..old(self)@ }),
            old(self).wf() ==> final(self).wf(),
    {
        self.min_size = min_size;
        proof {
            assert(self@ =~~= (IndexV { min_size, ..old(self)@ }));
        }
    }

    /// Clear all duplicate groups and the first-occurrence table, keeping the
    /// threshold: the start of every scan.
    pub fn reset(&mut self)
        ensures
            final(self)@ == empty_index(old(self)@.min_size),
            final(self).wf(),
    {
        self.first_seen = Vec::new();
        self.groups = Vec::new();
        proof {
            assert(self@ =~~= empty_index(old(self)@.min_size));
        }
    }

    /// The current duplicate groups, for display.
    pub fn groups(&self) -> (r: &Vec<Group>)
        ensures
            groups_view(r@) == self@.groups,
    {
        &self.groups
    }

    /// Consume one file record of the running scan, as `ingest_spec` says: a
    /// record below the threshold is dropped; a first sighting of a key is
    /// remembered; a second forms a group; later ones extend it.
    pub fn ingest(&mut self, r: &FileRecord)
        requires
            old(self).wf(),
        ensures
            final(self)@ == ingest_spec(old(self)@, r@),
            final(self).wf(),
    {
        proof {
            lemma_ingest_wf(old(self)@, r@);
        }
        if r.size < self.min_size {
            return;
        }
        let ghost s0 = self@;
        let ghost k: KeyV = (r.name@, r.size);
        match find_first_seen(&self.first_seen, &r.name, r.size) {
            None => {
                self.first_seen.push((FileKey { name: r.name.clone(), size: r.size }, r.path.clone()));
                proof {
                    assert(entries_view(self.first_seen@) =~= s0.first_seen.push((k, r.path@)));
                    assert(self@ =~~= ingest_spec(s0, r@));
                }
            },
            Some(fi) => {
                proof {
                    lemma_fs_index_of(s0.first_seen, k);
                }
                match find_group(&self.groups, &r.name, r.size) {
                    None => {
                        let first_path = self.first_seen[fi].1.clone();
                        let mut members: Vec<Member> = Vec::new();
                        members.push(Member { path: first_path, marked: false });
                        members.push(Member { path: r.path.clone(), marked: false });
                        let g = Group { key: FileKey { name: r.name.clone(), size: r.size }, members };
                        proof {
                            assert(g@.members =~= seq![
                                MemberV { path: fs_path(s0.first_seen, k), marked: false },
                                MemberV { path: r.path@, marked: false },
                            ]);
                        }
                        self.groups.push(g);
                        proof {
                            assert(groups_view(self.groups@) =~= s0.groups.push(ingest_spec(s0, r@).groups.last()));
                            assert(self@ =~~= ingest_spec(s0, r@));
                        }
                    },
                    Some(gi) => {
                        proof {
                            lemma_gs_index_of(s0.groups, k);
                        }
                        self.groups[gi].members.push(Member { path: r.path.clone(), marked: false });
                        proof {
                            let gnew = GroupV {
                                key: s0.groups[gi as int].key,
                                members: s0.groups[gi as int].members.push(
                                    MemberV { path: r.path@, marked: false },
                                ),
                            };
                            assert(members_view(self.groups@[gi as int].members@) =~= gnew.members);
                            assert(groups_view(self.groups@)[gi as int] =~= gnew);
                            assert(groups_view(self.groups@) =~= s0.groups.update(gi as int, gnew));
                            assert(self@ =~~= ingest_spec(s0, r@));
                        }
                    },
                }
            },
        }
    }

    /// Run a whole scan over the records a traversal produced: clear the
    /// prior state, ingest every record in order, and discard the
    /// first-occurrence table. The result depends only on the threshold and
    /// the records, never on groups of an earlier scan.
    pub fn search_duplicate_files(&mut self, records: &Vec<FileRecord>)
        ensures
            final(self)@ == scan_result(old(self)@.min_size, records_view(records@)),
            final(self).wf(),
    {
        let ghost m = self.min_size;
        self.reset();
        let ghost rv = records_view(records@);
        let mut i: usize = 0;
        while i < records.len()
            invariant
                i <= records.len(),
                rv == records_view(records@),
                self@ == scan_spec(empty_index(m), rv.take(i as int)),
                self.wf(),
            decreases records.len() - i,
        {
            let ghost before = self@;
            self.ingest(&records[i]);
            proof {
                let t = rv.take(i as int + 1);
                assert(t.drop_last() =~= rv.take(i as int));
                assert(t.last() == rv[i as int]);
                assert(self@ == ingest_spec(before, rv[i as int]));
            }
            i += 1;
        }
        proof {
            assert(rv.take(records@.len() as int) =~= rv);
        }
        self.first_seen = Vec::new();
        proof {
            assert(self@ =~~= scan_result(m, rv));
        }
    }

    /// Flip the deletion mark of the member with this path in the group with
    /// this key. Returns whether the member was found; a stale key or path is
    /// a no-op.
    pub fn toggle_mark(&mut self, key: &FileKey, path: &String) -> (found: bool)
        requires
            old(self).wf(),
        ensures
            final(self)@ == toggle_spec(old(self)@, key@, path@),
            found == toggle_finds(old(self)@, key@, path@),
            final(self).wf(),
    {
        proof {
            lemma_toggle_wf(old(self)@, key@, path@);
        }
        let ghost s0 = self@;
        match find_group(&self.groups, &key.name, key.size) {
            None => {
                proof {
                    assert(self@ =~~= toggle_spec(s0, key@, path@));
                }
                false
            },
            Some(gi) => {
                proof {
                    lemma_gs_index_of(s0.groups, key@);
                }
                match find_member(&self.groups[gi].members, path) {
                    None => {
                        proof {
                            assert(self@ =~~= toggle_spec(s0, key@, path@));
                        }
                        false
                    },
                    Some(mi) => {
                        proof {
                            lemma_member_index_of(s0.groups[gi as int].members, path@);
                        }
                        let was = self.groups[gi].members[mi].marked;
                        self.groups[gi].members[mi] = Member { path: path.clone(), marked: !was };
                        proof {
                            let ms = s0.groups[gi as int].members;
                            let gnew = GroupV {
                                key: s0.groups[gi as int].key,
                                members: ms.update(
                                    mi as int,
                                    MemberV { path: path@, marked: !ms[mi as int].marked },
                                ),
                            };
                            assert(members_view(self.groups@[gi as int].members@) =~= gnew.members);
                            assert(groups_view(self.groups@)[gi as int] =~= gnew);
                            assert(groups_view(self.groups@) =~= s0.groups.update(gi as int, gnew));
                            assert(self@ =~~= toggle_spec(s0, key@, path@));
                        }
                        true
                    },
                }
            },
        }
    }

    /// The paths currently marked for deletion, group by group, members in
    /// order: what a removal pass should attempt to delete from storage.
    pub fn marked_paths(&self) -> (r: Vec<String>)
        ensures
            paths_view(r@) == marked_paths_spec(self@.groups),
    {
        let ghost gv = self@.groups;
        let mut out: Vec<String> = Vec::new();
        let mut i: usize = 0;
        proof {
            assert(gv.take(0) =~= Seq::<GroupV>::empty());
        }
        while i < self.groups.len()
            invariant
                i <= self.groups.len(),
                gv == groups_view(self.groups@),
                paths_view(out@) == marked_paths_spec(gv.take(i as int)),
            decreases self.groups.len() - i,
        {
            let g = &self.groups[i];
            let ghost mv = members_view(g.members@);
            let mut j: usize = 0;
            proof {
                assert(mv.take(0) =~= Seq::<MemberV>::empty());
                assert(paths_view(out@) + group_marked_paths(mv.take(0)) =~= paths_view(out@));
            }
            let ghost out_before = paths_view(out@);
            while j < g.members.len()
                invariant
                    j <= g.members.len(),
                    mv == members_view(g.members@),
                    paths_view(out@) == out_before + group_marked_paths(mv.take(j as int)),
                decreases g.members.len() - j,
            {
                let ghost prev = paths_view(out@);
                if g.members[j].marked {
                    out.push(g.members[j].path.clone());
                }
                proof {
                    let t = mv.take(j as int + 1);
                    assert(t.drop_last() =~= mv.take(j as int));
                    assert(t.last() == mv[j as int]);
                    if mv[j as int].marked {
                        assert(group_marked_paths(t) == group_marked_paths(mv.take(j as int)).push(
                            mv[j as int].path,
                        ));
                        assert(paths_view(out@) =~= prev.push(mv[j as int].path));
                        assert(paths_view(out@) =~= out_before + group_marked_paths(t));
                    } else {
                        assert(group_marked_paths(t) == group_marked_paths(mv.take(j as int)));
                    }
                }
                j += 1;
            }
            proof {
                assert(mv.take(g.members@.len() as int) =~= mv);
                let t = gv.take(i as int + 1);
                assert(t.drop_last() =~= gv.take(i as int));
                assert(t.last() == gv[i as int]);
                assert(paths_view(out@) =~= marked_paths_spec(t));
            }
            i += 1;
        }
        proof {
            assert(gv.take(self.groups@.len() as int) =~= gv);
        }
        out
    }

    /// Apply the outcome of a removal pass: `deleted` holds the paths whose
    /// deletion from storage succeeded. Members that were marked and deleted
    /// leave their group (a marked member whose deletion failed stays,
    /// still marked); a group left with fewer than two members is dropped.
    pub fn remove_marked(&mut self, deleted: &Vec<String>)
        requires
            old(self).wf(),
        ensures
            final(self)@ == remove_spec(old(self)@, paths_view(deleted@)),
            final(self).wf(),
    {
        proof {
            lemma_remove_wf(old(self)@, paths_view(deleted@));
        }
        let ghost s0 = self@;
        let ghost dv = paths_view(deleted@);
        let mut kept_groups: Vec<Group> = Vec::new();
        let mut i: usize = 0;
        proof {
            assert(s0.groups.take(0) =~= Seq::<GroupV>::empty());
            assert(groups_view(kept_groups@) =~= prune_groups(s0.groups.take(0), dv));
        }
        while i < self.groups.len()
            invariant
                i <= self.groups.len(),
                s0 == self@,
                dv == paths_view(deleted@),
                groups_view(kept_groups@) == prune_groups(s0.groups.take(i as int), dv),
            decreases self.groups.len() - i,
        {
            let g = &self.groups[i];
            let ghost mv = members_view(g.members@);
            let mut kept: Vec<Member> = Vec::new();
            let mut j: usize = 0;
            proof {
                assert(mv.take(0) =~= Seq::<MemberV>::empty());
                assert(members_view(kept@) =~= prune_members(mv.take(0), dv));
            }
            while j < g.members.len()
                invariant
                    j <= g.members.len(),
                    mv == members_view(g.members@),
                    dv == paths_view(deleted@),
                    members_view(kept@) == prune_members(mv.take(j as int), dv),
                decreases g.members.len() - j,
            {
                let m = &g.members[j];
                if !(m.marked && contains_path(deleted, &m.path)) {
                    kept.push(Member { path: m.path.clone(), marked: m.marked });
                }
                proof {
                    let t = mv.take(j as int + 1);
                    assert(t.drop_last() =~= mv.take(j as int));
                    assert(t.last() == mv[j as int]);
                    assert(members_view(kept@) =~= prune_members(t, dv));
                }
                j += 1;
            }
            proof {
                assert(mv.take(g.members@.len() as int) =~= mv);
            }
            if kept.len() >= 2 {
                let gk = Group {
                    key: FileKey { name: g.key.name.clone(), size: g.key.size },
                    members: kept,
                };
                proof {
                    assert(gk@ =~= (GroupV { key: s0.groups[i as int].key, members: prune_members(mv, dv) }));
                }
                kept_groups.push(gk);
            }
            proof {
                let t = s0.groups.take(i as int + 1);
                assert(t.drop_last() =~= s0.groups.take(i as int));
                assert(t.last() == s0.groups[i as int]);
                assert(groups_view(kept_groups@) =~= prune_groups(t, dv));
            }
            i += 1;
        }
        proof {
            assert(s0.groups.take(self.groups@.len() as int) =~= s0.groups);
        }
        self.groups = kept_groups;
        proof {
            assert(self@ =~~= remove_spec(s0, dv));
        }
    }
}

} // verus!
