//! The project registry: a collection of project records keyed by canonical
//! path, a blacklist of canonical paths, and the operations the tool exposes
//! on them. Every operation is specified by a transition function on the
//! registry's mathematical model.

use crate::project::{name_of, strs_view, Project, ProjectModel};
use vstd::prelude::*;

verus! {

broadcast use vstd::seq_lib::group_seq_lib_default;

/// Mathematical value of a [`ProjectState`]: the project records and the
/// blacklisted paths, each in registry order.
pub ghost struct StateModel {
    pub projects: Seq<ProjectModel>,
    pub blacklist: Seq<Seq<char>>,
}

/// The registry: project records and blacklisted canonical paths.
pub struct ProjectState {
    pub projects: Vec<Project>,
    pub blacklist: Vec<String>,
}

/// The models of a sequence of project records.
pub open spec fn projects_view(s: Seq<Project>) -> Seq<ProjectModel> {
    s.map_values(|p: Project| p@)
}

impl View for ProjectState {
    type V = StateModel;

    open spec fn view(&self) -> StateModel {
        StateModel { projects: projects_view(self.projects@), blacklist: strs_view(self.blacklist@) }
    }
}

/// Does the value fit in an unsigned 64-bit count?
pub open spec fn fits_u64(n: nat) -> bool {
    n <= u64::MAX
}

/// A record the registry may hold: non-negative bounded priority, every text
/// field of encodable length.
pub open spec fn wf_project(p: ProjectModel) -> bool {
    &&& 0 <= p.priority <= i32::MAX
    &&& fits_u64(p.name.len())
    &&& fits_u64(p.path.len())
    &&& fits_u64(p.kind.len())
    &&& fits_u64(p.description.len())
}

/// The registry invariant: paths are unique keys, the blacklist is a set,
/// every record is well formed, and all counts are encodable.
pub open spec fn wf_state(s: StateModel) -> bool {
    &&& forall|i: int, j: int|
        0 <= i < j < s.projects.len() ==> s.projects[i].path != s.projects[j].path
    &&& forall|i: int, j: int| 0 <= i < j < s.blacklist.len() ==> s.blacklist[i] != s.blacklist[j]
    &&& forall|i: int| 0 <= i < s.projects.len() ==> wf_project(#[trigger] s.projects[i])
    &&& forall|i: int| 0 <= i < s.blacklist.len() ==> fits_u64(#[trigger] s.blacklist[i].len())
    &&& fits_u64(s.projects.len())
    &&& fits_u64(s.blacklist.len())
}

/// Is some record keyed by `path`?
pub open spec fn contains_path(projects: Seq<ProjectModel>, path: Seq<char>) -> bool {
    exists|i: int| 0 <= i < projects.len() && projects[i].path == path
}

/// Index of the first record keyed by `path`, or `-1`.
pub open spec fn find_idx(projects: Seq<ProjectModel>, path: Seq<char>) -> int
    decreases projects.len(),
{
    if projects.len() == 0 {
        -1
    } else if projects[0].path == path {
        0
    } else if find_idx(projects.drop_first(), path) == -1 {
        -1
    } else {
        find_idx(projects.drop_first(), path) + 1
    }
}

pub proof fn lemma_find_idx(projects: Seq<ProjectModel>, path: Seq<char>)
    ensures
        contains_path(projects, path) ==> {
            let i = find_idx(projects, path);
            &&& 0 <= i < projects.len()
            &&& projects[i].path == path
            &&& forall|k: int| 0 <= k < i ==> projects[k].path != path
        },
        !contains_path(projects, path) ==> find_idx(projects, path) == -1,
    decreases projects.len(),
{
    if projects.len() == 0 {
    } else if projects[0].path == path {
    } else {
        lemma_find_idx(projects.drop_first(), path);
        if contains_path(projects, path) {
            let w = choose|i: int| 0 <= i < projects.len() && projects[i].path == path;
            assert(projects.drop_first()[w - 1] == projects[w]);
            assert(contains_path(projects.drop_first(), path));
            let i = find_idx(projects.drop_first(), path);
            assert(forall|k: int|
                1 <= k < i + 1 ==> projects[k] == projects.drop_first()[k - 1]);
        } else {
            if contains_path(projects.drop_first(), path) {
                let w = choose|i: int|
                    0 <= i < projects.drop_first().len() && projects.drop_first()[i].path == path;
                assert(projects[w + 1] == projects.drop_first()[w]);
                assert(false);
            }
        }
    }
}

/// Index of the first occurrence of `x`, or `-1`.
pub open spec fn find_str_idx(v: Seq<Seq<char>>, x: Seq<char>) -> int
    decreases v.len(),
{
    if v.len() == 0 {
        -1
    } else if v[0] == x {
        0
    } else if find_str_idx(v.drop_first(), x) == -1 {
        -1
    } else {
        find_str_idx(v.drop_first(), x) + 1
    }
}

pub proof fn lemma_find_str_idx(v: Seq<Seq<char>>, x: Seq<char>)
    ensures
        v.contains(x) ==> {
            let i = find_str_idx(v, x);
            &&& 0 <= i < v.len()
            &&& v[i] == x
            &&& forall|k: int| 0 <= k < i ==> v[k] != x
        },
        !v.contains(x) ==> find_str_idx(v, x) == -1,
    decreases v.len(),
{
    if v.len() == 0 {
    } else if v[0] == x {
    } else {
        lemma_find_str_idx(v.drop_first(), x);
        if v.contains(x) {
            let w = choose|i: int| 0 <= i < v.len() && v[i] == x;
            assert(v.drop_first()[w - 1] == v[w]);
            assert(v.drop_first().contains(x));
            let i = find_str_idx(v.drop_first(), x);
            assert(forall|k: int| 1 <= k < i + 1 ==> v[k] == v.drop_first()[k - 1]);
        } else {
            if v.drop_first().contains(x) {
                let w = choose|i: int| 0 <= i < v.drop_first().len() && v.drop_first()[i] == x;
                assert(v[w + 1] == v.drop_first()[w]);
                assert(false);
            }
        }
    }
}

/// The model of a registry with nothing in it.
pub open spec fn empty_state() -> StateModel {
    StateModel { projects: Seq::<ProjectModel>::empty(), blacklist: Seq::<Seq<char>>::empty() }
}

/// The record a fresh `add` creates for a canonical path.
pub open spec fn new_project_model(path: Seq<char>) -> ProjectModel {
    ProjectModel {
        name: name_of(path),
        path: path,
        kind: Seq::<char>::empty(),
        description: Seq::<char>::empty(),
        priority: 0,
    }
}

/// What `add` reports.
#[derive(Clone, Copy, Debug, PartialEq, Eq, Structural)]
pub enum AddOutcome {
    /// The path was inserted as a fresh record.
    Added,
    /// The path is blacklisted; nothing was inserted.
    Blacklisted,
    /// A record with this path already exists; nothing was inserted.
    AlreadyExists,
}

/// Transition of `add`: blacklist first, then uniqueness, then insertion.
pub open spec fn add_tr(s: StateModel, path: Seq<char>) -> (AddOutcome, StateModel) {
    if s.blacklist.contains(path) {
        (AddOutcome::Blacklisted, s)
    } else if contains_path(s.projects, path) {
        (AddOutcome::AlreadyExists, s)
    } else {
        (
            AddOutcome::Added,
            StateModel { projects: s.projects.push(new_project_model(path)), blacklist: s.blacklist },
        )
    }
}

/// Transition of `remove`: drop the record keyed by the path, if any.
pub open spec fn remove_tr(s: StateModel, path: Seq<char>) -> (bool, StateModel) {
    if contains_path(s.projects, path) {
        (
            true,
            StateModel {
                projects: s.projects.remove(find_idx(s.projects, path)),
                blacklist: s.blacklist,
            },
        )
    } else {
        (false, s)
    }
}

/// A record after one lookup: priority one higher, saturating at the type's
/// upper bound.
pub open spec fn bumped(p: ProjectModel) -> ProjectModel {
    ProjectModel {
        priority: if p.priority < i32::MAX {
            p.priority + 1
        } else {
            p.priority
        },
        ..p
    }
}

/// Transition of `get`: the record leaves the registry and is handed back
/// with its priority bumped.
pub open spec fn get_tr(s: StateModel, path: Seq<char>) -> (Option<ProjectModel>, StateModel) {
    if contains_path(s.projects, path) {
        let i = find_idx(s.projects, path);
        (
            Some(bumped(s.projects[i])),
            StateModel { projects: s.projects.remove(i), blacklist: s.blacklist },
        )
    } else {
        (None, s)
    }
}

/// Transition of blacklist management: insert or remove as a set.
pub open spec fn blacklist_tr(s: StateModel, path: Seq<char>, add: bool) -> StateModel {
    if add {
        if s.blacklist.contains(path) {
            s
        } else {
            StateModel { projects: s.projects, blacklist: s.blacklist.push(path) }
        }
    } else {
        if s.blacklist.contains(path) {
            StateModel {
                projects: s.projects,
                blacklist: s.blacklist.remove(find_str_idx(s.blacklist, path)),
            }
        } else {
            s
        }
    }
}

/// Transition of a priority bump in place.
pub open spec fn bump_tr(s: StateModel, path: Seq<char>) -> (bool, StateModel) {
    if contains_path(s.projects, path) {
        let i = find_idx(s.projects, path);
        (
            true,
            StateModel { projects: s.projects.update(i, bumped(s.projects[i])), blacklist: s.blacklist },
        )
    } else {
        (false, s)
    }
}

/// The model of an optional record.
pub open spec fn opt_view(r: Option<Project>) -> Option<ProjectModel> {
    match r {
        Some(p) => Some(p@),
        None => None,
    }
}

/// The records eligible for listing: those whose path is not blacklisted.
pub open spec fn listable(s: StateModel) -> Seq<ProjectModel> {
    s.projects.filter(|p: ProjectModel| !s.blacklist.contains(p.path))
}

/// Priorities never increase along the sequence.
pub open spec fn sorted_desc(s: Seq<ProjectModel>) -> bool {
    forall|i: int, j: int| 0 <= i < j < s.len() ==> s[i].priority >= s[j].priority
}

fn sort_by_priority(v: Vec<Project>) -> (r: Vec<Project>)
    ensures
        sorted_desc(projects_view(r@)),
        projects_view(r@).to_multiset() == projects_view(v@).to_multiset(),
{
    broadcast use vstd::seq_lib::group_to_multiset_ensures;

    let ghost orig = projects_view(v@);
    let mut rest = v;
    let mut out: Vec<Project> = Vec::new();
    proof {
        assert(projects_view(out@) =~= Seq::<ProjectModel>::empty());
        assert(projects_view(out@).to_multiset().add(projects_view(rest@).to_multiset())
            =~= orig.to_multiset());
    }
    while rest.len() > 0
        invariant
            sorted_desc(projects_view(out@)),
            out@.len() > 0 ==> forall|k: int|
                0 <= k < rest@.len() ==> projects_view(rest@)[k].priority <= projects_view(
                    out@,
                ).last().priority,
            projects_view(out@).to_multiset().add(projects_view(rest@).to_multiset())
                == orig.to_multiset(),
        decreases rest@.len(),
    {
        broadcast use vstd::seq_lib::group_to_multiset_ensures;

        let ghost rv = projects_view(rest@);
        let n = rest.len();
        let mut mi: usize = 0;
        let mut j: usize = 1;
        while j < n
            invariant
                n == rest@.len(),
                rv == projects_view(rest@),
                0 <= mi < n,
                mi < j <= n,
                forall|k: int| 0 <= k < j ==> rv[k].priority <= rv[mi as int].priority,
            decreases n - j,
        {
            if rest[j].priority > rest[mi].priority {
                mi = j;
            }
            j = j + 1;
        }
        let ghost prev_out = projects_view(out@);
        let p = rest.remove(mi);
        proof {
            assert(p@ == rv[mi as int]);
            assert(projects_view(rest@) =~= rv.remove(mi as int));
            assert(rv.remove(mi as int).to_multiset() =~= rv.to_multiset().remove(p@));
        }
        out.push(p);
        proof {
            assert(projects_view(out@) =~= prev_out.push(p@));
            assert(projects_view(out@).to_multiset() =~= prev_out.to_multiset().insert(p@));
            assert(projects_view(out@).to_multiset().add(projects_view(rest@).to_multiset())
                =~= orig.to_multiset());
            assert forall|k: int| 0 <= k < rest@.len() implies projects_view(
                rest@,
            )[k].priority <= projects_view(out@).last().priority by {
                assert(projects_view(rest@)[k] == rv.remove(mi as int)[k]);
            }
            assert forall|a: int, b: int|
                0 <= a < b < projects_view(out@).len() implies projects_view(
                out@,
            )[a].priority >= projects_view(out@)[b].priority by {
                if b == projects_view(out@).len() - 1 && prev_out.len() > 0 {
                    assert(prev_out[a].priority >= prev_out.last().priority);
                }
            }
        }
    }
    proof {
        assert(projects_view(rest@).to_multiset() =~= Seq::<ProjectModel>::empty().to_multiset());
        assert(projects_view(out@).to_multiset() =~= orig.to_multiset());
    }
    out
}

fn index_of_path(projects: &Vec<Project>, path: &String) -> (r: Option<usize>)
    ensures
        match r {
            Some(i) => {
                &&& i < projects@.len()
                &&& contains_path(projects_view(projects@), path@)
                &&& find_idx(projects_view(projects@), path@) == i as int
            },
            None => !contains_path(projects_view(projects@), path@),
        },
{
    let ghost pv = projects_view(projects@);
    let n = projects.len();
    let mut i: usize = 0;
    while i < n
        invariant
            n == projects@.len(),
            0 <= i <= n,
            pv == projects_view(projects@),
            forall|k: int| 0 <= k < i ==> pv[k].path != path@,
        decreases n - i,
    {
        if projects[i].path.eq(path) {
            proof {
                assert(pv[i as int].path == path@);
                lemma_find_idx(pv, path@);
            }
            return Some(i);
        }
        i = i + 1;
    }
    proof {
        lemma_find_idx(pv, path@);
    }
    None
}

fn index_of_str(v: &Vec<String>, x: &String) -> (r: Option<usize>)
    ensures
        match r {
            Some(i) => {
                &&& i < v@.len()
                &&& strs_view(v@).contains(x@)
                &&& find_str_idx(strs_view(v@), x@) == i as int
            },
            None => !strs_view(v@).contains(x@),
        },
{
    let ghost sv = strs_view(v@);
    let n = v.len();
    let mut i: usize = 0;
    while i < n
        invariant
            n == v@.len(),
            0 <= i <= n,
            sv == strs_view(v@),
            forall|k: int| 0 <= k < i ==> sv[k] != x@,
        decreases n - i,
    {
        if v[i].eq(x) {
            proof {
                assert(sv[i as int] == x@);
                lemma_find_str_idx(sv, x@);
            }
            return Some(i);
        }
        i = i + 1;
    }
    proof {
        lemma_find_str_idx(sv, x@);
    }
    None
}

impl ProjectState {
    /// The registry's own invariant.
    pub open spec fn wf(&self) -> bool {
        wf_state(self@)
    }

    /// An empty registry.
    pub fn new() -> (s: ProjectState)
        ensures
            s@.projects == Seq::<ProjectModel>::empty(),
            s@.blacklist == Seq::<Seq<char>>::empty(),
            s.wf(),
    {
        let s = ProjectState { projects: Vec::new(), blacklist: Vec::new() };
        proof {
            assert(s@.projects =~= Seq::<ProjectModel>::empty());
            assert(s@.blacklist =~= Seq::<Seq<char>>::empty());
        }
        s
    }

    /// Registers a canonical path. The blacklist is consulted first, then
    /// key uniqueness; a fresh record is named after the path's final
    /// segment and starts at priority zero.
    pub fn add_project(&mut self, path: &String) -> (r: AddOutcome)
        requires
            old(self).wf(),
        ensures
            final(self).wf(),
            (r, final(self)@) == add_tr(old(self)@, path@),
    {
        if crate::project::contains_string(&self.blacklist, path) {
            return AddOutcome::Blacklisted;
        }
        match index_of_path(&self.projects, path) {
            Some(_) => AddOutcome::AlreadyExists,
            None => {
                let name = crate::project::last_segment(path.as_str());
                let project = Project::new(name.as_str(), path.as_str());
                proof {
                    assert(project@ == new_project_model(path@));
                    crate::project::lemma_name_of_len(path@);
                }
                self.projects.push(project);
                let count = self.projects.len();
                proof {
                    assert(self@.projects.len() == count as nat);
                    assert(self@.projects =~= old(self)@.projects.push(new_project_model(path@)));
                }
                AddOutcome::Added
            },
        }
    }

    /// Drops the record keyed by the canonical path; reports whether one
    /// was there.
    pub fn remove_project(&mut self, path: &String) -> (found: bool)
        requires
            old(self).wf(),
        ensures
            final(self).wf(),
            (found, final(self)@) == remove_tr(old(self)@, path@),
    {
        match index_of_path(&self.projects, path) {
            Some(i) => {
                self.projects.remove(i);
                proof {
                    assert(self@.projects =~= old(self)@.projects.remove(i as int));
                }
                true
            },
            None => false,
        }
    }

    /// Looks a canonical path up. A hit leaves the registry: the record is
    /// removed and returned with its priority bumped; the caller owns the
    /// only copy.
    pub fn get_project(&mut self, path: &String) -> (r: Option<Project>)
        requires
            old(self).wf(),
        ensures
            final(self).wf(),
            (opt_view(r), final(self)@) == get_tr(old(self)@, path@),
    {
        match index_of_path(&self.projects, path) {
            Some(i) => {
                let mut p = self.projects.remove(i);
                if p.priority < i32::MAX {
                    p.priority = p.priority + 1;
                }
                proof {
                    assert(self@.projects =~= old(self)@.projects.remove(i as int));
                    assert(p@ == bumped(old(self)@.projects[i as int]));
                }
                Some(p)
            },
            None => None,
        }
    }

    /// Inserts the canonical path into the blacklist, or removes it; either
    /// way the blacklist stays a set.
    pub fn manage_blacklist(&mut self, path: &String, add: bool)
        requires
            old(self).wf(),
        ensures
            final(self).wf(),
            final(self)@ == blacklist_tr(old(self)@, path@, add),
    {
        if add {
            if !crate::project::contains_string(&self.blacklist, path) {
                let path_chars = path.as_str().unicode_len();
                self.blacklist.push(path.clone());
                let count = self.blacklist.len();
                proof {
                    assert(path@.len() == path_chars as nat);
                    assert(self@.blacklist.len() == count as nat);
                    assert(self@.blacklist =~= old(self)@.blacklist.push(path@));
                }
            }
        } else {
            match index_of_str(&self.blacklist, path) {
                Some(i) => {
                    self.blacklist.remove(i);
                    proof {
                        assert(self@.blacklist =~= old(self)@.blacklist.remove(i as int));
                    }
                },
                None => {},
            }
        }
    }

    /// The blacklisted paths, in registry order.
    pub fn show_blacklist(&self) -> (r: Vec<String>)
        ensures
            strs_view(r@) == self@.blacklist,
    {
        let n = self.blacklist.len();
        let mut out: Vec<String> = Vec::new();
        let mut i: usize = 0;
        while i < n
            invariant
                n == self.blacklist@.len(),
                0 <= i <= n,
                strs_view(out@) =~= strs_view(self.blacklist@).take(i as int),
            decreases n - i,
        {
            let ghost prev = out@;
            proof {
                assert(strs_view(prev).len() == prev.len());
                assert(prev.len() == i as nat);
            }
            out.push(self.blacklist[i].clone());
            proof {
                assert(out@ == prev.push(out@[i as int]));
                assert(out@[i as int]@ == self.blacklist@[i as int]@);
                assert forall|k: int| 0 <= k < i + 1 implies strs_view(out@)[k] == strs_view(
                    self.blacklist@,
                ).take(i + 1)[k] by {
                    if k < i {
                        assert(strs_view(prev)[k] == strs_view(self.blacklist@).take(i as int)[k]);
                    }
                }
                assert(strs_view(out@) =~= strs_view(self.blacklist@).take(i + 1));
            }
            i = i + 1;
        }
        proof {
            assert(strs_view(self.blacklist@).take(n as int) =~= strs_view(self.blacklist@));
        }
        out
    }

    /// The records whose paths are not blacklisted, highest priority first.
    /// Ties may come out in any order.
    pub fn list_projects(&self) -> (r: Vec<Project>)
        ensures
            sorted_desc(projects_view(r@)),
            projects_view(r@).to_multiset() == listable(self@).to_multiset(),
    {
        let ghost pred = |p: ProjectModel| !self@.blacklist.contains(p.path);
        let n = self.projects.len();
        let mut keep: Vec<Project> = Vec::new();
        proof {
            reveal_with_fuel(Seq::<_>::filter, 1);
            assert(self@.projects.take(0) =~= Seq::<ProjectModel>::empty());
            assert(projects_view(keep@) =~= self@.projects.take(0).filter(pred));
        }
        let mut i: usize = 0;
        while i < n
            invariant
                n == self.projects@.len(),
                0 <= i <= n,
                pred == (|p: ProjectModel| !self@.blacklist.contains(p.path)),
                projects_view(keep@) == self@.projects.take(i as int).filter(pred),
            decreases n - i,
        {
            let ghost prefix = self@.projects.take(i as int);
            let ghost next = self@.projects.take(i + 1);
            proof {
                assert(next.drop_last() =~= prefix);
                assert(next.last() == self@.projects[i as int]);
            }
            let blacklisted = crate::project::contains_string(
                &self.blacklist,
                &self.projects[i].path,
            );
            if !blacklisted {
                let ghost prev = projects_view(keep@);
                keep.push(self.projects[i].duplicate());
                proof {
                    reveal_with_fuel(Seq::<_>::filter, 2);
                    assert(projects_view(keep@) =~= prev.push(self@.projects[i as int]));
                    assert(next.filter(pred) == next.drop_last().filter(pred).push(next.last()));
                }
            } else {
                proof {
                    reveal_with_fuel(Seq::<_>::filter, 2);
                    assert(next.filter(pred) == next.drop_last().filter(pred));
                }
            }
            i = i + 1;
        }
        proof {
            assert(self@.projects.take(n as int) =~= self@.projects);
        }
        sort_by_priority(keep)
    }

    /// Loads a persisted snapshot. Absent data and empty data are an empty
    /// registry; a blob that does not decode is discarded, and the caller is
    /// told to persist an empty snapshot in its place. The result reports
    /// whether such a save is owed (it also is for absent data, so that a
    /// first run leaves a zero-entry snapshot on disk).
    pub fn init(&mut self, data: Option<Vec<u8>>) -> (save_needed: bool)
        ensures
            final(self).wf(),
            match data {
                None => final(self)@ == empty_state() && save_needed,
                Some(bytes) => if bytes@.len() == 0 {
                    final(self)@ == empty_state() && !save_needed
                } else {
                    match crate::codec::spec_decode(bytes@) {
                        Some(m) => final(self)@ == m && !save_needed,
                        None => final(self)@ == empty_state() && save_needed,
                    }
                },
            },
    {
        match data {
            None => {
                *self = ProjectState::new();
                true
            },
            Some(bytes) => {
                if bytes.len() == 0 {
                    *self = ProjectState::new();
                    false
                } else {
                    match crate::codec::decode(&bytes) {
                        Some(st) => {
                            *self = st;
                            false
                        },
                        None => {
                            *self = ProjectState::new();
                            true
                        },
                    }
                }
            },
        }
    }

    /// Bumps the priority of the record keyed by the canonical path, in
    /// place; reports whether one was there.
    pub fn increment_project_priority(&mut self, path: &String) -> (found: bool)
        requires
            old(self).wf(),
        ensures
            final(self).wf(),
            (found, final(self)@) == bump_tr(old(self)@, path@),
    {
        match index_of_path(&self.projects, path) {
            Some(i) => {
                let mut p = self.projects.remove(i);
                if p.priority < i32::MAX {
                    p.priority = p.priority + 1;
                }
                proof {
                    assert(p@ == bumped(old(self)@.projects[i as int]));
                }
                self.projects.insert(i, p);
                proof {
                    assert(self@.projects =~= old(self)@.projects.update(
                        i as int,
                        bumped(old(self)@.projects[i as int]),
                    ));
                }
                true
            },
            None => false,
        }
    }
}

/// Law: inserting a path into the blacklist twice is the same as inserting
/// it once, and the blacklist then holds exactly one entry for it; removing
/// a path that is not blacklisted changes nothing.
pub proof fn lemma_blacklist_toggle(s: StateModel, path: Seq<char>)
    requires
        wf_state(s),
    ensures
        blacklist_tr(blacklist_tr(s, path, true), path, true) == blacklist_tr(s, path, true),
        blacklist_tr(s, path, true).blacklist.contains(path),
        forall|i: int, j: int|
            0 <= i < j < blacklist_tr(s, path, true).blacklist.len() && #[trigger] blacklist_tr(
                s,
                path,
                true,
            ).blacklist[i] == path ==> #[trigger] blacklist_tr(s, path, true).blacklist[j] != path,
        !s.blacklist.contains(path) ==> blacklist_tr(s, path, false) == s,
{
    if !s.blacklist.contains(path) {
        let bl1 = blacklist_tr(s, path, true).blacklist;
        assert(bl1[s.blacklist.len() as int] == path);
        assert(bl1.contains(path));
    }
}

/// Law: adding a path that a fresh add just inserted reports that it
/// already exists and leaves the registry unchanged, with exactly one
/// record for that path.
pub proof fn lemma_add_unique(s: StateModel, path: Seq<char>)
    requires
        wf_state(s),
        add_tr(s, path).0 == AddOutcome::Added,
    ensures
        add_tr(add_tr(s, path).1, path).0 == AddOutcome::AlreadyExists,
        add_tr(add_tr(s, path).1, path).1 == add_tr(s, path).1,
        contains_path(add_tr(s, path).1.projects, path),
        forall|i: int, j: int|
            0 <= i < j < add_tr(s, path).1.projects.len() && #[trigger] add_tr(
                s,
                path,
            ).1.projects[i].path == path ==> #[trigger] add_tr(s, path).1.projects[j].path != path,
{
    let ps = add_tr(s, path).1.projects;
    assert(ps[s.projects.len() as int].path == path);
    assert(contains_path(ps, path));
}

/// Law: a blacklisted path is refused by `add`, which changes nothing;
/// in particular blacklisting first and adding after never inserts.
pub proof fn lemma_blacklist_blocks(s: StateModel, path: Seq<char>)
    requires
        wf_state(s),
    ensures
        s.blacklist.contains(path) ==> add_tr(s, path) == (AddOutcome::Blacklisted, s),
        add_tr(blacklist_tr(s, path, true), path) == (
            AddOutcome::Blacklisted,
            blacklist_tr(s, path, true),
        ),
{
    let s1 = blacklist_tr(s, path, true);
    if !s.blacklist.contains(path) {
        assert(s1.blacklist[s.blacklist.len() as int] == path);
    }
    assert(s1.blacklist.contains(path));
}

/// Whatever the filter keeps was in the sequence.
proof fn lemma_filter_elems(s: Seq<ProjectModel>, pred: spec_fn(ProjectModel) -> bool, k: int)
    requires
        0 <= k < s.filter(pred).len(),
    ensures
        s.contains(s.filter(pred)[k]),
    decreases s.len(),
{
    reveal(Seq::filter);
    if s.len() > 0 {
        let f = s.filter(pred);
        let fd = s.drop_last().filter(pred);
        if pred(s.last()) && k == fd.len() {
            assert(f[k] == s.last());
            assert(s[s.len() - 1] == s.last());
        } else {
            lemma_filter_elems(s.drop_last(), pred, k);
            let w = choose|i: int| 0 <= i < s.drop_last().len() && s.drop_last()[i] == fd[k];
            assert(s[w] == fd[k]);
        }
    }
}

/// Law: after a fresh add of a path, one lookup returns that record with
/// priority one and evicts it — the registry is as it was before the add —
/// and a second lookup without a new add finds nothing.
pub proof fn lemma_get_bumps_and_evicts(s: StateModel, path: Seq<char>)
    requires
        wf_state(s),
        add_tr(s, path).0 == AddOutcome::Added,
    ensures
        get_tr(add_tr(s, path).1, path).0 == Some(
            ProjectModel { priority: 1, ..new_project_model(path) },
        ),
        get_tr(add_tr(s, path).1, path).1 == s,
        !contains_path(get_tr(add_tr(s, path).1, path).1.projects, path),
        forall|k: int|
            0 <= k < listable(get_tr(add_tr(s, path).1, path).1).len() ==> #[trigger] listable(
                get_tr(add_tr(s, path).1, path).1,
            )[k].path != path,
        get_tr(get_tr(add_tr(s, path).1, path).1, path).0 is None,
{
    let s1 = add_tr(s, path).1;
    let n = s.projects.len() as int;
    assert(s1.projects[n].path == path);
    assert(contains_path(s1.projects, path));
    lemma_find_idx(s1.projects, path);
    let i = find_idx(s1.projects, path);
    if i < n {
        assert(s1.projects[i] == s.projects[i]);
        assert(contains_path(s.projects, path));
        assert(false);
    }
    assert(i == n);
    assert(s1.projects[n] == new_project_model(path));
    assert(s1.projects.remove(n) =~= s.projects);
    assert(get_tr(s1, path).1 == s);
    let s2 = get_tr(s1, path).1;
    let pred = |p: ProjectModel| !s2.blacklist.contains(p.path);
    assert forall|k: int| 0 <= k < listable(s2).len() implies #[trigger] listable(s2)[k].path
        != path by {
        lemma_filter_elems(s2.projects, pred, k);
        let w = choose|i: int| 0 <= i < s2.projects.len() && s2.projects[i] == listable(s2)[k];
        assert(s2.projects[w].path != path);
    }
}

} // verus!
