//! The validator: one full pass over the store that collects every
//! structural violation instead of stopping at the first. A store with an
//! empty violation list satisfies all five rules: referential integrity,
//! leads are members, acyclic team composition, unique names, and only
//! recognized permission kinds.

use vstd::prelude::*;

use crate::data::{
    contains_string, contains_usize, first_idx, has_person, has_team, lemma_find_name,
    lemma_first_idx_team, lemma_first_idx_unique, lemma_team_index_first, list_names,
    person_handles, str_views, string_eq, team_names, Data,
};
use crate::graph::{
    connects, edge, is_path, reachable_team_indices, reaches, reaches_any, subteams_of,
    team_reachable,
};
use crate::schema::{permission_known, recognized_permission};

verus! {

/// One structural violation, naming the offending entities.
pub enum Violation {
    DanglingSubteam { team: String, missing: String },
    DanglingMember { team: String, missing: String },
    DanglingListTeam { list: String, missing: String },
    LeadNotMember { team: String, lead: String },
    CompositionCycle { team: String },
    DuplicateTeam { name: String },
    DuplicateList { name: String },
    DuplicatePerson { handle: String },
    UnrecognizedPermission { team: String, permission: String },
}

/// The mathematical image of a violation.
pub enum ViolationView {
    DanglingSubteam { team: Seq<char>, missing: Seq<char> },
    DanglingMember { team: Seq<char>, missing: Seq<char> },
    DanglingListTeam { list: Seq<char>, missing: Seq<char> },
    LeadNotMember { team: Seq<char>, lead: Seq<char> },
    CompositionCycle { team: Seq<char> },
    DuplicateTeam { name: Seq<char> },
    DuplicateList { name: Seq<char> },
    DuplicatePerson { handle: Seq<char> },
    UnrecognizedPermission { team: Seq<char>, permission: Seq<char> },
}

impl View for Violation {
    type V = ViolationView;

    open spec fn view(&self) -> ViolationView {
        match self {
            Violation::DanglingSubteam { team, missing } => (ViolationView::DanglingSubteam {
                team: team@,
                missing: missing@,
            }),
            Violation::DanglingMember { team, missing } => (ViolationView::DanglingMember {
                team: team@,
                missing: missing@,
            }),
            Violation::DanglingListTeam { list, missing } => (ViolationView::DanglingListTeam {
                list: list@,
                missing: missing@,
            }),
            Violation::LeadNotMember { team, lead } => (ViolationView::LeadNotMember {
                team: team@,
                lead: lead@,
            }),
            Violation::CompositionCycle { team } => (ViolationView::CompositionCycle {
                team: team@,
            }),
            Violation::DuplicateTeam { name } => (ViolationView::DuplicateTeam { name: name@ }),
            Violation::DuplicateList { name } => (ViolationView::DuplicateList { name: name@ }),
            Violation::DuplicatePerson { handle } => (ViolationView::DuplicatePerson {
                handle: handle@,
            }),
            Violation::UnrecognizedPermission { team, permission } => (
            ViolationView::UnrecognizedPermission { team: team@, permission: permission@ }),
        }
    }
}

/// The views of a sequence of violations.
pub open spec fn vio_views(s: Seq<Violation>) -> Seq<ViolationView> {
    s.map_values(|v: Violation| v@)
}

pub broadcast proof fn lemma_vio_views_push(s: Seq<Violation>, x: Violation)
    ensures
        #[trigger] vio_views(s.push(x)) =~= vio_views(s).push(x@),
{
}

pub broadcast proof fn lemma_vio_contains_split(
    a: Seq<ViolationView>,
    b: Seq<ViolationView>,
    v: ViolationView,
)
    ensures
        #[trigger] (a + b).contains(v) <==> a.contains(v) || b.contains(v),
{
    if a.contains(v) {
        let i = choose|i: int| 0 <= i < a.len() && a[i] == v;
        assert((a + b)[i] == v);
    }
    if b.contains(v) {
        let i = choose|i: int| 0 <= i < b.len() && b[i] == v;
        assert((a + b)[a.len() + i] == v);
    }
    if (a + b).contains(v) {
        let i = choose|i: int| 0 <= i < (a + b).len() && (a + b)[i] == v;
        if i < a.len() {
            assert(a[i] == v);
        } else {
            assert(b[i - a.len()] == v);
        }
    }
}

// ---- Rule: leads are members ------------------------------------------------

/// Lead entry `j` of team `i` names a handle that is not a direct person
/// member of that team.
pub open spec fn lead_entry_broken(d: Data, i: int, j: int) -> bool {
    0 <= i < d.teams@.len() && 0 <= j < d.teams@[i].leads@.len() && !str_views(
        d.teams@[i].people@,
    ).contains(d.teams@[i].leads@[j]@)
}

/// Every lead of every team is also a direct person member of it.
pub open spec fn leads_ok(d: Data) -> bool {
    forall|i: int, j: int| !lead_entry_broken(d, i, j)
}

/// After successful validation the leads of every team are a subset of its
/// person members.
pub proof fn lemma_leads_subset(d: Data, i: int)
    requires
        leads_ok(d),
        0 <= i < d.teams@.len(),
    ensures
        forall|l: Seq<char>|
            str_views(d.teams@[i].leads@).contains(l) ==> str_views(
                d.teams@[i].people@,
            ).contains(l),
{
    assert forall|l: Seq<char>|
        str_views(d.teams@[i].leads@).contains(l) implies str_views(
        d.teams@[i].people@,
    ).contains(l) by {
        let j = choose|j: int|
            0 <= j < str_views(d.teams@[i].leads@).len() && str_views(d.teams@[i].leads@)[j] == l;
        assert(!lead_entry_broken(d, i, j));
    }
}

/// Report every lead that is not a member of its own team.
#[verifier::loop_isolation(false)]
pub fn check_leads(d: &Data) -> (r: Vec<Violation>)
    ensures
        forall|k: int| 0 <= k < r@.len() ==> r@[k]@ is LeadNotMember,
        forall|tn: Seq<char>, l: Seq<char>|
            vio_views(r@).contains((ViolationView::LeadNotMember { team: tn, lead: l }))
                <==> exists|i: int, j: int|
                #[trigger] lead_entry_broken(*d, i, j) && d.teams@[i].name@ == tn
                    && d.teams@[i].leads@[j]@ == l,
        r@.len() == 0 <==> leads_ok(*d),
{
    broadcast use lemma_vio_views_push;
    broadcast use vstd::seq_lib::lemma_seq_contains_after_push;

    let mut r: Vec<Violation> = Vec::new();
    let mut i: usize = 0;
    while i < d.teams.len()
        invariant
            0 <= i <= d.teams@.len(),
            forall|k: int| 0 <= k < r@.len() ==> r@[k]@ is LeadNotMember,
            forall|tn: Seq<char>, l: Seq<char>|
                vio_views(r@).contains((ViolationView::LeadNotMember { team: tn, lead: l }))
                    <==> exists|ii: int, jj: int|
                    #[trigger] lead_entry_broken(*d, ii, jj) && ii < i && d.teams@[ii].name@ == tn
                        && d.teams@[ii].leads@[jj]@ == l,
            r@.len() == 0 <==> (forall|ii: int, jj: int| ii < i ==> !lead_entry_broken(*d, ii, jj)),
        decreases d.teams@.len() - i,
    {
        let team = &d.teams[i];
        let mut j: usize = 0;
        while j < team.leads.len()
            invariant
                0 <= j <= team.leads@.len(),
                team == &d.teams@[i as int],
                i < d.teams@.len(),
                forall|k: int| 0 <= k < r@.len() ==> r@[k]@ is LeadNotMember,
                forall|tn: Seq<char>, l: Seq<char>|
                    vio_views(r@).contains((ViolationView::LeadNotMember { team: tn, lead: l }))
                        <==> exists|ii: int, jj: int|
                        #[trigger] lead_entry_broken(*d, ii, jj) && (ii < i || (ii == i && jj < j))
                            && d.teams@[ii].name@ == tn && d.teams@[ii].leads@[jj]@ == l,
                r@.len() == 0 <==> (forall|ii: int, jj: int|
                    ii < i || (ii == i && jj < j) ==> !lead_entry_broken(*d, ii, jj)),
            decreases team.leads@.len() - j,
        {
            let lead = &team.leads[j];
            if !contains_string(&team.people, lead) {
                proof {
                    assert(lead_entry_broken(*d, i as int, j as int));
                }
                r.push(
                    Violation::LeadNotMember { team: team.name.clone(), lead: lead.clone() },
                );
            }
            j += 1;
        }
        i += 1;
    }
    r
}

// ---- Rule: referential integrity -------------------------------------------

/// Subteam entry `j` of team `i` names no known team.
pub open spec fn subteam_entry_broken(d: Data, i: int, j: int) -> bool {
    0 <= i < d.teams@.len() && 0 <= j < d.teams@[i].subteams@.len() && !has_team(
        d,
        d.teams@[i].subteams@[j]@,
    )
}

/// Every nested-team reference resolves to a known team.
pub open spec fn subteam_refs_ok(d: Data) -> bool {
    forall|i: int, j: int| !subteam_entry_broken(d, i, j)
}

/// Person-member entry `j` of team `i` names no known person.
pub open spec fn member_entry_broken(d: Data, i: int, j: int) -> bool {
    0 <= i < d.teams@.len() && 0 <= j < d.teams@[i].people@.len() && !has_person(
        d,
        d.teams@[i].people@[j]@,
    )
}

/// Every person-member reference resolves to a known person.
pub open spec fn member_refs_ok(d: Data) -> bool {
    forall|i: int, j: int| !member_entry_broken(d, i, j)
}

/// Derived-team entry `j` of list `i` names no known team.
pub open spec fn list_entry_broken(d: Data, i: int, j: int) -> bool {
    0 <= i < d.lists@.len() && 0 <= j < d.lists@[i].teams@.len() && !has_team(
        d,
        d.lists@[i].teams@[j]@,
    )
}

/// Every team a list derives from resolves to a known team.
pub open spec fn list_refs_ok(d: Data) -> bool {
    forall|i: int, j: int| !list_entry_broken(d, i, j)
}

/// Report every nested-team reference that resolves to no known team.
#[verifier::loop_isolation(false)]
pub fn check_subteam_refs(d: &Data) -> (r: Vec<Violation>)
    ensures
        forall|k: int| 0 <= k < r@.len() ==> r@[k]@ is DanglingSubteam,
        forall|tn: Seq<char>, m: Seq<char>|
            vio_views(r@).contains((ViolationView::DanglingSubteam { team: tn, missing: m }))
                <==> exists|i: int, j: int|
                #[trigger] subteam_entry_broken(*d, i, j) && d.teams@[i].name@ == tn
                    && d.teams@[i].subteams@[j]@ == m,
        r@.len() == 0 <==> subteam_refs_ok(*d),
{
    broadcast use lemma_vio_views_push;
    broadcast use vstd::seq_lib::lemma_seq_contains_after_push;

    let mut r: Vec<Violation> = Vec::new();
    let mut i: usize = 0;
    while i < d.teams.len()
        invariant
            0 <= i <= d.teams@.len(),
            forall|k: int| 0 <= k < r@.len() ==> r@[k]@ is DanglingSubteam,
            forall|tn: Seq<char>, m: Seq<char>|
                vio_views(r@).contains((ViolationView::DanglingSubteam { team: tn, missing: m }))
                    <==> exists|ii: int, jj: int|
                    #[trigger] subteam_entry_broken(*d, ii, jj) && ii < i && d.teams@[ii].name@
                        == tn && d.teams@[ii].subteams@[jj]@ == m,
            r@.len() == 0 <==> (forall|ii: int, jj: int|
                ii < i ==> !subteam_entry_broken(*d, ii, jj)),
        decreases d.teams@.len() - i,
    {
        let team = &d.teams[i];
        let mut j: usize = 0;
        while j < team.subteams.len()
            invariant
                0 <= j <= team.subteams@.len(),
                team == &d.teams@[i as int],
                i < d.teams@.len(),
                forall|k: int| 0 <= k < r@.len() ==> r@[k]@ is DanglingSubteam,
                forall|tn: Seq<char>, m: Seq<char>|
                    vio_views(r@).contains(
                        (ViolationView::DanglingSubteam { team: tn, missing: m }),
                    ) <==> exists|ii: int, jj: int|
                        #[trigger] subteam_entry_broken(*d, ii, jj) && (ii < i || (ii == i && jj
                            < j)) && d.teams@[ii].name@ == tn && d.teams@[ii].subteams@[jj]@ == m,
                r@.len() == 0 <==> (forall|ii: int, jj: int|
                    ii < i || (ii == i && jj < j) ==> !subteam_entry_broken(*d, ii, jj)),
            decreases team.subteams@.len() - j,
        {
            let sub = &team.subteams[j];
            if d.team_index_of(sub).is_none() {
                proof {
                    assert(subteam_entry_broken(*d, i as int, j as int));
                }
                r.push(
                    Violation::DanglingSubteam { team: team.name.clone(), missing: sub.clone() },
                );
            }
            j += 1;
        }
        i += 1;
    }
    r
}

/// Report every person-member reference that resolves to no known person.
#[verifier::loop_isolation(false)]
pub fn check_member_refs(d: &Data) -> (r: Vec<Violation>)
    ensures
        forall|k: int| 0 <= k < r@.len() ==> r@[k]@ is DanglingMember,
        forall|tn: Seq<char>, m: Seq<char>|
            vio_views(r@).contains((ViolationView::DanglingMember { team: tn, missing: m }))
                <==> exists|i: int, j: int|
                #[trigger] member_entry_broken(*d, i, j) && d.teams@[i].name@ == tn
                    && d.teams@[i].people@[j]@ == m,
        r@.len() == 0 <==> member_refs_ok(*d),
{
    broadcast use lemma_vio_views_push;
    broadcast use vstd::seq_lib::lemma_seq_contains_after_push;

    let mut r: Vec<Violation> = Vec::new();
    let mut i: usize = 0;
    while i < d.teams.len()
        invariant
            0 <= i <= d.teams@.len(),
            forall|k: int| 0 <= k < r@.len() ==> r@[k]@ is DanglingMember,
            forall|tn: Seq<char>, m: Seq<char>|
                vio_views(r@).contains((ViolationView::DanglingMember { team: tn, missing: m }))
                    <==> exists|ii: int, jj: int|
                    #[trigger] member_entry_broken(*d, ii, jj) && ii < i && d.teams@[ii].name@
                        == tn && d.teams@[ii].people@[jj]@ == m,
            r@.len() == 0 <==> (forall|ii: int, jj: int|
                ii < i ==> !member_entry_broken(*d, ii, jj)),
        decreases d.teams@.len() - i,
    {
        let team = &d.teams[i];
        let mut j: usize = 0;
        while j < team.people.len()
            invariant
                0 <= j <= team.people@.len(),
                team == &d.teams@[i as int],
                i < d.teams@.len(),
                forall|k: int| 0 <= k < r@.len() ==> r@[k]@ is DanglingMember,
                forall|tn: Seq<char>, m: Seq<char>|
                    vio_views(r@).contains(
                        (ViolationView::DanglingMember { team: tn, missing: m }),
                    ) <==> exists|ii: int, jj: int|
                        #[trigger] member_entry_broken(*d, ii, jj) && (ii < i || (ii == i && jj
                            < j)) && d.teams@[ii].name@ == tn && d.teams@[ii].people@[jj]@ == m,
                r@.len() == 0 <==> (forall|ii: int, jj: int|
                    ii < i || (ii == i && jj < j) ==> !member_entry_broken(*d, ii, jj)),
            decreases team.people@.len() - j,
        {
            let member = &team.people[j];
            if d.person(member).is_none() {
                proof {
                    assert(member_entry_broken(*d, i as int, j as int));
                }
                r.push(
                    Violation::DanglingMember { team: team.name.clone(), missing: member.clone() },
                );
            }
            j += 1;
        }
        i += 1;
    }
    r
}

/// Report every list whose derived team resolves to no known team.
#[verifier::loop_isolation(false)]
pub fn check_list_refs(d: &Data) -> (r: Vec<Violation>)
    ensures
        forall|k: int| 0 <= k < r@.len() ==> r@[k]@ is DanglingListTeam,
        forall|ln: Seq<char>, m: Seq<char>|
            vio_views(r@).contains((ViolationView::DanglingListTeam { list: ln, missing: m }))
                <==> exists|i: int, j: int|
                #[trigger] list_entry_broken(*d, i, j) && d.lists@[i].name@ == ln
                    && d.lists@[i].teams@[j]@ == m,
        r@.len() == 0 <==> list_refs_ok(*d),
{
    broadcast use lemma_vio_views_push;
    broadcast use vstd::seq_lib::lemma_seq_contains_after_push;

    let mut r: Vec<Violation> = Vec::new();
    let mut i: usize = 0;
    while i < d.lists.len()
        invariant
            0 <= i <= d.lists@.len(),
            forall|k: int| 0 <= k < r@.len() ==> r@[k]@ is DanglingListTeam,
            forall|ln: Seq<char>, m: Seq<char>|
                vio_views(r@).contains((ViolationView::DanglingListTeam { list: ln, missing: m }))
                    <==> exists|ii: int, jj: int|
                    #[trigger] list_entry_broken(*d, ii, jj) && ii < i && d.lists@[ii].name@ == ln
                        && d.lists@[ii].teams@[jj]@ == m,
            r@.len() == 0 <==> (forall|ii: int, jj: int| ii < i ==> !list_entry_broken(*d, ii, jj)),
        decreases d.lists@.len() - i,
    {
        let list = &d.lists[i];
        let mut j: usize = 0;
        while j < list.teams.len()
            invariant
                0 <= j <= list.teams@.len(),
                list == &d.lists@[i as int],
                i < d.lists@.len(),
                forall|k: int| 0 <= k < r@.len() ==> r@[k]@ is DanglingListTeam,
                forall|ln: Seq<char>, m: Seq<char>|
                    vio_views(r@).contains(
                        (ViolationView::DanglingListTeam { list: ln, missing: m }),
                    ) <==> exists|ii: int, jj: int|
                        #[trigger] list_entry_broken(*d, ii, jj) && (ii < i || (ii == i && jj < j))
                            && d.lists@[ii].name@ == ln && d.lists@[ii].teams@[jj]@ == m,
                r@.len() == 0 <==> (forall|ii: int, jj: int|
                    ii < i || (ii == i && jj < j) ==> !list_entry_broken(*d, ii, jj)),
            decreases list.teams@.len() - j,
        {
            let tref = &list.teams[j];
            if d.team_index_of(tref).is_none() {
                proof {
                    assert(list_entry_broken(*d, i as int, j as int));
                }
                r.push(
                    Violation::DanglingListTeam { list: list.name.clone(), missing: tref.clone() },
                );
            }
            j += 1;
        }
        i += 1;
    }
    r
}

// ---- Rule: recognized permission kinds --------------------------------------

/// Permission entry `j` of team `i` is outside the schema's recognized kinds.
pub open spec fn perm_entry_broken(d: Data, i: int, j: int) -> bool {
    0 <= i < d.teams@.len() && 0 <= j < d.teams@[i].permissions@.len() && !recognized_permission(
        d.teams@[i].permissions@[j]@,
    )
}

/// Every permission referenced anywhere is a recognized kind.
pub open spec fn perms_ok(d: Data) -> bool {
    forall|i: int, j: int| !perm_entry_broken(d, i, j)
}

/// Report every declared permission outside the recognized kinds.
#[verifier::loop_isolation(false)]
pub fn check_permission_names(d: &Data) -> (r: Vec<Violation>)
    ensures
        forall|k: int| 0 <= k < r@.len() ==> r@[k]@ is UnrecognizedPermission,
        forall|tn: Seq<char>, p: Seq<char>|
            vio_views(r@).contains(
                (ViolationView::UnrecognizedPermission { team: tn, permission: p }),
            ) <==> exists|i: int, j: int|
                #[trigger] perm_entry_broken(*d, i, j) && d.teams@[i].name@ == tn
                    && d.teams@[i].permissions@[j]@ == p,
        r@.len() == 0 <==> perms_ok(*d),
{
    broadcast use lemma_vio_views_push;
    broadcast use vstd::seq_lib::lemma_seq_contains_after_push;

    let mut r: Vec<Violation> = Vec::new();
    let mut i: usize = 0;
    while i < d.teams.len()
        invariant
            0 <= i <= d.teams@.len(),
            forall|k: int| 0 <= k < r@.len() ==> r@[k]@ is UnrecognizedPermission,
            forall|tn: Seq<char>, p: Seq<char>|
                vio_views(r@).contains(
                    (ViolationView::UnrecognizedPermission { team: tn, permission: p }),
                ) <==> exists|ii: int, jj: int|
                    #[trigger] perm_entry_broken(*d, ii, jj) && ii < i && d.teams@[ii].name@ == tn
                        && d.teams@[ii].permissions@[jj]@ == p,
            r@.len() == 0 <==> (forall|ii: int, jj: int| ii < i ==> !perm_entry_broken(*d, ii, jj)),
        decreases d.teams@.len() - i,
    {
        let team = &d.teams[i];
        let mut j: usize = 0;
        while j < team.permissions.len()
            invariant
                0 <= j <= team.permissions@.len(),
                team == &d.teams@[i as int],
                i < d.teams@.len(),
                forall|k: int| 0 <= k < r@.len() ==> r@[k]@ is UnrecognizedPermission,
                forall|tn: Seq<char>, p: Seq<char>|
                    vio_views(r@).contains(
                        (ViolationView::UnrecognizedPermission { team: tn, permission: p }),
                    ) <==> exists|ii: int, jj: int|
                        #[trigger] perm_entry_broken(*d, ii, jj) && (ii < i || (ii == i && jj < j))
                            && d.teams@[ii].name@ == tn && d.teams@[ii].permissions@[jj]@ == p,
                r@.len() == 0 <==> (forall|ii: int, jj: int|
                    ii < i || (ii == i && jj < j) ==> !perm_entry_broken(*d, ii, jj)),
            decreases team.permissions@.len() - j,
        {
            let perm = &team.permissions[j];
            if !permission_known(perm) {
                proof {
                    assert(perm_entry_broken(*d, i as int, j as int));
                }
                r.push(
                    Violation::UnrecognizedPermission {
                        team: team.name.clone(),
                        permission: perm.clone(),
                    },
                );
            }
            j += 1;
        }
        i += 1;
    }
    r
}


// ---- Rule: unique names ------------------------------------------------------

/// Positions `i < j` hold the same name.
pub open spec fn dup_at(ns: Seq<Seq<char>>, i: int, j: int) -> bool {
    0 <= i < j < ns.len() && ns[i] == ns[j]
}

pub proof fn lemma_unique_no_duplicates(ns: Seq<Seq<char>>)
    ensures
        (forall|i: int, j: int| !dup_at(ns, i, j)) <==> ns.no_duplicates(),
{
    if forall|i: int, j: int| !dup_at(ns, i, j) {
        assert forall|i: int, j: int|
            0 <= i < ns.len() && 0 <= j < ns.len() && i != j implies ns[i] != ns[j] by {
            if i < j {
                assert(!dup_at(ns, i, j));
            } else {
                assert(!dup_at(ns, j, i));
            }
        }
    }
    if !(forall|i: int, j: int| !dup_at(ns, i, j)) {
        let (i, j) = choose|i: int, j: int| dup_at(ns, i, j);
        assert(ns[i] == ns[j] && i != j);
        assert(!ns.no_duplicates());
    }
}

/// Report every later team that reuses an earlier team's name.
#[verifier::loop_isolation(false)]
pub fn check_duplicate_teams(d: &Data) -> (r: Vec<Violation>)
    ensures
        forall|k: int| 0 <= k < r@.len() ==> r@[k]@ is DuplicateTeam,
        forall|n: Seq<char>|
            vio_views(r@).contains((ViolationView::DuplicateTeam { name: n })) <==> exists|
                a: int,
                b: int,
            |
                #[trigger] dup_at(team_names(*d), a, b) && team_names(*d)[b] == n,
        r@.len() == 0 <==> team_names(*d).no_duplicates(),
{
    broadcast use lemma_vio_views_push;
    broadcast use vstd::seq_lib::lemma_seq_contains_after_push;

    let ghost ns = team_names(*d);
    let mut r: Vec<Violation> = Vec::new();
    let mut j: usize = 0;
    while j < d.teams.len()
        invariant
            0 <= j <= d.teams@.len(),
            forall|k: int| 0 <= k < r@.len() ==> r@[k]@ is DuplicateTeam,
            forall|n: Seq<char>|
                vio_views(r@).contains((ViolationView::DuplicateTeam { name: n })) <==> exists|
                    a: int,
                    b: int,
                |
                    #[trigger] dup_at(ns, a, b) && b < j && ns[b] == n,
            r@.len() == 0 <==> (forall|a: int, b: int| b < j ==> !dup_at(ns, a, b)),
        decreases d.teams@.len() - j,
    {
        let mut i: usize = 0;
        while i < j
            invariant
                0 <= i <= j < d.teams@.len(),
                forall|k: int| 0 <= k < r@.len() ==> r@[k]@ is DuplicateTeam,
                forall|n: Seq<char>|
                    vio_views(r@).contains((ViolationView::DuplicateTeam { name: n })) <==> exists|
                        a: int,
                        b: int,
                    |
                        #[trigger] dup_at(ns, a, b) && (b < j || (b == j && a < i)) && ns[b] == n,
                r@.len() == 0 <==> (forall|a: int, b: int|
                    b < j || (b == j && a < i) ==> !dup_at(ns, a, b)),
            decreases j - i,
        {
            if string_eq(&d.teams[i].name, &d.teams[j].name) {
                proof {
                    assert(ns[i as int] == ns[j as int]);
                    assert(dup_at(ns, i as int, j as int));
                }
                r.push(Violation::DuplicateTeam { name: d.teams[j].name.clone() });
            }
            i += 1;
        }
        j += 1;
    }
    proof {
        lemma_unique_no_duplicates(ns);
    }
    r
}

/// Report every later list that reuses an earlier list's name.
#[verifier::loop_isolation(false)]
pub fn check_duplicate_lists(d: &Data) -> (r: Vec<Violation>)
    ensures
        forall|k: int| 0 <= k < r@.len() ==> r@[k]@ is DuplicateList,
        forall|n: Seq<char>|
            vio_views(r@).contains((ViolationView::DuplicateList { name: n })) <==> exists|
                a: int,
                b: int,
            |
                #[trigger] dup_at(list_names(*d), a, b) && list_names(*d)[b] == n,
        r@.len() == 0 <==> list_names(*d).no_duplicates(),
{
    broadcast use lemma_vio_views_push;
    broadcast use vstd::seq_lib::lemma_seq_contains_after_push;

    let ghost ns = list_names(*d);
    let mut r: Vec<Violation> = Vec::new();
    let mut j: usize = 0;
    while j < d.lists.len()
        invariant
            0 <= j <= d.lists@.len(),
            forall|k: int| 0 <= k < r@.len() ==> r@[k]@ is DuplicateList,
            forall|n: Seq<char>|
                vio_views(r@).contains((ViolationView::DuplicateList { name: n })) <==> exists|
                    a: int,
                    b: int,
                |
                    #[trigger] dup_at(ns, a, b) && b < j && ns[b] == n,
            r@.len() == 0 <==> (forall|a: int, b: int| b < j ==> !dup_at(ns, a, b)),
        decreases d.lists@.len() - j,
    {
        let mut i: usize = 0;
        while i < j
            invariant
                0 <= i <= j < d.lists@.len(),
                forall|k: int| 0 <= k < r@.len() ==> r@[k]@ is DuplicateList,
                forall|n: Seq<char>|
                    vio_views(r@).contains((ViolationView::DuplicateList { name: n })) <==> exists|
                        a: int,
                        b: int,
                    |
                        #[trigger] dup_at(ns, a, b) && (b < j || (b == j && a < i)) && ns[b] == n,
                r@.len() == 0 <==> (forall|a: int, b: int|
                    b < j || (b == j && a < i) ==> !dup_at(ns, a, b)),
            decreases j - i,
        {
            if string_eq(&d.lists[i].name, &d.lists[j].name) {
                proof {
                    assert(ns[i as int] == ns[j as int]);
                    assert(dup_at(ns, i as int, j as int));
                }
                r.push(Violation::DuplicateList { name: d.lists[j].name.clone() });
            }
            i += 1;
        }
        j += 1;
    }
    proof {
        lemma_unique_no_duplicates(ns);
    }
    r
}

/// Report every later person that reuses an earlier person's handle.
#[verifier::loop_isolation(false)]
pub fn check_duplicate_people(d: &Data) -> (r: Vec<Violation>)
    ensures
        forall|k: int| 0 <= k < r@.len() ==> r@[k]@ is DuplicatePerson,
        forall|n: Seq<char>|
            vio_views(r@).contains((ViolationView::DuplicatePerson { handle: n })) <==> exists|
                a: int,
                b: int,
            |
                #[trigger] dup_at(person_handles(*d), a, b) && person_handles(*d)[b] == n,
        r@.len() == 0 <==> person_handles(*d).no_duplicates(),
{
    broadcast use lemma_vio_views_push;
    broadcast use vstd::seq_lib::lemma_seq_contains_after_push;

    let ghost ns = person_handles(*d);
    let mut r: Vec<Violation> = Vec::new();
    let mut j: usize = 0;
    while j < d.people.len()
        invariant
            0 <= j <= d.people@.len(),
            forall|k: int| 0 <= k < r@.len() ==> r@[k]@ is DuplicatePerson,
            forall|n: Seq<char>|
                vio_views(r@).contains((ViolationView::DuplicatePerson { handle: n })) <==> exists|
                    a: int,
                    b: int,
                |
                    #[trigger] dup_at(ns, a, b) && b < j && ns[b] == n,
            r@.len() == 0 <==> (forall|a: int, b: int| b < j ==> !dup_at(ns, a, b)),
        decreases d.people@.len() - j,
    {
        let mut i: usize = 0;
        while i < j
            invariant
                0 <= i <= j < d.people@.len(),
                forall|k: int| 0 <= k < r@.len() ==> r@[k]@ is DuplicatePerson,
                forall|n: Seq<char>|
                    vio_views(r@).contains((ViolationView::DuplicatePerson { handle: n }))
                        <==> exists|a: int, b: int|
                        #[trigger] dup_at(ns, a, b) && (b < j || (b == j && a < i)) && ns[b] == n,
                r@.len() == 0 <==> (forall|a: int, b: int|
                    b < j || (b == j && a < i) ==> !dup_at(ns, a, b)),
            decreases j - i,
        {
            if string_eq(&d.people[i].handle, &d.people[j].handle) {
                proof {
                    assert(ns[i as int] == ns[j as int]);
                    assert(dup_at(ns, i as int, j as int));
                }
                r.push(Violation::DuplicatePerson { handle: d.people[j].handle.clone() });
            }
            i += 1;
        }
        j += 1;
    }
    proof {
        lemma_unique_no_duplicates(ns);
    }
    r
}

// ---- Rule: acyclic composition ----------------------------------------------

/// The team named `t` can reach itself again through at least one edge.
pub open spec fn on_cycle(d: Data, t: Seq<char>) -> bool {
    has_team(d, t) && reaches_any(d, subteams_of(d, t).to_set(), t)
}

/// No team transitively contains itself.
pub open spec fn acyclic(d: Data) -> bool {
    forall|t: Seq<char>| !on_cycle(d, t)
}

/// A path that leaves a team and returns to it puts that team on a cycle,
/// so the validator names it; the traversal itself always terminates.
pub proof fn lemma_cycle_detected(d: Data, p: Seq<Seq<char>>)
    requires
        p.len() >= 2,
        is_path(d, p),
        p.first() == p.last(),
    ensures
        on_cycle(d, p.first()),
{
    let t = p.first();
    assert(edge(d, p[0int], p[0int + 1]));
    let q = p.drop_first();
    assert(forall|i: int| #![trigger q[i]] 0 <= i < q.len() ==> q[i] == p[i + 1]);
    assert(is_path(d, q)) by {
        assert(forall|i: int|
            0 <= i < q.len() - 1 ==> #[trigger] edge(d, q[i], q[i + 1]) == edge(
                d,
                p[i + 1],
                p[i + 2],
            ));
    }
    assert(connects(d, q, p[1int], t));
    assert(reaches(d, p[1int], t));
    assert(subteams_of(d, t).to_set().contains(p[1int])) by {
        assert(subteams_of(d, t).contains(p[1int]));
    }
    assert(reaches_any(d, subteams_of(d, t).to_set(), t));
}

/// Team `i` is the one its name resolves to, and it is on a cycle.
pub open spec fn cycle_at(d: Data, i: int) -> bool {
    first_idx(d, i) && on_cycle(d, d.teams@[i].name@)
}

/// Report every team that transitively contains itself. The check runs the
/// visited-set traversal from each team's nested names, so it terminates on
/// cyclic stores.
#[verifier::loop_isolation(false)]
pub fn check_cycles(d: &Data) -> (r: Vec<Violation>)
    ensures
        forall|k: int| 0 <= k < r@.len() ==> r@[k]@ is CompositionCycle,
        forall|tn: Seq<char>|
            vio_views(r@).contains((ViolationView::CompositionCycle { team: tn })) <==> on_cycle(
                *d,
                tn,
            ),
        r@.len() == 0 <==> acyclic(*d),
{
    broadcast use lemma_vio_views_push;
    broadcast use vstd::seq_lib::lemma_seq_contains_after_push;

    let mut r: Vec<Violation> = Vec::new();
    let mut i: usize = 0;
    while i < d.teams.len()
        invariant
            0 <= i <= d.teams@.len(),
            forall|k: int| 0 <= k < r@.len() ==> r@[k]@ is CompositionCycle,
            forall|tn: Seq<char>|
                vio_views(r@).contains((ViolationView::CompositionCycle { team: tn }))
                    <==> exists|ii: int|
                    #[trigger] cycle_at(*d, ii) && ii < i && d.teams@[ii].name@ == tn,
            r@.len() == 0 <==> (forall|ii: int| ii < i ==> !cycle_at(*d, ii)),
        decreases d.teams@.len() - i,
    {
        let idx = d.team_index_of(&d.teams[i].name);
        proof {
            if idx.is_none() {
                lemma_find_name(team_names(*d), d.teams@[i as int].name@);
                assert(team_names(*d)[i as int] == d.teams@[i as int].name@);
                assert(false);
            }
            if first_idx(*d, i as int) {
                lemma_first_idx_team(*d, i as int);
            }
        }
        let first = match idx {
            Some(j) => j == i,
            None => false,
        };
        proof {
            assert(first == first_idx(*d, i as int));
        }
        if first {
            let ghost tname = d.teams@[i as int].name@;
            let team = &d.teams[i];
            let reach = reachable_team_indices(d, &team.subteams);
            let cyc = contains_usize(&reach, i);
            proof {
                let rset = str_views(team.subteams@).to_set();
                lemma_first_idx_team(*d, i as int);
                assert(subteams_of(*d, tname) == str_views(d.teams@[i as int].subteams@));
                if cyc {
                    let k = choose|k: int| 0 <= k < reach@.len() && reach@[k] == i;
                    assert(crate::graph::idx_names(*d, reach@).contains(tname)) by {
                        assert(reach@.map_values(|ix: usize| d.teams@[ix as int].name@)[k]
                            == tname);
                    }
                    assert(team_reachable(*d, rset, tname));
                    assert(on_cycle(*d, tname));
                } else {
                    if on_cycle(*d, tname) {
                        assert(team_reachable(*d, rset, tname));
                        assert(crate::graph::idx_names(*d, reach@).contains(tname));
                        let ms = reach@.map_values(|ix: usize| d.teams@[ix as int].name@);
                        let k = choose|k: int| 0 <= k < ms.len() && ms[k] == tname;
                        lemma_first_idx_unique(*d, reach@[k] as int, i as int);
                        assert(reach@[k] == i);
                        assert(false);
                    }
                }
                assert(cyc == cycle_at(*d, i as int));
            }
            if cyc {
                r.push(Violation::CompositionCycle { team: team.name.clone() });
            }
        } else {
            proof {
                assert(!cycle_at(*d, i as int));
            }
        }
        i += 1;
    }
    proof {
        assert forall|tn: Seq<char>|
            vio_views(r@).contains((ViolationView::CompositionCycle { team: tn })) == on_cycle(
            *d,
            tn,
        ) by {
            if vio_views(r@).contains((ViolationView::CompositionCycle { team: tn })) {
                let ii = choose|ii: int|
                    #[trigger] cycle_at(*d, ii) && ii < i && d.teams@[ii].name@ == tn;
                assert(on_cycle(*d, tn));
            }
            if on_cycle(*d, tn) {
                lemma_team_index_first(*d, tn);
                let ii = crate::data::team_index(*d, tn);
                assert(cycle_at(*d, ii));
            }
        }
        assert(r@.len() == 0 <==> acyclic(*d)) by {
            if r@.len() == 0 {
                assert forall|t: Seq<char>| !on_cycle(*d, t) by {
                    if on_cycle(*d, t) {
                        lemma_team_index_first(*d, t);
                        assert(cycle_at(*d, crate::data::team_index(*d, t)));
                    }
                }
            } else {
                let ii = choose|ii: int| #[trigger] cycle_at(*d, ii) && ii < i;
                assert(on_cycle(*d, d.teams@[ii].name@));
            }
        }
    }
    r
}

// ---- The validator -----------------------------------------------------------

/// The store satisfies every structural rule.
pub open spec fn valid(d: Data) -> bool {
    &&& team_names(d).no_duplicates()
    &&& list_names(d).no_duplicates()
    &&& person_handles(d).no_duplicates()
    &&& leads_ok(d)
    &&& subteam_refs_ok(d)
    &&& member_refs_ok(d)
    &&& list_refs_ok(d)
    &&& perms_ok(d)
    &&& acyclic(d)
}

pub broadcast proof fn lemma_vio_views_add(a: Seq<Violation>, b: Seq<Violation>)
    ensures
        #[trigger] vio_views(a + b) =~= vio_views(a) + vio_views(b),
{
}

/// Walk the store once and report every violation of every rule, each
/// naming the offending entities. An empty result certifies the store:
/// names are unique, references resolve, leads are members, permissions
/// are recognized kinds, and team composition is acyclic. The validator
/// never stops at the first problem and never fails itself.
pub fn validate(d: &Data) -> (r: Vec<Violation>)
    ensures
        r@.len() == 0 <==> valid(*d),
        forall|n: Seq<char>|
            vio_views(r@).contains((ViolationView::DuplicateTeam { name: n })) <==> exists|
                a: int,
                b: int,
            |
                #[trigger] dup_at(team_names(*d), a, b) && team_names(*d)[b] == n,
        forall|n: Seq<char>|
            vio_views(r@).contains((ViolationView::DuplicateList { name: n })) <==> exists|
                a: int,
                b: int,
            |
                #[trigger] dup_at(list_names(*d), a, b) && list_names(*d)[b] == n,
        forall|n: Seq<char>|
            vio_views(r@).contains((ViolationView::DuplicatePerson { handle: n })) <==> exists|
                a: int,
                b: int,
            |
                #[trigger] dup_at(person_handles(*d), a, b) && person_handles(*d)[b] == n,
        forall|tn: Seq<char>, l: Seq<char>|
            vio_views(r@).contains((ViolationView::LeadNotMember { team: tn, lead: l }))
                <==> exists|i: int, j: int|
                #[trigger] lead_entry_broken(*d, i, j) && d.teams@[i].name@ == tn
                    && d.teams@[i].leads@[j]@ == l,
        forall|tn: Seq<char>, m: Seq<char>|
            vio_views(r@).contains((ViolationView::DanglingSubteam { team: tn, missing: m }))
                <==> exists|i: int, j: int|
                #[trigger] subteam_entry_broken(*d, i, j) && d.teams@[i].name@ == tn
                    && d.teams@[i].subteams@[j]@ == m,
        forall|tn: Seq<char>, m: Seq<char>|
            vio_views(r@).contains((ViolationView::DanglingMember { team: tn, missing: m }))
                <==> exists|i: int, j: int|
                #[trigger] member_entry_broken(*d, i, j) && d.teams@[i].name@ == tn
                    && d.teams@[i].people@[j]@ == m,
        forall|ln: Seq<char>, m: Seq<char>|
            vio_views(r@).contains((ViolationView::DanglingListTeam { list: ln, missing: m }))
                <==> exists|i: int, j: int|
                #[trigger] list_entry_broken(*d, i, j) && d.lists@[i].name@ == ln
                    && d.lists@[i].teams@[j]@ == m,
        forall|tn: Seq<char>, p: Seq<char>|
            vio_views(r@).contains(
                (ViolationView::UnrecognizedPermission { team: tn, permission: p }),
            ) <==> exists|i: int, j: int|
                #[trigger] perm_entry_broken(*d, i, j) && d.teams@[i].name@ == tn
                    && d.teams@[i].permissions@[j]@ == p,
        forall|tn: Seq<char>|
            vio_views(r@).contains((ViolationView::CompositionCycle { team: tn })) <==> on_cycle(
                *d,
                tn,
            ),
{
    broadcast use lemma_vio_views_add;
    broadcast use lemma_vio_contains_split;

    let mut r = check_duplicate_teams(d);
    let ghost g1 = r@;
    let mut part = check_duplicate_lists(d);
    let ghost g2 = part@;
    r.append(&mut part);
    let mut part = check_duplicate_people(d);
    let ghost g3 = part@;
    r.append(&mut part);
    let mut part = check_leads(d);
    let ghost g4 = part@;
    r.append(&mut part);
    let mut part = check_subteam_refs(d);
    let ghost g5 = part@;
    r.append(&mut part);
    let mut part = check_member_refs(d);
    let ghost g6 = part@;
    r.append(&mut part);
    let mut part = check_list_refs(d);
    let ghost g7 = part@;
    r.append(&mut part);
    let mut part = check_permission_names(d);
    let ghost g8 = part@;
    r.append(&mut part);
    let mut part = check_cycles(d);
    let ghost g9 = part@;
    r.append(&mut part);
    r
}

} // verus!
