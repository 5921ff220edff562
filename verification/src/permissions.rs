//! Permission resolution: for a recognized permission name, the exact set
//! of identities that hold it. A permission is granted by every team that
//! declares it; its holders are the people reachable from those teams
//! through nested team membership, deduplicated by handle.

use vstd::prelude::*;

use crate::data::{contains_string, str_views, Data};
use crate::errors::LookupError;
use crate::graph::{
    direct_people, edge, lemma_reaches_self, lemma_reaches_step, lemma_reaches_trans,
    member_closure, member_handles, reaches, subteams_of, team_reachable,
};
use crate::schema::{permission_known, recognized_permission};

verus! {

/// Team `i` declares the permission `p`.
pub open spec fn team_grants(d: Data, i: int, p: Seq<char>) -> bool {
    0 <= i < d.teams@.len() && str_views(d.teams@[i].permissions@).contains(p)
}

/// The names of all teams that declare `p`: the grant-source teams.
pub open spec fn grant_root_set(d: Data, p: Seq<char>) -> Set<Seq<char>> {
    Set::new(
        |n: Seq<char>| exists|i: int| #[trigger] team_grants(d, i, p) && d.teams@[i].name@ == n,
    )
}

/// The identities that hold `p`: everyone reachable from a grant-source team.
pub open spec fn resolved_identities(d: Data, p: Seq<char>) -> Set<Seq<char>> {
    member_closure(d, grant_root_set(d, p))
}

/// The names of the teams that declare the permission `name`.
#[verifier::loop_isolation(false)]
pub fn grant_root_teams(d: &Data, name: &String) -> (r: Vec<String>)
    ensures
        str_views(r@).to_set() == grant_root_set(*d, name@),
{
    broadcast use vstd::seq_lib::lemma_seq_contains_after_push;
    broadcast use crate::data::lemma_str_views_push;

    let mut r: Vec<String> = Vec::new();
    let mut i: usize = 0;
    while i < d.teams.len()
        invariant
            0 <= i <= d.teams@.len(),
            forall|n: Seq<char>|
                #[trigger] str_views(r@).contains(n) <==> exists|k: int|
                    0 <= k < i && #[trigger] team_grants(*d, k, name@) && d.teams@[k].name@ == n,
        decreases d.teams@.len() - i,
    {
        let team = &d.teams[i];
        if contains_string(&team.permissions, name) {
            r.push(team.name.clone());
            proof {
                assert(team_grants(*d, i as int, name@));
            }
        }
        i += 1;
    }
    proof {
        assert forall|n: Seq<char>|
            str_views(r@).to_set().contains(n) == grant_root_set(*d, name@).contains(n) by {
            if grant_root_set(*d, name@).contains(n) {
                let k = choose|k: int|
                    #[trigger] team_grants(*d, k, name@) && d.teams@[k].name@ == n;
                assert(str_views(r@).contains(n));
            }
        }
        assert(str_views(r@).to_set() =~= grant_root_set(*d, name@));
    }
    r
}

/// Resolve a permission to the set of identities that hold it.
///
/// Succeeds exactly on the schema's recognized permission names; an
/// unrecognized name is an error, never an empty result. The returned
/// handles are free of duplicates. The traversal tracks visited teams, so
/// it terminates even on a store that validation would reject for a cycle.
pub fn resolve_permission(d: &Data, name: &String) -> (r: Result<Vec<String>, LookupError>)
    ensures
        r.is_ok() <==> recognized_permission(name@),
        match r {
            Ok(v) => str_views(v@).no_duplicates() && str_views(v@).to_set()
                == resolved_identities(*d, name@),
            Err(e) => e == LookupError::UnknownPermission,
        },
{
    if !permission_known(name) {
        return Err(LookupError::UnknownPermission);
    }
    let roots = grant_root_teams(d, name);
    let out = member_handles(d, &roots);
    Ok(out)
}

/// Resolution is deterministic and duplicate-free: any two resolutions of
/// the same permission over the same store hold exactly the same handles.
pub proof fn lemma_resolution_deterministic(
    d: Data,
    p: Seq<char>,
    r1: Seq<Seq<char>>,
    r2: Seq<Seq<char>>,
)
    requires
        r1.to_set() == resolved_identities(d, p),
        r2.to_set() == resolved_identities(d, p),
    ensures
        forall|h: Seq<char>| r1.contains(h) <==> r2.contains(h),
{
    assert forall|h: Seq<char>| r1.contains(h) == r2.contains(h) by {
        assert(r1.to_set().contains(h) == r2.to_set().contains(h));
    }
}

/// A permission whose single grant-source team nests no further teams
/// resolves to exactly that team's direct person members.
pub proof fn lemma_flat_grant_resolution(d: Data, p: Seq<char>, g: Seq<char>)
    requires
        grant_root_set(d, p) == set![g],
        crate::data::has_team(d, g),
        subteams_of(d, g).len() == 0,
    ensures
        resolved_identities(d, p) == direct_people(d, g).to_set(),
{
    let gs = set![g];
    assert forall|t: Seq<char>| #[trigger] team_reachable(d, gs, t) implies t == g by {
        let r0 = choose|r0: Seq<char>| #[trigger] gs.contains(r0) && reaches(d, r0, t);
        assert(r0 == g);
        let pth = choose|pth: Seq<Seq<char>>| crate::graph::connects(d, pth, g, t);
        if pth.len() >= 2 {
            assert(edge(d, pth[0int], pth[0int + 1]));
            assert(subteams_of(d, g).contains(pth[1int]));
        }
    }
    assert forall|h: Seq<char>|
        member_closure(d, gs).contains(h) implies direct_people(d, g).to_set().contains(h) by {
        let t = choose|t: Seq<char>|
            #[trigger] team_reachable(d, gs, t) && direct_people(d, t).contains(h);
        assert(t == g);
    }
    assert forall|h: Seq<char>|
        direct_people(d, g).to_set().contains(h) implies member_closure(d, gs).contains(h) by {
        lemma_reaches_self(d, g);
        assert(gs.contains(g));
        assert(team_reachable(d, gs, g));
        assert(direct_people(d, g).contains(h));
    }
    assert(resolved_identities(d, p) =~= direct_people(d, g).to_set());
}

/// A permission whose single grant-source team nests another team resolves
/// to the union of both teams' transitive memberships: nesting never loses
/// members, and the nested team contributes all of its own.
pub proof fn lemma_nested_grant_resolution(d: Data, p: Seq<char>, g: Seq<char>, h: Seq<char>)
    requires
        grant_root_set(d, p) == set![g],
        edge(d, g, h),
    ensures
        resolved_identities(d, p) == member_closure(d, set![g]).union(member_closure(d, set![h])),
{
    let gs = set![g];
    let hs = set![h];
    assert forall|x: Seq<char>|
        member_closure(d, hs).contains(x) implies member_closure(d, gs).contains(x) by {
        let t = choose|t: Seq<char>|
            #[trigger] team_reachable(d, hs, t) && direct_people(d, t).contains(x);
        let r0 = choose|r0: Seq<char>| #[trigger] hs.contains(r0) && reaches(d, r0, t);
        assert(r0 == h);
        lemma_reaches_self(d, g);
        lemma_reaches_step(d, g, g, h);
        lemma_reaches_trans(d, g, h, t);
        assert(gs.contains(g));
        assert(team_reachable(d, gs, t));
    }
    assert(resolved_identities(d, p) =~= member_closure(d, gs).union(member_closure(d, hs)));
}

} // verus!
