//! Thin read operations over a validated store: the members of a team, the
//! addresses of a list, and lead membership. Output formatting and ordering
//! for display are the caller's concern; every enumeration here is
//! deduplicated and pinned down as a set.

use vstd::prelude::*;

use crate::data::{
    contains_string, has_list, has_person, has_team, list_at, person_at, str_views, team_at, Data,
    List,
};
use crate::errors::LookupError;
use crate::graph::{member_closure, member_handles};

verus! {

/// The transitive person membership of the team named `n`.
pub open spec fn team_member_set(d: Data, n: Seq<char>) -> Set<Seq<char>> {
    member_closure(d, set![n])
}

/// The handles of everyone in the named team, nested teams included, each
/// handle once. Fails exactly when no team has that name.
pub fn team_members(d: &Data, name: &String) -> (r: Result<Vec<String>, LookupError>)
    ensures
        r.is_ok() <==> has_team(*d, name@),
        match r {
            Ok(v) => str_views(v@).no_duplicates() && str_views(v@).to_set() == team_member_set(
                *d,
                name@,
            ),
            Err(e) => e == LookupError::UnknownTeam,
        },
{
    broadcast use crate::data::lemma_str_views_push;

    if d.team_index_of(name).is_none() {
        return Err(LookupError::UnknownTeam);
    }
    let mut roots: Vec<String> = Vec::new();
    roots.push(name.clone());
    let out = member_handles(d, &roots);
    proof {
        assert(str_views(roots@).len() == 1 && str_views(roots@)[0] == name@);
        assert forall|x: Seq<char>|
            str_views(roots@).to_set().contains(x) == set![name@].contains(x) by {
            if str_views(roots@).to_set().contains(x) {
                let k = choose|k: int|
                    0 <= k < str_views(roots@).len() && str_views(roots@)[k] == x;
            }
            if x == name@ {
                assert(str_views(roots@)[0] == x);
            }
        }
        assert(str_views(roots@).to_set() =~= set![name@]);
    }
    Ok(out)
}

/// Whether `handle` is a declared lead of the named team. Fails exactly
/// when no team has that name.
pub fn is_lead(d: &Data, team_name: &String, handle: &String) -> (r: Result<bool, LookupError>)
    ensures
        r.is_ok() <==> has_team(*d, team_name@),
        match r {
            Ok(b) => b == str_views(team_at(*d, team_name@).leads@).contains(handle@),
            Err(e) => e == LookupError::UnknownTeam,
        },
{
    match d.team(team_name) {
        Some(t) => Ok(contains_string(&t.leads, handle)),
        None => Err(LookupError::UnknownTeam),
    }
}

/// The email address of the known person with handle `h`, if any.
pub open spec fn email_of(d: Data, h: Seq<char>) -> Option<Seq<char>> {
    if has_person(d, h) {
        match person_at(d, h).email {
            Some(e) => Some(e@),
            None => None,
        }
    } else {
        None
    }
}

/// Every address of a list: its literal addresses, plus the known email of
/// every person in the transitive membership of its derived teams.
pub open spec fn list_email_set(d: Data, l: List) -> Set<Seq<char>> {
    str_views(l.emails@).to_set().union(
        Set::new(
            |e: Seq<char>|
                exists|h: Seq<char>|
                    #[trigger] member_closure(d, str_views(l.teams@).to_set()).contains(h)
                        && email_of(d, h) == Some(e),
        ),
    )
}

/// The addresses of the named list, each once. Fails exactly when no list
/// has that name.
#[verifier::loop_isolation(false)]
pub fn list_emails(d: &Data, name: &String) -> (r: Result<Vec<String>, LookupError>)
    ensures
        r.is_ok() <==> has_list(*d, name@),
        match r {
            Ok(v) => str_views(v@).no_duplicates() && str_views(v@).to_set() == list_email_set(
                *d,
                list_at(*d, name@),
            ),
            Err(e) => e == LookupError::UnknownList,
        },
{
    broadcast use vstd::seq_lib::lemma_seq_contains_after_push;
    broadcast use crate::data::lemma_str_views_push;

    let list = match d.list(name) {
        Some(l) => l,
        None => {
            return Err(LookupError::UnknownList);
        },
    };
    let ghost lv = list_at(*d, name@);
    let ghost mc = member_closure(*d, str_views(lv.teams@).to_set());
    let mut out: Vec<String> = Vec::new();
    let mut i: usize = 0;
    while i < list.emails.len()
        invariant
            0 <= i <= list.emails@.len(),
            list == &lv,
            str_views(out@).no_duplicates(),
            forall|k: int| 0 <= k < out@.len() ==> list_email_set(*d, lv).contains(out@[k]@),
            forall|k: int| 0 <= k < i ==> str_views(out@).contains(#[trigger] lv.emails@[k]@),
        decreases list.emails@.len() - i,
    {
        let e = &list.emails[i];
        if !contains_string(&out, e) {
            proof {
                assert(str_views(lv.emails@)[i as int] == e@);
                assert(list_email_set(*d, lv).contains(e@));
            }
            out.push(e.clone());
        }
        proof {
            assert(str_views(out@).contains(lv.emails@[i as int]@));
        }
        i += 1;
    }
    let handles = member_handles(d, &list.teams);
    let mut j: usize = 0;
    while j < handles.len()
        invariant
            0 <= j <= handles@.len(),
            str_views(handles@).to_set() == mc,
            str_views(out@).no_duplicates(),
            forall|k: int| 0 <= k < out@.len() ==> list_email_set(*d, lv).contains(out@[k]@),
            forall|k: int|
                0 <= k < lv.emails@.len() ==> str_views(out@).contains(#[trigger] lv.emails@[k]@),
            forall|k: int|
                0 <= k < j ==> match email_of(*d, #[trigger] str_views(handles@)[k]) {
                    Some(e) => str_views(out@).contains(e),
                    None => true,
                },
        decreases handles@.len() - j,
    {
        let h = &handles[j];
        proof {
            assert(str_views(handles@)[j as int] == h@);
        }
        match d.person(h) {
            Some(p) => {
                match &p.email {
                    Some(e) => {
                        if !contains_string(&out, e) {
                            proof {
                                assert(mc.contains(h@)) by {
                                    assert(str_views(handles@).to_set().contains(h@));
                                }
                                assert(email_of(*d, h@) == Some(e@));
                                assert(list_email_set(*d, lv).contains(e@));
                            }
                            out.push(e.clone());
                        }
                        proof {
                            assert(email_of(*d, h@) == Some(e@));
                            assert(str_views(out@).contains(e@));
                        }
                    },
                    None => {
                        proof {
                            assert(email_of(*d, h@) is None);
                        }
                    },
                }
            },
            None => {
                proof {
                    assert(email_of(*d, h@) is None);
                }
            },
        }
        j += 1;
    }
    proof {
        assert forall|x: Seq<char>|
            list_email_set(*d, lv).contains(x) implies str_views(out@).contains(x) by {
            if str_views(lv.emails@).to_set().contains(x) {
                let k = choose|k: int|
                    0 <= k < str_views(lv.emails@).len() && str_views(lv.emails@)[k] == x;
                assert(lv.emails@[k]@ == x);
            } else {
                let h = choose|h: Seq<char>|
                    #[trigger] member_closure(*d, str_views(lv.teams@).to_set()).contains(h)
                        && email_of(*d, h) == Some(x);
                assert(mc.contains(h));
                assert(str_views(handles@).to_set().contains(h));
                let k = choose|k: int|
                    0 <= k < str_views(handles@).len() && str_views(handles@)[k] == h;
                assert(match email_of(*d, str_views(handles@)[k]) {
                    Some(e) => str_views(out@).contains(e),
                    None => true,
                });
            }
        }
        assert forall|x: Seq<char>|
            str_views(out@).contains(x) implies list_email_set(*d, lv).contains(x) by {
            let k = choose|k: int| 0 <= k < str_views(out@).len() && str_views(out@)[k] == x;
            assert(list_email_set(*d, lv).contains(out@[k]@));
        }
        assert(str_views(out@).to_set() =~= list_email_set(*d, lv));
    }
    Ok(out)
}

} // verus!
