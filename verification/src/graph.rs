//! The team-composition graph and its traversal. Teams reference other
//! teams by name; an edge goes from a team to each name it nests, resolved
//! through the store. The traversal collects every team reachable from a
//! set of roots, tracking visited teams so that it terminates on every
//! store, cyclic ones included.

use vstd::prelude::*;

use crate::data::{
    contains_string, contains_usize, first_idx, has_team, lemma_first_idx_team, str_views,
    team_at, Data,
};

verus! {

/// The names team `a` nests directly (empty when no team is named `a`).
pub open spec fn subteams_of(d: Data, a: Seq<char>) -> Seq<Seq<char>> {
    str_views(team_at(d, a).subteams@)
}

/// An edge of the composition graph: the team named `a` nests the name `b`.
/// `b` need not itself name a team; such a dangling edge leads nowhere.
pub open spec fn edge(d: Data, a: Seq<char>, b: Seq<char>) -> bool {
    has_team(d, a) && subteams_of(d, a).contains(b)
}

/// Consecutive entries of `p` are joined by edges.
pub open spec fn is_path(d: Data, p: Seq<Seq<char>>) -> bool {
    forall|i: int| 0 <= i < p.len() - 1 ==> #[trigger] edge(d, p[i], p[i + 1])
}

/// `p` is a path that starts at `a` and ends at `b`.
pub open spec fn connects(d: Data, p: Seq<Seq<char>>, a: Seq<char>, b: Seq<char>) -> bool {
    p.len() >= 1 && is_path(d, p) && p.first() == a && p.last() == b
}

/// The name `b` can be reached from `a` along composition edges
/// (in zero or more steps; every name reaches itself).
pub open spec fn reaches(d: Data, a: Seq<char>, b: Seq<char>) -> bool {
    exists|p: Seq<Seq<char>>| connects(d, p, a, b)
}

/// Some root in `roots` reaches `b`.
pub open spec fn reaches_any(d: Data, roots: Set<Seq<char>>, b: Seq<char>) -> bool {
    exists|r: Seq<char>| #[trigger] roots.contains(r) && reaches(d, r, b)
}

/// `t` names a team reachable from one of the roots.
pub open spec fn team_reachable(d: Data, roots: Set<Seq<char>>, t: Seq<char>) -> bool {
    has_team(d, t) && reaches_any(d, roots, t)
}

/// All teams reachable from the roots.
pub open spec fn reachable_team_set(d: Data, roots: Set<Seq<char>>) -> Set<Seq<char>> {
    Set::new(|t: Seq<char>| team_reachable(d, roots, t))
}

/// The handles the team named `t` lists as direct person members.
pub open spec fn direct_people(d: Data, t: Seq<char>) -> Seq<Seq<char>> {
    str_views(team_at(d, t).people@)
}

/// Every handle held by some team reachable from the roots: the transitive
/// membership of the roots.
pub open spec fn member_closure(d: Data, roots: Set<Seq<char>>) -> Set<Seq<char>> {
    Set::new(
        |h: Seq<char>|
            exists|t: Seq<char>|
                #[trigger] team_reachable(d, roots, t) && direct_people(d, t).contains(h),
    )
}

pub proof fn lemma_reaches_self(d: Data, a: Seq<char>)
    ensures
        reaches(d, a, a),
{
    let p = seq![a];
    assert(connects(d, p, a, a));
}

pub proof fn lemma_reaches_step(d: Data, a: Seq<char>, b: Seq<char>, c: Seq<char>)
    requires
        reaches(d, a, b),
        edge(d, b, c),
    ensures
        reaches(d, a, c),
{
    let p = choose|p: Seq<Seq<char>>| connects(d, p, a, b);
    let q = p.push(c);
    assert(forall|i: int| #![trigger q[i]] 0 <= i < p.len() - 1 ==> q[i] == p[i] && q[i + 1] == p[i + 1]);
    assert(q[p.len() - 1] == p.last() && q[p.len() as int] == c);
    assert(is_path(d, q));
    assert(connects(d, q, a, c));
}

proof fn lemma_reaches_along(d: Data, a: Seq<char>, p: Seq<Seq<char>>)
    requires
        p.len() >= 1,
        is_path(d, p),
        reaches(d, a, p.first()),
    ensures
        reaches(d, a, p.last()),
    decreases p.len(),
{
    if p.len() == 1 {
    } else {
        let q = p.drop_last();
        assert(forall|i: int| #![trigger q[i]] 0 <= i < q.len() - 1 ==> q[i] == p[i] && q[i + 1] == p[i + 1]);
        assert(is_path(d, q));
        lemma_reaches_along(d, a, q);
        let k = p.len() - 2;
        assert(edge(d, p[k], p[k + 1]));
        assert(q.last() == p[k]);
        lemma_reaches_step(d, a, q.last(), p.last());
    }
}

pub proof fn lemma_reaches_trans(d: Data, a: Seq<char>, b: Seq<char>, c: Seq<char>)
    requires
        reaches(d, a, b),
        reaches(d, b, c),
    ensures
        reaches(d, a, c),
{
    let p = choose|p: Seq<Seq<char>>| connects(d, p, b, c);
    lemma_reaches_along(d, a, p);
}

/// Every edge out of `t` that leads to a team stays inside `s`.
pub open spec fn closed_in(d: Data, s: Set<Seq<char>>, t: Seq<char>) -> bool {
    forall|b: Seq<char>| edge(d, t, b) && has_team(d, b) ==> s.contains(b)
}

/// A set of team names that contains an end of a path and is closed under
/// edges contains the path's other end.
proof fn lemma_closed_contains_path_end(d: Data, s: Set<Seq<char>>, p: Seq<Seq<char>>)
    requires
        p.len() >= 1,
        is_path(d, p),
        s.contains(p.first()),
        has_team(d, p.last()),
        forall|x: Seq<char>| #[trigger] s.contains(x) ==> closed_in(d, s, x),
    ensures
        s.contains(p.last()),
    decreases p.len(),
{
    if p.len() == 1 {
    } else {
        let q = p.drop_last();
        assert(forall|i: int| #![trigger q[i]] 0 <= i < q.len() - 1 ==> q[i] == p[i] && q[i + 1] == p[i + 1]);
        assert(is_path(d, q));
        let k = p.len() - 2;
        assert(edge(d, p[k], p[k + 1]));
        assert(has_team(d, q.last()));
        lemma_closed_contains_path_end(d, s, q);
        assert(closed_in(d, s, q.last()));
    }
}

/// The team names at the given indices.
pub open spec fn idx_names(d: Data, v: Seq<usize>) -> Set<Seq<char>> {
    v.map_values(|i: usize| d.teams@[i as int].name@).to_set()
}

/// All distinct first indices of teams reachable from the given root names.
///
/// The traversal tracks visited teams, so it terminates on every store,
/// whether or not the composition graph has cycles.
#[verifier::loop_isolation(false)]
pub fn reachable_team_indices(d: &Data, roots: &Vec<String>) -> (r: Vec<usize>)
    ensures
        r@.no_duplicates(),
        forall|k: int| 0 <= k < r@.len() ==> first_idx(*d, r@[k] as int),
        idx_names(*d, r@) == reachable_team_set(*d, str_views(roots@).to_set()),
{
    broadcast use vstd::seq_lib::lemma_seq_contains_after_push;

    let ghost rset = str_views(roots@).to_set();
    let mut visited: Vec<usize> = Vec::new();
    let mut stack: Vec<usize> = Vec::new();

    let mut ri: usize = 0;
    while ri < roots.len()
        invariant
            0 <= ri <= roots@.len(),
            visited@.no_duplicates(),
            visited@.len() <= d.teams@.len(),
            forall|k: int| 0 <= k < visited@.len() ==> first_idx(*d, visited@[k] as int),
            forall|k: int| 0 <= k < stack@.len() ==> visited@.contains(stack@[k]),
            forall|k: int| 0 <= k < visited@.len() ==> stack@.contains(visited@[k]),
            forall|k: int|
                0 <= k < visited@.len() ==> reaches_any(
                    *d,
                    rset,
                    d.teams@[visited@[k] as int].name@,
                ),
            forall|n: Seq<char>|
                #[trigger] rset.contains(n) && has_team(*d, n) && (exists|j: int|
                    0 <= j < ri && roots@[j]@ == n) ==> idx_names(*d, visited@).contains(n),
        decreases roots@.len() - ri,
    {
        let root = &roots[ri];
        let ghost visited_pre = visited@;
        match d.team_index_of(root) {
            Some(j) => {
                if !contains_usize(&visited, j) {
                    proof {
                        lemma_reaches_self(*d, root@);
                        assert(rset.contains(root@)) by {
                            assert(str_views(roots@)[ri as int] == root@);
                        }
                        lemma_visited_len_bound(*d, visited@.push(j));
                    }
                    visited.push(j);
                    stack.push(j);
                    proof {
                        lemma_idx_names_push(*d, visited_pre, j);
                        assert(idx_names(*d, visited@) =~= idx_names(*d, visited_pre).insert(
                            d.teams@[j as int].name@,
                        ));
                    }
                } else {
                    proof {
                        let k = choose|k: int| 0 <= k < visited@.len() && visited@[k] == j;
                        assert(idx_names(*d, visited@).contains(d.teams@[j as int].name@)) by {
                            assert(visited@.map_values(|i: usize| d.teams@[i as int].name@)[k]
                                == d.teams@[j as int].name@);
                        }
                    }
                }
            },
            None => {},
        }
        ri += 1;
    }

    proof {
        assert forall|n: Seq<char>| #[trigger] rset.contains(n) && has_team(*d, n) implies idx_names(
            *d,
            visited@,
        ).contains(n) by {
            let j = choose|j: int| 0 <= j < str_views(roots@).len() && str_views(roots@)[j] == n;
            assert(roots@[j]@ == n);
        }
    }
    while stack.len() > 0
        invariant
            visited@.no_duplicates(),
            visited@.len() <= d.teams@.len(),
            forall|k: int| 0 <= k < visited@.len() ==> first_idx(*d, visited@[k] as int),
            forall|k: int| 0 <= k < stack@.len() ==> visited@.contains(stack@[k]),
            forall|k: int|
                0 <= k < visited@.len() ==> reaches_any(
                    *d,
                    rset,
                    d.teams@[visited@[k] as int].name@,
                ),
            forall|n: Seq<char>|
                #[trigger] rset.contains(n) && has_team(*d, n) ==> idx_names(
                    *d,
                    visited@,
                ).contains(n),
            forall|k: int|
                0 <= k < visited@.len() ==> stack@.contains(visited@[k]) || closed_in(
                    *d,
                    idx_names(*d, visited@),
                    d.teams@[visited@[k] as int].name@,
                ),
        decreases d.teams@.len() - visited@.len(), stack@.len(),
    {
        let ghost visited0 = visited@;
        let ghost stack_entry = stack@;
        let t = stack.pop().unwrap();
        let ghost stack0 = stack@;
        let ghost tname = d.teams@[t as int].name@;
        proof {
            assert(visited@.contains(t));
            let k = choose|k: int| 0 <= k < visited@.len() && visited@[k] == t;
            assert(first_idx(*d, t as int));
            lemma_first_idx_team(*d, t as int);
            assert(t == stack_entry.last());
            assert(stack0 =~= stack_entry.drop_last());
            // The popped team may no longer be on the stack; every other
            // visited team is still on it or was already closed.
            assert forall|kk: int|
                0 <= kk < visited@.len() && visited@[kk] != t && !stack@.contains(
                    visited@[kk],
                ) implies closed_in(
                *d,
                idx_names(*d, visited@),
                d.teams@[visited@[kk] as int].name@,
            ) by {
                let vk = visited@[kk];
                if stack_entry.contains(vk) {
                    let m = choose|m: int|
                        0 <= m < stack_entry.len() && stack_entry[m] == vk;
                    assert(m < stack_entry.len() - 1);
                    assert(stack@[m] == stack_entry[m]);
                }
            }
        }
        let team = &d.teams[t];
        let mut si: usize = 0;
        while si < team.subteams.len()
            invariant
                0 <= si <= team.subteams@.len(),
                team == &d.teams@[t as int],
                t < d.teams@.len(),
                first_idx(*d, t as int),
                has_team(*d, tname),
                team_at(*d, tname) == d.teams@[t as int],
                tname == d.teams@[t as int].name@,
                visited@.no_duplicates(),
                visited@.len() <= d.teams@.len(),
                visited@.len() >= visited0.len(),
                visited@.len() - visited0.len() == stack@.len() - stack0.len(),
                visited@.contains(t),
                forall|k: int| 0 <= k < visited@.len() ==> first_idx(*d, visited@[k] as int),
                forall|k: int| 0 <= k < stack@.len() ==> visited@.contains(stack@[k]),
                forall|k: int|
                    0 <= k < visited@.len() ==> reaches_any(
                        *d,
                        rset,
                        d.teams@[visited@[k] as int].name@,
                    ),
                forall|n: Seq<char>|
                    #[trigger] rset.contains(n) && has_team(*d, n) ==> idx_names(
                        *d,
                        visited@,
                    ).contains(n),
                forall|k: int|
                    0 <= k < visited@.len() ==> visited@[k] == t || stack@.contains(visited@[k])
                        || closed_in(*d, idx_names(*d, visited@), d.teams@[visited@[k] as int].name@),
                forall|b: Seq<char>|
                    subteams_of(*d, tname).take(si as int).contains(b) && has_team(*d, b)
                        ==> idx_names(*d, visited@).contains(b),
            decreases team.subteams@.len() - si,
        {
            let sub = &team.subteams[si];
            let ghost visited_pre = visited@;
            match d.team_index_of(sub) {
                Some(j) => {
                    if !contains_usize(&visited, j) {
                        proof {
                            assert(reaches_any(*d, rset, tname));
                            let r0 = choose|r0: Seq<char>|
                                #[trigger] rset.contains(r0) && reaches(*d, r0, tname);
                            assert(edge(*d, tname, sub@)) by {
                                assert(str_views(team_at(*d, tname).subteams@)[si as int] == sub@);
                            }
                            lemma_reaches_step(*d, r0, tname, sub@);
                            lemma_visited_len_bound(*d, visited@.push(j));
                        }
                        visited.push(j);
                        stack.push(j);
                        proof {
                            lemma_idx_names_push(*d, visited_pre, j);
                            assert(idx_names(*d, visited@) =~= idx_names(*d, visited_pre).insert(
                                d.teams@[j as int].name@,
                            ));
                            assert(forall|k: int|
                                0 <= k < stack@.len() - 1 ==> stack@[k] == stack@.drop_last()[k]);
                        }
                    } else {
                        proof {
                            let k = choose|k: int|
                                0 <= k < visited@.len() && visited@[k] == j;
                            assert(idx_names(*d, visited@).contains(d.teams@[j as int].name@)) by {
                                assert(visited@.map_values(|i: usize| d.teams@[i as int].name@)[k]
                                    == d.teams@[j as int].name@);
                            }
                        }
                    }
                    proof {
                        assert(d.teams@[j as int].name@ == sub@);
                    }
                },
                None => {},
            }
            proof {
                assert(subteams_of(*d, tname).take(si + 1).drop_last() =~= subteams_of(
                    *d,
                    tname,
                ).take(si as int));
                assert(subteams_of(*d, tname).take(si + 1).last() == sub@) by {
                    assert(str_views(team_at(*d, tname).subteams@)[si as int] == sub@);
                }
                assert(forall|b: Seq<char>|
                    subteams_of(*d, tname).take(si + 1).contains(b) ==> b == sub@ || subteams_of(
                        *d,
                        tname,
                    ).take(si as int).contains(b)) by {
                    assert(forall|b: Seq<char>|
                        #[trigger] subteams_of(*d, tname).take(si + 1).contains(b) && b != sub@
                            ==> subteams_of(*d, tname).take(si + 1).drop_last().contains(b));
                }
            }
            si += 1;
        }
        proof {
            assert(subteams_of(*d, tname).take(team.subteams@.len() as int) =~= subteams_of(
                *d,
                tname,
            ));
            assert(closed_in(*d, idx_names(*d, visited@), tname));
        }
        proof {
            // Re-establish the outer closedness invariant: a visited team is
            // either still on the stack, or was closed already, or is `t`,
            // which the inner loop has just closed.
            assert forall|k: int|
                0 <= k < visited@.len() && !stack@.contains(visited@[k]) implies closed_in(
                *d,
                idx_names(*d, visited@),
                d.teams@[visited@[k] as int].name@,
            ) by {
                let vk = visited@[k];
                if vk == t {
                    assert(d.teams@[vk as int].name@ == tname);
                }
            }
        }
    }

    proof {
        let s = idx_names(*d, visited@);
        assert forall|n: Seq<char>| reachable_team_set(*d, rset).contains(n) implies s.contains(
            n,
        ) by {
            assert(team_reachable(*d, rset, n));
            assert(reaches_any(*d, rset, n));
            let r0 = choose|r0: Seq<char>| #[trigger] rset.contains(r0) && reaches(*d, r0, n);
            let p = choose|p: Seq<Seq<char>>| connects(*d, p, r0, n);
            assert(p.len() >= 1 && is_path(*d, p) && p.first() == r0 && p.last() == n);
            if p.len() == 1 {
                assert(s.contains(n));
            } else {
                assert(edge(*d, p[0int], p[0int + 1]));
                assert(has_team(*d, r0));
                assert(s.contains(r0));
                assert(forall|x: Seq<char>| #[trigger] s.contains(x) ==> closed_in(*d, s, x)) by {
                    lemma_set_members_closed(*d, visited@, s);
                }
                lemma_closed_contains_path_end(*d, s, p);
            }
        }
        assert forall|n: Seq<char>| s.contains(n) implies reachable_team_set(*d, rset).contains(
            n,
        ) by {
            let ms = visited@.map_values(|i: usize| d.teams@[i as int].name@);
            let k = choose|k: int| 0 <= k < ms.len() && ms[k] == n;
            assert(first_idx(*d, visited@[k] as int));
            lemma_first_idx_team(*d, visited@[k] as int);
            assert(reaches_any(*d, rset, d.teams@[visited@[k] as int].name@));
        }
        assert(idx_names(*d, visited@) =~= reachable_team_set(*d, rset));
    }
    visited
}

/// The handles of every person reachable from the given root names through
/// nested team membership, each handle listed once.
#[verifier::loop_isolation(false)]
pub fn member_handles(d: &Data, roots: &Vec<String>) -> (r: Vec<String>)
    ensures
        str_views(r@).no_duplicates(),
        str_views(r@).to_set() == member_closure(*d, str_views(roots@).to_set()),
{
    broadcast use vstd::seq_lib::lemma_seq_contains_after_push;
    broadcast use crate::data::lemma_str_views_push;

    let ghost rset = str_views(roots@).to_set();
    let idxs = reachable_team_indices(d, roots);
    let mut out: Vec<String> = Vec::new();
    let mut i: usize = 0;
    while i < idxs.len()
        invariant
            0 <= i <= idxs@.len(),
            str_views(out@).no_duplicates(),
            forall|k: int|
                0 <= k < out@.len() ==> member_closure(*d, rset).contains(out@[k]@),
            forall|k: int, m: int|
                0 <= k < i && 0 <= m < d.teams@[idxs@[k] as int].people@.len()
                    ==> str_views(out@).contains(#[trigger] d.teams@[idxs@[k] as int].people@[m]@),
        decreases idxs@.len() - i,
    {
        let t = idxs[i];
        let ghost tname = d.teams@[t as int].name@;
        proof {
            assert(first_idx(*d, t as int));
            lemma_first_idx_team(*d, t as int);
            assert(idx_names(*d, idxs@).contains(tname)) by {
                assert(idxs@.map_values(|ix: usize| d.teams@[ix as int].name@)[i as int] == tname);
            }
            assert(team_reachable(*d, rset, tname));
        }
        let team = &d.teams[t];
        let mut m: usize = 0;
        while m < team.people.len()
            invariant
                0 <= m <= team.people@.len(),
                team == &d.teams@[t as int],
                t < d.teams@.len(),
                tname == d.teams@[t as int].name@,
                team_at(*d, tname) == d.teams@[t as int],
                team_reachable(*d, rset, tname),
                str_views(out@).no_duplicates(),
                forall|k: int|
                    0 <= k < out@.len() ==> member_closure(*d, rset).contains(out@[k]@),
                forall|k: int, mm: int|
                    0 <= k < i && 0 <= mm < d.teams@[idxs@[k] as int].people@.len()
                        ==> str_views(out@).contains(
                        #[trigger] d.teams@[idxs@[k] as int].people@[mm]@,
                    ),
                forall|mm: int|
                    0 <= mm < m ==> str_views(out@).contains(
                        #[trigger] d.teams@[t as int].people@[mm]@,
                    ),
            decreases team.people@.len() - m,
        {
            let h = &team.people[m];
            if !contains_string(&out, h) {
                proof {
                    assert(direct_people(*d, tname).contains(h@)) by {
                        assert(str_views(d.teams@[t as int].people@)[m as int] == h@);
                    }
                    assert(member_closure(*d, rset).contains(h@));
                }
                out.push(h.clone());
            }
            proof {
                assert(str_views(out@).contains(d.teams@[t as int].people@[m as int]@));
            }
            m += 1;
        }
        i += 1;
    }
    proof {
        assert forall|h: Seq<char>| member_closure(*d, rset).contains(h) implies str_views(
            out@,
        ).contains(h) by {
            let tn = choose|tn: Seq<char>|
                #[trigger] team_reachable(*d, rset, tn) && direct_people(*d, tn).contains(h);
            assert(reachable_team_set(*d, rset).contains(tn));
            assert(idx_names(*d, idxs@).contains(tn));
            let ms = idxs@.map_values(|ix: usize| d.teams@[ix as int].name@);
            let k = choose|k: int| 0 <= k < ms.len() && ms[k] == tn;
            lemma_first_idx_team(*d, idxs@[k] as int);
            let ppl = str_views(team_at(*d, tn).people@);
            let pm = choose|pm: int| 0 <= pm < ppl.len() && ppl[pm] == h;
            assert(d.teams@[idxs@[k] as int].people@[pm]@ == h);
        }
        assert forall|h: Seq<char>| str_views(out@).contains(h) implies member_closure(
            *d,
            rset,
        ).contains(h) by {
            let k = choose|k: int| 0 <= k < str_views(out@).len() && str_views(out@)[k] == h;
            assert(member_closure(*d, rset).contains(out@[k]@));
        }
        assert(str_views(out@).to_set() =~= member_closure(*d, rset));
    }
    out
}

/// Every member of `idx_names(d, v)` is closed in it, given the closedness
/// facts the traversal maintains once its stack is empty.
proof fn lemma_set_members_closed(d: Data, v: Seq<usize>, s: Set<Seq<char>>)
    requires
        s == idx_names(d, v),
        forall|k: int| 0 <= k < v.len() ==> first_idx(d, v[k] as int),
        forall|k: int|
            0 <= k < v.len() ==> closed_in(d, idx_names(d, v), d.teams@[v[k] as int].name@),
    ensures
        forall|x: Seq<char>| #[trigger] s.contains(x) ==> closed_in(d, s, x),
{
    assert forall|x: Seq<char>| #[trigger] s.contains(x) implies closed_in(d, s, x) by {
        let ms = v.map_values(|i: usize| d.teams@[i as int].name@);
        let k = choose|k: int| 0 <= k < ms.len() && ms[k] == x;
        assert(closed_in(d, idx_names(d, v), d.teams@[v[k] as int].name@));
    }
}

/// Distinct first indices stay within the number of teams.
proof fn lemma_visited_len_bound(d: Data, v: Seq<usize>)
    requires
        v.no_duplicates(),
        forall|k: int| 0 <= k < v.len() ==> 0 <= #[trigger] v[k] < d.teams@.len(),
    ensures
        v.len() <= d.teams@.len(),
{
    let m = v.map_values(|i: usize| i as int);
    assert(m.no_duplicates()) by {
        assert(forall|i: int, j: int|
            0 <= i < m.len() && 0 <= j < m.len() && i != j ==> m[i] != m[j]);
    }
    m.unique_seq_to_set();
    let bound = vstd::set_lib::set_int_range(0, d.teams@.len() as int);
    vstd::set_lib::lemma_int_range(0, d.teams@.len() as int);
    assert(m.to_set().subset_of(bound)) by {
        assert forall|x: int| m.to_set().contains(x) implies bound.contains(x) by {
            let k = choose|k: int| 0 <= k < m.len() && m[k] == x;
        }
    }
    vstd::set_lib::lemma_len_subset(m.to_set(), bound);
}

proof fn lemma_idx_names_push(d: Data, v: Seq<usize>, j: usize)
    ensures
        idx_names(d, v.push(j)) =~= idx_names(d, v).insert(d.teams@[j as int].name@),
{
    let f = |i: usize| d.teams@[i as int].name@;
    assert(v.push(j).map_values(f) =~= v.map_values(f).push(f(j)));
    assert(v.map_values(f).push(f(j)) =~= v.map_values(f) + seq![f(j)]);
    Seq::lemma_to_set_insert_commutes(v.map_values(f), f(j));
}

} // verus!
