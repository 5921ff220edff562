//! The immutable, in-memory data store: people, teams and mailing lists,
//! each looked up by name. Loading the store from its on-disk encoding is
//! the caller's concern; everything here only reads the loaded values.

use vstd::prelude::*;

verus! {

/// A single identity: a stable handle and an optional email address.
pub struct Person {
    pub handle: String,
    pub email: Option<String>,
}

/// A named group. Direct members are either people (by handle) or other
/// teams (by name); leads are the distinguished subset of the person
/// members; `permissions` names the permissions this team grants to its
/// transitive membership.
pub struct Team {
    pub name: String,
    pub people: Vec<String>,
    pub subteams: Vec<String>,
    pub leads: Vec<String>,
    pub permissions: Vec<String>,
}

/// A named mailing list: literal addresses plus addresses derived from the
/// members of the named teams. Lists reference teams and literal addresses
/// only; a list never nests another list.
pub struct List {
    pub name: String,
    pub emails: Vec<String>,
    pub teams: Vec<String>,
}

/// The whole registry. Built once by an external loader and then only read.
pub struct Data {
    pub people: Vec<Person>,
    pub teams: Vec<Team>,
    pub lists: Vec<List>,
}

/// The character sequences of a sequence of strings.
pub open spec fn str_views(s: Seq<String>) -> Seq<Seq<char>> {
    s.map_values(|x: String| x@)
}

pub broadcast proof fn lemma_str_views_push(s: Seq<String>, x: String)
    ensures
        #[trigger] str_views(s.push(x)) =~= str_views(s).push(x@),
{
}

pub broadcast proof fn lemma_str_views_contains(s: Seq<String>, n: Seq<char>)
    ensures
        #[trigger] str_views(s).contains(n) <==> exists|i: int| 0 <= i < s.len() && s[i]@ == n,
{
    if str_views(s).contains(n) {
        let i = choose|i: int| 0 <= i < str_views(s).len() && str_views(s)[i] == n;
        assert(s[i]@ == n);
    }
    if exists|i: int| 0 <= i < s.len() && s[i]@ == n {
        let i = choose|i: int| 0 <= i < s.len() && s[i]@ == n;
        assert(str_views(s)[i] == n);
    }
}

/// The names of all teams, in declaration order.
pub open spec fn team_names(d: Data) -> Seq<Seq<char>> {
    d.teams@.map_values(|t: Team| t.name@)
}

/// The names of all lists, in declaration order.
pub open spec fn list_names(d: Data) -> Seq<Seq<char>> {
    d.lists@.map_values(|l: List| l.name@)
}

/// The handles of all people, in declaration order.
pub open spec fn person_handles(d: Data) -> Seq<Seq<char>> {
    d.people@.map_values(|p: Person| p.handle@)
}

/// Index of the first occurrence of `n`, or `None` when `n` does not occur.
pub open spec fn find_name(ns: Seq<Seq<char>>, n: Seq<char>) -> Option<int>
    decreases ns.len(),
{
    if ns.len() == 0 {
        None
    } else if ns[0] == n {
        Some(0int)
    } else {
        match find_name(ns.drop_first(), n) {
            Some(i) => Some(i + 1),
            None => None,
        }
    }
}

pub proof fn lemma_find_name(ns: Seq<Seq<char>>, n: Seq<char>)
    ensures
        match find_name(ns, n) {
            Some(i) => 0 <= i < ns.len() && ns[i] == n && (forall|k: int|
                0 <= k < i ==> ns[k] != n),
            None => forall|k: int| 0 <= k < ns.len() ==> ns[k] != n,
        },
    decreases ns.len(),
{
    if ns.len() == 0 {
    } else if ns[0] == n {
    } else {
        let rest = ns.drop_first();
        lemma_find_name(rest, n);
        assert(forall|k: int| 0 <= k < rest.len() ==> rest[k] == ns[k + 1]);
        match find_name(rest, n) {
            Some(i) => {
                assert(ns[i + 1] == n);
                assert forall|k: int| 0 <= k < i + 1 implies ns[k] != n by {
                    if k > 0 {
                        assert(rest[k - 1] != n);
                    }
                }
            },
            None => {
                assert forall|k: int| 0 <= k < ns.len() implies ns[k] != n by {
                    if k > 0 {
                        assert(rest[k - 1] != n);
                    }
                }
            },
        }
    }
}

pub proof fn lemma_find_name_skip(ns: Seq<Seq<char>>, n: Seq<char>, i: int)
    requires
        0 <= i <= ns.len(),
        forall|k: int| 0 <= k < i ==> ns[k] != n,
    ensures
        find_name(ns, n) == match find_name(ns.skip(i), n) {
            Some(j) => Some(i + j),
            None => None::<int>,
        },
    decreases i,
{
    if i == 0 {
        assert(ns.skip(0) =~= ns);
    } else {
        assert(ns.len() > 0);
        assert(ns[0] != n);
        lemma_find_name_skip(ns.drop_first(), n, i - 1);
        assert(ns.drop_first().skip(i - 1) =~= ns.skip(i));
    }
}

/// Whether some team is named `n`.
pub open spec fn has_team(d: Data, n: Seq<char>) -> bool {
    find_name(team_names(d), n).is_some()
}

/// Index of the first team named `n` (meaningful only when `has_team`).
pub open spec fn team_index(d: Data, n: Seq<char>) -> int {
    find_name(team_names(d), n).unwrap()
}

/// The first team named `n`: the one every lookup by name resolves to.
pub open spec fn team_at(d: Data, n: Seq<char>) -> Team {
    d.teams@[team_index(d, n)]
}

pub open spec fn has_list(d: Data, n: Seq<char>) -> bool {
    find_name(list_names(d), n).is_some()
}

pub open spec fn list_index(d: Data, n: Seq<char>) -> int {
    find_name(list_names(d), n).unwrap()
}

pub open spec fn list_at(d: Data, n: Seq<char>) -> List {
    d.lists@[list_index(d, n)]
}

pub open spec fn has_person(d: Data, n: Seq<char>) -> bool {
    find_name(person_handles(d), n).is_some()
}

pub open spec fn person_index(d: Data, n: Seq<char>) -> int {
    find_name(person_handles(d), n).unwrap()
}

pub open spec fn person_at(d: Data, n: Seq<char>) -> Person {
    d.people@[person_index(d, n)]
}

/// `i` is the index of a team that a lookup of its own name resolves to:
/// no earlier team shares the name.
pub open spec fn first_idx(d: Data, i: int) -> bool {
    0 <= i < d.teams@.len() && (forall|k: int|
        0 <= k < i ==> d.teams@[k].name@ != d.teams@[i].name@)
}

pub proof fn lemma_first_idx_team(d: Data, i: int)
    requires
        first_idx(d, i),
    ensures
        has_team(d, d.teams@[i].name@),
        team_index(d, d.teams@[i].name@) == i,
        team_at(d, d.teams@[i].name@) == d.teams@[i],
{
    let ns = team_names(d);
    let n = d.teams@[i].name@;
    lemma_find_name(ns, n);
    assert(ns[i] == n);
    match find_name(ns, n) {
        Some(j) => {
            assert(j <= i);
            assert(j >= i) by {
                if j < i {
                    assert(d.teams@[j].name@ != d.teams@[i].name@);
                    assert(ns[j] == d.teams@[j].name@);
                }
            }
        },
        None => {
            assert(ns[i] != n);
        },
    }
}

pub proof fn lemma_team_index_first(d: Data, n: Seq<char>)
    requires
        has_team(d, n),
    ensures
        0 <= team_index(d, n) < d.teams@.len(),
        first_idx(d, team_index(d, n)),
        d.teams@[team_index(d, n)].name@ == n,
{
    lemma_find_name(team_names(d), n);
    let idx = team_index(d, n);
    assert forall|k: int| 0 <= k < idx implies d.teams@[k].name@ != d.teams@[idx].name@ by {
        assert(team_names(d)[k] == d.teams@[k].name@);
        assert(team_names(d)[k] != n);
    }
}

pub proof fn lemma_first_idx_unique(d: Data, i: int, j: int)
    requires
        first_idx(d, i),
        first_idx(d, j),
        d.teams@[i].name@ == d.teams@[j].name@,
    ensures
        i == j,
{
    lemma_first_idx_team(d, i);
    lemma_first_idx_team(d, j);
}

/// String equality on the contents.
pub fn string_eq(a: &String, b: &String) -> (r: bool)
    ensures
        r == (a@ == b@),
{
    a.eq(b)
}

/// Whether some string in `v` has the contents `x`.
#[verifier::loop_isolation(false)]
pub fn contains_string(v: &Vec<String>, x: &String) -> (r: bool)
    ensures
        r == str_views(v@).contains(x@),
{
    broadcast use lemma_str_views_contains;

    let mut i: usize = 0;
    while i < v.len()
        invariant
            0 <= i <= v@.len(),
            forall|k: int| 0 <= k < i ==> v@[k]@ != x@,
        decreases v@.len() - i,
    {
        if string_eq(&v[i], x) {
            proof {
                assert(str_views(v@)[i as int] == x@);
            }
            return true;
        }
        i += 1;
    }
    false
}

/// Whether `v` holds the index `x`.
#[verifier::loop_isolation(false)]
pub fn contains_usize(v: &Vec<usize>, x: usize) -> (r: bool)
    ensures
        r == v@.contains(x),
{
    let mut i: usize = 0;
    while i < v.len()
        invariant
            0 <= i <= v@.len(),
            forall|k: int| 0 <= k < i ==> v@[k] != x,
        decreases v@.len() - i,
    {
        if v[i] == x {
            return true;
        }
        i += 1;
    }
    false
}

impl Data {
    /// Index of the first team with the given name.
    #[verifier::loop_isolation(false)]
    pub fn team_index_of(&self, name: &String) -> (r: Option<usize>)
        ensures
            match r {
                Some(i) => has_team(*self, name@) && team_index(*self, name@) == i as int
                    && first_idx(*self, i as int) && i < self.teams@.len()
                    && self.teams@[i as int].name@ == name@,
                None => !has_team(*self, name@),
            },
    {
        let ghost ns = team_names(*self);
        let mut i: usize = 0;
        while i < self.teams.len()
            invariant
                0 <= i <= self.teams@.len(),
                forall|k: int| 0 <= k < i ==> self.teams@[k].name@ != name@,
            decreases self.teams@.len() - i,
        {
            if string_eq(&self.teams[i].name, name) {
                proof {
                    assert(forall|k: int| 0 <= k < i ==> ns[k] != name@);
                    lemma_find_name_skip(ns, name@, i as int);
                    assert(ns.skip(i as int)[0] == ns[i as int]);
                }
                return Some(i);
            }
            i += 1;
        }
        proof {
            assert(forall|k: int| 0 <= k < i ==> ns[k] != name@);
            lemma_find_name_skip(ns, name@, i as int);
            assert(ns.skip(i as int).len() == 0);
        }
        None
    }

    /// Look up a team by name; the first declaration with that name wins.
    pub fn team<'a>(&'a self, name: &String) -> (r: Option<&'a Team>)
        ensures
            r.is_some() <==> has_team(*self, name@),
            match r {
                Some(t) => *t == team_at(*self, name@),
                None => true,
            },
    {
        match self.team_index_of(name) {
            Some(i) => Some(&self.teams[i]),
            None => None,
        }
    }

    /// Look up a list by name; the first declaration with that name wins.
    #[verifier::loop_isolation(false)]
    pub fn list<'a>(&'a self, name: &String) -> (r: Option<&'a List>)
        ensures
            r.is_some() <==> has_list(*self, name@),
            match r {
                Some(l) => *l == list_at(*self, name@),
                None => true,
            },
    {
        let ghost ns = list_names(*self);
        let mut i: usize = 0;
        while i < self.lists.len()
            invariant
                0 <= i <= self.lists@.len(),
                forall|k: int| 0 <= k < i ==> self.lists@[k].name@ != name@,
            decreases self.lists@.len() - i,
        {
            if string_eq(&self.lists[i].name, name) {
                proof {
                    assert(forall|k: int| 0 <= k < i ==> ns[k] != name@);
                    lemma_find_name_skip(ns, name@, i as int);
                    assert(ns.skip(i as int)[0] == ns[i as int]);
                }
                return Some(&self.lists[i]);
            }
            i += 1;
        }
        proof {
            assert(forall|k: int| 0 <= k < i ==> ns[k] != name@);
            lemma_find_name_skip(ns, name@, i as int);
            assert(ns.skip(i as int).len() == 0);
        }
        None
    }

    /// Look up a person by handle; the first declaration with that handle wins.
    #[verifier::loop_isolation(false)]
    pub fn person<'a>(&'a self, handle: &String) -> (r: Option<&'a Person>)
        ensures
            r.is_some() <==> has_person(*self, handle@),
            match r {
                Some(p) => *p == person_at(*self, handle@),
                None => true,
            },
    {
        let ghost ns = person_handles(*self);
        let mut i: usize = 0;
        while i < self.people.len()
            invariant
                0 <= i <= self.people@.len(),
                forall|k: int| 0 <= k < i ==> self.people@[k].handle@ != handle@,
            decreases self.people@.len() - i,
        {
            if string_eq(&self.people[i].handle, handle) {
                proof {
                    assert(forall|k: int| 0 <= k < i ==> ns[k] != handle@);
                    lemma_find_name_skip(ns, handle@, i as int);
                    assert(ns.skip(i as int)[0] == ns[i as int]);
                }
                return Some(&self.people[i]);
            }
            i += 1;
        }
        proof {
            assert(forall|k: int| 0 <= k < i ==> ns[k] != handle@);
            lemma_find_name_skip(ns, handle@, i as int);
            assert(ns.skip(i as int).len() == 0);
        }
        None
    }
}

} // verus!
