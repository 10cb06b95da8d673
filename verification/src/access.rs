//! Capabilities and grants.
//!
//! A capability names one permission level on a stored object. `Owner` and
//! `Removed` are control sentinels: they appear only in permission queries and
//! mutation requests, never as a persisted grant.

use vstd::prelude::*;

use crate::strings::str_eq;

verus! {

/// A permission level on a stored object.
#[derive(Clone, Copy, Debug, PartialEq, Eq, Structural)]
pub enum Access {
    /// Sentinel: asks whether the acting identity is the object's owner.
    Owner,
    Admin,
    Write,
    Read,
    Delete,
    /// Sentinel: asks that the paired capability be revoked.
    Removed,
    Public,
}

/// How a bulk file upload was resolved.
#[derive(Clone, Copy, Debug, PartialEq, Eq, Structural)]
pub enum FileUploadResolveType {
    NotAuthorized,
    SuccessfullyUploaded,
    FailedToUpload,
    AlreadyUploaded,
}

/// The capability set that grants general access to an object.
pub open spec fn all_spec() -> Seq<Access> {
    seq![Access::Admin, Access::Write, Access::Read, Access::Delete, Access::Public]
}

/// The capability set that permits mutating an object.
pub open spec fn can_edit_spec() -> Seq<Access> {
    seq![Access::Admin, Access::Write]
}

/// The capability set that permits administrative actions on an object.
pub open spec fn admin_access_spec() -> Seq<Access> {
    seq![Access::Admin, Access::Delete]
}

impl Access {
    /// Every capability that can be held as a real grant.
    pub fn all() -> (r: Vec<Access>)
        ensures
            r@ == all_spec(),
    {
        let mut v: Vec<Access> = Vec::new();
        v.push(Access::Admin);
        v.push(Access::Write);
        v.push(Access::Read);
        v.push(Access::Delete);
        v.push(Access::Public);
        proof {
            assert(v@ =~= all_spec());
        }
        v
    }

    /// The capabilities that allow editing an object.
    pub fn can_edit() -> (r: Vec<Access>)
        ensures
            r@ == can_edit_spec(),
    {
        let mut v: Vec<Access> = Vec::new();
        v.push(Access::Admin);
        v.push(Access::Write);
        proof {
            assert(v@ =~= can_edit_spec());
        }
        v
    }

    /// The capabilities that allow administrative actions.
    pub fn admin_access() -> (r: Vec<Access>)
        ensures
            r@ == admin_access_spec(),
    {
        let mut v: Vec<Access> = Vec::new();
        v.push(Access::Admin);
        v.push(Access::Delete);
        proof {
            assert(v@ =~= admin_access_spec());
        }
        v
    }
}

/// The model of a grant list: each grant as an (identity, capability) pair.
pub open spec fn grants_of(gs: Seq<(String, Access)>) -> Seq<(Seq<char>, Access)> {
    gs.map_values(|g: (String, Access)| (g.0@, g.1))
}

/// The models of a list of identifiers.
pub open spec fn strs_of(ss: Seq<String>) -> Seq<Seq<char>> {
    ss.map_values(|s: String| s@)
}

/// Whether the identity holds exactly this capability in the grant list.
pub open spec fn has_grant(grants: Seq<(Seq<char>, Access)>, user: Seq<char>, a: Access) -> bool {
    exists|i: int| 0 <= i < grants.len() && #[trigger] grants[i] == (user, a)
}

/// Whether the identity holds any capability of the set, by exact match.
pub open spec fn any_grant(
    grants: Seq<(Seq<char>, Access)>,
    user: Seq<char>,
    ops: Seq<Access>,
) -> bool {
    exists|j: int| 0 <= j < ops.len() && has_grant(grants, user, #[trigger] ops[j])
}

/// Whether the identity holds any entry at all in the grant list: one of
/// the real capabilities, or a leftover `Removed` entry.
pub open spec fn holds_some_entry(grants: Seq<(Seq<char>, Access)>, user: Seq<char>) -> bool {
    ||| has_grant(grants, user, Access::Admin)
    ||| has_grant(grants, user, Access::Write)
    ||| has_grant(grants, user, Access::Read)
    ||| has_grant(grants, user, Access::Delete)
    ||| has_grant(grants, user, Access::Public)
    ||| has_grant(grants, user, Access::Removed)
}

/// The grant list without every grant of one identity.
pub open spec fn without_user(grants: Seq<(Seq<char>, Access)>, user: Seq<char>) -> Seq<
    (Seq<char>, Access),
> {
    grants.filter(|g: (Seq<char>, Access)| g.0 != user)
}

/// The grant list without the entries equal to `(user, a)`.
pub open spec fn without_grant(
    grants: Seq<(Seq<char>, Access)>,
    user: Seq<char>,
    a: Access,
) -> Seq<(Seq<char>, Access)> {
    grants.filter(|g: (Seq<char>, Access)| !(g.0 == user && g.1 == a))
}

/// Whether the capability set contains this capability.
pub fn contains_access(ops: &Vec<Access>, a: Access) -> (r: bool)
    ensures
        r == ops@.contains(a),
{
    let n: usize = ops.len();
    let mut i: usize = 0;
    while i < n
        invariant
            i <= n,
            n == ops@.len(),
            forall|k: int| 0 <= k < i ==> ops@[k] != a,
        decreases n - i,
    {
        if ops[i] == a {
            return true;
        }
        i += 1;
    }
    proof {
        assert(!ops@.contains(a));
    }
    false
}

/// Whether `(user, a)` appears in the grant list.
pub fn holds_grant(grants: &Vec<(String, Access)>, user: &String, a: Access) -> (r: bool)
    ensures
        r == has_grant(grants_of(grants@), user@, a),
{
    let n: usize = grants.len();
    let mut i: usize = 0;
    while i < n
        invariant
            i <= n,
            n == grants@.len(),
            forall|k: int| 0 <= k < i ==> #[trigger] grants_of(grants@)[k] != (user@, a),
        decreases n - i,
    {
        let g = &grants[i];
        proof {
            assert(grants_of(grants@)[i as int] == (grants@[i as int].0@, grants@[i as int].1));
        }
        if g.1 == a && str_eq(g.0.as_str(), user.as_str()) {
            proof {
                assert(grants_of(grants@)[i as int] == (user@, a));
            }
            return true;
        }
        i += 1;
    }
    false
}

/// Whether the identity holds any capability of the set, by exact match.
pub fn holds_any_of(grants: &Vec<(String, Access)>, user: &String, ops: &Vec<Access>) -> (r: bool)
    ensures
        r == any_grant(grants_of(grants@), user@, ops@),
{
    let n: usize = ops.len();
    let mut j: usize = 0;
    while j < n
        invariant
            j <= n,
            n == ops@.len(),
            forall|k: int| 0 <= k < j ==> !has_grant(grants_of(grants@), user@, #[trigger] ops@[k]),
        decreases n - j,
    {
        if holds_grant(grants, user, ops[j]) {
            return true;
        }
        j += 1;
    }
    false
}

fn holds_any_entry(grants: &Vec<(String, Access)>, user: &String) -> (r: bool)
    ensures
        r == holds_some_entry(grants_of(grants@), user@),
{
    holds_grant(grants, user, Access::Admin) || holds_grant(grants, user, Access::Write)
        || holds_grant(grants, user, Access::Read) || holds_grant(grants, user, Access::Delete)
        || holds_grant(grants, user, Access::Public) || holds_grant(
        grants,
        user,
        Access::Removed,
    )
}

proof fn lemma_without_user_push(s: Seq<(Seq<char>, Access)>, u: Seq<char>, x: (Seq<char>, Access))
    ensures
        without_user(s.push(x), u) == if x.0 != u {
            without_user(s, u).push(x)
        } else {
            without_user(s, u)
        },
{
    assert(s.push(x).drop_last() =~= s);
    assert(s.push(x).last() == x);
    reveal(Seq::filter);
}

proof fn lemma_without_grant_push(
    s: Seq<(Seq<char>, Access)>,
    u: Seq<char>,
    a: Access,
    x: (Seq<char>, Access),
)
    ensures
        without_grant(s.push(x), u, a) == if !(x.0 == u && x.1 == a) {
            without_grant(s, u, a).push(x)
        } else {
            without_grant(s, u, a)
        },
{
    assert(s.push(x).drop_last() =~= s);
    assert(s.push(x).last() == x);
    reveal(Seq::filter);
}

fn remove_user_grants(grants: &mut Vec<(String, Access)>, user: &String)
    ensures
        grants_of(final(grants)@) == without_user(grants_of(old(grants)@), user@),
{
    let n: usize = grants.len();
    let mut out: Vec<(String, Access)> = Vec::new();
    proof {
        assert(grants_of(out@) =~= Seq::<(Seq<char>, Access)>::empty());
        assert(grants_of(grants@.take(0)) =~= Seq::<(Seq<char>, Access)>::empty());
        assert(without_user(grants_of(grants@.take(0)), user@) =~= Seq::<
            (Seq<char>, Access),
        >::empty()) by {
            reveal(Seq::filter);
        }
    }
    let mut i: usize = 0;
    while i < n
        invariant
            i <= n,
            n == grants@.len(),
            grants@ == old(grants)@,
            grants_of(out@) == without_user(grants_of(grants@.take(i as int)), user@),
        decreases n - i,
    {
        let g = &grants[i];
        proof {
            lemma_without_user_push(
                grants_of(grants@.take(i as int)),
                user@,
                (grants@[i as int].0@, grants@[i as int].1),
            );
            assert(grants_of(grants@.take(i as int + 1)) =~= grants_of(
                grants@.take(i as int),
            ).push((grants@[i as int].0@, grants@[i as int].1)));
        }
        if !str_eq(g.0.as_str(), user.as_str()) {
            out.push((g.0.clone(), g.1));
            proof {
                assert(grants_of(out@) =~= without_user(
                    grants_of(grants@.take(i as int + 1)),
                    user@,
                ));
            }
        } else {
            proof {
                assert(grants_of(out@) =~= without_user(
                    grants_of(grants@.take(i as int + 1)),
                    user@,
                ));
            }
        }
        i += 1;
    }
    proof {
        assert(grants@.take(n as int) =~= grants@);
    }
    *grants = out;
}

fn remove_exact_grant(grants: &mut Vec<(String, Access)>, user: &String, a: Access)
    ensures
        grants_of(final(grants)@) == without_grant(grants_of(old(grants)@), user@, a),
{
    let n: usize = grants.len();
    let mut out: Vec<(String, Access)> = Vec::new();
    proof {
        assert(grants_of(out@) =~= Seq::<(Seq<char>, Access)>::empty());
        assert(grants_of(grants@.take(0)) =~= Seq::<(Seq<char>, Access)>::empty());
        assert(without_grant(grants_of(grants@.take(0)), user@, a) =~= Seq::<
            (Seq<char>, Access),
        >::empty()) by {
            reveal(Seq::filter);
        }
    }
    let mut i: usize = 0;
    while i < n
        invariant
            i <= n,
            n == grants@.len(),
            grants@ == old(grants)@,
            grants_of(out@) == without_grant(grants_of(grants@.take(i as int)), user@, a),
        decreases n - i,
    {
        let g = &grants[i];
        proof {
            lemma_without_grant_push(
                grants_of(grants@.take(i as int)),
                user@,
                a,
                (grants@[i as int].0@, grants@[i as int].1),
            );
            assert(grants_of(grants@.take(i as int + 1)) =~= grants_of(
                grants@.take(i as int),
            ).push((grants@[i as int].0@, grants@[i as int].1)));
        }
        let keep: bool = !(g.1 == a && str_eq(g.0.as_str(), user.as_str()));
        if keep {
            out.push((g.0.clone(), g.1));
        }
        proof {
            assert(grants_of(out@) =~= without_grant(
                grants_of(grants@.take(i as int + 1)),
                user@,
                a,
            ));
        }
        i += 1;
    }
    proof {
        assert(grants@.take(n as int) =~= grants@);
    }
    *grants = out;
}

/// The effect of one proposed entry on a grant list, with 1 when it counts
/// as an applied change. `Owner` entries are ignored. A `Removed` entry
/// strips every grant of an admin's target when the acting identity is the
/// owner, and otherwise removes only entries equal to the pair itself. An
/// `Admin` entry is granted only by the owner and only once. Any other
/// capability is granted only to an identity holding nothing yet.
pub open spec fn apply_entry(
    members: Seq<(Seq<char>, Access)>,
    is_owner: bool,
    entry: (Seq<char>, Access),
) -> (Seq<(Seq<char>, Access)>, nat) {
    match entry.1 {
        Access::Owner => (members, 0),
        Access::Removed => if has_grant(members, entry.0, Access::Admin) && is_owner {
            (without_user(members, entry.0), 1)
        } else {
            (without_grant(members, entry.0, Access::Removed), 0)
        },
        Access::Admin => if is_owner && !has_grant(members, entry.0, Access::Admin) {
            (members.push((entry.0, Access::Admin)), 1)
        } else {
            (members, 0)
        },
        _ => if !holds_some_entry(members, entry.0) {
            (members.push(entry), 1)
        } else {
            (members, 0)
        },
    }
}

/// The effect of a proposed list of entries, applied left to right, with
/// the count of applied changes.
pub open spec fn apply_entries(
    members: Seq<(Seq<char>, Access)>,
    is_owner: bool,
    proposed: Seq<(Seq<char>, Access)>,
) -> (Seq<(Seq<char>, Access)>, nat)
    decreases proposed.len(),
{
    if proposed.len() == 0 {
        (members, 0)
    } else {
        let first = apply_entry(members, is_owner, proposed[0]);
        let rest = apply_entries(first.0, is_owner, proposed.drop_first());
        (rest.0, first.1 + rest.1)
    }
}

proof fn lemma_apply_entries_step(
    members: Seq<(Seq<char>, Access)>,
    is_owner: bool,
    proposed: Seq<(Seq<char>, Access)>,
    i: int,
)
    requires
        0 <= i < proposed.len(),
    ensures
        ({
            let st = apply_entry(members, is_owner, proposed[i]);
            &&& apply_entries(members, is_owner, proposed.skip(i)).0 == apply_entries(
                st.0,
                is_owner,
                proposed.skip(i + 1),
            ).0
            &&& apply_entries(members, is_owner, proposed.skip(i)).1 == st.1 + apply_entries(
                st.0,
                is_owner,
                proposed.skip(i + 1),
            ).1
        }),
{
    assert(proposed.skip(i).len() > 0);
    assert(proposed.skip(i)[0] == proposed[i]);
    assert(proposed.skip(i).drop_first() =~= proposed.skip(i + 1));
}

/// Applies a proposed list of grant changes to a grant list. Only the
/// owner, or an identity already holding `Admin` on the list, may change
/// anything; any other acting identity changes nothing and applies no
/// grant. Returns how many changes were applied.
pub fn mutate_grants(
    grants: &mut Vec<(String, Access)>,
    is_owner: bool,
    acting: &String,
    proposed: &Vec<(String, Access)>,
) -> (r: usize)
    ensures
        !(is_owner || has_grant(grants_of(old(grants)@), acting@, Access::Admin)) ==> {
            &&& final(grants)@ == old(grants)@
            &&& r == 0
        },
        (is_owner || has_grant(grants_of(old(grants)@), acting@, Access::Admin)) ==> {
            &&& grants_of(final(grants)@) == apply_entries(
                grants_of(old(grants)@),
                is_owner,
                grants_of(proposed@),
            ).0
            &&& r == apply_entries(grants_of(old(grants)@), is_owner, grants_of(proposed@)).1
        },
{
    let is_admin: bool = !is_owner && holds_grant(grants, acting, Access::Admin);
    if !is_owner && !is_admin {
        return 0;
    }
    let n: usize = proposed.len();
    let mut count: usize = 0;
    proof {
        assert(grants_of(proposed@).skip(0) =~= grants_of(proposed@));
    }
    let mut i: usize = 0;
    while i < n
        invariant
            i <= n,
            n == proposed@.len(),
            count <= i,
            apply_entries(grants_of(old(grants)@), is_owner, grants_of(proposed@)).0
                == apply_entries(
                grants_of(grants@),
                is_owner,
                grants_of(proposed@).skip(i as int),
            ).0,
            apply_entries(grants_of(old(grants)@), is_owner, grants_of(proposed@)).1 == count
                + apply_entries(
                grants_of(grants@),
                is_owner,
                grants_of(proposed@).skip(i as int),
            ).1,
        decreases n - i,
    {
        let ghost pre = grants_of(grants@);
        let ghost entry = grants_of(proposed@)[i as int];
        proof {
            lemma_apply_entries_step(pre, is_owner, grants_of(proposed@), i as int);
        }
        let pair = &proposed[i];
        let user: &String = &pair.0;
        let acc: Access = pair.1;
        proof {
            assert(entry == (user@, acc));
        }
        match acc {
            Access::Owner => {
                proof {
                    assert(grants_of(grants@) == apply_entry(pre, is_owner, entry).0);
                }
            },
            Access::Removed => {
                if is_owner && holds_grant(grants, user, Access::Admin) {
                    remove_user_grants(grants, user);
                    count += 1;
                } else {
                    remove_exact_grant(grants, user, Access::Removed);
                }
            },
            Access::Admin => {
                if is_owner && !holds_grant(grants, user, Access::Admin) {
                    grants.push((user.clone(), Access::Admin));
                    count += 1;
                    proof {
                        assert(grants_of(grants@) =~= pre.push((user@, Access::Admin)));
                    }
                }
            },
            _ => {
                if !holds_any_entry(grants, user) {
                    grants.push((user.clone(), acc));
                    count += 1;
                    proof {
                        assert(grants_of(grants@) =~= pre.push(entry));
                    }
                }
            },
        }
        i += 1;
    }
    proof {
        assert(grants_of(proposed@).skip(n as int) =~= Seq::<(Seq<char>, Access)>::empty());
    }
    count
}

} // verus!
