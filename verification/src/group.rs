//! Groups and the group registry.
//!
//! A group names an owner and a list of capability grants for its members;
//! the owner never needs to appear among them. The registry answers
//! permission queries over a single group with the same decision order every
//! stored object uses, and gates every mutation behind the capability rules,
//! where the owner's standing is implicit.

use vstd::prelude::*;

use crate::access::{
    any_grant, apply_entries, grants_of, has_grant, mutate_grants, strs_of, Access,
};
use crate::paginate::{
    curr_page_spec, models, page_slice, EngineError, HasFields, Paginator, PaginatorResponse,
};
use crate::strings::{bool_str, bool_to_string, str_eq, usize_to_string, dec_str};

verus! {

/// A named collection of identities with per-identity capability grants.
pub struct Group {
    pub id: String,
    pub name: String,
    pub members: Vec<(String, Access)>,
    pub owner: String,
    pub public: bool,
}

/// The mathematical model of a group.
#[verifier::ext_equal]
pub struct GroupModel {
    pub id: Seq<char>,
    pub name: Seq<char>,
    pub members: Seq<(Seq<char>, Access)>,
    pub owner: Seq<char>,
    pub public: bool,
}

/// Copies a grant list; the copy has the same model.
pub fn dup_grants(v: &Vec<(String, Access)>) -> (r: Vec<(String, Access)>)
    ensures
        grants_of(r@) == grants_of(v@),
{
    let n: usize = v.len();
    let mut out: Vec<(String, Access)> = Vec::new();
    proof {
        assert(grants_of(out@) =~= grants_of(v@.take(0)));
    }
    let mut i: usize = 0;
    while i < n
        invariant
            i <= n,
            n == v@.len(),
            grants_of(out@) == grants_of(v@.take(i as int)),
        decreases n - i,
    {
        let g = &v[i];
        out.push((g.0.clone(), g.1));
        proof {
            assert(grants_of(v@.take(i as int + 1)) =~= grants_of(v@.take(i as int)).push(
                (v@[i as int].0@, v@[i as int].1),
            ));
            assert(grants_of(out@) =~= grants_of(v@.take(i as int)).push(
                (v@[i as int].0@, v@[i as int].1),
            ));
        }
        i += 1;
    }
    proof {
        assert(v@.take(n as int) =~= v@);
    }
    out
}

impl HasFields for Group {
    type V = GroupModel;

    open spec fn model(&self) -> GroupModel {
        GroupModel {
            id: self.id@,
            name: self.name@,
            members: grants_of(self.members@),
            owner: self.owner@,
            public: self.public,
        }
    }

    open spec fn field_of(m: GroupModel, name: Seq<char>) -> Seq<char> {
        if name == "id"@ {
            m.id
        } else if name == "name"@ {
            m.name
        } else if name == "owner"@ {
            m.owner
        } else if name == "public"@ {
            bool_str(m.public)
        } else {
            Seq::empty()
        }
    }

    fn get_field(&self, field_name: &str) -> (r: String) {
        if str_eq(field_name, "id") {
            self.id.clone()
        } else if str_eq(field_name, "name") {
            self.name.clone()
        } else if str_eq(field_name, "owner") {
            self.owner.clone()
        } else if str_eq(field_name, "public") {
            bool_to_string(self.public)
        } else {
            String::new()
        }
    }

    fn duplicate(&self) -> (r: Self) {
        Group {
            id: self.id.clone(),
            name: self.name.clone(),
            members: dup_grants(&self.members),
            owner: self.owner.clone(),
            public: self.public,
        }
    }
}

/// The position of the first group with this identifier, or -1.
pub open spec fn group_index(gs: Seq<GroupModel>, id: Seq<char>) -> int
    decreases gs.len(),
{
    if gs.len() == 0 {
        -1
    } else if gs[0].id == id {
        0
    } else {
        let rest = group_index(gs.drop_first(), id);
        if rest == -1 {
            -1
        } else {
            1 + rest
        }
    }
}

/// The first group with this identifier, if any.
pub open spec fn find_group(gs: Seq<GroupModel>, id: Seq<char>) -> Option<GroupModel> {
    let gi = group_index(gs, id);
    if gi >= 0 {
        Some(gs[gi])
    } else {
        None
    }
}

/// A found index lies in range, names the identifier, and is the first to
/// do so; -1 means no group has the identifier.
pub proof fn lemma_group_index_props(gs: Seq<GroupModel>, id: Seq<char>)
    ensures
        ({
            let gi = group_index(gs, id);
            &&& gi == -1 || (0 <= gi < gs.len() && gs[gi].id == id)
            &&& gi == -1 ==> forall|k: int| 0 <= k < gs.len() ==> gs[k].id != id
            &&& gi >= 0 ==> forall|k: int| 0 <= k < gi ==> gs[k].id != id
        }),
    decreases gs.len(),
{
    if gs.len() > 0 {
        lemma_group_index_props(gs.drop_first(), id);
        if gs[0].id != id {
            let rest = group_index(gs.drop_first(), id);
            if rest == -1 {
                assert forall|k: int| 0 <= k < gs.len() implies gs[k].id != id by {
                    if k > 0 {
                        assert(gs.drop_first()[k - 1] == gs[k]);
                        assert(gs.drop_first()[k - 1].id != id);
                    }
                }
            } else {
                assert(gs.drop_first()[rest].id == id);
                assert forall|k: int| 0 <= k < 1 + rest implies gs[k].id != id by {
                    if k > 0 {
                        assert(gs.drop_first()[k - 1] == gs[k]);
                        assert(gs.drop_first()[k - 1].id != id);
                    }
                }
            }
        }
    }
}

proof fn lemma_group_index_skip(gs: Seq<GroupModel>, id: Seq<char>, i: int)
    requires
        0 <= i <= gs.len(),
        forall|k: int| 0 <= k < i ==> gs[k].id != id,
    ensures
        group_index(gs, id) == if group_index(gs.skip(i), id) == -1 {
            -1
        } else {
            i + group_index(gs.skip(i), id)
        },
    decreases i,
{
    if i == 0 {
        assert(gs.skip(0) =~= gs);
    } else {
        lemma_group_index_skip(gs, id, i - 1);
        lemma_group_index_props(gs.skip(i), id);
        assert(gs.skip(i - 1).len() > 0);
        assert(gs.skip(i - 1)[0] == gs[i - 1]);
        assert(gs.skip(i - 1)[0].id != id);
        assert(gs.skip(i - 1).drop_first() =~= gs.skip(i));
        assert(group_index(gs.skip(i - 1), id) == if group_index(gs.skip(i), id) == -1 {
            -1
        } else {
            1 + group_index(gs.skip(i), id)
        });
    }
}

/// Well-formedness of a stored group collection: identifiers are unique,
/// so a group is addressed by its identifier alone.
pub open spec fn unique_group_ids(gs: Seq<GroupModel>) -> bool {
    forall|i: int, j: int| 0 <= i < j < gs.len() ==> gs[i].id != gs[j].id
}

proof fn lemma_unique_group_push(gs: Seq<GroupModel>, gm: GroupModel)
    requires
        unique_group_ids(gs),
        group_index(gs, gm.id) == -1,
    ensures
        unique_group_ids(gs.push(gm)),
{
    lemma_group_index_props(gs, gm.id);
    assert forall|i: int, j: int| 0 <= i < j < gs.push(gm).len() implies gs.push(gm)[i].id
        != gs.push(gm)[j].id by {
        if j < gs.len() {
            assert(gs.push(gm)[i] == gs[i]);
            assert(gs.push(gm)[j] == gs[j]);
        } else {
            assert(gs.push(gm)[i] == gs[i]);
            assert(gs.push(gm)[j] == gm);
            assert(gs[i].id != gm.id);
        }
    }
}

proof fn lemma_unique_group_update(gs: Seq<GroupModel>, k: int, gm: GroupModel)
    requires
        unique_group_ids(gs),
        0 <= k < gs.len(),
        gm.id == gs[k].id,
    ensures
        unique_group_ids(gs.update(k, gm)),
{
    assert forall|i: int, j: int| 0 <= i < j < gs.update(k, gm).len() implies gs.update(
        k,
        gm,
    )[i].id != gs.update(k, gm)[j].id by {
        assert(gs.update(k, gm)[i].id == gs[i].id);
        assert(gs.update(k, gm)[j].id == gs[j].id);
    }
}

proof fn lemma_unique_group_remove(gs: Seq<GroupModel>, k: int)
    requires
        unique_group_ids(gs),
        0 <= k < gs.len(),
    ensures
        unique_group_ids(gs.remove(k)),
{
    assert forall|i: int, j: int| 0 <= i < j < gs.remove(k).len() implies gs.remove(k)[i].id
        != gs.remove(k)[j].id by {
        assert(gs.remove(k)[i] == if i < k {
            gs[i]
        } else {
            gs[i + 1]
        });
        assert(gs.remove(k)[j] == if j < k {
            gs[j]
        } else {
            gs[j + 1]
        });
    }
}

/// Deleting groups preserves the uniqueness of stored identifiers.
pub proof fn lemma_delete_groups_preserves_wf(
    gs: Seq<GroupModel>,
    ids: Seq<Seq<char>>,
    caller: Seq<char>,
)
    requires
        unique_group_ids(gs),
    ensures
        unique_group_ids(delete_groups_spec(gs, ids, caller).0),
    decreases ids.len(),
{
    if ids.len() > 0 {
        let first = delete_one_spec(gs, ids[0], caller);
        lemma_group_index_props(gs, ids[0]);
        if group_index(gs, ids[0]) >= 0 && gs[group_index(gs, ids[0])].owner == caller {
            lemma_unique_group_remove(gs, group_index(gs, ids[0]));
        }
        lemma_delete_groups_preserves_wf(first.0, ids.drop_first(), caller);
    }
}

/// Removing entries by identifier preserves the uniqueness of stored
/// identifiers.
pub proof fn lemma_remove_ids_preserves_wf(gs: Seq<GroupModel>, ids: Seq<Seq<char>>)
    requires
        unique_group_ids(gs),
    ensures
        unique_group_ids(remove_ids_spec(gs, ids).0),
    decreases ids.len(),
{
    if ids.len() > 0 {
        let gi = group_index(gs, ids[0]);
        lemma_group_index_props(gs, ids[0]);
        let first = if gi >= 0 {
            (gs.remove(gi), 1nat)
        } else {
            (gs, 0nat)
        };
        if gi >= 0 {
            lemma_unique_group_remove(gs, gi);
        }
        lemma_remove_ids_preserves_wf(first.0, ids.drop_first());
    }
}

/// The allow/deny decision for one group, the same order every stored
/// object uses: ownership when `Owner` is requested, the public flag when
/// `Public` is requested, or an exact grant among the members. Holding a
/// capability does not imply holding a weaker one: every match is exact.
pub open spec fn group_model_allows(g: GroupModel, ops: Seq<Access>, user: Seq<char>) -> bool {
    ||| (ops.contains(Access::Owner) && g.owner == user)
    ||| (ops.contains(Access::Public) && g.public)
    ||| any_grant(g.members, user, ops)
}

/// The decision of `group_model_allows` for the first group stored under
/// the identifier; an unknown group passes nobody.
pub open spec fn group_permits(
    gs: Seq<GroupModel>,
    id: Seq<char>,
    ops: Seq<Access>,
    user: Seq<char>,
) -> bool {
    match find_group(gs, id) {
        Some(g) => group_model_allows(g, ops, user),
        None => false,
    }
}

/// Whether the identity appears in a grant list with any capability.
pub open spec fn member_listed(members: Seq<(Seq<char>, Access)>, user: Seq<char>) -> bool {
    exists|j: int| 0 <= j < members.len() && (#[trigger] members[j]).0 == user
}

/// Whether the identity appears among the group's members with any
/// capability.
pub open spec fn is_member(g: GroupModel, user: Seq<char>) -> bool {
    member_listed(g.members, user)
}

/// The groups the identity may see: those it owns or belongs to.
pub open spec fn visible_groups(gs: Seq<GroupModel>, user: Seq<char>) -> Seq<GroupModel> {
    gs.filter(|g: GroupModel| g.owner == user || is_member(g, user))
}

fn find_index(groups: &Vec<Group>, group_id: &String) -> (r: Option<usize>)
    ensures
        match r {
            Some(i) => i < groups@.len() && group_index(models(groups@), group_id@) == i,
            None => group_index(models(groups@), group_id@) == -1,
        },
{
    let n: usize = groups.len();
    let mut i: usize = 0;
    while i < n
        invariant
            i <= n,
            n == groups@.len(),
            forall|k: int| 0 <= k < i ==> models(groups@)[k].id != group_id@,
        decreases n - i,
    {
        if str_eq(groups[i].id.as_str(), group_id.as_str()) {
            proof {
                lemma_group_index_skip(models(groups@), group_id@, i as int);
                assert(models(groups@).skip(i as int)[0] == models(groups@)[i as int]);
            }
            return Some(i);
        }
        i += 1;
    }
    proof {
        lemma_group_index_skip(models(groups@), group_id@, n as int);
        assert(models(groups@).skip(n as int) =~= Seq::<GroupModel>::empty());
    }
    None
}

fn member_of(members: &Vec<(String, Access)>, user: &String) -> (r: bool)
    ensures
        r == member_listed(grants_of(members@), user@),
{
    let n: usize = members.len();
    let mut i: usize = 0;
    while i < n
        invariant
            i <= n,
            n == members@.len(),
            forall|k: int| 0 <= k < i ==> (#[trigger] grants_of(members@)[k]).0 != user@,
        decreases n - i,
    {
        proof {
            assert(grants_of(members@)[i as int] == (members@[i as int].0@, members@[i as int].1));
        }
        if str_eq(members[i].0.as_str(), user.as_str()) {
            return true;
        }
        i += 1;
    }
    false
}

fn group_allows(g: &Group, operations: &Vec<Access>, user: &String) -> (r: bool)
    ensures
        r == group_model_allows(g.model(), operations@, user@),
{
    if crate::access::contains_access(operations, Access::Owner) && str_eq(
        g.owner.as_str(),
        user.as_str(),
    ) {
        return true;
    }
    if crate::access::contains_access(operations, Access::Public) && g.public {
        return true;
    }
    let r = crate::access::holds_any_of(&g.members, user, operations);
    proof {
        assert(g.model().members == grants_of(g.members@));
        assert(g.model().owner == g.owner@);
    }
    r
}

/// Owns the group collection and gates every mutation.
pub struct GroupRegistry {
    pub groups: Vec<Group>,
}

impl GroupRegistry {
    /// An empty registry; trivially well formed.
    pub fn new() -> (r: GroupRegistry)
        ensures
            r.groups@.len() == 0,
            unique_group_ids(models(r.groups@)),
    {
        GroupRegistry { groups: Vec::new() }
    }

    /// Resolves the allow/deny decision for the named group, in the same
    /// order every stored object uses: ownership when `Owner` is requested,
    /// the public flag when `Public` is requested, or an exact grant among
    /// the members. An unknown group passes nobody.
    pub fn check_group_permission(
        &self,
        group_id: &String,
        operations: &Vec<Access>,
        user: &String,
    ) -> (r: bool)
        ensures
            r == group_permits(models(self.groups@), group_id@, operations@, user@),
    {
        proof {
            lemma_group_index_props(models(self.groups@), group_id@);
        }
        match find_index(&self.groups, group_id) {
            Some(i) => group_allows(&self.groups[i], operations, user),
            None => false,
        }
    }

    /// Stores a group under a caller-supplied fresh identifier, with the
    /// acting identity as its owner. A group already stored under the same
    /// identifier is replaced.
    pub fn create_group(&mut self, group: Group, id: String, caller: String)
        ensures
            ({
                let gm = GroupModel {
                    id: id@,
                    name: group.model().name,
                    members: group.model().members,
                    owner: caller@,
                    public: group.model().public,
                };
                let gi = group_index(models(old(self).groups@), id@);
                &&& gi == -1 ==> models(final(self).groups@) == models(old(self).groups@).push(gm)
                &&& gi >= 0 ==> models(final(self).groups@) == models(old(self).groups@).update(
                    gi,
                    gm,
                )
            }),
            unique_group_ids(models(old(self).groups@)) ==> unique_group_ids(
                models(final(self).groups@),
            ),
    {
        let mut g = group;
        g.id = id.clone();
        g.owner = caller;
        proof {
            lemma_group_index_props(models(self.groups@), id@);
        }
        match find_index(&self.groups, &id) {
            Some(i) => {
                self.groups.set(i, g);
                proof {
                    assert(models(self.groups@) =~= models(old(self).groups@).update(
                        group_index(models(old(self).groups@), id@),
                        models(self.groups@)[i as int],
                    ));
                    if unique_group_ids(models(old(self).groups@)) {
                        lemma_unique_group_update(
                            models(old(self).groups@),
                            group_index(models(old(self).groups@), id@),
                            models(self.groups@)[i as int],
                        );
                    }
                }
            },
            None => {
                self.groups.push(g);
                proof {
                    assert(models(self.groups@) =~= models(old(self).groups@).push(
                        models(self.groups@)[old(self).groups@.len() as int],
                    ));
                    if unique_group_ids(models(old(self).groups@)) {
                        lemma_unique_group_push(
                            models(old(self).groups@),
                            models(self.groups@)[old(self).groups@.len() as int],
                        );
                    }
                }
            },
        }
    }

    /// Deletes each named group that exists and is owned by the acting
    /// identity; returns how many were deleted.
    pub fn delete_groups(&mut self, group_ids: &Vec<String>, caller: &String) -> (r: usize)
        ensures
            models(final(self).groups@) == delete_groups_spec(
                models(old(self).groups@),
                strs_of(group_ids@),
                caller@,
            ).0,
            r == delete_groups_spec(models(old(self).groups@), strs_of(group_ids@), caller@).1,
            unique_group_ids(models(old(self).groups@)) ==> unique_group_ids(
                models(final(self).groups@),
            ),
    {
        let n: usize = group_ids.len();
        let mut count: usize = 0;
        proof {
            assert(strs_of(group_ids@).skip(0) =~= strs_of(group_ids@));
        }
        let mut i: usize = 0;
        while i < n
            invariant
                i <= n,
                n == group_ids@.len(),
                count <= i,
                delete_groups_spec(models(old(self).groups@), strs_of(group_ids@), caller@).0
                    == delete_groups_spec(
                    models(self.groups@),
                    strs_of(group_ids@).skip(i as int),
                    caller@,
                ).0,
                delete_groups_spec(models(old(self).groups@), strs_of(group_ids@), caller@).1
                    == count + delete_groups_spec(
                    models(self.groups@),
                    strs_of(group_ids@).skip(i as int),
                    caller@,
                ).1,
            decreases n - i,
        {
            let ghost pre = models(self.groups@);
            let ghost ids = strs_of(group_ids@);
            proof {
                assert(ids.skip(i as int).len() > 0);
                assert(ids.skip(i as int)[0] == group_ids@[i as int]@);
                assert(ids.skip(i as int).drop_first() =~= ids.skip(i as int + 1));
                lemma_group_index_props(pre, group_ids@[i as int]@);
            }
            match find_index(&self.groups, &group_ids[i]) {
                Some(gi) => {
                    if str_eq(self.groups[gi].owner.as_str(), caller.as_str()) {
                        self.groups.remove(gi);
                        count += 1;
                        proof {
                            assert(models(self.groups@) =~= pre.remove(gi as int));
                        }
                    }
                },
                None => {},
            }
            i += 1;
        }
        proof {
            assert(strs_of(group_ids@).skip(n as int) =~= Seq::<Seq<char>>::empty());
            if unique_group_ids(models(old(self).groups@)) {
                lemma_delete_groups_preserves_wf(
                    models(old(self).groups@),
                    strs_of(group_ids@),
                    caller@,
                );
            }
        }
        count
    }

    /// When the acting identity holds administrative access on the named
    /// group, deletes each group stored under one of the given identifiers;
    /// otherwise changes nothing. Returns how many entries were removed.
    pub fn remove_group_files(
        &mut self,
        group_id: &String,
        file_ids: &Vec<String>,
        caller: &String,
    ) -> (r: usize)
        ensures
            group_permits(
                models(old(self).groups@),
                group_id@,
                crate::access::admin_access_spec(),
                caller@,
            ) ==> {
                &&& models(final(self).groups@) == remove_ids_spec(
                    models(old(self).groups@),
                    strs_of(file_ids@),
                ).0
                &&& r == remove_ids_spec(models(old(self).groups@), strs_of(file_ids@)).1
            },
            !group_permits(
                models(old(self).groups@),
                group_id@,
                crate::access::admin_access_spec(),
                caller@,
            ) ==> {
                &&& final(self).groups@ == old(self).groups@
                &&& r == 0
            },
            unique_group_ids(models(old(self).groups@)) ==> unique_group_ids(
                models(final(self).groups@),
            ),
    {
        let ops = Access::admin_access();
        if !self.check_group_permission(group_id, &ops, caller) {
            return 0;
        }
        let n: usize = file_ids.len();
        let mut count: usize = 0;
        proof {
            assert(strs_of(file_ids@).skip(0) =~= strs_of(file_ids@));
        }
        let mut i: usize = 0;
        while i < n
            invariant
                i <= n,
                n == file_ids@.len(),
                count <= i,
                remove_ids_spec(models(old(self).groups@), strs_of(file_ids@)).0
                    == remove_ids_spec(models(self.groups@), strs_of(file_ids@).skip(i as int)).0,
                remove_ids_spec(models(old(self).groups@), strs_of(file_ids@)).1 == count
                    + remove_ids_spec(models(self.groups@), strs_of(file_ids@).skip(i as int)).1,
            decreases n - i,
        {
            let ghost pre = models(self.groups@);
            let ghost ids = strs_of(file_ids@);
            proof {
                assert(ids.skip(i as int).len() > 0);
                assert(ids.skip(i as int)[0] == file_ids@[i as int]@);
                assert(ids.skip(i as int).drop_first() =~= ids.skip(i as int + 1));
                lemma_group_index_props(pre, file_ids@[i as int]@);
            }
            match find_index(&self.groups, &file_ids[i]) {
                Some(gi) => {
                    self.groups.remove(gi);
                    count += 1;
                    proof {
                        assert(models(self.groups@) =~= pre.remove(gi as int));
                    }
                },
                None => {},
            }
            i += 1;
        }
        proof {
            assert(strs_of(file_ids@).skip(n as int) =~= Seq::<Seq<char>>::empty());
            if unique_group_ids(models(old(self).groups@)) {
                lemma_remove_ids_preserves_wf(models(old(self).groups@), strs_of(file_ids@));
            }
        }
        count
    }

    /// Assigns new members to the named group. `Owner` entries and exact
    /// duplicates of existing grants are ignored; with nothing new the call
    /// reports so and changes nothing. Only the group's owner, or a member
    /// holding `Admin`, may assign; the applied count is reported back.
    pub fn assign_group_members(
        &mut self,
        users: &Vec<(String, Access)>,
        group_id: &String,
        caller: &String,
    ) -> (r: Result<String, &'static str>)
        ensures
            ({
                let gs = models(old(self).groups@);
                let gi = group_index(gs, group_id@);
                &&& gi == -1 ==> final(self).groups@ == old(self).groups@ && (r matches Err(m)
                    && m@ == "Group not found."@)
                &&& gi >= 0 ==> ({
                    let g = gs[gi];
                    let fresh = fresh_entries(g.members, grants_of(users@));
                    &&& fresh.len() == 0 ==> final(self).groups@ == old(self).groups@ && (
                    r matches Ok(m) && m@ == "No new users to assign."@)
                    &&& fresh.len() > 0 && !(g.owner == caller@ || has_grant(
                        g.members,
                        caller@,
                        Access::Admin,
                    )) ==> final(self).groups@ == old(self).groups@ && (r matches Err(m) && m@
                        == "You are not authorized to assign members."@)
                    &&& fresh.len() > 0 && (g.owner == caller@ || has_grant(
                        g.members,
                        caller@,
                        Access::Admin,
                    )) ==> ({
                        let st = assign_new(g.members, fresh);
                        &&& models(final(self).groups@) == gs.update(
                            gi,
                            GroupModel { members: st.0, ..g },
                        )
                        &&& (r matches Ok(m) && m@ == dec_str(st.1)
                            + " users assigned."@)
                    })
                })
            }),
            unique_group_ids(models(old(self).groups@)) ==> unique_group_ids(
                models(final(self).groups@),
            ),
    {
        proof {
            lemma_group_index_props(models(self.groups@), group_id@);
        }
        match find_index(&self.groups, group_id) {
            None => Err("Group not found."),
            Some(i) => {
                let ghost gs = models(self.groups@);
                let ghost gi = i as int;
                let ghost gmembers = gs[gi].members;
                let mut freshv: Vec<(String, Access)> = Vec::new();
                let nu: usize = users.len();
                proof {
                    assert(grants_of(freshv@) =~= Seq::<(Seq<char>, Access)>::empty());
                    assert(grants_of(users@.take(0)) =~= Seq::<(Seq<char>, Access)>::empty());
                    assert(fresh_entries(gmembers, grants_of(users@.take(0))) =~= Seq::<
                        (Seq<char>, Access),
                    >::empty()) by {
                        reveal(Seq::filter);
                    }
                }
                let mut k: usize = 0;
                while k < nu
                    invariant
                        k <= nu,
                        nu == users@.len(),
                        i < self.groups@.len(),
                        self.groups@ == old(self).groups@,
                        gmembers == grants_of(self.groups@[i as int].members@),
                        grants_of(freshv@) == fresh_entries(
                            gmembers,
                            grants_of(users@.take(k as int)),
                        ),
                    decreases nu - k,
                {
                    let u = &users[k];
                    proof {
                        lemma_fresh_push(
                            gmembers,
                            grants_of(users@.take(k as int)),
                            (users@[k as int].0@, users@[k as int].1),
                        );
                        assert(grants_of(users@.take(k as int + 1)) =~= grants_of(
                            users@.take(k as int),
                        ).push((users@[k as int].0@, users@[k as int].1)));
                    }
                    let keep: bool = !(u.1 == Access::Owner) && !crate::access::holds_grant(
                        &self.groups[i].members,
                        &u.0,
                        u.1,
                    );
                    if keep {
                        freshv.push((u.0.clone(), u.1));
                    }
                    proof {
                        assert(grants_of(freshv@) =~= fresh_entries(
                            gmembers,
                            grants_of(users@.take(k as int + 1)),
                        ));
                    }
                    k += 1;
                }
                proof {
                    assert(users@.take(nu as int) =~= users@);
                }
                if freshv.len() == 0 {
                    return Ok("No new users to assign.".to_owned());
                }
                let authorized: bool = str_eq(
                    self.groups[i].owner.as_str(),
                    caller.as_str(),
                ) || crate::access::holds_grant(&self.groups[i].members, caller, Access::Admin);
                if !authorized {
                    return Err("You are not authorized to assign members.");
                }
                let ghost fresh = grants_of(freshv@);
                let mut grp = self.groups.remove(i);
                let nf: usize = freshv.len();
                let mut applied: usize = 0;
                proof {
                    assert(fresh.skip(0) =~= fresh);
                }
                let mut t: usize = 0;
                while t < nf
                    invariant
                        t <= nf,
                        nf == freshv@.len(),
                        applied <= t,
                        fresh == grants_of(freshv@),
                        grp.id@ == gs[gi].id,
                        grp.name@ == gs[gi].name,
                        grp.owner@ == gs[gi].owner,
                        grp.public == gs[gi].public,
                        assign_new(gmembers, fresh).0 == assign_new(
                            grants_of(grp.members@),
                            fresh.skip(t as int),
                        ).0,
                        assign_new(gmembers, fresh).1 == applied + assign_new(
                            grants_of(grp.members@),
                            fresh.skip(t as int),
                        ).1,
                    decreases nf - t,
                {
                    let ghost pre = grants_of(grp.members@);
                    proof {
                        lemma_assign_new_step(pre, fresh, t as int);
                        assert(fresh[t as int] == (freshv@[t as int].0@, freshv@[t as int].1));
                    }
                    let e = &freshv[t];
                    if !crate::access::holds_grant(&grp.members, &e.0, e.1) {
                        grp.members.push((e.0.clone(), e.1));
                        applied += 1;
                        proof {
                            assert(grants_of(grp.members@) =~= pre.push(fresh[t as int]));
                        }
                    }
                    t += 1;
                }
                proof {
                    assert(fresh.skip(nf as int) =~= Seq::<(Seq<char>, Access)>::empty());
                }
                self.groups.insert(i, grp);
                proof {
                    assert(models(self.groups@) =~= models(old(self).groups@).update(
                        gi,
                        GroupModel { members: assign_new(gmembers, fresh).0, ..gs[gi] },
                    ));
                    if unique_group_ids(gs) {
                        lemma_unique_group_update(
                            gs,
                            gi,
                            GroupModel { members: assign_new(gmembers, fresh).0, ..gs[gi] },
                        );
                    }
                }
                let mut msg = usize_to_string(applied);
                msg.append(" users assigned.");
                Ok(msg)
            },
        }
    }

    /// Applies a list of grant changes to the named group's members, under
    /// the capability rules: only the group's owner, or a member holding
    /// `Admin`, changes anything; any other acting identity applies no
    /// grant and leaves the group as it was. Returns the applied count.
    pub fn edit_group_members(
        &mut self,
        group_id: &String,
        new_accesses: &Vec<(String, Access)>,
        caller: &String,
    ) -> (r: usize)
        ensures
            ({
                let gs = models(old(self).groups@);
                let gi = group_index(gs, group_id@);
                &&& gi == -1 ==> final(self).groups@ == old(self).groups@ && r == 0
                &&& gi >= 0 ==> ({
                    let g = gs[gi];
                    let is_owner = g.owner == caller@;
                    &&& !(is_owner || has_grant(g.members, caller@, Access::Admin)) ==> models(
                        final(self).groups@,
                    ) == gs && r == 0
                    &&& (is_owner || has_grant(g.members, caller@, Access::Admin)) ==> ({
                        let st = apply_entries(g.members, is_owner, grants_of(new_accesses@));
                        &&& models(final(self).groups@) == gs.update(
                            gi,
                            GroupModel { members: st.0, ..g },
                        )
                        &&& r == st.1
                    })
                })
            }),
            unique_group_ids(models(old(self).groups@)) ==> unique_group_ids(
                models(final(self).groups@),
            ),
    {
        proof {
            lemma_group_index_props(models(self.groups@), group_id@);
        }
        match find_index(&self.groups, group_id) {
            None => 0,
            Some(i) => {
                let ghost gs = models(self.groups@);
                let ghost gi = i as int;
                let mut grp = self.groups.remove(i);
                let is_owner: bool = str_eq(grp.owner.as_str(), caller.as_str());
                let cnt = mutate_grants(&mut grp.members, is_owner, caller, new_accesses);
                self.groups.insert(i, grp);
                proof {
                    let g = gs[gi];
                    if is_owner || has_grant(g.members, caller@, Access::Admin) {
                        let st = apply_entries(g.members, is_owner, grants_of(new_accesses@));
                        assert(models(self.groups@) =~= gs.update(
                            gi,
                            GroupModel { members: st.0, ..g },
                        ));
                        if unique_group_ids(gs) {
                            lemma_unique_group_update(gs, gi, GroupModel { members: st.0, ..g });
                        }
                    } else {
                        assert(models(self.groups@) =~= gs.update(gi, g));
                        assert(gs.update(gi, g) =~= gs);
                    }
                }
                cnt
            },
        }
    }

    /// Hands back a copy of the named group to its owner or to one of its
    /// members; anyone else is refused, and an unknown identifier reported.
    pub fn get_group(&self, group_id: &String, caller: &String) -> (r: Result<
        Group,
        &'static str,
    >)
        ensures
            ({
                let gs = models(self.groups@);
                let gi = group_index(gs, group_id@);
                &&& gi == -1 ==> (r matches Err(m) && m@ == "Group not found."@)
                &&& gi >= 0 ==> ({
                    let g = gs[gi];
                    &&& (g.owner == caller@ || is_member(g, caller@)) ==> (r matches Ok(grp)
                        && grp.model() == g)
                    &&& !(g.owner == caller@ || is_member(g, caller@)) ==> (r matches Err(m)
                        && m@ == "You do not have permission to view this group."@)
                })
            }),
    {
        proof {
            lemma_group_index_props(models(self.groups@), group_id@);
        }
        match find_index(&self.groups, group_id) {
            None => Err("Group not found."),
            Some(i) => {
                let g = &self.groups[i];
                if str_eq(g.owner.as_str(), caller.as_str()) || member_of(&g.members, caller) {
                    Ok(g.duplicate())
                } else {
                    Err("You do not have permission to view this group.")
                }
            },
        }
    }

    /// Lists the groups the acting identity owns or belongs to, one page at
    /// a time.
    pub fn get_groups(&self, page: usize, per_page: usize, caller: &String) -> (r: Result<
        PaginatorResponse<Group>,
        EngineError,
    >)
        ensures
            ({
                let visible = visible_groups(models(self.groups@), caller@);
                match r {
                    Ok(resp) => page >= 1 && per_page >= 1 && models(resp.data@) == page_slice(
                        visible,
                        page as int,
                        per_page as int,
                    ) && resp.curr_page == curr_page_spec(
                        visible.len() as int,
                        page as int,
                        per_page as int,
                    ) && resp.total_data == resp.data@.len(),
                    Err(e) => (page == 0 || per_page == 0) && e == EngineError::InvalidOperation,
                }
            }),
    {
        let n: usize = self.groups.len();
        let mut visible: Vec<Group> = Vec::new();
        proof {
            assert(models(visible@) =~= Seq::<GroupModel>::empty());
            assert(models(self.groups@).take(0) =~= Seq::<GroupModel>::empty());
            assert(visible_groups(models(self.groups@).take(0), caller@) =~= Seq::<
                GroupModel,
            >::empty()) by {
                reveal(Seq::filter);
            }
        }
        let mut k: usize = 0;
        while k < n
            invariant
                k <= n,
                n == self.groups@.len(),
                models(visible@) == visible_groups(
                    models(self.groups@).take(k as int),
                    caller@,
                ),
            decreases n - k,
        {
            let g = &self.groups[k];
            proof {
                lemma_visible_push(
                    models(self.groups@).take(k as int),
                    caller@,
                    models(self.groups@)[k as int],
                );
                assert(models(self.groups@).take(k as int + 1) =~= models(
                    self.groups@,
                ).take(k as int).push(models(self.groups@)[k as int]));
            }
            if str_eq(g.owner.as_str(), caller.as_str()) || member_of(&g.members, caller) {
                let d = g.duplicate();
                visible.push(d);
                proof {
                    assert(models(visible@) =~= visible_groups(
                        models(self.groups@).take(k as int + 1),
                        caller@,
                    ));
                }
            } else {
                proof {
                    assert(models(visible@) =~= visible_groups(
                        models(self.groups@).take(k as int + 1),
                        caller@,
                    ));
                }
            }
            k += 1;
        }
        proof {
            assert(models(self.groups@).take(n as int) =~= models(self.groups@));
        }
        let ghost vm = models(visible@);
        let p = Paginator::new(visible, Vec::new());
        let res = p.get(page, per_page);
        proof {
            match &res {
                Ok(resp) => {
                    crate::paginate::lemma_filter_models_empty_filters::<Group>(
                        page_slice(vm, page as int, per_page as int),
                        p.filters@,
                    );
                },
                Err(e) => {},
            }
        }
        res
    }
}

proof fn lemma_visible_push(s: Seq<GroupModel>, u: Seq<char>, g: GroupModel)
    ensures
        visible_groups(s.push(g), u) == if g.owner == u || is_member(g, u) {
            visible_groups(s, u).push(g)
        } else {
            visible_groups(s, u)
        },
{
    assert(s.push(g).drop_last() =~= s);
    assert(s.push(g).last() == g);
    reveal(Seq::filter);
}

/// The entries of a proposed list that name a real capability the target
/// does not yet hold exactly: `Owner` entries and exact duplicates of
/// existing grants are left out.
pub open spec fn fresh_entries(
    members: Seq<(Seq<char>, Access)>,
    proposed: Seq<(Seq<char>, Access)>,
) -> Seq<(Seq<char>, Access)> {
    proposed.filter(|u: (Seq<char>, Access)| u.1 != Access::Owner && !has_grant(members, u.0, u.1))
}

proof fn lemma_fresh_push(
    members: Seq<(Seq<char>, Access)>,
    s: Seq<(Seq<char>, Access)>,
    x: (Seq<char>, Access),
)
    ensures
        fresh_entries(members, s.push(x)) == if x.1 != Access::Owner && !has_grant(
            members,
            x.0,
            x.1,
        ) {
            fresh_entries(members, s).push(x)
        } else {
            fresh_entries(members, s)
        },
{
    assert(s.push(x).drop_last() =~= s);
    assert(s.push(x).last() == x);
    reveal(Seq::filter);
}

/// The effect of appending a list of new entries: each is pushed unless an
/// equal grant has appeared meanwhile, with the count of entries pushed.
pub open spec fn assign_new(
    members: Seq<(Seq<char>, Access)>,
    fresh: Seq<(Seq<char>, Access)>,
) -> (Seq<(Seq<char>, Access)>, nat)
    decreases fresh.len(),
{
    if fresh.len() == 0 {
        (members, 0)
    } else {
        let first = if has_grant(members, fresh[0].0, fresh[0].1) {
            (members, 0nat)
        } else {
            (members.push(fresh[0]), 1nat)
        };
        let rest = assign_new(first.0, fresh.drop_first());
        (rest.0, first.1 + rest.1)
    }
}

proof fn lemma_assign_new_step(
    members: Seq<(Seq<char>, Access)>,
    fresh: Seq<(Seq<char>, Access)>,
    i: int,
)
    requires
        0 <= i < fresh.len(),
    ensures
        ({
            let st = if has_grant(members, fresh[i].0, fresh[i].1) {
                (members, 0nat)
            } else {
                (members.push(fresh[i]), 1nat)
            };
            &&& assign_new(members, fresh.skip(i)).0 == assign_new(st.0, fresh.skip(i + 1)).0
            &&& assign_new(members, fresh.skip(i)).1 == st.1 + assign_new(
                st.0,
                fresh.skip(i + 1),
            ).1
        }),
{
    assert(fresh.skip(i).len() > 0);
    assert(fresh.skip(i)[0] == fresh[i]);
    assert(fresh.skip(i).drop_first() =~= fresh.skip(i + 1));
}

/// The effect of deleting one identifier: the first group stored under it
/// goes, when it exists and the acting identity owns it.
pub open spec fn delete_one_spec(gs: Seq<GroupModel>, id: Seq<char>, caller: Seq<char>) -> (
    Seq<GroupModel>,
    nat,
) {
    let gi = group_index(gs, id);
    if gi >= 0 && gs[gi].owner == caller {
        (gs.remove(gi), 1)
    } else {
        (gs, 0)
    }
}

/// The effect of deleting a list of identifiers, left to right, with the
/// count of groups deleted.
pub open spec fn delete_groups_spec(
    gs: Seq<GroupModel>,
    ids: Seq<Seq<char>>,
    caller: Seq<char>,
) -> (Seq<GroupModel>, nat)
    decreases ids.len(),
{
    if ids.len() == 0 {
        (gs, 0)
    } else {
        let first = delete_one_spec(gs, ids[0], caller);
        let rest = delete_groups_spec(first.0, ids.drop_first(), caller);
        (rest.0, first.1 + rest.1)
    }
}

/// The effect of removing a list of identifiers without an ownership test,
/// left to right, with the count of entries removed.
pub open spec fn remove_ids_spec(gs: Seq<GroupModel>, ids: Seq<Seq<char>>) -> (
    Seq<GroupModel>,
    nat,
)
    decreases ids.len(),
{
    if ids.len() == 0 {
        (gs, 0)
    } else {
        let gi = group_index(gs, ids[0]);
        let first = if gi >= 0 {
            (gs.remove(gi), 1nat)
        } else {
            (gs, 0nat)
        };
        let rest = remove_ids_spec(first.0, ids.drop_first());
        (rest.0, first.1 + rest.1)
    }
}

} // verus!
