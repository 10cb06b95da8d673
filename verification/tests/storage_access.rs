use storage_engine::access::Access;
use storage_engine::file::{check_file_permission, FileStore, StoredFile};
use storage_engine::group::{Group, GroupRegistry};
use storage_engine::paginate::{EngineError, HasFields};

fn file(id: &str, owner: &str, data: &[u8]) -> StoredFile {
    StoredFile {
        id: id.to_string(),
        name: format!("{}.bin", id),
        mime_type: "application/octet-stream".to_string(),
        size: data.len(),
        data: data.to_vec(),
        owner: owner.to_string(),
        groups: Vec::new(),
        allowed_users: Vec::new(),
        public: false,
        uploaded_at: None,
    }
}

fn group(id: &str, owner: &str, members: Vec<(&str, Access)>) -> Group {
    Group {
        id: id.to_string(),
        name: format!("group {}", id),
        members: members.into_iter().map(|(u, a)| (u.to_string(), a)).collect(),
        owner: owner.to_string(),
        public: false,
    }
}

fn s(v: &str) -> String {
    v.to_string()
}

#[test]
fn three_channel_permission_example() {
    // A file owned by A, with an allow-list grant (B, Read), under a group
    // whose members hold (C, Write).
    let mut f = file("f1", "a", b"payload");
    f.allowed_users.push((s("b"), Access::Read));
    f.groups.push(group("g1", "someone", vec![("c", Access::Write)]));

    assert!(check_file_permission(&f, &vec![Access::Read], &s("b")));
    assert!(!check_file_permission(&f, &vec![Access::Write], &s("b")));
    assert!(check_file_permission(&f, &vec![Access::Write], &s("c")));
    assert!(!check_file_permission(&f, &vec![Access::Read], &s("d")));
}

#[test]
fn owner_passes_whenever_owner_is_requested() {
    let f = file("f1", "a", b"x");
    assert!(check_file_permission(&f, &vec![Access::Owner], &s("a")));
    assert!(check_file_permission(
        &f,
        &vec![Access::Owner, Access::Read],
        &s("a"),
    ));
    // Ownership bypasses nothing when only Public visibility is asked for.
    assert!(!check_file_permission(&f, &vec![Access::Public], &s("a")));
    // The general capability set does not include Owner, so an owner with
    // no explicit grant fails it.
    assert!(!check_file_permission(&f, &Access::all(), &s("a")));
}

#[test]
fn public_flag_answers_public_requests() {
    let mut f = file("f1", "a", b"x");
    f.public = true;
    assert!(check_file_permission(&f, &vec![Access::Public], &s("nobody")));
    assert!(check_file_permission(&f, &Access::all(), &s("nobody")));
}

#[test]
fn exact_capability_match_only() {
    let mut f = file("f1", "a", b"x");
    f.allowed_users.push((s("b"), Access::Admin));
    // Holding Admin does not satisfy a Read-only request.
    assert!(!check_file_permission(&f, &vec![Access::Read], &s("b")));
    assert!(check_file_permission(&f, &vec![Access::Admin], &s("b")));
}

#[test]
fn chunked_reads_reassemble_the_payload() {
    let mut store = FileStore::new();
    let data: Vec<u8> = (0u8..10).collect();
    let id = store
        .add_file(file("ignored", "a", &[]), s("f1"), s("a"))
        .unwrap();
    assert_eq!(id, "f1");
    assert!(store.add_bytes(&s("f1"), &data, false, &s("a"), s("t0")));

    for n in 1..12usize {
        let mut rebuilt: Vec<u8> = Vec::new();
        let mut k = 0usize;
        loop {
            let chunk = store.get_bytes(&s("f1"), n, k);
            if chunk.is_empty() {
                break;
            }
            rebuilt.extend_from_slice(&chunk);
            k += 1;
        }
        assert_eq!(rebuilt, data);
    }
}

#[test]
fn get_bytes_edges() {
    let mut store = FileStore::new();
    store.add_file(file("x", "a", &[]), s("f1"), s("a"));
    store.add_bytes(&s("f1"), &vec![1, 2, 3, 4, 5], false, &s("a"), s("t"));
    assert_eq!(store.get_bytes(&s("f1"), 2, 0), vec![1, 2]);
    assert_eq!(store.get_bytes(&s("f1"), 2, 2), vec![5]);
    assert!(store.get_bytes(&s("f1"), 2, 3).is_empty());
    assert!(store.get_bytes(&s("missing"), 2, 0).is_empty());
    assert!(store.get_bytes(&s("f1"), 0, 0).is_empty());
}

#[test]
fn append_is_owner_only_and_stops_at_finalization() {
    let mut store = FileStore::new();
    store.add_file(file("x", "a", &[]), s("f1"), s("a"));
    // A non-owner cannot append.
    assert!(!store.add_bytes(&s("f1"), &vec![1], false, &s("b"), s("t")));
    assert!(store.get_bytes(&s("f1"), 10, 0).is_empty());
    // The owner appends, then finalizes.
    assert!(store.add_bytes(&s("f1"), &vec![1, 2], false, &s("a"), s("t1")));
    assert!(store.add_bytes(&s("f1"), &vec![3], true, &s("a"), s("t2")));
    assert_eq!(store.get_bytes(&s("f1"), 10, 0), vec![1, 2, 3]);
    // After finalization, even the owner is refused.
    assert!(!store.add_bytes(&s("f1"), &vec![4], false, &s("a"), s("t3")));
    assert_eq!(store.get_bytes(&s("f1"), 10, 0), vec![1, 2, 3]);
    // The stamp was set at finalization.
    let f = store.get_file(&s("f1"), Some(false), &s("a"));
    assert!(f.is_none());
    let mut probe = file("f1", "a", &[]);
    probe.allowed_users.push((s("a"), Access::Read));
    // Give the owner a Read grant through the gated path instead.
    let mut store2 = FileStore::new();
    store2.add_file(probe, s("f2"), s("a"));
    store2.add_bytes(&s("f2"), &vec![9], true, &s("a"), s("stamp"));
    let got = store2.get_file(&s("f2"), None, &s("a")).unwrap();
    assert_eq!(got.uploaded_at, Some(s("stamp")));
}

#[test]
fn add_file_reports_fresh_identifiers_only() {
    let mut store = FileStore::new();
    assert_eq!(store.add_file(file("x", "a", b"1"), s("f1"), s("a")), Some(s("f1")));
    // The same identifier again replaces the stored file and reports nothing.
    assert_eq!(store.add_file(file("y", "b", b"2"), s("f1"), s("b")), None);
    assert_eq!(store.get_bytes(&s("f1"), 10, 0), b"2".to_vec());
}

#[test]
fn upload_stores_under_the_content_key() {
    let mut store = FileStore::new();
    let registry = GroupRegistry::new();
    let batch = vec![file("x", "whoever", b"")];
    let r = store.upload_files(&batch, &registry, &s("a"), &s("now"));
    assert_eq!(r.len(), 1);
    assert_eq!(r[0].0, "x.bin");
    assert_eq!(r[0].1, "Successfully uploaded.");
    // The uploader became the owner but holds no Read grant, and the file
    // is not public, so the gated read refuses even them.
    let key = "e3b0c44298fc1c149afbf4c8996fb92427ae41e4649b934ca495991b7852b855";
    let meta = store.get_files_by_id(&vec![s(key)], &s("a"));
    assert!(meta.is_empty());
    // Uploading the same payload again reports it as already stored.
    let r2 = store.upload_files(&batch, &registry, &s("a"), &s("later"));
    assert_eq!(r2[0].1, "File is already uploaded.");
    // The file sits under the empty payload's SHA-256 digest, in lowercase
    // hexadecimal, owned by the uploader: the owner may delete it by that key.
    assert_eq!(store.delete_files(&vec![s(key)], &s("a")), 1);
}

#[test]
fn upload_is_gated_by_every_named_group() {
    let mut registry = GroupRegistry::new();
    registry.create_group(
        group("ignored", "ignored", vec![("a", Access::Write)]),
        s("g1"),
        s("root"),
    );
    let mut store = FileStore::new();
    let mut f = file("x", "whoever", b"data");
    f.groups.push(group("g1", "root", Vec::new()));
    // "a" holds Write on g1, so the upload passes.
    let r = store.upload_files(&vec![f], &registry, &s("a"), &s("t"));
    assert_eq!(r[0].1, "Successfully uploaded.");
    // "b" holds nothing on g1, so the upload is refused.
    let mut f2 = file("y", "whoever", b"data2");
    f2.groups.push(group("g1", "root", Vec::new()));
    let r2 = store.upload_files(&vec![f2], &registry, &s("b"), &s("t"));
    assert_eq!(r2[0].1, "You are not authorized in this group.");
}

#[test]
fn delete_files_is_owner_only() {
    let mut store = FileStore::new();
    store.add_file(file("x", "a", b"1"), s("f1"), s("a"));
    store.add_file(file("y", "b", b"2"), s("f2"), s("b"));
    let n = store.delete_files(&vec![s("f1"), s("f2"), s("f3")], &s("a"));
    assert_eq!(n, 1);
    assert!(store.get_bytes(&s("f1"), 10, 0).is_empty());
    assert_eq!(store.get_bytes(&s("f2"), 10, 0), b"2".to_vec());
}

#[test]
fn rename_requires_an_editing_capability() {
    let mut store = FileStore::new();
    let mut f = file("x", "a", b"1");
    f.allowed_users.push((s("w"), Access::Write));
    store.add_file(f, s("f1"), s("a"));
    assert_eq!(
        store.change_file_name(&s("nope"), s("n"), &s("w")),
        Err("StoredFile not found."),
    );
    // The owner holds no Write or Admin grant, so even they are refused.
    assert_eq!(
        store.change_file_name(&s("f1"), s("n"), &s("a")),
        Err("You are not authorized to change this file name."),
    );
    assert_eq!(
        store.change_file_name(&s("f1"), s("renamed.bin"), &s("w")),
        Ok("StoredFile name changed successfully."),
    );
}

#[test]
fn visibility_toggle_messages() {
    let mut store = FileStore::new();
    let mut f = file("x", "a", b"1");
    f.allowed_users.push((s("w"), Access::Admin));
    store.add_file(f, s("f1"), s("a"));
    assert_eq!(
        store.edit_file_public_access(&s("f1"), true, &s("z")),
        Err("You are not authorized to publish this file."),
    );
    assert_eq!(
        store.edit_file_public_access(&s("f1"), false, &s("z")),
        Err("You are not authroized to unpublish this file."),
    );
    assert_eq!(
        store.edit_file_public_access(&s("f1"), true, &s("w")),
        Ok("The file has been published successfully."),
    );
    assert!(check_file_permission(
        &store.get_file(&s("f1"), None, &s("anyone")).unwrap(),
        &vec![Access::Public],
        &s("anyone"),
    ));
    assert_eq!(
        store.edit_file_public_access(&s("f1"), false, &s("w")),
        Ok("The file has been unpublished successfully."),
    );
    assert_eq!(
        store.edit_file_public_access(&s("zz"), true, &s("w")),
        Err("StoredFile not found."),
    );
}

#[test]
fn grant_mutations_by_outsiders_apply_nothing() {
    let mut store = FileStore::new();
    store.add_file(file("x", "a", b"1"), s("f1"), s("a"));
    // "b" is neither the owner nor an admin: nothing is applied.
    let n = store.edit_allowed_users(
        &s("f1"),
        &vec![(s("b"), Access::Read), (s("c"), Access::Write)],
        &s("b"),
    );
    assert_eq!(n, 0);
    let f = store.get_file(&s("f1"), Some(true), &s("b"));
    assert!(f.is_none());
}

#[test]
fn owner_grants_and_revokes() {
    let mut store = FileStore::new();
    store.add_file(file("x", "a", b"1"), s("f1"), s("a"));
    // The owner grants Read to b and Admin to c; an Owner entry is ignored.
    let n = store.edit_allowed_users(
        &s("f1"),
        &vec![
            (s("b"), Access::Read),
            (s("c"), Access::Admin),
            (s("d"), Access::Owner),
        ],
        &s("a"),
    );
    assert_eq!(n, 2);
    // No upgrade path: b already holds a grant, a second one is refused.
    let n = store.edit_allowed_users(&s("f1"), &vec![(s("b"), Access::Write)], &s("a"));
    assert_eq!(n, 0);
    // Granting Admin twice does nothing.
    let n = store.edit_allowed_users(&s("f1"), &vec![(s("c"), Access::Admin)], &s("a"));
    assert_eq!(n, 0);
    // Only the owner may grant Admin; the admin c cannot.
    let n = store.edit_allowed_users(&s("f1"), &vec![(s("e"), Access::Admin)], &s("c"));
    assert_eq!(n, 0);
    // But an admin may grant an ordinary capability.
    let n = store.edit_allowed_users(&s("f1"), &vec![(s("e"), Access::Read)], &s("c"));
    assert_eq!(n, 1);
    // A Removed entry paired with an admin target, acted by the owner,
    // strips every grant of that identity.
    let n = store.edit_allowed_users(&s("f1"), &vec![(s("c"), Access::Removed)], &s("a"));
    assert_eq!(n, 1);
    let f = store.get_file(&s("f1"), None, &s("c"));
    assert!(f.is_none());
    // A Removed entry for a non-admin removes nothing by itself: only an
    // entry equal to the pair (identity, Removed) would match, and none is
    // ever stored.
    let n = store.edit_allowed_users(&s("f1"), &vec![(s("b"), Access::Removed)], &s("a"));
    assert_eq!(n, 0);
    let f = store.get_file(&s("f1"), None, &s("b"));
    assert!(f.is_some());
}

#[test]
fn group_permission_checks() {
    let mut registry = GroupRegistry::new();
    registry.create_group(
        group("ignored", "ignored", vec![("m", Access::Read)]),
        s("g1"),
        s("own"),
    );
    // The owner passes exactly when Owner is among the requested
    // capabilities, as with every stored object.
    assert!(registry.check_group_permission(&s("g1"), &vec![Access::Owner], &s("own")));
    assert!(registry.check_group_permission(
        &s("g1"),
        &vec![Access::Owner, Access::Delete],
        &s("own"),
    ));
    assert!(!registry.check_group_permission(&s("g1"), &vec![Access::Delete], &s("own")));
    // An empty request set passes nobody, the owner included.
    assert!(!registry.check_group_permission(&s("g1"), &Vec::new(), &s("own")));
    // Members pass by exact capability only.
    assert!(registry.check_group_permission(&s("g1"), &vec![Access::Read], &s("m")));
    assert!(!registry.check_group_permission(&s("g1"), &vec![Access::Write], &s("m")));
    // An unknown group passes nobody.
    assert!(!registry.check_group_permission(&s("zz"), &vec![Access::Read], &s("own")));
}

#[test]
fn public_group_answers_public_requests() {
    let mut registry = GroupRegistry::new();
    let mut g = group("ignored", "ignored", Vec::new());
    g.public = true;
    registry.create_group(g, s("g1"), s("own"));
    assert!(registry.check_group_permission(&s("g1"), &vec![Access::Public], &s("stranger")));
    assert!(registry.check_group_permission(&s("g1"), &Access::all(), &s("stranger")));
    assert!(!registry.check_group_permission(&s("g1"), &vec![Access::Read], &s("stranger")));
}

#[test]
fn group_member_mutation_rules() {
    let mut registry = GroupRegistry::new();
    registry.create_group(group("ignored", "ignored", Vec::new()), s("g1"), s("own"));
    // An outsider applies nothing.
    assert_eq!(
        registry.edit_group_members(&s("g1"), &vec![(s("x"), Access::Read)], &s("x")),
        0,
    );
    // The owner grants.
    assert_eq!(
        registry.edit_group_members(
            &s("g1"),
            &vec![(s("x"), Access::Read), (s("y"), Access::Admin)],
            &s("own"),
        ),
        2,
    );
    // The admin y grants an ordinary capability.
    assert_eq!(
        registry.edit_group_members(&s("g1"), &vec![(s("z"), Access::Write)], &s("y")),
        1,
    );
    // An unknown group changes nothing.
    assert_eq!(
        registry.edit_group_members(&s("zz"), &vec![(s("q"), Access::Read)], &s("own")),
        0,
    );
}

#[test]
fn assign_group_members_flow() {
    let mut registry = GroupRegistry::new();
    registry.create_group(
        group("ignored", "ignored", vec![("m", Access::Read)]),
        s("g1"),
        s("own"),
    );
    assert_eq!(
        registry.assign_group_members(&vec![(s("x"), Access::Read)], &s("zz"), &s("own")),
        Err("Group not found."),
    );
    // Entries already present or naming Owner are not new.
    assert_eq!(
        registry.assign_group_members(
            &vec![(s("m"), Access::Read), (s("q"), Access::Owner)],
            &s("g1"),
            &s("own"),
        ),
        Ok("No new users to assign.".to_string()),
    );
    // An outsider with something new to assign is refused.
    assert_eq!(
        registry.assign_group_members(&vec![(s("x"), Access::Read)], &s("g1"), &s("x")),
        Err("You are not authorized to assign members."),
    );
    // The owner assigns two new members.
    assert_eq!(
        registry.assign_group_members(
            &vec![(s("x"), Access::Read), (s("y"), Access::Write)],
            &s("g1"),
            &s("own"),
        ),
        Ok("2 users assigned.".to_string()),
    );
    assert!(registry.check_group_permission(&s("g1"), &vec![Access::Read], &s("x")));
}

#[test]
fn delete_groups_is_owner_only() {
    let mut registry = GroupRegistry::new();
    registry.create_group(group("i", "i", Vec::new()), s("g1"), s("a"));
    registry.create_group(group("i", "i", Vec::new()), s("g2"), s("b"));
    let n = registry.delete_groups(&vec![s("g1"), s("g2"), s("g3")], &s("a"));
    assert_eq!(n, 1);
    assert!(matches!(registry.get_group(&s("g1"), &s("a")), Err("Group not found.")));
    assert!(registry.get_group(&s("g2"), &s("b")).is_ok());
}

#[test]
fn remove_group_files_needs_administrative_access() {
    let mut registry = GroupRegistry::new();
    registry.create_group(
        group("i", "i", vec![("adm", Access::Admin)]),
        s("g1"),
        s("a"),
    );
    registry.create_group(group("i", "i", Vec::new()), s("g2"), s("a"));
    // Without an administrative grant on g1, nothing is removed: not even
    // g1's owner passes the {Admin, Delete} set without one.
    assert_eq!(registry.remove_group_files(&s("g1"), &vec![s("g2")], &s("z")), 0);
    assert_eq!(registry.remove_group_files(&s("g1"), &vec![s("g2")], &s("a")), 0);
    // A holder of an exact Admin grant on g1 removes g2.
    assert_eq!(registry.remove_group_files(&s("g1"), &vec![s("g2")], &s("adm")), 1);
    assert!(matches!(registry.get_group(&s("g2"), &s("a")), Err("Group not found.")));
}

#[test]
fn get_group_visibility() {
    let mut registry = GroupRegistry::new();
    registry.create_group(
        group("i", "team", vec![("m", Access::Read)]),
        s("g1"),
        s("own"),
    );
    assert!(registry.get_group(&s("g1"), &s("own")).is_ok());
    assert!(registry.get_group(&s("g1"), &s("m")).is_ok());
    assert!(matches!(
        registry.get_group(&s("g1"), &s("z")),
        Err("You do not have permission to view this group."),
    ));
    assert!(matches!(
        registry.get_group(&s("zz"), &s("own")),
        Err("Group not found."),
    ));
    let g = registry.get_group(&s("g1"), &s("own")).unwrap();
    assert_eq!(g.id, "g1");
    assert_eq!(g.owner, "own");
}

#[test]
fn get_groups_lists_only_visible_groups() {
    let mut registry = GroupRegistry::new();
    registry.create_group(group("i", "one", Vec::new()), s("g1"), s("a"));
    registry.create_group(group("i", "two", vec![("a", Access::Read)]), s("g2"), s("b"));
    registry.create_group(group("i", "three", Vec::new()), s("g3"), s("c"));
    let r = registry.get_groups(1, 10, &s("a")).unwrap();
    assert_eq!(r.total_data, 2);
    assert_eq!(r.data[0].id, "g1");
    assert_eq!(r.data[1].id, "g2");
    assert!(matches!(
        registry.get_groups(1, 0, &s("a")),
        Err(EngineError::InvalidOperation),
    ));
}

#[test]
fn get_file_gates_on_the_requested_handle() {
    let mut store = FileStore::new();
    let mut f = file("x", "a", b"1");
    f.allowed_users.push((s("r"), Access::Read));
    f.allowed_users.push((s("w"), Access::Write));
    store.add_file(f, s("f1"), s("a"));
    // A read-capability holder gets the general handle but not a mutable one.
    assert!(store.get_file(&s("f1"), None, &s("r")).is_some());
    assert!(store.get_file(&s("f1"), Some(true), &s("r")).is_none());
    // A write-capability holder gets both.
    assert!(store.get_file(&s("f1"), Some(false), &s("w")).is_some());
    assert!(store.get_file(&s("f1"), Some(true), &s("w")).is_some());
    assert!(store.get_file(&s("missing"), None, &s("r")).is_none());
}

#[test]
fn metadata_reads_carry_no_payload() {
    let mut store = FileStore::new();
    let mut f = file("x", "a", b"secret");
    f.allowed_users.push((s("r"), Access::Read));
    store.add_file(f, s("f1"), s("a"));
    store.add_bytes(&s("f1"), &vec![1, 2, 3], false, &s("a"), s("t"));
    let m = store.get_file_by_id(&s("f1"), &s("r")).unwrap();
    assert_eq!(m.id, "f1");
    assert_eq!(m.owner, "a");
    assert!(store.get_file_by_id(&s("f1"), &s("z")).is_none());
    let many = store.get_files_by_id(&vec![s("f1"), s("nope"), s("f1")], &s("r"));
    assert_eq!(many.len(), 2);
}

#[test]
fn get_files_listing_modes() {
    let mut store = FileStore::new();
    store.add_file(file("x", "a", b"1"), s("f1"), s("a"));
    store.add_file(file("y", "b", b"2"), s("f2"), s("b"));
    let mut f3 = file("z", "b", b"3");
    f3.public = true;
    store.add_file(f3, s("f3"), s("b"));
    // Owned listing.
    let r = store.get_files(10, 1, false, true, &s("a")).unwrap();
    assert_eq!(r.total_data, 1);
    assert_eq!(r.data[0].id, "f1");
    // Public listing.
    let r = store.get_files(10, 1, true, false, &s("a")).unwrap();
    assert_eq!(r.total_data, 1);
    assert_eq!(r.data[0].id, "f3");
    // Permission-based listing: only the public file passes the general set.
    let r = store.get_files(10, 1, false, false, &s("a")).unwrap();
    assert_eq!(r.total_data, 1);
    assert_eq!(r.data[0].id, "f3");
    // Zero page size is a hard error.
    assert!(matches!(
        store.get_files(0, 1, false, true, &s("a")),
        Err(EngineError::InvalidOperation),
    ));
}

#[test]
fn get_all_hands_back_every_file() {
    let mut store = FileStore::new();
    store.add_file(file("x", "a", b"1"), s("f1"), s("a"));
    store.add_file(file("y", "b", b"22"), s("f2"), s("b"));
    let all = store.get_all();
    assert_eq!(all.len(), 2);
    assert_eq!(all[0].id, "f1");
    assert_eq!(all[1].id, "f2");
}

#[test]
fn size_field_renders_in_decimal() {
    let mut f = file("x", "a", b"");
    f.size = 12345;
    assert_eq!(f.get_field("size"), "12345");
    f.size = 0;
    assert_eq!(f.get_field("size"), "0");
    assert_eq!(f.get_field("mime_type"), "application/octet-stream");
    assert_eq!(f.get_field("public"), "false");
}
