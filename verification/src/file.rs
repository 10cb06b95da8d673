//! Stored files and the file store.
//!
//! A stored file carries its byte payload, its owner, a snapshot of the
//! groups it was uploaded under, an explicit allow-list of grants, and a
//! public flag. Until the upload is finalized `uploaded_at` is `None` and
//! bytes may still be appended; finalization stamps it once and the payload
//! becomes immutable. Every gated operation resolves one allow/deny decision
//! from three channels: direct ownership, the allow-list, and the groups.

use vstd::prelude::*;

use crate::access::{any_grant, apply_entries, contains_access, grants_of, has_grant,
    mutate_grants, strs_of, Access, all_spec, can_edit_spec};
use crate::group::{Group, GroupModel, dup_grants};
use crate::paginate::{curr_page_spec, models, page_slice, EngineError, HasFields, Paginator,
    PaginatorResponse};
use crate::strings::{bool_str, bool_to_string, dec_str, str_eq, usize_to_string};

verus! {

/// A stored file: metadata, payload, and its three access channels.
pub struct StoredFile {
    pub id: String,
    pub name: String,
    pub mime_type: String,
    pub size: usize,
    pub data: Vec<u8>,
    pub owner: String,
    pub groups: Vec<Group>,
    pub allowed_users: Vec<(String, Access)>,
    pub public: bool,
    pub uploaded_at: Option<String>,
}

/// A stored file's metadata without its payload.
pub struct StoredFileWithoutData {
    pub id: String,
    pub name: String,
    pub mime_type: String,
    pub size: usize,
    pub owner: String,
    pub groups: Vec<Group>,
    pub allowed_users: Vec<(String, Access)>,
    pub public: bool,
    pub uploaded_at: Option<String>,
}

/// The mathematical model of a stored file. The declared `size` is advisory
/// metadata; the length of `data` is ground truth.
#[verifier::ext_equal]
pub struct StoredFileModel {
    pub id: Seq<char>,
    pub name: Seq<char>,
    pub mime_type: Seq<char>,
    pub size: nat,
    pub data: Seq<u8>,
    pub owner: Seq<char>,
    pub groups: Seq<GroupModel>,
    pub allowed_users: Seq<(Seq<char>, Access)>,
    pub public: bool,
    pub uploaded_at: Option<Seq<char>>,
}

/// The model of an `uploaded_at` field.
pub open spec fn stamp_of(o: Option<String>) -> Option<Seq<char>> {
    match o {
        Some(s) => Some(s@),
        None => None,
    }
}

/// A file's model with the payload dropped.
pub open spec fn strip_data(m: StoredFileModel) -> StoredFileModel {
    StoredFileModel { data: Seq::empty(), ..m }
}

impl StoredFileWithoutData {
    /// The model of this metadata record, with an empty payload.
    pub open spec fn model(&self) -> StoredFileModel {
        StoredFileModel {
            id: self.id@,
            name: self.name@,
            mime_type: self.mime_type@,
            size: self.size as nat,
            data: Seq::empty(),
            owner: self.owner@,
            groups: models(self.groups@),
            allowed_users: grants_of(self.allowed_users@),
            public: self.public,
            uploaded_at: stamp_of(self.uploaded_at),
        }
    }
}

/// Copies a byte vector.
pub fn dup_bytes(v: &Vec<u8>) -> (r: Vec<u8>)
    ensures
        r@ == v@,
{
    let n: usize = v.len();
    let mut out: Vec<u8> = Vec::new();
    let mut i: usize = 0;
    while i < n
        invariant
            i <= n,
            n == v@.len(),
            out@ == v@.take(i as int),
        decreases n - i,
    {
        out.push(v[i]);
        proof {
            assert(out@ =~= v@.take(i as int + 1));
        }
        i += 1;
    }
    proof {
        assert(v@.take(n as int) =~= v@);
    }
    out
}

/// Copies a list of groups; the copy has the same models.
pub fn dup_groups(v: &Vec<Group>) -> (r: Vec<Group>)
    ensures
        models(r@) == models(v@),
{
    let n: usize = v.len();
    let mut out: Vec<Group> = Vec::new();
    proof {
        assert(models(out@) =~= models(v@).take(0));
    }
    let mut i: usize = 0;
    while i < n
        invariant
            i <= n,
            n == v@.len(),
            models(out@) == models(v@).take(i as int),
        decreases n - i,
    {
        let ghost pre = models(out@);
        let d = v[i].duplicate();
        out.push(d);
        proof {
            assert(models(out@) =~= pre.push(d.model()));
            assert(d.model() == models(v@)[i as int]);
            assert(models(v@).take(i as int + 1) =~= models(v@).take(i as int).push(
                models(v@)[i as int],
            ));
        }
        i += 1;
    }
    proof {
        assert(models(v@).take(n as int) =~= models(v@));
    }
    out
}

fn dup_stamp(o: &Option<String>) -> (r: Option<String>)
    ensures
        stamp_of(r) == stamp_of(*o),
{
    match o {
        Some(s) => Some(s.clone()),
        None => None,
    }
}

impl HasFields for StoredFile {
    type V = StoredFileModel;

    open spec fn model(&self) -> StoredFileModel {
        StoredFileModel {
            id: self.id@,
            name: self.name@,
            mime_type: self.mime_type@,
            size: self.size as nat,
            data: self.data@,
            owner: self.owner@,
            groups: models(self.groups@),
            allowed_users: grants_of(self.allowed_users@),
            public: self.public,
            uploaded_at: stamp_of(self.uploaded_at),
        }
    }

    open spec fn field_of(m: StoredFileModel, name: Seq<char>) -> Seq<char> {
        if name == "id"@ {
            m.id
        } else if name == "name"@ {
            m.name
        } else if name == "mime_type"@ {
            m.mime_type
        } else if name == "size"@ {
            dec_str(m.size)
        } else if name == "owner"@ {
            m.owner
        } else if name == "public"@ {
            bool_str(m.public)
        } else {
            Seq::empty()
        }
    }

    fn get_field(&self, field_name: &str) -> (r: String) {
        if str_eq(field_name, "id") {
            self.id.clone()
        } else if str_eq(field_name, "name") {
            self.name.clone()
        } else if str_eq(field_name, "mime_type") {
            self.mime_type.clone()
        } else if str_eq(field_name, "size") {
            usize_to_string(self.size)
        } else if str_eq(field_name, "owner") {
            self.owner.clone()
        } else if str_eq(field_name, "public") {
            bool_to_string(self.public)
        } else {
            String::new()
        }
    }

    fn duplicate(&self) -> (r: Self) {
        StoredFile {
            id: self.id.clone(),
            name: self.name.clone(),
            mime_type: self.mime_type.clone(),
            size: self.size,
            data: dup_bytes(&self.data),
            owner: self.owner.clone(),
            groups: dup_groups(&self.groups),
            allowed_users: dup_grants(&self.allowed_users),
            public: self.public,
            uploaded_at: dup_stamp(&self.uploaded_at),
        }
    }
}

/// The position of the first file with this identifier, or -1.
pub open spec fn file_index(fs: Seq<StoredFileModel>, id: Seq<char>) -> int
    decreases fs.len(),
{
    if fs.len() == 0 {
        -1
    } else if fs[0].id == id {
        0
    } else {
        let rest = file_index(fs.drop_first(), id);
        if rest == -1 {
            -1
        } else {
            1 + rest
        }
    }
}

/// A found index lies in range, names the identifier, and is the first to
/// do so; -1 means no file has the identifier.
pub proof fn lemma_file_index_props(fs: Seq<StoredFileModel>, id: Seq<char>)
    ensures
        ({
            let fi = file_index(fs, id);
            &&& fi == -1 || (0 <= fi < fs.len() && fs[fi].id == id)
            &&& fi == -1 ==> forall|k: int| 0 <= k < fs.len() ==> fs[k].id != id
            &&& fi >= 0 ==> forall|k: int| 0 <= k < fi ==> fs[k].id != id
        }),
    decreases fs.len(),
{
    if fs.len() > 0 {
        lemma_file_index_props(fs.drop_first(), id);
        if fs[0].id != id {
            let rest = file_index(fs.drop_first(), id);
            if rest == -1 {
                assert forall|k: int| 0 <= k < fs.len() implies fs[k].id != id by {
                    if k > 0 {
                        assert(fs.drop_first()[k - 1] == fs[k]);
                        assert(fs.drop_first()[k - 1].id != id);
                    }
                }
            } else {
                assert(fs.drop_first()[rest].id == id);
                assert forall|k: int| 0 <= k < 1 + rest implies fs[k].id != id by {
                    if k > 0 {
                        assert(fs.drop_first()[k - 1] == fs[k]);
                        assert(fs.drop_first()[k - 1].id != id);
                    }
                }
            }
        }
    }
}

proof fn lemma_file_index_skip(fs: Seq<StoredFileModel>, id: Seq<char>, i: int)
    requires
        0 <= i <= fs.len(),
        forall|k: int| 0 <= k < i ==> fs[k].id != id,
    ensures
        file_index(fs, id) == if file_index(fs.skip(i), id) == -1 {
            -1
        } else {
            i + file_index(fs.skip(i), id)
        },
    decreases i,
{
    if i == 0 {
        assert(fs.skip(0) =~= fs);
    } else {
        lemma_file_index_skip(fs, id, i - 1);
        lemma_file_index_props(fs.skip(i), id);
        assert(fs.skip(i - 1).len() > 0);
        assert(fs.skip(i - 1)[0] == fs[i - 1]);
        assert(fs.skip(i - 1)[0].id != id);
        assert(fs.skip(i - 1).drop_first() =~= fs.skip(i));
        assert(file_index(fs.skip(i - 1), id) == if file_index(fs.skip(i), id) == -1 {
            -1
        } else {
            1 + file_index(fs.skip(i), id)
        });
    }
}

fn find_file_index(files: &Vec<StoredFile>, file_id: &String) -> (r: Option<usize>)
    ensures
        match r {
            Some(i) => i < files@.len() && file_index(models(files@), file_id@) == i,
            None => file_index(models(files@), file_id@) == -1,
        },
{
    let n: usize = files.len();
    let mut i: usize = 0;
    while i < n
        invariant
            i <= n,
            n == files@.len(),
            forall|k: int| 0 <= k < i ==> models(files@)[k].id != file_id@,
        decreases n - i,
    {
        if str_eq(files[i].id.as_str(), file_id.as_str()) {
            proof {
                lemma_file_index_skip(models(files@), file_id@, i as int);
                assert(models(files@).skip(i as int)[0] == models(files@)[i as int]);
            }
            return Some(i);
        }
        i += 1;
    }
    proof {
        lemma_file_index_skip(models(files@), file_id@, n as int);
        assert(models(files@).skip(n as int) =~= Seq::<StoredFileModel>::empty());
    }
    None
}

/// Well-formedness of a stored file collection: identifiers are unique, so
/// a file is addressed by its identifier alone.
pub open spec fn unique_file_ids(fs: Seq<StoredFileModel>) -> bool {
    forall|i: int, j: int| 0 <= i < j < fs.len() ==> fs[i].id != fs[j].id
}

proof fn lemma_unique_file_push(fs: Seq<StoredFileModel>, fm: StoredFileModel)
    requires
        unique_file_ids(fs),
        file_index(fs, fm.id) == -1,
    ensures
        unique_file_ids(fs.push(fm)),
{
    lemma_file_index_props(fs, fm.id);
    assert forall|i: int, j: int| 0 <= i < j < fs.push(fm).len() implies fs.push(fm)[i].id
        != fs.push(fm)[j].id by {
        if j < fs.len() {
            assert(fs.push(fm)[i] == fs[i]);
            assert(fs.push(fm)[j] == fs[j]);
        } else {
            assert(fs.push(fm)[i] == fs[i]);
            assert(fs.push(fm)[j] == fm);
            assert(fs[i].id != fm.id);
        }
    }
}

proof fn lemma_unique_file_update(fs: Seq<StoredFileModel>, k: int, fm: StoredFileModel)
    requires
        unique_file_ids(fs),
        0 <= k < fs.len(),
        fm.id == fs[k].id,
    ensures
        unique_file_ids(fs.update(k, fm)),
{
    assert forall|i: int, j: int| 0 <= i < j < fs.update(k, fm).len() implies fs.update(
        k,
        fm,
    )[i].id != fs.update(k, fm)[j].id by {
        assert(fs.update(k, fm)[i].id == fs[i].id);
        assert(fs.update(k, fm)[j].id == fs[j].id);
    }
}

proof fn lemma_unique_file_remove(fs: Seq<StoredFileModel>, k: int)
    requires
        unique_file_ids(fs),
        0 <= k < fs.len(),
    ensures
        unique_file_ids(fs.remove(k)),
{
    assert forall|i: int, j: int| 0 <= i < j < fs.remove(k).len() implies fs.remove(k)[i].id
        != fs.remove(k)[j].id by {
        assert(fs.remove(k)[i] == if i < k {
            fs[i]
        } else {
            fs[i + 1]
        });
        assert(fs.remove(k)[j] == if j < k {
            fs[j]
        } else {
            fs[j + 1]
        });
    }
}

/// Whether some group of the list grants the identity one of the requested
/// capabilities through its member grants. The groups' own owners play no
/// part in this channel.
pub open spec fn groups_allow(gs: Seq<GroupModel>, user: Seq<char>, ops: Seq<Access>) -> bool
    decreases gs.len(),
{
    if gs.len() == 0 {
        false
    } else {
        any_grant(gs[0].members, user, ops) || groups_allow(gs.drop_first(), user, ops)
    }
}

proof fn lemma_groups_allow_step(gs: Seq<GroupModel>, user: Seq<char>, ops: Seq<Access>, i: int)
    requires
        0 <= i < gs.len(),
    ensures
        groups_allow(gs.skip(i), user, ops) == (any_grant(gs[i].members, user, ops)
            || groups_allow(gs.skip(i + 1), user, ops)),
{
    assert(gs.skip(i).len() > 0);
    assert(gs.skip(i)[0] == gs[i]);
    assert(gs.skip(i).drop_first() =~= gs.skip(i + 1));
}

/// The single allow/deny decision over a file's three channels, first match
/// wins: ownership when `Owner` is requested, the public flag when `Public`
/// is requested, an exact grant on the allow-list, or an exact grant from
/// one of the file's groups. Holding a capability does not imply holding a
/// weaker one: every match is exact.
pub open spec fn file_allows(f: StoredFileModel, ops: Seq<Access>, user: Seq<char>) -> bool {
    ||| (ops.contains(Access::Owner) && f.owner == user)
    ||| (ops.contains(Access::Public) && f.public)
    ||| any_grant(f.allowed_users, user, ops)
    ||| groups_allow(f.groups, user, ops)
}

/// Resolves the allow/deny decision for one file: ownership when `Owner` is
/// requested, the public flag when `Public` is requested, an exact grant on
/// the allow-list, or an exact grant from one of the file's groups.
pub fn check_file_permission(file: &StoredFile, operations: &Vec<Access>, user: &String) -> (r:
    bool)
    ensures
        r == file_allows(file.model(), operations@, user@),
{
    if contains_access(operations, Access::Owner) && str_eq(
        file.owner.as_str(),
        user.as_str(),
    ) {
        return true;
    }
    if contains_access(operations, Access::Public) && file.public {
        return true;
    }
    if crate::access::holds_any_of(&file.allowed_users, user, operations) {
        return true;
    }
    let n: usize = file.groups.len();
    proof {
        assert(models(file.groups@).skip(0) =~= models(file.groups@));
    }
    let mut k: usize = 0;
    while k < n
        invariant
            k <= n,
            n == file.groups@.len(),
            groups_allow(models(file.groups@), user@, operations@) == groups_allow(
                models(file.groups@).skip(k as int),
                user@,
                operations@,
            ),
        decreases n - k,
    {
        proof {
            lemma_groups_allow_step(models(file.groups@), user@, operations@, k as int);
        }
        if crate::access::holds_any_of(&file.groups[k].members, user, operations) {
            return true;
        }
        k += 1;
    }
    proof {
        assert(models(file.groups@).skip(n as int) =~= Seq::<GroupModel>::empty());
    }
    false
}

/// The owner of a file passes any permission check that asks for `Owner`
/// among its capabilities, whatever else the file declares. A check that
/// asks only for other capabilities, such as `Public` visibility alone,
/// gains nothing from ownership.
pub proof fn lemma_owner_always_allowed(f: StoredFileModel, ops: Seq<Access>, user: Seq<char>)
    requires
        ops.contains(Access::Owner),
        f.owner == user,
    ensures
        file_allows(f, ops, user),
{
}

/// Ownership opens no other channel: when `Owner` is not among the
/// requested capabilities, a file with no grants, no group snapshot and no
/// public flag denies every identity, its owner included.
pub proof fn lemma_ownership_bypasses_only_owner_requests(
    f: StoredFileModel,
    ops: Seq<Access>,
    user: Seq<char>,
)
    requires
        !ops.contains(Access::Owner),
        !f.public,
        f.allowed_users.len() == 0,
        f.groups.len() == 0,
    ensures
        !file_allows(f, ops, user),
{
}

/// One chunk of a payload: `chunk_size` bytes starting at
/// `chunk_index * chunk_size`, cut short at the end; empty when the start
/// lies at or past the end.
pub open spec fn chunk_of(data: Seq<u8>, size: int, index: int) -> Seq<u8> {
    let start = index * size;
    if start >= data.len() {
        Seq::empty()
    } else {
        let end = if start + size <= data.len() {
            start + size
        } else {
            data.len() as int
        };
        data.subrange(start, end)
    }
}

/// The first `count` chunks of a payload, joined in order.
pub open spec fn concat_chunks(data: Seq<u8>, size: int, count: int) -> Seq<u8>
    decreases count,
{
    if count <= 0 {
        Seq::empty()
    } else {
        concat_chunks(data, size, count - 1) + chunk_of(data, size, count - 1)
    }
}

proof fn lemma_chunks_prefix(data: Seq<u8>, size: int, count: int)
    requires
        size >= 1,
        count >= 0,
    ensures
        concat_chunks(data, size, count) == if count * size <= data.len() {
            data.subrange(0, count * size)
        } else {
            data
        },
    decreases count,
{
    if count == 0 {
        assert(data.subrange(0, 0) =~= Seq::<u8>::empty());
    } else {
        lemma_chunks_prefix(data, size, count - 1);
        let prev = (count - 1) * size;
        let here = count * size;
        assert(count * size == (count - 1) * size + size) by (nonlinear_arith);
        assert((count - 1) * size >= 0) by (nonlinear_arith)
            requires
                count >= 1,
                size >= 1,
        ;
        if here <= data.len() {
            assert(concat_chunks(data, size, count) =~= data.subrange(0, here));
        } else if prev < data.len() {
            assert(concat_chunks(data, size, count) =~= data);
        } else {
            assert(chunk_of(data, size, count - 1) =~= Seq::<u8>::empty());
            assert(concat_chunks(data, size, count) =~= data);
        }
    }
}

/// Chunked reads reassemble the payload: for any chunk size of at least one
/// byte, the chunks `0, 1, 2, ...` joined in order rebuild the byte
/// sequence exactly, as soon as enough chunks are taken to cover it.
pub proof fn lemma_chunks_reassemble(data: Seq<u8>, size: int, count: int)
    requires
        size >= 1,
        count >= 0,
        count * size >= data.len(),
    ensures
        concat_chunks(data, size, count) == data,
{
    lemma_chunks_prefix(data, size, count);
    if count * size <= data.len() {
        assert(data.subrange(0, count * size) =~= data);
    }
}

/// The models of a list of metadata records.
pub open spec fn swd_models(s: Seq<StoredFileWithoutData>) -> Seq<StoredFileModel> {
    s.map_values(|f: StoredFileWithoutData| f.model())
}

/// The metadata the acting identity may read for one identifier, if any.
pub open spec fn visible_by_id(
    fs: Seq<StoredFileModel>,
    id: Seq<char>,
    caller: Seq<char>,
) -> Option<StoredFileModel> {
    let fi = file_index(fs, id);
    if fi >= 0 && file_allows(fs[fi], seq![Access::Read], caller) {
        Some(strip_data(fs[fi]))
    } else {
        None
    }
}

/// The metadata the acting identity may read for a list of identifiers, in
/// order, unreadable identifiers left out.
pub open spec fn visible_by_ids(
    fs: Seq<StoredFileModel>,
    ids: Seq<Seq<char>>,
    caller: Seq<char>,
) -> Seq<StoredFileModel>
    decreases ids.len(),
{
    if ids.len() == 0 {
        Seq::empty()
    } else {
        let front = visible_by_ids(fs, ids.drop_last(), caller);
        match visible_by_id(fs, ids.last(), caller) {
            Some(m) => front.push(m),
            None => front,
        }
    }
}

/// Owns the file collection; every mutation is gated through the
/// capability decision.
pub struct FileStore {
    pub files: Vec<StoredFile>,
}

impl FileStore {
    /// An empty store; trivially well formed.
    pub fn new() -> (r: FileStore)
        ensures
            r.files@.len() == 0,
            unique_file_ids(models(r.files@)),
    {
        FileStore { files: Vec::new() }
    }

    /// Copies of every stored file, in storage order.
    pub fn get_all(&self) -> (r: Vec<StoredFile>)
        ensures
            models(r@) == models(self.files@),
    {
        let n: usize = self.files.len();
        let mut out: Vec<StoredFile> = Vec::new();
        proof {
            assert(models(out@) =~= models(self.files@).take(0));
        }
        let mut i: usize = 0;
        while i < n
            invariant
                i <= n,
                n == self.files@.len(),
                models(out@) == models(self.files@).take(i as int),
            decreases n - i,
        {
            let ghost pre = models(out@);
            let d = self.files[i].duplicate();
            out.push(d);
            proof {
                assert(models(out@) =~= pre.push(d.model()));
                assert(d.model() == models(self.files@)[i as int]);
                assert(models(self.files@).take(i as int + 1) =~= models(
                    self.files@,
                ).take(i as int).push(models(self.files@)[i as int]));
            }
            i += 1;
        }
        proof {
            assert(models(self.files@).take(n as int) =~= models(self.files@));
        }
        out
    }

    /// Hands back a copy of the named file when the acting identity passes
    /// the permission check: the editing capability set when a mutable
    /// handle is asked for, the general set otherwise.
    pub fn get_file(&self, file_id: &String, mutable: Option<bool>, caller: &String) -> (r:
        Option<StoredFile>)
        ensures
            ({
                let fs = models(self.files@);
                let fi = file_index(fs, file_id@);
                let ops = if mutable == Some(true) {
                    can_edit_spec()
                } else {
                    all_spec()
                };
                &&& fi == -1 ==> r is None
                &&& fi >= 0 && !file_allows(fs[fi], ops, caller@) ==> r is None
                &&& fi >= 0 && file_allows(fs[fi], ops, caller@) ==> (r matches Some(f)
                    && f.model() == fs[fi])
            }),
    {
        proof {
            lemma_file_index_props(models(self.files@), file_id@);
        }
        match find_file_index(&self.files, file_id) {
            None => None,
            Some(i) => {
                let wants_edit: bool = mutable.unwrap_or(false);
                let ops = if wants_edit {
                    Access::can_edit()
                } else {
                    Access::all()
                };
                if check_file_permission(&self.files[i], &ops, caller) {
                    Some(self.files[i].duplicate())
                } else {
                    None
                }
            },
        }
    }

    /// Hands back the named file's metadata, without its payload, when the
    /// acting identity holds an exact `Read` grant or another `Read`-set
    /// channel passes.
    pub fn get_file_by_id(&self, file_id: &String, caller: &String) -> (r: Option<
        StoredFileWithoutData,
    >)
        ensures
            ({
                let fs = models(self.files@);
                let fi = file_index(fs, file_id@);
                &&& fi == -1 ==> r is None
                &&& fi >= 0 && !file_allows(fs[fi], seq![Access::Read], caller@) ==> r is None
                &&& fi >= 0 && file_allows(fs[fi], seq![Access::Read], caller@) ==> (
                r matches Some(f) && f.model() == strip_data(fs[fi]))
            }),
    {
        proof {
            lemma_file_index_props(models(self.files@), file_id@);
        }
        match find_file_index(&self.files, file_id) {
            None => None,
            Some(i) => {
                let mut ops: Vec<Access> = Vec::new();
                ops.push(Access::Read);
                proof {
                    assert(ops@ =~= seq![Access::Read]);
                }
                if check_file_permission(&self.files[i], &ops, caller) {
                    let f = &self.files[i];
                    Some(
                        StoredFileWithoutData {
                            id: f.id.clone(),
                            name: f.name.clone(),
                            mime_type: f.mime_type.clone(),
                            size: f.size,
                            owner: f.owner.clone(),
                            groups: dup_groups(&f.groups),
                            allowed_users: dup_grants(&f.allowed_users),
                            public: f.public,
                            uploaded_at: dup_stamp(&f.uploaded_at),
                        },
                    )
                } else {
                    None
                }
            },
        }
    }


    /// The metadata of each named file the acting identity may read, in
    /// the order asked for; unknown and unreadable identifiers are left
    /// out.
    pub fn get_files_by_id(&self, file_ids: &Vec<String>, caller: &String) -> (r: Vec<
        StoredFileWithoutData,
    >)
        ensures
            swd_models(r@) == visible_by_ids(models(self.files@), strs_of(file_ids@), caller@),
    {
        let n: usize = file_ids.len();
        let mut out: Vec<StoredFileWithoutData> = Vec::new();
        proof {
            assert(swd_models(out@) =~= Seq::<StoredFileModel>::empty());
            assert(strs_of(file_ids@).take(0) =~= Seq::<Seq<char>>::empty());
        }
        let mut i: usize = 0;
        while i < n
            invariant
                i <= n,
                n == file_ids@.len(),
                swd_models(out@) == visible_by_ids(
                    models(self.files@),
                    strs_of(file_ids@).take(i as int),
                    caller@,
                ),
            decreases n - i,
        {
            let ghost ids = strs_of(file_ids@);
            proof {
                assert(ids.take(i as int + 1).drop_last() =~= ids.take(i as int));
                assert(ids.take(i as int + 1).last() == file_ids@[i as int]@);
                lemma_file_index_props(models(self.files@), file_ids@[i as int]@);
            }
            let ghost spre = swd_models(out@);
            match self.get_file_by_id(&file_ids[i], caller) {
                Some(f) => {
                    out.push(f);
                    proof {
                        assert(swd_models(out@) =~= spre.push(out@.last().model()));
                    }
                },
                None => {},
            }
            proof {
                assert(swd_models(out@) =~= visible_by_ids(
                    models(self.files@),
                    ids.take(i as int + 1),
                    caller@,
                ));
            }
            i += 1;
        }
        proof {
            assert(strs_of(file_ids@).take(n as int) =~= strs_of(file_ids@));
        }
        out
    }

    /// One chunk of the named file's payload; an unknown identifier or a
    /// start past the end reads as empty. This minimal read path has no
    /// permission gate: callers resolve visibility through the gated
    /// metadata reads first.
    pub fn get_bytes(&self, file_id: &String, chunk_size: usize, chunk_index: usize) -> (r: Vec<
        u8,
    >)
        ensures
            ({
                let fs = models(self.files@);
                let fi = file_index(fs, file_id@);
                &&& fi == -1 ==> r@ == Seq::<u8>::empty()
                &&& fi >= 0 ==> r@ == chunk_of(fs[fi].data, chunk_size as int, chunk_index as int)
            }),
    {
        proof {
            lemma_file_index_props(models(self.files@), file_id@);
        }
        match find_file_index(&self.files, file_id) {
            None => Vec::new(),
            Some(i) => {
                let data = &self.files[i].data;
                let len: usize = data.len();
                match chunk_index.checked_mul(chunk_size) {
                    None => {
                        proof {
                            assert(chunk_index * chunk_size > usize::MAX >= len);
                        }
                        Vec::new()
                    },
                    Some(start) => {
                        if start >= len {
                            Vec::new()
                        } else {
                            let end: usize = if chunk_size <= len - start {
                                start + chunk_size
                            } else {
                                len
                            };
                            let mut out: Vec<u8> = Vec::new();
                            proof {
                                assert(out@ =~= data@.subrange(start as int, start as int));
                            }
                            let mut j: usize = start;
                            while j < end
                                invariant
                                    start <= j <= end <= len,
                                    len == data@.len(),
                                    out@ == data@.subrange(start as int, j as int),
                                decreases end - j,
                            {
                                out.push(data[j]);
                                proof {
                                    assert(data@.subrange(start as int, j as int + 1)
                                        =~= data@.subrange(start as int, j as int).push(
                                        data@[j as int],
                                    ));
                                }
                                j += 1;
                            }
                            out
                        }
                    },
                }
            },
        }
    }
}

/// What `sha2::Sha256::digest` returns; a function of the input bytes alone.
pub uninterp spec fn sha256_of(data: Seq<u8>) -> Seq<u8>;

/// Relies on sha2::Sha256::digest: the SHA-256 digest of the bytes, a pure
/// function of the input alone, 32 bytes long.
#[verifier::external_body]
fn sha256_digest(data: &Vec<u8>) -> (r: Vec<u8>)
    ensures
        r@ == sha256_of(data@),
        r@.len() == 32,
{
    <sha2::Sha256 as sha2::Digest>::digest(data.as_slice()).to_vec()
}

/// One nibble rendered as a lowercase hexadecimal digit.
pub open spec fn hex_digit(d: u8) -> char {
    if d < 10 {
        ((d + 48) as u8) as char
    } else {
        ((d + 87) as u8) as char
    }
}

/// The lowercase hexadecimal rendering of a byte sequence: two digits per
/// byte, high nibble first.
pub open spec fn hex_of(bytes: Seq<u8>) -> Seq<char> {
    Seq::new(
        bytes.len() * 2,
        |i: int|
            if i % 2 == 0 {
                hex_digit(bytes[i / 2] >> 4)
            } else {
                hex_digit(bytes[i / 2] & 0x0f)
            },
    )
}

/// Relies on hex::encode: each byte becomes two lowercase hexadecimal
/// digits, high nibble first.
#[verifier::external_body]
fn hex_encode(data: &Vec<u8>) -> (r: String)
    ensures
        r@ == hex_of(data@),
{
    hex::encode(data.as_slice())
}

/// The storage key of a payload: the lowercase hexadecimal form of its
/// SHA-256 digest.
pub open spec fn content_key(data: Seq<u8>) -> Seq<char> {
    hex_of(sha256_of(data))
}

/// Whether every group of the list grants the acting identity an editing
/// capability, as the registry resolves it.
pub open spec fn all_groups_editable(
    gs: Seq<GroupModel>,
    regs: Seq<GroupModel>,
    caller: Seq<char>,
) -> bool
    decreases gs.len(),
{
    if gs.len() == 0 {
        true
    } else {
        crate::group::group_permits(regs, gs[0].id, can_edit_spec(), caller)
            && all_groups_editable(gs.drop_first(), regs, caller)
    }
}

proof fn lemma_all_groups_editable_step(
    gs: Seq<GroupModel>,
    regs: Seq<GroupModel>,
    caller: Seq<char>,
    i: int,
)
    requires
        0 <= i < gs.len(),
    ensures
        all_groups_editable(gs.skip(i), regs, caller) == (crate::group::group_permits(
            regs,
            gs[i].id,
            can_edit_spec(),
            caller,
        ) && all_groups_editable(gs.skip(i + 1), regs, caller)),
{
    assert(gs.skip(i).len() > 0);
    assert(gs.skip(i)[0] == gs[i]);
    assert(gs.skip(i).drop_first() =~= gs.skip(i + 1));
}

fn groups_all_editable(
    groups: &Vec<Group>,
    registry: &crate::group::GroupRegistry,
    caller: &String,
) -> (r: bool)
    ensures
        r == all_groups_editable(models(groups@), models(registry.groups@), caller@),
{
    let ops = Access::can_edit();
    let n: usize = groups.len();
    proof {
        assert(models(groups@).skip(0) =~= models(groups@));
    }
    let mut k: usize = 0;
    loop
        invariant_except_break
            k <= n,
            n == groups@.len(),
            ops@ == can_edit_spec(),
            all_groups_editable(models(groups@), models(registry.groups@), caller@)
                == all_groups_editable(
                models(groups@).skip(k as int),
                models(registry.groups@),
                caller@,
            ),
        ensures
            all_groups_editable(models(groups@), models(registry.groups@), caller@),
        decreases n - k,
    {
        if k >= n {
            proof {
                assert(models(groups@).skip(n as int) =~= Seq::<GroupModel>::empty());
            }
            break;
        }
        proof {
            lemma_all_groups_editable_step(
                models(groups@),
                models(registry.groups@),
                caller@,
                k as int,
            );
        }
        if !registry.check_group_permission(&groups[k].id, &ops, caller) {
            return false;
        }
        k += 1;
    }
    true
}

/// The models of a list of name/message pairs.
pub open spec fn pairs_of(ps: Seq<(String, String)>) -> Seq<(Seq<char>, Seq<char>)> {
    ps.map_values(|p: (String, String)| (p.0@, p.1@))
}

/// The effect of uploading one file: refused outright when the file names
/// groups and some group denies the acting identity an editing capability;
/// otherwise stored under its content key, owned by the uploader and
/// stamped, replacing any file already stored under that key.
pub open spec fn upload_one(
    store: Seq<StoredFileModel>,
    f: StoredFileModel,
    regs: Seq<GroupModel>,
    caller: Seq<char>,
    ts: Seq<char>,
) -> (Seq<StoredFileModel>, (Seq<char>, Seq<char>)) {
    if f.groups.len() > 0 && !all_groups_editable(f.groups, regs, caller) {
        (store, (f.name, "You are not authorized in this group."@))
    } else {
        let key = content_key(f.data);
        let ins = StoredFileModel { id: key, owner: caller, uploaded_at: Some(ts), ..f };
        let fi = file_index(store, key);
        if fi == -1 {
            (store.push(ins), (f.name, "Successfully uploaded."@))
        } else {
            (store.update(fi, ins), (f.name, "File is already uploaded."@))
        }
    }
}

/// The effect of uploading a list of files, left to right, with the
/// name/message pair reported for each.
pub open spec fn upload_all(
    store: Seq<StoredFileModel>,
    fs: Seq<StoredFileModel>,
    regs: Seq<GroupModel>,
    caller: Seq<char>,
    ts: Seq<char>,
) -> (Seq<StoredFileModel>, Seq<(Seq<char>, Seq<char>)>)
    decreases fs.len(),
{
    if fs.len() == 0 {
        (store, Seq::empty())
    } else {
        let first = upload_one(store, fs[0], regs, caller, ts);
        let rest = upload_all(first.0, fs.drop_first(), regs, caller, ts);
        (rest.0, seq![first.1] + rest.1)
    }
}

proof fn lemma_upload_all_step(
    store: Seq<StoredFileModel>,
    fs: Seq<StoredFileModel>,
    regs: Seq<GroupModel>,
    caller: Seq<char>,
    ts: Seq<char>,
    i: int,
)
    requires
        0 <= i < fs.len(),
    ensures
        ({
            let st = upload_one(store, fs[i], regs, caller, ts);
            &&& upload_all(store, fs.skip(i), regs, caller, ts).0 == upload_all(
                st.0,
                fs.skip(i + 1),
                regs,
                caller,
                ts,
            ).0
            &&& upload_all(store, fs.skip(i), regs, caller, ts).1 == seq![st.1] + upload_all(
                st.0,
                fs.skip(i + 1),
                regs,
                caller,
                ts,
            ).1
        }),
{
    assert(fs.skip(i).len() > 0);
    assert(fs.skip(i)[0] == fs[i]);
    assert(fs.skip(i).drop_first() =~= fs.skip(i + 1));
}

/// The effect of deleting one identifier: the first file stored under it
/// goes, when it exists and the acting identity owns it.
pub open spec fn delete_file_one(fs: Seq<StoredFileModel>, id: Seq<char>, caller: Seq<char>) -> (
    Seq<StoredFileModel>,
    nat,
) {
    let fi = file_index(fs, id);
    if fi >= 0 && fs[fi].owner == caller {
        (fs.remove(fi), 1)
    } else {
        (fs, 0)
    }
}

/// The effect of deleting a list of identifiers, left to right, with the
/// count of files deleted.
pub open spec fn delete_files_spec(
    fs: Seq<StoredFileModel>,
    ids: Seq<Seq<char>>,
    caller: Seq<char>,
) -> (Seq<StoredFileModel>, nat)
    decreases ids.len(),
{
    if ids.len() == 0 {
        (fs, 0)
    } else {
        let first = delete_file_one(fs, ids[0], caller);
        let rest = delete_files_spec(first.0, ids.drop_first(), caller);
        (rest.0, first.1 + rest.1)
    }
}

/// Deleting files preserves the uniqueness of stored identifiers.
pub proof fn lemma_delete_files_preserves_wf(
    fs: Seq<StoredFileModel>,
    ids: Seq<Seq<char>>,
    caller: Seq<char>,
)
    requires
        unique_file_ids(fs),
    ensures
        unique_file_ids(delete_files_spec(fs, ids, caller).0),
    decreases ids.len(),
{
    if ids.len() > 0 {
        let first = delete_file_one(fs, ids[0], caller);
        lemma_file_index_props(fs, ids[0]);
        if file_index(fs, ids[0]) >= 0 && fs[file_index(fs, ids[0])].owner == caller {
            lemma_unique_file_remove(fs, file_index(fs, ids[0]));
        }
        lemma_delete_files_preserves_wf(first.0, ids.drop_first(), caller);
    }
}

/// Uploading files preserves the uniqueness of stored identifiers.
pub proof fn lemma_upload_preserves_wf(
    store: Seq<StoredFileModel>,
    fs: Seq<StoredFileModel>,
    regs: Seq<GroupModel>,
    caller: Seq<char>,
    ts: Seq<char>,
)
    requires
        unique_file_ids(store),
    ensures
        unique_file_ids(upload_all(store, fs, regs, caller, ts).0),
    decreases fs.len(),
{
    if fs.len() > 0 {
        let first = upload_one(store, fs[0], regs, caller, ts);
        let f = fs[0];
        if !(f.groups.len() > 0 && !all_groups_editable(f.groups, regs, caller)) {
            let key = content_key(f.data);
            let ins = StoredFileModel { id: key, owner: caller, uploaded_at: Some(ts), ..f };
            lemma_file_index_props(store, key);
            if file_index(store, key) == -1 {
                lemma_unique_file_push(store, ins);
            } else {
                lemma_unique_file_update(store, file_index(store, key), ins);
            }
        }
        lemma_upload_preserves_wf(first.0, fs.drop_first(), regs, caller, ts);
    }
}

/// The files one listing request selects, before paging: the caller's own
/// files, the public ones, or those the caller passes the general
/// permission check for.
pub open spec fn listed_files(
    fs: Seq<StoredFileModel>,
    public: bool,
    owned: bool,
    caller: Seq<char>,
) -> Seq<StoredFileModel> {
    if owned {
        fs.filter(|f: StoredFileModel| f.owner == caller)
    } else if public {
        fs.filter(|f: StoredFileModel| f.public)
    } else {
        fs.filter(|f: StoredFileModel| file_allows(f, all_spec(), caller))
    }
}

proof fn lemma_listed_push(
    s: Seq<StoredFileModel>,
    public: bool,
    owned: bool,
    caller: Seq<char>,
    x: StoredFileModel,
)
    ensures
        listed_files(s.push(x), public, owned, caller) == ({
            let keep = if owned {
                x.owner == caller
            } else if public {
                x.public
            } else {
                file_allows(x, all_spec(), caller)
            };
            if keep {
                listed_files(s, public, owned, caller).push(x)
            } else {
                listed_files(s, public, owned, caller)
            }
        }),
{
    assert(s.push(x).drop_last() =~= s);
    assert(s.push(x).last() == x);
    reveal(Seq::filter);
}

impl FileStore {
    /// Stores a file under a caller-supplied fresh identifier, owned by the
    /// acting identity, with its upload left open. Reports the identifier
    /// back when it was free; a file already stored under it is replaced
    /// and nothing is reported.
    pub fn add_file(&mut self, file: StoredFile, id: String, caller: String) -> (r: Option<
        String,
    >)
        ensures
            ({
                let fs = models(old(self).files@);
                let fi = file_index(fs, id@);
                let fm = StoredFileModel {
                    id: id@,
                    owner: caller@,
                    uploaded_at: None,
                    ..file.model()
                };
                &&& fi == -1 ==> models(final(self).files@) == fs.push(fm) && (r matches Some(k)
                    && k@ == id@)
                &&& fi >= 0 ==> models(final(self).files@) == fs.update(fi, fm) && r is None
            }),
            unique_file_ids(models(old(self).files@)) ==> unique_file_ids(
                models(final(self).files@),
            ),
    {
        let mut f = file;
        f.id = id.clone();
        f.owner = caller;
        f.uploaded_at = None;
        proof {
            lemma_file_index_props(models(self.files@), id@);
        }
        match find_file_index(&self.files, &id) {
            Some(i) => {
                self.files.set(i, f);
                proof {
                    assert(models(self.files@) =~= models(old(self).files@).update(
                        file_index(models(old(self).files@), id@),
                        models(self.files@)[i as int],
                    ));
                    if unique_file_ids(models(old(self).files@)) {
                        lemma_unique_file_update(
                            models(old(self).files@),
                            file_index(models(old(self).files@), id@),
                            models(self.files@)[i as int],
                        );
                    }
                }
                None
            },
            None => {
                self.files.push(f);
                proof {
                    assert(models(self.files@) =~= models(old(self).files@).push(
                        models(self.files@)[old(self).files@.len() as int],
                    ));
                    if unique_file_ids(models(old(self).files@)) {
                        lemma_unique_file_push(
                            models(old(self).files@),
                            models(self.files@)[old(self).files@.len() as int],
                        );
                    }
                }
                Some(id)
            },
        }
    }

    /// Appends a chunk to the named file's payload, for its owner only and
    /// only while the upload is open; when `done`, stamps the upload as
    /// finalized with the given timestamp, after which no more bytes are
    /// accepted.
    pub fn add_bytes(
        &mut self,
        file_id: &String,
        new_bytes: &Vec<u8>,
        done: bool,
        caller: &String,
        timestamp: String,
    ) -> (r: bool)
        ensures
            ({
                let fs = models(old(self).files@);
                let fi = file_index(fs, file_id@);
                &&& fi == -1 ==> final(self).files@ == old(self).files@ && !r
                &&& fi >= 0 ==> ({
                    let f = fs[fi];
                    &&& f.uploaded_at is Some ==> final(self).files@ == old(self).files@ && !r
                    &&& f.uploaded_at is None && f.owner != caller@ ==> final(self).files@ == old(self).files@ && !r
                    &&& f.uploaded_at is None && f.owner == caller@ ==> r && models(
                        final(self).files@,
                    ) == fs.update(
                        fi,
                        StoredFileModel {
                            data: f.data + new_bytes@,
                            uploaded_at: if done {
                                Some(timestamp@)
                            } else {
                                None
                            },
                            ..f
                        },
                    )
                })
            }),
            unique_file_ids(models(old(self).files@)) ==> unique_file_ids(
                models(final(self).files@),
            ),
    {
        proof {
            lemma_file_index_props(models(self.files@), file_id@);
        }
        match find_file_index(&self.files, file_id) {
            None => false,
            Some(i) => {
                if self.files[i].uploaded_at.is_some() {
                    return false;
                }
                if !str_eq(self.files[i].owner.as_str(), caller.as_str()) {
                    return false;
                }
                let ghost fs = models(self.files@);
                let ghost fi = i as int;
                let mut f = self.files.remove(i);
                let ghost dpre = f.data@;
                let nb: usize = new_bytes.len();
                proof {
                    assert(f.data@ =~= dpre + new_bytes@.take(0));
                }
                let mut j: usize = 0;
                while j < nb
                    invariant
                        j <= nb,
                        nb == new_bytes@.len(),
                        f.data@ == dpre + new_bytes@.take(j as int),
                        f.id@ == fs[fi].id,
                        f.name@ == fs[fi].name,
                        f.mime_type@ == fs[fi].mime_type,
                        f.size as nat == fs[fi].size,
                        f.owner@ == fs[fi].owner,
                        models(f.groups@) == fs[fi].groups,
                        grants_of(f.allowed_users@) == fs[fi].allowed_users,
                        f.public == fs[fi].public,
                        stamp_of(f.uploaded_at) == fs[fi].uploaded_at,
                        dpre == fs[fi].data,
                    decreases nb - j,
                {
                    f.data.push(new_bytes[j]);
                    proof {
                        assert(dpre + new_bytes@.take(j as int + 1) =~= (dpre + new_bytes@.take(
                            j as int,
                        )).push(new_bytes@[j as int]));
                    }
                    j += 1;
                }
                proof {
                    assert(new_bytes@.take(nb as int) =~= new_bytes@);
                }
                if done {
                    f.uploaded_at = Some(timestamp);
                }
                self.files.insert(i, f);
                proof {
                    assert(models(self.files@) =~= fs.update(
                        fi,
                        StoredFileModel {
                            data: fs[fi].data + new_bytes@,
                            uploaded_at: if done {
                                Some(timestamp@)
                            } else {
                                None
                            },
                            ..fs[fi]
                        },
                    ));
                    if unique_file_ids(fs) {
                        lemma_unique_file_update(
                            fs,
                            fi,
                            StoredFileModel {
                                data: fs[fi].data + new_bytes@,
                                uploaded_at: if done {
                                    Some(timestamp@)
                                } else {
                                    None
                                },
                                ..fs[fi]
                            },
                        );
                    }
                }
                true
            },
        }
    }

    /// Uploads a batch of files. A file naming groups is refused unless
    /// every one of them grants the acting identity an editing capability,
    /// as the registry resolves it; an accepted file is stored under the
    /// hexadecimal form of its payload's SHA-256 digest, owned by the
    /// uploader and stamped with the given timestamp, replacing any file
    /// already stored under that key. One name/message pair is reported per
    /// file, in order.
    pub fn upload_files(
        &mut self,
        files: &Vec<StoredFile>,
        registry: &crate::group::GroupRegistry,
        caller: &String,
        timestamp: &String,
    ) -> (r: Vec<(String, String)>)
        ensures
            models(final(self).files@) == upload_all(
                models(old(self).files@),
                models(files@),
                models(registry.groups@),
                caller@,
                timestamp@,
            ).0,
            pairs_of(r@) == upload_all(
                models(old(self).files@),
                models(files@),
                models(registry.groups@),
                caller@,
                timestamp@,
            ).1,
            unique_file_ids(models(old(self).files@)) ==> unique_file_ids(
                models(final(self).files@),
            ),
    {
        let ghost regs = models(registry.groups@);
        let ghost fms = models(files@);
        let n: usize = files.len();
        let mut out: Vec<(String, String)> = Vec::new();
        proof {
            assert(fms.skip(0) =~= fms);
            assert(pairs_of(out@) =~= Seq::<(Seq<char>, Seq<char>)>::empty());
        }
        let mut i: usize = 0;
        while i < n
            invariant
                i <= n,
                n == files@.len(),
                fms == models(files@),
                regs == models(registry.groups@),
                upload_all(models(old(self).files@), fms, regs, caller@, timestamp@).0
                    == upload_all(
                    models(self.files@),
                    fms.skip(i as int),
                    regs,
                    caller@,
                    timestamp@,
                ).0,
                upload_all(models(old(self).files@), fms, regs, caller@, timestamp@).1
                    == pairs_of(out@) + upload_all(
                    models(self.files@),
                    fms.skip(i as int),
                    regs,
                    caller@,
                    timestamp@,
                ).1,
            decreases n - i,
        {
            let ghost pre = models(self.files@);
            let ghost fm = fms[i as int];
            proof {
                lemma_upload_all_step(pre, fms, regs, caller@, timestamp@, i as int);
                lemma_file_index_props(pre, content_key(fm.data));
            }
            let f = &files[i];
            let blocked: bool = f.groups.len() > 0 && !groups_all_editable(
                &f.groups,
                registry,
                caller,
            );
            if blocked {
                out.push((f.name.clone(), "You are not authorized in this group.".to_owned()));
                proof {
                    let st = upload_one(pre, fm, regs, caller@, timestamp@);
                    assert(st.0 == pre);
                    assert(pairs_of(out@) =~= pairs_of(out@.drop_last()) + seq![st.1]);
                }
            } else {
                let digest = sha256_digest(&f.data);
                let key = hex_encode(&digest);
                let mut ins = f.duplicate();
                ins.id = key.clone();
                ins.owner = caller.clone();
                ins.uploaded_at = Some(timestamp.clone());
                proof {
                    assert(ins.model() == StoredFileModel {
                        id: content_key(fm.data),
                        owner: caller@,
                        uploaded_at: Some(timestamp@),
                        ..fm
                    });
                }
                match find_file_index(&self.files, &key) {
                    None => {
                        self.files.push(ins);
                        out.push((f.name.clone(), "Successfully uploaded.".to_owned()));
                        proof {
                            let st = upload_one(pre, fm, regs, caller@, timestamp@);
                            assert(models(self.files@) =~= pre.push(
                                models(self.files@)[pre.len() as int],
                            ));
                            assert(models(self.files@) == st.0);
                            assert(pairs_of(out@) =~= pairs_of(out@.drop_last()) + seq![st.1]);
                        }
                    },
                    Some(idx) => {
                        self.files.set(idx, ins);
                        out.push((f.name.clone(), "File is already uploaded.".to_owned()));
                        proof {
                            let st = upload_one(pre, fm, regs, caller@, timestamp@);
                            assert(models(self.files@) =~= pre.update(
                                file_index(pre, content_key(fm.data)),
                                models(self.files@)[idx as int],
                            ));
                            assert(models(self.files@) == st.0);
                            assert(pairs_of(out@) =~= pairs_of(out@.drop_last()) + seq![st.1]);
                        }
                    },
                }
            }
            proof {
                let st = upload_one(pre, fm, regs, caller@, timestamp@);
                assert(upload_all(models(old(self).files@), fms, regs, caller@, timestamp@).1
                    == (pairs_of(out@.drop_last()) + seq![st.1]) + upload_all(
                    models(self.files@),
                    fms.skip(i as int + 1),
                    regs,
                    caller@,
                    timestamp@,
                ).1);
                assert((pairs_of(out@.drop_last()) + seq![st.1]) + upload_all(
                    models(self.files@),
                    fms.skip(i as int + 1),
                    regs,
                    caller@,
                    timestamp@,
                ).1 =~= pairs_of(out@) + upload_all(
                    models(self.files@),
                    fms.skip(i as int + 1),
                    regs,
                    caller@,
                    timestamp@,
                ).1);
            }
            i += 1;
        }
        proof {
            assert(fms.skip(n as int) =~= Seq::<StoredFileModel>::empty());
            assert(pairs_of(out@) + Seq::<(Seq<char>, Seq<char>)>::empty() =~= pairs_of(out@));
            if unique_file_ids(models(old(self).files@)) {
                lemma_upload_preserves_wf(
                    models(old(self).files@),
                    fms,
                    regs,
                    caller@,
                    timestamp@,
                );
            }
        }
        out
    }

    /// Deletes each named file that exists and is owned by the acting
    /// identity; returns how many were deleted.
    pub fn delete_files(&mut self, file_ids: &Vec<String>, caller: &String) -> (r: usize)
        ensures
            models(final(self).files@) == delete_files_spec(
                models(old(self).files@),
                strs_of(file_ids@),
                caller@,
            ).0,
            r == delete_files_spec(models(old(self).files@), strs_of(file_ids@), caller@).1,
            unique_file_ids(models(old(self).files@)) ==> unique_file_ids(
                models(final(self).files@),
            ),
    {
        let n: usize = file_ids.len();
        let mut count: usize = 0;
        proof {
            assert(strs_of(file_ids@).skip(0) =~= strs_of(file_ids@));
        }
        let mut i: usize = 0;
        while i < n
            invariant
                i <= n,
                n == file_ids@.len(),
                count <= i,
                delete_files_spec(models(old(self).files@), strs_of(file_ids@), caller@).0
                    == delete_files_spec(
                    models(self.files@),
                    strs_of(file_ids@).skip(i as int),
                    caller@,
                ).0,
                delete_files_spec(models(old(self).files@), strs_of(file_ids@), caller@).1
                    == count + delete_files_spec(
                    models(self.files@),
                    strs_of(file_ids@).skip(i as int),
                    caller@,
                ).1,
            decreases n - i,
        {
            let ghost pre = models(self.files@);
            let ghost ids = strs_of(file_ids@);
            proof {
                assert(ids.skip(i as int).len() > 0);
                assert(ids.skip(i as int)[0] == file_ids@[i as int]@);
                assert(ids.skip(i as int).drop_first() =~= ids.skip(i as int + 1));
                lemma_file_index_props(pre, file_ids@[i as int]@);
            }
            match find_file_index(&self.files, &file_ids[i]) {
                Some(fi) => {
                    if str_eq(self.files[fi].owner.as_str(), caller.as_str()) {
                        self.files.remove(fi);
                        count += 1;
                        proof {
                            assert(models(self.files@) =~= pre.remove(fi as int));
                        }
                    }
                },
                None => {},
            }
            i += 1;
        }
        proof {
            assert(strs_of(file_ids@).skip(n as int) =~= Seq::<Seq<char>>::empty());
            if unique_file_ids(models(old(self).files@)) {
                lemma_delete_files_preserves_wf(
                    models(old(self).files@),
                    strs_of(file_ids@),
                    caller@,
                );
            }
        }
        count
    }

    /// Renames the named file when the acting identity holds an editing
    /// capability on it; reports an unknown identifier or a refused caller.
    pub fn change_file_name(
        &mut self,
        file_id: &String,
        new_file_name: String,
        caller: &String,
    ) -> (r: Result<&'static str, &'static str>)
        ensures
            ({
                let fs = models(old(self).files@);
                let fi = file_index(fs, file_id@);
                &&& fi == -1 ==> final(self).files@ == old(self).files@ && (r matches Err(m)
                    && m@ == "StoredFile not found."@)
                &&& fi >= 0 && !file_allows(fs[fi], can_edit_spec(), caller@) ==> final(self).files@ == old(self).files@ && (r matches Err(m) && m@
                    == "You are not authorized to change this file name."@)
                &&& fi >= 0 && file_allows(fs[fi], can_edit_spec(), caller@) ==> models(
                    final(self).files@,
                ) == fs.update(fi, StoredFileModel { name: new_file_name@, ..fs[fi] }) && (
                r matches Ok(m) && m@ == "StoredFile name changed successfully."@)
            }),
            unique_file_ids(models(old(self).files@)) ==> unique_file_ids(
                models(final(self).files@),
            ),
    {
        proof {
            lemma_file_index_props(models(self.files@), file_id@);
        }
        match find_file_index(&self.files, file_id) {
            None => Err("StoredFile not found."),
            Some(i) => {
                let ops = Access::can_edit();
                if !check_file_permission(&self.files[i], &ops, caller) {
                    return Err("You are not authorized to change this file name.");
                }
                let ghost fs = models(self.files@);
                let ghost fi = i as int;
                let mut f = self.files.remove(i);
                f.name = new_file_name;
                self.files.insert(i, f);
                proof {
                    assert(models(self.files@) =~= fs.update(
                        fi,
                        StoredFileModel { name: new_file_name@, ..fs[fi] },
                    ));
                    if unique_file_ids(fs) {
                        lemma_unique_file_update(
                            fs,
                            fi,
                            StoredFileModel { name: new_file_name@, ..fs[fi] },
                        );
                    }
                }
                Ok("StoredFile name changed successfully.")
            },
        }
    }

    /// Publishes or unpublishes the named file when the acting identity
    /// holds an editing capability on it; reports an unknown identifier or
    /// a refused caller.
    pub fn edit_file_public_access(
        &mut self,
        file_id: &String,
        new_access: bool,
        caller: &String,
    ) -> (r: Result<&'static str, &'static str>)
        ensures
            ({
                let fs = models(old(self).files@);
                let fi = file_index(fs, file_id@);
                &&& fi == -1 ==> final(self).files@ == old(self).files@ && (r matches Err(m)
                    && m@ == "StoredFile not found."@)
                &&& fi >= 0 && !file_allows(fs[fi], can_edit_spec(), caller@) ==> final(self).files@ == old(self).files@ && (r matches Err(m) && m@ == (if new_access {
                    "You are not authorized to publish this file."@
                } else {
                    "You are not authroized to unpublish this file."@
                }))
                &&& fi >= 0 && file_allows(fs[fi], can_edit_spec(), caller@) ==> models(
                    final(self).files@,
                ) == fs.update(fi, StoredFileModel { public: new_access, ..fs[fi] }) && (
                r matches Ok(m) && m@ == (if new_access {
                    "The file has been published successfully."@
                } else {
                    "The file has been unpublished successfully."@
                }))
            }),
            unique_file_ids(models(old(self).files@)) ==> unique_file_ids(
                models(final(self).files@),
            ),
    {
        proof {
            lemma_file_index_props(models(self.files@), file_id@);
        }
        match find_file_index(&self.files, file_id) {
            None => Err("StoredFile not found."),
            Some(i) => {
                let ops = Access::can_edit();
                if !check_file_permission(&self.files[i], &ops, caller) {
                    if new_access {
                        return Err("You are not authorized to publish this file.");
                    } else {
                        return Err("You are not authroized to unpublish this file.");
                    }
                }
                let ghost fs = models(self.files@);
                let ghost fi = i as int;
                let mut f = self.files.remove(i);
                f.public = new_access;
                self.files.insert(i, f);
                proof {
                    assert(models(self.files@) =~= fs.update(
                        fi,
                        StoredFileModel { public: new_access, ..fs[fi] },
                    ));
                    if unique_file_ids(fs) {
                        lemma_unique_file_update(
                            fs,
                            fi,
                            StoredFileModel { public: new_access, ..fs[fi] },
                        );
                    }
                }
                if new_access {
                    Ok("The file has been published successfully.")
                } else {
                    Ok("The file has been unpublished successfully.")
                }
            },
        }
    }

    /// Applies a list of grant changes to the named file's allow-list,
    /// under the capability rules: only the file's owner, or a holder of an
    /// `Admin` grant on it, changes anything; any other acting identity
    /// applies no grant and leaves the file as it was. Returns the applied
    /// count.
    pub fn edit_allowed_users(
        &mut self,
        file_id: &String,
        new_accesses: &Vec<(String, Access)>,
        caller: &String,
    ) -> (r: usize)
        ensures
            ({
                let fs = models(old(self).files@);
                let fi = file_index(fs, file_id@);
                &&& fi == -1 ==> final(self).files@ == old(self).files@ && r == 0
                &&& fi >= 0 ==> ({
                    let f = fs[fi];
                    let is_owner = f.owner == caller@;
                    &&& !(is_owner || has_grant(f.allowed_users, caller@, Access::Admin))
                        ==> models(final(self).files@) == fs && r == 0
                    &&& (is_owner || has_grant(f.allowed_users, caller@, Access::Admin)) ==> ({
                        let st = apply_entries(f.allowed_users, is_owner, grants_of(new_accesses@));
                        &&& models(final(self).files@) == fs.update(
                            fi,
                            StoredFileModel { allowed_users: st.0, ..f },
                        )
                        &&& r == st.1
                    })
                })
            }),
            unique_file_ids(models(old(self).files@)) ==> unique_file_ids(
                models(final(self).files@),
            ),
    {
        proof {
            lemma_file_index_props(models(self.files@), file_id@);
        }
        match find_file_index(&self.files, file_id) {
            None => 0,
            Some(i) => {
                let ghost fs = models(self.files@);
                let ghost fi = i as int;
                let mut f = self.files.remove(i);
                let is_owner: bool = str_eq(f.owner.as_str(), caller.as_str());
                let cnt = mutate_grants(&mut f.allowed_users, is_owner, caller, new_accesses);
                self.files.insert(i, f);
                proof {
                    let g = fs[fi];
                    if is_owner || has_grant(g.allowed_users, caller@, Access::Admin) {
                        let st = apply_entries(g.allowed_users, is_owner, grants_of(new_accesses@));
                        assert(models(self.files@) =~= fs.update(
                            fi,
                            StoredFileModel { allowed_users: st.0, ..g },
                        ));
                        if unique_file_ids(fs) {
                            lemma_unique_file_update(
                                fs,
                                fi,
                                StoredFileModel { allowed_users: st.0, ..g },
                            );
                        }
                    } else {
                        assert(models(self.files@) =~= fs.update(fi, g));
                        assert(fs.update(fi, g) =~= fs);
                    }
                }
                cnt
            },
        }
    }

    /// Lists files one page at a time: the caller's own files, the public
    /// ones, or those the caller passes the general permission check for.
    pub fn get_files(
        &self,
        per_page: usize,
        page: usize,
        public: bool,
        owned: bool,
        caller: &String,
    ) -> (r: Result<PaginatorResponse<StoredFile>, EngineError>)
        ensures
            ({
                let listed = listed_files(models(self.files@), public, owned, caller@);
                match r {
                    Ok(resp) => page >= 1 && per_page >= 1 && models(resp.data@) == page_slice(
                        listed,
                        page as int,
                        per_page as int,
                    ) && resp.curr_page == curr_page_spec(
                        listed.len() as int,
                        page as int,
                        per_page as int,
                    ) && resp.total_data == resp.data@.len(),
                    Err(e) => (page == 0 || per_page == 0) && e == EngineError::InvalidOperation,
                }
            }),
    {
        let n: usize = self.files.len();
        let mut selected: Vec<StoredFile> = Vec::new();
        let ops = Access::all();
        proof {
            assert(models(selected@) =~= Seq::<StoredFileModel>::empty());
            assert(models(self.files@).take(0) =~= Seq::<StoredFileModel>::empty());
            assert(listed_files(models(self.files@).take(0), public, owned, caller@) =~= Seq::<
                StoredFileModel,
            >::empty()) by {
                reveal(Seq::filter);
            }
        }
        let mut k: usize = 0;
        while k < n
            invariant
                k <= n,
                n == self.files@.len(),
                ops@ == all_spec(),
                models(selected@) == listed_files(
                    models(self.files@).take(k as int),
                    public,
                    owned,
                    caller@,
                ),
            decreases n - k,
        {
            let f = &self.files[k];
            proof {
                lemma_listed_push(
                    models(self.files@).take(k as int),
                    public,
                    owned,
                    caller@,
                    models(self.files@)[k as int],
                );
                assert(models(self.files@).take(k as int + 1) =~= models(
                    self.files@,
                ).take(k as int).push(models(self.files@)[k as int]));
            }
            let keep: bool = if owned {
                str_eq(f.owner.as_str(), caller.as_str())
            } else if public {
                f.public
            } else {
                check_file_permission(f, &ops, caller)
            };
            if keep {
                let ghost spre = models(selected@);
                let d = f.duplicate();
                selected.push(d);
                proof {
                    assert(models(selected@) =~= spre.push(d.model()));
                    assert(models(selected@) == listed_files(
                        models(self.files@).take(k as int + 1),
                        public,
                        owned,
                        caller@,
                    ));
                }
            } else {
                proof {
                    assert(models(selected@) == listed_files(
                        models(self.files@).take(k as int + 1),
                        public,
                        owned,
                        caller@,
                    ));
                }
            }
            k += 1;
        }
        proof {
            assert(models(self.files@).take(n as int) =~= models(self.files@));
        }
        let ghost sm = models(selected@);
        let p = Paginator::new(selected, Vec::new());
        let res = p.get(page, per_page);
        proof {
            match &res {
                Ok(resp) => {
                    crate::paginate::lemma_filter_models_empty_filters::<StoredFile>(
                        page_slice(sm, page as int, per_page as int),
                        p.filters@,
                    );
                },
                Err(e) => {},
            }
        }
        res
    }
}

} // verus!
