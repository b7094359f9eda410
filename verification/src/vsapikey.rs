//! Making and revoking the keys of a keys file.
use vstd::prelude::*;

use crate::admin_apikeys::{
    all_bound, bound, granted, keys_of_text, named_permission, named_status, no_keys,
    permission_named, status_named, ApiKeyRecord, FileRead, KeyStatus, KeysFile, Permission,
    RecordView,
};
use crate::apikey::{hex, hex_text, id_text, sha256_digest, ApiKey};
use crate::policy::clone_opt;
use crate::text::{cat, cat3};

verus! {

/// What is said of a word that names no level.
pub open spec fn permission_refusal(word: Seq<char>) -> Seq<char> {
    "invalid permission '"@ + word + "': must be resolve, read, readwrite or notify"@
}

/// The level that a word names, in lower case only.
pub fn parse_permission(perms: &str) -> (r: Result<Permission, String>)
    ensures
        match permission_named(perms@) {
            Some(p) => r matches Ok(q) && q == p,
            None => r matches Err(e) && e@ == permission_refusal(perms@),
        },
{
    match named_permission(perms) {
        Some(p) => Ok(p),
        None => Err(
            cat3(
                "invalid permission '",
                perms,
                "': must be resolve, read, readwrite or notify",
            ),
        ),
    }
}

/// Why a level and a service do not go together: a notify key is bound to a
/// service, and no other key is.
pub open spec fn binding_refusal(permission: Permission, has_service: bool) -> Option<Seq<char>> {
    if permission == Permission::Notify {
        if has_service {
            None
        } else {
            Some("a notify key must be bound to a service: pass --service <id>"@)
        }
    } else if has_service {
        Some("--service only applies to notify keys; remove it or use permission 'notify'"@)
    } else {
        None
    }
}

/// Whether a level and a service go together.
pub fn validate_service_binding(permission: &Permission, service: Option<&str>) -> (r: Result<
    (),
    String,
>)
    ensures
        match binding_refusal(*permission, service is Some) {
            Some(m) => r matches Err(e) && e@ == m,
            None => r is Ok,
        },
{
    match (permission, service) {
        (Permission::Notify, None) => Err(
            "a notify key must be bound to a service: pass --service <id>".to_owned(),
        ),
        (Permission::Notify, Some(_)) => Ok(()),
        (_, Some(_)) => Err(
            "--service only applies to notify keys; remove it or use permission 'notify'".to_owned(),
        ),
        (_, None) => Ok(()),
    }
}

/// What is asked of a new key.
pub struct KeyRequest<'a> {
    pub perms: &'a str,
    pub owner: &'a str,
    pub desc: Option<&'a str>,
    pub status: Option<&'a str>,
    pub created: Option<&'a str>,
    pub service: Option<&'a str>,
}

/// The word, or another one where there is none.
pub open spec fn word_or(word: Option<&str>, otherwise: Seq<char>) -> Seq<char> {
    match word {
        Some(w) => w@,
        None => otherwise,
    }
}

/// The text of an optional word.
pub open spec fn opt_word(word: Option<&str>) -> Option<Seq<char>> {
    match word {
        Some(w) => Some(w@),
        None => None,
    }
}

impl<'a> KeyRequest<'a> {
    /// Why the request is refused, of the first of: the level, the level and the
    /// service together, the status.
    pub open spec fn refusal(self) -> Option<Seq<char>> {
        let status = word_or(self.status, "active"@);
        match permission_named(self.perms@) {
            None => Some(permission_refusal(self.perms@)),
            Some(p) => match binding_refusal(p, self.service is Some) {
                Some(m) => Some(m),
                None => if status_named(status) is None {
                    Some("invalid status '"@ + status + "': must be active or revoked"@)
                } else {
                    None
                },
            },
        }
    }

    /// The record of the new key, given today's date and the hash of its secret.
    pub open spec fn record(self, today: Seq<char>, secret_hash: Seq<char>) -> RecordView {
        RecordView {
            owner: self.owner@,
            permission: permission_named(self.perms@)->0,
            status: status_named(word_or(self.status, "active"@))->0,
            created: word_or(self.created, today),
            secret_hash,
            description: word_or(self.desc, Seq::empty()),
            service: opt_word(self.service),
        }
    }

    /// The record of the new key, or why the request is refused.
    pub fn new_record(&self, today: &str, secret_hash: String) -> (r: Result<ApiKeyRecord, String>)
        ensures
            match self.refusal() {
                Some(m) => r matches Err(e) && e@ == m,
                None => r matches Ok(rec) && rec@ == self.record(today@, secret_hash@),
            },
    {
        let permission = parse_permission(self.perms)?;
        validate_service_binding(&permission, self.service)?;
        let word = match self.status {
            Some(w) => w,
            None => "active",
        };
        let status = match named_status(word) {
            Some(s) => s,
            None => {
                return Err(cat3("invalid status '", word, "': must be active or revoked"));
            },
        };
        let created = match self.created {
            Some(d) => d.to_owned(),
            None => today.to_owned(),
        };
        let description = match self.desc {
            Some(d) => d.to_owned(),
            None => String::new(),
        };
        let service = match self.service {
            Some(s) => Some(s.to_owned()),
            None => None,
        };
        Ok(
            ApiKeyRecord {
                owner: self.owner.to_owned(),
                permission,
                status,
                created,
                secret_hash,
                description,
                service,
            },
        )
    }
}

/// Why no keys can be had from the file at a path, of which `file` says what was
/// found there. With `init` the file must not be there, else it must.
pub open spec fn open_refusal(path: Seq<char>, file: Option<FileRead>, init: bool) -> Option<
    Seq<char>,
> {
    if init {
        match file {
            Some(_) => Some("key file already exists: "@ + path),
            None => None,
        }
    } else {
        match file {
            None => Some("key file not found: "@ + path + " (use --init to create a new file)"@),
            Some(read) => read_refusal(path, read),
        }
    }
}

/// Why a file that is there gives no keys.
pub open spec fn read_refusal(path: Seq<char>, file: FileRead) -> Option<Seq<char>> {
    match file {
        Err(m) => Some("failed to read "@ + path + ": "@ + m@),
        Ok(text) => match keys_of_text(text@) {
            Err(m) => Some("failed to parse "@ + path + ": "@ + m),
            Ok(_) => None,
        },
    }
}

/// The keys of a file that can be opened.
pub open spec fn opened(file: Option<FileRead>) -> Map<Seq<char>, RecordView> {
    match file {
        Some(Ok(text)) => keys_of_text(text@)->Ok_0,
        _ => no_keys(),
    }
}

/// The keys that were read from the file at `path`.
pub fn read_keys_file(path: &str, file: &FileRead) -> (r: Result<KeysFile, String>)
    ensures
        match read_refusal(path@, *file) {
            Some(m) => r matches Err(e) && e@ == m,
            None => r matches Ok(kf) && kf.wf() && kf@ == opened(Some(*file)),
        },
{
    match file {
        Ok(text) => match KeysFile::parse(text.as_str()) {
            Ok(kf) => Ok(kf),
            Err(m) => {
                let head = cat3("failed to parse ", path, ": ");
                Err(cat(head.as_str(), m.as_str()))
            },
        },
        Err(m) => {
            let head = cat3("failed to read ", path, ": ");
            Err(cat(head.as_str(), m.as_str()))
        },
    }
}

/// The keys to add a new one to.
fn open_keys(path: &str, file: &Option<FileRead>, init: bool) -> (r: Result<KeysFile, String>)
    ensures
        match open_refusal(path@, *file, init) {
            Some(m) => r matches Err(e) && e@ == m,
            None => r matches Ok(kf) && kf.wf() && kf@ == opened(*file),
        },
{
    if init {
        match file {
            Some(_) => Err(cat("key file already exists: ", path)),
            None => Ok(KeysFile::empty()),
        }
    } else {
        match file {
            None => Err(
                cat3("key file not found: ", path, " (use --init to create a new file)"),
            ),
            Some(read) => read_keys_file(path, read),
        }
    }
}

/// Draws four random bytes with `openssl::rand::rand_bytes` and takes them as one
/// number. Nothing is known of the number; where the call fails, the text is the
/// error's printed form.
#[verifier::external_body]
fn random_id() -> (r: Result<u32, String>) {
    let mut buf = [0u8; 4];
    match openssl::rand::rand_bytes(&mut buf) {
        Ok(()) => Ok(u32::from_be_bytes(buf)),
        Err(e) => Err(e.to_string()),
    }
}

/// Whether a drawn id is not taken yet.
pub fn is_free(keys: &KeysFile, id: u32) -> (r: bool)
    requires
        keys.wf(),
    ensures
        r == !keys@.contains_key(id_text(id)),
{
    let text = hex(id, 8);
    keys.get(text.as_str()).is_none()
}

/// Draws ids until one is not taken. Drawing fails where the random generator does,
/// or where every one of some 2^64 draws was taken.
pub fn pick_new_id(keys: &KeysFile) -> (r: Result<u32, String>)
    requires
        keys.wf(),
    ensures
        r matches Ok(id) ==> !keys@.contains_key(id_text(id)),
        r matches Err(e) ==> exists|m: Seq<char>|
            e@ == #[trigger] ("random id generation failed: "@ + m),
{
    let mut left: u64 = u64::MAX;
    while left > 0
        invariant
            keys.wf(),
        decreases left,
    {
        match random_id() {
            Ok(id) => {
                if is_free(keys, id) {
                    return Ok(id);
                }
            },
            Err(e) => {
                return Err(cat("random id generation failed: ", e.as_str()));
            },
        }
        left = left - 1;
    }
    Err(cat("random id generation failed: ", "no free id was drawn"))
}

/// Adds the new key to the keys, given the hash of its secret or why there is none.
/// `today` is the date that a key gets of which no date is given.
pub fn add_key(
    request: &KeyRequest,
    keys: &mut KeysFile,
    today: &str,
    apikey: &ApiKey,
    hash: Result<String, String>,
) -> (r: Result<(), String>)
    requires
        old(keys).wf(),
        request.refusal() is None,
    ensures
        final(keys).wf(),
        match hash {
            Ok(h) => r is Ok && final(keys)@ == old(keys)@.insert(
                id_text(apikey.key_id),
                request.record(today@, h@),
            ),
            Err(m) => r matches Err(e) && e@ == "failed to compute secret hash: "@ + m@
                && final(keys)@ == old(keys)@,
        },
{
    match hash {
        Ok(h) => match request.new_record(today, h) {
            Ok(record) => {
                keys.insert(apikey.key_id_hex(), record);
                Ok(())
            },
            Err(e) => Err(e),
        },
        Err(m) => Err(cat("failed to compute secret hash: ", m.as_str())),
    }
}

/// Makes a new key: the keys of the file with the new one among them, and the id
/// that was drawn for it.
///
/// `file` says what was found at `path`, `today` is the date that a key gets of which
/// no date is given, and `secret` the secret of the new key. Where the request is in order
/// and the file can be opened, only drawing the id and hashing the secret can fail.
pub fn cmd_create(
    request: &KeyRequest,
    path: &str,
    file: &Option<FileRead>,
    init: bool,
    today: &str,
    secret: Vec<u8>,
) -> (r: Result<(KeysFile, ApiKey), String>)
    ensures
        request.refusal() matches Some(m) ==> r matches Err(e) && e@ == m,
        request.refusal() is None ==> (open_refusal(path@, *file, init) matches Some(m)
            ==> r matches Err(e) && e@ == m),
        request.refusal() is None && open_refusal(path@, *file, init) is None ==> (r matches Err(e)
            ==> (exists|m: Seq<char>| e@ == #[trigger] ("random id generation failed: "@ + m)) || (
        exists|m: Seq<char>| e@ == #[trigger] ("failed to compute secret hash: "@ + m))),
        r matches Ok((kf, key)) ==> {
            &&& request.refusal() is None
            &&& open_refusal(path@, *file, init) is None
            &&& kf.wf()
            &&& key.secret@ == secret@
            &&& !opened(*file).contains_key(id_text(key.key_id))
            &&& kf@ == opened(*file).insert(
                id_text(key.key_id),
                request.record(today@, hex_text(sha256_digest(secret@))),
            )
        },
{
    match request.new_record(today, String::new()) {
        Ok(_) => {},
        Err(e) => {
            return Err(e);
        },
    }
    let mut kf = open_keys(path, file, init)?;
    let key_id: u32 = pick_new_id(&kf)?;
    let apikey = ApiKey::new(key_id, secret);
    let hash = apikey.secret_hash();
    match add_key(request, &mut kf, today, &apikey, hash) {
        Ok(()) => Ok((kf, apikey)),
        Err(e) => Err(e),
    }
}

/// What revoking a key comes to.
#[derive(Debug)]
pub enum Revocation {
    /// No key has the id.
    NotFound,
    /// The key was revoked before, and the file stays as it is.
    AlreadyRevoked,
    /// The keys with the one revoked, to be written to the file.
    Revoked(KeysFile),
}

/// The record with its status set to revoked.
pub open spec fn revoked(r: RecordView) -> RecordView {
    RecordView { status: KeyStatus::Revoked, ..r }
}

/// Revokes a key of the file, of which `file` says what was found at `path`.
pub fn cmd_revoke(keyid: &str, path: &str, file: &Option<FileRead>) -> (r: Result<
    Revocation,
    String,
>)
    ensures
        match *file {
            None => r matches Err(e) && e@ == "key file not found: "@ + path@,
            Some(read) => match read_refusal(path@, read) {
                Some(m) => r matches Err(e) && e@ == m,
                None => if !opened(*file).contains_key(keyid@) {
                    r matches Ok(Revocation::NotFound)
                } else if opened(*file)[keyid@].status == KeyStatus::Revoked {
                    r matches Ok(Revocation::AlreadyRevoked)
                } else {
                    r matches Ok(Revocation::Revoked(kf)) && kf.wf() && kf@ == opened(*file).insert(
                        keyid@,
                        revoked(opened(*file)[keyid@]),
                    )
                },
            },
        },
{
    let read = match file {
        Some(read) => read,
        None => {
            return Err(cat("key file not found: ", path));
        },
    };
    let mut kf = read_keys_file(path, read)?;
    let record = match kf.get(keyid) {
        None => {
            return Ok(Revocation::NotFound);
        },
        Some(record) => {
            if matches!(record.status, KeyStatus::Revoked) {
                return Ok(Revocation::AlreadyRevoked);
            }
            ApiKeyRecord {
                owner: record.owner.clone(),
                permission: record.permission,
                status: KeyStatus::Revoked,
                created: record.created.clone(),
                secret_hash: record.secret_hash.clone(),
                description: record.description.clone(),
                service: clone_opt(&record.service),
            }
        },
    };
    kf.insert(keyid.to_owned(), record);
    Ok(Revocation::Revoked(kf))
}

/// A new key never spoils the file: where every notify key of the file is bound to a
/// service, every one still is with the new key among them.
pub proof fn law_new_key_is_accepted_on_load(
    keys: Map<Seq<char>, RecordView>,
    request: KeyRequest,
    id: Seq<char>,
    today: Seq<char>,
    secret_hash: Seq<char>,
)
    requires
        all_bound(keys),
        request.refusal() is None,
    ensures
        all_bound(keys.insert(id, request.record(today, secret_hash))),
{
    let after = keys.insert(id, request.record(today, secret_hash));
    assert forall|k: Seq<char>| #[trigger] after.contains_key(k) implies bound(after[k]) by {
        if k != id {
            assert(keys.contains_key(k));
        }
    }
}

/// A new key that is active grants its level, for its service, to who presents its
/// secret, and leaves what other keys grant as it was.
pub proof fn law_new_key_grants_its_level(
    keys: Map<Seq<char>, RecordView>,
    request: KeyRequest,
    id: Seq<char>,
    today: Seq<char>,
    secret_hash: Seq<char>,
    other: Seq<char>,
    other_hash: Seq<char>,
)
    requires
        request.refusal() is None,
    ensures
        status_named(word_or(request.status, "active"@)) == Some(KeyStatus::Active) ==> granted(
            keys.insert(id, request.record(today, secret_hash)),
            id,
            secret_hash,
        ) == Some((permission_named(request.perms@)->0, opt_word(request.service))),
        other != id ==> granted(
            keys.insert(id, request.record(today, secret_hash)),
            other,
            other_hash,
        ) == granted(keys, other, other_hash),
{
}

/// Once revoked a key grants nothing, and revoking it again changes nothing. What
/// other keys grant stays as it was.
pub proof fn law_revoking_is_final(
    keys: Map<Seq<char>, RecordView>,
    id: Seq<char>,
    hash: Seq<char>,
    other: Seq<char>,
)
    requires
        keys.contains_key(id),
    ensures
        granted(keys.insert(id, revoked(keys[id])), id, hash) is None,
        revoked(revoked(keys[id])) == revoked(keys[id]),
        other != id ==> granted(keys.insert(id, revoked(keys[id])), other, hash) == granted(
            keys,
            other,
            hash,
        ),
{
}

/// A request is in order just where its level is one of the four words, it names a service if
/// and only if that level is to notify, and its status, if it gives one, is one of the two words.
pub proof fn law_request_in_order(request: KeyRequest)
    ensures
        request.refusal() is None <==> {
            &&& request.perms@ == "resolve"@ || request.perms@ == "read"@ || request.perms@
                == "readwrite"@ || request.perms@ == "notify"@
            &&& request.service is Some <==> request.perms@ == "notify"@
            &&& request.status matches Some(word) ==> word@ == "active"@ || word@ == "revoked"@
        },
{
    crate::admin_apikeys::law_words_for_levels_and_status(request.perms@);
    crate::admin_apikeys::law_words_for_levels_and_status(word_or(request.status, "active"@));
    reveal_strlit("resolve");
    reveal_strlit("read");
    reveal_strlit("readwrite");
    reveal_strlit("notify");
    assert("resolve"@.len() == 7 && "read"@.len() == 4 && "readwrite"@.len() == 9);
    assert("notify"@.len() == 6);
}

/// The record of a new key has what was asked for: owner, level, service and hash as they are,
/// the description or none, the date or the one of today, and the status or active.
pub proof fn law_new_record_is_as_requested(
    request: KeyRequest,
    today: Seq<char>,
    secret_hash: Seq<char>,
)
    requires
        request.refusal() is None,
    ensures
        request.record(today, secret_hash).owner == request.owner@,
        request.record(today, secret_hash).secret_hash == secret_hash,
        request.perms@ == "resolve"@ ==> request.record(today, secret_hash).permission
            == Permission::Resolve,
        request.perms@ == "read"@ ==> request.record(today, secret_hash).permission
            == Permission::Read,
        request.perms@ == "readwrite"@ ==> request.record(today, secret_hash).permission
            == Permission::ReadWrite,
        request.perms@ == "notify"@ ==> request.record(today, secret_hash).permission
            == Permission::Notify,
        request.service is None ==> request.record(today, secret_hash).service is None,
        request.service matches Some(s) ==> request.record(today, secret_hash).service == Some(s@),
        request.desc is None ==> request.record(today, secret_hash).description.len() == 0,
        request.desc matches Some(d) ==> request.record(today, secret_hash).description == d@,
        request.created is None ==> request.record(today, secret_hash).created == today,
        request.created matches Some(c) ==> request.record(today, secret_hash).created == c@,
        request.status is None ==> request.record(today, secret_hash).status == KeyStatus::Active,
        request.status matches Some(w) ==> (request.record(today, secret_hash).status
            == KeyStatus::Active <==> w@ == "active"@),
{
    crate::admin_apikeys::law_words_for_levels_and_status(request.perms@);
    crate::admin_apikeys::law_words_for_levels_and_status(word_or(request.status, "active"@));
    reveal_strlit("active");
    reveal_strlit("revoked");
    assert("active"@.len() != "revoked"@.len());
}

/// A file is opened where there is none and a new one is wanted, or where there is one that can
/// be read and none is wanted; it has the keys that are read from it, and a new one has none.
pub proof fn law_file_is_opened_or_begun(path: Seq<char>, file: Option<FileRead>, init: bool)
    ensures
        init ==> (open_refusal(path, file, init) is None <==> file is None),
        !init ==> (open_refusal(path, file, init) is None <==> (file matches Some(Ok(text))
            && keys_of_text(text@) is Ok)),
        file is None ==> forall|id: Seq<char>| !(#[trigger] opened(file).contains_key(id)),
        file matches Some(Ok(text)) ==> (keys_of_text(text@) matches Ok(keys) ==> opened(file)
            == keys),
{
}

/// Revoking a key changes its status and nothing else of its record.
pub proof fn law_revoking_changes_the_status_alone(r: RecordView)
    ensures
        revoked(r).status == KeyStatus::Revoked,
        revoked(r).owner == r.owner,
        revoked(r).permission == r.permission,
        revoked(r).created == r.created,
        revoked(r).secret_hash == r.secret_hash,
        revoked(r).description == r.description,
        revoked(r).service == r.service,
{
}

} // verus!
