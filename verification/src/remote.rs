use vstd::prelude::*;
use vstd::string::StringExecFns;

use crate::contents::Contents;
use crate::errors::Error;
use crate::listing::{key_views, list_from_keys, listing};
use crate::visibility::Visibility;

verus! {

// ---------------------------------------------------------------------------
// The decision layer of a remote object-store adapter. The surrounding
// runtime performs each network request and hands its outcome back as a plain
// value; every decision about what that outcome means for the caller is made
// here, where it is verified. Backend failures arrive as message text and
// leave as `BackendError`, never raw.
// ---------------------------------------------------------------------------

/// What came back from fetching an object's bytes.
pub enum FetchOutcome {
    /// The object exists and this is its whole payload.
    Found(Contents),
    /// The backend reported that no object lives at the key.
    Absent,
    /// The request failed for any other reason, with the failure's text.
    Failed(String),
}

/// One object's metadata, from a single head query; every metadata accessor
/// reads this aggregate rather than issuing its own request.
pub struct ObjectStat {
    /// Size in bytes.
    pub size: u64,
    /// The backend's last-modified timestamp, as the backend spells it.
    pub last_modified: String,
    /// The declared content type, still unparsed.
    pub content_type: String,
    /// The backend-native digest of the content.
    pub etag: String,
}

/// What came back from a head (metadata) query.
pub enum StatOutcome {
    Found(ObjectStat),
    Absent,
    Failed(String),
}

/// What came back from an upload.
pub enum PutOutcome {
    Done,
    Failed(String),
}

/// What came back from a delete request.
pub enum DeleteOutcome {
    /// The backend deleted the object, or reports success for an absent key.
    Done,
    /// The backend distinguished the key as already absent.
    Absent,
    Failed(String),
}

/// What came back from a server-side copy.
pub enum CopyOutcome {
    Done,
    SourceAbsent,
    Failed(String),
}

/// What came back from a full recursive key listing under a prefix.
pub enum ListOutcome {
    Listed(Vec<Vec<u8>>),
    Failed(String),
}

/// The backend's access-control grades, as plain values.
#[derive(Debug, Clone, Copy, PartialEq, Eq, Structural)]
pub enum AclKind {
    Private,
    PublicRead,
    PublicReadWrite,
    /// The object defers to the bucket-level default.
    Default,
}

/// What came back from an ACL query.
pub enum AclOutcome {
    Got(AclKind),
    Absent,
    Failed(String),
}

/// What a read returns for each fetch outcome: the payload, `NotFound` for an
/// absent object, and a wrapped `BackendError` for anything else. Decoding is
/// not attempted here: raw bytes are always a valid `Contents`.
pub fn interpret_read(o: FetchOutcome) -> (r: Result<Contents, Error>)
    ensures
        r is Ok <==> o is Found,
        o matches FetchOutcome::Found(c) ==> r matches Ok(rc) && rc@ == c@,
        o is Absent ==> (r matches Err(e) && e == Error::NotFound),
        o matches FetchOutcome::Failed(m) ==> (r matches Err(e) && e == Error::BackendError(m)),
{
    match o {
        FetchOutcome::Found(c) => Ok(c),
        FetchOutcome::Absent => Err(Error::NotFound),
        FetchOutcome::Failed(m) => Err(Error::BackendError(m)),
    }
}

/// What an existence check returns: only a distinguished absence maps to
/// `false`; any other failure propagates as an error, never silently as
/// `false`.
pub fn interpret_exists(o: &StatOutcome) -> (r: Result<bool, Error>)
    ensures
        r is Ok <==> !(o is Failed),
        o is Found ==> r == Ok::<bool, Error>(true),
        o is Absent ==> r == Ok::<bool, Error>(false),
        o matches StatOutcome::Failed(m) ==> (r matches Err(e) && e == Error::BackendError(*m)),
{
    match o {
        StatOutcome::Found(_) => Ok(true),
        StatOutcome::Absent => Ok(false),
        StatOutcome::Failed(m) => Err(Error::BackendError(m.clone())),
    }
}

/// What a write returns for each upload outcome.
pub fn interpret_write(o: PutOutcome) -> (r: Result<(), Error>)
    ensures
        r is Ok <==> o is Done,
        o matches PutOutcome::Failed(m) ==> (r matches Err(e) && e == Error::BackendError(m)),
{
    match o {
        PutOutcome::Done => Ok(()),
        PutOutcome::Failed(m) => Err(Error::BackendError(m)),
    }
}

/// What a delete returns: success both when the backend deleted the object
/// and when the key was already absent. Deletion is idempotent by policy, so
/// absence is never surfaced as `NotFound`.
pub fn interpret_delete(o: DeleteOutcome) -> (r: Result<(), Error>)
    ensures
        r is Ok <==> !(o is Failed),
        o matches DeleteOutcome::Failed(m) ==> (r matches Err(e) && e == Error::BackendError(m)),
{
    match o {
        DeleteOutcome::Done => Ok(()),
        DeleteOutcome::Absent => Ok(()),
        DeleteOutcome::Failed(m) => Err(Error::BackendError(m)),
    }
}

/// What a copy returns: an absent source is `NotFound`, and the source is
/// never touched by a copy.
pub fn interpret_copy(o: CopyOutcome) -> (r: Result<(), Error>)
    ensures
        r is Ok <==> o is Done,
        o is SourceAbsent ==> (r matches Err(e) && e == Error::NotFound),
        o matches CopyOutcome::Failed(m) ==> (r matches Err(e) && e == Error::BackendError(m)),
{
    match o {
        CopyOutcome::Done => Ok(()),
        CopyOutcome::SourceAbsent => Err(Error::NotFound),
        CopyOutcome::Failed(m) => Err(Error::BackendError(m)),
    }
}

/// A move is copy-then-delete-source: only a successful copy step may
/// proceed to deleting the source, so any failure leaves the source intact.
pub fn move_proceeds_to_delete(copy_step: &Result<(), Error>) -> (b: bool)
    ensures
        b == (copy_step is Ok),
{
    copy_step.is_ok()
}

/// What a listing returns: the directory's entries computed from the
/// backend's full recursive key set, in the backend's deterministic key
/// order. A prefix matching nothing yields the empty listing, never an error.
pub fn interpret_list(o: ListOutcome, dir: &Vec<u8>, deep: bool) -> (r: Result<Vec<Vec<u8>>, Error>)
    ensures
        r is Ok <==> o is Listed,
        o matches ListOutcome::Listed(keys) ==> r matches Ok(out) && key_views(out@) == listing(
            key_views(keys@),
            dir@,
            deep,
        ),
        o matches ListOutcome::Failed(m) ==> (r matches Err(e) && e == Error::BackendError(m)),
{
    match o {
        ListOutcome::Listed(keys) => Ok(list_from_keys(&keys, dir, deep)),
        ListOutcome::Failed(m) => Err(Error::BackendError(m)),
    }
}

/// A directory exists on a flat namespace exactly when its recursive listing
/// below the prefix is non-empty.
pub fn interpret_directory_exists(o: ListOutcome, dir: &Vec<u8>) -> (r: Result<bool, Error>)
    ensures
        r is Ok <==> o is Listed,
        o matches ListOutcome::Listed(keys) ==> r matches Ok(b) && b == (listing(
            key_views(keys@),
            dir@,
            true,
        ).len() > 0),
        o matches ListOutcome::Failed(m) ==> (r matches Err(e) && e == Error::BackendError(m)),
{
    match o {
        ListOutcome::Listed(keys) => {
            let entries = list_from_keys(&keys, dir, true);
            Ok(entries.len() > 0)
        },
        ListOutcome::Failed(m) => Err(Error::BackendError(m)),
    }
}

/// The size of the object, from the shared metadata aggregate.
pub fn file_size_from_stat(o: &StatOutcome) -> (r: Result<u64, Error>)
    ensures
        r is Ok <==> o is Found,
        o matches StatOutcome::Found(st) ==> r == Ok::<u64, Error>(st.size),
        o is Absent ==> (r matches Err(e) && e == Error::NotFound),
        o matches StatOutcome::Failed(m) ==> (r matches Err(e) && e == Error::BackendError(*m)),
{
    match o {
        StatOutcome::Found(st) => Ok(st.size),
        StatOutcome::Absent => Err(Error::NotFound),
        StatOutcome::Failed(m) => Err(Error::BackendError(m.clone())),
    }
}

/// The last-modified timestamp of the object, from the shared metadata
/// aggregate, in the backend's own spelling.
pub fn last_modified_from_stat(o: &StatOutcome) -> (r: Result<String, Error>)
    ensures
        r is Ok <==> o is Found,
        o matches StatOutcome::Found(st) ==> r matches Ok(t) && t == st.last_modified,
        o is Absent ==> (r matches Err(e) && e == Error::NotFound),
        o matches StatOutcome::Failed(m) ==> (r matches Err(e) && e == Error::BackendError(*m)),
{
    match o {
        StatOutcome::Found(st) => Ok(st.last_modified.clone()),
        StatOutcome::Absent => Err(Error::NotFound),
        StatOutcome::Failed(m) => Err(Error::BackendError(m.clone())),
    }
}

/// The checksum of the object: the backend-native digest carried in the
/// shared metadata aggregate, handed over unchanged.
pub fn checksum_from_stat(o: &StatOutcome) -> (r: Result<String, Error>)
    ensures
        r is Ok <==> o is Found,
        o matches StatOutcome::Found(st) ==> r matches Ok(c) && c == st.etag,
        o is Absent ==> (r matches Err(e) && e == Error::NotFound),
        o matches StatOutcome::Failed(m) ==> (r matches Err(e) && e == Error::BackendError(*m)),
{
    match o {
        StatOutcome::Found(st) => Ok(st.etag.clone()),
        StatOutcome::Absent => Err(Error::NotFound),
        StatOutcome::Failed(m) => Err(Error::BackendError(m.clone())),
    }
}

/// The MIME type of the object, parsed from the content type in the shared
/// metadata aggregate. A content type the parser refuses is a backend fault,
/// wrapped like any other.
pub fn mime_type_from_stat(o: &StatOutcome) -> (r: Result<mime::Mime, Error>)
    ensures
        r is Ok <==> (o matches StatOutcome::Found(st) && parsed_mime(st.content_type@) is Some),
        o matches StatOutcome::Found(st) ==> (r matches Ok(m) ==> Some(m) == parsed_mime(
            st.content_type@,
        )),
        o is Absent ==> (r matches Err(e) && e == Error::NotFound),
        o matches StatOutcome::Failed(m) ==> (r matches Err(e) && e == Error::BackendError(*m)),
        r is Err ==> r->Err_0 is NotFound || r->Err_0 is BackendError,
{
    match o {
        StatOutcome::Found(st) => {
            match parse_mime(st.content_type.as_str()) {
                Some(m) => Ok(m),
                None => Err(
                    Error::BackendError(String::from_str("object has a malformed content type")),
                ),
            }
        },
        StatOutcome::Absent => Err(Error::NotFound),
        StatOutcome::Failed(m) => Err(Error::BackendError(m.clone())),
    }
}

/// Projects a backend ACL grade onto the binary visibility abstraction: any
/// grade the public can read is `Public`; a private grade, and an object that
/// defers to the bucket default, are `Private`.
pub fn interpret_visibility(o: &AclOutcome) -> (r: Result<Visibility, Error>)
    ensures
        r is Ok <==> !(o is Failed),
        o matches AclOutcome::Got(a) ==> r == Ok::<Visibility, Error>(
            if a is PublicRead || a is PublicReadWrite {
                Visibility::Public
            } else {
                Visibility::Private
            },
        ),
        o is Absent ==> r == Ok::<Visibility, Error>(Visibility::Private),
        o matches AclOutcome::Failed(m) ==> (r matches Err(e) && e == Error::BackendError(*m)),
{
    match o {
        AclOutcome::Got(AclKind::PublicRead) => Ok(Visibility::Public),
        AclOutcome::Got(AclKind::PublicReadWrite) => Ok(Visibility::Public),
        AclOutcome::Got(AclKind::Private) => Ok(Visibility::Private),
        AclOutcome::Got(AclKind::Default) => Ok(Visibility::Private),
        AclOutcome::Absent => Ok(Visibility::Private),
        AclOutcome::Failed(m) => Err(Error::BackendError(m.clone())),
    }
}

/// The ACL grade to request when setting a visibility: `Public` asks for
/// public read access, `Private` for none.
pub fn acl_for_visibility(v: Visibility) -> (a: AclKind)
    ensures
        v is Public ==> a is PublicRead,
        v is Private ==> a is Private,
{
    match v {
        Visibility::Public => AclKind::PublicRead,
        Visibility::Private => AclKind::Private,
    }
}

#[verifier::external_type_specification]
#[verifier::external_body]
pub struct ExMime(mime::Mime);

/// What parsing a MIME string yields: a function of the characters alone.
pub uninterp spec fn parsed_mime(s: Seq<char>) -> Option<mime::Mime>;

/// Relies on mime::Mime's FromStr implementation, reached through
/// str::parse: parses a MIME type from text, deterministically.
#[verifier::external_body]
fn parse_mime(s: &str) -> (r: Option<mime::Mime>)
    ensures
        r == parsed_mime(s@),
{
    s.parse::<mime::Mime>().ok()
}

} // verus!
