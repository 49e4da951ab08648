//! Stored contents: each object stands under the digest of its bytes, and is
//! believed only while its bytes have that digest.

use vstd::prelude::*;
use vstd::string::*;

use crate::error::{Fault, Result, RewindError};
use crate::outside;
use crate::outside::blake3_hex;
use crate::outside::uuid_text;
use crate::paths;
use crate::paths::joined;
use crate::paths::Platform;
use crate::text;

verus! {

/// A store of contents.
#[derive(Clone, Debug)]
pub struct Cas {
    platform: Platform,
    root: String,
}

/// What was read where an object should stand.
#[derive(Debug)]
pub enum Content {
    Missing(String),
    Bytes(Vec<u8>),
}

/// A hexadecimal digit, in either case.
pub open spec fn hex(c: char) -> bool {
    '0' <= c <= '9' || 'a' <= c <= 'f' || 'A' <= c <= 'F'
}

/// Whether a text can be a digest.
pub open spec fn is_digest(s: Seq<char>) -> bool {
    s.len() == 64 && forall|i: int| 0 <= i < s.len() ==> hex(#[trigger] s[i])
}

pub open spec fn invalid_digest(s: Seq<char>) -> Fault {
    Fault::Cas("invalid BLAKE3 object id "@ + s)
}

/// What is wrong with an object, if anything is: its name is no digest, it is
/// not there, or its bytes have another digest.
pub open spec fn object_fault(hash: Seq<char>, content: Content) -> Option<Fault> {
    if !is_digest(hash) {
        Some(invalid_digest(hash))
    } else {
        match content {
            Content::Missing(error) => Some(Fault::Cas("missing CAS object "@ + hash + ": "@ + error@)),
            Content::Bytes(bytes) => if blake3_hex(bytes@) != hash {
                Some(Fault::Cas("CAS corruption for "@ + hash + "; computed "@ + blake3_hex(bytes@)))
            } else {
                None
            },
        }
    }
}

fn valid_digest(hash: &str) -> (r: bool)
    ensures
        r == is_digest(hash@),
{
    let chars = text::chars_of(hash);
    if chars.len() != 64 {
        return false;
    }
    for i in 0..chars.len()
        invariant
            chars@ == hash@,
            forall|k: int| 0 <= k < i ==> hex(#[trigger] chars@[k]),
    {
        let c = chars[i];
        let digit = (c >= '0' && c <= '9') || (c >= 'a' && c <= 'f') || (c >= 'A' && c <= 'F');
        if !digit {
            assert(!hex(hash@[i as int]));
            return false;
        }
    }
    true
}

impl Cas {
    pub closed spec fn at(self) -> Seq<char> {
        self.root@
    }

    pub closed spec fn platform(self) -> Platform {
        self.platform
    }

    pub fn new(platform: Platform, root: &str) -> (r: Self)
        ensures
            r.at() == root@,
            r.platform() == platform,
    {
        Cas { platform, root: text::copy(root) }
    }

    pub fn root(&self) -> (r: &str)
        ensures
            r@ == self.at(),
    {
        self.root.as_str()
    }

    /// Where an object stands. Only a digest names one.
    pub fn blob_path(&self, hash: &str) -> (r: Result<String>)
        ensures
            r is Ok == is_digest(hash@),
            match r {
                Ok(path) => path@ == joined(self.platform(), joined(self.platform(), self.at(), "blobs"@), hash@),
                Err(e) => e@ == invalid_digest(hash@),
            },
    {
        if !valid_digest(hash) {
            let mut message = text::copy("invalid BLAKE3 object id ");
            message.append(hash);
            return Err(RewindError::Cas(message));
        }
        let directory = paths::join(self.platform, self.root.as_str(), "blobs");
        Ok(paths::join(self.platform, directory.as_str(), hash))
    }

    /// Where an object is written before it is complete.
    pub fn part_path(&self, id: u128) -> (r: String)
        ensures
            r@ == joined(self.platform(), joined(self.platform(), self.at(), "tmp"@), uuid_text(id) + ".part"@),
    {
        let directory = paths::join(self.platform, self.root.as_str(), "tmp");
        let mut name = outside::identifier(id);
        name.append(".part");
        paths::join(self.platform, directory.as_str(), name.as_str())
    }

    /// The name of the file in which an object is put beside its destination
    /// before it is complete.
    pub fn stage_name(&self, name: &str, id: u128) -> (r: String)
        ensures
            r@ == "."@ + name@ + "."@ + uuid_text(id) + ".stage"@,
    {
        let mut out = text::copy(".");
        out.append(name);
        out.append(".");
        out.append(outside::identifier(id).as_str());
        out.append(".stage");
        out
    }

    /// Where a named file of the store stands.
    pub fn named_path(&self, name: &str) -> (r: String)
        ensures
            r@ == joined(self.platform(), self.at(), name@),
    {
        paths::join(self.platform, self.root.as_str(), name)
    }

    /// The digest under which some bytes are stored.
    pub fn put_bytes(&self, bytes: &Vec<u8>) -> (r: String)
        ensures
            r@ == blake3_hex(bytes@),
            is_digest(r@),
    {
        let r = outside::hash_hex(bytes.as_slice());
        assert forall|i: int| 0 <= i < r@.len() implies hex(#[trigger] r@[i]) by {
            assert(outside::is_hex_digit(r@[i]));
        }
        r
    }

    /// Checks that an object is what its name says.
    pub fn verify(&self, hash: &str, content: &Content) -> (r: Result<()>)
        ensures
            match object_fault(hash@, *content) {
                Some(fault) => r is Err && r->Err_0@ == fault,
                None => r is Ok,
            },
    {
        if !valid_digest(hash) {
            let mut message = text::copy("invalid BLAKE3 object id ");
            message.append(hash);
            return Err(RewindError::Cas(message));
        }
        match content {
            Content::Missing(error) => {
                let mut message = text::copy("missing CAS object ");
                message.append(hash);
                message.append(": ");
                message.append(error.as_str());
                Err(RewindError::Cas(message))
            },
            Content::Bytes(bytes) => {
                let actual = outside::hash_hex(bytes.as_slice());
                if text::same(actual.as_str(), hash) {
                    return Ok(());
                }
                let mut message = text::copy("CAS corruption for ");
                message.append(hash);
                message.append("; computed ");
                message.append(actual.as_str());
                Err(RewindError::Cas(message))
            },
        }
    }

    /// The bytes of an object, if it is what its name says.
    pub fn read_bytes(&self, hash: &str, content: Content) -> (r: Result<Vec<u8>>)
        ensures
            r is Ok == object_fault(hash@, content) is None,
            match r {
                Ok(bytes) => content == Content::Bytes(bytes),
                Err(e) => Some(e@) == object_fault(hash@, content),
            },
    {
        match self.verify(hash, &content) {
            Ok(()) => {},
            Err(e) => {
                return Err(e);
            },
        }
        match content {
            Content::Bytes(bytes) => Ok(bytes),
            Content::Missing(error) => Err(RewindError::Cas(error)),
        }
    }

    /// Checks objects in order, and gives the first fault.
    pub fn referenced_objects(&self, objects: &Vec<(String, Content)>) -> (r: Result<()>)
        ensures
            r is Ok == forall|i: int|
                0 <= i < objects@.len() ==> object_fault((#[trigger] objects@[i]).0@, objects@[i].1) is None,
            r is Err ==> exists|i: int|
                0 <= i < objects@.len() && object_fault((#[trigger] objects@[i]).0@, objects@[i].1) == Some(
                    r->Err_0@,
                ) && forall|j: int|
                    0 <= j < i ==> object_fault((#[trigger] objects@[j]).0@, objects@[j].1) is None,
    {
        for i in 0..objects.len()
            invariant
                forall|k: int|
                    0 <= k < i ==> object_fault((#[trigger] objects@[k]).0@, objects@[k].1) is None,
        {
            let object = &objects[i];
            match self.verify(object.0.as_str(), &object.1) {
                Ok(()) => {},
                Err(e) => {
                    assert(object_fault(objects@[i as int].0@, objects@[i as int].1) == Some(e@));
                    return Err(e);
                },
            }
        }
        Ok(())
    }
}

/// What was stored under the digest of its bytes is accepted when it is read
/// back unchanged.
pub proof fn stored_bytes_verify(bytes: Vec<u8>, hash: Seq<char>)
    requires
        hash == blake3_hex(bytes@),
        is_digest(hash),
    ensures
        object_fault(hash, Content::Bytes(bytes)) is None,
{
}

/// Bytes that are accepted for a digest have that digest.
pub proof fn accepted_bytes_match(bytes: Vec<u8>, hash: Seq<char>)
    requires
        object_fault(hash, Content::Bytes(bytes)) is None,
    ensures
        blake3_hex(bytes@) == hash,
{
}

// ---------------------------------------------------------------------------
// What the calls promise
// ---------------------------------------------------------------------------

/// What was put is got back: bytes are read under the digest that putting them
/// gave, and stand at a path of the store.
pub proof fn what_was_put_is_got_back(
    cas: Cas,
    bytes: Vec<u8>,
    digest: String,
    hash: &str,
    got: Result<Vec<u8>>,
    checked: Result<()>,
    path: Result<String>,
)
    requires
        call_ensures(Cas::put_bytes, (&cas, &bytes), digest),
        hash@ == digest@,
        call_ensures(Cas::read_bytes, (&cas, hash, Content::Bytes(bytes)), got),
        call_ensures(Cas::verify, (&cas, hash, &Content::Bytes(bytes)), checked),
        call_ensures(Cas::blob_path, (&cas, hash), path),
    ensures
        got is Ok,
        got->Ok_0@ == bytes@,
        checked is Ok,
        path is Ok,
{
}

/// Nothing is read for what it is not: bytes whose digest is not the name, an
/// object that is missing, and a name that is no digest of sixty-four
/// hexadecimal digits are all refused, by reading as by checking.
pub proof fn nothing_is_read_for_what_it_is_not(
    cas: Cas,
    hash: &str,
    content: Content,
    got: Result<Vec<u8>>,
    checked: Result<()>,
    path: Result<String>,
)
    requires
        call_ensures(Cas::read_bytes, (&cas, hash, content), got),
        call_ensures(Cas::verify, (&cas, hash, &content), checked),
        call_ensures(Cas::blob_path, (&cas, hash), path),
    ensures
        ({
            let digits = hash@.len() == 64 && forall|i: int|
                0 <= i < hash@.len() ==> ('0' <= (#[trigger] hash@[i]) <= '9' || 'a' <= hash@[i] <= 'f' || 'A'
                    <= hash@[i] <= 'F');
            &&& got is Ok == (digits && content is Bytes && blake3_hex(content->Bytes_0@) == hash@)
            &&& got is Ok ==> got->Ok_0@ == content->Bytes_0@
            &&& checked is Ok == got is Ok
            &&& path is Ok == digits
            &&& got is Err ==> got->Err_0 is Cas
            &&& path is Err ==> path->Err_0 is Cas
        }),
{
    if is_digest(hash@) {
        assert forall|i: int| 0 <= i < hash@.len() implies ('0' <= (#[trigger] hash@[i]) <= '9' || 'a' <= hash@[i] <= 'f'
            || 'A' <= hash@[i] <= 'F') by {
            assert(hex(hash@[i]));
        }
    }
}

} // verus!
