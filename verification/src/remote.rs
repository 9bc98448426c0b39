//! The remote store's protocol logic: request targets, request bodies
//! and the reading of response statuses. The transport itself (issuing
//! the HTTP requests) lives outside this crate; everything the store
//! decides about a response is here.

use vstd::prelude::*;

use crate::codec::ser;
use crate::doc::{entries_view, lemma_entries_view, Doc, DocV};

verus! {

/// The store's error: a request that failed or answered with an
/// unexpected status.
#[derive(Debug, Clone, Copy, PartialEq, Eq, Structural)]
pub enum StoreError {
    RequestFailed,
}

/// A remote flat store reached over HTTP, one request per operation.
pub struct RemoteStorage {
    origin: String,
}

/// What a fetch means: 200 with a body is the value, 404 is absence,
/// a 200 without a body or any other status is a failed request.
pub open spec fn get_outcome(status: u16, body: Option<String>) -> Result<
    Option<String>,
    StoreError,
> {
    if status == 404 {
        Ok(None)
    } else if status == 200 {
        match body {
            Some(v) => Ok(Some(v)),
            None => Err(StoreError::RequestFailed),
        }
    } else {
        Err(StoreError::RequestFailed)
    }
}

impl RemoteStorage {
    /// A remote store rooted at `origin`.
    pub fn new(origin: String) -> (r: RemoteStorage)
        ensures
            r.origin_spec() == origin@,
    {
        RemoteStorage { origin }
    }

    /// The origin all request targets start with.
    pub closed spec fn origin_spec(&self) -> Seq<char> {
        self.origin@
    }

    /// The request target for the entry under `key`.
    pub fn url_for(&self, key: &str) -> (r: String)
        ensures
            r@ == self.origin_spec() + "/api/media/"@ + key@,
    {
        let mut out = self.origin.clone();
        out.append("/api/media/");
        out.append(key);
        out
    }

    /// The request target for the whole record set.
    pub fn list_url(&self) -> (r: String)
        ensures
            r@ == self.origin_spec() + "/api/media"@,
    {
        let mut out = self.origin.clone();
        out.append("/api/media");
        out
    }

    /// Reads a fetch response: the value on 200, absence on 404, a
    /// failure on anything else. Errors are reported, never swallowed.
    pub fn interpret_get(status: u16, body: Option<String>) -> (r: Result<
        Option<String>,
        StoreError,
    >)
        ensures
            r == get_outcome(status, body),
    {
        if status == 404 {
            Ok(None)
        } else if status == 200 {
            match body {
                Some(v) => Ok(Some(v)),
                None => Err(StoreError::RequestFailed),
            }
        } else {
            Err(StoreError::RequestFailed)
        }
    }

    /// Reads a store response: accepted means written.
    pub fn interpret_set(status: u16) -> (r: Result<(), StoreError>)
        ensures
            r == (if status == 202 {
                Ok::<(), StoreError>(())
            } else {
                Err::<(), StoreError>(StoreError::RequestFailed)
            }),
    {
        if status == 202 {
            Ok(())
        } else {
            Err(StoreError::RequestFailed)
        }
    }

    /// Reads a removal response: no content means removed.
    pub fn interpret_remove(status: u16) -> (r: Result<(), StoreError>)
        ensures
            r == (if status == 204 {
                Ok::<(), StoreError>(())
            } else {
                Err::<(), StoreError>(StoreError::RequestFailed)
            }),
    {
        if status == 204 {
            Ok(())
        } else {
            Err(StoreError::RequestFailed)
        }
    }

    /// Reads a fetch response when only presence matters.
    pub fn interpret_has(status: u16) -> (r: Result<bool, StoreError>)
        ensures
            r == (if status == 404 {
                Ok::<bool, StoreError>(false)
            } else if status == 200 {
                Ok::<bool, StoreError>(true)
            } else {
                Err::<bool, StoreError>(StoreError::RequestFailed)
            }),
    {
        if status == 404 {
            Ok(false)
        } else if status == 200 {
            Ok(true)
        } else {
            Err(StoreError::RequestFailed)
        }
    }

    /// The body of a store request: a two-entry document naming the
    /// key and the value, in the store's own encoding.
    pub fn encode_key_value(key: &str, val: &str) -> (r: String)
        ensures
            r@ == ser(
                DocV::Obj(
                    seq![
                        ("key"@, DocV::Val(key@)),
                        ("val"@, DocV::Val(val@)),
                    ],
                ),
            ),
    {
        let mut es: Vec<(String, Doc)> = Vec::new();
        es.push((String::from_str("key"), Doc::Val(String::from_str(key))));
        es.push((String::from_str("val"), Doc::Val(String::from_str(val))));
        let d = Doc::Obj(es);
        let r = d.emit();
        proof {
            lemma_entries_view(d->Obj_0@);
            assert(entries_view(d->Obj_0@) =~= seq![
                ("key"@, DocV::Val(key@)),
                ("val"@, DocV::Val(val@)),
            ]);
        }
        r
    }
}

} // verus!
