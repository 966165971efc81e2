//! The engine interface and the per-request dispatch.
//!
//! A server accepts connections, decodes requests, serves each against a
//! pluggable engine, and encodes responses.  The socket loop lives with
//! the caller; the decision from request to response is here.

use crate::error::Error;
use crate::resource::{Request, RequestView, Response, ResponseView};
use crate::store::KvStore;
use vstd::prelude::*;

verus! {

/// A pluggable storage engine: a store whose observable contents are a
/// map from keys to values, shared by every connection of one server.
pub trait KvsEngine: Sized {
    /// The engine's internal well-formedness.
    spec fn engine_inv(&self) -> bool;

    /// The engine's observable contents.
    spec fn engine_model(&self) -> Map<Seq<char>, Seq<char>>;

    /// Looks a key up; an absent key reads as `None`, never as a
    /// missing-key error.
    fn get(&self, key: String) -> (r: Result<Option<String>, Error>)
        requires
            self.engine_inv(),
        ensures
            match r {
                Ok(Some(v)) => self.engine_model().dom().contains(key@) && v@
                    == self.engine_model()[key@],
                Ok(None) => !self.engine_model().dom().contains(key@),
                Err(e) => !(e matches Error::DoesNotExist { .. }),
            },
    ;

    /// Writes a key; on failure the contents are unchanged.
    fn set(&mut self, key: String, val: String) -> (r: Result<(), Error>)
        requires
            old(self).engine_inv(),
        ensures
            final(self).engine_inv(),
            match r {
                Ok(_) => final(self).engine_model() == old(self).engine_model().insert(
                    key@,
                    val@,
                ),
                Err(_) => final(self).engine_model() == old(self).engine_model(),
            },
    ;

    /// Removes a key, handing it back; exactly the absent keys fail with
    /// `DoesNotExist`, and on failure the contents are unchanged.
    fn remove(&mut self, key: String) -> (r: Result<String, Error>)
        requires
            old(self).engine_inv(),
        ensures
            final(self).engine_inv(),
            match r {
                Ok(k) => k@ == key@ && old(self).engine_model().dom().contains(key@)
                    && final(self).engine_model() == old(self).engine_model().remove(key@),
                Err(e) => final(self).engine_model() == old(self).engine_model() && (e matches
                    Error::DoesNotExist { .. } <==> !old(self).engine_model().dom().contains(
                    key@,
                )) && (match e {
                    Error::DoesNotExist { key: k2 } => k2@ == key@,
                    _ => true,
                }),
            },
    ;
}

impl KvsEngine for KvStore {
    open spec fn engine_inv(&self) -> bool {
        self.wf()
    }

    open spec fn engine_model(&self) -> Map<Seq<char>, Seq<char>> {
        self.model()
    }

    fn get(&self, key: String) -> (r: Result<Option<String>, Error>) {
        KvStore::get(self, key)
    }

    fn set(&mut self, key: String, val: String) -> (r: Result<(), Error>) {
        KvStore::set(self, key, val)
    }

    fn remove(&mut self, key: String) -> (r: Result<String, Error>) {
        KvStore::remove(self, key)
    }
}

/// Serves one decoded request and builds the response: the value for a
/// read, `None` for a completed write or removal, or the error's
/// message.  An absent key reads as `None` but fails a removal with the
/// message `Key not found`.
pub fn handle_request<E: KvsEngine>(engine: &mut E, req: Request) -> (resp: Response)
    requires
        old(engine).engine_inv(),
    ensures
        final(engine).engine_inv(),
        match req@ {
            RequestView::Get { key } => {
                &&& final(engine).engine_model() == old(engine).engine_model()
                &&& match resp@ {
                    ResponseView::Value(Some(v)) => old(engine).engine_model().dom().contains(
                        key,
                    ) && v == old(engine).engine_model()[key],
                    ResponseView::Value(None) => !old(engine).engine_model().dom().contains(key),
                    ResponseView::Failure(_) => true,
                }
            },
            RequestView::Put { key, val } => {
                match resp@ {
                    ResponseView::Value(o) => o is None && final(engine).engine_model()
                        == old(engine).engine_model().insert(key, val),
                    ResponseView::Failure(_) => final(engine).engine_model()
                        == old(engine).engine_model(),
                }
            },
            RequestView::Rm { key } => {
                match resp@ {
                    ResponseView::Value(o) => o is None && old(engine).engine_model().dom()
                        .contains(key) && final(engine).engine_model()
                        == old(engine).engine_model().remove(key),
                    ResponseView::Failure(m) => final(engine).engine_model()
                        == old(engine).engine_model() && (!old(engine).engine_model().dom()
                        .contains(key) ==> m == "Key not found"@),
                }
            },
        },
{
    match req {
        Request::Get { key } => {
            match engine.get(key) {
                Ok(v) => Response::Value(v),
                Err(e) => Response::Failure(e.message()),
            }
        },
        Request::Put { key, val } => {
            match engine.set(key, val) {
                Ok(_) => Response::Value(None),
                Err(e) => Response::Failure(e.message()),
            }
        },
        Request::Rm { key } => {
            match engine.remove(key) {
                Ok(_) => Response::Value(None),
                Err(e) => Response::Failure(e.message()),
            }
        },
    }
}

} // verus!
