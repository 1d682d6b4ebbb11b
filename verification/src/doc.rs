//! The room's shared mergeable document.
//!
//! The engine behind it is the yrs CRDT; this module treats it as opaque and
//! models a document by the history of update blobs applied to it, in order.
//! Merging is commutative and idempotent inside the engine; what the library
//! proves about callers is phrased over the applied history alone.

use vstd::prelude::*;

verus! {

/// The CRDT engine's document handle, opaque to the library.
#[verifier::external_type_specification]
#[verifier::external_body]
pub struct ExDoc(yrs::Doc);

/// The CRDT engine's decoded update, opaque to the library.
#[verifier::external_type_specification]
#[verifier::external_body]
pub struct ExUpdate(yrs::Update);

/// An update blob was rejected by the document engine, or the engine's
/// transaction could not be acquired.
#[derive(Clone, Copy, Debug, PartialEq, Eq, Structural)]
pub struct DocError;

/// Relies on yrs::Doc::new: a fresh, empty document.
#[verifier::external_body]
fn doc_new() -> yrs::Doc {
    yrs::Doc::new()
}

/// Relies on yrs::Doc::get_or_insert_map: registers the named root map on the
/// document, creating it when absent.
#[verifier::external_body]
fn doc_init_root_map(doc: &yrs::Doc, name: &str) {
    let _ = doc.get_or_insert_map(name);
}

/// Relies on yrs::Update::decode_v1 (via yrs::updates::decoder::Decode):
/// decodes an update blob, failing on malformed input.
#[verifier::external_body]
fn decode_update(bytes: &[u8]) -> Result<yrs::Update, DocError> {
    <yrs::Update as yrs::updates::decoder::Decode>::decode_v1(bytes).map_err(|_| DocError)
}

/// Relies on yrs::TransactionMut::apply_update (acquired through
/// yrs::Transact::try_transact_mut): merges one decoded update into the
/// document.
#[verifier::external_body]
fn apply_decoded(doc: &mut yrs::Doc, update: yrs::Update) -> Result<(), DocError> {
    let mut txn = yrs::Transact::try_transact_mut(doc).map_err(|_| DocError)?;
    txn.apply_update(update).map_err(|_| DocError)
}

/// Relies on yrs::ReadTxn::encode_diff_v1 (acquired through
/// yrs::Transact::try_transact) against the default state vector: encodes the
/// document's full current state as one update blob.
#[verifier::external_body]
fn encode_full_state(doc: &yrs::Doc) -> Result<Vec<u8>, DocError> {
    let txn = yrs::Transact::try_transact(doc).map_err(|_| DocError)?;
    Ok(yrs::ReadTxn::encode_diff_v1(&txn, &yrs::StateVector::default()))
}

/// One room's mergeable document, modelled by the ordered history of update
/// blobs successfully applied to it.
pub struct RoomDoc {
    inner: yrs::Doc,
    applied: Ghost<Seq<Seq<u8>>>,
}

impl RoomDoc {
    /// The update blobs applied so far, oldest first.
    pub closed spec fn history(self) -> Seq<Seq<u8>> {
        self.applied@
    }

    /// A fresh document with the room's root map registered and nothing
    /// applied.
    pub fn new() -> (r: Self)
        ensures
            r.history() == Seq::<Seq<u8>>::empty(),
    {
        let inner = doc_new();
        doc_init_root_map(&inner, "shapes");
        Self { inner, applied: Ghost(Seq::empty()) }
    }

    /// Merge one update blob into the document. Both snapshot and delta blobs
    /// are applied the same way. A blob the engine rejects leaves the history
    /// unchanged and is reported to the caller.
    pub fn apply(&mut self, update: &Vec<u8>) -> (r: Result<(), DocError>)
        ensures
            r is Ok ==> final(self).history() == old(self).history().push(update@),
            r is Err ==> final(self).history() == old(self).history(),
    {
        let decoded = match decode_update(update.as_slice()) {
            Ok(u) => u,
            Err(e) => {
                return Err(e);
            },
        };
        match apply_decoded(&mut self.inner, decoded) {
            Ok(_) => {
                proof {
                    self.applied@ = self.applied@.push(update@);
                }
                Ok(())
            },
            Err(e) => Err(e),
        }
    }

    /// Encode the document's full current state as one update blob, suitable
    /// as the payload of an initial snapshot. The bytes come from the engine;
    /// nothing is claimed of them.
    pub fn encode_snapshot(&self) -> (r: Result<Vec<u8>, DocError>) {
        encode_full_state(&self.inner)
    }
}

} // verus!
