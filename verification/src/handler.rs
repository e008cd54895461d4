//! The per-connection decision path: what one inbound text frame does,
//! as one call.
//!
//! [`handle_frame`] chains the authentication gate, the decode, the
//! event processor and the broadcast plan; the transport layer decides
//! nothing, and only writes the planned message to each handle of the
//! returned snapshot. Binding a socket is
//! [`crate::registry::ClientRegistry::attach_sender`]; the close path is
//! [`crate::registry::ClientRegistry::remove`].

use crate::codec;
use crate::events::{process_event, send_events, spec_response, store_moved};
use crate::registry::{live_senders, spec_is_authenticated, ClientRegistry, Sender};
use crate::store::TalkStore;
use vstd::prelude::*;

verus! {

/// Handles one inbound text frame from connection `id`.
///
/// The frame is acted on only when the connection is authenticated at
/// this moment; a frame from anyone else is dropped with no store
/// mutation and no broadcast, and so is a frame that does not decode.
/// An accepted request moves the store as the processor dictates, and
/// the result is an encoded response together with the snapshot of live
/// handles to deliver it to - unless the response is `NOP`, which never
/// goes out.
pub fn handle_frame(clients: &ClientRegistry, id: u64, text: &str, db: &mut TalkStore) -> (r:
    Option<(String, Vec<Sender>)>)
    requires
        clients.wf(),
        old(db).wf(),
    ensures
        final(db).wf(),
        !spec_is_authenticated(clients@, id) ==> r is None && final(db)@ == old(db)@
            && final(db).spec_next_id() == old(db).spec_next_id(),
        spec_is_authenticated(clients@, id) ==> match codec::spec_decode_request(text@) {
            None => r is None && final(db)@ == old(db)@
                && final(db).spec_next_id() == old(db).spec_next_id(),
            Some(req) => {
                let resp = spec_response(req, old(db).spec_next_id() as int);
                &&& store_moved(req, old(db), final(db))
                &&& (resp is NOP ==> r is None)
                &&& (!(resp is NOP) ==> (r matches Some(p) && p.0@
                    == codec::spec_encode_response(resp) && p.1@ == live_senders(clients@)))
            },
        },
{
    if !clients.is_authenticated(id) {
        return None;
    }
    match codec::decode_request(text) {
        Some(event) => {
            let response = process_event(event, db);
            send_events(clients, &response)
        },
        None => None,
    }
}

} // verus!
