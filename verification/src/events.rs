//! Mutation requests, response events, and the event processor: apply a
//! request to the store and derive the response to announce.

use crate::codec;
use crate::model::{CreateTalk, TalkType};
use crate::registry::{live_senders, ClientRegistry, Sender};
use crate::store::{spec_set_visible, TalkStore};
use vstd::prelude::*;

verus! {

/// A mutation request, decoded from one inbound text frame of an
/// authenticated connection.
#[derive(Debug, Clone, PartialEq)]
pub enum EventRequest {
    Create { name: String, talk_type: TalkType, desc: String },
    Hide { id: i32 },
}

/// The mathematical shape of a request: strings as character sequences,
/// the id as an unbounded integer.
pub enum RequestView {
    Create { name: Seq<char>, talk_type: TalkType, desc: Seq<char> },
    Hide { id: int },
}

impl View for EventRequest {
    type V = RequestView;

    open spec fn view(&self) -> RequestView {
        match self {
            EventRequest::Create { name, talk_type, desc } => RequestView::Create {
                name: name@,
                talk_type: *talk_type,
                desc: desc@,
            },
            EventRequest::Hide { id } => RequestView::Hide { id: *id as int },
        }
    }
}

/// The response the processor derives from one request.
///
/// `NOP` means "processed, nothing to announce": it is produced when the
/// store fails a request, and it is never put on the wire.
#[derive(Debug, Clone, PartialEq)]
pub enum EventResponse {
    Show { id: i32, name: String, talk_type: TalkType, description: String },
    Hide { id: i32 },
    NOP,
}

/// The mathematical shape of a response.
pub enum ResponseView {
    Show { id: int, name: Seq<char>, talk_type: TalkType, description: Seq<char> },
    Hide { id: int },
    NOP,
}

impl View for EventResponse {
    type V = ResponseView;

    open spec fn view(&self) -> ResponseView {
        match self {
            EventResponse::Show { id, name, talk_type, description } => ResponseView::Show {
                id: *id as int,
                name: name@,
                talk_type: *talk_type,
                description: description@,
            },
            EventResponse::Hide { id } => ResponseView::Hide { id: *id as int },
            EventResponse::NOP => ResponseView::NOP,
        }
    }
}

/// The response the processor owes for `req` against a store whose next
/// fresh id is `next_id`: a `Create` is announced as `Show` under the id
/// the store assigns, unless the store cannot create (id space spent),
/// which is absorbed into `NOP`; a `Hide` is always announced back as
/// `Hide`, whether or not the store held the id.
pub open spec fn spec_response(req: RequestView, next_id: int) -> ResponseView {
    match req {
        RequestView::Create { name, talk_type, desc } => {
            if next_id < i32::MAX {
                ResponseView::Show { id: next_id, name, talk_type, description: desc }
            } else {
                ResponseView::NOP
            }
        },
        RequestView::Hide { id } => ResponseView::Hide { id },
    }
}

/// How the store moves under one request: a `Create` files a new visible
/// card under the next fresh id; a `Hide` hides the named card if it is
/// held. These clauses pin every field of the new card.
pub open spec fn store_moved(req: RequestView, pre: &TalkStore, post: &TalkStore) -> bool {
    match req {
        RequestView::Create { name, talk_type, desc } => {
            if pre.spec_next_id() < i32::MAX {
                &&& post@.len() == pre@.len() + 1
                &&& post@.take(pre@.len() as int) == pre@
                &&& post@.last().id == pre.spec_next_id()
                &&& post@.last().name@ == name
                &&& post@.last().talk_type == talk_type
                &&& post@.last().description@ == desc
                &&& post@.last().is_visible
                &&& post.spec_next_id() == pre.spec_next_id() + 1
            } else {
                post@ == pre@ && post.spec_next_id() == pre.spec_next_id()
            }
        },
        RequestView::Hide { id } => {
            &&& i32::MIN <= id <= i32::MAX
            &&& post@ == spec_set_visible(pre@, id as i32, false)
            &&& post.spec_next_id() == pre.spec_next_id()
        },
    }
}

/// Applies one mutation request to the store and derives the response.
///
/// A `Create` files a new visible card and announces it with `Show`; if
/// the store fails the creation, the request is dropped - not retried -
/// and the `NOP` response suppresses any announcement. A `Hide` hides
/// the card and always announces `Hide`: hiding an id the store does not
/// hold is a no-op success, never a `NOP`, because the store's hide
/// cannot fail.
pub fn process_event(event: EventRequest, db: &mut TalkStore) -> (r: EventResponse)
    requires
        old(db).wf(),
    ensures
        final(db).wf(),
        r@ == spec_response(event@, old(db).spec_next_id() as int),
        store_moved(event@, old(db), final(db)),
{
    match event {
        EventRequest::Create { name, talk_type, desc } => {
            let ghost pre = *old(db);
            let card = CreateTalk {
                name: name.clone(),
                talk_type,
                description: desc.clone(),
                is_visible: true,
            };
            match db.create_talk(card) {
                Ok(id) => {
                    proof {
                        assert(db@.take(pre@.len() as int) =~= pre@);
                    }
                    EventResponse::Show { id, name, talk_type, description: desc }
                },
                Err(_) => EventResponse::NOP,
            }
        },
        EventRequest::Hide { id } => {
            match db.hide_talk(id) {
                Ok(_) => EventResponse::Hide { id },
                Err(_) => EventResponse::NOP,
            }
        },
    }
}

/// Plans the fan-out of one response: encodes it once and takes a
/// snapshot of every live outbound handle, for the transport layer to
/// deliver to, fire-and-forget. A `NOP` is filtered here, before it can
/// reach any wire; nothing is encoded and nobody is written to.
pub fn send_events(clients: &ClientRegistry, event: &EventResponse) -> (r: Option<
    (String, Vec<Sender>),
>)
    requires
        clients.wf(),
    ensures
        r is Some <==> !(event@ is NOP),
        r matches Some(p) ==> p.0@ == codec::spec_encode_response(event@) && p.1@ == live_senders(
            clients@,
        ),
{
    match codec::encode_response(event) {
        Some(msg) => Some((msg, clients.snapshot_live_senders())),
        None => None,
    }
}

} // verus!
