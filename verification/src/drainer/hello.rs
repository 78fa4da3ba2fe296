//! The handshake that opens a session, and what is announced after it.

use super::PeerError;
use crate::context::TorrentCtx;
use crate::wire::{announces, availability_message, AuthPayload, Message};

use vstd::prelude::*;
use vstd::string::*;

verus! {

/// What came back to a hello.
#[derive(Debug)]
pub enum HelloReply {
    /// A message.
    Message(Message),
    /// The connection failed, for the reason given.
    Failed(String),
    /// The peer closed the stream.
    Closed,
    /// Nothing in time.
    TimedOut,
}

/// The hello that opens a session on the torrent `info_hash`.
pub fn hello(version: u32, peer_id: [u8; 32], info_hash: [u8; 32]) -> (msg: Message)
    ensures
        msg == (Message::Hello { version, peer_id, info_hash, auth: AuthPayload::Absent }),
{
    Message::Hello { version, peer_id, info_hash, auth: AuthPayload::Absent }
}

/// `err` is what a hello answered by `reply` fails with.
pub open spec fn hello_error(reply: HelloReply, err: PeerError) -> bool {
    match reply {
        HelloReply::Message(Message::HelloAck { accepted, reason }) => {
            &&& err is HelloRejected
            &&& err->HelloRejected_0@ == (match reason {
                Some(r) => r@,
                None => Seq::<char>::empty(),
            })
        },
        HelloReply::Message(_) => err is HelloUnexpected,
        HelloReply::Failed(why) => err == PeerError::Connection(why),
        HelloReply::Closed => err is HelloClosed,
        HelloReply::TimedOut => err is HelloTimeout,
    }
}

/// The peer has accepted the session.
pub open spec fn hello_accepted(reply: HelloReply) -> bool {
    match reply {
        HelloReply::Message(Message::HelloAck { accepted, reason }) => accepted,
        _ => false,
    }
}

/// Decides whether the session goes on after `reply`: only when the peer accepted it.
pub fn check_hello(reply: HelloReply) -> (r: Result<(), PeerError>)
    ensures
        r is Ok <==> hello_accepted(reply),
        r matches Err(e) ==> hello_error(reply, e),
{
    match reply {
        HelloReply::Message(Message::HelloAck { accepted, reason }) => {
            if accepted {
                Ok(())
            } else {
                let text: String = match reason {
                    Some(r) => r,
                    None => String::new(),
                };
                Err(PeerError::HelloRejected(text))
            }
        },
        HelloReply::Message(_) => Err(PeerError::HelloUnexpected),
        HelloReply::Failed(why) => Err(PeerError::Connection(why)),
        HelloReply::Closed => Err(PeerError::HelloClosed),
        HelloReply::TimedOut => Err(PeerError::HelloTimeout),
    }
}

/// A session goes on exactly when the answer is an acknowledgement that accepts it. One that does
/// not accept it gives its reason, or none; any other message is unexpected; silence, a closed
/// stream and a failed connection are told apart.
pub proof fn law_answers_to_hello(reply: HelloReply, err: PeerError)
    requires
        hello_error(reply, err),
    ensures
        hello_accepted(reply) ==> reply matches HelloReply::Message(
            Message::HelloAck { accepted: true, .. },
        ),
        reply matches HelloReply::Message(Message::HelloAck { accepted, reason }) ==> {
            &&& hello_accepted(reply) <==> accepted
            &&& err matches PeerError::HelloRejected(text) && match reason {
                Some(r) => text@ == r@,
                None => text@.len() == 0,
            }
        },
        (reply matches HelloReply::Message(msg) && !(msg is HelloAck)) ==> err is HelloUnexpected
            && !hello_accepted(reply),
        reply matches HelloReply::Failed(why) ==> err == PeerError::Connection(why)
            && !hello_accepted(reply),
        reply is Closed ==> err is HelloClosed && !hello_accepted(reply),
        reply is TimedOut ==> err is HelloTimeout && !hello_accepted(reply),
{
}

/// What an error says: the peer's reason follows a fixed opening, and a failed connection speaks
/// for itself.
pub proof fn law_words_of_errors(reason: String)
    ensures
        PeerError::HelloRejected(reason).words() == "hello rejected: "@ + reason@,
        PeerError::Connection(reason).words() == reason@,
        PeerError::HelloTimeout.words() == "hello ack timeout"@,
        PeerError::HelloClosed.words() == "disconnected during hello"@,
        PeerError::HelloUnexpected.words() == "expected HelloAck"@,
        PeerError::AllStreamsDead.words() == "all data streams dead"@,
{
}

impl PeerError {
    /// The error in words.
    pub open spec fn words(self) -> Seq<char> {
        match self {
            PeerError::HelloTimeout => "hello ack timeout"@,
            PeerError::HelloClosed => "disconnected during hello"@,
            PeerError::HelloRejected(reason) => "hello rejected: "@ + reason@,
            PeerError::HelloUnexpected => "expected HelloAck"@,
            PeerError::Connection(why) => why@,
            PeerError::AllStreamsDead => "all data streams dead"@,
        }
    }

    /// The error in words.
    pub fn text(&self) -> (s: String)
        ensures
            s@ == self.words(),
    {
        match self {
            PeerError::HelloTimeout => "hello ack timeout".to_owned(),
            PeerError::HelloClosed => "disconnected during hello".to_owned(),
            PeerError::HelloRejected(reason) => {
                let mut s: String = "hello rejected: ".to_owned();
                s.append(reason.as_str());
                s
            },
            PeerError::HelloUnexpected => "expected HelloAck".to_owned(),
            PeerError::Connection(why) => why.clone(),
            PeerError::AllStreamsDead => "all data streams dead".to_owned(),
        }
    }
}

/// The messages that tell a peer what is there of every file, in the order of the files.
pub fn our_bitfields(ctx: &TorrentCtx) -> (msgs: Vec<Message>)
    requires
        ctx.wf(),
    ensures
        msgs@.len() == ctx@.have.len(),
        forall|fi: int|
            #![trigger msgs@[fi]]
            0 <= fi < msgs@.len() ==> announces(msgs@[fi], fi as usize, ctx@.have[fi]),
{
    let mut msgs: Vec<Message> = Vec::new();
    let mut fi: usize = 0;
    while fi < ctx.schedulers.len()
        invariant
            ctx.wf(),
            fi <= ctx@.have.len(),
            msgs@.len() == fi,
            forall|f: int|
                #![trigger msgs@[f]]
                0 <= f < fi ==> announces(msgs@[f], f as usize, ctx@.have[f]),
        decreases ctx@.have.len() - fi,
    {
        let bits: Vec<bool> = ctx.our_bitfield(fi);
        msgs.push(availability_message(fi, bits));
        fi = fi + 1;
    }
    msgs
}

} // verus!
