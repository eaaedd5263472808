//! The typed message model: the closed, per-direction command
//! vocabulary with typed fields, and the lossless mapping between
//! frames and messages.

use vstd::prelude::*;

use crate::frame::{
    cl_name, dec_of, dec_val, find_byte, first_val, has_name, is_dec, is_digit, remove_first,
    Command, Frame, FrameModel,
};

verus! {

/// Acknowledgement mode a subscription may ask for.
#[derive(Clone, Copy, PartialEq, Eq, Structural, Debug)]
pub enum AckMode {
    Auto,
    Client,
    ClientIndividual,
}

/// A client-bound or server-bound header list.
pub type Headers = Vec<(Vec<u8>, Vec<u8>)>;

/// Messages a client sends to the server.
#[derive(Debug, PartialEq, Eq)]
pub enum ToServer {
    Connect {
        accept_version: Vec<u8>,
        host: Vec<u8>,
        login: Option<Vec<u8>>,
        passcode: Option<Vec<u8>>,
        heartbeat: Option<(u32, u32)>,
        headers: Headers,
    },
    Send { destination: Vec<u8>, headers: Headers, body: Option<Vec<u8>> },
    Subscribe { destination: Vec<u8>, id: Vec<u8>, ack: Option<AckMode>, headers: Headers },
    Unsubscribe { id: Vec<u8>, headers: Headers },
    Ack { id: Vec<u8>, headers: Headers },
    Nack { id: Vec<u8>, headers: Headers },
    Begin { transaction: Vec<u8>, headers: Headers },
    Commit { transaction: Vec<u8>, headers: Headers },
    Abort { transaction: Vec<u8>, headers: Headers },
    Disconnect { headers: Headers },
}

/// Messages the server sends to a client.
#[derive(Debug, PartialEq, Eq)]
pub enum FromServer {
    Connected { version: Vec<u8>, headers: Headers },
    Message {
        destination: Vec<u8>,
        message_id: Vec<u8>,
        subscription: Vec<u8>,
        headers: Headers,
        body: Option<Vec<u8>>,
    },
    Receipt { receipt_id: Vec<u8>, headers: Headers },
    Error { message: Option<Vec<u8>>, headers: Headers, body: Option<Vec<u8>> },
}

/// Mathematical model of a header list.
pub type HeadersModel = Seq<(Seq<u8>, Seq<u8>)>;

/// Mathematical model of [`ToServer`].
#[verifier::ext_equal]
pub enum ToServerModel {
    Connect {
        accept_version: Seq<u8>,
        host: Seq<u8>,
        login: Option<Seq<u8>>,
        passcode: Option<Seq<u8>>,
        heartbeat: Option<(u32, u32)>,
        headers: HeadersModel,
    },
    Send { destination: Seq<u8>, headers: HeadersModel, body: Option<Seq<u8>> },
    Subscribe { destination: Seq<u8>, id: Seq<u8>, ack: Option<AckMode>, headers: HeadersModel },
    Unsubscribe { id: Seq<u8>, headers: HeadersModel },
    Ack { id: Seq<u8>, headers: HeadersModel },
    Nack { id: Seq<u8>, headers: HeadersModel },
    Begin { transaction: Seq<u8>, headers: HeadersModel },
    Commit { transaction: Seq<u8>, headers: HeadersModel },
    Abort { transaction: Seq<u8>, headers: HeadersModel },
    Disconnect { headers: HeadersModel },
}

/// Mathematical model of [`FromServer`].
#[verifier::ext_equal]
pub enum FromServerModel {
    Connected { version: Seq<u8>, headers: HeadersModel },
    Message {
        destination: Seq<u8>,
        message_id: Seq<u8>,
        subscription: Seq<u8>,
        headers: HeadersModel,
        body: Option<Seq<u8>>,
    },
    Receipt { receipt_id: Seq<u8>, headers: HeadersModel },
    Error { message: Option<Seq<u8>>, headers: HeadersModel, body: Option<Seq<u8>> },
}

impl View for ToServer {
    type V = ToServerModel;

    open spec fn view(&self) -> ToServerModel {
        match self {
            ToServer::Connect { accept_version, host, login, passcode, heartbeat, headers } => {
                ToServerModel::Connect {
                    accept_version: accept_version@,
                    host: host@,
                    login: login.deep_view(),
                    passcode: passcode.deep_view(),
                    heartbeat: *heartbeat,
                    headers: headers.deep_view(),
                }
            },
            ToServer::Send { destination, headers, body } => ToServerModel::Send {
                destination: destination@,
                headers: headers.deep_view(),
                body: body.deep_view(),
            },
            ToServer::Subscribe { destination, id, ack, headers } => ToServerModel::Subscribe {
                destination: destination@,
                id: id@,
                ack: *ack,
                headers: headers.deep_view(),
            },
            ToServer::Unsubscribe { id, headers } => ToServerModel::Unsubscribe {
                id: id@,
                headers: headers.deep_view(),
            },
            ToServer::Ack { id, headers } => ToServerModel::Ack {
                id: id@,
                headers: headers.deep_view(),
            },
            ToServer::Nack { id, headers } => ToServerModel::Nack {
                id: id@,
                headers: headers.deep_view(),
            },
            ToServer::Begin { transaction, headers } => ToServerModel::Begin {
                transaction: transaction@,
                headers: headers.deep_view(),
            },
            ToServer::Commit { transaction, headers } => ToServerModel::Commit {
                transaction: transaction@,
                headers: headers.deep_view(),
            },
            ToServer::Abort { transaction, headers } => ToServerModel::Abort {
                transaction: transaction@,
                headers: headers.deep_view(),
            },
            ToServer::Disconnect { headers } => ToServerModel::Disconnect {
                headers: headers.deep_view(),
            },
        }
    }
}

impl View for FromServer {
    type V = FromServerModel;

    open spec fn view(&self) -> FromServerModel {
        match self {
            FromServer::Connected { version, headers } => FromServerModel::Connected {
                version: version@,
                headers: headers.deep_view(),
            },
            FromServer::Message { destination, message_id, subscription, headers, body } => {
                FromServerModel::Message {
                    destination: destination@,
                    message_id: message_id@,
                    subscription: subscription@,
                    headers: headers.deep_view(),
                    body: body.deep_view(),
                }
            },
            FromServer::Receipt { receipt_id, headers } => FromServerModel::Receipt {
                receipt_id: receipt_id@,
                headers: headers.deep_view(),
            },
            FromServer::Error { message, headers, body } => FromServerModel::Error {
                message: message.deep_view(),
                headers: headers.deep_view(),
                body: body.deep_view(),
            },
        }
    }
}

/// A typed message together with the wire headers no typed field models.
#[derive(Debug, PartialEq, Eq)]
pub struct Message<T> {
    pub content: T,
    pub extra_headers: Headers,
}

/// Mathematical model of a [`Message`].
#[verifier::ext_equal]
pub struct MessageModel<C> {
    pub content: C,
    pub extra_headers: HeadersModel,
}

impl<T: View> View for Message<T> {
    type V = MessageModel<T::V>;

    open spec fn view(&self) -> MessageModel<T::V> {
        MessageModel { content: self.content.view(), extra_headers: self.extra_headers.deep_view() }
    }
}

/// Why a well-formed frame could not be mapped to a typed message.
#[derive(Clone, Copy, PartialEq, Eq, Structural, Debug)]
pub enum MapError {
    /// The command does not belong to this direction's vocabulary.
    WrongDirection,
    /// A protocol-required header is absent.
    MissingHeader,
    /// A required or recognised header holds an unusable value, such as
    /// a non-integer `content-length` or a malformed `heart-beat`.
    MalformedHeader,
}

// canonical header names
pub open spec fn hn_accept_version() -> Seq<u8> {
    // accept-version
    seq![97u8, 99, 99, 101, 112, 116, 45, 118, 101, 114, 115, 105, 111, 110]
}

pub open spec fn hn_host() -> Seq<u8> {
    // host
    seq![104u8, 111, 115, 116]
}

pub open spec fn hn_login() -> Seq<u8> {
    // login
    seq![108u8, 111, 103, 105, 110]
}

pub open spec fn hn_passcode() -> Seq<u8> {
    // passcode
    seq![112u8, 97, 115, 115, 99, 111, 100, 101]
}

pub open spec fn hn_heart_beat() -> Seq<u8> {
    // heart-beat
    seq![104u8, 101, 97, 114, 116, 45, 98, 101, 97, 116]
}

pub open spec fn hn_destination() -> Seq<u8> {
    // destination
    seq![100u8, 101, 115, 116, 105, 110, 97, 116, 105, 111, 110]
}

pub open spec fn hn_transaction() -> Seq<u8> {
    // transaction
    seq![116u8, 114, 97, 110, 115, 97, 99, 116, 105, 111, 110]
}

pub open spec fn hn_id() -> Seq<u8> {
    // id
    seq![105u8, 100]
}

pub open spec fn hn_ack() -> Seq<u8> {
    // ack
    seq![97u8, 99, 107]
}

pub open spec fn hn_version() -> Seq<u8> {
    // version
    seq![118u8, 101, 114, 115, 105, 111, 110]
}

pub open spec fn hn_message_id() -> Seq<u8> {
    // message-id
    seq![109u8, 101, 115, 115, 97, 103, 101, 45, 105, 100]
}

pub open spec fn hn_subscription() -> Seq<u8> {
    // subscription
    seq![115u8, 117, 98, 115, 99, 114, 105, 112, 116, 105, 111, 110]
}

pub open spec fn hn_receipt_id() -> Seq<u8> {
    // receipt-id
    seq![114u8, 101, 99, 101, 105, 112, 116, 45, 105, 100]
}

pub open spec fn hn_message() -> Seq<u8> {
    // message
    seq![109u8, 101, 115, 115, 97, 103, 101]
}

/// The wire spelling of an acknowledgement mode.
pub open spec fn ack_render(a: AckMode) -> Seq<u8> {
    match a {
        // auto
        AckMode::Auto => seq![97u8, 117, 116, 111],
        // client
        AckMode::Client => seq![99u8, 108, 105, 101, 110, 116],
        // client-individual
        AckMode::ClientIndividual => seq![
            99u8,
            108,
            105,
            101,
            110,
            116,
            45,
            105,
            110,
            100,
            105,
            118,
            105,
            100,
            117,
            97,
            108,
        ],
    }
}

/// The wire spelling of a heart-beat pair.
pub open spec fn hb_render(a: u32, b: u32) -> Seq<u8> {
    dec_of(a as nat) + seq![44u8] + dec_of(b as nat)
}

/// One optional canonical header.
pub open spec fn opt_hdr(name: Seq<u8>, v: Option<Seq<u8>>) -> HeadersModel {
    match v {
        Some(x) => seq![(name, x)],
        None => Seq::empty(),
    }
}

/// The optional canonical heart-beat header.
pub open spec fn hb_hdr(hb: Option<(u32, u32)>) -> HeadersModel {
    match hb {
        Some(p) => seq![(hn_heart_beat(), hb_render(p.0, p.1))],
        None => Seq::empty(),
    }
}

/// The optional canonical ack header.
pub open spec fn ack_hdr(a: Option<AckMode>) -> HeadersModel {
    match a {
        Some(m) => seq![(hn_ack(), ack_render(m))],
        None => Seq::empty(),
    }
}

/// The canonical headers a client-bound message renders, in their
/// stable protocol order, before the unmodelled headers.
pub open spec fn to_server_canon(c: ToServerModel) -> HeadersModel {
    match c {
        ToServerModel::Connect { accept_version, host, login, passcode, heartbeat, .. } => seq![
            (hn_accept_version(), accept_version),
            (hn_host(), host),
        ] + opt_hdr(hn_login(), login) + opt_hdr(hn_passcode(), passcode) + hb_hdr(heartbeat),
        ToServerModel::Send { destination, .. } => seq![(hn_destination(), destination)],
        ToServerModel::Subscribe { destination, id, ack, .. } => seq![
            (hn_destination(), destination),
            (hn_id(), id),
        ] + ack_hdr(ack),
        ToServerModel::Unsubscribe { id, .. } => seq![(hn_id(), id)],
        ToServerModel::Ack { id, .. } => seq![(hn_id(), id)],
        ToServerModel::Nack { id, .. } => seq![(hn_id(), id)],
        ToServerModel::Begin { transaction, .. } => seq![(hn_transaction(), transaction)],
        ToServerModel::Commit { transaction, .. } => seq![(hn_transaction(), transaction)],
        ToServerModel::Abort { transaction, .. } => seq![(hn_transaction(), transaction)],
        ToServerModel::Disconnect { .. } => Seq::empty(),
    }
}

/// The unmodelled headers a client-bound message carries.
pub open spec fn to_server_extra(c: ToServerModel) -> HeadersModel {
    match c {
        ToServerModel::Connect { headers, .. } => headers,
        ToServerModel::Send { headers, .. } => headers,
        ToServerModel::Subscribe { headers, .. } => headers,
        ToServerModel::Unsubscribe { headers, .. } => headers,
        ToServerModel::Ack { headers, .. } => headers,
        ToServerModel::Nack { headers, .. } => headers,
        ToServerModel::Begin { headers, .. } => headers,
        ToServerModel::Commit { headers, .. } => headers,
        ToServerModel::Abort { headers, .. } => headers,
        ToServerModel::Disconnect { headers, .. } => headers,
    }
}

/// The body a client-bound message carries.
pub open spec fn to_server_body(c: ToServerModel) -> Option<Seq<u8>> {
    match c {
        ToServerModel::Send { body, .. } => body,
        _ => None,
    }
}

/// The command a client-bound message renders.
pub open spec fn to_server_cmd(c: ToServerModel) -> Command {
    match c {
        ToServerModel::Connect { .. } => Command::Connect,
        ToServerModel::Send { .. } => Command::Send,
        ToServerModel::Subscribe { .. } => Command::Subscribe,
        ToServerModel::Unsubscribe { .. } => Command::Unsubscribe,
        ToServerModel::Ack { .. } => Command::Ack,
        ToServerModel::Nack { .. } => Command::Nack,
        ToServerModel::Begin { .. } => Command::Begin,
        ToServerModel::Commit { .. } => Command::Commit,
        ToServerModel::Abort { .. } => Command::Abort,
        ToServerModel::Disconnect { .. } => Command::Disconnect,
    }
}

/// The frame a client-bound message maps to: fixed command, canonical
/// headers in stable order, the unmodelled headers, then the caller's
/// extra headers, body copied through.
pub open spec fn to_server_frame(m: MessageModel<ToServerModel>) -> FrameModel {
    FrameModel {
        command: to_server_cmd(m.content),
        headers: to_server_canon(m.content) + to_server_extra(m.content) + m.extra_headers,
        body: to_server_body(m.content),
    }
}

/// The canonical headers a server-bound message renders.
pub open spec fn from_server_canon(c: FromServerModel) -> HeadersModel {
    match c {
        FromServerModel::Connected { version, .. } => seq![(hn_version(), version)],
        FromServerModel::Message { destination, message_id, subscription, .. } => seq![
            (hn_destination(), destination),
            (hn_message_id(), message_id),
            (hn_subscription(), subscription),
        ],
        FromServerModel::Receipt { receipt_id, .. } => seq![(hn_receipt_id(), receipt_id)],
        FromServerModel::Error { message, .. } => opt_hdr(hn_message(), message),
    }
}

/// The unmodelled headers a server-bound message carries.
pub open spec fn from_server_extra(c: FromServerModel) -> HeadersModel {
    match c {
        FromServerModel::Connected { headers, .. } => headers,
        FromServerModel::Message { headers, .. } => headers,
        FromServerModel::Receipt { headers, .. } => headers,
        FromServerModel::Error { headers, .. } => headers,
    }
}

/// The body a server-bound message carries.
pub open spec fn from_server_body(c: FromServerModel) -> Option<Seq<u8>> {
    match c {
        FromServerModel::Message { body, .. } => body,
        FromServerModel::Error { body, .. } => body,
        _ => None,
    }
}

/// The command a server-bound message renders.
pub open spec fn from_server_cmd(c: FromServerModel) -> Command {
    match c {
        FromServerModel::Connected { .. } => Command::Connected,
        FromServerModel::Message { .. } => Command::Message,
        FromServerModel::Receipt { .. } => Command::Receipt,
        FromServerModel::Error { .. } => Command::Error,
    }
}

/// The frame a server-bound message maps to.
pub open spec fn from_server_frame(m: MessageModel<FromServerModel>) -> FrameModel {
    FrameModel {
        command: from_server_cmd(m.content),
        headers: from_server_canon(m.content) + from_server_extra(m.content) + m.extra_headers,
        body: from_server_body(m.content),
    }
}

fn hv_accept_version() -> (v: Vec<u8>)
    ensures
        v@ == hn_accept_version(),
{
    let mut v: Vec<u8> = Vec::new();
    v.push(97);
    v.push(99);
    v.push(99);
    v.push(101);
    v.push(112);
    v.push(116);
    v.push(45);
    v.push(118);
    v.push(101);
    v.push(114);
    v.push(115);
    v.push(105);
    v.push(111);
    v.push(110);
    proof {
        assert(v@ =~= hn_accept_version());
    }
    v
}

fn hv_host() -> (v: Vec<u8>)
    ensures
        v@ == hn_host(),
{
    let mut v: Vec<u8> = Vec::new();
    v.push(104);
    v.push(111);
    v.push(115);
    v.push(116);
    proof {
        assert(v@ =~= hn_host());
    }
    v
}

fn hv_login() -> (v: Vec<u8>)
    ensures
        v@ == hn_login(),
{
    let mut v: Vec<u8> = Vec::new();
    v.push(108);
    v.push(111);
    v.push(103);
    v.push(105);
    v.push(110);
    proof {
        assert(v@ =~= hn_login());
    }
    v
}

fn hv_passcode() -> (v: Vec<u8>)
    ensures
        v@ == hn_passcode(),
{
    let mut v: Vec<u8> = Vec::new();
    v.push(112);
    v.push(97);
    v.push(115);
    v.push(115);
    v.push(99);
    v.push(111);
    v.push(100);
    v.push(101);
    proof {
        assert(v@ =~= hn_passcode());
    }
    v
}

fn hv_heart_beat() -> (v: Vec<u8>)
    ensures
        v@ == hn_heart_beat(),
{
    let mut v: Vec<u8> = Vec::new();
    v.push(104);
    v.push(101);
    v.push(97);
    v.push(114);
    v.push(116);
    v.push(45);
    v.push(98);
    v.push(101);
    v.push(97);
    v.push(116);
    proof {
        assert(v@ =~= hn_heart_beat());
    }
    v
}

fn hv_destination() -> (v: Vec<u8>)
    ensures
        v@ == hn_destination(),
{
    let mut v: Vec<u8> = Vec::new();
    v.push(100);
    v.push(101);
    v.push(115);
    v.push(116);
    v.push(105);
    v.push(110);
    v.push(97);
    v.push(116);
    v.push(105);
    v.push(111);
    v.push(110);
    proof {
        assert(v@ =~= hn_destination());
    }
    v
}

fn hv_transaction() -> (v: Vec<u8>)
    ensures
        v@ == hn_transaction(),
{
    let mut v: Vec<u8> = Vec::new();
    v.push(116);
    v.push(114);
    v.push(97);
    v.push(110);
    v.push(115);
    v.push(97);
    v.push(99);
    v.push(116);
    v.push(105);
    v.push(111);
    v.push(110);
    proof {
        assert(v@ =~= hn_transaction());
    }
    v
}

fn hv_id() -> (v: Vec<u8>)
    ensures
        v@ == hn_id(),
{
    let mut v: Vec<u8> = Vec::new();
    v.push(105);
    v.push(100);
    proof {
        assert(v@ =~= hn_id());
    }
    v
}

fn hv_ack() -> (v: Vec<u8>)
    ensures
        v@ == hn_ack(),
{
    let mut v: Vec<u8> = Vec::new();
    v.push(97);
    v.push(99);
    v.push(107);
    proof {
        assert(v@ =~= hn_ack());
    }
    v
}

fn hv_version() -> (v: Vec<u8>)
    ensures
        v@ == hn_version(),
{
    let mut v: Vec<u8> = Vec::new();
    v.push(118);
    v.push(101);
    v.push(114);
    v.push(115);
    v.push(105);
    v.push(111);
    v.push(110);
    proof {
        assert(v@ =~= hn_version());
    }
    v
}

fn hv_message_id() -> (v: Vec<u8>)
    ensures
        v@ == hn_message_id(),
{
    let mut v: Vec<u8> = Vec::new();
    v.push(109);
    v.push(101);
    v.push(115);
    v.push(115);
    v.push(97);
    v.push(103);
    v.push(101);
    v.push(45);
    v.push(105);
    v.push(100);
    proof {
        assert(v@ =~= hn_message_id());
    }
    v
}

fn hv_subscription() -> (v: Vec<u8>)
    ensures
        v@ == hn_subscription(),
{
    let mut v: Vec<u8> = Vec::new();
    v.push(115);
    v.push(117);
    v.push(98);
    v.push(115);
    v.push(99);
    v.push(114);
    v.push(105);
    v.push(112);
    v.push(116);
    v.push(105);
    v.push(111);
    v.push(110);
    proof {
        assert(v@ =~= hn_subscription());
    }
    v
}

fn hv_receipt_id() -> (v: Vec<u8>)
    ensures
        v@ == hn_receipt_id(),
{
    let mut v: Vec<u8> = Vec::new();
    v.push(114);
    v.push(101);
    v.push(99);
    v.push(101);
    v.push(105);
    v.push(112);
    v.push(116);
    v.push(45);
    v.push(105);
    v.push(100);
    proof {
        assert(v@ =~= hn_receipt_id());
    }
    v
}

fn hv_message() -> (v: Vec<u8>)
    ensures
        v@ == hn_message(),
{
    let mut v: Vec<u8> = Vec::new();
    v.push(109);
    v.push(101);
    v.push(115);
    v.push(115);
    v.push(97);
    v.push(103);
    v.push(101);
    proof {
        assert(v@ =~= hn_message());
    }
    v
}

fn ack_vec(a: AckMode) -> (v: Vec<u8>)
    ensures
        v@ == ack_render(a),
{
    let mut v: Vec<u8> = Vec::new();
    match a {
        AckMode::Auto => {
            v.push(97);
            v.push(117);
            v.push(116);
            v.push(111);
        },
        AckMode::Client => {
            v.push(99);
            v.push(108);
            v.push(105);
            v.push(101);
            v.push(110);
            v.push(116);
        },
        AckMode::ClientIndividual => {
            v.push(99);
            v.push(108);
            v.push(105);
            v.push(101);
            v.push(110);
            v.push(116);
            v.push(45);
            v.push(105);
            v.push(110);
            v.push(100);
            v.push(105);
            v.push(118);
            v.push(105);
            v.push(100);
            v.push(117);
            v.push(97);
            v.push(108);
        },
    }
    proof {
        assert(v@ =~= ack_render(a));
    }
    v
}

fn hb_vec(a: u32, b: u32) -> (v: Vec<u8>)
    ensures
        v@ == hb_render(a, b),
{
    let mut v: Vec<u8> = Vec::new();
    crate::frame::push_dec(&mut v, a as usize);
    v.push(44);
    crate::frame::push_dec(&mut v, b as usize);
    proof {
        assert(v@ =~= hb_render(a, b));
    }
    v
}

/// Append one header pair.
fn push_hdr(hs: &mut Headers, name: Vec<u8>, val: Vec<u8>)
    ensures
        final (hs).deep_view() == old(hs).deep_view() + seq![(name@, val@)],
{
    let ghost olddv = hs.deep_view();
    let ghost nv = name@;
    let ghost vv = val@;
    hs.push((name, val));
    proof {
        crate::frame::lemma_headers_deep(*hs);
        assert(hs.deep_view() =~~= olddv + seq![(nv, vv)]);
    }
}

/// Append an optional canonical header.
fn push_opt_hdr(hs: &mut Headers, name: Vec<u8>, v: Option<Vec<u8>>)
    ensures
        final (hs).deep_view() == old(hs).deep_view() + opt_hdr(name@, v.deep_view()),
{
    let ghost olddv = hs.deep_view();
    match v {
        Some(x) => {
            let ghost xv = x@;
            proof {
                crate::frame::lemma_bytes_deep(x);
                assert(v.deep_view() == Some(xv));
            }
            push_hdr(hs, name, x);
            proof {
                assert(hs.deep_view() =~~= olddv + opt_hdr(name@, Some(xv)));
            }
        },
        None => {
            proof {
                assert(hs.deep_view() =~~= olddv + opt_hdr(name@, None::<Seq<u8>>));
            }
        },
    }
}

/// Append the optional canonical heart-beat header.
fn push_hb_hdr(hs: &mut Headers, hb: Option<(u32, u32)>)
    ensures
        final (hs).deep_view() == old(hs).deep_view() + hb_hdr(hb),
{
    let ghost olddv = hs.deep_view();
    match hb {
        Some(p) => {
            push_hdr(hs, hv_heart_beat(), hb_vec(p.0, p.1));
            proof {
                assert(hs.deep_view() =~~= olddv + hb_hdr(Some(p)));
            }
        },
        None => {
            proof {
                assert(hs.deep_view() =~~= olddv + hb_hdr(None::<(u32, u32)>));
            }
        },
    }
}

/// Append the optional canonical ack header.
fn push_ack_hdr(hs: &mut Headers, a: Option<AckMode>)
    ensures
        final (hs).deep_view() == old(hs).deep_view() + ack_hdr(a),
{
    let ghost olddv = hs.deep_view();
    match a {
        Some(m) => {
            push_hdr(hs, hv_ack(), ack_vec(m));
            proof {
                assert(hs.deep_view() =~~= olddv + ack_hdr(Some(m)));
            }
        },
        None => {
            proof {
                assert(hs.deep_view() =~~= olddv + ack_hdr(None::<AckMode>));
            }
        },
    }
}

/// Move all headers of `src` to the end of `dst`.
fn append_hdrs(dst: &mut Headers, src: Headers)
    ensures
        final (dst).deep_view() == old(dst).deep_view() + src.deep_view(),
{
    let ghost ddv = dst.deep_view();
    let ghost sdv = src.deep_view();
    let mut src = src;
    dst.append(&mut src);
    proof {
        crate::frame::lemma_headers_deep(*dst);
        crate::frame::lemma_headers_deep(src);
        assert(dst.deep_view() =~~= ddv + sdv);
    }
}

impl Message<ToServer> {
    /// Map this client-bound message to its unique frame.
    pub fn to_frame(self) -> (f: Frame)
        ensures
            f@ == to_server_frame(self@),
    {
        let ghost m = self@;
        let Message { content, extra_headers } = self;
        let mut hs: Headers = Vec::new();
        proof {
            assert(hs.deep_view() =~~= Seq::<(Seq<u8>, Seq<u8>)>::empty());
        }
        let cmd: Command;
        let body: Option<Vec<u8>>;
        match content {
            ToServer::Connect { accept_version, host, login, passcode, heartbeat, headers } => {
                push_hdr(&mut hs, hv_accept_version(), accept_version);
                push_hdr(&mut hs, hv_host(), host);
                push_opt_hdr(&mut hs, hv_login(), login);
                push_opt_hdr(&mut hs, hv_passcode(), passcode);
                push_hb_hdr(&mut hs, heartbeat);
                append_hdrs(&mut hs, headers);
                cmd = Command::Connect;
                body = None;
                proof {
                    assert(hs.deep_view() =~~= to_server_canon(m.content) + to_server_extra(
                        m.content,
                    ));
                }
            },
            ToServer::Send { destination, headers, body: b } => {
                push_hdr(&mut hs, hv_destination(), destination);
                append_hdrs(&mut hs, headers);
                cmd = Command::Send;
                body = b;
                proof {
                    assert(hs.deep_view() =~~= to_server_canon(m.content) + to_server_extra(
                        m.content,
                    ));
                }
            },
            ToServer::Subscribe { destination, id, ack, headers } => {
                push_hdr(&mut hs, hv_destination(), destination);
                push_hdr(&mut hs, hv_id(), id);
                push_ack_hdr(&mut hs, ack);
                append_hdrs(&mut hs, headers);
                cmd = Command::Subscribe;
                body = None;
                proof {
                    assert(hs.deep_view() =~~= to_server_canon(m.content) + to_server_extra(
                        m.content,
                    ));
                }
            },
            ToServer::Unsubscribe { id, headers } => {
                push_hdr(&mut hs, hv_id(), id);
                append_hdrs(&mut hs, headers);
                cmd = Command::Unsubscribe;
                body = None;
                proof {
                    assert(hs.deep_view() =~~= to_server_canon(m.content) + to_server_extra(
                        m.content,
                    ));
                }
            },
            ToServer::Ack { id, headers } => {
                push_hdr(&mut hs, hv_id(), id);
                append_hdrs(&mut hs, headers);
                cmd = Command::Ack;
                body = None;
                proof {
                    assert(hs.deep_view() =~~= to_server_canon(m.content) + to_server_extra(
                        m.content,
                    ));
                }
            },
            ToServer::Nack { id, headers } => {
                push_hdr(&mut hs, hv_id(), id);
                append_hdrs(&mut hs, headers);
                cmd = Command::Nack;
                body = None;
                proof {
                    assert(hs.deep_view() =~~= to_server_canon(m.content) + to_server_extra(
                        m.content,
                    ));
                }
            },
            ToServer::Begin { transaction, headers } => {
                push_hdr(&mut hs, hv_transaction(), transaction);
                append_hdrs(&mut hs, headers);
                cmd = Command::Begin;
                body = None;
                proof {
                    assert(hs.deep_view() =~~= to_server_canon(m.content) + to_server_extra(
                        m.content,
                    ));
                }
            },
            ToServer::Commit { transaction, headers } => {
                push_hdr(&mut hs, hv_transaction(), transaction);
                append_hdrs(&mut hs, headers);
                cmd = Command::Commit;
                body = None;
                proof {
                    assert(hs.deep_view() =~~= to_server_canon(m.content) + to_server_extra(
                        m.content,
                    ));
                }
            },
            ToServer::Abort { transaction, headers } => {
                push_hdr(&mut hs, hv_transaction(), transaction);
                append_hdrs(&mut hs, headers);
                cmd = Command::Abort;
                body = None;
                proof {
                    assert(hs.deep_view() =~~= to_server_canon(m.content) + to_server_extra(
                        m.content,
                    ));
                }
            },
            ToServer::Disconnect { headers } => {
                append_hdrs(&mut hs, headers);
                cmd = Command::Disconnect;
                body = None;
                proof {
                    assert(hs.deep_view() =~~= to_server_canon(m.content) + to_server_extra(
                        m.content,
                    ));
                }
            },
        }
        assert(cmd == to_server_cmd(m.content));
        assert(body.deep_view() == to_server_body(m.content));
        append_hdrs(&mut hs, extra_headers);
        let f = Frame { command: cmd, headers: hs, body };
        proof {
            assert(f@.headers =~~= to_server_canon(m.content) + to_server_extra(m.content)
                + m.extra_headers);
            assert(f@ =~~= to_server_frame(m));
        }
        f
    }
}

impl Message<FromServer> {
    /// Map this server-bound message to its unique frame.
    pub fn to_frame(self) -> (f: Frame)
        ensures
            f@ == from_server_frame(self@),
    {
        let ghost m = self@;
        let Message { content, extra_headers } = self;
        let mut hs: Headers = Vec::new();
        proof {
            assert(hs.deep_view() =~~= Seq::<(Seq<u8>, Seq<u8>)>::empty());
        }
        let cmd: Command;
        let body: Option<Vec<u8>>;
        match content {
            FromServer::Connected { version, headers } => {
                push_hdr(&mut hs, hv_version(), version);
                append_hdrs(&mut hs, headers);
                cmd = Command::Connected;
                body = None;
                proof {
                    assert(hs.deep_view() =~~= from_server_canon(m.content) + from_server_extra(
                        m.content,
                    ));
                }
            },
            FromServer::Message { destination, message_id, subscription, headers, body: b } => {
                push_hdr(&mut hs, hv_destination(), destination);
                push_hdr(&mut hs, hv_message_id(), message_id);
                push_hdr(&mut hs, hv_subscription(), subscription);
                append_hdrs(&mut hs, headers);
                cmd = Command::Message;
                body = b;
                proof {
                    assert(hs.deep_view() =~~= from_server_canon(m.content) + from_server_extra(
                        m.content,
                    ));
                }
            },
            FromServer::Receipt { receipt_id, headers } => {
                push_hdr(&mut hs, hv_receipt_id(), receipt_id);
                append_hdrs(&mut hs, headers);
                cmd = Command::Receipt;
                body = None;
                proof {
                    assert(hs.deep_view() =~~= from_server_canon(m.content) + from_server_extra(
                        m.content,
                    ));
                }
            },
            FromServer::Error { message, headers, body: b } => {
                push_opt_hdr(&mut hs, hv_message(), message);
                append_hdrs(&mut hs, headers);
                cmd = Command::Error;
                body = b;
                proof {
                    assert(hs.deep_view() =~~= from_server_canon(m.content) + from_server_extra(
                        m.content,
                    ));
                }
            },
        }
        assert(cmd == from_server_cmd(m.content));
        assert(body.deep_view() == from_server_body(m.content));
        append_hdrs(&mut hs, extra_headers);
        let f = Frame { command: cmd, headers: hs, body };
        proof {
            assert(f@.headers =~~= from_server_canon(m.content) + from_server_extra(m.content)
                + m.extra_headers);
            assert(f@ =~~= from_server_frame(m));
        }
        f
    }
}

/// The acknowledgement mode a wire value denotes, if any.
pub open spec fn ack_of(v: Seq<u8>) -> Option<AckMode> {
    if v == ack_render(AckMode::Auto) {
        Some(AckMode::Auto)
    } else if v == ack_render(AckMode::Client) {
        Some(AckMode::Client)
    } else if v == ack_render(AckMode::ClientIndividual) {
        Some(AckMode::ClientIndividual)
    } else {
        None
    }
}

/// The heart-beat pair a wire value denotes, if well-formed.
pub open spec fn parse_hb(v: Seq<u8>) -> Option<(u32, u32)> {
    match find_byte(v, 0, 44) {
        Some(k) => {
            let a = v.take(k);
            let b = v.skip(k + 1);
            if is_dec(a) && is_dec(b) && dec_val(a) <= u32::MAX && dec_val(b) <= u32::MAX {
                Some((dec_val(a) as u32, dec_val(b) as u32))
            } else {
                None
            }
        },
        None => None,
    }
}

/// A frame's `content-length`, when present, must be integer-valued to
/// be mapped at all.
pub open spec fn cl_check(hs: HeadersModel) -> bool {
    match first_val(hs, cl_name()) {
        Some(v) => is_dec(v),
        None => true,
    }
}

/// The unique server-bound message a frame maps to, or the mapping
/// error: a command outside the server's vocabulary, a missing
/// required header, or a malformed recognised header.
pub open spec fn server_msg_of_frame(f: FrameModel) -> Result<
    MessageModel<FromServerModel>,
    MapError,
> {
    if !cl_check(f.headers) {
        Err(MapError::MalformedHeader)
    } else {
        match f.command {
            Command::Connected => match first_val(f.headers, hn_version()) {
                None => Err(MapError::MissingHeader),
                Some(v) => Ok(
                    MessageModel {
                        content: FromServerModel::Connected {
                            version: v,
                            headers: remove_first(f.headers, hn_version()),
                        },
                        extra_headers: Seq::empty(),
                    },
                ),
            },
            Command::Message => match first_val(f.headers, hn_destination()) {
                None => Err(MapError::MissingHeader),
                Some(d) => {
                    let h1 = remove_first(f.headers, hn_destination());
                    match first_val(h1, hn_message_id()) {
                        None => Err(MapError::MissingHeader),
                        Some(mi) => {
                            let h2 = remove_first(h1, hn_message_id());
                            match first_val(h2, hn_subscription()) {
                                None => Err(MapError::MissingHeader),
                                Some(su) => Ok(
                                    MessageModel {
                                        content: FromServerModel::Message {
                                            destination: d,
                                            message_id: mi,
                                            subscription: su,
                                            headers: remove_first(h2, hn_subscription()),
                                            body: f.body,
                                        },
                                        extra_headers: Seq::empty(),
                                    },
                                ),
                            }
                        },
                    }
                },
            },
            Command::Receipt => match first_val(f.headers, hn_receipt_id()) {
                None => Err(MapError::MissingHeader),
                Some(rid) => Ok(
                    MessageModel {
                        content: FromServerModel::Receipt {
                            receipt_id: rid,
                            headers: remove_first(f.headers, hn_receipt_id()),
                        },
                        extra_headers: Seq::empty(),
                    },
                ),
            },
            Command::Error => {
                let msg = first_val(f.headers, hn_message());
                let rest = if msg is Some {
                    remove_first(f.headers, hn_message())
                } else {
                    f.headers
                };
                Ok(
                    MessageModel {
                        content: FromServerModel::Error {
                            message: msg,
                            headers: rest,
                            body: f.body,
                        },
                        extra_headers: Seq::empty(),
                    },
                )
            },
            _ => Err(MapError::WrongDirection),
        }
    }
}

/// The unique client-bound message a frame maps to, or the mapping
/// error.
pub open spec fn client_msg_of_frame(f: FrameModel) -> Result<
    MessageModel<ToServerModel>,
    MapError,
> {
    if !cl_check(f.headers) {
        Err(MapError::MalformedHeader)
    } else {
        match f.command {
            Command::Connect => match first_val(f.headers, hn_accept_version()) {
                None => Err(MapError::MissingHeader),
                Some(av) => {
                    let h1 = remove_first(f.headers, hn_accept_version());
                    match first_val(h1, hn_host()) {
                        None => Err(MapError::MissingHeader),
                        Some(host) => {
                            let h2 = remove_first(h1, hn_host());
                            let login = first_val(h2, hn_login());
                            let h3 = if login is Some {
                                remove_first(h2, hn_login())
                            } else {
                                h2
                            };
                            let passcode = first_val(h3, hn_passcode());
                            let h4 = if passcode is Some {
                                remove_first(h3, hn_passcode())
                            } else {
                                h3
                            };
                            match first_val(h4, hn_heart_beat()) {
                                None => Ok(
                                    MessageModel {
                                        content: ToServerModel::Connect {
                                            accept_version: av,
                                            host: host,
                                            login: login,
                                            passcode: passcode,
                                            heartbeat: None,
                                            headers: h4,
                                        },
                                        extra_headers: Seq::empty(),
                                    },
                                ),
                                Some(hbv) => match parse_hb(hbv) {
                                    None => Err(MapError::MalformedHeader),
                                    Some(p) => Ok(
                                        MessageModel {
                                            content: ToServerModel::Connect {
                                                accept_version: av,
                                                host: host,
                                                login: login,
                                                passcode: passcode,
                                                heartbeat: Some(p),
                                                headers: remove_first(h4, hn_heart_beat()),
                                            },
                                            extra_headers: Seq::empty(),
                                        },
                                    ),
                                },
                            }
                        },
                    }
                },
            },
            Command::Send => match first_val(f.headers, hn_destination()) {
                None => Err(MapError::MissingHeader),
                Some(d) => Ok(
                    MessageModel {
                        content: ToServerModel::Send {
                            destination: d,
                            headers: remove_first(f.headers, hn_destination()),
                            body: f.body,
                        },
                        extra_headers: Seq::empty(),
                    },
                ),
            },
            Command::Subscribe => match first_val(f.headers, hn_destination()) {
                None => Err(MapError::MissingHeader),
                Some(d) => {
                    let h1 = remove_first(f.headers, hn_destination());
                    match first_val(h1, hn_id()) {
                        None => Err(MapError::MissingHeader),
                        Some(id) => {
                            let h2 = remove_first(h1, hn_id());
                            match first_val(h2, hn_ack()) {
                                None => Ok(
                                    MessageModel {
                                        content: ToServerModel::Subscribe {
                                            destination: d,
                                            id: id,
                                            ack: None,
                                            headers: h2,
                                        },
                                        extra_headers: Seq::empty(),
                                    },
                                ),
                                Some(av) => match ack_of(av) {
                                    None => Err(MapError::MalformedHeader),
                                    Some(m) => Ok(
                                        MessageModel {
                                            content: ToServerModel::Subscribe {
                                                destination: d,
                                                id: id,
                                                ack: Some(m),
                                                headers: remove_first(h2, hn_ack()),
                                            },
                                            extra_headers: Seq::empty(),
                                        },
                                    ),
                                },
                            }
                        },
                    }
                },
            },
            Command::Unsubscribe => match first_val(f.headers, hn_id()) {
                None => Err(MapError::MissingHeader),
                Some(id) => Ok(
                    MessageModel {
                        content: ToServerModel::Unsubscribe {
                            id: id,
                            headers: remove_first(f.headers, hn_id()),
                        },
                        extra_headers: Seq::empty(),
                    },
                ),
            },
            Command::Ack => match first_val(f.headers, hn_id()) {
                None => Err(MapError::MissingHeader),
                Some(id) => Ok(
                    MessageModel {
                        content: ToServerModel::Ack {
                            id: id,
                            headers: remove_first(f.headers, hn_id()),
                        },
                        extra_headers: Seq::empty(),
                    },
                ),
            },
            Command::Nack => match first_val(f.headers, hn_id()) {
                None => Err(MapError::MissingHeader),
                Some(id) => Ok(
                    MessageModel {
                        content: ToServerModel::Nack {
                            id: id,
                            headers: remove_first(f.headers, hn_id()),
                        },
                        extra_headers: Seq::empty(),
                    },
                ),
            },
            Command::Begin => match first_val(f.headers, hn_transaction()) {
                None => Err(MapError::MissingHeader),
                Some(t) => Ok(
                    MessageModel {
                        content: ToServerModel::Begin {
                            transaction: t,
                            headers: remove_first(f.headers, hn_transaction()),
                        },
                        extra_headers: Seq::empty(),
                    },
                ),
            },
            Command::Commit => match first_val(f.headers, hn_transaction()) {
                None => Err(MapError::MissingHeader),
                Some(t) => Ok(
                    MessageModel {
                        content: ToServerModel::Commit {
                            transaction: t,
                            headers: remove_first(f.headers, hn_transaction()),
                        },
                        extra_headers: Seq::empty(),
                    },
                ),
            },
            Command::Abort => match first_val(f.headers, hn_transaction()) {
                None => Err(MapError::MissingHeader),
                Some(t) => Ok(
                    MessageModel {
                        content: ToServerModel::Abort {
                            transaction: t,
                            headers: remove_first(f.headers, hn_transaction()),
                        },
                        extra_headers: Seq::empty(),
                    },
                ),
            },
            Command::Disconnect => Ok(
                MessageModel {
                    content: ToServerModel::Disconnect { headers: f.headers },
                    extra_headers: Seq::empty(),
                },
            ),
            _ => Err(MapError::WrongDirection),
        }
    }
}

/// Remove and return the authoritative value of a required header.
fn take_required(hs: &mut Headers, name: &Vec<u8>) -> (r: Result<Vec<u8>, MapError>)
    ensures
        match r {
            Ok(v) => first_val(old(hs).deep_view(), name@) == Some(v@) && final (hs).deep_view()
                == remove_first(old(hs).deep_view(), name@),
            Err(e) => e == MapError::MissingHeader && first_val(old(hs).deep_view(), name@)
                == None::<Seq<u8>> && *final(hs) == *old(hs),
        },
{
    let ghost dv = hs.deep_view();
    match crate::frame::first_hdr_index(hs, name) {
        Some(ix) => {
            let pr = hs.remove(ix);
            proof {
                crate::frame::lemma_remove_first_at(dv, name@, ix as int);
                crate::frame::lemma_headers_deep(*hs);
                crate::frame::lemma_bytes_deep(pr.1);
                assert(hs.deep_view() =~~= dv.remove(ix as int));
                assert(pr.1@ == dv[ix as int].1);
            }
            Ok(pr.1)
        },
        None => Err(MapError::MissingHeader),
    }
}

/// Remove and return the authoritative value of an optional header.
fn take_optional(hs: &mut Headers, name: &Vec<u8>) -> (r: Option<Vec<u8>>)
    ensures
        r.deep_view() == first_val(old(hs).deep_view(), name@),
        match r {
            Some(v) => final (hs).deep_view() == remove_first(old(hs).deep_view(), name@),
            None => *final (hs) == *old(hs),
        },
{
    let ghost dv = hs.deep_view();
    match crate::frame::first_hdr_index(hs, name) {
        Some(ix) => {
            let pr = hs.remove(ix);
            proof {
                crate::frame::lemma_remove_first_at(dv, name@, ix as int);
                crate::frame::lemma_headers_deep(*hs);
                crate::frame::lemma_bytes_deep(pr.1);
                assert(hs.deep_view() =~~= dv.remove(ix as int));
                assert(pr.1@ == dv[ix as int].1);
            }
            Some(pr.1)
        },
        None => None,
    }
}

/// Whether a value is a non-empty, all-digit byte string.
fn is_dec_exec(v: &Vec<u8>) -> (r: bool)
    ensures
        r == is_dec(v@),
{
    if v.len() == 0 {
        return false;
    }
    let mut i: usize = 0;
    while i < v.len()
        invariant
            i <= v@.len(),
            forall|t: int| 0 <= t < i ==> is_digit(#[trigger] v@[t]),
        decreases v@.len() - i,
    {
        let b = v[i];
        if b < 48 || b > 57 {
            proof {
                assert(!is_digit(v@[i as int]));
            }
            return false;
        }
        i = i + 1;
    }
    true
}

/// The acknowledgement mode a wire value denotes, if any.
fn ack_of_exec(v: &Vec<u8>) -> (r: Option<AckMode>)
    ensures
        r == ack_of(v@),
{
    if crate::frame::bytes_eq(v, &ack_vec(AckMode::Auto)) {
        Some(AckMode::Auto)
    } else if crate::frame::bytes_eq(v, &ack_vec(AckMode::Client)) {
        Some(AckMode::Client)
    } else if crate::frame::bytes_eq(v, &ack_vec(AckMode::ClientIndividual)) {
        Some(AckMode::ClientIndividual)
    } else {
        None
    }
}

/// The heart-beat pair a wire value denotes, if well-formed.
fn parse_hb_exec(v: &Vec<u8>) -> (r: Option<(u32, u32)>)
    ensures
        r == parse_hb(v@),
{
    let n = v.len();
    match crate::frame::find_byte_range(v.as_slice(), 0, n, 44) {
        None => {
            proof {
                crate::frame::lemma_find_byte_none(v@, 0, 44);
            }
            None
        },
        Some(k) => {
            proof {
                crate::frame::lemma_find_byte_found(v@, 0, 44, k as int);
            }
            let a = crate::frame::parse_dec_exec(v.as_slice(), 0, k);
            let b = crate::frame::parse_dec_exec(v.as_slice(), k + 1, n);
            proof {
                assert(v@.subrange(0, k as int) =~= v@.take(k as int));
                assert(v@.subrange(k + 1, n as int) =~= v@.skip(k + 1));
                assert(u32::MAX <= u64::MAX);
            }
            match (a, b) {
                (crate::frame::DecOut::Val(x), crate::frame::DecOut::Val(y)) => {
                    if x <= u32::MAX as u64 && y <= u32::MAX as u64 {
                        Some(((x as u32), (y as u32)))
                    } else {
                        None
                    }
                },
                _ => None,
            }
        },
    }
}

impl Message<FromServer> {
    /// Map a parsed frame to the unique server-bound message it
    /// denotes: required fields extracted from the headers, first
    /// occurrence authoritative, all remaining headers preserved.
    pub fn from_frame(f: Frame) -> (r: Result<Message<FromServer>, MapError>)
        ensures
            match r {
                Ok(m) => server_msg_of_frame(f@) == Ok::<MessageModel<FromServerModel>, MapError>(m@),
                Err(e) => server_msg_of_frame(f@) == Err::<MessageModel<FromServerModel>, MapError>(e),
            },
    {
        let ghost fv = f@;
        let Frame { command, headers, body } = f;
        let mut hs = headers;
        if let Some(ix) = crate::frame::first_hdr_index(&hs, &crate::frame::cl_name_vec()) {
            if !is_dec_exec(&hs[ix].1) {
                proof {
                    crate::frame::lemma_headers_deep(hs);
                    crate::frame::lemma_bytes_deep(hs@[ix as int].1);
                }
                return Err(MapError::MalformedHeader);
            }
            proof {
                crate::frame::lemma_headers_deep(hs);
                crate::frame::lemma_bytes_deep(hs@[ix as int].1);
            }
        }
        let empty: Headers = Vec::new();
        proof {
            assert(empty.deep_view() =~~= Seq::<(Seq<u8>, Seq<u8>)>::empty());
        }
        match command {
            Command::Connected => {
                let version = match take_required(&mut hs, &hv_version()) {
                    Ok(v) => v,
                    Err(e) => {
                        return Err(e);
                    },
                };
                let m = Message {
                    content: FromServer::Connected { version, headers: hs },
                    extra_headers: empty,
                };
                proof {
                    assert(server_msg_of_frame(fv) == Ok::<MessageModel<FromServerModel>, MapError>(m@));
                }
                Ok(m)
            },
            Command::Message => {
                let destination = match take_required(&mut hs, &hv_destination()) {
                    Ok(v) => v,
                    Err(e) => {
                        return Err(e);
                    },
                };
                let message_id = match take_required(&mut hs, &hv_message_id()) {
                    Ok(v) => v,
                    Err(e) => {
                        return Err(e);
                    },
                };
                let subscription = match take_required(&mut hs, &hv_subscription()) {
                    Ok(v) => v,
                    Err(e) => {
                        return Err(e);
                    },
                };
                let m = Message {
                    content: FromServer::Message {
                        destination,
                        message_id,
                        subscription,
                        headers: hs,
                        body,
                    },
                    extra_headers: empty,
                };
                proof {
                    assert(server_msg_of_frame(fv) == Ok::<MessageModel<FromServerModel>, MapError>(m@));
                }
                Ok(m)
            },
            Command::Receipt => {
                let receipt_id = match take_required(&mut hs, &hv_receipt_id()) {
                    Ok(v) => v,
                    Err(e) => {
                        return Err(e);
                    },
                };
                let m = Message {
                    content: FromServer::Receipt { receipt_id, headers: hs },
                    extra_headers: empty,
                };
                proof {
                    assert(server_msg_of_frame(fv) == Ok::<MessageModel<FromServerModel>, MapError>(m@));
                }
                Ok(m)
            },
            Command::Error => {
                let message = take_optional(&mut hs, &hv_message());
                let m = Message {
                    content: FromServer::Error { message, headers: hs, body },
                    extra_headers: empty,
                };
                proof {
                    assert(server_msg_of_frame(fv) == Ok::<MessageModel<FromServerModel>, MapError>(m@));
                }
                Ok(m)
            },
            _ => Err(MapError::WrongDirection),
        }
    }
}

impl Message<ToServer> {
    /// Map a parsed frame to the unique client-bound message it
    /// denotes.
    pub fn from_frame(f: Frame) -> (r: Result<Message<ToServer>, MapError>)
        ensures
            match r {
                Ok(m) => client_msg_of_frame(f@) == Ok::<MessageModel<ToServerModel>, MapError>(m@),
                Err(e) => client_msg_of_frame(f@) == Err::<MessageModel<ToServerModel>, MapError>(e),
            },
    {
        let ghost fv = f@;
        let Frame { command, headers, body } = f;
        let mut hs = headers;
        if let Some(ix) = crate::frame::first_hdr_index(&hs, &crate::frame::cl_name_vec()) {
            if !is_dec_exec(&hs[ix].1) {
                proof {
                    crate::frame::lemma_headers_deep(hs);
                    crate::frame::lemma_bytes_deep(hs@[ix as int].1);
                }
                return Err(MapError::MalformedHeader);
            }
            proof {
                crate::frame::lemma_headers_deep(hs);
                crate::frame::lemma_bytes_deep(hs@[ix as int].1);
            }
        }
        let empty: Headers = Vec::new();
        proof {
            assert(empty.deep_view() =~~= Seq::<(Seq<u8>, Seq<u8>)>::empty());
        }
        match command {
            Command::Connect => {
                let accept_version = match take_required(&mut hs, &hv_accept_version()) {
                    Ok(v) => v,
                    Err(e) => {
                        return Err(e);
                    },
                };
                let host = match take_required(&mut hs, &hv_host()) {
                    Ok(v) => v,
                    Err(e) => {
                        return Err(e);
                    },
                };
                let login = take_optional(&mut hs, &hv_login());
                let passcode = take_optional(&mut hs, &hv_passcode());
                let heartbeat: Option<(u32, u32)> = match take_optional(
                    &mut hs,
                    &hv_heart_beat(),
                ) {
                    None => None,
                    Some(hbv) => {
                        proof {
                            crate::frame::lemma_bytes_deep(hbv);
                        }
                        match parse_hb_exec(&hbv) {
                            None => {
                                return Err(MapError::MalformedHeader);
                            },
                            Some(p) => Some(p),
                        }
                    },
                };
                proof {
                    crate::frame::lemma_bytes_deep(accept_version);
                    crate::frame::lemma_bytes_deep(host);
                }
                let m = Message {
                    content: ToServer::Connect {
                        accept_version,
                        host,
                        login,
                        passcode,
                        heartbeat,
                        headers: hs,
                    },
                    extra_headers: empty,
                };
                proof {
                    assert(client_msg_of_frame(fv) == Ok::<MessageModel<ToServerModel>, MapError>(m@));
                }
                Ok(m)
            },
            Command::Send => {
                let destination = match take_required(&mut hs, &hv_destination()) {
                    Ok(v) => v,
                    Err(e) => {
                        return Err(e);
                    },
                };
                let m = Message {
                    content: ToServer::Send { destination, headers: hs, body },
                    extra_headers: empty,
                };
                proof {
                    assert(client_msg_of_frame(fv) == Ok::<MessageModel<ToServerModel>, MapError>(m@));
                }
                Ok(m)
            },
            Command::Subscribe => {
                let destination = match take_required(&mut hs, &hv_destination()) {
                    Ok(v) => v,
                    Err(e) => {
                        return Err(e);
                    },
                };
                let id = match take_required(&mut hs, &hv_id()) {
                    Ok(v) => v,
                    Err(e) => {
                        return Err(e);
                    },
                };
                let ack: Option<AckMode> = match take_optional(&mut hs, &hv_ack()) {
                    None => None,
                    Some(av) => {
                        proof {
                            crate::frame::lemma_bytes_deep(av);
                        }
                        match ack_of_exec(&av) {
                            None => {
                                return Err(MapError::MalformedHeader);
                            },
                            Some(a) => Some(a),
                        }
                    },
                };
                let m = Message {
                    content: ToServer::Subscribe { destination, id, ack, headers: hs },
                    extra_headers: empty,
                };
                proof {
                    assert(client_msg_of_frame(fv) == Ok::<MessageModel<ToServerModel>, MapError>(m@));
                }
                Ok(m)
            },
            Command::Unsubscribe => {
                let id = match take_required(&mut hs, &hv_id()) {
                    Ok(v) => v,
                    Err(e) => {
                        return Err(e);
                    },
                };
                let m = Message {
                    content: ToServer::Unsubscribe { id, headers: hs },
                    extra_headers: empty,
                };
                proof {
                    assert(client_msg_of_frame(fv) == Ok::<MessageModel<ToServerModel>, MapError>(m@));
                }
                Ok(m)
            },
            Command::Ack => {
                let id = match take_required(&mut hs, &hv_id()) {
                    Ok(v) => v,
                    Err(e) => {
                        return Err(e);
                    },
                };
                let m = Message {
                    content: ToServer::Ack { id, headers: hs },
                    extra_headers: empty,
                };
                proof {
                    assert(client_msg_of_frame(fv) == Ok::<MessageModel<ToServerModel>, MapError>(m@));
                }
                Ok(m)
            },
            Command::Nack => {
                let id = match take_required(&mut hs, &hv_id()) {
                    Ok(v) => v,
                    Err(e) => {
                        return Err(e);
                    },
                };
                let m = Message {
                    content: ToServer::Nack { id, headers: hs },
                    extra_headers: empty,
                };
                proof {
                    assert(client_msg_of_frame(fv) == Ok::<MessageModel<ToServerModel>, MapError>(m@));
                }
                Ok(m)
            },
            Command::Begin => {
                let transaction = match take_required(&mut hs, &hv_transaction()) {
                    Ok(v) => v,
                    Err(e) => {
                        return Err(e);
                    },
                };
                let m = Message {
                    content: ToServer::Begin { transaction, headers: hs },
                    extra_headers: empty,
                };
                proof {
                    assert(client_msg_of_frame(fv) == Ok::<MessageModel<ToServerModel>, MapError>(m@));
                }
                Ok(m)
            },
            Command::Commit => {
                let transaction = match take_required(&mut hs, &hv_transaction()) {
                    Ok(v) => v,
                    Err(e) => {
                        return Err(e);
                    },
                };
                let m = Message {
                    content: ToServer::Commit { transaction, headers: hs },
                    extra_headers: empty,
                };
                proof {
                    assert(client_msg_of_frame(fv) == Ok::<MessageModel<ToServerModel>, MapError>(m@));
                }
                Ok(m)
            },
            Command::Abort => {
                let transaction = match take_required(&mut hs, &hv_transaction()) {
                    Ok(v) => v,
                    Err(e) => {
                        return Err(e);
                    },
                };
                let m = Message {
                    content: ToServer::Abort { transaction, headers: hs },
                    extra_headers: empty,
                };
                proof {
                    assert(client_msg_of_frame(fv) == Ok::<MessageModel<ToServerModel>, MapError>(m@));
                }
                Ok(m)
            },
            Command::Disconnect => {
                let m = Message {
                    content: ToServer::Disconnect { headers: hs },
                    extra_headers: empty,
                };
                proof {
                    assert(client_msg_of_frame(fv) == Ok::<MessageModel<ToServerModel>, MapError>(m@));
                }
                Ok(m)
            },
            _ => Err(MapError::WrongDirection),
        }
    }
}

/// Convenience builder for a SUBSCRIBE message from a destination and
/// a subscription id.
pub fn subscribe(dest: Vec<u8>, id: Vec<u8>) -> (m: Message<ToServer>)
    ensures
        m@ == (MessageModel {
            content: ToServerModel::Subscribe {
                destination: dest@,
                id: id@,
                ack: None,
                headers: Seq::empty(),
            },
            extra_headers: Seq::<(Seq<u8>, Seq<u8>)>::empty(),
        }),
{
    subscribe_with_headers(dest, id, Vec::new())
}

/// Convenience builder for a SUBSCRIBE message carrying additional
/// headers.
pub fn subscribe_with_headers(dest: Vec<u8>, id: Vec<u8>, headers: Headers) -> (m: Message<
    ToServer,
>)
    ensures
        m@ == (MessageModel {
            content: ToServerModel::Subscribe {
                destination: dest@,
                id: id@,
                ack: None,
                headers: headers.deep_view(),
            },
            extra_headers: Seq::<(Seq<u8>, Seq<u8>)>::empty(),
        }),
{
    let ghost dv = dest@;
    let ghost iv = id@;
    let ghost hv = headers.deep_view();
    let extra: Headers = Vec::new();
    let m = Message {
        content: ToServer::Subscribe { destination: dest, id, ack: None, headers },
        extra_headers: extra,
    };
    proof {
        assert(m@.extra_headers =~~= Seq::<(Seq<u8>, Seq<u8>)>::empty());
        assert(m@ =~~= MessageModel {
            content: ToServerModel::Subscribe {
                destination: dv,
                id: iv,
                ack: None,
                headers: hv,
            },
            extra_headers: Seq::<(Seq<u8>, Seq<u8>)>::empty(),
        });
    }
    m
}

proof fn lemma_singleton_other(n: Seq<u8>, v: Seq<u8>, other: Seq<u8>)
    requires
        n != other,
    ensures
        !has_name(seq![(n, v)], other),
        first_val(seq![(n, v)], other) == None::<Seq<u8>>,
{
    let s = seq![(n, v)];
    assert(s.len() == 1);
    assert(s[0] == (n, v));
    assert(s[0].0 == n);
    assert(s.skip(1) =~~= Seq::<(Seq<u8>, Seq<u8>)>::empty());
    assert(!has_name(Seq::<(Seq<u8>, Seq<u8>)>::empty(), other));
    assert(first_val(Seq::<(Seq<u8>, Seq<u8>)>::empty(), other) == None::<Seq<u8>>);
}

proof fn lemma_opt_other(n: Seq<u8>, v: Option<Seq<u8>>, other: Seq<u8>)
    requires
        n != other,
    ensures
        !has_name(opt_hdr(n, v), other),
        first_val(opt_hdr(n, v), other) == None::<Seq<u8>>,
{
    match v {
        Some(x) => lemma_singleton_other(n, x, other),
        None => {},
    }
}

proof fn lemma_hb_other(hb: Option<(u32, u32)>, other: Seq<u8>)
    requires
        other != hn_heart_beat(),
    ensures
        !has_name(hb_hdr(hb), other),
        first_val(hb_hdr(hb), other) == None::<Seq<u8>>,
{
    match hb {
        Some(p) => lemma_singleton_other(hn_heart_beat(), hb_render(p.0, p.1), other),
        None => {},
    }
}

proof fn lemma_ack_other(a: Option<AckMode>, other: Seq<u8>)
    requires
        other != hn_ack(),
    ensures
        !has_name(ack_hdr(a), other),
        first_val(ack_hdr(a), other) == None::<Seq<u8>>,
{
    match a {
        Some(x) => lemma_singleton_other(hn_ack(), ack_render(x), other),
        None => {},
    }
}

/// Extraction of a name standing at the front of a header list.
proof fn lemma_extract_front(name: Seq<u8>, val: Seq<u8>, rest: HeadersModel)
    ensures
        first_val(seq![(name, val)] + rest, name) == Some(val),
        remove_first(seq![(name, val)] + rest, name) == rest,
{
    let s = seq![(name, val)] + rest;
    assert(s[0] == (name, val));
    assert(s.skip(1) =~~= rest);
}

/// A rendered heart-beat value reads back to the same pair.
pub proof fn lemma_hb_round_trip(a: u32, b: u32)
    ensures
        parse_hb(hb_render(a, b)) == Some((a, b)),
{
    let da = dec_of(a as nat);
    let db = dec_of(b as nat);
    let v = hb_render(a, b);
    crate::frame::lemma_dec_of_val(a as nat);
    crate::frame::lemma_dec_of_val(b as nat);
    assert(v =~= da + seq![44u8] + db);
    assert(v[da.len() as int] == 44);
    assert forall|t: int| 0 <= t < da.len() implies v[t] != 44 by {
        assert(v[t] == da[t]);
        assert(is_digit(da[t]));
    }
    crate::frame::lemma_find_byte_found(v, 0, 44, da.len() as int);
    assert(v.take(da.len() as int) =~= da);
    assert(v.skip(da.len() + 1 as int) =~= db);
}

/// A rendered acknowledgement mode reads back to the same mode.
pub proof fn lemma_ack_round_trip(m: AckMode)
    ensures
        ack_of(ack_render(m)) == Some(m),
{
    match m {
        AckMode::Auto => {
            crate::frame::lemma_neq_len(ack_render(AckMode::Auto), ack_render(AckMode::Client));
        },
        AckMode::Client => {
            crate::frame::lemma_neq_len(ack_render(AckMode::Client), ack_render(AckMode::Auto));
        },
        AckMode::ClientIndividual => {
            crate::frame::lemma_neq_len(
                ack_render(AckMode::ClientIndividual),
                ack_render(AckMode::Auto),
            );
            crate::frame::lemma_neq_len(
                ack_render(AckMode::ClientIndividual),
                ack_render(AckMode::Client),
            );
        },
    }
}

/// The inputs on which a client-bound message survives the mapping to
/// a frame and back unchanged: no extra headers beside the typed
/// fields' bucket, no declared `content-length`, and no bucket header
/// that spells an absent optional field's canonical name.
pub open spec fn rt_safe_to_server(m: MessageModel<ToServerModel>) -> bool {
    &&& m.extra_headers.len() == 0
    &&& !has_name(to_server_extra(m.content), cl_name())
    &&& match m.content {
        ToServerModel::Connect { login, passcode, heartbeat, headers, .. } => {
            &&& (login is None ==> !has_name(headers, hn_login()))
            &&& (passcode is None ==> !has_name(headers, hn_passcode()))
            &&& (heartbeat is None ==> !has_name(headers, hn_heart_beat()))
        },
        ToServerModel::Subscribe { ack, headers, .. } => ack is None ==> !has_name(
            headers,
            hn_ack(),
        ),
        _ => true,
    }
}

/// Mapping a client-bound message to its frame and back yields the
/// message unchanged, for every message without name collisions.
#[verifier::rlimit(100)]
pub proof fn lemma_to_server_round_trip(m: MessageModel<ToServerModel>)
    requires
        rt_safe_to_server(m),
    ensures
        client_msg_of_frame(to_server_frame(m)) == Ok::<MessageModel<ToServerModel>, MapError>(m),
        !has_name(to_server_frame(m).headers, cl_name()),
{
    crate::frame::lemma_has_name_first_val(to_server_frame(m).headers, cl_name());
    let c = m.content;
    let f = to_server_frame(m);
    let vh = to_server_extra(c);
    assert(f.headers =~~= to_server_canon(c) + vh);
    assert(m.extra_headers =~~= Seq::<(Seq<u8>, Seq<u8>)>::empty());
    assert(m =~~= MessageModel { content: c, extra_headers: Seq::empty() });
    crate::frame::lemma_first_val_absent(vh, cl_name());
    crate::frame::lemma_neq_first(cl_name(), hn_accept_version());
    crate::frame::lemma_neq_len(cl_name(), hn_host());
    crate::frame::lemma_neq_len(cl_name(), hn_login());
    crate::frame::lemma_neq_len(cl_name(), hn_passcode());
    crate::frame::lemma_neq_len(cl_name(), hn_heart_beat());
    crate::frame::lemma_neq_len(cl_name(), hn_destination());
    crate::frame::lemma_neq_len(cl_name(), hn_id());
    crate::frame::lemma_neq_len(cl_name(), hn_ack());
    crate::frame::lemma_neq_len(cl_name(), hn_transaction());
    match c {
        ToServerModel::Connect { accept_version, host, login, passcode, heartbeat, headers } => {
            crate::frame::lemma_neq_len(hn_accept_version(), hn_host());
            crate::frame::lemma_neq_len(hn_accept_version(), hn_login());
            crate::frame::lemma_neq_len(hn_accept_version(), hn_passcode());
            crate::frame::lemma_neq_len(hn_accept_version(), hn_heart_beat());
            crate::frame::lemma_neq_len(hn_host(), hn_login());
            crate::frame::lemma_neq_len(hn_host(), hn_passcode());
            crate::frame::lemma_neq_len(hn_host(), hn_heart_beat());
            crate::frame::lemma_neq_len(hn_login(), hn_passcode());
            crate::frame::lemma_neq_len(hn_login(), hn_heart_beat());
            crate::frame::lemma_neq_len(hn_passcode(), hn_heart_beat());
            let lhdr = opt_hdr(hn_login(), login);
            let phdr = opt_hdr(hn_passcode(), passcode);
            let hbh = hb_hdr(heartbeat);
            let r2 = lhdr + (phdr + (hbh + vh));
            let r1 = seq![(hn_host(), host)] + r2;
            assert(f.headers =~~= seq![(hn_accept_version(), accept_version)] + r1);
            // no content-length anywhere
            lemma_opt_other(hn_login(), login, cl_name());
            lemma_opt_other(hn_passcode(), passcode, cl_name());
            lemma_hb_other(heartbeat, cl_name());
            lemma_singleton_other(hn_accept_version(), accept_version, cl_name());
            lemma_singleton_other(hn_host(), host, cl_name());
            crate::frame::lemma_first_val_append(lhdr, phdr + (hbh + vh), cl_name());
            crate::frame::lemma_first_val_append(phdr, hbh + vh, cl_name());
            crate::frame::lemma_first_val_append(hbh, vh, cl_name());
            crate::frame::lemma_first_val_append(seq![(hn_host(), host)], r2, cl_name());
            crate::frame::lemma_first_val_append(
                seq![(hn_accept_version(), accept_version)],
                r1,
                cl_name(),
            );
            assert(cl_check(f.headers));
            // accept-version, then host
            lemma_extract_front(hn_accept_version(), accept_version, r1);
            lemma_extract_front(hn_host(), host, r2);
            // login
            lemma_opt_other(hn_passcode(), passcode, hn_login());
            lemma_hb_other(heartbeat, hn_login());
            crate::frame::lemma_first_val_append(phdr, hbh + vh, hn_login());
            crate::frame::lemma_first_val_append(hbh, vh, hn_login());
            let h3 = if login is Some {
                remove_first(r2, hn_login())
            } else {
                r2
            };
            match login {
                Some(l) => {
                    assert(lhdr =~~= seq![(hn_login(), l)]);
                    lemma_extract_front(hn_login(), l, phdr + (hbh + vh));
                    assert(r2 =~~= seq![(hn_login(), l)] + (phdr + (hbh + vh)));
                    assert(first_val(r2, hn_login()) == Some(l));
                    assert(h3 =~~= phdr + (hbh + vh));
                },
                None => {
                    assert(lhdr =~~= Seq::<(Seq<u8>, Seq<u8>)>::empty());
                    assert(r2 =~~= phdr + (hbh + vh));
                    crate::frame::lemma_first_val_append(phdr, hbh + vh, hn_login());
                    lemma_opt_other(hn_passcode(), passcode, hn_login());
                    crate::frame::lemma_first_val_append(hbh, vh, hn_login());
                    crate::frame::lemma_first_val_absent(vh, hn_login());
                    assert(first_val(r2, hn_login()) == None::<Seq<u8>>);
                    assert(h3 =~~= phdr + (hbh + vh));
                },
            }
            // passcode
            lemma_hb_other(heartbeat, hn_passcode());
            crate::frame::lemma_first_val_append(hbh, vh, hn_passcode());
            let h4 = if passcode is Some {
                remove_first(h3, hn_passcode())
            } else {
                h3
            };
            match passcode {
                Some(p) => {
                    assert(phdr =~~= seq![(hn_passcode(), p)]);
                    lemma_extract_front(hn_passcode(), p, hbh + vh);
                    assert(h3 =~~= seq![(hn_passcode(), p)] + (hbh + vh));
                    assert(first_val(h3, hn_passcode()) == Some(p));
                    assert(h4 =~~= hbh + vh);
                },
                None => {
                    assert(phdr =~~= Seq::<(Seq<u8>, Seq<u8>)>::empty());
                    assert(h3 =~~= hbh + vh);
                    crate::frame::lemma_first_val_absent(vh, hn_passcode());
                    assert(first_val(h3, hn_passcode()) == None::<Seq<u8>>);
                    assert(h4 =~~= hbh + vh);
                },
            }
            // heart-beat
            match heartbeat {
                Some(p) => {
                    assert(hbh =~~= seq![(hn_heart_beat(), hb_render(p.0, p.1))]);
                    lemma_extract_front(hn_heart_beat(), hb_render(p.0, p.1), vh);
                    assert(h4 =~~= seq![(hn_heart_beat(), hb_render(p.0, p.1))] + vh);
                    assert(first_val(h4, hn_heart_beat()) == Some(hb_render(p.0, p.1)));
                    lemma_hb_round_trip(p.0, p.1);
                    assert(remove_first(h4, hn_heart_beat()) =~~= vh);
                },
                None => {
                    assert(hbh =~~= Seq::<(Seq<u8>, Seq<u8>)>::empty());
                    assert(h4 =~~= vh);
                    crate::frame::lemma_first_val_absent(vh, hn_heart_beat());
                    assert(first_val(h4, hn_heart_beat()) == None::<Seq<u8>>);
                },
            }
            assert(client_msg_of_frame(f) == Ok::<MessageModel<ToServerModel>, MapError>(m));
        },
        ToServerModel::Send { destination, headers, body } => {
            lemma_singleton_other(hn_destination(), destination, cl_name());
            crate::frame::lemma_first_val_append(
                seq![(hn_destination(), destination)],
                vh,
                cl_name(),
            );
            crate::frame::lemma_first_val_absent(vh, cl_name());
            lemma_extract_front(hn_destination(), destination, vh);
            assert(client_msg_of_frame(f) == Ok::<MessageModel<ToServerModel>, MapError>(m));
        },
        ToServerModel::Subscribe { destination, id, ack, headers } => {
            crate::frame::lemma_neq_len(hn_destination(), hn_id());
            crate::frame::lemma_neq_len(hn_destination(), hn_ack());
            crate::frame::lemma_neq_len(hn_id(), hn_ack());
            let ah = ack_hdr(ack);
            let r2 = ah + vh;
            let r1 = seq![(hn_id(), id)] + r2;
            assert(f.headers =~~= seq![(hn_destination(), destination)] + r1);
            lemma_singleton_other(hn_destination(), destination, cl_name());
            lemma_singleton_other(hn_id(), id, cl_name());
            lemma_ack_other(ack, cl_name());
            crate::frame::lemma_first_val_append(ah, vh, cl_name());
            crate::frame::lemma_first_val_append(seq![(hn_id(), id)], r2, cl_name());
            crate::frame::lemma_first_val_append(seq![(hn_destination(), destination)], r1, cl_name());
            crate::frame::lemma_first_val_absent(vh, cl_name());
            assert(cl_check(f.headers));
            lemma_extract_front(hn_destination(), destination, r1);
            lemma_extract_front(hn_id(), id, r2);
            match ack {
                Some(a) => {
                    assert(ah =~~= seq![(hn_ack(), ack_render(a))]);
                    lemma_extract_front(hn_ack(), ack_render(a), vh);
                    assert(r2 =~~= seq![(hn_ack(), ack_render(a))] + vh);
                    assert(first_val(r2, hn_ack()) == Some(ack_render(a)));
                    lemma_ack_round_trip(a);
                    assert(remove_first(r2, hn_ack()) =~~= vh);
                },
                None => {
                    assert(ah =~~= Seq::<(Seq<u8>, Seq<u8>)>::empty());
                    assert(r2 =~~= vh);
                    crate::frame::lemma_first_val_absent(vh, hn_ack());
                    assert(first_val(r2, hn_ack()) == None::<Seq<u8>>);
                },
            }
            assert(client_msg_of_frame(f) == Ok::<MessageModel<ToServerModel>, MapError>(m));
        },
        ToServerModel::Unsubscribe { id, headers } => {
            lemma_singleton_other(hn_id(), id, cl_name());
            crate::frame::lemma_first_val_append(seq![(hn_id(), id)], vh, cl_name());
            crate::frame::lemma_first_val_absent(vh, cl_name());
            lemma_extract_front(hn_id(), id, vh);
            assert(client_msg_of_frame(f) == Ok::<MessageModel<ToServerModel>, MapError>(m));
        },
        ToServerModel::Ack { id, headers } => {
            lemma_singleton_other(hn_id(), id, cl_name());
            crate::frame::lemma_first_val_append(seq![(hn_id(), id)], vh, cl_name());
            crate::frame::lemma_first_val_absent(vh, cl_name());
            lemma_extract_front(hn_id(), id, vh);
            assert(client_msg_of_frame(f) == Ok::<MessageModel<ToServerModel>, MapError>(m));
        },
        ToServerModel::Nack { id, headers } => {
            lemma_singleton_other(hn_id(), id, cl_name());
            crate::frame::lemma_first_val_append(seq![(hn_id(), id)], vh, cl_name());
            crate::frame::lemma_first_val_absent(vh, cl_name());
            lemma_extract_front(hn_id(), id, vh);
            assert(client_msg_of_frame(f) == Ok::<MessageModel<ToServerModel>, MapError>(m));
        },
        ToServerModel::Begin { transaction, headers } => {
            lemma_singleton_other(hn_transaction(), transaction, cl_name());
            crate::frame::lemma_first_val_append(seq![(hn_transaction(), transaction)], vh, cl_name());
            crate::frame::lemma_first_val_absent(vh, cl_name());
            lemma_extract_front(hn_transaction(), transaction, vh);
            assert(client_msg_of_frame(f) == Ok::<MessageModel<ToServerModel>, MapError>(m));
        },
        ToServerModel::Commit { transaction, headers } => {
            lemma_singleton_other(hn_transaction(), transaction, cl_name());
            crate::frame::lemma_first_val_append(seq![(hn_transaction(), transaction)], vh, cl_name());
            crate::frame::lemma_first_val_absent(vh, cl_name());
            lemma_extract_front(hn_transaction(), transaction, vh);
            assert(client_msg_of_frame(f) == Ok::<MessageModel<ToServerModel>, MapError>(m));
        },
        ToServerModel::Abort { transaction, headers } => {
            lemma_singleton_other(hn_transaction(), transaction, cl_name());
            crate::frame::lemma_first_val_append(seq![(hn_transaction(), transaction)], vh, cl_name());
            crate::frame::lemma_first_val_absent(vh, cl_name());
            lemma_extract_front(hn_transaction(), transaction, vh);
            assert(client_msg_of_frame(f) == Ok::<MessageModel<ToServerModel>, MapError>(m));
        },
        ToServerModel::Disconnect { headers } => {
            assert(f.headers =~~= vh);
            crate::frame::lemma_first_val_absent(vh, cl_name());
            assert(client_msg_of_frame(f) == Ok::<MessageModel<ToServerModel>, MapError>(m));
        },
    }
}

/// The inputs on which a server-bound message survives the mapping to
/// a frame and back unchanged.
pub open spec fn rt_safe_from_server(m: MessageModel<FromServerModel>) -> bool {
    &&& m.extra_headers.len() == 0
    &&& !has_name(from_server_extra(m.content), cl_name())
    &&& match m.content {
        FromServerModel::Error { message, headers, .. } => message is None ==> !has_name(
            headers,
            hn_message(),
        ),
        _ => true,
    }
}

/// Mapping a server-bound message to its frame and back yields the
/// message unchanged, for every message without name collisions.
pub proof fn lemma_from_server_round_trip(m: MessageModel<FromServerModel>)
    requires
        rt_safe_from_server(m),
    ensures
        server_msg_of_frame(from_server_frame(m)) == Ok::<MessageModel<FromServerModel>, MapError>(
            m,
        ),
        !has_name(from_server_frame(m).headers, cl_name()),
{
    crate::frame::lemma_has_name_first_val(from_server_frame(m).headers, cl_name());
    let c = m.content;
    let f = from_server_frame(m);
    let vh = from_server_extra(c);
    assert(f.headers =~~= from_server_canon(c) + vh);
    assert(m.extra_headers =~~= Seq::<(Seq<u8>, Seq<u8>)>::empty());
    assert(m =~~= MessageModel { content: c, extra_headers: Seq::empty() });
    crate::frame::lemma_first_val_absent(vh, cl_name());
    crate::frame::lemma_neq_len(cl_name(), hn_version());
    crate::frame::lemma_neq_len(cl_name(), hn_destination());
    crate::frame::lemma_neq_len(cl_name(), hn_message_id());
    crate::frame::lemma_neq_len(cl_name(), hn_subscription());
    crate::frame::lemma_neq_len(cl_name(), hn_receipt_id());
    crate::frame::lemma_neq_len(cl_name(), hn_message());
    match c {
        FromServerModel::Connected { version, headers } => {
            lemma_singleton_other(hn_version(), version, cl_name());
            crate::frame::lemma_first_val_append(seq![(hn_version(), version)], vh, cl_name());
            crate::frame::lemma_first_val_absent(vh, cl_name());
            lemma_extract_front(hn_version(), version, vh);
            assert(server_msg_of_frame(f) == Ok::<MessageModel<FromServerModel>, MapError>(m));
        },
        FromServerModel::Message { destination, message_id, subscription, headers, body } => {
            crate::frame::lemma_neq_first(hn_destination(), hn_message_id());
            crate::frame::lemma_neq_len(hn_destination(), hn_subscription());
            crate::frame::lemma_neq_len(hn_message_id(), hn_subscription());
            let r2 = seq![(hn_subscription(), subscription)] + vh;
            let r1 = seq![(hn_message_id(), message_id)] + r2;
            assert(f.headers =~~= seq![(hn_destination(), destination)] + r1);
            lemma_singleton_other(hn_destination(), destination, cl_name());
            lemma_singleton_other(hn_message_id(), message_id, cl_name());
            lemma_singleton_other(hn_subscription(), subscription, cl_name());
            crate::frame::lemma_first_val_append(
                seq![(hn_subscription(), subscription)],
                vh,
                cl_name(),
            );
            crate::frame::lemma_first_val_append(seq![(hn_message_id(), message_id)], r2, cl_name());
            crate::frame::lemma_first_val_append(
                seq![(hn_destination(), destination)],
                r1,
                cl_name(),
            );
            crate::frame::lemma_first_val_absent(vh, cl_name());
            assert(cl_check(f.headers));
            lemma_extract_front(hn_destination(), destination, r1);
            lemma_extract_front(hn_message_id(), message_id, r2);
            lemma_extract_front(hn_subscription(), subscription, vh);
            assert(server_msg_of_frame(f) == Ok::<MessageModel<FromServerModel>, MapError>(m));
        },
        FromServerModel::Receipt { receipt_id, headers } => {
            lemma_singleton_other(hn_receipt_id(), receipt_id, cl_name());
            crate::frame::lemma_first_val_append(seq![(hn_receipt_id(), receipt_id)], vh, cl_name());
            crate::frame::lemma_first_val_absent(vh, cl_name());
            lemma_extract_front(hn_receipt_id(), receipt_id, vh);
            assert(server_msg_of_frame(f) == Ok::<MessageModel<FromServerModel>, MapError>(m));
        },
        FromServerModel::Error { message, headers, body } => {
            let mh = opt_hdr(hn_message(), message);
            assert(f.headers =~~= mh + vh);
            lemma_opt_other(hn_message(), message, cl_name());
            crate::frame::lemma_first_val_append(mh, vh, cl_name());
            crate::frame::lemma_first_val_absent(vh, cl_name());
            assert(cl_check(f.headers));
            match message {
                Some(x) => {
                    assert(mh =~~= seq![(hn_message(), x)]);
                    lemma_extract_front(hn_message(), x, vh);
                    assert(f.headers =~~= seq![(hn_message(), x)] + vh);
                    assert(first_val(f.headers, hn_message()) == Some(x));
                    assert(remove_first(f.headers, hn_message()) =~~= vh);
                },
                None => {
                    assert(mh =~~= Seq::<(Seq<u8>, Seq<u8>)>::empty());
                    assert(f.headers =~~= vh);
                    crate::frame::lemma_first_val_absent(vh, hn_message());
                    assert(first_val(f.headers, hn_message()) == None::<Seq<u8>>);
                },
            }
            assert(server_msg_of_frame(f) == Ok::<MessageModel<FromServerModel>, MapError>(m));
        },
    }
}

} // verus!
