//! How requests travel: in the process, by envelopes, or by bytes.
use vstd::prelude::*;

use crate::api_laws;
use crate::api_model::ApiV;
use crate::api_service::ApiService;
use crate::api_types::{
    RequestEnvelope, RequestEnvelopeV, ResponseEnvelope, ResponseEnvelopeV,
};
use crate::text::text_equal;
use crate::wire_codec;
use crate::wire_codec::GrpcWireCodec;
use crate::wire_fields::{GrpcCodecError, GrpcCodecErrorV};
use crate::wire_laws;

verus! {

pub const DEFAULT_GRPC_METHOD_PATH: &'static str = "/anvildb.v1.Api/Handle";

/// Why a request got no response.
#[derive(Debug, PartialEq, Eq)]
pub enum TransportError {
    Remote(String),
}

/// A [`TransportError`] over the characters of its message.
pub enum TransportErrorV {
    Remote(Seq<char>),
}

impl View for TransportError {
    type V = TransportErrorV;

    open spec fn view(&self) -> TransportErrorV {
        match self {
            TransportError::Remote(message) => TransportErrorV::Remote(message@),
        }
    }
}

impl Clone for TransportError {
    fn clone(&self) -> (r: Self)
        ensures
            r == *self,
    {
        match self {
            TransportError::Remote(message) => TransportError::Remote(message.clone()),
        }
    }
}

/// What comes back for a request.
pub type ReplyV = Result<ResponseEnvelopeV, TransportErrorV>;

/// What comes back for bytes.
pub type BytesReplyV = Result<Seq<u8>, TransportErrorV>;

/// The view of what comes back for a request.
pub open spec fn reply_view(r: Result<ResponseEnvelope, TransportError>) -> ReplyV {
    match r {
        Ok(response) => Ok(response@),
        Err(error) => Err(error@),
    }
}

/// The view of what comes back for bytes.
pub open spec fn bytes_reply_view(r: Result<Vec<u8>, TransportError>) -> BytesReplyV {
    match r {
        Ok(payload) => Ok(payload@),
        Err(error) => Err(error@),
    }
}

/// A way for requests to travel.
pub trait Transport: Sized {
    /// The transport can take the request.
    open spec fn ready(self, request: RequestEnvelopeV) -> bool {
        true
    }

    /// The transport may answer the request with the reply, and what becomes of
    /// it then.
    open spec fn carries(self, request: RequestEnvelopeV, after: Self, reply: ReplyV) -> bool {
        true
    }

    fn round_trip(&mut self, request: RequestEnvelope) -> (r: Result<
        ResponseEnvelope,
        TransportError,
    >)
        requires
            old(self).ready(request@),
        ensures
            old(self).carries(request@, *final(self), reply_view(r)),
    ;
}

/// Requests handed straight to the client interface.
pub struct InProcessTransport<'a> {
    pub service: &'a mut ApiService,
}

impl<'a> InProcessTransport<'a> {
    pub fn new(service: &'a mut ApiService) -> (r: Self)
        ensures
            *r.service == *old(service),
            *final(r.service) == *final(service),
    {
        InProcessTransport { service }
    }
}

impl<'a> Transport for InProcessTransport<'a> {
    open spec fn ready(self, request: RequestEnvelopeV) -> bool {
        self.service.wf() && self.service@.room_for_envelope(request)
    }

    open spec fn carries(self, request: RequestEnvelopeV, after: Self, reply: ReplyV) -> bool {
        &&& after.service.wf()
        &&& after.service@ == self.service@.handle(request).0
        &&& reply == Ok::<ResponseEnvelopeV, TransportErrorV>(self.service@.handle(request).1)
    }

    fn round_trip(&mut self, request: RequestEnvelope) -> (r: Result<
        ResponseEnvelope,
        TransportError,
    >)
        ensures
            *final(final(self).service) == *final(old(self).service),
    {
        Ok(self.service.handle(request))
    }
}

impl ApiService {
    /// A transport that hands requests straight to this interface.
    pub fn in_process_transport(&mut self) -> (r: InProcessTransport<'_>)
        ensures
            *r.service == *old(self),
            *final(self) == *final(r.service),
    {
        InProcessTransport::new(self)
    }
}

/// A client that carries envelopes to a method. Who implements it says what its
/// calls do.
pub trait GrpcEnvelopeClient: Sized {
    /// The client can call the method with the request.
    open spec fn can_call(self, method_path: Seq<char>, request: RequestEnvelopeV) -> bool {
        true
    }

    /// The client may answer the call with the reply, and what becomes of it
    /// then.
    open spec fn answers(
        self,
        method_path: Seq<char>,
        request: RequestEnvelopeV,
        after: Self,
        reply: ReplyV,
    ) -> bool {
        true
    }

    fn unary_call(&mut self, method_path: &str, request: &RequestEnvelope) -> (r: Result<
        ResponseEnvelope,
        TransportError,
    >)
        requires
            old(self).can_call(method_path@, request@),
        ensures
            old(self).answers(method_path@, request@, *final(self), reply_view(r)),
    ;
}

/// Requests carried by an envelope client.
pub struct GrpcTransportAdapter<C> {
    pub client: C,
    pub method_path: String,
}

impl<C> GrpcTransportAdapter<C> {
    pub fn new(client: C) -> (r: Self)
        ensures
            r.client == client,
            r.method_path@ == DEFAULT_GRPC_METHOD_PATH@,
    {
        GrpcTransportAdapter { client, method_path: DEFAULT_GRPC_METHOD_PATH.to_owned() }
    }

    pub fn with_method_path(self, method_path: String) -> (r: Self)
        ensures
            r == (GrpcTransportAdapter { method_path, ..self }),
    {
        GrpcTransportAdapter { client: self.client, method_path }
    }

    pub fn client(&self) -> (r: &C)
        ensures
            *r == self.client,
    {
        &self.client
    }

    pub fn client_mut(&mut self) -> (r: &mut C)
        ensures
            *r == old(self).client,
            *final(self) == (GrpcTransportAdapter { client: *final(r), ..*old(self) }),
    {
        &mut self.client
    }
}

impl<C: GrpcEnvelopeClient> Transport for GrpcTransportAdapter<C> {
    open spec fn ready(self, request: RequestEnvelopeV) -> bool {
        self.client.can_call(self.method_path@, request)
    }

    open spec fn carries(self, request: RequestEnvelopeV, after: Self, reply: ReplyV) -> bool {
        &&& after.method_path == self.method_path
        &&& self.client.answers(self.method_path@, request, after.client, reply)
    }

    fn round_trip(&mut self, request: RequestEnvelope) -> (r: Result<
        ResponseEnvelope,
        TransportError,
    >) {
        self.client.unary_call(self.method_path.as_str(), &request)
    }
}

/// A client that carries bytes to a method. Who implements it says what its
/// calls do.
pub trait GrpcWireClient: Sized {
    /// The client can call the method with the payload.
    open spec fn can_call(self, method_path: Seq<char>, payload: Seq<u8>) -> bool {
        true
    }

    /// The client may answer the call with the reply, and what becomes of it
    /// then.
    open spec fn answers(
        self,
        method_path: Seq<char>,
        payload: Seq<u8>,
        after: Self,
        reply: BytesReplyV,
    ) -> bool {
        true
    }

    fn unary_call_bytes(&mut self, method_path: &str, request_payload: &[u8]) -> (r: Result<
        Vec<u8>,
        TransportError,
    >)
        requires
            old(self).can_call(method_path@, request_payload@),
        ensures
            old(self).answers(method_path@, request_payload@, *final(self), bytes_reply_view(r)),
    ;
}

/// The error for a payload that cannot be read.
pub open spec fn unreadable(message: Seq<char>) -> TransportErrorV {
    TransportErrorV::Remote(GrpcCodecErrorV::InvalidPayload(message).display())
}

/// What the bytes that came back say.
pub open spec fn read_reply(reply: BytesReplyV) -> ReplyV {
    match reply {
        Err(error) => Err(error),
        Ok(payload) => match wire_codec::decoded_response(payload) {
            Ok(response) => Ok(response),
            Err(message) => Err(unreadable(message)),
        },
    }
}

/// Reads the bytes that came back.
pub fn interpret_reply(reply: Result<Vec<u8>, TransportError>) -> (r: Result<
    ResponseEnvelope,
    TransportError,
>)
    ensures
        reply_view(r) == read_reply(bytes_reply_view(reply)),
{
    match reply {
        Err(error) => Err(error),
        Ok(payload) => match GrpcWireCodec::decode_response(payload.as_slice()) {
            Ok(response) => Ok(response),
            Err(error) => Err(TransportError::Remote(error.to_string())),
        },
    }
}

/// Requests carried as bytes by a wire client.
pub struct GrpcWireTransportAdapter<C> {
    pub client: C,
    pub method_path: String,
}

impl<C> GrpcWireTransportAdapter<C> {
    pub fn new(client: C) -> (r: Self)
        ensures
            r.client == client,
            r.method_path@ == DEFAULT_GRPC_METHOD_PATH@,
    {
        GrpcWireTransportAdapter { client, method_path: DEFAULT_GRPC_METHOD_PATH.to_owned() }
    }

    pub fn with_method_path(self, method_path: String) -> (r: Self)
        ensures
            r == (GrpcWireTransportAdapter { method_path, ..self }),
    {
        GrpcWireTransportAdapter { client: self.client, method_path }
    }

    pub fn client(&self) -> (r: &C)
        ensures
            *r == self.client,
    {
        &self.client
    }

    pub fn client_mut(&mut self) -> (r: &mut C)
        ensures
            *r == old(self).client,
            *final(self) == (GrpcWireTransportAdapter { client: *final(r), ..*old(self) }),
    {
        &mut self.client
    }
}

impl<C: GrpcWireClient> Transport for GrpcWireTransportAdapter<C> {
    open spec fn ready(self, request: RequestEnvelopeV) -> bool {
        self.client.can_call(self.method_path@, wire_codec::request_bytes(request))
    }

    open spec fn carries(self, request: RequestEnvelopeV, after: Self, reply: ReplyV) -> bool {
        &&& after.method_path == self.method_path
        &&& exists|payload: BytesReplyV| #[trigger]
            self.client.answers(
                self.method_path@,
                wire_codec::request_bytes(request),
                after.client,
                payload,
            ) && reply == read_reply(payload)
    }

    fn round_trip(&mut self, request: RequestEnvelope) -> (r: Result<
        ResponseEnvelope,
        TransportError,
    >) {
        let payload = match GrpcWireCodec::encode_request(&request) {
            Ok(payload) => payload,
            Err(error) => {
                return Err(TransportError::Remote(error.to_string()));
            },
        };
        let reply = self.client.unary_call_bytes(self.method_path.as_str(), payload.as_slice());
        let ghost came_back = bytes_reply_view(reply);
        assert(old(self).client.answers(
            old(self).method_path@,
            wire_codec::request_bytes(request@),
            self.client,
            came_back,
        ));
        interpret_reply(reply)
    }
}

/// The client interface behind a wire.
#[derive(Debug)]
pub struct GrpcWireServer {
    pub service: ApiService,
}

/// What the server does for bytes to a method.
pub open spec fn served(api: ApiV, method_path: Seq<char>, payload: Seq<u8>) -> (
    ApiV,
    BytesReplyV,
) {
    if method_path != DEFAULT_GRPC_METHOD_PATH@ {
        (
            api,
            Err(
                TransportErrorV::Remote(
                    GrpcCodecErrorV::UnsupportedMethodPath(method_path).display(),
                ),
            ),
        )
    } else {
        match wire_codec::decoded_request(payload) {
            Err(message) => (api, Err(unreadable(message))),
            Ok(request) => (
                api.handle(request).0,
                Ok(wire_codec::response_bytes(api.handle(request).1)),
            ),
        }
    }
}

/// There is room for the request that the bytes to a method hold; bytes that
/// hold none, and those to another method, need none.
pub open spec fn room_for_bytes(api: ApiV, method_path: Seq<char>, payload: Seq<u8>) -> bool {
    method_path == DEFAULT_GRPC_METHOD_PATH@ ==> (wire_codec::decoded_request(
        payload,
    ) matches Ok(request) ==> api.room_for_envelope(request))
}

/// There is room for the request that the bytes to a method hold, whatever the
/// members answer.
pub open spec fn ample_room_for_bytes(api: ApiV, method_path: Seq<char>, payload: Seq<u8>) -> bool {
    method_path == DEFAULT_GRPC_METHOD_PATH@ ==> (wire_codec::decoded_request(
        payload,
    ) matches Ok(request) ==> api.ample_room_for(request))
}

/// The chunks one after the other.
pub open spec fn joined(chunks: Seq<Vec<u8>>) -> Seq<u8>
    decreases chunks.len(),
{
    if chunks.len() == 0 {
        Seq::empty()
    } else {
        joined(chunks.drop_last()) + chunks.last()@
    }
}

/// Puts chunks together.
fn join_chunks(chunks: &Vec<Vec<u8>>) -> (r: Vec<u8>)
    ensures
        r@ == joined(chunks@),
{
    let mut payload: Vec<u8> = Vec::new();
    let mut i: usize = 0;
    while i < chunks.len()
        invariant
            i <= chunks@.len(),
            payload@ == joined(chunks@.take(i as int)),
        decreases chunks@.len() - i,
    {
        assert(chunks@.take(i + 1).drop_last() =~= chunks@.take(i as int));
        payload.extend_from_slice(chunks[i].as_slice());
        assert(payload@ =~= joined(chunks@.take(i + 1)));
        i += 1;
    }
    assert(chunks@.take(i as int) =~= chunks@);
    payload
}

impl GrpcWireServer {
    pub fn new(service: ApiService) -> (r: Self)
        ensures
            r.service == service,
    {
        GrpcWireServer { service }
    }

    pub fn service(&self) -> (r: &ApiService)
        ensures
            *r == self.service,
    {
        &self.service
    }

    pub fn service_mut(&mut self) -> (r: &mut ApiService)
        ensures
            *r == old(self).service,
            final(self).service == *final(r),
    {
        &mut self.service
    }

    /// Serves the request that bytes hold.
    pub fn handle_unary_bytes(&mut self, method_path: &str, request_payload: &[u8]) -> (r: Result<
        Vec<u8>,
        TransportError,
    >)
        requires
            old(self).service.wf(),
            room_for_bytes(old(self).service@, method_path@, request_payload@),
        ensures
            final(self).service.wf(),
            final(self).service@ == served(
                old(self).service@,
                method_path@,
                request_payload@,
            ).0,
            bytes_reply_view(r) == served(old(self).service@, method_path@, request_payload@).1,
    {
        if !text_equal(method_path, DEFAULT_GRPC_METHOD_PATH) {
            let error = GrpcCodecError::UnsupportedMethodPath(method_path.to_owned());
            return Err(TransportError::Remote(error.to_string()));
        }
        let request = match GrpcWireCodec::decode_request(request_payload) {
            Ok(request) => request,
            Err(error) => {
                return Err(TransportError::Remote(error.to_string()));
            },
        };
        let response = self.service.handle(request);
        match GrpcWireCodec::encode_response(&response) {
            Ok(payload) => Ok(payload),
            Err(error) => Err(TransportError::Remote(error.to_string())),
        }
    }

    /// Serves the request that chunks of bytes hold together.
    pub fn handle_unary_chunked_bytes(
        &mut self,
        method_path: &str,
        request_chunks: &Vec<Vec<u8>>,
    ) -> (r: Result<Vec<u8>, TransportError>)
        requires
            old(self).service.wf(),
            room_for_bytes(old(self).service@, method_path@, joined(request_chunks@)),
        ensures
            final(self).service.wf(),
            final(self).service@ == served(
                old(self).service@,
                method_path@,
                joined(request_chunks@),
            ).0,
            bytes_reply_view(r) == served(
                old(self).service@,
                method_path@,
                joined(request_chunks@),
            ).1,
    {
        let request_payload = join_chunks(request_chunks);
        self.handle_unary_bytes(method_path, request_payload.as_slice())
    }

    /// Serves the request that chunks of bytes hold together, where there is
    /// room for it whatever the members answer.
    pub fn try_handle_unary_chunked_bytes(
        &mut self,
        method_path: &str,
        request_chunks: &Vec<Vec<u8>>,
    ) -> (r: Option<Result<Vec<u8>, TransportError>>)
        requires
            old(self).service.wf(),
        ensures
            final(self).service.wf(),
            ({
                let payload = joined(request_chunks@);
                let (after, reply) = served(old(self).service@, method_path@, payload);
                if ample_room_for_bytes(old(self).service@, method_path@, payload) {
                    &&& final(self).service@ == after
                    &&& r is Some && bytes_reply_view(r->0) == reply
                } else {
                    r is None && *final(self) == *old(self)
                }
            }),
    {
        let request_payload = join_chunks(request_chunks);
        if text_equal(method_path, DEFAULT_GRPC_METHOD_PATH) {
            if let Ok(request) = GrpcWireCodec::decode_request(request_payload.as_slice()) {
                if !self.service.has_room_for(&request) {
                    return None;
                }
                proof {
                    api_laws::ample_room_suffices(self.service@, request@);
                }
            }
        }
        Some(self.handle_unary_chunked_bytes(method_path, request_chunks))
    }
}

/// The wire changes nothing: a request that travels as bytes, in chunks or as
/// one, is served as it would be in the process, and its response is read back
/// as it was given.
pub proof fn the_wire_changes_nothing(
    api: ApiV,
    request: RequestEnvelopeV,
    chunks: Seq<Vec<u8>>,
)
    requires
        wire_laws::request_fits(request),
        wire_laws::response_fits(api.handle(request).1),
        joined(chunks) == wire_codec::request_bytes(request),
    ensures
        ({
            let (after, reply) = served(api, DEFAULT_GRPC_METHOD_PATH@, joined(chunks));
            &&& after == api.handle(request).0
            &&& read_reply(reply) == Ok::<ResponseEnvelopeV, TransportErrorV>(
                api.handle(request).1,
            )
        }),
{
    wire_laws::request_reads_back(request);
    wire_laws::response_reads_back(api.handle(request).1);
}

/// How bytes are cut into chunks makes no difference, empty chunks included: the
/// same room is asked for, the same is done, and the same is replied, and all of
/// it as for the bytes in one piece.
pub proof fn cutting_makes_no_difference(
    api: ApiV,
    method_path: Seq<char>,
    payload: Seq<u8>,
    chunks: Seq<Vec<u8>>,
    others: Seq<Vec<u8>>,
)
    requires
        joined(chunks) == payload,
        joined(others) == payload,
    ensures
        served(api, method_path, joined(chunks)) == served(api, method_path, payload),
        served(api, method_path, joined(others)) == served(api, method_path, joined(chunks)),
        room_for_bytes(api, method_path, joined(others)) == room_for_bytes(
            api,
            method_path,
            joined(chunks),
        ),
{
}

/// An empty chunk adds nothing, wherever it stands.
pub proof fn empty_chunks_add_nothing(before: Seq<Vec<u8>>, empty: Vec<u8>, after: Seq<Vec<u8>>)
    requires
        empty@.len() == 0,
    ensures
        joined(before + seq![empty] + after) == joined(before + after),
    decreases after.len(),
{
    if after.len() == 0 {
        assert((before + seq![empty] + after).drop_last() =~= before);
        assert(before + after =~= before);
        assert(joined(before) + empty@ =~= joined(before));
    } else {
        let rest = after.drop_last();
        empty_chunks_add_nothing(before, empty, rest);
        assert((before + seq![empty] + after).drop_last() =~= before + seq![empty] + rest);
        assert((before + after).drop_last() =~= before + rest);
    }
}

/// Only whole requests to the right method reach the client interface: part of
/// a request, a request with more behind it, and any request to another method
/// change nothing and are answered with an error.
pub proof fn broken_requests_change_nothing(
    api: ApiV,
    request: RequestEnvelopeV,
    n: int,
    more: Seq<u8>,
    method_path: Seq<char>,
)
    requires
        wire_laws::request_fits(request),
        0 <= n < wire_codec::request_bytes(request).len(),
        more.len() > 0,
        method_path != DEFAULT_GRPC_METHOD_PATH@,
    ensures
        ({
            let whole = wire_codec::request_bytes(request);
            let path = DEFAULT_GRPC_METHOD_PATH@;
            &&& served(api, path, whole.take(n)).0 == api
            &&& served(api, path, whole.take(n)).1 is Err
            &&& served(api, path, whole + more).0 == api
            &&& served(api, path, whole + more).1 is Err
            &&& served(api, method_path, whole).0 == api
            &&& served(api, method_path, whole).1 is Err
        }),
{
    wire_laws::truncated_requests_are_refused(request, n);
    wire_laws::request_and_nothing_else(request, more);
}

} // verus!
