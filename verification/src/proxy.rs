//! What the proxy does with a request, with a response to it, and with the end
//! of that response.

use hyper::header::HeaderValue;
use hyper::header::ToStrError;
use hyper::http::uri::InvalidUri;
use hyper::HeaderMap;
use hyper::Uri;
use vstd::prelude::*;
use vstd::slice::slice_to_vec;
use vstd::utf8::encode_utf8;

use crate::body::{buffer_from, bytes_of, CacheBody, IncomingTeeSink};
use crate::cache::{
    after_get, after_put, after_uses, content_of, distinct_keys, law_no_other_content,
    law_recent_contents_stay, law_store_drives_out_oldest, leave_alone, used_keys, Held, MemCache,
    Use,
};
use crate::entry::{
    are_fields, cache_header_name, encode_head, fields_fit, is_decodable, is_encodable, is_field,
    is_stored_name, last_value, law_entry_is_decodable, law_entry_reads_back,
    law_every_other_name_is_replayed, law_replay_has_last_values, law_replay_of_distinct_fields,
    lemma_last_value, lemma_replay, lemma_stored_distinct, lemma_stored_names, read_entry,
    replayed_fields, stored_fields, try_bytes_to_parts, try_response_to_bytes, Entry, ResponseHead,
    CACHE_HEADER,
};
use crate::headers::{
    append_header, are_held_fields, distinct_names, field_names, first_value, has_room,
    header_fields, header_text, header_value, insert_header, is_header_value, is_value_byte,
    is_visible, is_visible_byte, law_few_fields_have_room, law_other_fields_stay,
    lemma_field_names, lemma_with_field, lower, new_headers, take_headers, with_field,
    without_name, Fields,
};
use crate::status::is_status;
use crate::text::{
    ascii, ascii_bytes, contains, decimal, law_decimal_reads_back, occurs_in, push_decimal,
    usize_of_text,
};

verus! {

/// The upstream host.
pub struct Config {
    pub target_host: String,
    pub target_port: u16,
}

/// What a request lets the cache do.
pub struct RequestCacheControl {
    /// The request may be answered from the cache.
    pub read_cache: bool,
    /// The response to it may be stored.
    pub write_cache: bool,
}

/// A `Cache-Control` header field cannot be read as text, for the reason given.
#[derive(Debug)]
pub enum CacheControlError {
    Request(ToStrError),
    Response(ToStrError),
}

/// The request line and header fields of a request.
pub struct RequestHead {
    pub method: String,
    pub path: String,
    pub query: Option<String>,
    pub headers: HeaderMap<HeaderValue>,
}

/// The target and header fields of the request that goes to the upstream host.
pub struct UpstreamRequest {
    pub uri: String,
    pub headers: HeaderMap<HeaderValue>,
}

/// A response to a client.
pub struct ProxyResponse {
    pub head: ResponseHead,
    pub body: CacheBody,
}

/// What is to be done about a request.
pub enum Step {
    /// It cannot be served.
    Reject(CacheControlError),
    /// It has its response.
    Respond(ProxyResponse),
    /// It goes to the upstream host. `control` and `key` are for the response.
    Forward { request: UpstreamRequest, control: RequestCacheControl, key: String },
}

/// The query of a request, or nothing.
pub open spec fn query_text(query: Option<String>) -> Seq<char> {
    match query {
        Some(query) => query@,
        None => Seq::empty(),
    }
}

/// The key that responses to a request are cached under.
pub open spec fn cache_key(path: Seq<char>, query: Seq<char>) -> Seq<char> {
    path + "::"@ + query
}

/// The upstream host with its port.
pub open spec fn host_text(config: Config) -> Seq<char> {
    config.target_host@ + ":"@ + decimal(config.target_port as nat)
}

/// The address of the upstream resource for a request.
pub open spec fn upstream_address(config: Config, path: Seq<char>, query: Seq<char>) -> Seq<char> {
    "http://"@ + host_text(config) + "/"@ + path + "?"@ + query
}

/// The `Cache-Control` value of a request: empty where there is none, no value
/// where it is not text.
pub open spec fn request_directives(fields: Fields) -> Option<Seq<u8>> {
    match first_value(fields, ascii("cache-control"@)) {
        None => Some(Seq::empty()),
        Some(value) => if is_visible(value) {
            Some(value)
        } else {
            None
        },
    }
}

/// What a request lets the cache do: a `GET` without `no-cache` is answered
/// from it, the response to a request without `no-store` is stored.
pub open spec fn request_control(req: RequestHead) -> Option<RequestCacheControl> {
    match request_directives(header_fields(req.headers)) {
        None => None,
        Some(directives) => Some(
            RequestCacheControl {
                read_cache: req.method@ == "GET"@ && !occurs_in(directives, ascii("no-cache"@)),
                write_cache: !occurs_in(directives, ascii("no-store"@)),
            },
        ),
    }
}

/// Whether a response is stored, where that can be told: where the request
/// lets it, and the response has no `Cache-Control` or one with `no-store`.
pub open spec fn is_stored_response(control: RequestCacheControl, fields: Fields) -> Option<bool> {
    if !control.write_cache {
        Some(false)
    } else {
        match first_value(fields, ascii("cache-control"@)) {
            None => Some(true),
            Some(value) => if is_visible(value) {
                Some(occurs_in(value, ascii("no-store"@)))
            } else {
                None
            },
        }
    }
}

/// The upstream host can be a header value.
pub open spec fn is_host_value(config: Config) -> bool {
    is_header_value(encode_utf8(host_text(config)))
}

/// A request that is sure to go to the upstream host: the address is a URI,
/// the host can be a header value, and the header map has room for it.
pub open spec fn is_forwardable(config: Config, req: RequestHead) -> bool {
    &&& parsed_uri(upstream_address(config, req.path@, query_text(req.query))) is Some
    &&& is_host_value(config)
    &&& has_room(header_fields(req.headers))
}

/// The request that goes to the upstream host: its URI is the upstream
/// address, its `Host` the upstream host.
pub open spec fn is_upstream_of(request: UpstreamRequest, config: Config, req: RequestHead) -> bool {
    &&& is_host_value(config)
    &&& parsed_uri(upstream_address(config, req.path@, query_text(req.query))) == Some(request.uri@)
    &&& header_fields(request.headers) == with_field(
        header_fields(req.headers),
        ascii("host"@),
        encode_utf8(host_text(config)),
    )
}

/// The response that an entry of the cache holds.
pub open spec fn is_replay_of(response: ProxyResponse, content: Seq<u8>) -> bool {
    &&& read_entry(content) matches Some(entry)
    &&& response.head.status == entry.status
    &&& header_fields(response.head.headers) == replayed_fields(entry.fields)
    &&& response.body matches CacheBody::Source(body) && bytes_of(body) == entry.body
}

/// What the cache answers a request with, where the request lets it.
pub open spec fn cached(control: RequestCacheControl, held: Held, key: Seq<char>) -> Option<
    Seq<u8>,
> {
    if control.read_cache {
        content_of(held, key)
    } else {
        None
    }
}

/// The response to a client for a response of the upstream host. It has the
/// same status and fields, and says whether it is being stored. One that is
/// being stored has its body watched, behind the entry for its head.
pub open spec fn is_marked(
    response: ProxyResponse,
    key: Seq<char>,
    head: ResponseHead,
    stored: bool,
) -> bool {
    let fields = header_fields(head.headers);
    let mark = if stored {
        "miss"@
    } else {
        "skip"@
    };
    &&& response.head.status == head.status
    &&& header_fields(response.head.headers) == with_field(
        fields,
        cache_header_name(),
        ascii(mark),
    )
    &&& match response.body {
        CacheBody::Sink(tee) => {
            &&& stored
            &&& tee.head() == Some(encode_head(head.status, fields))
            &&& tee.body() == Seq::<u8>::empty()
            &&& tee.key() == key
        },
        CacheBody::Source(_) => false,
        CacheBody::Skip => !stored,
    }
}

#[verifier::external_type_specification]
#[verifier::external_body]
pub struct ExInvalidUri(InvalidUri);

/// The URI that a text denotes, written out; none where it is no URI.
pub uninterp spec fn parsed_uri(text: Seq<char>) -> Option<Seq<char>>;

/// `Uri::from_str` reads a URI. Which texts it accepts, and how it writes them
/// out, is left to its name.
#[verifier::external_body]
fn parse_uri(text: &str) -> (uri: Result<String, InvalidUri>)
    ensures
        match uri {
            Ok(uri) => parsed_uri(text@) == Some(uri@),
            Err(_) => parsed_uri(text@) is None,
        },
{
    text.parse::<Uri>().map(|uri| uri.to_string())
}

impl CacheControlError {
    /// The error as a sentence.
    pub fn message(&self) -> (text: &'static str)
        ensures
            text@ == match self {
                CacheControlError::Request(_) => "invalid cache-control request header value"@,
                CacheControlError::Response(_) => "invalid cache-control response header value"@,
            },
    {
        match self {
            CacheControlError::Request(_) => "invalid cache-control request header value",
            CacheControlError::Response(_) => "invalid cache-control response header value",
        }
    }

    /// Why the field cannot be read.
    pub fn into_source(self) -> (source: ToStrError)
        ensures
            self == CacheControlError::Request(source) || self == CacheControlError::Response(
                source,
            ),
    {
        match self {
            CacheControlError::Request(source) => source,
            CacheControlError::Response(source) => source,
        }
    }
}

impl Config {
    /// The upstream host with its port.
    pub fn host(&self) -> (host: String)
        ensures
            host@ == host_text(*self),
    {
        let mut host = self.target_host.clone();
        host.append(":");
        push_decimal(&mut host, self.target_port);
        host
    }

    /// The address of the upstream resource for a request.
    pub fn address(&self, path: &str, query: &str) -> (address: String)
        ensures
            address@ == upstream_address(*self, path@, query@),
    {
        let mut address = "http://".to_string();
        address.append(self.host().as_str());
        address.append("/");
        address.append(path);
        address.append("?");
        address.append(query);
        address
    }
}

impl RequestHead {
    /// The query, or nothing.
    fn query(&self) -> (query: &str)
        ensures
            query@ == query_text(self.query),
    {
        match &self.query {
            Some(query) => query.as_str(),
            None => {
                proof {
                    reveal_strlit("");
                    assert(""@ == Seq::<char>::empty());
                }
                ""
            },
        }
    }

    /// The key that responses to the request are cached under.
    pub fn key(&self) -> (key: String)
        ensures
            key@ == cache_key(self.path@, query_text(self.query)),
    {
        let mut key = self.path.clone();
        key.append("::");
        key.append(self.query());
        key
    }
}

/// The first `Cache-Control` value, as text.
fn directives(headers: &HeaderMap<HeaderValue>) -> (text: Option<Result<String, ToStrError>>)
    ensures
        match text {
            Some(Ok(text)) => {
                &&& text.is_ascii()
                &&& is_visible(ascii(text@))
                &&& first_value(header_fields(*headers), ascii("cache-control"@)) == Some(
                    ascii(text@),
                )
            },
            Some(Err(_)) => first_value(
                header_fields(*headers),
                ascii("cache-control"@),
            ) matches Some(value) && !is_visible(value),
            None => first_value(header_fields(*headers), ascii("cache-control"@)) is None,
        },
{
    proof {
        reveal_strlit("cache-control");
        assert(lower(ascii("cache-control"@)) == ascii("cache-control"@));
    }
    header_text(headers, "cache-control")
}

/// A response from the cache is put together field by field; `None` where a
/// header map has no room for them.
fn copy_headers(headers: HeaderMap<HeaderValue>) -> (copy: Option<HeaderMap<HeaderValue>>)
    requires
        distinct_names(header_fields(headers)),
        are_fields(header_fields(headers)),
    ensures
        has_room(header_fields(headers)) ==> copy is Some,
        copy matches Some(copy) ==> header_fields(copy) == header_fields(headers),
{
    let ghost fields = header_fields(headers);
    let list = take_headers(headers);
    let mut copy = new_headers();
    for i in 0..list.len()
        invariant
            list@.len() == fields.len(),
            forall|j: int|
                #![trigger list@[j]]
                0 <= j < list@.len() ==> {
                    &&& list@[j].1@ == fields[j].1
                    &&& list@[j].0 is Some <==> (j == 0 || fields[j - 1].0 != fields[j].0)
                    &&& list@[j].0 matches Some(name) ==> name@ == fields[j].0
                },
            distinct_names(fields),
            are_fields(fields),
            fields == header_fields(headers),
            header_fields(copy) == fields.take(i as int),
    {
        let ghost done = fields.take(i as int);
        proof {
            assert(is_field(fields[i as int]));
            if i > 0 {
                assert(fields[i - 1].0 != fields[i as int].0);
            }
            lemma_field_names(done, fields[i as int].0);
            assert forall|name: Seq<u8>| #[trigger]
                field_names(done).contains(name) implies field_names(fields).contains(name) by {
                lemma_field_names(done, name);
                lemma_field_names(fields, name);
                let j = choose|j: int| 0 <= j < done.len() && (#[trigger] done[j]).0 == name;
                assert(fields[j].0 == name);
            }
            lemma_field_names(fields, fields[i as int].0);
            vstd::set_lib::lemma_len_subset(field_names(done), field_names(fields));
        }
        let name = list[i].0.as_ref().unwrap();
        if !append_header(&mut copy, name.as_slice(), list[i].1.as_slice()) {
            return None;
        }
        assert(fields.take(i + 1) == done.push(fields[i as int]));
    }
    assert(fields.take(fields.len() as int) == fields);
    Some(copy)
}

/// The proxy: where it forwards to, and what it has cached.
pub struct CachingProxy {
    lru: MemCache,
    config: Config,
}

impl CachingProxy {
    /// What is cached, the most recently used first.
    pub closed spec fn held(&self) -> Held {
        self.lru@
    }

    /// How many responses the cache was made for.
    pub closed spec fn capacity(&self) -> nat {
        self.lru.capacity()
    }

    /// Where requests are forwarded to.
    pub closed spec fn target(&self) -> Config {
        self.config
    }

    /// No key is cached twice, and no more keys than the cache was made for.
    pub open spec fn wf(&self) -> bool {
        &&& 0 < self.capacity()
        &&& self.held().len() <= self.capacity()
        &&& distinct_keys(self.held())
    }

    /// A proxy in front of a host.
    pub fn new(config: Config, lru: MemCache) -> (proxy: Self)
        ensures
            proxy.target() == config,
            proxy.held() == lru@,
            proxy.capacity() == lru.capacity(),
            lru.wf() ==> proxy.wf(),
    {
        CachingProxy { lru, config }
    }

    /// What a request lets the cache do. Its `Cache-Control` must be text.
    pub fn configure_caching(&self, req: &RequestHead) -> (control: Result<
        RequestCacheControl,
        CacheControlError,
    >)
        ensures
            match control {
                Ok(control) => request_control(*req) == Some(control),
                Err(error) => error is Request && request_control(*req) is None,
            },
    {
        proof {
            reveal_strlit("no-cache");
            reveal_strlit("no-store");
        }
        let text = match directives(&req.headers) {
            Some(Ok(text)) => text,
            Some(Err(source)) => return Err(CacheControlError::Request(source)),
            None => String::new(),
        };
        assert(ascii(Seq::<char>::empty()) == Seq::<u8>::empty());
        let value = ascii_bytes(text.as_str());
        let get = "GET".to_string();
        let read_cache = req.method == get && !contains(value, ascii_bytes("no-cache"));
        let write_cache = !contains(value, ascii_bytes("no-store"));
        Ok(RequestCacheControl { read_cache, write_cache })
    }

    /// Whether a response is stored. Its `Cache-Control` must be text, where
    /// the request lets it be stored at all.
    pub fn cache_response(cfg: &RequestCacheControl, res: &ResponseHead) -> (stored: Result<
        bool,
        CacheControlError,
    >)
        ensures
            match stored {
                Ok(stored) => is_stored_response(*cfg, header_fields(res.headers)) == Some(stored),
                Err(error) => {
                    &&& error is Response
                    &&& is_stored_response(*cfg, header_fields(res.headers)) is None
                },
            },
    {
        proof {
            reveal_strlit("no-store");
        }
        if cfg.write_cache {
            match directives(&res.headers) {
                Some(Ok(text)) => Ok(
                    contains(ascii_bytes(text.as_str()), ascii_bytes("no-store")),
                ),
                Some(Err(source)) => Err(CacheControlError::Response(source)),
                None => Ok(true),
            }
        } else {
            Ok(false)
        }
    }

    /// What is cached under a key, where the request lets the cache answer.
    pub fn read_cache(&mut self, config: &RequestCacheControl, key: &str) -> (content: Option<
        Vec<u8>,
    >)
        ensures
            match content {
                Some(content) => config.read_cache && content_of(old(self).held(), key@) == Some(
                    content@,
                ),
                None => config.read_cache ==> content_of(old(self).held(), key@) is None,
            },
            final(self).held() == if config.read_cache {
                after_get(old(self).held(), key@)
            } else {
                old(self).held()
            },
            final(self).capacity() == old(self).capacity(),
            final(self).target() == old(self).target(),
            old(self).wf() ==> final(self).wf(),
    {
        if config.read_cache {
            self.lru.get_key(key)
        } else {
            None
        }
    }

    /// The response that an entry of the cache holds; `None` where the content
    /// is no entry, or where a header map has no room for its fields.
    pub fn replay(content: &[u8]) -> (response: Option<ProxyResponse>)
        ensures
            is_decodable(content@) ==> response is Some,
            response matches Some(response) ==> is_replay_of(response, content@),
    {
        match try_bytes_to_parts(content) {
            Some((status, headers, body)) => {
                proof {
                    lemma_replay(content@);
                }
                let headers = match copy_headers(headers) {
                    Some(headers) => headers,
                    None => return None,
                };
                let body = CacheBody::Source(buffer_from(slice_to_vec(body)));
                Some(ProxyResponse { head: ResponseHead { status, headers }, body })
            },
            None => None,
        }
    }

    /// The request that goes to the upstream host, given the URI that its
    /// address was read as; `None` where it was not read, where the host is no
    /// header value, or where the header map has no room for it.
    pub fn forward_to(&self, uri: Option<String>, req: RequestHead) -> (request: Option<
        UpstreamRequest,
    >)
        ensures
            uri is Some && is_host_value(self.target()) && has_room(header_fields(req.headers))
                ==> request is Some,
            request matches Some(request) ==> {
                &&& is_host_value(self.target())
                &&& uri == Some(request.uri)
                &&& header_fields(request.headers) == with_field(
                    header_fields(req.headers),
                    ascii("host"@),
                    encode_utf8(host_text(self.target())),
                )
            },
    {
        proof {
            reveal_strlit("host");
            assert(lower(ascii("host"@)) == ascii("host"@));
        }
        let host = self.config.host();
        let value = match header_value(host.as_str().as_bytes()) {
            Ok(value) => value,
            Err(_) => return None,
        };
        match uri {
            Some(uri) => {
                let mut headers = req.headers;
                if insert_header(&mut headers, ascii_bytes("host"), value.as_slice()) {
                    Some(UpstreamRequest { uri, headers })
                } else {
                    None
                }
            },
            None => None,
        }
    }

    /// The request that goes to the upstream host; `None` where there can be
    /// none.
    pub fn forward(&self, req: RequestHead) -> (request: Option<UpstreamRequest>)
        ensures
            is_forwardable(self.target(), req) ==> request is Some,
            request matches Some(request) ==> is_upstream_of(request, self.target(), req),
    {
        let address = self.config.address(req.path.as_str(), req.query());
        let uri = match parse_uri(address.as_str()) {
            Ok(uri) => Some(uri),
            Err(_) => None,
        };
        self.forward_to(uri, req)
    }

    /// What is to be done about a request: it is rejected where its
    /// `Cache-Control` is not text, answered from the cache where it lets the
    /// cache answer and the cache can, and goes to the upstream host otherwise.
    ///
    /// `None` where what is cached cannot be replayed, or where the request has
    /// to go to the upstream host and cannot.
    pub fn call(&mut self, req: RequestHead) -> (step: Option<Step>)
        ensures
            request_control(req) matches Some(control) ==> {
                let key = cache_key(req.path@, query_text(req.query));
                &&& final(self).held() == if control.read_cache {
                    after_get(old(self).held(), key)
                } else {
                    old(self).held()
                }
                &&& match cached(control, old(self).held(), key) {
                    Some(content) => {
                        &&& is_decodable(content) ==> step is Some
                        &&& step matches Some(step) ==> step matches Step::Respond(response)
                            && is_replay_of(response, content)
                    },
                    None => {
                        &&& is_forwardable(old(self).target(), req) ==> step is Some
                        &&& step matches Some(step) ==> step matches Step::Forward {
                            request,
                            control: granted,
                            key: used,
                        } && is_upstream_of(request, old(self).target(), req) && granted == control
                            && used@ == key
                    },
                }
            },
            request_control(req) is None ==> {
                &&& step matches Some(Step::Reject(CacheControlError::Request(_)))
                &&& final(self).held() == old(self).held()
            },
            final(self).capacity() == old(self).capacity(),
            final(self).target() == old(self).target(),
            old(self).wf() ==> final(self).wf(),
    {
        let key = req.key();
        let control = match self.configure_caching(&req) {
            Ok(control) => control,
            Err(error) => return Some(Step::Reject(error)),
        };
        match self.read_cache(&control, key.as_str()) {
            Some(content) => match Self::replay(content.as_slice()) {
                Some(response) => Some(Step::Respond(response)),
                None => None,
            },
            None => match self.forward(req) {
                Some(request) => Some(Step::Forward { request, control, key }),
                None => None,
            },
        }
    }

    /// The response to a client for a response of the upstream host. One that
    /// is stored is watched, and marked as a miss; any other is marked as
    /// skipped.
    ///
    /// `None` where the header map has no room for the mark, or where the
    /// response is to be stored and no entry can be made for it.
    pub fn receive(control: &RequestCacheControl, key: String, head: ResponseHead) -> (response:
        Option<Result<ProxyResponse, CacheControlError>>)
        requires
            is_status(head.status),
        ensures
            match is_stored_response(*control, header_fields(head.headers)) {
                None => response matches Some(Err(CacheControlError::Response(_))),
                Some(stored) => {
                    &&& (stored ==> is_encodable(head)) && has_room(header_fields(head.headers))
                        ==> response is Some
                    &&& response matches Some(response) ==> {
                        &&& stored ==> is_encodable(head) && are_held_fields(
                            header_fields(head.headers),
                        )
                        &&& response matches Ok(response) && is_marked(
                            response,
                            key@,
                            head,
                            stored,
                        )
                    }
                },
            },
    {
        proof {
            reveal_strlit("X-CRAP-CACHE");
            reveal_strlit("x-crap-cache");
            reveal_strlit("miss");
            reveal_strlit("skip");
            assert(lower(ascii(CACHE_HEADER@)) == cache_header_name());
        }
        let stored = match Self::cache_response(control, &head) {
            Ok(stored) => stored,
            Err(error) => return Some(Err(error)),
        };
        if stored {
            let sink = match try_response_to_bytes(&head) {
                Some(sink) => sink,
                None => return None,
            };
            let mut headers = head.headers;
            if !insert_header(&mut headers, ascii_bytes(CACHE_HEADER), ascii_bytes("miss")) {
                return None;
            }
            let body = CacheBody::Sink(IncomingTeeSink::new(sink, key));
            Some(Ok(ProxyResponse { head: ResponseHead { status: head.status, headers }, body }))
        } else {
            let mut headers = head.headers;
            if !insert_header(&mut headers, ascii_bytes(CACHE_HEADER), ascii_bytes("skip")) {
                return None;
            }
            let body = CacheBody::Skip;
            Some(Ok(ProxyResponse { head: ResponseHead { status: head.status, headers }, body }))
        }
    }

    /// Ends the watch over a response. One whose body has come to its end is
    /// cached; of any other nothing is.
    pub fn finish(&mut self, tee: &mut IncomingTeeSink, end_stream: bool)
        requires
            old(tee).head() is Some,
        ensures
            final(tee).head() is None,
            final(self).held() == if end_stream {
                after_put(
                    old(self).held(),
                    old(self).capacity(),
                    old(tee).key(),
                    old(tee).head().unwrap() + old(tee).body(),
                )
            } else {
                old(self).held()
            },
            final(self).capacity() == old(self).capacity(),
            final(self).target() == old(self).target(),
            old(self).wf() ==> final(self).wf(),
    {
        tee.finish(end_stream, &mut self.lru);
    }
}

/// Only a `GET` whose `Cache-Control` does not say `no-cache` is answered from
/// the cache.
pub proof fn law_only_plain_get_reads(req: RequestHead, held: Held, key: Seq<char>)
    requires
        request_control(req) is Some,
        req.method@ != "GET"@ || occurs_in(
            request_directives(header_fields(req.headers)).unwrap(),
            ascii("no-cache"@),
        ),
    ensures
        cached(request_control(req).unwrap(), held, key) is None,
{
}

/// The response to a request whose `Cache-Control` says `no-store` is never
/// stored, whatever it says itself.
pub proof fn law_no_store_request_stores_nothing(req: RequestHead, fields: Fields)
    requires
        request_control(req) is Some,
        occurs_in(
            request_directives(header_fields(req.headers)).unwrap(),
            ascii("no-store"@),
        ),
    ensures
        is_stored_response(request_control(req).unwrap(), fields) == Some(false),
{
}

/// A response of the upstream host says `miss` or `skip` to the client, and
/// every other field keeps its value.
pub proof fn law_mark_is_seen(fields: Fields, mark: Seq<u8>, name: Seq<u8>)
    ensures
        first_value(with_field(fields, cache_header_name(), mark), cache_header_name()) == Some(
            mark,
        ),
        name != cache_header_name() ==> first_value(
            with_field(fields, cache_header_name(), mark),
            name,
        ) == first_value(fields, name),
{
    lemma_with_field(fields, cache_header_name(), mark);
}

/// Requests for one path have the same key only if they have the same query;
/// a missing query is an empty one.
pub proof fn law_key_tells_queries_apart(path: Seq<char>, query: Seq<char>, other: Seq<char>)
    requires
        cache_key(path, query) == cache_key(path, other),
    ensures
        query == other,
{
    let start = path + "::"@;
    assert((start + query).skip(start.len() as int) == query);
    assert((start + other).skip(start.len() as int) == other);
}

/// What was stored of a response is what a later request is answered with.
///
/// Whatever has been done to the cache since, short of another store under the
/// key, the key gives the entry of the response or nothing; and it gives the
/// entry as long as fewer other keys have been used than the cache was made for.
/// The entry reads as the status of the response, the fields that an entry
/// records, and the whole body, where these fields are as the wire brings them;
/// it is sure to be replayed where they fit into a header map, too.
pub proof fn law_stored_response_is_replayed(
    held: Held,
    capacity: nat,
    key: Seq<char>,
    status: u16,
    fields: Fields,
    body: Seq<u8>,
    uses: Seq<Use>,
)
    requires
        0 < capacity,
        held.len() <= capacity,
        distinct_keys(held),
        is_status(status),
        are_held_fields(fields),
        leave_alone(uses, key),
    ensures
        ({
            let content = encode_head(status, fields) + body;
            let later = after_uses(after_put(held, capacity, key, content), capacity, uses);
            let stored = stored_fields(fields);
            &&& content_of(later, key) is None || content_of(later, key) == Some(content)
            &&& used_keys(uses).remove(key).len() < capacity ==> content_of(later, key) == Some(
                content,
            )
            &&& are_fields(stored) ==> read_entry(content) == Some(
                (Entry { status, fields: stored, body }),
            )
            &&& is_decodable(content) <==> are_fields(stored) && fields_fit(stored)
        }),
{
    let content = encode_head(status, fields) + body;
    law_no_other_content(held, capacity, key, content, uses);
    if used_keys(uses).remove(key).len() < capacity {
        law_recent_contents_stay(held, capacity, key, content, uses);
    }
    law_entry_reads_back(status, fields, body);
    law_entry_is_decodable(status, fields, body);
}

/// A client that is answered from the cache sees the response that was stored:
/// its status, its whole body, and of every recorded name the last value.
/// The fields that speak of one transfer are gone, and where the response had
/// no [`CACHE_HEADER`] of its own, it now says `hit`. Where besides no name came
/// twice, the fields are just these, in their order.
pub proof fn law_client_sees_stored_response(
    response: ProxyResponse,
    status: u16,
    fields: Fields,
    body: Seq<u8>,
    name: Seq<u8>,
)
    requires
        is_status(status),
        are_held_fields(fields),
        is_replay_of(response, encode_head(status, fields) + body),
    ensures
        response.head.status == status,
        response.body matches CacheBody::Source(buffer) && bytes_of(buffer) == body,
        first_value(header_fields(response.head.headers), name) == if !is_stored_name(name) {
            None
        } else if name == cache_header_name() && last_value(fields, name) is None {
            Some(ascii("hit"@))
        } else {
            last_value(fields, name)
        },
        distinct_names(fields) && !field_names(fields).contains(cache_header_name())
            ==> header_fields(response.head.headers) == seq![
            (cache_header_name(), ascii("hit"@)),
        ] + stored_fields(fields),
{
    reveal_strlit("x-crap-cache");
    reveal_strlit("content-length");
    reveal_strlit("connection");
    assert(ascii("content-length"@).len() == 14);
    assert(ascii("connection"@).len() == 10);
    assert(cache_header_name().len() == 12);
    law_entry_reads_back(status, fields, body);
    law_replay_has_last_values(stored_fields(fields), name);
    lemma_stored_names(fields);
    lemma_last_value(stored_fields(fields), name);
    if distinct_names(fields) && !field_names(fields).contains(cache_header_name()) {
        lemma_stored_distinct(fields);
        law_replay_of_distinct_fields(stored_fields(fields));
    }
}

/// Stored, then asked for: a plain `GET` whose key still holds what was stored
/// of a response is answered from the cache, without a request to the upstream
/// host, and the client sees that response.
///
/// The fields have to be ones that an entry gives back: as the wire brings them,
/// and no more names than fit into a header map.
pub proof fn law_plain_get_is_answered(
    req: RequestHead,
    held: Held,
    capacity: nat,
    status: u16,
    fields: Fields,
    body: Seq<u8>,
    uses: Seq<Use>,
)
    requires
        0 < capacity,
        held.len() <= capacity,
        distinct_keys(held),
        is_status(status),
        are_held_fields(fields),
        are_fields(stored_fields(fields)),
        fields_fit(stored_fields(fields)),
        req.method@ == "GET"@,
        first_value(header_fields(req.headers), ascii("cache-control"@)) is None,
        leave_alone(uses, cache_key(req.path@, query_text(req.query))),
        ({
            let key = cache_key(req.path@, query_text(req.query));
            let content = encode_head(status, fields) + body;
            content_of(after_uses(after_put(held, capacity, key, content), capacity, uses), key)
                is Some
        }),
    ensures
        ({
            let key = cache_key(req.path@, query_text(req.query));
            let content = encode_head(status, fields) + body;
            let later = after_uses(after_put(held, capacity, key, content), capacity, uses);
            &&& request_control(req) matches Some(control)
            &&& cached(control, later, key) == Some(content)
            &&& is_decodable(content)
        }),
        forall|response: ProxyResponse| #[trigger]
            is_replay_of(response, encode_head(status, fields) + body) ==> {
                &&& response.head.status == status
                &&& header_fields(response.head.headers) == replayed_fields(stored_fields(fields))
                &&& response.body matches CacheBody::Source(buffer) && bytes_of(buffer) == body
                &&& distinct_names(fields) && !field_names(fields).contains(cache_header_name())
                    ==> header_fields(response.head.headers) == seq![
                    (cache_header_name(), ascii("hit"@)),
                ] + stored_fields(fields)
            },
{
    let key = cache_key(req.path@, query_text(req.query));
    reveal_strlit("no-cache");
    assert(ascii("no-cache"@).len() == 8);
    law_stored_response_is_replayed(held, capacity, key, status, fields, body, uses);
    assert forall|response: ProxyResponse| #[trigger]
        is_replay_of(response, encode_head(status, fields) + body) implies response.head.status
        == status && header_fields(response.head.headers) == replayed_fields(stored_fields(fields))
        && (response.body matches CacheBody::Source(buffer) && bytes_of(buffer) == body) && (
    distinct_names(fields) && !field_names(fields).contains(cache_header_name())
        ==> header_fields(response.head.headers) == seq![(cache_header_name(), ascii("hit"@))]
        + stored_fields(fields)) by {
        law_client_sees_stored_response(response, status, fields, body, cache_header_name());
    }
}

/// A query is taken as it is, and a missing one as empty.
pub proof fn law_missing_query_is_empty(query: String)
    ensures
        query_text(Some(query)) == query@,
        query_text(None).len() == 0,
{
}

/// A key is the whole path, two colons and the whole query.
pub proof fn law_key_holds_path_and_query(path: Seq<char>, query: Seq<char>)
    ensures
        ({
            let key = cache_key(path, query);
            let n = path.len() as int;
            &&& key.len() == n + 2 + query.len()
            &&& key.take(n) == path
            &&& key[n] == ':' && key[n + 1] == ':'
            &&& key.skip(n + 2) == query
        }),
{
    reveal_strlit("::");
    let key = cache_key(path, query);
    let n = path.len() as int;
    assert(key.take(n) == path);
    assert(key.skip(n + 2) == query);
}

/// Requests with one query have the same key only if they have the same path.
pub proof fn law_key_tells_paths_apart(path: Seq<char>, other: Seq<char>, query: Seq<char>)
    requires
        cache_key(path, query) == cache_key(other, query),
    ensures
        path == other,
{
    law_key_holds_path_and_query(path, query);
    law_key_holds_path_and_query(other, query);
}

/// Requests whose paths have no colon have the same key only if they have the
/// same path and the same query.
pub proof fn law_key_tells_requests_apart(
    path: Seq<char>,
    query: Seq<char>,
    other_path: Seq<char>,
    other_query: Seq<char>,
)
    requires
        !path.contains(':'),
        !other_path.contains(':'),
        cache_key(path, query) == cache_key(other_path, other_query),
    ensures
        path == other_path,
        query == other_query,
{
    let key = cache_key(path, query);
    law_key_holds_path_and_query(path, query);
    law_key_holds_path_and_query(other_path, other_query);
    if path.len() < other_path.len() {
        assert(key.take(other_path.len() as int)[path.len() as int] == ':');
        assert(other_path[path.len() as int] == ':');
    }
    if other_path.len() < path.len() {
        assert(key.take(path.len() as int)[other_path.len() as int] == ':');
        assert(path[other_path.len() as int] == ':');
    }
}

/// What is stored for one path is no answer to a request for another: what the
/// cache has for that one stays, or is driven out.
pub proof fn law_store_answers_no_other_path(
    held: Held,
    capacity: nat,
    path: Seq<char>,
    other: Seq<char>,
    query: Seq<char>,
    content: Seq<u8>,
)
    requires
        path != other,
        0 < capacity,
        distinct_keys(held),
    ensures
        ({
            let after = after_put(held, capacity, cache_key(path, query), content);
            let key = cache_key(other, query);
            content_of(after, key) is None || content_of(after, key) == content_of(held, key)
        }),
{
    if cache_key(path, query) == cache_key(other, query) {
        law_key_tells_paths_apart(path, other, query);
    }
    law_store_drives_out_oldest(
        held,
        capacity,
        cache_key(path, query),
        content,
        cache_key(other, query),
    );
}

/// The upstream host is written as its whole name, a colon, and a text that reads
/// as its port and has no zero in front.
pub proof fn law_host_has_name_and_port(config: Config)
    ensures
        ({
            let host = host_text(config);
            let n = config.target_host@.len() as int;
            let port = host.skip(n + 1);
            &&& host.len() > n + 1
            &&& host.take(n) == config.target_host@
            &&& host[n] == ':'
            &&& usize_of_text(ascii(port)) == Some(config.target_port as usize)
            &&& forall|i: int| 0 <= i < port.len() ==> '0' <= #[trigger] port[i] <= '9'
            &&& port[0] == '0' ==> port.len() == 1
        }),
{
    reveal_strlit(":");
    let host = host_text(config);
    let n = config.target_host@.len() as int;
    law_decimal_reads_back(config.target_port as nat);
    assert(host.take(n) == config.target_host@);
    assert(host.skip(n + 1) == decimal(config.target_port as nat));
}

/// An upstream address is `http://`, the host, a slash, the whole path, a question
/// mark and the whole query.
pub proof fn law_address_holds_path_and_query(config: Config, path: Seq<char>, query: Seq<char>)
    ensures
        ({
            let address = upstream_address(config, path, query);
            let host = host_text(config);
            let at: int = 8 + host.len() as int;
            let end: int = at + path.len() as int;
            &&& address.len() == end + 1 + query.len()
            &&& address.take(7) == "http://"@
            &&& address.subrange(7, at - 1) == host
            &&& address[at - 1] == '/'
            &&& address.subrange(at, end) == path
            &&& address[end] == '?'
            &&& address.skip(end + 1) == query
        }),
{
    reveal_strlit("http://");
    reveal_strlit("/");
    reveal_strlit("?");
    let address = upstream_address(config, path, query);
    let host = host_text(config);
    let at: int = 8 + host.len() as int;
    let end: int = at + path.len() as int;
    assert(address.take(7) == "http://"@);
    assert(address.subrange(7, at - 1) == host);
    assert(address.subrange(at, end) == path);
    assert(address.skip(end + 1) == query);
}

/// Requests for one path go to the same address only if they have the same query.
pub proof fn law_address_tells_queries_apart(
    config: Config,
    path: Seq<char>,
    query: Seq<char>,
    other: Seq<char>,
)
    requires
        upstream_address(config, path, query) == upstream_address(config, path, other),
    ensures
        query == other,
{
    law_address_holds_path_and_query(config, path, query);
    law_address_holds_path_and_query(config, path, other);
}

/// Requests with one query go to the same address only if they have the same path.
pub proof fn law_address_tells_paths_apart(
    config: Config,
    path: Seq<char>,
    other: Seq<char>,
    query: Seq<char>,
)
    requires
        upstream_address(config, path, query) == upstream_address(config, other, query),
    ensures
        path == other,
{
    law_address_holds_path_and_query(config, path, query);
    law_address_holds_path_and_query(config, other, query);
}

/// Requests whose paths have no question mark go to the same address only if they
/// have the same path and the same query.
pub proof fn law_address_tells_requests_apart(
    config: Config,
    path: Seq<char>,
    query: Seq<char>,
    other_path: Seq<char>,
    other_query: Seq<char>,
)
    requires
        !path.contains('?'),
        !other_path.contains('?'),
        upstream_address(config, path, query) == upstream_address(
            config,
            other_path,
            other_query,
        ),
    ensures
        path == other_path,
        query == other_query,
{
    let address = upstream_address(config, path, query);
    let at: int = 8 + host_text(config).len() as int;
    let end: int = at + path.len() as int;
    let other_end: int = at + other_path.len() as int;
    law_address_holds_path_and_query(config, path, query);
    law_address_holds_path_and_query(config, other_path, other_query);
    if end < other_end {
        assert(address.subrange(at, other_end)[end - at] == '?');
        assert(other_path[end - at] == '?');
    }
    if other_end < end {
        assert(address.subrange(at, end)[other_end - at] == '?');
        assert(path[other_end - at] == '?');
    }
}

/// What the `Cache-Control` of a request does. Without one, a `GET` may be
/// answered from the cache, and every response be stored. With one that is text,
/// a `GET` may be answered exactly where it does not say `no-cache`, and the
/// response be stored exactly where it does not say `no-store`, whatever else it
/// says. One that is not text is refused.
pub proof fn law_request_is_taken_at_its_word(req: RequestHead)
    ensures
        match first_value(header_fields(req.headers), ascii("cache-control"@)) {
            None => {
                &&& request_control(req) matches Some(control)
                &&& control.read_cache <==> req.method@ == "GET"@
                &&& control.write_cache
            },
            Some(value) => {
                &&& request_control(req) is Some <==> forall|i: int|
                    0 <= i < value.len() ==> (#[trigger] value[i] == 9 || 32 <= value[i] < 127)
                &&& request_control(req) matches Some(control) ==> {
                    &&& control.read_cache <==> req.method@ == "GET"@ && !occurs_in(
                        value,
                        ascii("no-cache"@),
                    )
                    &&& control.write_cache <==> !occurs_in(value, ascii("no-store"@))
                }
            },
        },
{
    reveal_strlit("no-cache");
    reveal_strlit("no-store");
    assert(ascii("no-cache"@).len() == 8);
    assert(ascii("no-store"@).len() == 8);
    if let Some(value) = first_value(header_fields(req.headers), ascii("cache-control"@)) {
        if request_control(req) is Some {
            assert forall|i: int| 0 <= i < value.len() implies (#[trigger] value[i] == 9 || 32
                <= value[i] < 127) by {
                assert(is_visible_byte(value[i]));
            }
        }
        if forall|i: int|
            0 <= i < value.len() ==> (#[trigger] value[i] == 9 || 32 <= value[i] < 127) {
            assert forall|i: int| 0 <= i < value.len() implies is_visible_byte(
                #[trigger] value[i],
            ) by {}
            assert(is_visible(value));
        }
    }
}

/// Requests with the same method and the same `Cache-Control` are treated alike,
/// whatever they are for and whatever else they say.
pub proof fn law_nothing_else_controls_a_request(req: RequestHead, other: RequestHead)
    requires
        req.method@ == other.method@,
        first_value(header_fields(req.headers), ascii("cache-control"@)) == first_value(
            header_fields(other.headers),
            ascii("cache-control"@),
        ),
    ensures
        request_control(req) == request_control(other),
{
}

/// What the `Cache-Control` of a response does, where the request lets it be
/// stored. Without one the response is stored. With one that is text it is
/// stored exactly where that says `no-store`, whatever else it says. One that is
/// not text is refused. Where the request does not let it, it is not stored.
pub proof fn law_response_is_taken_at_its_word(control: RequestCacheControl, fields: Fields)
    ensures
        !control.write_cache ==> is_stored_response(control, fields) == Some(false),
        control.write_cache ==> match first_value(fields, ascii("cache-control"@)) {
            None => is_stored_response(control, fields) == Some(true),
            Some(value) => {
                &&& is_stored_response(control, fields) is Some <==> forall|i: int|
                    0 <= i < value.len() ==> (#[trigger] value[i] == 9 || 32 <= value[i] < 127)
                &&& is_stored_response(control, fields) matches Some(stored) ==> (stored
                    <==> occurs_in(value, ascii("no-store"@)))
            },
        },
{
    if let Some(value) = first_value(fields, ascii("cache-control"@)) {
        if is_visible(value) {
            assert forall|i: int| 0 <= i < value.len() implies (#[trigger] value[i] == 9 || 32
                <= value[i] < 127) by {
                assert(is_visible_byte(value[i]));
            }
        }
        if forall|i: int|
            0 <= i < value.len() ==> (#[trigger] value[i] == 9 || 32 <= value[i] < 127) {
            assert forall|i: int| 0 <= i < value.len() implies is_visible_byte(
                #[trigger] value[i],
            ) by {}
            assert(is_visible(value));
        }
    }
}

/// Responses with the same `Cache-Control` to requests that let them be stored
/// alike are stored alike, whatever else they say.
pub proof fn law_nothing_else_controls_a_response(
    control: RequestCacheControl,
    fields: Fields,
    other_control: RequestCacheControl,
    other: Fields,
)
    requires
        control.write_cache == other_control.write_cache,
        first_value(fields, ascii("cache-control"@)) == first_value(
            other,
            ascii("cache-control"@),
        ),
    ensures
        is_stored_response(control, fields) == is_stored_response(other_control, other),
{
}

/// A request that lets the cache answer is answered with what the cache holds for
/// its key, and any other with nothing.
pub proof fn law_cache_answers_where_it_may(
    control: RequestCacheControl,
    held: Held,
    key: Seq<char>,
)
    ensures
        control.read_cache ==> cached(control, held, key) == content_of(held, key),
        !control.read_cache ==> cached(control, held, key) is None,
{
}

/// The request that goes to the upstream host is for the upstream address, names
/// the upstream host, once, and has every other field of the client's request, in
/// its order.
pub proof fn law_upstream_request(
    request: UpstreamRequest,
    config: Config,
    req: RequestHead,
    name: Seq<u8>,
)
    requires
        is_upstream_of(request, config, req),
    ensures
        parsed_uri(upstream_address(config, req.path@, query_text(req.query))) == Some(
            request.uri@,
        ),
        first_value(header_fields(request.headers), ascii("host"@)) == Some(
            encode_utf8(host_text(config)),
        ),
        without_name(header_fields(request.headers), ascii("host"@)) == without_name(
            header_fields(req.headers),
            ascii("host"@),
        ),
        header_fields(request.headers).len() == without_name(
            header_fields(req.headers),
            ascii("host"@),
        ).len() + 1,
        name != ascii("host"@) ==> first_value(header_fields(request.headers), name)
            == first_value(header_fields(req.headers), name),
{
    let fields = header_fields(req.headers);
    let host = encode_utf8(host_text(config));
    law_other_fields_stay(fields, ascii("host"@), host);
    lemma_with_field(fields, ascii("host"@), host);
    lemma_one_value(fields, ascii("host"@), host);
}

/// A field that was set is there once.
proof fn lemma_one_value(fields: Fields, name: Seq<u8>, value: Seq<u8>)
    ensures
        with_field(fields, name, value).len() == without_name(fields, name).len() + 1,
    decreases fields.len(),
{
    if fields.len() > 0 {
        lemma_one_value(fields.drop_first(), name, value);
    }
}

/// Any request goes to the upstream host that has at most 6553 fields, whatever
/// they and its method are, where the upstream address is a URI and the host has
/// no control character; and none does otherwise.
pub proof fn law_any_request_is_forwarded(config: Config, req: RequestHead)
    ensures
        ({
            let address = upstream_address(config, req.path@, query_text(req.query));
            let host = encode_utf8(host_text(config));
            let sound = parsed_uri(address) is Some && forall|i: int|
                0 <= i < host.len() ==> (#[trigger] host[i] == 9 || 32 <= host[i] && host[i]
                    != 127);
            &&& sound && header_fields(req.headers).len() <= 6553 ==> is_forwardable(config, req)
            &&& is_forwardable(config, req) ==> sound
        }),
        forall|request: UpstreamRequest| #[trigger]
            is_upstream_of(request, config, req) ==> parsed_uri(
                upstream_address(config, req.path@, query_text(req.query)),
            ) is Some,
{
    let host = encode_utf8(host_text(config));
    if header_fields(req.headers).len() <= 6553 {
        law_few_fields_have_room(header_fields(req.headers));
    }
    if is_host_value(config) {
        assert forall|i: int| 0 <= i < host.len() implies (#[trigger] host[i] == 9 || 32 <= host[i]
            && host[i] != 127) by {
            assert(is_value_byte(host[i]));
        }
    }
    if forall|i: int|
        0 <= i < host.len() ==> (#[trigger] host[i] == 9 || 32 <= host[i] && host[i] != 127) {
        assert forall|i: int| 0 <= i < host.len() implies is_value_byte(#[trigger] host[i]) by {}
        assert(is_host_value(config));
    }
}

/// What a client gets of a response of the upstream host: its status, every field
/// of another name, in their order, and in `x-crap-cache`, once, whether it is
/// being stored. One that is, and no other, has its body watched, behind the head
/// of its entry and under its key.
pub proof fn law_marked_response(
    response: ProxyResponse,
    key: Seq<char>,
    head: ResponseHead,
    stored: bool,
)
    requires
        is_marked(response, key, head, stored),
    ensures
        response.head.status == head.status,
        first_value(header_fields(response.head.headers), ascii("x-crap-cache"@)) == Some(
            if stored {
                ascii("miss"@)
            } else {
                ascii("skip"@)
            },
        ),
        without_name(header_fields(response.head.headers), ascii("x-crap-cache"@))
            == without_name(header_fields(head.headers), ascii("x-crap-cache"@)),
        header_fields(response.head.headers).len() == without_name(
            header_fields(head.headers),
            ascii("x-crap-cache"@),
        ).len() + 1,
        stored <==> response.body is Sink,
        !stored <==> response.body is Skip,
        response.body matches CacheBody::Sink(tee) ==> {
            &&& tee.head() == Some(encode_head(head.status, header_fields(head.headers)))
            &&& tee.body().len() == 0
            &&& tee.key() == key
        },
{
    let fields = header_fields(head.headers);
    let name = cache_header_name();
    if stored {
        lemma_with_field(fields, name, ascii("miss"@));
        law_other_fields_stay(fields, name, ascii("miss"@));
        lemma_one_value(fields, name, ascii("miss"@));
    } else {
        lemma_with_field(fields, name, ascii("skip"@));
        law_other_fields_stay(fields, name, ascii("skip"@));
        lemma_one_value(fields, name, ascii("skip"@));
    }
}

/// What a client gets from the cache: the status and the whole body of the entry,
/// no name twice, and of every name the last value in the entry; without one,
/// `x-crap-cache` says `hit`.
pub proof fn law_replayed_response(response: ProxyResponse, content: Seq<u8>, name: Seq<u8>)
    requires
        is_replay_of(response, content),
    ensures
        read_entry(content) matches Some(entry) && {
            &&& response.head.status == entry.status
            &&& response.body matches CacheBody::Source(body) && bytes_of(body) == entry.body
            &&& distinct_names(header_fields(response.head.headers))
            &&& first_value(header_fields(response.head.headers), name) == match last_value(
                entry.fields,
                name,
            ) {
                Some(value) => Some(value),
                None => if name == ascii("x-crap-cache"@) {
                    Some(ascii("hit"@))
                } else {
                    None
                },
            }
        },
{
    law_replay_has_last_values(read_entry(content).unwrap().fields, name);
}

/// A client that is answered from the cache gets every field of the response that
/// was stored, with its last value, but for `content-length` and `connection`.
pub proof fn law_client_sees_every_other_field(
    response: ProxyResponse,
    status: u16,
    fields: Fields,
    body: Seq<u8>,
    name: Seq<u8>,
)
    requires
        100 <= status <= 999,
        are_held_fields(fields),
        is_replay_of(response, encode_head(status, fields) + body),
    ensures
        name != ascii("content-length"@) && name != ascii("connection"@) && last_value(
            fields,
            name,
        ) is Some ==> first_value(header_fields(response.head.headers), name) == last_value(
            fields,
            name,
        ),
        name == ascii("content-length"@) || name == ascii("connection"@) ==> first_value(
            header_fields(response.head.headers),
            name,
        ) is None,
{
    law_entry_reads_back(status, fields, body);
    law_every_other_name_is_replayed(fields, name);
}

} // verus!
