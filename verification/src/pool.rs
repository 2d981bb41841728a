//! Pooled connections to the upstream host: where they go, and how they fail.

use std::sync::Arc;

use vstd::prelude::*;
use vstd::string::to_string_from_display_ensures;

verus! {

/// Knows the address that the connections of a pool go to.
pub struct ClientConnectionManager {
    host: Arc<String>,
}

impl View for ClientConnectionManager {
    type V = Seq<char>;

    closed spec fn view(&self) -> Seq<char> {
        self.host@
    }
}

impl Clone for ClientConnectionManager {
    fn clone(&self) -> (manager: Self)
        ensures
            manager@ == self@,
    {
        ClientConnectionManager { host: self.host.clone() }
    }
}

impl ClientConnectionManager {
    /// A manager of connections to `host`, which is an address with a port.
    pub fn new(host: String) -> (manager: Self)
        ensures
            manager@ == host@,
    {
        ClientConnectionManager { host: Arc::new(host) }
    }

    /// The address that the connections go to.
    pub fn host(&self) -> (host: &str)
        ensures
            host@ == self@,
    {
        self.host.as_str()
    }
}

#[verifier::external_type_specification]
#[verifier::external_body]
pub struct ExIoError(std::io::Error);

#[verifier::external_type_specification]
#[verifier::external_body]
pub struct ExHttpError(hyper::Error);

/// What made a connection fail.
#[derive(Debug)]
pub enum ClientPoolCause {
    Io(std::io::Error),
    Http(hyper::Error),
}

/// A pooled connection could not be made or has become unusable.
#[derive(Debug)]
pub struct ClientPoolError {
    context: String,
    cause: ClientPoolCause,
}

/// Words that a cause has for itself: what its `Display` writes.
pub open spec fn is_words(cause: ClientPoolCause, words: String) -> bool {
    match cause {
        ClientPoolCause::Io(error) => to_string_from_display_ensures::<std::io::Error>(
            &error,
            words,
        ),
        ClientPoolCause::Http(error) => to_string_from_display_ensures::<hyper::Error>(
            &error,
            words,
        ),
    }
}

impl ClientPoolError {
    /// The kind of failure, in words.
    pub closed spec fn context(&self) -> Seq<char> {
        self.context@
    }

    /// What made the connection fail.
    pub closed spec fn failure(&self) -> ClientPoolCause {
        self.cause
    }

    /// The kind of failure, in words.
    pub fn kind(&self) -> (kind: &str)
        ensures
            kind@ == self.context(),
    {
        self.context.as_str()
    }

    /// What made the connection fail. There is always a cause.
    pub fn cause(&self) -> (cause: Option<&ClientPoolCause>)
        ensures
            cause == Some(&self.failure()),
    {
        Some(&self.cause)
    }

    /// The error as a sentence, given its cause in words.
    pub fn describe(&self, cause: &str) -> (text: String)
        ensures
            text@ == self.context() + ": "@ + cause@,
    {
        let mut text = self.context.clone();
        text.append(": ");
        text.append(cause);
        text
    }

    /// The error as a sentence: the kind of failure, then the cause in its own
    /// words.
    pub fn message(&self) -> (text: String)
        ensures
            exists|cause: String| #[trigger]
                is_words(self.failure(), cause) && text@ == self.context() + ": "@ + cause@,
    {
        let cause = match &self.cause {
            ClientPoolCause::Io(error) => error.to_string(),
            ClientPoolCause::Http(error) => error.to_string(),
        };
        assert(is_words(self.failure(), cause));
        self.describe(cause.as_str())
    }
}

impl From<std::io::Error> for ClientPoolError {
    fn from(value: std::io::Error) -> (error: Self)
        ensures
            error.context() == "I/O Error"@,
            error.failure() == ClientPoolCause::Io(value),
    {
        ClientPoolError { context: "I/O Error".to_string(), cause: ClientPoolCause::Io(value) }
    }
}

impl vstd::std_specs::convert::FromSpecImpl<std::io::Error> for ClientPoolError {
    open spec fn obeys_from_spec() -> bool {
        false
    }

    open spec fn from_spec(value: std::io::Error) -> Self {
        arbitrary()
    }
}

impl From<hyper::Error> for ClientPoolError {
    fn from(value: hyper::Error) -> (error: Self)
        ensures
            error.context() == "HTTP Error"@,
            error.failure() == ClientPoolCause::Http(value),
    {
        ClientPoolError { context: "HTTP Error".to_string(), cause: ClientPoolCause::Http(value) }
    }
}

impl vstd::std_specs::convert::FromSpecImpl<hyper::Error> for ClientPoolError {
    open spec fn obeys_from_spec() -> bool {
        false
    }

    open spec fn from_spec(value: hyper::Error) -> Self {
        arbitrary()
    }
}

/// The words of a cause are what its `Display` writes, and nothing else.
pub proof fn law_words_are_displayed(io: std::io::Error, http: hyper::Error, words: String)
    ensures
        is_words(ClientPoolCause::Io(io), words) <==> to_string_from_display_ensures::<
            std::io::Error,
        >(&io, words),
        is_words(ClientPoolCause::Http(http), words) <==> to_string_from_display_ensures::<
            hyper::Error,
        >(&http, words),
{
}

} // verus!
