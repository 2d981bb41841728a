use std::pin::Pin;
use std::task::{Context, Poll};

use crap_cache::pool::{ClientConnectionManager, ClientPoolCause, ClientPoolError};
use http_body_util::Empty;
use hyper::body::Bytes;
use hyper::rt::{Read, ReadBufCursor, Write};

#[test]
fn knows_its_host() {
    let manager = ClientConnectionManager::new("neverssl.com:80".to_string());
    assert_eq!(manager.host(), "neverssl.com:80");
    assert_eq!(manager.clone().host(), "neverssl.com:80");
}

#[test]
fn describes_an_io_error() {
    let error = ClientPoolError::from(std::io::Error::new(std::io::ErrorKind::Other, "no route"));
    assert_eq!(error.kind(), "I/O Error");
    assert_eq!(error.message(), "I/O Error: no route");
    assert_eq!(error.describe("lost"), "I/O Error: lost");
    match error.cause() {
        Some(ClientPoolCause::Io(cause)) => assert_eq!(cause.to_string(), "no route"),
        _ => panic!("the cause became something else"),
    }
}

/// A peer that says something before it is asked.
struct Chatter;

impl Read for Chatter {
    fn poll_read(
        self: Pin<&mut Self>,
        _: &mut Context<'_>,
        mut buf: ReadBufCursor<'_>,
    ) -> Poll<Result<(), std::io::Error>> {
        buf.put_slice(b"?");
        Poll::Ready(Ok(()))
    }
}

impl Write for Chatter {
    fn poll_write(
        self: Pin<&mut Self>,
        _: &mut Context<'_>,
        buf: &[u8],
    ) -> Poll<Result<usize, std::io::Error>> {
        Poll::Ready(Ok(buf.len()))
    }

    fn poll_flush(self: Pin<&mut Self>, _: &mut Context<'_>) -> Poll<Result<(), std::io::Error>> {
        Poll::Ready(Ok(()))
    }

    fn poll_shutdown(
        self: Pin<&mut Self>,
        _: &mut Context<'_>,
    ) -> Poll<Result<(), std::io::Error>> {
        Poll::Ready(Ok(()))
    }
}

#[test]
fn describes_an_http_error() {
    let runtime = tokio::runtime::Runtime::new().unwrap();
    let error = runtime.block_on(async {
        let (_sender, connection) =
            hyper::client::conn::http1::handshake::<Chatter, Empty<Bytes>>(Chatter).await.unwrap();
        connection.await.unwrap_err()
    });
    let text = error.to_string();
    let error = ClientPoolError::from(error);
    assert_eq!(error.kind(), "HTTP Error");
    assert_eq!(error.message(), format!("HTTP Error: {}", text));
    assert!(matches!(error.cause(), Some(ClientPoolCause::Http(_))));
}
