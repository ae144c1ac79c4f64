//! The per-connection state machine: buffers, write cursor, keep-alive
//! accounting and timeouts.  The embedding program performs the socket
//! reads and writes and feeds the byte counts and outcomes back in.

use vstd::prelude::*;

use crate::codec::{spec_is_complete, spec_parse, ParsedRequest, RequestParser};
use crate::error::ServerError;
use crate::headers::spec_keep_alive;
use crate::request::Request;
use crate::response::{spec_to_bytes, Response};

verus! {

/// The four states of a connection.
#[derive(Debug, Clone, Copy, PartialEq, Eq, Structural)]
pub enum ConnectionState {
    /// Reading request bytes.
    Reading,
    /// A complete request awaits the router.
    Processing,
    /// Writing response bytes.
    Writing,
    /// To be unregistered and dropped.
    Closed,
}

/// One client connection, without its socket: the embedding program owns
/// the stream and reports what it read and wrote.
#[derive(Debug, Clone)]
pub struct Connection {
    /// Port of the accepting listener, used to reselect the server.
    pub server_port: u16,
    /// Current state.
    pub state: ConnectionState,
    /// Bytes received and not yet consumed.
    pub read_buffer: Vec<u8>,
    /// Bytes to send.
    pub write_buffer: Vec<u8>,
    /// How much of the write buffer has been sent.
    pub bytes_written: usize,
    /// When the connection was created, in clock seconds.
    pub created_at: u64,
    /// When the connection last made progress, in clock seconds.
    pub last_activity: u64,
    /// Whether to reuse the connection after the response drains.
    pub keep_alive: bool,
}

impl Connection {
    /// Creates a connection in the reading state.
    pub fn new(server_port: u16, now: u64) -> (r: Connection)
        ensures
            r.server_port == server_port,
            r.state == ConnectionState::Reading,
            r.read_buffer@ == Seq::<u8>::empty(),
            r.write_buffer@ == Seq::<u8>::empty(),
            r.bytes_written == 0,
            r.created_at == now,
            r.last_activity == now,
            r.keep_alive,
    {
        Connection {
            server_port,
            state: ConnectionState::Reading,
            read_buffer: Vec::new(),
            write_buffer: Vec::new(),
            bytes_written: 0,
            created_at: now,
            last_activity: now,
            keep_alive: true,
        }
    }

    /// Absorbs bytes the socket delivered: they append to the read buffer
    /// and refresh the activity clock.
    pub fn absorb_read(&mut self, data: &[u8], now: u64)
        ensures
            final(self).read_buffer@ == old(self).read_buffer@ + data@,
            final(self).last_activity == now,
            final(self).state == old(self).state,
            final(self).write_buffer@ == old(self).write_buffer@,
            final(self).bytes_written == old(self).bytes_written,
            final(self).keep_alive == old(self).keep_alive,
            final(self).server_port == old(self).server_port,
            final(self).created_at == old(self).created_at,
    {
        self.read_buffer.extend_from_slice(data);
        self.last_activity = now;
    }

    /// Notes that the peer closed the stream or an I/O error occurred:
    /// the connection is closed.
    pub fn note_closed(&mut self)
        ensures
            final(self).state == ConnectionState::Closed,
            final(self).read_buffer@ == old(self).read_buffer@,
            final(self).write_buffer@ == old(self).write_buffer@,
            final(self).bytes_written == old(self).bytes_written,
            final(self).keep_alive == old(self).keep_alive,
            final(self).server_port == old(self).server_port,
            final(self).created_at == old(self).created_at,
            final(self).last_activity == old(self).last_activity,
    {
        self.state = ConnectionState::Closed;
    }

    /// Marks a complete request as ready for the router.
    pub fn note_processing(&mut self)
        ensures
            final(self).state == ConnectionState::Processing,
            final(self).read_buffer@ == old(self).read_buffer@,
            final(self).write_buffer@ == old(self).write_buffer@,
            final(self).bytes_written == old(self).bytes_written,
            final(self).keep_alive == old(self).keep_alive,
            final(self).server_port == old(self).server_port,
    {
        self.state = ConnectionState::Processing;
    }

    /// Advances the write cursor by the bytes the socket accepted.  A
    /// write of zero closes the connection.  When the response drains,
    /// a keep-alive connection resets both buffers and the cursor and
    /// reads again; any other connection closes.
    pub fn advance_write(&mut self, n: usize, now: u64)
        requires
            old(self).bytes_written + n <= old(self).write_buffer@.len(),
        ensures
            final(self).server_port == old(self).server_port,
            final(self).created_at == old(self).created_at,
            final(self).keep_alive == old(self).keep_alive,
            n == 0 ==> {
                &&& final(self).state == ConnectionState::Closed
                &&& final(self).read_buffer@ == old(self).read_buffer@
                &&& final(self).write_buffer@ == old(self).write_buffer@
                &&& final(self).bytes_written == old(self).bytes_written
            },
            n > 0 && old(self).bytes_written + n < old(self).write_buffer@.len() ==> {
                &&& final(self).state == old(self).state
                &&& final(self).bytes_written == old(self).bytes_written + n
                &&& final(self).read_buffer@ == old(self).read_buffer@
                &&& final(self).write_buffer@ == old(self).write_buffer@
                &&& final(self).last_activity == now
            },
            n > 0 && old(self).bytes_written + n == old(self).write_buffer@.len() && old(
                self,
            ).keep_alive ==> {
                &&& final(self).state == ConnectionState::Reading
                &&& final(self).read_buffer@ == Seq::<u8>::empty()
                &&& final(self).write_buffer@ == Seq::<u8>::empty()
                &&& final(self).bytes_written == 0
                &&& final(self).last_activity == now
            },
            n > 0 && old(self).bytes_written + n == old(self).write_buffer@.len() && !old(
                self,
            ).keep_alive ==> {
                &&& final(self).state == ConnectionState::Closed
                &&& final(self).last_activity == now
            },
    {
        let _wlen = self.write_buffer.len();
        if n == 0 {
            self.state = ConnectionState::Closed;
            return ;
        }
        self.bytes_written = self.bytes_written + n;
        self.last_activity = now;
        if self.bytes_written >= self.write_buffer.len() {
            if self.keep_alive {
                self.read_buffer.clear();
                self.write_buffer.clear();
                self.bytes_written = 0;
                self.state = ConnectionState::Reading;
            } else {
                self.state = ConnectionState::Closed;
            }
        }
    }

    /// The bytes still to be written.
    pub fn pending_write(&self) -> (r: &[u8])
        requires
            self.bytes_written <= self.write_buffer@.len(),
        ensures
            r@ == self.write_buffer@.subrange(
                self.bytes_written as int,
                self.write_buffer@.len() as int,
            ),
    {
        let wlen = self.write_buffer.len();
        &self.write_buffer.as_slice()[self.bytes_written..wlen]
    }

    /// Whether the read buffer holds one complete request.
    pub fn has_complete_request(&self) -> (r: bool)
        ensures
            r == spec_is_complete(self.read_buffer@),
    {
        RequestParser::is_complete(self.read_buffer.as_slice())
    }

    /// Parses the request in the read buffer.
    pub fn parse_request(&self) -> (r: Result<Request, ServerError>)
        ensures
            match r {
                Ok(req) => spec_parse(self.read_buffer@) == Some(
                    (
                        req.method,
                        req.path@,
                        req.query_view(),
                        req.version@,
                        req.headers@,
                        req.body@,
                    ),
                ) && req.headers.wf(),
                Err(e) => spec_parse(self.read_buffer@) == None::<ParsedRequest> && e is Parse,
            },
    {
        RequestParser::parse(self.read_buffer.as_slice())
    }

    /// Installs a response: its bytes fill the write buffer, the cursor
    /// resets, the state turns to writing, and keep-alive follows the
    /// response's `connection` header.
    pub fn set_response(&mut self, response: &Response)
        ensures
            final(self).write_buffer@ == spec_to_bytes(*response),
            final(self).bytes_written == 0,
            final(self).state == ConnectionState::Writing,
            final(self).keep_alive == spec_keep_alive(response.headers@),
            final(self).read_buffer@ == old(self).read_buffer@,
            final(self).server_port == old(self).server_port,
            final(self).created_at == old(self).created_at,
            final(self).last_activity == old(self).last_activity,
    {
        self.write_buffer = response.to_bytes();
        self.bytes_written = 0;
        self.state = ConnectionState::Writing;
        self.keep_alive = response.headers.keep_alive();
    }

    /// Whether the connection has sat idle past the timeout.
    pub fn is_timed_out(&self, now: u64, timeout_secs: u64) -> (r: bool)
        ensures
            r == (now > self.last_activity && now - self.last_activity > timeout_secs),
    {
        now > self.last_activity && now - self.last_activity > timeout_secs
    }

    /// Whether the whole response has been written.
    pub fn is_write_complete(&self) -> (r: bool)
        ensures
            r == (self.bytes_written >= self.write_buffer@.len()),
    {
        self.bytes_written >= self.write_buffer.len()
    }
}

} // verus!
