//! The dispatch loop's decisions: which backend operation each call asks
//! for, and what a session does with the bytes it has received.

use crate::buffer::{buffer_bytes, buffer_extend, buffer_new, held};
use crate::msgpack::MessagePackDecoder;
use crate::wire::{frame_at, Step};
use crate::{Rpc, RpcView};
use bytes::BytesMut;
use vstd::prelude::*;

verus! {

/// A backend operation, with its argument.
#[derive(Debug, Clone, PartialEq, Eq)]
pub enum Command {
    /// Push a markdown text to the renderer.
    Render(String),
    /// Open the platform's default browser.
    OpenBrowser,
    /// Open the browser that this executable names.
    OpenBrowserWith(String),
    /// Serve static files from this directory.
    SetStaticRoot(String),
}

/// The mathematical value of a [`Command`].
pub enum CommandView {
    Render(Seq<char>),
    OpenBrowser,
    OpenBrowserWith(Seq<char>),
    SetStaticRoot(Seq<char>),
}

impl View for Command {
    type V = CommandView;

    open spec fn view(&self) -> CommandView {
        match self {
            Command::Render(s) => CommandView::Render(s@),
            Command::OpenBrowser => CommandView::OpenBrowser,
            Command::OpenBrowserWith(s) => CommandView::OpenBrowserWith(s@),
            Command::SetStaticRoot(s) => CommandView::SetStaticRoot(s@),
        }
    }
}

/// Why a session ended in failure.
#[derive(Debug, Clone, PartialEq, Eq)]
pub enum Failure {
    /// The bytes received cannot begin a frame.
    Malformed,
    /// A frame names a method outside the command table.
    UnknownCommand(String),
    /// A frame names a known method with the wrong number of parameters.
    ArityMismatch(String),
    /// The stream ended in the middle of a frame.
    Truncated,
}

/// The mathematical value of a [`Failure`].
pub enum FailureView {
    Malformed,
    UnknownCommand(Seq<char>),
    ArityMismatch(Seq<char>),
    Truncated,
}

impl View for Failure {
    type V = FailureView;

    open spec fn view(&self) -> FailureView {
        match self {
            Failure::Malformed => FailureView::Malformed,
            Failure::UnknownCommand(s) => FailureView::UnknownCommand(s@),
            Failure::ArityMismatch(s) => FailureView::ArityMismatch(s@),
            Failure::Truncated => FailureView::Truncated,
        }
    }
}

/// The text of an optional string.
pub open spec fn text_of(o: Option<String>) -> Option<Seq<char>> {
    match o {
        Some(s) => Some(s@),
        None => None,
    }
}

/// A result of commands or failures, seen through their values.
pub open spec fn outcome_of(r: Result<Command, Failure>) -> Result<CommandView, FailureView> {
    match r {
        Ok(c) => Ok(c@),
        Err(f) => Err(f@),
    }
}

/// The operation that `call` asks for, given the browser chosen at startup,
/// or why it cannot be carried out.
pub open spec fn command_for(call: RpcView, browser: Option<Seq<char>>) -> Result<
    CommandView,
    FailureView,
> {
    if call.method == "send_data"@ {
        if call.params.len() == 1 {
            Ok(CommandView::Render(call.params[0]))
        } else {
            Err(FailureView::ArityMismatch(call.method))
        }
    } else if call.method == "open_browser"@ {
        if call.params.len() == 0 {
            match browser {
                Some(b) => Ok(CommandView::OpenBrowserWith(b)),
                None => Ok(CommandView::OpenBrowser),
            }
        } else {
            Err(FailureView::ArityMismatch(call.method))
        }
    } else if call.method == "chdir"@ {
        if call.params.len() == 1 {
            Ok(CommandView::SetStaticRoot(call.params[0]))
        } else {
            Err(FailureView::ArityMismatch(call.method))
        }
    } else {
        Err(FailureView::UnknownCommand(call.method))
    }
}

/// A call whose method is none of `send_data`, `open_browser` and `chdir`
/// asks for no backend operation: it ends the session as an unknown command.
pub proof fn lemma_unknown_method_isolated(call: RpcView, browser: Option<Seq<char>>)
    requires
        call.method != "send_data"@,
        call.method != "open_browser"@,
        call.method != "chdir"@,
    ensures
        command_for(call, browser) == Err::<CommandView, FailureView>(
            FailureView::UnknownCommand(call.method),
        ),
{
}

fn is_method(method: &String, name: &str) -> (r: bool)
    ensures
        r == (method@ == name@),
{
    *method == name.to_owned()
}

/// The operation that `call` asks for; `browser` is the browser chosen at
/// startup, if any.
pub fn dispatch(call: Rpc, browser: &Option<String>) -> (r: Result<Command, Failure>)
    ensures
        outcome_of(r) == command_for(call@, text_of(*browser)),
{
    let Rpc { method, mut params } = call;
    proof {
        reveal_strlit("send_data");
        reveal_strlit("open_browser");
        reveal_strlit("chdir");
    }
    if is_method(&method, "send_data") {
        if params.len() == 1 {
            Ok(Command::Render(params.remove(0)))
        } else {
            Err(Failure::ArityMismatch(method))
        }
    } else if is_method(&method, "open_browser") {
        if params.len() == 0 {
            match browser {
                Some(b) => Ok(Command::OpenBrowserWith(b.clone())),
                None => Ok(Command::OpenBrowser),
            }
        } else {
            Err(Failure::ArityMismatch(method))
        }
    } else if is_method(&method, "chdir") {
        if params.len() == 1 {
            Ok(Command::SetStaticRoot(params.remove(0)))
        } else {
            Err(Failure::ArityMismatch(method))
        }
    } else {
        Err(Failure::UnknownCommand(method))
    }
}

/// What the loop does next when a session does not fail.
#[derive(Debug, Clone, PartialEq, Eq)]
pub enum Next {
    /// Carry out this backend operation, then ask again.
    Perform(Command),
    /// Read more bytes from the transport.
    ReadMore,
}

/// The mathematical value of a [`Next`].
pub enum NextView {
    Perform(CommandView),
    ReadMore,
}

impl View for Next {
    type V = NextView;

    open spec fn view(&self) -> NextView {
        match self {
            Next::Perform(c) => NextView::Perform(c@),
            Next::ReadMore => NextView::ReadMore,
        }
    }
}

/// A result of the loop's next step, seen through its values.
pub open spec fn next_of(r: Result<Next, Failure>) -> Result<NextView, FailureView> {
    match r {
        Ok(n) => Ok(n@),
        Err(f) => Err(f@),
    }
}

/// One session on one transport: the bytes received and not yet decoded,
/// the browser chosen at startup, and the failure that ended it, if one did.
pub struct Session {
    buffer: BytesMut,
    decoder: MessagePackDecoder,
    browser: Option<String>,
    failure: Option<Failure>,
}

/// The mathematical value of a [`Session`].
pub struct SessionView {
    pub pending: Seq<u8>,
    pub browser: Option<Seq<char>>,
    pub failure: Option<FailureView>,
}

impl View for Session {
    type V = SessionView;

    closed spec fn view(&self) -> SessionView {
        SessionView {
            pending: held(self.buffer),
            browser: text_of(self.browser),
            failure: match self.failure {
                Some(f) => Some(f@),
                None => None,
            },
        }
    }
}

fn copy_failure(f: &Failure) -> (r: Failure)
    ensures
        r@ == f@,
{
    match f {
        Failure::Malformed => Failure::Malformed,
        Failure::UnknownCommand(m) => Failure::UnknownCommand(m.clone()),
        Failure::ArityMismatch(m) => Failure::ArityMismatch(m.clone()),
        Failure::Truncated => Failure::Truncated,
    }
}

impl Session {
    /// A session that has received nothing yet.
    pub fn new(browser: Option<String>) -> (s: Session)
        ensures
            s@.pending == Seq::<u8>::empty(),
            s@.browser == text_of(browser),
            s@.failure is None,
    {
        Session { buffer: buffer_new(), decoder: MessagePackDecoder, browser, failure: None }
    }

    /// Appends bytes read from the transport.
    pub fn receive(&mut self, chunk: &[u8])
        ensures
            final(self)@.pending == old(self)@.pending + chunk@,
            final(self)@.browser == old(self)@.browser,
            final(self)@.failure == old(self)@.failure,
    {
        buffer_extend(&mut self.buffer, chunk);
    }

    /// Decides the next step: the operation that the next whole frame asks
    /// for, a read where no whole frame has arrived, or the failure that
    /// ends the session. A frame is taken from the bytes only once it has
    /// been read in full; a session that has failed stays as it is.
    pub fn next(&mut self) -> (r: Result<Next, Failure>)
        ensures
            final(self)@.browser == old(self)@.browser,
            old(self)@.failure matches Some(f) ==> next_of(r) == Err::<NextView, FailureView>(f)
                && final(self)@ == old(self)@,
            old(self)@.failure is None ==> match frame_at(old(self)@.pending) {
                Step::Read(call, n) => final(self)@.pending == old(self)@.pending.skip(n) && match command_for(
                    call,
                    old(self)@.browser,
                ) {
                    Ok(c) => next_of(r) == Ok::<NextView, FailureView>(NextView::Perform(c))
                        && final(self)@.failure is None,
                    Err(f) => next_of(r) == Err::<NextView, FailureView>(f) && final(self)@.failure
                        == Some(f),
                },
                Step::Short => next_of(r) == Ok::<NextView, FailureView>(NextView::ReadMore)
                    && final(self)@ == old(self)@,
                Step::Bad => next_of(r) == Err::<NextView, FailureView>(FailureView::Malformed)
                    && final(self)@.pending == old(self)@.pending && final(self)@.failure == Some(
                    FailureView::Malformed,
                ),
            },
    {
        if let Some(f) = &self.failure {
            return Err(copy_failure(f));
        }
        match self.decoder.decode(&mut self.buffer) {
            Ok(Some(call)) => match dispatch(call, &self.browser) {
                Ok(c) => Ok(Next::Perform(c)),
                Err(f) => {
                    self.failure = Some(copy_failure(&f));
                    Err(f)
                },
            },
            Ok(None) => Ok(Next::ReadMore),
            Err(_) => {
                self.failure = Some(Failure::Malformed);
                Err(Failure::Malformed)
            },
        }
    }

    /// The outcome of the session once the transport has closed: success
    /// only where it has not failed and no byte is left undecoded.
    pub fn finish(&self) -> (r: Result<(), Failure>)
        ensures
            match self@.failure {
                Some(f) => r matches Err(e) && e@ == f,
                None => if self@.pending.len() == 0 {
                    r is Ok
                } else {
                    r matches Err(e) && e@ == FailureView::Truncated
                },
            },
    {
        if let Some(f) = &self.failure {
            return Err(copy_failure(f));
        }
        if buffer_bytes(&self.buffer).len() == 0 {
            Ok(())
        } else {
            Err(Failure::Truncated)
        }
    }
}

} // verus!
