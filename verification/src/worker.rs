//! What the file worker decides about the outcome of each request: whether
//! it failed, whether the connection is lost, and which handles it keeps.
use crate::files::{is_transport_failure, transport_failure, Entry, Event};
use crate::paths::same_text;
use crate::preview::Chunk;
use vstd::prelude::*;

verus! {

/// The error messages that `event` reports: that of an error, of a failed
/// listing or preview, and of each failed listing of a refresh, in order.
pub open spec fn event_errors(event: Event) -> Seq<Seq<char>> {
    match event {
        Event::Error(e) => seq![e@],
        Event::ListFailed { error, .. } => seq![error@],
        Event::Preview { result: Err(e), .. } => seq![e@],
        Event::Refreshed(listings) => refresh_errors_of(listings@),
        _ => Seq::empty(),
    }
}

/// The failures among the results of a refresh, in order.
pub open spec fn refresh_errors_of(listings: Seq<(String, Result<Vec<Entry>, String>)>) -> Seq<Seq<char>>
    decreases listings.len(),
{
    if listings.len() == 0 {
        Seq::empty()
    } else {
        let rest = refresh_errors_of(listings.drop_last());
        match listings.last().1 {
            Ok(_) => rest,
            Err(e) => rest.push(e@),
        }
    }
}

/// Whether `e` says the connection failed, as `transport_failure` decides.
#[verifier::opaque]
pub open spec fn says_connection_lost(e: Seq<char>) -> bool {
    transport_failure(e)
}

fn connection_lost_in(e: &str) -> (r: bool)
    ensures
        r == says_connection_lost(e@),
{
    reveal(says_connection_lost);
    is_transport_failure(e)
}

/// The last of `errors` that says the connection failed.
pub open spec fn last_transport_failure(errors: Seq<Seq<char>>) -> Option<Seq<char>>
    decreases errors.len(),
{
    if errors.len() == 0 {
        None
    } else if says_connection_lost(errors.last()) {
        Some(errors.last())
    } else {
        last_transport_failure(errors.drop_last())
    }
}

/// What the events of one request came to.
pub struct RequestOutcome {
    /// Some event reported an error.
    pub failed: bool,
    /// The last reported error that says the connection failed.
    pub transport_failure: Option<String>,
}

pub open spec fn opt_view(o: Option<String>) -> Option<Seq<char>> {
    match o {
        Some(s) => Some(s@),
        None => None,
    }
}

impl RequestOutcome {
    pub fn new() -> (r: RequestOutcome)
        ensures
            !r.failed,
            r.transport_failure is None,
    {
        RequestOutcome { failed: false, transport_failure: None }
    }

    /// Takes note of the errors that `event` reports, and gives them back in order.
    pub fn note(&mut self, event: &Event) -> (r: Vec<String>)
        ensures
            r@.map_values(|s: String| s@) == event_errors(*event),
            final(self).failed == (old(self).failed || r.len() > 0),
            opt_view(final(self).transport_failure) == match last_transport_failure(
                event_errors(*event),
            ) {
                Some(e) => Some(e),
                None => opt_view(old(self).transport_failure),
            },
    {
        let errors = errors_of(event);
        let mut i: usize = 0;
        let ghost start = opt_view(self.transport_failure);
        while i < errors.len()
            invariant
                i <= errors.len(),
                errors@.map_values(|s: String| s@) == event_errors(*event),
                self.failed == (old(self).failed || i > 0),
                opt_view(self.transport_failure) == match last_transport_failure(
                    errors@.map_values(|s: String| s@).take(i as int),
                ) {
                    Some(e) => Some(e),
                    None => start,
                },
            decreases errors.len() - i,
        {
            let ghost all = errors@.map_values(|s: String| s@);
            assert(all.take(i + 1).drop_last() =~= all.take(i as int));
            assert(all.take(i + 1).last() == errors@[i as int]@);
            self.failed = true;
            if connection_lost_in(errors[i].as_str()) {
                self.transport_failure = Some(errors[i].clone());
            }
            i = i + 1;
        }
        assert(errors@.map_values(|s: String| s@).take(errors.len() as int) =~= errors@.map_values(
            |s: String| s@,
        ));
        errors
    }

    /// The event that ends the connection after this request, when one of its
    /// errors said the connection failed and a session was open.
    pub fn lost_connection(&self, session_open: bool) -> (r: Option<Event>)
        ensures
            match self.transport_failure {
                Some(e) if session_open => r matches Some(Event::Disconnected(m))
                    && m@ == crate::files::lost_connection_text() + e@,
                _ => r is None,
            },
    {
        match &self.transport_failure {
            Some(error) => {
                if session_open {
                    Some(Event::Disconnected(crate::files::connection_lost_message(error.as_str())))
                } else {
                    None
                }
            },
            None => None,
        }
    }
}

/// The errors that `event` reports, in order.
fn errors_of(event: &Event) -> (r: Vec<String>)
    ensures
        r@.map_values(|s: String| s@) == event_errors(*event),
{
    let mut r: Vec<String> = Vec::new();
    match event {
        Event::Error(e) => {
            r.push(e.clone());
        },
        Event::ListFailed { error, .. } => {
            r.push(error.clone());
        },
        Event::Preview { result: Err(e), .. } => {
            r.push(e.clone());
        },
        Event::Refreshed(listings) => {
            let mut i: usize = 0;
            while i < listings.len()
                invariant
                    i <= listings.len(),
                    r@.map_values(|s: String| s@) == refresh_errors_of(listings@.take(i as int)),
                decreases listings.len() - i,
            {
                assert(listings@.take(i + 1).drop_last() =~= listings@.take(i as int));
                match &listings[i].1 {
                    Ok(_) => {},
                    Err(e) => {
                        r.push(e.clone());
                    },
                }
                assert(r@.map_values(|s: String| s@) =~= refresh_errors_of(listings@.take(i + 1)));
                i = i + 1;
            }
            assert(listings@.take(listings.len() as int) =~= listings@);
        },
        _ => {},
    }
    proof {
        match event {
            Event::Error(e) => {
                assert(r@.map_values(|s: String| s@) =~= seq![e@]);
            },
            Event::ListFailed { error, .. } => {
                assert(r@.map_values(|s: String| s@) =~= seq![error@]);
            },
            Event::Preview { result: Err(e), .. } => {
                assert(r@.map_values(|s: String| s@) =~= seq![e@]);
            },
            Event::Refreshed(_) => {},
            _ => {
                assert(r@.map_values(|s: String| s@) =~= Seq::<Seq<char>>::empty());
            },
        }
    }
    r
}

/// During a refresh, once one listing said the connection failed, the
/// remaining folders are answered with that error instead of being read.
pub struct RefreshGuard {
    pub connection_error: Option<String>,
}

impl RefreshGuard {
    pub fn new() -> (r: RefreshGuard)
        ensures
            r.connection_error is None,
    {
        RefreshGuard { connection_error: None }
    }

    /// The answer to give in place of a read, if the connection already failed.
    pub fn blocked(&self) -> (r: Option<Result<Vec<Entry>, String>>)
        ensures
            match self.connection_error {
                Some(e) => r == Some(Err::<Vec<Entry>, String>(e)),
                None => r is None,
            },
    {
        match &self.connection_error {
            Some(e) => Some(Err(e.clone())),
            None => None,
        }
    }

    /// Remembers the error of `result` if it says the connection failed.
    pub fn note(&mut self, result: &Result<Vec<Entry>, String>)
        ensures
            match result {
                Err(e) if transport_failure(e@) => final(self).connection_error == Some(*e),
                _ => final(self).connection_error == old(self).connection_error,
            },
    {
        match result {
            Err(e) => {
                if is_transport_failure(e.as_str()) {
                    self.connection_error = Some(e.clone());
                }
            },
            Ok(_) => {},
        }
    }
}

pub open spec fn not_connected_text() -> Seq<char> {
    "Connect the file browser first."@
}

/// The answer to a request that needs the file connection while none is
/// open: a listing, a preview, a refresh or a transfer fails with it.
pub fn not_connected<T>() -> (r: Result<T, String>)
    ensures
        r matches Err(e) && e@ == not_connected_text(),
{
    Err("Connect the file browser first.".to_string())
}

/// Whether the file open for previews is kept after a read: a failure that
/// is not the connection's closes it, so the next read opens it again.
pub fn keeps_preview_file(result: &Result<Chunk, String>) -> (r: bool)
    ensures
        r == !(result matches Err(e) && !transport_failure(e@)),
{
    match result {
        Ok(_) => true,
        Err(e) => is_transport_failure(e.as_str()),
    }
}

/// Whether a preview read of `path` at `offset` must open the file anew: no
/// file is open, another one is, or the read starts over at the beginning.
pub fn must_reopen(open_path: Option<&String>, path: &String, offset: u64) -> (r: bool)
    ensures
        r == (match open_path {
            Some(p) => p@ != path@,
            None => true,
        } || offset == 0),
{
    let other = match open_path {
        Some(p) => !same_text(p, path),
        None => true,
    };
    other || offset == 0
}

} // verus!
