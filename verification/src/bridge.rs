//! The bridge facade: the lifecycle of the one supervised child, the
//! decisions of the output-reader loop, and the teardown sweep.
//!
//! The facade holds the model of the supervisor's state — whether a child is
//! active, and the table of in-flight requests. The embedding runtime owns
//! the operating-system handles and channels; every decision about them is
//! taken here, under contract: the runtime spawns a process only after
//! `spawn` agreed, writes exactly the line `send_command` or `begin_await`
//! returned, and delivers a reply channel only where `handle_stdout_line`
//! handed one back.
use crate::codec::{spec_command_line, DaemonCommand, DaemonEvent};
use crate::correlator::PendingTable;
use crate::errors::DaemonError;
use crate::json::Json;
use vstd::prelude::*;

verus! {

/// What the output-reader loop does with one line.
pub enum LineAction<T> {
    /// An empty line: ignored.
    Skip,
    /// A line that did not decode: logged and dropped, never fatal.
    Malformed,
    /// A decoded event, with the reply channel of the request it answers
    /// when one is outstanding. The event itself is always forwarded to the
    /// event sink, whether or not it resolved a request.
    Deliver(DaemonEvent, Option<T>),
}

/// The bridge over one daemon process. `T` is the reply channel of the
/// embedding runtime.
pub struct DaemonBridge<T> {
    /// Whether a child process is currently owned.
    pub running: bool,
    /// The in-flight requests.
    pub pending: PendingTable<T>,
}

impl<T> DaemonBridge<T> {
    /// The identifier table is well-formed.
    pub open spec fn wf(self) -> bool {
        self.pending.wf()
    }

    /// A bridge with no child and no outstanding request.
    pub fn new() -> (r: Self)
        ensures
            r.wf(),
            !r.running,
            r.pending.count() == 0,
    {
        DaemonBridge { running: false, pending: PendingTable::new() }
    }

    /// Whether a child is currently owned.
    pub fn status(&self) -> (r: bool)
        ensures
            r == self.running,
    {
        self.running
    }

    /// Takes ownership of a newly spawned child. When one is already owned,
    /// fails with `AlreadyRunning` and changes nothing, so a second child is
    /// never admitted.
    pub fn spawn(&mut self) -> (r: Result<(), DaemonError>)
        requires
            old(self).wf(),
        ensures
            final(self).wf(),
            old(self).running ==> r == Err::<(), DaemonError>(DaemonError::AlreadyRunning)
                && *final(self) == *old(self),
            !old(self).running ==> r == Ok::<(), DaemonError>(()) && final(self).running && final(self).pending == old(self).pending,
    {
        if self.running {
            return Err(DaemonError::AlreadyRunning);
        }
        self.running = true;
        Ok(())
    }

    /// Notes the outcome of polling the child without blocking: when the
    /// child has exited, the handle is cleared and the answer is false;
    /// otherwise the state is unchanged.
    pub fn is_running(&mut self, poll_exited: bool) -> (r: bool)
        requires
            old(self).wf(),
        ensures
            final(self).wf(),
            !old(self).running ==> !r && *final(self) == *old(self),
            old(self).running && poll_exited ==> !r && !final(self).running && final(self).pending
                == old(self).pending,
            old(self).running && !poll_exited ==> r && *final(self) == *old(self),
    {
        if !self.running {
            return false;
        }
        if poll_exited {
            self.running = false;
            return false;
        }
        true
    }

    /// Serializes a fire-and-forget command for the active child: the line
    /// handed back is what the runtime writes, followed by the terminator.
    /// Fails with `NotRunning` when no child is owned.
    pub fn send_command(&self, command: &DaemonCommand) -> (r: Result<Vec<char>, DaemonError>)
        ensures
            !self.running ==> r == Err::<Vec<char>, DaemonError>(DaemonError::NotRunning),
            self.running ==> (r matches Ok(line) && line@ == spec_command_line(command@)),
    {
        if !self.running {
            return Err(DaemonError::NotRunning);
        }
        Ok(crate::codec::encode_command(command))
    }

    /// Registers a reply channel for a command's identifier and serializes
    /// the command, as the first half of an awaited send. Fails with
    /// `NotRunning` when no child is owned and with `SendError` when the
    /// identifier is already in flight; in both cases the channel is handed
    /// back and nothing changes.
    pub fn begin_await(&mut self, command: &DaemonCommand, chan: T) -> (r: Result<
        Vec<char>,
        (DaemonError, T),
    >)
        requires
            old(self).wf(),
        ensures
            final(self).wf(),
            final(self).running == old(self).running,
            !old(self).running ==> (r matches Err((e, c)) && e == DaemonError::NotRunning && c
                == chan) && *final(self) == *old(self),
            old(self).running && old(self).pending.has_key(command@.id) ==> (r matches Err((e, c))
                && e == DaemonError::SendError && c == chan) && *final(self) == *old(self),
            old(self).running && !old(self).pending.has_key(command@.id) ==> (r matches Ok(line)
                && line@ == spec_command_line(command@)) && final(self).pending.as_map() == old(self).pending.as_map().insert(command@.id, chan) && final(self).pending.count() == old(self).pending.count() + 1,
    {
        if !self.running {
            return Err((DaemonError::NotRunning, chan));
        }
        let mut key: Vec<char> = Vec::new();
        crate::text::push_chars(&mut key, command.id.as_slice());
        match self.pending.register(key, chan) {
            Err(c) => Err((DaemonError::SendError, c)),
            Ok(_) => Ok(crate::codec::encode_command(command)),
        }
    }

    /// Removes the entry for an identifier whose caller's wait has timed
    /// out, handing the channel back only to be dropped, so a late reply
    /// cannot reach a caller that already gave up.
    pub fn expire(&mut self, id: &[char]) -> (r: Option<T>)
        requires
            old(self).wf(),
        ensures
            final(self).wf(),
            final(self).running == old(self).running,
            !old(self).pending.has_key(id@) ==> r is None && *final(self) == *old(self),
            old(self).pending.has_key(id@) ==> (r matches Some(c) && c == old(self).pending.as_map()[id@]) && final(self).pending.as_map() == old(self).pending.as_map().remove(id@),
            !final(self).pending.has_key(id@),
    {
        self.pending.expire(id)
    }

    /// Decides what one line of the child's output stream means: an empty
    /// line is skipped; a line that does not decode is dropped; a decoded
    /// event resolves the outstanding request bearing its identifier, when
    /// there is one, and is in every case also forwarded to the event sink.
    /// An event without an identifier, with an empty one, or with one no
    /// outstanding request bears, resolves nothing and changes nothing: it
    /// is a push notification only.
    pub fn handle_stdout_line(&mut self, line: &[char]) -> (r: LineAction<T>)
        requires
            old(self).wf(),
        ensures
            final(self).wf(),
            final(self).running == old(self).running,
            line@.len() == 0 ==> r is Skip && *final(self) == *old(self),
            line@.len() > 0 && crate::codec::spec_decode_event(line@) is None ==> r is Malformed
                && *final(self) == *old(self),
            line@.len() > 0 ==> (crate::codec::spec_decode_event(line@) matches Some(ev) ==> (
            r matches LineAction::Deliver(e, ch) && e@ == ev && (match ev.id {
                Some(idv) => {
                    if idv.len() > 0 && old(self).pending.has_key(idv) {
                        ch == Some(old(self).pending.as_map()[idv]) && final(self).pending.as_map()
                            == old(self).pending.as_map().remove(idv) && final(
                            self).pending.count() == old(self).pending.count() - 1 && !final(
                            self).pending.has_key(idv)
                    } else {
                        ch is None && *final(self) == *old(self)
                    }
                },
                None => ch is None && *final(self) == *old(self),
            }))),
    {
        if line.len() == 0 {
            return LineAction::Skip;
        }
        let event = match crate::codec::decode_event(line) {
            Ok(e) => e,
            Err(_) => {
                return LineAction::Malformed;
            },
        };
        let chan = match &event.id {
            Some(idv) => {
                if idv.len() > 0 {
                    self.pending.resolve(idv.as_slice())
                } else {
                    None
                }
            },
            None => None,
        };
        LineAction::Deliver(event, chan)
    }

    /// Tears the bridge down: the child is no longer owned, the table is
    /// emptied, and every outstanding entry is handed back exactly once, so
    /// that each waiting caller can be failed with a "not running"
    /// condition.
    pub fn stop(&mut self) -> (r: Vec<(Vec<char>, T)>)
        requires
            old(self).wf(),
        ensures
            final(self).wf(),
            !final(self).running,
            final(self).pending.count() == 0,
            r@ == old(self).pending.entries@,
            r@.len() == old(self).pending.count(),
            forall|i: int, j: int|
                0 <= i < j < r@.len() ==> (#[trigger] r@[i]).0@ != (#[trigger] r@[j]).0@,
    {
        self.running = false;
        let r = self.pending.take_all();
        proof {
            assert forall|i: int, j: int| 0 <= i < j < r@.len() implies (r@[i]).0@ != (
            r@[j]).0@ by {
                assert(old(self).pending.key_at(i) != old(self).pending.key_at(j));
            }
        }
        r
    }
}

/// A response handed back to the external collaborator.
pub struct CommandResponse {
    pub success: bool,
    pub data: Option<Json>,
    pub error: Option<Vec<char>>,
}

impl CommandResponse {
    /// A successful response carrying a payload.
    pub fn success(data: Json) -> (r: CommandResponse)
        ensures
            r.success,
            r.data matches Some(d) && d@ == data@,
            r.error is None,
    {
        CommandResponse { success: true, data: Some(data), error: None }
    }

    /// A failed response carrying a message.
    pub fn error(msg: Vec<char>) -> (r: CommandResponse)
        ensures
            !r.success,
            r.data is None,
            r.error matches Some(m) && m@ == msg@,
    {
        CommandResponse { success: false, data: None, error: Some(msg) }
    }
}

} // verus!
