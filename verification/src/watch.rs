//! Change notification.
//!
//! One channel carries the revision of the last commit, so every commit wakes
//! every waiting reader once. A `Watch` then asks the database whether what it
//! covers has changed since the watch was taken, and waits again if it has not.
//!
//! Nothing is registered anywhere, so a watch taken on a snapshot the database
//! has already moved past reports the change it missed rather than waiting for
//! a commit that will not come.

use tokio::sync::watch;
use vstd::prelude::*;

verus! {

#[verifier::external_type_specification]
#[verifier::external_body]
#[verifier::reject_recursive_types(T)]
pub struct ExSender<T>(tokio::sync::watch::Sender<T>);

#[verifier::external_type_specification]
#[verifier::external_body]
#[verifier::reject_recursive_types(T)]
pub struct ExReceiver<T>(tokio::sync::watch::Receiver<T>);

/// What the channel of a sender holds: the revision last sent through it.
pub uninterp spec fn announced(sender: watch::Sender<u64>) -> u64;

/// The channel a sender sends through.
pub uninterp spec fn sent_on(sender: watch::Sender<u64>) -> int;

/// The channel a receiver hears.
pub uninterp spec fn heard_on(receiver: watch::Receiver<u64>) -> int;

/// `tokio::sync::watch::channel`: a new channel that holds `revision`, its one
/// sender, and a receiver that hears it.
#[verifier::external_body]
pub(crate) fn channel(revision: u64) -> (ends: (watch::Sender<u64>, watch::Receiver<u64>))
    ensures
        announced(ends.0) == revision,
        heard_on(ends.1) == sent_on(ends.0),
{
    watch::channel(revision)
}

/// `tokio::sync::watch::Sender::send_replace`: the channel then holds
/// `revision`, whether or not anyone hears it, and every receiver is woken. It
/// stays the same channel.
/// That they wake is not stated: it is for the tasks that wait to see.
#[verifier::external_body]
pub(crate) fn announce(sender: &mut watch::Sender<u64>, revision: u64)
    ensures
        announced(*final(sender)) == revision,
        sent_on(*final(sender)) == sent_on(*old(sender)),
{
    sender.send_replace(revision);
}

/// `tokio::sync::watch::Receiver::clone`: another receiver of the same channel.
#[verifier::external_body]
fn another(receiver: &watch::Receiver<u64>) -> (other: watch::Receiver<u64>)
    ensures
        heard_on(other) == heard_on(*receiver),
{
    receiver.clone()
}

/// `tokio::sync::watch::Receiver::mark_unchanged`: what the channel holds now
/// counts as seen, so the receiver wakes on what is sent from here on. It stays
/// on its channel.
#[verifier::external_body]
fn mark_unchanged(receiver: &mut watch::Receiver<u64>)
    ensures
        heard_on(*final(receiver)) == heard_on(*old(receiver)),
{
    receiver.mark_unchanged();
}

/// `tokio::sync::watch::Receiver::has_changed`: whether it fails, which it does
/// exactly when every sender of the channel is gone. While the caller holds a
/// sender of the receiver's channel, one is left, so it does not fail. Who else
/// holds a sender is not known here, so nothing is stated where none is given.
#[verifier::external_body]
fn is_gone(receiver: &watch::Receiver<u64>, _sender: Option<&watch::Sender<u64>>) -> (gone: bool)
    ensures
        _sender matches Some(sender) && sent_on(*sender) == heard_on(*receiver) ==> !gone,
{
    receiver.has_changed().is_err()
}

/// What one watch covers.
#[derive(Clone, Copy, PartialEq, Eq, Structural, Debug)]
pub enum Covers {
    /// Any commit that bumps the revision.
    Db,
    /// Any change to one table.
    Table(usize),
}

/// What a task that waits on the channel has heard.
#[derive(Clone, Copy, PartialEq, Eq, Structural, Debug)]
pub enum Heard {
    /// Nothing yet.
    Nothing,
    /// Another revision.
    Revision,
    /// That no revision will come any more.
    Closed,
}

/// Completes once what it covers is written.
pub struct Watch {
    /// The revision the watch was taken at: the database's for [`Covers::Db`],
    /// the table's for [`Covers::Table`].
    at: u64,
    covers: Covers,
    revisions: watch::Receiver<u64>,
}

impl Watch {
    /// The revision the watch was taken at.
    pub closed spec fn since(&self) -> u64 {
        self.at
    }

    /// What the watch covers.
    pub closed spec fn scope(&self) -> Covers {
        self.covers
    }

    /// The channel the watch waits on.
    pub closed spec fn line(&self) -> int {
        heard_on(self.revisions)
    }

    /// What the watch covers, at the revision `now`, was written since the
    /// watch was taken.
    pub open spec fn behind(&self, now: u64) -> bool {
        now > self.since()
    }

    /// A watch on `covers`, as of `at`.
    pub(crate) fn new(at: u64, covers: Covers, revisions: &watch::Receiver<u64>) -> (watch: Self)
        ensures
            watch.since() == at,
            watch.scope() == covers,
            watch.line() == heard_on(*revisions),
    {
        // The revision this receiver last saw is the one it was cloned at, and
        // what the watch covers is read fresh anyway, so it starts here rather
        // than with every commit since the channel was opened.
        let mut revisions = another(revisions);
        mark_unchanged(&mut revisions);
        Watch { at, covers, revisions }
    }

    pub fn at(&self) -> (at: u64)
        ensures
            at == self.since(),
    {
        self.at
    }

    pub fn covers(&self) -> (covers: Covers)
        ensures
            covers == self.scope(),
    {
        self.covers
    }

    /// Whether a task goes on waiting, when what the watch covers stands at
    /// `now` and this is what the task heard last: it does until what it covers
    /// was written, or there is no database left to write it.
    pub fn waits(&self, now: u64, heard: Heard) -> (waits: bool)
        ensures
            waits == (!self.behind(now) && heard != Heard::Closed),
    {
        now <= self.at && heard != Heard::Closed
    }

    /// The same for a database that may be gone: what the watch covers stands
    /// at `now`, if there is still a database to ask, and the channel was found
    /// closed or not.
    pub fn settled(&self, now: Option<u64>, gone: bool) -> (settled: bool)
        ensures
            settled == (gone || (now matches Some(now) && self.behind(now))),
    {
        gone || match now {
            Some(now) => now > self.at,
            None => false,
        }
    }

    /// Whether there is nothing left to wait for: what the watch covers stands
    /// at `now`, if there is still a database to ask, and was written since the
    /// watch was taken, or the database it came from is gone.
    pub fn is_closed(&self, now: Option<u64>) -> (closed: bool)
        ensures
            now matches Some(now) && self.behind(now) ==> closed,
    {
        self.is_closed_beside(now, None)
    }

    /// The same beside a sender, if the caller holds one: while it is a sender of
    /// the watch's channel, the database is not gone.
    pub(crate) fn is_closed_beside(
        &self,
        now: Option<u64>,
        sender: Option<&watch::Sender<u64>>,
    ) -> (closed: bool)
        ensures
            now matches Some(now) && self.behind(now) ==> closed,
            sender matches Some(sender) && sent_on(*sender) == self.line() ==> closed == (
            now matches Some(now) && self.behind(now)),
    {
        self.settled(now, is_gone(&self.revisions, sender))
    }

    /// The receiver a task waits on.
    pub fn revisions(&mut self) -> (revisions: &mut watch::Receiver<u64>)
        ensures
            *revisions == old(self).receiver(),
            final(self).receiver() == *final(revisions),
            final(self).since() == old(self).since(),
            final(self).scope() == old(self).scope(),
    {
        &mut self.revisions
    }

    /// The receiver a task waits on.
    pub closed spec fn receiver(&self) -> watch::Receiver<u64> {
        self.revisions
    }
}

impl Clone for Watch {
    fn clone(&self) -> (watch: Self)
        ensures
            watch.since() == self.since(),
            watch.scope() == self.scope(),
            watch.line() == self.line(),
    {
        Watch { at: self.at, covers: self.covers, revisions: another(&self.revisions) }
    }
}

} // verus!
