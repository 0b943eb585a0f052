//! When to start the requests of one input: one at a time at first, then
//! several at once.
//!
//! An input that the merge will not reach for a long time is asked for its
//! first items only, so that nothing is fetched ahead for it. `TakeThenBuffered`
//! keeps count and says what to do next. It starts and awaits nothing itself:
//! its owner polls the source of requests and the queue of those in flight,
//! and reports what came of it.

use vstd::prelude::*;

verus! {

/// What the owner has to report.
#[derive(Debug, Clone, Copy, PartialEq, Eq, Structural)]
pub enum Event {
    /// A poll begins.
    Start,
    /// The source gave a request, which now is in flight.
    SourceItem,
    /// The source has no more requests.
    SourceEnded,
    /// The source has none ready.
    SourcePending,
    /// The queue gave the result of the oldest request in flight.
    QueueOutput,
    /// No result is ready.
    QueuePending,
    /// Nothing is in flight.
    QueueEmpty,
}

/// What the owner has to do next.
#[derive(Debug, Clone, Copy, PartialEq, Eq, Structural)]
pub enum Action {
    /// Poll the source of requests and report what it gave.
    PollSource,
    /// Poll the queue of requests in flight and report what it gave.
    PollQueue,
    /// End the poll with the result that the queue gave.
    ReturnOutput,
    /// End the poll without a result; there may be one later.
    ReturnPending,
    /// End the poll: there will be no more results.
    ReturnDone,
}

/// The count of the requests of one input: how many are still to be
/// started one at a time, how many may be in flight after that, and how
/// many are in flight.
pub struct TakeThenBuffered {
    take_n_serially: usize,
    max_n_buffered: usize,
    in_progress: usize,
    stream_done: bool,
}

impl TakeThenBuffered {
    /// Requests still to be started one at a time.
    pub closed spec fn serial_left(&self) -> usize {
        self.take_n_serially
    }

    /// Requests that may be in flight at once after the serial ones.
    pub closed spec fn max_concurrent(&self) -> usize {
        self.max_n_buffered
    }

    /// Requests in flight.
    pub closed spec fn in_flight(&self) -> usize {
        self.in_progress
    }

    /// The source has said that it has no more requests.
    pub closed spec fn source_done(&self) -> bool {
        self.stream_done
    }

    /// Requests that may be in flight now: one while serial ones are left,
    /// `max_concurrent` after that.
    pub open spec fn target(&self) -> usize {
        if self.serial_left() > 0 {
            1
        } else {
            self.max_concurrent()
        }
    }

    /// No more requests are in flight than may be: one at most while serial
    /// ones are left, and never more than `max_concurrent`, or one where
    /// that is nothing.
    pub open spec fn wf(&self) -> bool {
        &&& self.serial_left() > 0 ==> self.in_flight() <= 1
        &&& self.in_flight() <= self.max_concurrent() || self.in_flight() <= 1
    }

    /// The event answers what was asked for: a request comes from the source
    /// only while another may be in flight, and a result from the queue only
    /// while a request is in flight.
    pub open spec fn expects(&self, event: Event) -> bool {
        &&& event == Event::SourceItem ==> self.in_flight() < self.target()
        &&& event == Event::QueueOutput ==> self.in_flight() > 0
    }

    /// Starts with nothing in flight.
    pub fn new(take_n_serially: usize, max_n_buffered: usize) -> (made: TakeThenBuffered)
        ensures
            made.wf(),
            made.serial_left() == take_n_serially,
            made.max_concurrent() == max_n_buffered,
            made.in_flight() == 0,
            !made.source_done(),
    {
        TakeThenBuffered { take_n_serially, max_n_buffered, in_progress: 0, stream_done: false }
    }

    /// Requests in flight.
    pub fn in_progress(&self) -> (count: usize)
        ensures
            count == self.in_flight(),
    {
        self.in_progress
    }

    /// Counts in what the owner reports, and says what to do next.
    ///
    /// The source is polled as long as another request may be in flight.
    /// Every request that comes is one serial request less to wait for.
    /// Then the queue is polled: its result ends the poll. Where nothing is
    /// in flight, the poll ends for good once the source has ended.
    pub fn poll_next(&mut self, event: Event) -> (action: Action)
        requires
            old(self).wf(),
            old(self).expects(event),
        ensures
            final(self).wf(),
            final(self).max_concurrent() == old(self).max_concurrent(),
            final(self).serial_left() == (if event == Event::SourceItem && old(self).serial_left()
                > 0 {
                (old(self).serial_left() - 1) as usize
            } else {
                old(self).serial_left()
            }),
            final(self).in_flight() == (if event == Event::SourceItem {
                (old(self).in_flight() + 1) as usize
            } else if event == Event::QueueOutput {
                (old(self).in_flight() - 1) as usize
            } else {
                old(self).in_flight()
            }),
            final(self).source_done() == (old(self).source_done() || event == Event::SourceEnded),
            action == (match event {
                Event::Start | Event::SourceItem => if final(self).in_flight()
                    < final(self).target() {
                    Action::PollSource
                } else {
                    Action::PollQueue
                },
                Event::SourceEnded | Event::SourcePending => Action::PollQueue,
                Event::QueueOutput => Action::ReturnOutput,
                Event::QueuePending => Action::ReturnPending,
                Event::QueueEmpty => if final(self).source_done() {
                    Action::ReturnDone
                } else {
                    Action::ReturnPending
                },
            }),
    {
        match event {
            Event::Start => self.fill_or_drain(),
            Event::SourceItem => {
                self.in_progress = self.in_progress + 1;
                self.take_n_serially = self.take_n_serially.saturating_sub(1);
                self.fill_or_drain()
            },
            Event::SourceEnded => {
                self.stream_done = true;
                Action::PollQueue
            },
            Event::SourcePending => Action::PollQueue,
            Event::QueueOutput => {
                self.in_progress = self.in_progress - 1;
                Action::ReturnOutput
            },
            Event::QueuePending => Action::ReturnPending,
            Event::QueueEmpty => {
                // if more is still coming from the source, this is not the end
                if self.stream_done {
                    Action::ReturnDone
                } else {
                    Action::ReturnPending
                }
            },
        }
    }

    /// Another request is started where one more may be in flight.
    fn fill_or_drain(&self) -> (action: Action)
        ensures
            action == (if self.in_flight() < self.target() {
                Action::PollSource
            } else {
                Action::PollQueue
            }),
    {
        let target = if self.take_n_serially > 0 {
            1
        } else {
            self.max_n_buffered
        };
        if self.in_progress < target {
            Action::PollSource
        } else {
            Action::PollQueue
        }
    }
}

} // verus!
