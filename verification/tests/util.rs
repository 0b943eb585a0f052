use std::collections::VecDeque;
use stream_merge::util::{Action, Event, TakeThenBuffered};

/// Runs the policy over requests that are all done as soon as they start.
struct Harness {
    policy: TakeThenBuffered,
    source: std::vec::IntoIter<u32>,
    in_progress_queue: VecDeque<u32>,
}

enum Polled {
    Ready(Option<u32>),
    Pending,
}

impl Harness {
    fn new(items: Vec<u32>, take_n_serially: usize, max_n_buffered: usize) -> Harness {
        Harness {
            policy: TakeThenBuffered::new(take_n_serially, max_n_buffered),
            source: items.into_iter(),
            in_progress_queue: VecDeque::new(),
        }
    }

    fn poll_next(&mut self) -> Polled {
        let mut action = self.policy.poll_next(Event::Start);
        let mut output = None;
        loop {
            let event = match action {
                Action::PollSource => match self.source.next() {
                    Some(item) => {
                        self.in_progress_queue.push_back(item);
                        Event::SourceItem
                    }
                    None => Event::SourceEnded,
                },
                Action::PollQueue => match self.in_progress_queue.pop_front() {
                    Some(item) => {
                        output = Some(item);
                        Event::QueueOutput
                    }
                    None => Event::QueueEmpty,
                },
                Action::ReturnOutput => return Polled::Ready(output),
                Action::ReturnPending => return Polled::Pending,
                Action::ReturnDone => return Polled::Ready(None),
            };
            action = self.policy.poll_next(event);
        }
    }

    fn assert_next(&mut self, expected: u32) {
        match self.poll_next() {
            Polled::Ready(Some(item)) => assert_eq!(item, expected),
            Polled::Ready(None) => panic!("stream is done, expected {}", expected),
            Polled::Pending => panic!("stream is pending, expected {}", expected),
        }
        assert_eq!(self.policy.in_progress(), self.in_progress_queue.len());
    }
}

#[test]
fn test_initial_n_tasks_are_spawned_serially_then_m_are_buffered_in_parallel() {
    let mut stream = Harness::new(vec![1, 2, 3, 4, 5, 6, 7, 8], 3, 4);

    stream.assert_next(1);
    assert_eq!(stream.in_progress_queue.len(), 0);

    stream.assert_next(2);
    assert_eq!(stream.in_progress_queue.len(), 0);

    stream.assert_next(3);
    assert_eq!(stream.in_progress_queue.len(), 3); // [4, 5, 6] wait in the queue

    stream.assert_next(4);
    assert_eq!(stream.in_progress_queue.len(), 3); // [5, 6, 7]

    stream.assert_next(5);
    assert_eq!(stream.in_progress_queue.len(), 3); // [6, 7, 8]

    stream.assert_next(6);
    assert_eq!(stream.in_progress_queue.len(), 2); // [7, 8]

    stream.assert_next(7);
    assert_eq!(stream.in_progress_queue.len(), 1); // [8]

    stream.assert_next(8);
    assert_eq!(stream.in_progress_queue.len(), 0);

    assert!(matches!(stream.poll_next(), Polled::Ready(None)));
}

#[test]
fn serial_prefix_starts_one_request_at_a_time() {
    let mut policy = TakeThenBuffered::new(2, 8);
    assert_eq!(policy.poll_next(Event::Start), Action::PollSource);
    // one request is in flight: no second one while serial ones are left
    assert_eq!(policy.poll_next(Event::SourceItem), Action::PollQueue);
    assert_eq!(policy.in_progress(), 1);
    assert_eq!(policy.poll_next(Event::QueuePending), Action::ReturnPending);
    assert_eq!(policy.poll_next(Event::Start), Action::PollQueue);
    assert_eq!(policy.poll_next(Event::QueueOutput), Action::ReturnOutput);
    assert_eq!(policy.in_progress(), 0);
}

#[test]
fn concurrency_opens_after_the_serial_prefix() {
    let mut policy = TakeThenBuffered::new(1, 3);
    assert_eq!(policy.poll_next(Event::Start), Action::PollSource);
    // the last serial request is in flight, and two more may join it
    assert_eq!(policy.poll_next(Event::SourceItem), Action::PollSource);
    assert_eq!(policy.poll_next(Event::SourceItem), Action::PollSource);
    assert_eq!(policy.poll_next(Event::SourceItem), Action::PollQueue);
    assert_eq!(policy.in_progress(), 3);
}

#[test]
fn pending_source_moves_on_to_the_queue() {
    let mut policy = TakeThenBuffered::new(0, 2);
    assert_eq!(policy.poll_next(Event::Start), Action::PollSource);
    assert_eq!(policy.poll_next(Event::SourcePending), Action::PollQueue);
    // nothing in flight, but the source has not ended
    assert_eq!(policy.poll_next(Event::QueueEmpty), Action::ReturnPending);
}

#[test]
fn done_only_when_source_ended_and_queue_is_empty() {
    let mut policy = TakeThenBuffered::new(0, 2);
    assert_eq!(policy.poll_next(Event::Start), Action::PollSource);
    assert_eq!(policy.poll_next(Event::SourceEnded), Action::PollQueue);
    assert_eq!(policy.poll_next(Event::QueueEmpty), Action::ReturnDone);
}

#[test]
fn no_concurrency_when_nothing_may_be_buffered() {
    let mut policy = TakeThenBuffered::new(0, 0);
    assert_eq!(policy.poll_next(Event::Start), Action::PollQueue);
    assert_eq!(policy.poll_next(Event::QueueEmpty), Action::ReturnPending);
}
