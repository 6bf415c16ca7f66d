use fsend::client::{
    get_file, metadata_reply, Action, Download, Outcome, ReceiveError, Reply, Step,
    MAX_REQUEST_RANGES, REQUEST_WINDOW,
};
use fsend::{Event, FilePart, Metadata, RangesRequest};

fn part(fid: u64, start: u64, len: usize) -> Event {
    Event::AckFile(FilePart {
        data: vec![7; len],
        start,
        fid,
    })
}

fn came(event: Event) -> Outcome {
    Outcome::Received(Reply::Message(event))
}

fn ranges(action: Action) -> Vec<(u64, u64)> {
    match action {
        Action::Request(Event::Ranges(request)) => request.ranges,
        other => panic!("no request: {:?}", other),
    }
}

#[test]
fn metadata_is_recognised() {
    let ack = Event::AckMetadata(Metadata { size: 12 });
    assert_eq!(metadata_reply(came(ack)), Some(Metadata { size: 12 }));
    assert_eq!(metadata_reply(came(Event::FileEnd(3))), None);
    assert_eq!(metadata_reply(Outcome::SendFailed), None);
    assert_eq!(metadata_reply(Outcome::Received(Reply::TimedOut)), None);
    assert_eq!(metadata_reply(Outcome::Received(Reply::Nothing)), None);
    assert_eq!(metadata_reply(Outcome::Received(Reply::Undecodable)), None);
}

#[test]
fn replies_of_this_download_are_passed_on() {
    assert_eq!(
        get_file(Reply::Message(part(5, 0, 3)), 5),
        Ok(Some(part(5, 0, 3)))
    );
    assert_eq!(
        get_file(Reply::Message(Event::FileEnd(5)), 5),
        Ok(Some(Event::FileEnd(5)))
    );
    assert_eq!(get_file(Reply::Nothing, 5), Ok(None));
}

#[test]
fn other_replies_are_errors() {
    assert_eq!(get_file(Reply::TimedOut, 5), Err(ReceiveError::TimedOut));
    assert_eq!(get_file(Reply::Failed, 5), Err(ReceiveError::Failed));
    assert_eq!(
        get_file(Reply::Undecodable, 5),
        Err(ReceiveError::InvalidFormat)
    );
    assert_eq!(
        get_file(Reply::Message(part(6, 0, 3)), 5),
        Err(ReceiveError::InvalidFormat)
    );
    assert_eq!(
        get_file(Reply::Message(Event::FileEnd(6)), 5),
        Err(ReceiveError::InvalidFormat)
    );
    assert_eq!(
        get_file(Reply::Message(Event::Metadata("a".to_string())), 5),
        Err(ReceiveError::InvalidFormat)
    );
}

#[test]
fn first_request_asks_for_everything() {
    let (_, action) = Download::begin_with("dir/a".to_string(), 5000, 1, 2);
    assert_eq!(
        action,
        Action::Request(Event::Ranges(RangesRequest {
            path: "dir/a".to_string(),
            ranges: vec![(0, 5000)],
            file_id: 1,
            action_id: 2,
        }))
    );
}

#[test]
fn empty_file_is_complete_at_once() {
    let (mut download, action) = Download::begin_with("a".to_string(), 0, 1, 2);
    assert_eq!(action, Action::Finish);
    let step = download.advance_with(came(part(1, 0, 4)), 3);
    assert_eq!(
        step,
        Step {
            action: Action::Finish,
            part: None,
            gained: 0
        }
    );
}

#[test]
fn request_is_sent_again_until_a_part_comes() {
    let (mut download, _) = Download::begin_with("a".to_string(), 10, 1, 2);
    for outcome in [
        Outcome::SendFailed,
        Outcome::Received(Reply::TimedOut),
        Outcome::Received(Reply::Failed),
        Outcome::Received(Reply::Nothing),
        Outcome::Received(Reply::Undecodable),
        came(part(9, 0, 4)),
        came(Event::FileEnd(1)),
    ] {
        let step = download.advance_with(outcome, 3);
        assert_eq!(step.action, Action::Resend);
        assert_eq!(step.part, None);
        assert_eq!(step.gained, 0);
    }
    let step = download.advance_with(came(part(1, 0, 4)), 3);
    assert_eq!(step.action, Action::Receive);
    assert_eq!(Event::AckFile(step.part.unwrap()), part(1, 0, 4));
    assert_eq!(step.gained, 4);
}

#[test]
fn parts_are_drained_and_the_rest_is_asked_for() {
    let (mut download, _) = Download::begin_with("a".to_string(), 10, 1, 2);
    assert_eq!(download.advance_with(came(part(1, 0, 4)), 3).gained, 4);
    assert_eq!(download.advance_with(came(part(1, 2, 4)), 3).gained, 2);
    assert_eq!(download.advance_with(came(part(1, 2, 4)), 3).gained, 0);
    for outcome in [
        Outcome::Received(Reply::Failed),
        Outcome::Received(Reply::Nothing),
        Outcome::Received(Reply::Undecodable),
        came(Event::FileEnd(8)),
    ] {
        assert_eq!(download.advance_with(outcome, 3).action, Action::Receive);
    }
    let step = download.advance_with(Outcome::Received(Reply::TimedOut), 4);
    assert_eq!(
        step.action,
        Action::Request(Event::Ranges(RangesRequest {
            path: "a".to_string(),
            ranges: vec![(6, 10)],
            file_id: 1,
            action_id: 4,
        }))
    );
    let step = download.advance_with(came(part(1, 6, 4)), 5);
    assert_eq!(step.gained, 4);
    let step = download.advance_with(came(Event::FileEnd(1)), 5);
    assert_eq!(step.action, Action::Finish);
}

#[test]
fn short_ranges_are_asked_for_again() {
    let size = 4 * REQUEST_WINDOW;
    let (mut download, _) = Download::begin_with("a".to_string(), size, 1, 2);
    download.advance_with(came(part(1, 100, 50)), 3);
    let long = REQUEST_WINDOW as usize;
    download.advance_with(came(part(1, 2 * REQUEST_WINDOW, long)), 3);
    let step = download.advance_with(Outcome::Received(Reply::TimedOut), 3);
    assert_eq!(
        ranges(step.action),
        vec![(0, 2 * REQUEST_WINDOW), (3 * REQUEST_WINDOW, size)]
    );
}

#[test]
fn request_is_limited() {
    let count = MAX_REQUEST_RANGES as u64 + 3;
    let size = (2 * count + 1) * REQUEST_WINDOW;
    let (mut download, _) = Download::begin_with("a".to_string(), size, 1, 2);
    for i in 0..count {
        let start = (2 * i + 1) * REQUEST_WINDOW;
        download.advance_with(came(part(1, start, REQUEST_WINDOW as usize)), 3);
    }
    let step = download.advance_with(came(Event::FileEnd(1)), 3);
    let asked = ranges(step.action);
    assert_eq!(asked.len(), 64);
    assert_eq!(asked[0], (0, REQUEST_WINDOW));
    assert_eq!(asked[63], (126 * REQUEST_WINDOW, 127 * REQUEST_WINDOW));
}

#[test]
fn end_is_believed_only_when_nothing_is_missing() {
    let (mut download, _) = Download::begin_with("a".to_string(), 4, 1, 2);
    assert_eq!(
        download.advance_with(came(Event::FileEnd(1)), 3).action,
        Action::Resend
    );
    download.advance_with(came(part(1, 0, 2)), 3);
    let step = download.advance_with(came(Event::FileEnd(1)), 3);
    assert_eq!(ranges(step.action), vec![(2, 4)]);
    assert_eq!(
        download.advance_with(came(Event::FileEnd(1)), 3).action,
        Action::Resend
    );
}

#[test]
fn finished_download_holds_the_file() {
    let content: Vec<u8> = (0..100u8).collect();
    let mut file = vec![255u8; content.len()];
    let (mut download, _) = Download::begin_with("a".to_string(), 100, 1, 2);
    let pieces = [(40usize, 70usize), (0, 45), (90, 100), (60, 90)];
    for (start, end) in pieces {
        let event = Event::AckFile(FilePart {
            data: content[start..end].to_vec(),
            start: start as u64,
            fid: 1,
        });
        let step = download.advance_with(came(event), 3);
        let part = step.part.unwrap();
        let from = part.start as usize;
        file[from..from + part.data.len()].copy_from_slice(&part.data);
    }
    let step = download.advance_with(Outcome::Received(Reply::TimedOut), 3);
    assert_eq!(step.action, Action::Finish);
    assert_eq!(file, content);
}

#[test]
fn identifiers_are_drawn_anew() {
    let request = |action: Action| match action {
        Action::Request(Event::Ranges(request)) => request,
        other => panic!("no request: {:?}", other),
    };
    let (mut download, action) = Download::begin("a".to_string(), 10).unwrap();
    let first = request(action);
    assert_eq!(first.ranges, vec![(0, 10)]);
    assert_ne!(first.file_id, first.action_id);
    let step = download.advance(came(part(first.file_id, 0, 4))).unwrap();
    assert_eq!(step.gained, 4);
    let second = request(
        download
            .advance(Outcome::Received(Reply::TimedOut))
            .unwrap()
            .action,
    );
    assert_eq!(second.file_id, first.file_id);
    assert_ne!(second.action_id, first.action_id);
    assert_eq!(second.ranges, vec![(4, 10)]);
}

#[test]
fn file_without_bytes_begins_and_ends() {
    let (mut download, action) = Download::begin("a".to_string(), 0).unwrap();
    assert_eq!(action, Action::Finish);
    let step = download.advance(Outcome::SendFailed).unwrap();
    assert_eq!(step.action, Action::Finish);
}
