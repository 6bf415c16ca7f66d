use fsend::in_flight::InFlight;
use fsend::server::{
    relative_path, secure_resolve_path, unpack, Action, FileStat, Report, Request, RequestError,
    Task, Transfer, CHUNK_SIZE,
};
use fsend::{Event, FilePart, FileRequest, Metadata, RangesRequest};

fn names(path: &str) -> Vec<Vec<u8>> {
    path.split('/').map(|name| name.as_bytes().to_vec()).collect()
}

fn file_request(start: u64, end: u64, fid: u64) -> FileRequest {
    FileRequest {
        path: "/a/b".to_string(),
        start,
        end,
        fid,
    }
}

fn stat(len: u64) -> Report {
    Report::Stat(Some(FileStat { is_file: true, len }))
}

/// A file request that was brought to the point where `report` answers.
fn opened(start: u64, end: u64, len: u64, ids: &mut InFlight) -> (Request, Action) {
    let event = Event::File(file_request(start, end, 9));
    let mut request = Request::new(names("/srv"), event);
    assert_eq!(
        request.step(Report::Client(true), ids),
        Action::Canonicalize("a/b".to_string())
    );
    assert_eq!(
        request.step(Report::Canonical(Some(names("/srv/a/b"))), ids),
        Action::Stat
    );
    assert_eq!(request.step(stat(len), ids), Action::Open);
    let action = request.step(Report::Opened(true), ids);
    (request, action)
}

#[test]
fn leading_slashes_are_dropped() {
    assert_eq!(relative_path("/etc/passwd"), "etc/passwd");
    assert_eq!(relative_path("///a//b/"), "a//b/");
    assert_eq!(relative_path("a/b"), "a/b");
    assert_eq!(relative_path("////"), "");
    assert_eq!(relative_path(""), "");
    assert_eq!(relative_path("/文件/名"), "文件/名");
}

#[test]
fn paths_have_to_lie_inside_the_root() {
    let root = names("/srv/files");
    assert_eq!(
        secure_resolve_path(&root, &Some(names("/srv/files/a"))),
        Ok(())
    );
    assert_eq!(
        secure_resolve_path(&root, &Some(names("/srv/files"))),
        Ok(())
    );
    assert_eq!(
        secure_resolve_path(&root, &Some(names("/srv/files2/a"))),
        Err(RequestError::OutsideRoot)
    );
    assert_eq!(
        secure_resolve_path(&root, &Some(names("/srv"))),
        Err(RequestError::OutsideRoot)
    );
    assert_eq!(
        secure_resolve_path(&root, &None),
        Err(RequestError::NotFound)
    );
}

#[test]
fn identifiers_in_flight() {
    let mut ids = InFlight::new();
    assert!(ids.begin(3));
    assert!(!ids.begin(3));
    assert!(ids.begin(4));
    ids.finish(3);
    assert!(!ids.begin(4));
    assert!(ids.begin(3));
    ids.finish(77);
    assert!(!ids.begin(3));
}

#[test]
fn metadata_is_told() {
    let mut ids = InFlight::new();
    let mut request = Request::new(names("/srv"), Event::Metadata("//a".to_string()));
    assert_eq!(
        request.step(Report::Client(true), &mut ids),
        Action::Canonicalize("a".to_string())
    );
    assert_eq!(
        request.step(Report::Canonical(Some(names("/srv/a"))), &mut ids),
        Action::Stat
    );
    assert_eq!(
        request.step(stat(0), &mut ids),
        Action::Send(Event::AckMetadata(Metadata { size: 0 }))
    );
    assert_eq!(
        request.step(Report::Sent(true), &mut ids),
        Action::End(Ok(()))
    );
}

#[test]
fn metadata_errors() {
    let mut ids = InFlight::new();
    let fresh = || Request::new(names("/srv"), Event::Metadata("a".to_string()));
    assert_eq!(
        fresh().step(Report::Client(false), &mut ids),
        Action::End(Err(RequestError::UnknownClient))
    );
    let mut request = fresh();
    request.step(Report::Client(true), &mut ids);
    assert_eq!(
        request.step(Report::Canonical(None), &mut ids),
        Action::End(Err(RequestError::NotFound))
    );
    let mut request = fresh();
    request.step(Report::Client(true), &mut ids);
    assert_eq!(
        request.step(Report::Canonical(Some(names("/etc/a"))), &mut ids),
        Action::End(Err(RequestError::OutsideRoot))
    );
    let inside = |ids: &mut InFlight| {
        let mut request = fresh();
        request.step(Report::Client(true), ids);
        request.step(Report::Canonical(Some(names("/srv/a"))), ids);
        request
    };
    assert_eq!(
        inside(&mut ids).step(Report::Stat(None), &mut ids),
        Action::End(Err(RequestError::NoMetadata))
    );
    let directory = FileStat {
        is_file: false,
        len: 4096,
    };
    assert_eq!(
        inside(&mut ids).step(Report::Stat(Some(directory)), &mut ids),
        Action::End(Err(RequestError::NotAFile))
    );
    let mut request = inside(&mut ids);
    request.step(stat(5), &mut ids);
    assert_eq!(
        request.step(Report::Sent(false), &mut ids),
        Action::End(Err(RequestError::SendFailed))
    );
}

#[test]
fn file_is_sent_in_chunks() {
    let mut ids = InFlight::new();
    let (mut request, action) = opened(100, 2200, 5000, &mut ids);
    assert_eq!(
        action,
        Action::Advise {
            position: 100,
            len: 2100
        }
    );
    let mut action = request.step(Report::Advised(true), &mut ids);
    for (position, len) in [(100u64, 1024u64), (1124, 1024), (2148, 52)] {
        assert_eq!(action, Action::Read { position, len });
        let data = vec![position as u8; len as usize];
        assert_eq!(
            request.step(Report::Chunk(Some(data.clone())), &mut ids),
            Action::Send(Event::AckFile(FilePart {
                data,
                start: position,
                fid: 9
            }))
        );
        assert_eq!(request.step(Report::Sent(false), &mut ids), Action::Resend);
        assert!(!ids.begin(9));
        action = request.step(Report::Sent(true), &mut ids);
    }
    assert_eq!(action, Action::End(Ok(())));
    assert!(ids.begin(9));
}

#[test]
fn file_errors_free_the_identifier() {
    let mut ids = InFlight::new();
    let end = |error: RequestError| Action::End(Err(error));
    let event = || Event::File(file_request(0, 10, 9));

    let mut request = Request::new(names("/srv"), event());
    assert_eq!(
        request.step(Report::Client(false), &mut ids),
        end(RequestError::UnknownClient)
    );

    let mut request = Request::new(names("/srv"), event());
    request.step(Report::Client(true), &mut ids);
    assert_eq!(
        request.step(Report::Canonical(None), &mut ids),
        end(RequestError::NotFound)
    );

    let mut request = Request::new(names("/srv"), event());
    request.step(Report::Client(true), &mut ids);
    assert_eq!(
        request.step(Report::Canonical(Some(names("/etc"))), &mut ids),
        end(RequestError::OutsideRoot)
    );

    let mut request = Request::new(names("/srv"), event());
    request.step(Report::Client(true), &mut ids);
    request.step(Report::Canonical(Some(names("/srv/a/b"))), &mut ids);
    assert_eq!(
        request.step(Report::Stat(None), &mut ids),
        end(RequestError::NoMetadata)
    );

    let mut request = Request::new(names("/srv"), event());
    request.step(Report::Client(true), &mut ids);
    request.step(Report::Canonical(Some(names("/srv/a/b"))), &mut ids);
    request.step(stat(10), &mut ids);
    assert_eq!(
        request.step(Report::Opened(false), &mut ids),
        end(RequestError::OpenFailed)
    );

    let (mut request, _) = opened(0, 10, 10, &mut ids);
    assert_eq!(
        request.step(Report::Advised(false), &mut ids),
        end(RequestError::AdviseFailed)
    );

    let (mut request, _) = opened(0, 10, 10, &mut ids);
    request.step(Report::Advised(true), &mut ids);
    assert_eq!(
        request.step(Report::Chunk(None), &mut ids),
        end(RequestError::ReadFailed)
    );
    assert!(ids.begin(9));
}

#[test]
fn identifier_in_use_is_refused() {
    let mut ids = InFlight::new();
    let (mut first, _) = opened(0, 10, 10, &mut ids);
    let mut second = Request::new(names("/srv"), Event::File(file_request(0, 10, 9)));
    assert_eq!(
        second.step(Report::Client(true), &mut ids),
        Action::End(Err(RequestError::DuplicateFid))
    );
    second.release(&mut ids);
    assert!(!ids.begin(9));
    first.release(&mut ids);
    assert!(ids.begin(9));
}

#[test]
fn empty_file_needs_no_opening() {
    let mut ids = InFlight::new();
    let mut request = Request::new(names("/srv"), Event::File(file_request(0, 10, 9)));
    request.step(Report::Client(true), &mut ids);
    request.step(Report::Canonical(Some(names("/srv/a/b"))), &mut ids);
    assert_eq!(request.step(stat(0), &mut ids), Action::End(Ok(())));
    assert!(ids.begin(9));
}

#[test]
fn other_events_are_ignored() {
    let mut ids = InFlight::new();
    for event in [
        Event::AckMetadata(Metadata { size: 1 }),
        Event::FileEnd(1),
        Event::AckFile(FilePart {
            data: vec![1],
            start: 0,
            fid: 1,
        }),
    ] {
        let mut request = Request::new(names("/srv"), event);
        assert_eq!(
            request.step(Report::Client(true), &mut ids),
            Action::End(Ok(()))
        );
    }
}

#[test]
fn ranges_are_clamped_to_the_file_size() {
    let of = |start: u64, end: u64, len: u64| Transfer::new(&file_request(start, end, 9), len);
    let expect = |position: u64, remaining: u64| Transfer {
        fid: 9,
        position,
        remaining,
    };
    assert_eq!(of(10, 20, 100), expect(10, 10));
    assert_eq!(of(0, 1000, 100), expect(0, 100));
    assert_eq!(of(90, 1000, 100), expect(90, 100));
    assert_eq!(of(20, 10, 100), expect(20, 0));
    assert_eq!(of(0, u64::MAX, u64::MAX), expect(0, u64::MAX));
    assert_eq!(of(0, 5000, 5000).next_len(), CHUNK_SIZE);
    assert_eq!(of(0, 5, 5000).next_len(), 5);
}

#[test]
fn empty_range_is_served_at_once() {
    let mut ids = InFlight::new();
    let (mut request, action) = opened(20, 10, 100, &mut ids);
    assert_eq!(
        action,
        Action::Advise {
            position: 20,
            len: 0
        }
    );
    assert_eq!(
        request.step(Report::Advised(true), &mut ids),
        Action::End(Ok(()))
    );
}

#[test]
fn request_for_several_ranges_is_unpacked() {
    let work = unpack(Event::Ranges(RangesRequest {
        path: "/a/b".to_string(),
        ranges: vec![(0, 10), (20, 30)],
        file_id: 9,
        action_id: 1,
    }));
    assert_eq!(
        work.requests,
        vec![
            Event::File(file_request(0, 10, 9)),
            Event::File(file_request(20, 30, 9))
        ]
    );
    assert_eq!(work.closing, Some(Event::FileEnd(9)));
    let work = unpack(Event::Metadata("a".to_string()));
    assert_eq!(work.requests, vec![Event::Metadata("a".to_string())]);
    assert_eq!(work.closing, None);
}

#[test]
fn work_is_done_in_turn() {
    let batch = || {
        unpack(Event::Ranges(RangesRequest {
            path: "/a/b".to_string(),
            ranges: vec![(0, 10), (20, 30)],
            file_id: 9,
            action_id: 1,
        }))
    };
    let mut work = batch();
    assert_eq!(
        work.next(true),
        Task::Handle(Event::File(file_request(0, 10, 9)))
    );
    assert_eq!(
        work.next(true),
        Task::Handle(Event::File(file_request(20, 30, 9)))
    );
    assert_eq!(work.next(true), Task::Announce(Event::FileEnd(9)));
    assert_eq!(work.next(true), Task::Done);

    let mut work = batch();
    work.next(true);
    assert_eq!(work.next(false), Task::Done);
    assert_eq!(work.next(true), Task::Done);

    let mut work = unpack(Event::Metadata("a".to_string()));
    assert_eq!(
        work.next(true),
        Task::Handle(Event::Metadata("a".to_string()))
    );
    assert_eq!(work.next(true), Task::Done);
}
