use fsend::client::{Action as ClientAction, Download, Outcome, Reply};
use fsend::in_flight::InFlight;
use fsend::server::{unpack, Action, FileStat, Report, Request, Task};
use fsend::Event;

/// The events that are sent for `event`, about a file with this content.
fn serve(content: &[u8], event: Event, ids: &mut InFlight) -> Vec<Event> {
    let root: Vec<Vec<u8>> = vec![b"/".to_vec(), b"srv".to_vec()];
    let mut sent = Vec::new();
    let mut work = unpack(event);
    loop {
        let request = match work.next(true) {
            Task::Handle(request) => request,
            Task::Announce(event) => {
                sent.push(event);
                continue;
            }
            Task::Done => return sent,
        };
        let mut request = Request::new(root.clone(), request);
        let mut action = Action::FindClient;
        loop {
            let report = match action {
                Action::FindClient => Report::Client(true),
                Action::Canonicalize(path) => {
                    let mut names = root.clone();
                    names.push(path.into_bytes());
                    Report::Canonical(Some(names))
                }
                Action::Stat => Report::Stat(Some(FileStat {
                    is_file: true,
                    len: content.len() as u64,
                })),
                Action::Open => Report::Opened(true),
                Action::Advise { position, len } => {
                    Report::Advised(position + len <= content.len() as u64)
                }
                Action::Read { position, len } => Report::Chunk(
                    content
                        .get(position as usize..(position + len) as usize)
                        .map(|bytes| bytes.to_vec()),
                ),
                Action::Send(event) => {
                    sent.push(event);
                    Report::Sent(true)
                }
                Action::Resend => unreachable!(),
                Action::End(result) => {
                    assert_eq!(result, Ok(()));
                    break;
                }
            };
            action = request.step(report, ids);
        }
    }
}

/// Downloads the content; `lose` says which of the parts get lost. Returns how
/// many requests it took.
fn download(content: &[u8], lose: impl Fn(usize) -> bool) -> usize {
    let mut ids = InFlight::new();
    let mut file = vec![0xaau8; content.len()];
    let mut gained = 0;
    let mut requests = 0;
    let mut count = 0;
    let mut incoming: Vec<Event> = Vec::new();
    let (mut download, mut action) = Download::begin("/f".to_string(), content.len() as u64).unwrap();
    loop {
        let request = match action {
            ClientAction::Request(event) => Some(event),
            ClientAction::Resend => panic!("nothing is lost for good"),
            ClientAction::Receive => None,
            ClientAction::Finish => break,
        };
        if let Some(event) = request {
            requests += 1;
            for event in serve(content, event, &mut ids) {
                count += 1;
                if !lose(count) {
                    incoming.push(event);
                }
            }
        }
        let outcome = if incoming.is_empty() {
            Outcome::Received(Reply::TimedOut)
        } else {
            Outcome::Received(Reply::Message(incoming.remove(0)))
        };
        assert!(download.fits(&outcome));
        let step = download.advance(outcome).unwrap();
        gained += step.gained;
        if let Some(part) = step.part {
            let from = part.start as usize;
            file[from..from + part.data.len()].copy_from_slice(&part.data);
        }
        action = step.action;
    }
    assert_eq!(file, content);
    assert_eq!(gained, content.len() as u64);
    requests
}

fn content(len: usize) -> Vec<u8> {
    (0..len).map(|i| (i * 7 + i / 256) as u8).collect()
}

#[test]
fn lossless_round_completes_the_download() {
    assert_eq!(download(&content(5000), |_| false), 1);
    assert_eq!(download(&content(1024), |_| false), 1);
    assert_eq!(download(&content(1), |_| false), 1);
}

#[test]
fn file_without_bytes_needs_no_request() {
    assert_eq!(download(&[], |_| false), 0);
}

#[test]
fn lost_parts_are_asked_for_again() {
    let requests = download(&content(20000), |i| i % 3 == 0 && i < 40);
    assert!(requests > 1);
}

#[test]
fn part_without_a_position_does_not_fit() {
    let (mut download, action) = Download::begin("/f".to_string(), 10).unwrap();
    let file_id = match action {
        ClientAction::Request(Event::Ranges(request)) => request.file_id,
        _ => unreachable!(),
    };
    let outcome = |fid: u64, start: u64| {
        Outcome::Received(Reply::Message(Event::AckFile(fsend::FilePart {
            data: vec![1, 2],
            start,
            fid,
        })))
    };
    assert!(!download.fits(&outcome(file_id, u64::MAX - 1)));
    assert!(download.fits(&outcome(file_id, u64::MAX - 2)));
    assert!(download.fits(&outcome(file_id.wrapping_add(1), u64::MAX)));
    let step = download.advance(outcome(file_id, u64::MAX - 2)).unwrap();
    assert_eq!(step.gained, 2);
}
