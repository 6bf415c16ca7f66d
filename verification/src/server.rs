//! The decisions of the serving side.
use crate::in_flight::InFlight;
use crate::progress::ProgressEntry;
use crate::{Event, FilePart, FileRequest, Metadata, RangesRequest};
use vstd::prelude::*;

pub mod run;

verus! {

/// The most bytes that one part holds.
pub const CHUNK_SIZE: u64 = 1024;

/// The pause before a part is sent again, in milliseconds.
pub const RESEND_PAUSE_MILLIS: u64 = 100;

/// Why a request was not served.
#[derive(PartialEq, Debug)]
pub enum RequestError {
    /// The client that asked is not connected.
    UnknownClient,
    /// A request with this identifier is being served.
    DuplicateFid,
    /// The path does not exist.
    NotFound,
    /// The path leads out of the directory that is served.
    OutsideRoot,
    /// Nothing could be learned of the file.
    NoMetadata,
    /// The path is not that of a file.
    NotAFile,
    OpenFailed,
    /// The range does not lie in the file, or the system refused it.
    AdviseFailed,
    ReadFailed,
    SendFailed,
}

/// The path without the slashes that it starts with.
pub open spec fn without_leading_slashes(path: Seq<char>) -> Seq<char>
    decreases path.len(),
{
    if path.len() > 0 && path[0] == '/' {
        without_leading_slashes(path.drop_first())
    } else {
        path
    }
}

/// The path to look up below the directory that is served: it never starts at
/// the root of the file system.
pub fn relative_path(path: &str) -> (result: String)
    ensures
        result@ == without_leading_slashes(path@),
        result@.len() > 0 ==> result@[0] != '/',
        exists|n: int|
            {
                &&& 0 <= n <= path@.len()
                &&& result@ == #[trigger] path@.skip(n)
                &&& forall|i: int| 0 <= i < n ==> #[trigger] path@[i] == '/'
                &&& n == path@.len() || path@[n] != '/'
            },
{
    let len: usize = path.unicode_len();
    let mut slashes: usize = 0;
    assert(path@.skip(0) =~= path@);
    while slashes < len && path.get_char(slashes) == '/'
        invariant
            slashes <= len == path@.len(),
            without_leading_slashes(path@) == without_leading_slashes(path@.skip(slashes as int)),
            forall|i: int| 0 <= i < slashes ==> #[trigger] path@[i] == '/',
        decreases len - slashes,
    {
        assert(path@.skip(slashes as int).drop_first() =~= path@.skip(slashes + 1));
        slashes = slashes + 1;
    }
    assert(path@.subrange(slashes as int, len as int) =~= path@.skip(slashes as int));
    path.substring_char(slashes, len).to_owned()
}

/// What is left of a path is what follows the slashes that it starts with, all of it:
/// nothing but slashes is dropped, and only from the front. The result is how many.
pub proof fn law_only_leading_slashes_are_dropped(path: Seq<char>) -> (n: int)
    ensures
        0 <= n <= path.len(),
        without_leading_slashes(path) == path.skip(n),
        forall|i: int| 0 <= i < n ==> #[trigger] path[i] == '/',
        n == path.len() || path[n] != '/',
    decreases path.len(),
{
    if path.len() > 0 && path[0] == '/' {
        let rest = path.drop_first();
        let m = law_only_leading_slashes_are_dropped(rest);
        assert(rest.skip(m) =~= path.skip(m + 1));
        assert forall|i: int| 0 <= i < m + 1 implies #[trigger] path[i] == '/' by {
            if i > 0 {
                assert(rest[i - 1] == path[i]);
            }
        }
        if m < rest.len() {
            assert(rest[m] == path[m + 1]);
        }
        m + 1
    } else {
        assert(path.skip(0) =~= path);
        0
    }
}

/// The names that a path is made of.
pub open spec fn names(path: Vec<Vec<u8>>) -> Seq<Seq<u8>> {
    path@.map_values(|name: Vec<u8>| name@)
}

/// Whether a path lies at or below `root`, name by name.
pub open spec fn inside(root: Seq<Seq<u8>>, path: Seq<Seq<u8>>) -> bool {
    root.is_prefix_of(path)
}

/// Whether the path lies at or below `root`.
fn is_inside(root: &Vec<Vec<u8>>, path: &Vec<Vec<u8>>) -> (result: bool)
    ensures
        result == inside(names(*root), names(*path)),
{
    if path.len() < root.len() {
        return false;
    }
    let mut i: usize = 0;
    while i < root.len()
        invariant
            i <= root.len() <= path.len(),
            forall|k: int| 0 <= k < i ==> names(*root)[k] == #[trigger] names(*path)[k],
        decreases root.len() - i,
    {
        if !(root[i] == path[i]) {
            assert(names(*root)[i as int] != names(*path)[i as int]);
            return false;
        }
        assert(root@[i as int]@ =~= path@[i as int]@);
        i = i + 1;
    }
    assert(names(*path).subrange(0, root@.len() as int) =~= names(*root));
    true
}

/// A path lies inside if its names start with those of `root`.
pub proof fn lemma_inside_name_by_name(root: Seq<Seq<u8>>, path: Vec<Vec<u8>>)
    ensures
        inside(root, names(path)) <==> {
            &&& root.len() <= path@.len()
            &&& forall|k: int| 0 <= k < root.len() ==> root[k] == (#[trigger] path@[k])@
        },
{
    let all = names(path);
    assert forall|k: int| 0 <= k < path@.len() implies all[k] == (#[trigger] path@[k])@ by {}
    if inside(root, all) {
        assert forall|k: int| 0 <= k < root.len() implies root[k] == (#[trigger] path@[k])@ by {
            assert(root[k] == all.subrange(0, root.len() as int)[k]);
        }
    }
    if root.len() <= path@.len() && forall|k: int|
        0 <= k < root.len() ==> root[k] == (#[trigger] path@[k])@ {
        assert forall|k: int| 0 <= k < root.len() implies root[k] == #[trigger] all[k] by {
            assert(path@[k]@ == all[k]);
        }
        assert(root =~= all.subrange(0, root.len() as int));
    }
}

/// Whether a path that was asked for may be used: it has to exist, and to lie at
/// or below `root` once it is resolved, whatever names it was asked for by.
pub fn secure_resolve_path(root: &Vec<Vec<u8>>, resolved: &Option<Vec<Vec<u8>>>) -> (result: Result<
    (),
    RequestError,
>)
    ensures
        result == match *resolved {
            None => Err::<(), _>(RequestError::NotFound),
            Some(path) => if inside(names(*root), names(path)) {
                Ok(())
            } else {
                Err(RequestError::OutsideRoot)
            },
        },
        result is Ok <==> (*resolved matches Some(path) && {
            &&& root@.len() <= path@.len()
            &&& forall|k: int| 0 <= k < root@.len() ==> root@[k]@ == (#[trigger] path@[k])@
        }),
        result == Err::<(), _>(RequestError::NotFound) <==> *resolved is None,
{
    proof {
        if let Some(path) = resolved {
            lemma_inside_name_by_name(names(*root), *path);
        }
    }
    match resolved {
        None => Err(RequestError::NotFound),
        Some(path) => if is_inside(root, path) {
            Ok(())
        } else {
            Err(RequestError::OutsideRoot)
        },
    }
}

/// What is known of a file.
pub struct FileStat {
    pub is_file: bool,
    pub len: u64,
}

/// What a path is looked up for.
pub enum Job {
    /// To tell of the file.
    Info,
    /// To send bytes of the file.
    File(FileRequest),
}

/// Bytes that are still to be sent.
#[derive(PartialEq, Debug)]
pub struct Transfer {
    pub fid: u64,
    /// The first of them.
    pub position: u64,
    /// How many they are.
    pub remaining: u64,
}

/// How far a request has come.
pub enum State {
    Received(Event),
    Resolving(Job),
    Sizing(Job),
    SendingInfo,
    Opening(Transfer),
    Advising(Transfer),
    Reading(Transfer),
    /// A part is being sent; these bytes follow it.
    SendingPart(Transfer),
    Ended,
}

/// What to do for a request.
#[derive(PartialEq, Debug)]
pub enum Action {
    /// Look the client up.
    FindClient,
    /// Resolve this path below the directory that is served.
    Canonicalize(String),
    /// Read the metadata of the resolved path.
    Stat,
    /// Open the resolved path.
    Open,
    /// Announce that these bytes will be read in order.
    Advise { position: u64, len: u64 },
    /// Read these bytes.
    Read { position: u64, len: u64 },
    /// Send this event to the client.
    Send(Event),
    /// Pause, then send the last event again.
    Resend,
    /// The request is done with.
    End(Result<(), RequestError>),
}

/// What came of an action.
pub enum Report {
    /// Whether the client is connected.
    Client(bool),
    /// The names of the resolved path, if it exists.
    Canonical(Option<Vec<Vec<u8>>>),
    /// The metadata, if it could be read.
    Stat(Option<FileStat>),
    /// Whether the file was opened.
    Opened(bool),
    /// Whether the announcement was accepted.
    Advised(bool),
    /// The bytes, if they could be read.
    Chunk(Option<Vec<u8>>),
    /// Whether the event was sent.
    Sent(bool),
}

/// What a request comes to: it goes on, or it ends.
pub enum Verdict {
    Go(State),
    End(Result<(), RequestError>),
}

/// What a request knows.
pub struct RequestView {
    /// The names of the directory that is served.
    pub root: Seq<Seq<u8>>,
    pub state: State,
}

/// The smaller of two numbers.
pub open spec fn smaller(a: u64, b: u64) -> u64 {
    if a <= b {
        a
    } else {
        b
    }
}

/// The bytes that a request is to be sent of a file of `len` bytes: as many as it
/// asks for, but no more than the file has.
pub open spec fn transfer_of(request: FileRequest, len: u64) -> Transfer {
    Transfer {
        fid: request.fid,
        position: request.start,
        remaining: if request.start <= request.end {
            smaller((request.end - request.start) as u64, len)
        } else {
            0
        },
    }
}

/// How many bytes the next part holds.
pub open spec fn chunk_len(transfer: Transfer) -> u64 {
    smaller(CHUNK_SIZE, transfer.remaining)
}

/// The bytes that follow the next part.
pub open spec fn past_chunk(transfer: Transfer) -> Transfer {
    Transfer {
        fid: transfer.fid,
        position: (transfer.position + chunk_len(transfer)) as u64,
        remaining: (transfer.remaining - chunk_len(transfer)) as u64,
    }
}

/// The next part with the bytes that were read for it.
pub open spec fn is_part(part: FilePart, transfer: Transfer, data: Seq<u8>) -> bool {
    &&& part.fid == transfer.fid
    &&& part.start == transfer.position
    &&& part.data@ == data
}

/// A transfer goes on with its next part, if bytes are left.
pub open spec fn next_chunk(transfer: Transfer) -> Verdict {
    if transfer.remaining == 0 {
        Verdict::End(Ok(()))
    } else {
        Verdict::Go(State::Reading(transfer))
    }
}

/// Whether `report` tells of what is to be done in `state`. What was read has the
/// length that was asked for, and lies at positions that exist.
pub open spec fn answers(state: State, report: Report) -> bool {
    match state {
        State::Received(_) => report is Client,
        State::Resolving(_) => report is Canonical,
        State::Sizing(_) => report is Stat,
        State::SendingInfo => report is Sent,
        State::Opening(_) => report is Opened,
        State::Advising(_) => report is Advised,
        State::Reading(transfer) => report is Chunk && (report matches Report::Chunk(Some(data))
            ==> data@.len() == chunk_len(transfer) && transfer.position + data@.len() <= u64::MAX),
        State::SendingPart(_) => report is Sent,
        State::Ended => false,
    }
}

/// What a request comes to after `report`, when `ids` are being served.
pub open spec fn decide(request: RequestView, report: Report, ids: Set<u64>) -> Verdict {
    match (request.state, report) {
        (State::Received(event), Report::Client(known)) => if !known {
            Verdict::End(Err(RequestError::UnknownClient))
        } else {
            match event {
                Event::Metadata(_) => Verdict::Go(State::Resolving(Job::Info)),
                Event::File(file) => if ids.contains(file.fid) {
                    Verdict::End(Err(RequestError::DuplicateFid))
                } else {
                    Verdict::Go(State::Resolving(Job::File(file)))
                },
                _ => Verdict::End(Ok(())),
            }
        },
        (State::Resolving(job), Report::Canonical(path)) => match path {
            None => Verdict::End(Err(RequestError::NotFound)),
            Some(path) => if inside(request.root, names(path)) {
                Verdict::Go(State::Sizing(job))
            } else {
                Verdict::End(Err(RequestError::OutsideRoot))
            },
        },
        (State::Sizing(job), Report::Stat(stat)) => match stat {
            None => Verdict::End(Err(RequestError::NoMetadata)),
            Some(stat) => match job {
                Job::Info => if stat.is_file {
                    Verdict::Go(State::SendingInfo)
                } else {
                    Verdict::End(Err(RequestError::NotAFile))
                },
                Job::File(file) => if stat.len == 0 {
                    Verdict::End(Ok(()))
                } else {
                    Verdict::Go(State::Opening(transfer_of(file, stat.len)))
                },
            },
        },
        (State::SendingInfo, Report::Sent(sent)) => if sent {
            Verdict::End(Ok(()))
        } else {
            Verdict::End(Err(RequestError::SendFailed))
        },
        (State::Opening(transfer), Report::Opened(opened)) => if opened {
            Verdict::Go(State::Advising(transfer))
        } else {
            Verdict::End(Err(RequestError::OpenFailed))
        },
        (State::Advising(transfer), Report::Advised(advised)) => if advised {
            next_chunk(transfer)
        } else {
            Verdict::End(Err(RequestError::AdviseFailed))
        },
        (State::Reading(transfer), Report::Chunk(data)) => if data is Some {
            Verdict::Go(State::SendingPart(past_chunk(transfer)))
        } else {
            Verdict::End(Err(RequestError::ReadFailed))
        },
        (State::SendingPart(transfer), Report::Sent(sent)) => if sent {
            next_chunk(transfer)
        } else {
            Verdict::Go(State::SendingPart(transfer))
        },
        (state, _) => Verdict::Go(state),
    }
}

/// The identifier that a request is being served under.
pub open spec fn held(state: State) -> Option<u64> {
    match state {
        State::Resolving(Job::File(file)) => Some(file.fid),
        State::Sizing(Job::File(file)) => Some(file.fid),
        State::Opening(transfer) => Some(transfer.fid),
        State::Advising(transfer) => Some(transfer.fid),
        State::Reading(transfer) => Some(transfer.fid),
        State::SendingPart(transfer) => Some(transfer.fid),
        _ => None,
    }
}

/// The state after a verdict.
pub open spec fn state_after(verdict: Verdict) -> State {
    match verdict {
        Verdict::Go(state) => state,
        Verdict::End(_) => State::Ended,
    }
}

/// The identifiers that are being served, without that of a request, if it has
/// one.
pub open spec fn released(ids: Set<u64>, state: State) -> Set<u64> {
    match held(state) {
        Some(id) => ids.remove(id),
        None => ids,
    }
}

/// The identifiers that are being served once a request went from one state to
/// the next: it is counted as soon as it is taken on, and until it ends.
pub open spec fn ids_after(ids: Set<u64>, before: State, after: State) -> Set<u64> {
    match held(after) {
        Some(id) => if held(before) is None {
            ids.insert(id)
        } else {
            ids
        },
        None => released(ids, before),
    }
}

/// Whether `action` is what the verdict on `report` asks for.
pub open spec fn carries_out(
    action: Action,
    before: State,
    report: Report,
    verdict: Verdict,
) -> bool {
    match verdict {
        Verdict::End(result) => action == Action::End(result),
        Verdict::Go(State::Resolving(_)) => action matches Action::Canonicalize(path) && path@
            == without_leading_slashes(asked_path(before)),
        Verdict::Go(State::Sizing(_)) => action is Stat,
        Verdict::Go(State::SendingInfo) => report matches Report::Stat(Some(stat)) && action
            == Action::Send(Event::AckMetadata(Metadata { size: stat.len })),
        Verdict::Go(State::Opening(_)) => action is Open,
        Verdict::Go(State::Advising(transfer)) => action == (Action::Advise {
            position: transfer.position,
            len: transfer.remaining,
        }),
        Verdict::Go(State::Reading(transfer)) => action == (Action::Read {
            position: transfer.position,
            len: chunk_len(transfer),
        }),
        Verdict::Go(State::SendingPart(_)) => match (before, report) {
            (State::Reading(transfer), Report::Chunk(Some(data))) => action matches Action::Send(
                Event::AckFile(part),
            ) && is_part(part, transfer, data@),
            _ => action is Resend,
        },
        Verdict::Go(_) => false,
    }
}

/// The path that an event names.
pub open spec fn asked_path(state: State) -> Seq<char> {
    match state {
        State::Received(Event::Metadata(path)) => path@,
        State::Received(Event::File(file)) => file.path@,
        _ => Seq::empty(),
    }
}

/// A request that is being handled. It begins with `Action::FindClient`.
pub struct Request {
    root: Vec<Vec<u8>>,
    state: State,
}

impl View for Request {
    type V = RequestView;

    closed spec fn view(&self) -> RequestView {
        RequestView { root: names(self.root), state: self.state }
    }
}

impl Request {
    /// A request that came in, for a file below `root`.
    pub fn new(root: Vec<Vec<u8>>, event: Event) -> (result: Request)
        ensures
            result@ == (RequestView { root: names(root), state: State::Received(event) }),
    {
        Request { root, state: State::Received(event) }
    }

    /// Takes in what came of the last action, and says what to do next.
    pub fn step(&mut self, report: Report, in_flight: &mut InFlight) -> (action: Action)
        requires
            answers(old(self)@.state, report),
        ensures
            ({
                let verdict = decide(old(self)@, report, old(in_flight)@);
                &&& carries_out(action, old(self)@.state, report, verdict)
                &&& final(self)@ == (RequestView {
                    root: old(self)@.root,
                    state: state_after(verdict),
                })
                &&& final(in_flight)@ == ids_after(
                    old(in_flight)@,
                    old(self)@.state,
                    state_after(verdict),
                )
            }),
            old(self)@.state == State::Sizing(Job::Info) ==> (report matches Report::Stat(
                Some(stat),
            ) ==> (stat.is_file ==> action == Action::Send(
                Event::AckMetadata((Metadata { size: stat.len })),
            ))),
    {
        let mut state = State::Ended;
        std::mem::swap(&mut state, &mut self.state);
        match (state, report) {
            (State::Received(event), Report::Client(known)) => {
                if !known {
                    return Action::End(Err(RequestError::UnknownClient));
                }
                match event {
                    Event::Metadata(path) => {
                        self.state = State::Resolving(Job::Info);
                        Action::Canonicalize(relative_path(path.as_str()))
                    },
                    Event::File(file) => {
                        if !in_flight.begin(file.fid) {
                            assert(in_flight@ =~= old(in_flight)@);
                            return Action::End(Err(RequestError::DuplicateFid));
                        }
                        let path: String = relative_path(file.path.as_str());
                        self.state = State::Resolving(Job::File(file));
                        Action::Canonicalize(path)
                    },
                    _ => Action::End(Ok(())),
                }
            },
            (State::Resolving(job), Report::Canonical(path)) => {
                match secure_resolve_path(&self.root, &path) {
                    Ok(()) => {
                        self.state = State::Sizing(job);
                        Action::Stat
                    },
                    Err(error) => Self::end_job(job, Err(error), in_flight),
                }
            },
            (State::Sizing(job), Report::Stat(stat)) => {
                match stat {
                    None => Self::end_job(job, Err(RequestError::NoMetadata), in_flight),
                    Some(stat) => match job {
                        Job::Info => {
                            if !stat.is_file {
                                return Action::End(Err(RequestError::NotAFile));
                            }
                            self.state = State::SendingInfo;
                            Action::Send(Event::AckMetadata(Metadata { size: stat.len }))
                        },
                        Job::File(file) => {
                            if stat.len == 0 {
                                return Self::end_transfer(file.fid, Ok(()), in_flight);
                            }
                            self.state = State::Opening(Transfer::new(&file, stat.len));
                            Action::Open
                        },
                    },
                }
            },
            (State::SendingInfo, Report::Sent(sent)) => {
                if sent {
                    Action::End(Ok(()))
                } else {
                    Action::End(Err(RequestError::SendFailed))
                }
            },
            (State::Opening(transfer), Report::Opened(opened)) => {
                if !opened {
                    return Self::end_transfer(
                        transfer.fid,
                        Err(RequestError::OpenFailed),
                        in_flight,
                    );
                }
                let (position, len): (u64, u64) = (transfer.position, transfer.remaining);
                self.state = State::Advising(transfer);
                Action::Advise { position, len }
            },
            (State::Advising(transfer), Report::Advised(advised)) => {
                if !advised {
                    return Self::end_transfer(
                        transfer.fid,
                        Err(RequestError::AdviseFailed),
                        in_flight,
                    );
                }
                self.go_on(transfer, in_flight)
            },
            (State::Reading(transfer), Report::Chunk(data)) => {
                match data {
                    None => Self::end_transfer(
                        transfer.fid,
                        Err(RequestError::ReadFailed),
                        in_flight,
                    ),
                    Some(data) => {
                        let len: u64 = transfer.next_len();
                        let part = FilePart {
                            data,
                            start: transfer.position,
                            fid: transfer.fid,
                        };
                        self.state = State::SendingPart(
                            Transfer {
                                fid: transfer.fid,
                                position: transfer.position + len,
                                remaining: transfer.remaining - len,
                            },
                        );
                        Action::Send(Event::AckFile(part))
                    },
                }
            },
            (State::SendingPart(transfer), Report::Sent(sent)) => {
                if !sent {
                    self.state = State::SendingPart(transfer);
                    return Action::Resend;
                }
                self.go_on(transfer, in_flight)
            },
            (state, _) => {
                self.state = state;
                Action::Resend
            },
        }
    }

    /// Gives up on a request that has not ended: its identifier is free again.
    pub fn release(&mut self, in_flight: &mut InFlight)
        ensures
            final(self)@ == (RequestView { root: old(self)@.root, state: State::Ended }),
            final(in_flight)@ == released(old(in_flight)@, old(self)@.state),
    {
        let mut state = State::Ended;
        std::mem::swap(&mut state, &mut self.state);
        match state {
            State::Resolving(Job::File(file)) | State::Sizing(Job::File(file)) => {
                in_flight.finish(file.fid);
            },
            State::Opening(transfer)
            | State::Advising(transfer)
            | State::Reading(transfer)
            | State::SendingPart(transfer) => {
                in_flight.finish(transfer.fid);
            },
            _ => {},
        }
    }

    /// Asks for the next chunk, or ends the transfer if none is left.
    fn go_on(&mut self, transfer: Transfer, in_flight: &mut InFlight) -> (action: Action)
        requires
            old(self)@.state is Ended,
        ensures
            ({
                let verdict = next_chunk(transfer);
                &&& final(self)@ == (RequestView {
                    root: old(self)@.root,
                    state: state_after(verdict),
                })
                &&& match verdict {
                    Verdict::End(result) => action == Action::End(result) && final(in_flight)@
                        == old(in_flight)@.remove(transfer.fid),
                    Verdict::Go(_) => action == (Action::Read {
                        position: transfer.position,
                        len: chunk_len(transfer),
                    }) && final(in_flight)@ == old(in_flight)@,
                }
            }),
    {
        if transfer.remaining == 0 {
            return Self::end_transfer(transfer.fid, Ok(()), in_flight);
        }
        let (position, len): (u64, u64) = (transfer.position, transfer.next_len());
        self.state = State::Reading(transfer);
        Action::Read { position, len }
    }

    /// Ends a request whose path was being looked up.
    fn end_job(job: Job, result: Result<(), RequestError>, in_flight: &mut InFlight) -> (action:
        Action)
        ensures
            action == Action::End(result),
            final(in_flight)@ == match job {
                Job::Info => old(in_flight)@,
                Job::File(file) => old(in_flight)@.remove(file.fid),
            },
    {
        match job {
            Job::Info => {},
            Job::File(file) => in_flight.finish(file.fid),
        }
        Action::End(result)
    }

    /// Ends a request for bytes of a file.
    fn end_transfer(
        fid: u64,
        result: Result<(), RequestError>,
        in_flight: &mut InFlight,
    ) -> (action: Action)
        ensures
            action == Action::End(result),
            final(in_flight)@ == old(in_flight)@.remove(fid),
    {
        in_flight.finish(fid);
        Action::End(result)
    }
}

impl Transfer {
    /// The bytes that `request` is to be sent of a file of `len` bytes.
    pub fn new(request: &FileRequest, len: u64) -> (result: Transfer)
        ensures
            result == transfer_of(*request, len),
            result.fid == request.fid,
            result.position == request.start,
            request.end <= request.start ==> result.remaining == 0,
            request.start <= request.end <= request.start + len ==> result.remaining == request.end
                - request.start,
            request.start + len <= request.end ==> result.remaining == len,
    {
        let asked: u64 = request.end.saturating_sub(request.start);
        Transfer {
            fid: request.fid,
            position: request.start,
            remaining: if asked <= len {
                asked
            } else {
                len
            },
        }
    }

    /// How many bytes the next part holds.
    pub fn next_len(&self) -> (result: u64)
        ensures
            result == chunk_len(*self),
            self.remaining <= 1024 ==> result == self.remaining,
            self.remaining >= 1024 ==> result == 1024,
    {
        if CHUNK_SIZE <= self.remaining {
            CHUNK_SIZE
        } else {
            self.remaining
        }
    }
}

/// The requests that an event stands for, and what closes them.
#[derive(PartialEq, Debug)]
pub struct Work {
    /// To be handled one after the other.
    pub requests: Vec<Event>,
    /// To be sent once all of them were served.
    pub closing: Option<Event>,
}

/// Whether `event` asks for the range number `i` of `batch`.
pub open spec fn is_range_request(event: Event, batch: RangesRequest, i: int) -> bool {
    event matches Event::File(file) && {
        &&& file.path@ == batch.path@
        &&& file.start == batch.ranges@[i].0
        &&& file.end == batch.ranges@[i].1
        &&& file.fid == batch.file_id
    }
}

/// A request for several ranges stands for one request per range, in the same
/// order, and is closed by an announcement of the end; any other event stands for
/// itself.
pub fn unpack(event: Event) -> (result: Work)
    ensures
        match event {
            Event::Ranges(batch) => {
                &&& result.requests@.len() == batch.ranges@.len()
                &&& forall|i: int|
                    0 <= i < batch.ranges@.len() ==> is_range_request(
                        #[trigger] result.requests@[i],
                        batch,
                        i,
                    )
                &&& forall|i: int|
                    0 <= i < batch.ranges@.len() ==> (
                    #[trigger] result.requests@[i] matches Event::File(file) && file.path@
                        == batch.path@ && file.start == batch.ranges@[i].0 && file.end
                        == batch.ranges@[i].1 && file.fid == batch.file_id)
                &&& result.closing == Some(Event::FileEnd(batch.file_id))
            },
            _ => result.requests@ == seq![event] && result.closing is None,
        },
{
    let batch: RangesRequest = match event {
        Event::Ranges(batch) => batch,
        event => {
            let mut requests: Vec<Event> = Vec::new();
            requests.push(event);
            return Work { requests, closing: None };
        },
    };
    let mut requests: Vec<Event> = Vec::new();
    let mut i: usize = 0;
    while i < batch.ranges.len()
        invariant
            i <= batch.ranges@.len(),
            requests@.len() == i,
            forall|k: int| 0 <= k < i ==> is_range_request(#[trigger] requests@[k], batch, k),
        decreases batch.ranges.len() - i,
    {
        let (start, end): (u64, u64) = batch.ranges[i];
        requests.push(
            Event::File(FileRequest { path: batch.path.clone(), start, end, fid: batch.file_id }),
        );
        i = i + 1;
    }
    Work { requests, closing: Some(Event::FileEnd(batch.file_id)) }
}

/// What to do next for an event.
#[derive(PartialEq, Debug)]
pub enum Task {
    /// Handle this request.
    Handle(Event),
    /// Send this event.
    Announce(Event),
    /// Nothing is left to do.
    Done,
}

impl Work {
    /// What to do next, given whether all that was handled so far was served: the
    /// requests in turn, then the closing event. A request that was not served ends
    /// the work, and the end is not announced.
    pub fn next(&mut self, served: bool) -> (task: Task)
        ensures
            !served ==> {
                &&& task is Done
                &&& final(self).requests@.len() == 0
                &&& final(self).closing is None
            },
            served && old(self).requests@.len() > 0 ==> {
                &&& task == Task::Handle(old(self).requests@[0])
                &&& final(self).requests@ == old(self).requests@.drop_first()
                &&& final(self).closing == old(self).closing
            },
            served && old(self).requests@.len() == 0 ==> {
                &&& task == match old(self).closing {
                    Some(event) => Task::Announce(event),
                    None => Task::Done,
                }
                &&& final(self).requests@.len() == 0
                &&& final(self).closing is None
            },
    {
        if !served {
            self.requests = Vec::new();
            self.closing = None;
            return Task::Done;
        }
        if self.requests.len() > 0 {
            let request = self.requests.remove(0);
            assert(self.requests@ =~= old(self).requests@.drop_first());
            return Task::Handle(request);
        }
        match self.closing.take() {
            Some(event) => Task::Announce(event),
            None => Task::Done,
        }
    }
}

/// A step of one request concerns no identifier but its own: it is taken on only
/// if no request is being served under that identifier, is counted until it ends,
/// and leaves nothing behind then.
pub proof fn law_step_concerns_its_own_id(request: RequestView, report: Report, ids: Set<u64>)
    requires
        answers(request.state, report),
    ensures
        ({
            let after = state_after(decide(request, report, ids));
            let ids_now = ids_after(ids, request.state, after);
            &&& forall|id: u64|
                held(request.state) != Some(id) && held(after) != Some(id) ==> (
                #[trigger] ids_now.contains(id) <==> ids.contains(id))
            &&& held(request.state) is None && held(after) is Some ==> !ids.contains(
                held(after)->0,
            ) && ids_now == ids.insert(held(after)->0)
            &&& held(request.state) is Some && held(after) is Some ==> held(after) == held(
                request.state,
            ) && ids_now == ids
            &&& held(request.state) is Some && after is Ended ==> ids_now == ids.remove(
                held(request.state)->0,
            )
            &&& after is Ended ==> held(after) is None
        }),
{
}

/// Where a request stands after the reports of `steps`, each with the identifiers
/// that were being served when it came.
pub open spec fn ran(request: RequestView, steps: Seq<(Report, Set<u64>)>) -> RequestView
    decreases steps.len(),
{
    if steps.len() == 0 {
        request
    } else {
        let before = ran(request, steps.drop_last());
        RequestView {
            root: before.root,
            state: state_after(decide(before, steps.last().0, steps.last().1)),
        }
    }
}

/// Whether a request goes on to look at, open or read the path it resolved.
pub open spec fn touches_file(state: State) -> bool {
    match state {
        State::Received(_) | State::Resolving(_) | State::Ended => false,
        _ => true,
    }
}

/// No file is looked at, opened or read for a request unless the path that it
/// was resolved to lies inside the directory that is served.
pub proof fn law_only_paths_inside_root_are_touched(
    root: Seq<Seq<u8>>,
    event: Event,
    steps: Seq<(Report, Set<u64>)>,
)
    ensures
        ({
            let begin = RequestView { root, state: State::Received(event) };
            touches_file(ran(begin, steps).state) ==> exists|i: int|
                0 <= i < steps.len() && ((#[trigger] steps[i]).0 matches Report::Canonical(
                    Some(path),
                ) && inside(root, names(path)))
        }),
    decreases steps.len(),
{
    let begin = RequestView { root, state: State::Received(event) };
    lemma_root_stays(begin, steps);
    if steps.len() > 0 {
        let earlier = steps.drop_last();
        law_only_paths_inside_root_are_touched(root, event, earlier);
        lemma_root_stays(begin, earlier);
        if touches_file(ran(begin, steps).state) {
            if touches_file(ran(begin, earlier).state) {
                let i = choose|i: int|
                    0 <= i < earlier.len() && ((#[trigger] earlier[i]).0 matches Report::Canonical(
                        Some(path),
                    ) && inside(root, names(path)));
                assert(steps[i] == earlier[i]);
            } else {
                assert(steps[steps.len() - 1] == steps.last());
            }
        }
    }
}

/// The directory that is served stays the same.
proof fn lemma_root_stays(request: RequestView, steps: Seq<(Report, Set<u64>)>)
    ensures
        ran(request, steps).root == request.root,
    decreases steps.len(),
{
    if steps.len() > 0 {
        lemma_root_stays(request, steps.drop_last());
    }
}

/// The byte ranges of the parts that a transfer sends.
pub open spec fn chunks(transfer: Transfer) -> Seq<ProgressEntry>
    decreases transfer.remaining,
{
    if transfer.remaining == 0 {
        Seq::empty()
    } else {
        seq![
            ProgressEntry {
                start: transfer.position,
                end: (transfer.position + chunk_len(transfer)) as u64,
            },
        ] + chunks(past_chunk(transfer))
    }
}

/// A transfer sends its bytes in order, without a hole and without sending one
/// twice, in parts that are not empty and not longer than a part may be.
pub proof fn law_chunks_tile_the_range(transfer: Transfer)
    requires
        transfer.position + transfer.remaining <= u64::MAX,
    ensures
        ({
            let parts = chunks(transfer);
            &&& parts.len() == 0 <==> transfer.remaining == 0
            &&& forall|k: int|
                0 <= k < parts.len() ==> 0 < (#[trigger] parts[k]).end - parts[k].start
                    <= CHUNK_SIZE
            &&& parts.len() > 0 ==> parts[0].start == transfer.position && parts.last().end
                == transfer.position + transfer.remaining
            &&& forall|k: int, m: int|
                0 <= k && m == k + 1 && m < parts.len() ==> (#[trigger] parts[k]).end == (
                #[trigger] parts[m]).start
        }),
    decreases transfer.remaining,
{
    if transfer.remaining > 0 {
        let rest = past_chunk(transfer);
        law_chunks_tile_the_range(rest);
        let parts = chunks(transfer);
        let later = chunks(rest);
        assert(parts.drop_first() =~= later);
        assert forall|k: int| 1 <= k < parts.len() implies #[trigger] parts[k] == later[k - 1] by {}
        if later.len() > 0 {
            assert(parts.last() == later.last());
        }
    }
}

/// Whether each of `steps` tells of what was to be done when it came.
pub open spec fn all_answer(request: RequestView, steps: Seq<(Report, Set<u64>)>) -> bool
    decreases steps.len(),
{
    steps.len() == 0 || {
        &&& all_answer(request, steps.drop_last())
        &&& answers(ran(request, steps.drop_last()).state, steps.last().0)
    }
}

/// The byte ranges of the parts that a request was told to send, in order.
pub open spec fn sent_ranges(request: RequestView, steps: Seq<(Report, Set<u64>)>) -> Seq<
    ProgressEntry,
>
    decreases steps.len(),
{
    if steps.len() == 0 {
        Seq::empty()
    } else {
        let earlier = sent_ranges(request, steps.drop_last());
        match (ran(request, steps.drop_last()).state, steps.last().0) {
            (State::Reading(transfer), Report::Chunk(Some(data))) => earlier.push(
                ProgressEntry {
                    start: transfer.position,
                    end: (transfer.position + data@.len()) as u64,
                },
            ),
            _ => earlier,
        }
    }
}

/// What a transfer sent and what it has yet to send make up its chunks.
proof fn lemma_sent_and_left(
    root: Seq<Seq<u8>>,
    transfer: Transfer,
    steps: Seq<(Report, Set<u64>)>,
)
    requires
        all_answer((RequestView { root, state: State::Opening(transfer) }), steps),
    ensures
        ({
            let begin = RequestView { root, state: State::Opening(transfer) };
            let sent = sent_ranges(begin, steps);
            &&& match ran(begin, steps).state {
                State::Opening(left) => chunks(transfer) == sent + chunks(left),
                State::Advising(left) => chunks(transfer) == sent + chunks(left),
                State::Reading(left) => left.remaining > 0 && chunks(transfer) == sent + chunks(
                    left,
                ),
                State::SendingPart(left) => chunks(transfer) == sent + chunks(left),
                State::Ended => true,
                _ => false,
            }
            &&& sent.is_prefix_of(chunks(transfer))
        }),
    decreases steps.len(),
{
    let begin = RequestView { root, state: State::Opening(transfer) };
    if steps.len() == 0 {
        assert(Seq::<ProgressEntry>::empty() + chunks(transfer) =~= chunks(transfer));
    } else {
        let earlier = steps.drop_last();
        lemma_sent_and_left(root, transfer, earlier);
        let sent = sent_ranges(begin, steps);
        match (ran(begin, earlier).state, steps.last().0) {
            (State::Reading(left), Report::Chunk(Some(data))) => {
                let first = chunks(left)[0];
                assert(chunks(left) =~= seq![first] + chunks(past_chunk(left)));
                assert(chunks(transfer) =~= sent + chunks(past_chunk(left)));
            },
            _ => {},
        }
    }
}

/// A transfer that ends well was told to send each of its chunks once and in
/// order; until then, or if it fails, it was told to send the first of them. What
/// has to be sent again is not counted again.
pub proof fn law_transfer_sends_its_chunks(
    root: Seq<Seq<u8>>,
    transfer: Transfer,
    steps: Seq<(Report, Set<u64>)>,
)
    requires
        all_answer((RequestView { root, state: State::Opening(transfer) }), steps),
    ensures
        ({
            let begin = RequestView { root, state: State::Opening(transfer) };
            &&& sent_ranges(begin, steps).is_prefix_of(chunks(transfer))
            &&& steps.len() > 0 && decide(
                ran(begin, steps.drop_last()),
                steps.last().0,
                steps.last().1,
            ) == Verdict::End(Ok(())) ==> sent_ranges(begin, steps) == chunks(transfer)
        }),
{
    let begin = RequestView { root, state: State::Opening(transfer) };
    lemma_sent_and_left(root, transfer, steps);
    if steps.len() > 0 {
        let earlier = steps.drop_last();
        lemma_sent_and_left(root, transfer, earlier);
        let sent = sent_ranges(begin, earlier);
        match (ran(begin, earlier).state, steps.last().0) {
            (State::Advising(left), Report::Advised(true)) => {
                if left.remaining == 0 {
                    assert(chunks(transfer) =~= sent);
                }
            },
            (State::SendingPart(left), Report::Sent(true)) => {
                if left.remaining == 0 {
                    assert(chunks(transfer) =~= sent);
                }
            },
            _ => {},
        }
    }
}

/// A request for a range that lies in the file is sent exactly that range.
pub proof fn law_range_in_file_is_sent_whole(request: FileRequest, len: u64)
    requires
        request.start <= request.end <= len,
    ensures
        transfer_of(request, len).position == request.start,
        transfer_of(request, len).position + transfer_of(request, len).remaining == request.end,
{
}

} // verus!
