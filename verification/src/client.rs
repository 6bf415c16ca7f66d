//! The decisions of the downloading side.
use crate::progress::invert::{
    first_gap, gaps, invert, law_gap_bytes, law_gaps_of_ordered_list,
    law_gaps_run_from_entry_to_entry, law_no_gap_means_complete,
    lemma_all_measurable,
};
use crate::progress::merge::{
    law_merge_covers_both, law_merge_joins_what_touches, merged, reached, reaches, Merge,
};
use crate::progress::{
    covered, covered_bytes, law_total_counts_covered_bytes, law_total_grows_with_coverage, length,
    lengths, ordered, within, ProgressEntry, Total,
};
use crate::{Event, FilePart, Metadata, RangesRequest};
use rand::RngCore;
use vstd::prelude::*;

verus! {

/// How long connecting may take, in seconds.
pub const CONNECT_TIMEOUT_SECS: u64 = 30;

/// How long a connection lives without traffic, in seconds.
pub const CONNECTION_TTL_SECS: u64 = 10;

/// How long to wait for the metadata, in seconds.
pub const METADATA_TIMEOUT_SECS: u64 = 10;

/// How long to wait for the first part after a request, in seconds.
pub const FIRST_PART_TIMEOUT_SECS: u64 = 5;

/// How long to wait for each further part, in seconds.
pub const NEXT_PART_TIMEOUT_SECS: u64 = 1;

/// The pause before something is tried again, in milliseconds.
pub const RETRY_PAUSE_MILLIS: u64 = 100;

/// Arrived ranges shorter than this are asked for again with the gap around
/// them.
pub const REQUEST_WINDOW: u64 = 1024 * 1024;

/// The most ranges that one request asks for.
pub const MAX_REQUEST_RANGES: usize = 64;

/// What waiting for a message gave.
#[derive(PartialEq, Debug)]
pub enum Reply {
    /// The time was up.
    TimedOut,
    /// The channel failed.
    Failed,
    /// The channel had something for itself, but no message.
    Nothing,
    /// The bytes that came are no message.
    Undecodable,
    Message(Event),
}

/// What sending a request and then waiting, or waiting alone, gave.
#[derive(PartialEq, Debug)]
pub enum Outcome {
    /// Nothing was sent.
    SendFailed,
    Received(Reply),
}

/// Why no message of a download came.
#[derive(PartialEq, Debug)]
pub enum ReceiveError {
    TimedOut,
    Failed,
    /// What came is no message, or none of this download.
    InvalidFormat,
}

/// Whether `event` is a part, or the end, of the download `file_id`.
pub open spec fn belongs(event: Event, file_id: u64) -> bool {
    match event {
        Event::AckFile(part) => part.fid == file_id,
        Event::FileEnd(id) => id == file_id,
        _ => false,
    }
}

/// The metadata, if that is what came back.
pub fn metadata_reply(outcome: Outcome) -> (result: Option<Metadata>)
    ensures
        forall|metadata: Metadata|
            result == Some(metadata) <==> outcome == Outcome::Received(
                Reply::Message(Event::AckMetadata(metadata)),
            ),
{
    match outcome {
        Outcome::Received(Reply::Message(Event::AckMetadata(metadata))) => Some(metadata),
        _ => None,
    }
}

/// The part, or the end, of the download `file_id` that came.
pub fn get_file(reply: Reply, file_id: u64) -> (result: Result<Option<Event>, ReceiveError>)
    ensures
        forall|event: Event|
            result == Ok::<_, ReceiveError>(Some(event)) <==> reply == Reply::Message(event)
                && belongs(event, file_id),
        result == Ok::<Option<Event>, ReceiveError>(None) <==> reply is Nothing,
        result == Err::<Option<Event>, _>(ReceiveError::TimedOut) <==> reply is TimedOut,
        result == Err::<Option<Event>, _>(ReceiveError::Failed) <==> reply is Failed,
        result == Err::<Option<Event>, _>(ReceiveError::InvalidFormat) <==> reply is Undecodable
            || (reply matches Reply::Message(event) && !belongs(event, file_id)),
        match reply {
            Reply::Message(Event::AckFile(part)) => result == if part.fid == file_id {
                Ok::<_, ReceiveError>(Some(Event::AckFile(part)))
            } else {
                Err(ReceiveError::InvalidFormat)
            },
            Reply::Message(Event::FileEnd(id)) => result == if id == file_id {
                Ok::<_, ReceiveError>(Some(Event::FileEnd(id)))
            } else {
                Err(ReceiveError::InvalidFormat)
            },
            Reply::Message(_) => result == Err::<Option<Event>, _>(ReceiveError::InvalidFormat),
            _ => true,
        },
{
    match reply {
        Reply::TimedOut => Err(ReceiveError::TimedOut),
        Reply::Failed => Err(ReceiveError::Failed),
        Reply::Nothing => Ok(None),
        Reply::Undecodable => Err(ReceiveError::InvalidFormat),
        Reply::Message(event) => {
            let mine: bool = match &event {
                Event::AckFile(part) => part.fid == file_id,
                Event::FileEnd(id) => *id == file_id,
                _ => false,
            };
            if mine {
                Ok(Some(event))
            } else {
                Err(ReceiveError::InvalidFormat)
            }
        },
    }
}

/// `OsRng::try_fill_bytes` asks the operating system for eight random bytes, here
/// taken as a number; nothing is claimed of which one. `None` where it reports
/// that the system has no random bytes to give.
#[verifier::external_body]
fn random_id() -> Option<u64> {
    let mut bytes = [0u8; 8];
    match rand::rngs::OsRng.try_fill_bytes(&mut bytes) {
        Ok(()) => Some(u64::from_le_bytes(bytes)),
        Err(_) => None,
    }
}

/// Where a download stands.
#[derive(PartialEq, Debug)]
pub enum Phase {
    /// A request is being sent, until the first part answers it.
    Requesting,
    /// Parts are being taken in, until they end or stop coming.
    Draining,
    /// Everything has arrived.
    Finished,
}

/// What to do next, as far as it depends on what happened.
pub enum Turn {
    Request,
    Resend,
    Receive,
    Finish,
}

/// What to do next.
#[derive(PartialEq, Debug)]
pub enum Action {
    /// Send this event and wait for the first part.
    Request(Event),
    /// Pause, then send the last event again and wait for the first part.
    Resend,
    /// Wait for a further part.
    Receive,
    /// The download is over.
    Finish,
}

/// What one outcome led to.
#[derive(PartialEq, Debug)]
pub struct Step {
    pub action: Action,
    /// The part that arrived, to be written.
    pub part: Option<FilePart>,
    /// How many bytes arrived that were missing.
    pub gained: u64,
}

/// What a download knows.
pub struct DownloadState {
    pub path: Seq<char>,
    pub size: u64,
    pub file_id: u64,
    pub progress: Seq<ProgressEntry>,
    pub phase: Phase,
}

/// The message of the download `file_id` that came, if one did.
pub open spec fn message(outcome: Outcome, file_id: u64) -> Option<Event> {
    match outcome {
        Outcome::Received(Reply::Message(event)) => if belongs(event, file_id) {
            Some(event)
        } else {
            None
        },
        _ => None,
    }
}

/// The part that a download takes in; one that is over takes in none.
pub open spec fn taken_part(state: DownloadState, outcome: Outcome) -> Option<FilePart> {
    match message(outcome, state.file_id) {
        Some(Event::AckFile(part)) => if state.phase is Finished {
            None
        } else {
            Some(part)
        },
        _ => None,
    }
}

/// Whether the last byte of a part that is taken in has a position.
pub open spec fn part_fits(state: DownloadState, outcome: Outcome) -> bool {
    taken_part(state, outcome) matches Some(part) ==> part.start + part.data@.len() <= u64::MAX
}

/// The bytes that a part holds.
pub open spec fn part_range(part: FilePart) -> ProgressEntry {
    ProgressEntry { start: part.start, end: (part.start + part.data@.len()) as u64 }
}

/// What has arrived once the outcome is taken in.
pub open spec fn progress_after(state: DownloadState, outcome: Outcome) -> Seq<ProgressEntry> {
    match taken_part(state, outcome) {
        Some(part) => merged(state.progress, part_range(part)),
        None => state.progress,
    }
}

/// The ranges that are asked for: the first gaps.
pub open spec fn wanted(state: DownloadState) -> Seq<ProgressEntry> {
    let all = gaps(state.progress, 0, state.size, REQUEST_WINDOW);
    all.take(
        if all.len() <= MAX_REQUEST_RANGES {
            all.len() as int
        } else {
            MAX_REQUEST_RANGES as int
        },
    )
}

/// A round of a download begins with a request, unless there is no gap left.
pub open spec fn round(state: DownloadState) -> Turn {
    if wanted(state).len() == 0 {
        Turn::Finish
    } else {
        Turn::Request
    }
}

/// What to do after `outcome`. A request is sent again until a part answers it,
/// or until the end is announced when nothing is missing. Then parts are taken in
/// until none comes in time or the end is announced, and a new round begins.
pub open spec fn turn(state: DownloadState, outcome: Outcome) -> Turn {
    match state.phase {
        Phase::Requesting => match message(outcome, state.file_id) {
            Some(Event::AckFile(_)) => Turn::Receive,
            Some(_) => if first_gap(state.progress, 0, state.size, 0) is None {
                Turn::Finish
            } else {
                Turn::Resend
            },
            None => Turn::Resend,
        },
        Phase::Draining => match message(outcome, state.file_id) {
            Some(Event::AckFile(_)) => Turn::Receive,
            Some(_) => round(state),
            None => if outcome == Outcome::Received(Reply::TimedOut) {
                round(state)
            } else {
                Turn::Receive
            },
        },
        Phase::Finished => Turn::Finish,
    }
}

/// The phase in which that is done.
pub open spec fn phase_of(turn: Turn) -> Phase {
    match turn {
        Turn::Request | Turn::Resend => Phase::Requesting,
        Turn::Receive => Phase::Draining,
        Turn::Finish => Phase::Finished,
    }
}

/// The download after `outcome`.
pub open spec fn advanced(state: DownloadState, outcome: Outcome) -> DownloadState {
    DownloadState {
        progress: progress_after(state, outcome),
        phase: phase_of(turn(state, outcome)),
        ..state
    }
}

/// The download of a file of which nothing has arrived.
pub open spec fn begun(path: Seq<char>, size: u64, file_id: u64) -> DownloadState {
    let idle = DownloadState {
        path,
        size,
        file_id,
        progress: Seq::empty(),
        phase: Phase::Finished,
    };
    DownloadState { phase: phase_of(round(idle)), ..idle }
}

/// A download of a file without bytes is over at once.
pub open spec fn first_turn(size: u64) -> Turn {
    if size == 0 {
        Turn::Finish
    } else {
        Turn::Request
    }
}

/// Whether `event` asks for what is wanted, under the identifier `action_id`.
pub open spec fn asks(event: Event, state: DownloadState, action_id: u64) -> bool {
    event matches Event::Ranges(request) && {
        &&& request.path@ == state.path
        &&& request.file_id == state.file_id
        &&& request.action_id == action_id
        &&& request.ranges@ == wanted(state).map_values(|gap: ProgressEntry| (gap.start, gap.end))
    }
}

/// Whether `action` does what `turn` says.
pub open spec fn carries_out(
    action: Action,
    turn: Turn,
    state: DownloadState,
    action_id: u64,
) -> bool {
    match turn {
        Turn::Request => action matches Action::Request(event) && asks(event, state, action_id),
        Turn::Resend => action is Resend,
        Turn::Receive => action is Receive,
        Turn::Finish => action is Finish,
    }
}

/// A download of one file.
pub struct Download {
    path: String,
    size: u64,
    file_id: u64,
    progress: Vec<ProgressEntry>,
    phase: Phase,
}

impl View for Download {
    type V = DownloadState;

    closed spec fn view(&self) -> DownloadState {
        DownloadState {
            path: self.path@,
            size: self.size,
            file_id: self.file_id,
            progress: self.progress@,
            phase: self.phase,
        }
    }
}

impl Download {
    /// What has arrived is an ordered list.
    #[verifier::type_invariant]
    spec fn well_formed(&self) -> bool {
        ordered(self.progress@)
    }

    /// Begins the download of the `size` bytes of the file at `path`, under random
    /// identifiers. `None` if the system has no random numbers to give; a file
    /// without bytes is complete at once and needs none.
    pub fn begin(path: String, size: u64) -> (result: Option<(Download, Action)>)
        ensures
            size == 0 ==> result is Some,
            result matches Some(begin) ==> {
                &&& exists|file_id: u64| begin.0@ == #[trigger] begun(path@, size, file_id)
                &&& ordered(begin.0@.progress)
                &&& exists|action_id: u64| #[trigger]
                    carries_out(begin.1, first_turn(size), begin.0@, action_id)
                &&& begin.0@.path == path@
                &&& begin.0@.size == size
                &&& begin.0@.progress.len() == 0
                &&& size == 0 ==> begin.1 is Finish && begin.0@.phase is Finished
                &&& size > 0 ==> begin.0@.phase is Requesting && (begin.1 matches Action::Request(
                    Event::Ranges(request),
                ) && {
                    &&& request.path@ == path@
                    &&& request.file_id == begin.0@.file_id
                    &&& request.ranges@.len() == 1
                    &&& request.ranges@[0] == (0u64, size)
                })
            },
    {
        if size == 0 {
            return Some(Download::begin_with(path, size, 0, 0));
        }
        match (random_id(), random_id()) {
            (Some(file_id), Some(action_id)) => Some(
                Download::begin_with(path, size, file_id, action_id),
            ),
            _ => None,
        }
    }

    /// Begins the download of the `size` bytes of the file at `path`, under the
    /// given identifiers. A file without bytes is complete at once.
    pub fn begin_with(path: String, size: u64, file_id: u64, action_id: u64) -> (result: (
        Download,
        Action,
    ))
        ensures
            result.0@ == begun(path@, size, file_id),
            ordered(result.0@.progress),
            carries_out(
                result.1,
                first_turn(size),
                result.0@,
                action_id,
            ),
            result.0@.path == path@,
            result.0@.size == size,
            result.0@.file_id == file_id,
            result.0@.progress.len() == 0,
            size == 0 ==> result.1 is Finish && result.0@.phase is Finished,
            size > 0 ==> result.0@.phase is Requesting && (result.1 matches Action::Request(
                Event::Ranges(request),
            ) && {
                &&& request.path@ == path@
                &&& request.file_id == file_id
                &&& request.action_id == action_id
                &&& request.ranges@.len() == 1
                &&& request.ranges@[0] == (0u64, size)
            }),
    {
        let mut download = Download {
            path,
            size,
            file_id,
            progress: Vec::new(),
            phase: Phase::Finished,
        };
        let ghost idle = download@;
        let action = download.next_round(action_id);
        proof {
            assert(idle.progress =~= Seq::empty());
            assert(gaps(idle.progress, 0, size, REQUEST_WINDOW).len() == if size == 0 {
                0int
            } else {
                1int
            });
        }
        (download, action)
    }

    /// Whether the last byte of a part that would be taken in has a position. A
    /// download may only be told of outcomes of which this holds.
    pub fn fits(&self, outcome: &Outcome) -> (result: bool)
        ensures
            result == part_fits(self@, *outcome),
            !result <==> !(self@.phase is Finished) && (*outcome matches Outcome::Received(
                Reply::Message(Event::AckFile(part)),
            ) && part.fid == self@.file_id && part.start + part.data@.len() > u64::MAX),
    {
        match (&self.phase, outcome) {
            (Phase::Finished, _) => true,
            (_, Outcome::Received(Reply::Message(Event::AckFile(part)))) => part.fid
                != self.file_id || part.start <= u64::MAX - part.data.len() as u64,
            _ => true,
        }
    }

    /// Takes in what came of the last action, and says what to do next, under a
    /// random identifier where that is a request. `None`, with nothing taken in, if
    /// a request is to be made and the system has no random number to give.
    pub fn advance(&mut self, outcome: Outcome) -> (result: Option<Step>)
        requires
            part_fits(old(self)@, outcome),
        ensures
            !(turn(old(self)@, outcome) is Request) ==> result is Some,
            result is None ==> final(self)@ == old(self)@,
            ordered(final(self)@.progress),
            result matches Some(step) ==> {
                &&& final(self)@ == advanced(old(self)@, outcome)
                &&& step.part == taken_part(old(self)@, outcome)
                &&& step.gained == lengths(final(self)@.progress) - lengths(old(self)@.progress)
                &&& exists|action_id: u64| #[trigger]
                    carries_out(
                        step.action,
                        turn(old(self)@, outcome),
                        final(self)@,
                        action_id,
                    )
            },
    {
        proof {
            use_type_invariant(&*self);
        }
        let action_id: u64 = if self.will_request(&outcome) {
            match random_id() {
                Some(id) => id,
                None => return None,
            }
        } else {
            0
        };
        Some(self.advance_with(outcome, action_id))
    }

    /// Whether a request is to be made after `outcome`.
    fn will_request(&self, outcome: &Outcome) -> (result: bool)
        ensures
            result == (turn(self@, *outcome) is Request),
    {
        let round_over: bool = match (&self.phase, outcome) {
            (Phase::Draining, Outcome::Received(Reply::TimedOut)) => true,
            (Phase::Draining, Outcome::Received(Reply::Message(Event::FileEnd(id)))) => *id
                == self.file_id,
            _ => false,
        };
        proof {
            use_type_invariant(self);
            law_no_gap_means_complete(self.progress@, self.size, REQUEST_WINDOW);
        }
        round_over && invert(
            self.progress.as_slice(),
            self.size,
            REQUEST_WINDOW,
        ).next().is_some()
    }

    /// Takes in what came of the last action, and says what to do next, under the
    /// given identifier where that is a request.
    pub fn advance_with(&mut self, outcome: Outcome, action_id: u64) -> (step: Step)
        requires
            part_fits(old(self)@, outcome),
        ensures
            final(self)@ == advanced(old(self)@, outcome),
            ordered(final(self)@.progress),
            step.part == taken_part(old(self)@, outcome),
            step.gained == lengths(final(self)@.progress) - lengths(old(self)@.progress),
            carries_out(step.action, turn(old(self)@, outcome), final(self)@, action_id),
    {
        proof {
            use_type_invariant(&*self);
        }
        let idle = Step { action: Action::Receive, part: None, gained: 0 };
        match self.phase {
            Phase::Requesting => {
                let received = match outcome {
                    Outcome::SendFailed => Err(ReceiveError::Failed),
                    Outcome::Received(reply) => get_file(reply, self.file_id),
                };
                match received {
                    Ok(Some(Event::AckFile(part))) => {
                        let gained: u64 = self.take_in(&part);
                        self.phase = Phase::Draining;
                        Step { action: Action::Receive, part: Some(part), gained }
                    },
                    Ok(Some(Event::FileEnd(_))) => {
                        if self.is_complete() {
                            self.phase = Phase::Finished;
                            Step { action: Action::Finish, ..idle }
                        } else {
                            Step { action: Action::Resend, ..idle }
                        }
                    },
                    _ => Step { action: Action::Resend, ..idle },
                }
            },
            Phase::Draining => {
                let received = match outcome {
                    Outcome::SendFailed => Err(ReceiveError::Failed),
                    Outcome::Received(reply) => get_file(reply, self.file_id),
                };
                match received {
                    Err(ReceiveError::TimedOut) | Ok(Some(Event::FileEnd(_))) => {
                        let action = self.next_round(action_id);
                        Step { action, ..idle }
                    },
                    Ok(Some(Event::AckFile(part))) => {
                        let gained: u64 = self.take_in(&part);
                        Step { action: Action::Receive, part: Some(part), gained }
                    },
                    _ => idle,
                }
            },
            Phase::Finished => Step { action: Action::Finish, ..idle },
        }
    }

    /// Whether no byte is missing.
    fn is_complete(&self) -> (result: bool)
        ensures
            result == (first_gap(self@.progress, 0, self@.size, 0) is None),
    {
        proof {
            use_type_invariant(self);
            law_no_gap_means_complete(self.progress@, self.size, 0);
        }
        invert(self.progress.as_slice(), self.size, 0).next().is_none()
    }

    /// The first gaps.
    fn download_ranges(&self) -> (result: Vec<(u64, u64)>)
        ensures
            result@ == wanted(self@).map_values(|gap: ProgressEntry| (gap.start, gap.end)),
    {
        proof {
            use_type_invariant(self);
            law_gaps_of_ordered_list(self.progress@, self.size, REQUEST_WINDOW);
            lemma_all_measurable(
                self.progress@,
                0,
                REQUEST_WINDOW,
                MAX_REQUEST_RANGES as nat,
            );
        }
        let found: Vec<ProgressEntry> = invert(
            self.progress.as_slice(),
            self.size,
            REQUEST_WINDOW,
        ).take(MAX_REQUEST_RANGES);
        let mut ranges: Vec<(u64, u64)> = Vec::new();
        let mut i: usize = 0;
        while i < found.len()
            invariant
                i <= found.len(),
                ranges@ == found@.take(i as int).map_values(
                    |gap: ProgressEntry| (gap.start, gap.end),
                ),
            decreases found.len() - i,
        {
            ranges.push((found[i].start, found[i].end));
            i = i + 1;
            assert(ranges@ =~= found@.take(i as int).map_values(
                |gap: ProgressEntry| (gap.start, gap.end),
            ));
        }
        assert(found@.take(i as int) =~= found@);
        ranges
    }

    /// Begins a round: asks for the first gaps, or ends the download if there is
    /// none.
    fn next_round(&mut self, action_id: u64) -> (action: Action)
        ensures
            final(self)@ == (DownloadState { phase: phase_of(round(old(self)@)), ..old(self)@ }),
            carries_out(action, round(old(self)@), final(self)@, action_id),
    {
        proof {
            use_type_invariant(&*self);
        }
        let ranges: Vec<(u64, u64)> = self.download_ranges();
        if ranges.is_empty() {
            self.phase = Phase::Finished;
            return Action::Finish;
        }
        self.phase = Phase::Requesting;
        Action::Request(
            Event::Ranges(
                RangesRequest {
                    path: self.path.clone(),
                    ranges,
                    file_id: self.file_id,
                    action_id,
                },
            ),
        )
    }

    /// Adds the bytes of `part` to those that have arrived, and counts the new ones.
    fn take_in(&mut self, part: &FilePart) -> (gained: u64)
        requires
            part.start + part.data@.len() <= u64::MAX,
        ensures
            final(self)@ == (DownloadState {
                progress: merged(old(self)@.progress, part_range(*part)),
                ..old(self)@
            }),
            ordered(final(self)@.progress),
            gained == lengths(final(self)@.progress) - lengths(old(self)@.progress),
    {
        proof {
            use_type_invariant(&*self);
        }
        let mut progress: Vec<ProgressEntry> = Vec::new();
        std::mem::swap(&mut progress, &mut self.progress);
        let ghost before = progress@;
        proof {
            law_total_counts_covered_bytes(before);
        }
        let old_total: u64 = progress.total();
        progress.merge_progress(
            ProgressEntry { start: part.start, end: part.start + part.data.len() as u64 },
        );
        proof {
            law_total_counts_covered_bytes(progress@);
            law_total_grows_with_coverage(before, progress@);
        }
        let new_total: u64 = progress.total();
        self.progress = progress;
        new_total - old_total
    }
}

/// An outcome adds the bytes of the part that it brought to those that have
/// arrived, and takes none away. What is gained is the number of those that were
/// missing.
pub proof fn law_outcome_adds_its_part(state: DownloadState, outcome: Outcome)
    requires
        ordered(state.progress),
        part_fits(state, outcome),
    ensures
        ({
            let after = advanced(state, outcome).progress;
            &&& ordered(after)
            &&& forall|b: int| #[trigger]
                covered(after, b) <==> covered(state.progress, b) || (taken_part(
                    state,
                    outcome,
                ) matches Some(part) && within(part_range(part), b))
            &&& (covered_bytes(after) - covered_bytes(state.progress)).len() == lengths(after)
                - lengths(state.progress)
        }),
{
    if let Some(part) = taken_part(state, outcome) {
        law_merge_covers_both(state.progress, part_range(part));
    }
    law_total_grows_with_coverage(state.progress, advanced(state, outcome).progress);
}

/// Whether every byte of the file has arrived.
pub open spec fn complete(state: DownloadState) -> bool {
    forall|b: int| 0 <= b < state.size ==> #[trigger] covered(state.progress, b)
}

/// What always holds of a download: its list is ordered, and it is over only
/// when every byte has arrived.
pub open spec fn sound(state: DownloadState) -> bool {
    &&& ordered(state.progress)
    &&& state.phase is Finished ==> complete(state)
}

/// A download is sound when it begins.
pub proof fn law_begin_is_sound(path: Seq<char>, size: u64, file_id: u64)
    ensures
        sound(begun(path, size, file_id)),
        begun(path, size, file_id).phase is Finished <==> size == 0,
{
    law_no_gap_means_complete(Seq::empty(), size, REQUEST_WINDOW);
    assert(gaps(Seq::empty(), 0, size, REQUEST_WINDOW).len() == if size == 0 {
        0int
    } else {
        1int
    });
}

/// A download stays sound: whatever comes, it never ends while a byte is
/// missing.
pub proof fn law_download_stays_sound(state: DownloadState, outcome: Outcome)
    requires
        sound(state),
        part_fits(state, outcome),
    ensures
        sound(advanced(state, outcome)),
{
    law_outcome_adds_its_part(state, outcome);
    law_no_gap_means_complete(state.progress, state.size, 0);
    law_no_gap_means_complete(state.progress, state.size, REQUEST_WINDOW);
}

/// A download of which everything, and nothing beyond the end of the file, has
/// arrived asks for no more: its next round ends it.
pub proof fn law_complete_download_ends(state: DownloadState)
    requires
        ordered(state.progress),
        complete(state),
        forall|i: int|
            0 <= i < state.progress.len() ==> (#[trigger] state.progress[i]).end <= state.size,
    ensures
        round(state) is Finish,
        first_gap(state.progress, 0, state.size, 0) is None,
{
    law_no_gap_means_complete(state.progress, state.size, 0);
    law_no_gap_means_complete(state.progress, state.size, REQUEST_WINDOW);
}

/// A request asks for at most so many ranges as one may, in ascending order, each
/// of which opens with a missing byte; if it could ask for all gaps, every missing
/// byte lies in what it asks for.
pub proof fn law_request_asks_for_missing_bytes(state: DownloadState)
    requires
        ordered(state.progress),
    ensures
        wanted(state).len() <= MAX_REQUEST_RANGES,
        forall|k: int|
            0 <= k < wanted(state).len() ==> {
                &&& (#[trigger] wanted(state)[k]).start < wanted(state)[k].end
                &&& !covered(state.progress, wanted(state)[k].start as int)
            },
        forall|k: int, m: int|
            0 <= k < m < wanted(state).len() ==> (#[trigger] wanted(state)[k]).end <= (
            #[trigger] wanted(state)[m]).start,
        gaps(state.progress, 0, state.size, REQUEST_WINDOW).len() <= MAX_REQUEST_RANGES
            ==> forall|b: int|
            0 <= b < state.size && !covered(state.progress, b) ==> #[trigger] covered(
                wanted(state),
                b,
            ),
{
    let all = gaps(state.progress, 0, state.size, REQUEST_WINDOW);
    law_gaps_of_ordered_list(state.progress, state.size, REQUEST_WINDOW);
    assert forall|k: int| 0 <= k < wanted(state).len() implies #[trigger] wanted(state)[k]
        == all[k] by {}
    assert(all.take(all.len() as int) =~= all);
}

/// The download after all of `outcomes`.
pub open spec fn ran(state: DownloadState, outcomes: Seq<Outcome>) -> DownloadState
    decreases outcomes.len(),
{
    if outcomes.len() == 0 {
        state
    } else {
        advanced(ran(state, outcomes.drop_last()), outcomes.last())
    }
}

/// A file of fixed size into which `part` was written.
pub open spec fn written(file: Seq<u8>, part: FilePart) -> Seq<u8> {
    Seq::new(
        file.len(),
        |b: int|
            if within(part_range(part), b) {
                part.data@[b - part.start]
            } else {
                file[b]
            },
    )
}

/// The file into which the parts of all of `outcomes` were written in turn.
pub open spec fn file_after(
    state: DownloadState,
    file: Seq<u8>,
    outcomes: Seq<Outcome>,
) -> Seq<u8>
    decreases outcomes.len(),
{
    if outcomes.len() == 0 {
        file
    } else {
        let before = file_after(state, file, outcomes.drop_last());
        match taken_part(ran(state, outcomes.drop_last()), outcomes.last()) {
            Some(part) => written(before, part),
            None => before,
        }
    }
}

/// Whether `part` holds bytes of `content`.
pub open spec fn genuine(part: FilePart, content: Seq<u8>) -> bool {
    &&& part.start + part.data@.len() <= content.len()
    &&& part.data@ == content.subrange(part.start as int, part.start + part.data@.len())
}

/// Whether every part that the outcomes bring for the download `file_id` is
/// genuine.
pub open spec fn all_genuine(outcomes: Seq<Outcome>, file_id: u64, content: Seq<u8>) -> bool {
    forall|i: int|
        0 <= i < outcomes.len() ==> (message(#[trigger] outcomes[i], file_id) matches Some(
            Event::AckFile(part),
        ) ==> genuine(part, content))
}

/// What has arrived is what the file holds there, whatever else it held.
proof fn lemma_arrived_bytes_agree(
    state: DownloadState,
    file: Seq<u8>,
    content: Seq<u8>,
    outcomes: Seq<Outcome>,
)
    requires
        sound(state),
        content.len() <= u64::MAX,
        file.len() == content.len(),
        forall|b: int|
            0 <= b < content.len() && covered(state.progress, b) ==> #[trigger] file[b]
                == content[b],
        all_genuine(outcomes, state.file_id, content),
    ensures
        sound(ran(state, outcomes)),
        ran(state, outcomes).size == state.size,
        ran(state, outcomes).file_id == state.file_id,
        file_after(state, file, outcomes).len() == content.len(),
        forall|b: int|
            0 <= b < content.len() && covered(ran(state, outcomes).progress, b)
                ==> #[trigger] file_after(state, file, outcomes)[b] == content[b],
    decreases outcomes.len(),
{
    if outcomes.len() > 0 {
        let earlier = outcomes.drop_last();
        assert forall|i: int| 0 <= i < earlier.len() implies (message(
            #[trigger] earlier[i],
            state.file_id,
        ) matches Some(Event::AckFile(part)) ==> genuine(part, content)) by {
            assert(earlier[i] == outcomes[i]);
        }
        lemma_arrived_bytes_agree(state, file, content, earlier);
        let middle = ran(state, earlier);
        let last = outcomes.last();
        assert(last == outcomes[outcomes.len() - 1]);
        law_download_stays_sound(middle, last);
        law_outcome_adds_its_part(middle, last);
        let before = file_after(state, file, earlier);
        let after = file_after(state, file, outcomes);
        assert forall|b: int|
            0 <= b < content.len() && covered(
                ran(state, outcomes).progress,
                b,
            ) implies #[trigger] after[b] == content[b] by {
            assert(before.len() == content.len());
            assert(covered(middle.progress, b) ==> before[b] == content[b]);
        }
    }
}

/// A download that ends has the file: if every part that came was genuine, then
/// once the download is over the file it wrote is the file that was asked for,
/// whatever it held before, in whatever order the parts came, and whatever else
/// came or failed in between.
pub proof fn law_finished_download_is_the_file(
    path: Seq<char>,
    file_id: u64,
    content: Seq<u8>,
    file: Seq<u8>,
    outcomes: Seq<Outcome>,
)
    requires
        content.len() <= u64::MAX,
        file.len() == content.len(),
        all_genuine(outcomes, file_id, content),
    ensures
        ({
            let begin = begun(path, content.len() as u64, file_id);
            ran(begin, outcomes).phase is Finished ==> file_after(begin, file, outcomes) == content
        }),
{
    let begin = begun(path, content.len() as u64, file_id);
    law_begin_is_sound(path, content.len() as u64, file_id);
    lemma_arrived_bytes_agree(begin, file, content, outcomes);
    if ran(begin, outcomes).phase is Finished {
        assert forall|b: int| 0 <= b < content.len() implies file_after(begin, file, outcomes)[b]
            == content[b] by {
            assert(covered(ran(begin, outcomes).progress, b));
        }
        assert(file_after(begin, file, outcomes) =~= content);
    }
}

/// The limits of a request: ranges of less than a mebibyte are asked for again
/// with the gap around them, and at most sixty-four ranges at once. A connection has
/// half a minute to come about and lives ten seconds without traffic; metadata is
/// awaited for ten seconds, a first part for five and a further one for one; and a
/// tenth of a second passes before something is tried again.
pub proof fn law_limits_of_a_request()
    ensures
        REQUEST_WINDOW == 1048576,
        MAX_REQUEST_RANGES == 64,
        CONNECT_TIMEOUT_SECS == 30,
        CONNECTION_TTL_SECS == 10,
        METADATA_TIMEOUT_SECS == 10,
        FIRST_PART_TIMEOUT_SECS == 5,
        NEXT_PART_TIMEOUT_SECS == 1,
        RETRY_PAUSE_MILLIS == 100,
{
}

/// A download begins with nothing but what it was given: the path, the size and the
/// identifier. Its first request asks for the whole file, in one range; a file
/// without bytes is not asked for.
pub proof fn law_begin_asks_for_the_whole_file(
    path: Seq<char>,
    size: u64,
    file_id: u64,
    action: Action,
    action_id: u64,
)
    requires
        carries_out(action, first_turn(size), begun(path, size, file_id), action_id),
    ensures
        begun(path, size, file_id).path == path,
        begun(path, size, file_id).size == size,
        begun(path, size, file_id).file_id == file_id,
        begun(path, size, file_id).progress.len() == 0,
        size == 0 ==> action is Finish && begun(path, size, file_id).phase is Finished,
        size > 0 ==> begun(path, size, file_id).phase is Requesting && (
        action matches Action::Request(Event::Ranges(request)) && {
            &&& request.path@ == path
            &&& request.file_id == file_id
            &&& request.action_id == action_id
            &&& request.ranges@.len() == 1
            &&& request.ranges@[0] == (0u64, size)
        }),
{
    assert(gaps(Seq::empty(), 0, size, REQUEST_WINDOW).len() == if size == 0 {
        0int
    } else {
        1int
    });
}

/// What a download is for never changes: whatever comes, the path, the size and
/// the identifier stay.
pub proof fn law_download_keeps_its_file(state: DownloadState, outcome: Outcome)
    ensures
        advanced(state, outcome).path == state.path,
        advanced(state, outcome).size == state.size,
        advanced(state, outcome).file_id == state.file_id,
{
}

/// A part of this download is taken in as it came, unless the download is over: its
/// bytes, no more and no fewer, have then arrived besides the earlier ones, and the
/// next thing to do is to wait for another part.
pub proof fn law_part_is_taken_in(state: DownloadState, part: FilePart)
    requires
        ordered(state.progress),
        part.fid == state.file_id,
        !(state.phase is Finished),
        part.start + part.data@.len() <= u64::MAX,
    ensures
        ({
            let outcome = Outcome::Received(Reply::Message(Event::AckFile(part)));
            let after = advanced(state, outcome);
            &&& part_fits(state, outcome)
            &&& taken_part(state, outcome) == Some(part)
            &&& turn(state, outcome) is Receive
            &&& after.phase is Draining
            &&& ordered(after.progress)
            &&& forall|b: int| #[trigger]
                covered(after.progress, b) <==> covered(state.progress, b) || part.start <= b
                    < part.start + part.data@.len()
            &&& forall|q: int| #[trigger]
                reached(after.progress, q) <==> reached(state.progress, q) || 2 * part.start <= q
                    <= 2 * (part.start + part.data@.len())
        }),
{
    let range = part_range(part);
    law_merge_covers_both(state.progress, range);
    law_merge_joins_what_touches(state.progress, range, merged(state.progress, range));
}

/// Nothing else arrives: a part of another download, one that comes after the end,
/// any other message, and a failure leave what has arrived as it was.
pub proof fn law_nothing_else_is_taken_in(state: DownloadState, outcome: Outcome)
    requires
        state.phase is Finished || !(outcome matches Outcome::Received(
            Reply::Message(Event::AckFile(part)),
        ) && part.fid == state.file_id),
    ensures
        part_fits(state, outcome),
        taken_part(state, outcome) is None,
        advanced(state, outcome).progress == state.progress,
        state.phase is Finished ==> turn(state, outcome) is Finish && advanced(
            state,
            outcome,
        ).phase is Finished,
{
}

/// A request that no part answers is sent again. The announcement of the end ends
/// the download instead, if and only if no byte is missing below the end of the
/// file or before a range that has arrived.
pub proof fn law_unanswered_request_is_sent_again(state: DownloadState, outcome: Outcome)
    requires
        ordered(state.progress),
        state.phase is Requesting,
        !(outcome matches Outcome::Received(Reply::Message(Event::AckFile(part))) && part.fid
            == state.file_id),
    ensures
        outcome != Outcome::Received(Reply::Message(Event::FileEnd(state.file_id))) ==> turn(
            state,
            outcome,
        ) is Resend && advanced(state, outcome).phase is Requesting,
        outcome == Outcome::Received(Reply::Message(Event::FileEnd(state.file_id))) ==> {
            let all_here = forall|b: int|
                0 <= b && (b < state.size || exists|i: int|
                    0 <= i < state.progress.len() && b < (#[trigger] state.progress[i]).start)
                    ==> #[trigger] covered(state.progress, b);
            &&& all_here ==> turn(state, outcome) is Finish && advanced(
                state,
                outcome,
            ).phase is Finished
            &&& !all_here ==> turn(state, outcome) is Resend && advanced(
                state,
                outcome,
            ).phase is Requesting
        },
{
    let found = gaps(state.progress, 0, state.size, 0);
    law_no_gap_means_complete(state.progress, state.size, 0);
    law_gaps_of_ordered_list(state.progress, state.size, 0);
    if found.len() == 0 {
        assert forall|b: int|
            0 <= b && (b < state.size || exists|i: int|
                0 <= i < state.progress.len() && b < (
                #[trigger] state.progress[i]).start) implies #[trigger] covered(
            state.progress,
            b,
        ) by {
            law_gap_bytes(state.progress, state.size, 0, b);
            assert(!covered(found, b));
            if !(b < state.size) {
                let i = choose|i: int|
                    0 <= i < state.progress.len() && b < (#[trigger] state.progress[i]).start;
                assert(length(state.progress[i]) >= 0);
            }
        }
    } else {
        let b = found[0].start as int;
        law_gap_bytes(state.progress, state.size, 0, b);
        assert(within(found[0], b));
        assert(covered(found, b));
        assert(!covered(state.progress, b));
    }
}

/// While parts are coming in, a download goes on waiting whatever comes, until the
/// time is up or the end of this download is announced.
pub proof fn law_draining_goes_on(state: DownloadState, outcome: Outcome)
    requires
        state.phase is Draining,
        outcome != Outcome::Received(Reply::TimedOut),
        outcome != Outcome::Received(Reply::Message(Event::FileEnd(state.file_id))),
    ensures
        turn(state, outcome) is Receive,
        advanced(state, outcome).phase is Draining,
{
}

/// Whether byte `b` has arrived and is not asked for again: it lies in a range of a
/// mebibyte or more, or in the one that starts the file.
pub open spec fn settled(progress: Seq<ProgressEntry>, b: int) -> bool {
    exists|i: int|
        0 <= i < progress.len() && within(#[trigger] progress[i], b) && (progress[i].start == 0
            || length(progress[i]) >= 1048576)
}

/// Whether byte `b` lies before a range of a mebibyte or more that has arrived.
pub open spec fn precedes_long_range(progress: Seq<ProgressEntry>, b: int) -> bool {
    exists|i: int|
        0 <= i < progress.len() && length(#[trigger] progress[i]) >= 1048576 && b
            < progress[i].start
}

/// Which bytes lie in the gaps of a download.
proof fn lemma_gaps_are_not_settled(state: DownloadState, b: int)
    requires
        ordered(state.progress),
    ensures
        covered(gaps(state.progress, 0, state.size, REQUEST_WINDOW), b) <==> {
            &&& 0 <= b
            &&& b < state.size || precedes_long_range(state.progress, b)
            &&& !settled(state.progress, b)
        },
        settled(state.progress, b) ==> covered(state.progress, b),
{
    law_gap_bytes(state.progress, state.size, REQUEST_WINDOW, b);
}

/// What holds of the ranges that a download wants.
proof fn lemma_wanted(state: DownloadState)
    requires
        ordered(state.progress),
    ensures
        ({
            let want = wanted(state);
            &&& want.len() <= 64
            &&& want.len() > 0 ==> forall|b: int|
                0 <= b < want[0].start ==> #[trigger] settled(state.progress, b)
            &&& forall|k: int|
                0 <= k < want.len() ==> {
                    &&& (#[trigger] want[k]).start < want[k].end
                    &&& !covered(state.progress, want[k].start as int)
                    &&& want[k].end == state.size || exists|i: int|
                        0 <= i < state.progress.len() && length(#[trigger] state.progress[i])
                            >= 1048576 && state.progress[i].start == want[k].end
                }
            &&& forall|k: int, m: int|
                0 <= k < m < want.len() ==> (#[trigger] want[k]).end <= (#[trigger] want[m]).start
            &&& forall|k: int, b: int|
                0 <= k < want.len() && #[trigger] within(want[k], b) ==> !settled(
                    state.progress,
                    b,
                )
            &&& forall|b: int|
                0 <= b && b < (if want.len() < 64 {
                    state.size
                } else {
                    want.last().end
                }) && !#[trigger] settled(state.progress, b) ==> covered(want, b)
        }),
{
    let all = gaps(state.progress, 0, state.size, REQUEST_WINDOW);
    let want = wanted(state);
    law_gaps_of_ordered_list(state.progress, state.size, REQUEST_WINDOW);
    law_gaps_run_from_entry_to_entry(state.progress, state.size, REQUEST_WINDOW);
    assert forall|k: int| 0 <= k < want.len() implies #[trigger] want[k] == all[k] by {}
    if want.len() > 0 {
        let first = all[0].start as int;
        assert(within(all[0], first));
        assert(covered(all, first));
        lemma_gaps_are_not_settled(state, first);
        assert forall|b: int| 0 <= b < want[0].start implies #[trigger] settled(
            state.progress,
            b,
        ) by {
            lemma_gaps_are_not_settled(state, b);
            if covered(all, b) {
                let k = choose|k: int| 0 <= k < all.len() && within(#[trigger] all[k], b);
                assert(all[0].start <= all[k].start);
            }
            if precedes_long_range(state.progress, first) {
                let i = choose|i: int|
                    0 <= i < state.progress.len() && length(#[trigger] state.progress[i])
                        >= 1048576 && first < state.progress[i].start;
                assert(b < state.progress[i].start);
            }
        }
    }
    assert forall|k: int, b: int|
        0 <= k < want.len() && #[trigger] within(want[k], b) implies !settled(
        state.progress,
        b,
    ) by {
        lemma_gaps_are_not_settled(state, b);
        assert(within(all[k], b));
    }
    assert forall|b: int|
        0 <= b && b < (if want.len() < 64 {
            state.size
        } else {
            want.last().end
        }) && !#[trigger] settled(state.progress, b) implies covered(want, b) by {
        lemma_gaps_are_not_settled(state, b);
        if want.len() == 64 && !(b < state.size) {
            assert(want[63] == all[63]);
            let i = choose|i: int|
                0 <= i < state.progress.len() && length(#[trigger] state.progress[i]) >= 1048576
                    && state.progress[i].start == all[63].end;
            assert(b < state.progress[i].start);
        }
        assert(covered(all, b));
        let k = choose|k: int| 0 <= k < all.len() && within(#[trigger] all[k], b);
        if k >= want.len() {
            assert(want[63] == all[63]);
            assert(all[63].end <= all[k].start);
        }
        assert(within(want[k], b));
    }
}

/// What a request asks for, of a download of which `state.progress` has arrived. It
/// names the file and the download, and asks for at most sixty-four ranges, none
/// empty, which ascend. The first opens with the first missing byte; each opens
/// with a missing byte and runs to the end of the file or to a range of a mebibyte
/// or more that has arrived. What has arrived in such a range, or from the start of
/// the file on, is not asked for; all else is, up to the end of the last range, and
/// up to the end of the file if there are fewer than sixty-four.
pub proof fn law_request_asks_for_the_first_gaps(
    request: RangesRequest,
    state: DownloadState,
    action_id: u64,
)
    requires
        ordered(state.progress),
        asks(Event::Ranges(request), state, action_id),
    ensures
        request.path@ == state.path,
        request.file_id == state.file_id,
        request.action_id == action_id,
        request.ranges@.len() <= 64,
        request.ranges@.len() > 0 ==> forall|b: int|
            0 <= b < request.ranges@[0].0 ==> #[trigger] covered(state.progress, b),
        forall|k: int|
            0 <= k < request.ranges@.len() ==> {
                &&& (#[trigger] request.ranges@[k]).0 < request.ranges@[k].1
                &&& !covered(state.progress, request.ranges@[k].0 as int)
                &&& request.ranges@[k].1 == state.size || exists|i: int|
                    0 <= i < state.progress.len() && length(#[trigger] state.progress[i])
                        >= 1048576 && state.progress[i].start == request.ranges@[k].1
            },
        forall|k: int, m: int|
            0 <= k < m < request.ranges@.len() ==> (#[trigger] request.ranges@[k]).1 <= (
            #[trigger] request.ranges@[m]).0,
        forall|k: int, b: int|
            0 <= k < request.ranges@.len() && (#[trigger] request.ranges@[k]).0 <= b
                < request.ranges@[k].1 ==> !#[trigger] settled(state.progress, b),
        forall|b: int|
            0 <= b && b < (if request.ranges@.len() < 64 {
                state.size
            } else {
                request.ranges@.last().1
            }) && !#[trigger] settled(state.progress, b) ==> exists|k: int|
                0 <= k < request.ranges@.len() && (#[trigger] request.ranges@[k]).0 <= b
                    < request.ranges@[k].1,
{
    let want = wanted(state);
    let ranges = request.ranges@;
    lemma_wanted(state);
    assert(ranges.len() == want.len());
    assert forall|k: int| 0 <= k < ranges.len() implies (#[trigger] ranges[k]).0 == want[k].start
        && ranges[k].1 == want[k].end by {}
    if ranges.len() > 0 {
        assert forall|b: int| 0 <= b < ranges[0].0 implies #[trigger] covered(
            state.progress,
            b,
        ) by {
            assert(settled(state.progress, b));
        }
    }
    assert forall|k: int, m: int| 0 <= k < m < ranges.len() implies (#[trigger] ranges[k]).1 <= (
    #[trigger] ranges[m]).0 by {
        assert(want[k].end <= want[m].start);
    }
    assert forall|k: int, b: int|
        0 <= k < ranges.len() && (#[trigger] ranges[k]).0 <= b
            < ranges[k].1 implies !#[trigger] settled(state.progress, b) by {
        assert(within(want[k], b));
    }
    assert forall|b: int|
        0 <= b && b < (if ranges.len() < 64 {
            state.size
        } else {
            ranges.last().1
        }) && !#[trigger] settled(state.progress, b) implies exists|k: int|
        0 <= k < ranges.len() && (#[trigger] ranges[k]).0 <= b < ranges[k].1 by {
        assert(covered(want, b));
        let k = choose|k: int| 0 <= k < want.len() && within(#[trigger] want[k], b);
        assert(ranges[k].0 <= b < ranges[k].1);
    }
}

/// What was lost is asked for again: when parts stop coming, or their end is
/// announced, while a byte of the file is missing, the next thing to do is to send
/// a request, and its first range opens with the first byte that is missing.
pub proof fn law_lost_bytes_are_asked_for_again(
    state: DownloadState,
    outcome: Outcome,
    missing: int,
    action: Action,
    action_id: u64,
)
    requires
        ordered(state.progress),
        state.phase is Draining,
        outcome == Outcome::Received(Reply::TimedOut) || outcome == Outcome::Received(
            Reply::Message(Event::FileEnd(state.file_id)),
        ),
        0 <= missing < state.size,
        !covered(state.progress, missing),
        carries_out(action, turn(state, outcome), advanced(state, outcome), action_id),
    ensures
        turn(state, outcome) is Request,
        advanced(state, outcome).phase is Requesting,
        advanced(state, outcome).progress == state.progress,
        action matches Action::Request(Event::Ranges(request)) && {
            &&& request.path@ == state.path
            &&& request.file_id == state.file_id
            &&& request.action_id == action_id
            &&& 0 < request.ranges@.len() <= 64
            &&& request.ranges@[0].0 <= missing
            &&& request.ranges@[0].0 < request.ranges@[0].1
            &&& !covered(state.progress, request.ranges@[0].0 as int)
            &&& forall|b: int|
                0 <= b < request.ranges@[0].0 ==> #[trigger] covered(state.progress, b)
        },
{
    law_gaps_of_ordered_list(state.progress, state.size, REQUEST_WINDOW);
    assert(covered(gaps(state.progress, 0, state.size, REQUEST_WINDOW), missing));
    if let Action::Request(Event::Ranges(request)) = action {
        law_request_asks_for_the_first_gaps(request, advanced(state, outcome), action_id);
        if missing < request.ranges@[0].0 {
            assert(covered(state.progress, missing));
        }
    }
}

/// When parts stop coming, or their end is announced, the download is over if and
/// only if no byte is left to be asked for: none that is missing, and none of a
/// short range that has arrived apart from the start of the file, below the end of
/// the file or before a long range.
pub proof fn law_round_ends_when_nothing_is_left(state: DownloadState, outcome: Outcome)
    requires
        ordered(state.progress),
        state.phase is Draining,
        outcome == Outcome::Received(Reply::TimedOut) || outcome == Outcome::Received(
            Reply::Message(Event::FileEnd(state.file_id)),
        ),
    ensures
        ({
            let nothing_left = forall|b: int|
                0 <= b && (b < state.size || precedes_long_range(state.progress, b))
                    ==> #[trigger] settled(state.progress, b);
            &&& nothing_left ==> turn(state, outcome) is Finish && advanced(
                state,
                outcome,
            ).phase is Finished
            &&& !nothing_left ==> turn(state, outcome) is Request && advanced(
                state,
                outcome,
            ).phase is Requesting
        }),
{
    let all = gaps(state.progress, 0, state.size, REQUEST_WINDOW);
    law_gaps_of_ordered_list(state.progress, state.size, REQUEST_WINDOW);
    if all.len() == 0 {
        assert forall|b: int|
            0 <= b && (b < state.size || precedes_long_range(
                state.progress,
                b,
            )) implies #[trigger] settled(state.progress, b) by {
            lemma_gaps_are_not_settled(state, b);
        }
    } else {
        let b = all[0].start as int;
        assert(within(all[0], b));
        assert(covered(all, b));
        lemma_gaps_are_not_settled(state, b);
    }
}

/// What is done is what the turn says, and the download is then in the phase in
/// which that is done.
pub proof fn law_turn_is_carried_out(
    action: Action,
    turn: Turn,
    state: DownloadState,
    action_id: u64,
)
    requires
        carries_out(action, turn, state, action_id),
    ensures
        action is Request <==> turn is Request,
        action is Resend <==> turn is Resend,
        action is Receive <==> turn is Receive,
        action is Finish <==> turn is Finish,
        phase_of(turn) is Requesting <==> action is Request || action is Resend,
        phase_of(turn) is Draining <==> action is Receive,
        phase_of(turn) is Finished <==> action is Finish,
        action matches Action::Request(event) ==> asks(event, state, action_id),
{
}

/// Whether `outcome` brings byte `b` to the download `file_id`.
pub open spec fn brings(outcome: Outcome, file_id: u64, b: int) -> bool {
    outcome matches Outcome::Received(Reply::Message(Event::AckFile(part))) && {
        &&& part.fid == file_id
        &&& part.start <= b < part.start + part.data@.len()
    }
}

/// Whether one of `outcomes` brings byte `b` to the download `file_id`.
pub open spec fn delivered(outcomes: Seq<Outcome>, file_id: u64, b: int) -> bool {
    exists|i: int| 0 <= i < outcomes.len() && #[trigger] brings(outcomes[i], file_id, b)
}

/// What holds of a download that is served genuine parts only.
proof fn lemma_genuine_run(
    path: Seq<char>,
    file_id: u64,
    content: Seq<u8>,
    outcomes: Seq<Outcome>,
)
    requires
        content.len() <= u64::MAX,
        forall|i: int|
            0 <= i < outcomes.len() ==> ((#[trigger] outcomes[i]) matches Outcome::Received(
                Reply::Message(Event::AckFile(part)),
            ) ==> (part.fid == file_id ==> genuine(part, content))),
    ensures
        ({
            let state = ran(begun(path, content.len() as u64, file_id), outcomes);
            &&& sound(state)
            &&& state.path == path
            &&& state.size == content.len()
            &&& state.file_id == file_id
            &&& forall|i: int|
                0 <= i < state.progress.len() ==> (#[trigger] state.progress[i]).end <= state.size
            &&& state.phase is Requesting ==> !complete(state)
            &&& state.phase is Finished || forall|i: int, b: int|
                0 <= i < outcomes.len() && #[trigger] brings(outcomes[i], file_id, b) ==> covered(
                    state.progress,
                    b,
                )
        }),
    decreases outcomes.len(),
{
    let begin = begun(path, content.len() as u64, file_id);
    law_begin_is_sound(path, content.len() as u64, file_id);
    if outcomes.len() == 0 {
        if begin.phase is Requesting {
            assert(!covered(begin.progress, 0));
        }
    } else {
        let earlier = outcomes.drop_last();
        let last = outcomes.last();
        assert forall|i: int| 0 <= i < earlier.len() implies ((
        #[trigger] earlier[i]) matches Outcome::Received(Reply::Message(Event::AckFile(part)))
            ==> (part.fid == file_id ==> genuine(part, content))) by {
            assert(earlier[i] == outcomes[i]);
        }
        lemma_genuine_run(path, file_id, content, earlier);
        assert(last == outcomes[outcomes.len() - 1]);
        let middle = ran(begin, earlier);
        let state = ran(begin, outcomes);
        assert(part_fits(middle, last));
        law_download_stays_sound(middle, last);
        law_outcome_adds_its_part(middle, last);
        if let Some(part) = taken_part(middle, last) {
            let range = part_range(part);
            law_part_is_taken_in(middle, part);
            assert forall|i: int| 0 <= i < state.progress.len() implies (
            #[trigger] state.progress[i]).end <= state.size by {
                let q = 2 * state.progress[i].end;
                assert(reaches(state.progress[i], q));
                assert(reached(state.progress, q));
                if reached(middle.progress, q) {
                    let j = choose|j: int|
                        0 <= j < middle.progress.len() && reaches(#[trigger] middle.progress[j], q);
                    assert(middle.progress[j].end <= state.size);
                }
            }
        } else {
            if state.phase is Requesting && middle.phase is Draining {
                if complete(middle) {
                    law_complete_download_ends(middle);
                }
            }
        }
        if !(state.phase is Finished) {
            assert forall|i: int, b: int|
                0 <= i < outcomes.len() && #[trigger] brings(
                    outcomes[i],
                    file_id,
                    b,
                ) implies covered(state.progress, b) by {
                if i < earlier.len() {
                    assert(brings(earlier[i], file_id, b));
                    assert(covered(middle.progress, b));
                } else if let Outcome::Received(Reply::Message(Event::AckFile(part))) = last {
                    law_part_is_taken_in(middle, part);
                }
            }
        }
    }
}

/// A download that was given all it needs ends: begun with the length of the
/// content, once genuine parts have brought every byte of it, in whatever order and
/// whatever else came in between, it is over as soon as no further part comes in
/// time or the end is announced.
pub proof fn law_delivered_download_ends(
    path: Seq<char>,
    file_id: u64,
    content: Seq<u8>,
    outcomes: Seq<Outcome>,
    last: Outcome,
)
    requires
        content.len() <= u64::MAX,
        forall|i: int|
            0 <= i < outcomes.len() ==> ((#[trigger] outcomes[i]) matches Outcome::Received(
                Reply::Message(Event::AckFile(part)),
            ) ==> (part.fid == file_id ==> genuine(part, content))),
        forall|b: int|
            0 <= b < content.len() ==> #[trigger] delivered(outcomes, file_id, b),
        last == Outcome::Received(Reply::TimedOut) || last == Outcome::Received(
            Reply::Message(Event::FileEnd(file_id)),
        ),
    ensures
        ({
            let state = ran(begun(path, content.len() as u64, file_id), outcomes);
            &&& advanced(state, last).phase is Finished
            &&& forall|action: Action, action_id: u64| #[trigger]
                carries_out(action, turn(state, last), advanced(state, last), action_id)
                    ==> action is Finish
        }),
{
    let state = ran(begun(path, content.len() as u64, file_id), outcomes);
    lemma_genuine_run(path, file_id, content, outcomes);
    if !(state.phase is Finished) {
        assert forall|b: int| 0 <= b < state.size implies #[trigger] covered(state.progress, b) by {
            assert(delivered(outcomes, file_id, b));
            let i = choose|i: int|
                0 <= i < outcomes.len() && #[trigger] brings(outcomes[i], file_id, b);
            assert(covered(state.progress, b));
        }
        assert(complete(state));
        law_complete_download_ends(state);
    }
}

} // verus!
