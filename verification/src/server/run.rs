//! What a request does from the moment it came in.
use crate::server::{
    answers, carries_out, chunk_len, decide, ids_after, law_only_leading_slashes_are_dropped,
    lemma_inside_name_by_name, names, released, state_after, Action, FileStat, Job, Report,
    RequestError, RequestView, State, Transfer, CHUNK_SIZE, RESEND_PAUSE_MILLIS,
};
use crate::{Event, FilePart, FileRequest, Metadata};
use vstd::prelude::*;

verus! {

/// One step of a request: what came of the last action, what was to be done then,
/// and the identifiers that were being served before and after.
pub struct Move {
    pub report: Report,
    pub action: Action,
    pub ids: Set<u64>,
    pub ids_now: Set<u64>,
}

/// Where a request stands after `moves`.
pub open spec fn stands(begin: RequestView, moves: Seq<Move>) -> RequestView
    decreases moves.len(),
{
    if moves.len() == 0 {
        begin
    } else {
        let before = stands(begin, moves.drop_last());
        let last = moves.last();
        RequestView {
            root: before.root,
            state: state_after(decide(before, last.report, last.ids)),
        }
    }
}

/// Whether `moves` are steps that a request takes, one after the other.
pub open spec fn happened(begin: RequestView, moves: Seq<Move>) -> bool
    decreases moves.len(),
{
    moves.len() == 0 || {
        let before = stands(begin, moves.drop_last());
        let last = moves.last();
        let verdict = decide(before, last.report, last.ids);
        &&& happened(begin, moves.drop_last())
        &&& answers(before.state, last.report)
        &&& carries_out(last.action, before.state, last.report, verdict)
        &&& last.ids_now == ids_after(last.ids, before.state, state_after(verdict))
    }
}

/// The parts that were to be sent, in order.
pub open spec fn parts(moves: Seq<Move>) -> Seq<FilePart>
    decreases moves.len(),
{
    if moves.len() == 0 {
        Seq::empty()
    } else {
        match moves.last().action {
            Action::Send(Event::AckFile(part)) => parts(moves.drop_last()).push(part),
            _ => parts(moves.drop_last()),
        }
    }
}

/// How many bytes these parts hold.
pub open spec fn sent_bytes(moves: Seq<Move>) -> nat
    decreases moves.len(),
{
    if moves.len() == 0 {
        0
    } else {
        match moves.last().action {
            Action::Send(Event::AckFile(part)) => sent_bytes(moves.drop_last()) + part.data@.len(),
            _ => sent_bytes(moves.drop_last()),
        }
    }
}

/// How long the file was found to be.
pub open spec fn stat_len(moves: Seq<Move>) -> u64 {
    match moves[2].report {
        Report::Stat(Some(stat)) => stat.len,
        _ => 0,
    }
}

/// How many bytes a request is to be sent of a file of `len` bytes: as many as lie
/// between its start and its end, but no more than the file has.
spec fn due(file: FileRequest, len: u64) -> int {
    if file.end <= file.start {
        0
    } else if file.end - file.start <= len {
        file.end - file.start
    } else {
        len as int
    }
}

/// The smaller of a part's limit and what is left.
spec fn part_len(left: int) -> int {
    if left <= 1024 {
        left
    } else {
        1024
    }
}

/// Whether `sent` are the first `total` of the bytes from `start` on, of which `all`
/// are to be sent, in parts of the right length.
spec fn tiles(sent: Seq<FilePart>, fid: u64, start: u64, total: int, all: int) -> bool {
    &&& total == 0 <==> sent.len() == 0
    &&& forall|k: int|
        0 <= k < sent.len() ==> {
            &&& (#[trigger] sent[k]).fid == fid
            &&& start <= sent[k].start < start + all
            &&& sent[k].data@.len() == part_len(all - (sent[k].start - start))
            &&& sent[k].data@.len() > 0
        }
    &&& sent.len() > 0 ==> sent[0].start == start && sent.last().start + sent.last().data@.len()
        == start + total
    &&& forall|k: int, m: int|
        0 <= k && m == k + 1 && m < sent.len() ==> (#[trigger] sent[k]).start
            + sent[k].data@.len() == (#[trigger] sent[m]).start
}

/// What holds of a transfer under way.
spec fn under_way(transfer: Transfer, file: FileRequest, moves: Seq<Move>) -> bool {
    &&& moves.len() >= 3
    &&& moves[2].report matches Report::Stat(Some(_))
    &&& stat_len(moves) > 0
    &&& transfer.fid == file.fid
    &&& transfer.position == file.start + sent_bytes(moves)
    &&& transfer.remaining == due(file, stat_len(moves)) - sent_bytes(moves)
}

/// Where a request for bytes of a file stands, told from what it did.
proof fn lemma_file_run(root: Seq<Seq<u8>>, file: FileRequest, moves: Seq<Move>)
    requires
        happened(
            (RequestView { root, state: State::Received(Event::File(file)) }),
            moves,
        ),
    ensures
        ({
            let view = stands(
                RequestView { root, state: State::Received(Event::File(file)) },
                moves,
            );
            let total = sent_bytes(moves);
            &&& view.root == root
            &&& moves.len() > 0 && moves.last().action is End <==> view.state is Ended
            &&& moves.len() < 3 ==> total == 0
            &&& moves.len() >= 3 ==> tiles(
                parts(moves),
                file.fid,
                file.start,
                total as int,
                due(file, stat_len(moves)),
            )
            &&& match view.state {
                State::Received(event) => moves.len() == 0 && event == Event::File(file),
                State::Resolving(job) => moves.len() == 1 && job == Job::File(file),
                State::Sizing(job) => moves.len() == 2 && job == Job::File(file),
                State::SendingInfo => false,
                State::Opening(transfer) => moves.len() == 3 && total == 0 && under_way(
                    transfer,
                    file,
                    moves,
                ),
                State::Advising(transfer) => moves.len() == 4 && total == 0 && under_way(
                    transfer,
                    file,
                    moves,
                ),
                State::Reading(transfer) => {
                    &&& moves.len() >= 5
                    &&& under_way(transfer, file, moves)
                    &&& transfer.remaining > 0
                    &&& moves.last().action == (Action::Read {
                        position: transfer.position,
                        len: chunk_len(transfer),
                    })
                },
                State::SendingPart(transfer) => {
                    &&& moves.len() >= 6
                    &&& total > 0
                    &&& under_way(transfer, file, moves)
                    &&& moves.last().action is Send || moves.last().action is Resend
                },
                State::Ended => moves.len() > 0,
            }
        }),
    decreases moves.len(),
{
    let begin = RequestView { root, state: State::Received(Event::File(file)) };
    if moves.len() > 0 {
        let earlier = moves.drop_last();
        let last = moves.last();
        lemma_file_run(root, file, earlier);
        let before = stands(begin, earlier);
        if earlier.len() >= 3 {
            assert(earlier[2] == moves[2]);
        }
        if moves.len() == 3 {
            assert(parts(earlier) =~= Seq::empty()) by {
                reveal_with_fuel(parts, 3);
                reveal_with_fuel(sent_bytes, 3);
                reveal_with_fuel(happened, 3);
                reveal_with_fuel(stands, 3);
            }
        }
    }
}

/// What a request for bytes of a file does at each step, told from the event that
/// came in and from what it did before. It is refused if the client is unknown, and
/// then if a request with its identifier is being served. Its path is looked up
/// without leading slashes, and refused unless it leads to a place at or below
/// `root`. An empty file ends it. Otherwise the file is opened, the bytes that are
/// due are announced, and they are read and sent from the first one that is asked
/// for on, each part where the last one ended, until none is left. What could not be
/// sent is sent again, and any other failure ends the request.
pub proof fn law_file_request_step_by_step(
    root: Seq<Seq<u8>>,
    file: FileRequest,
    moves: Seq<Move>,
)
    requires
        happened(
            (RequestView { root, state: State::Received(Event::File(file)) }),
            moves,
        ),
        moves.len() > 0,
    ensures
        ({
            let step = moves.len() - 1;
            let action = moves.last().action;
            let found = stat_len(moves);
            let all = if file.end <= file.start {
                0
            } else if file.end - file.start <= found {
                file.end - file.start
            } else {
                found as int
            };
            let left = all - sent_bytes(moves.drop_last());
            let chunk = if left <= 1024 {
                left
            } else {
                1024
            };
            let sent = sent_bytes(moves.drop_last());
            match moves.last().report {
                Report::Client(known) => step == 0 && if !known {
                    action == Action::End(Err(RequestError::UnknownClient))
                } else if moves.last().ids.contains(file.fid) {
                    action == Action::End(Err(RequestError::DuplicateFid))
                } else {
                    action matches Action::Canonicalize(path) && exists|n: int|
                        {
                            &&& 0 <= n <= file.path@.len()
                            &&& path@ == #[trigger] file.path@.skip(n)
                            &&& forall|i: int| 0 <= i < n ==> #[trigger] file.path@[i] == '/'
                            &&& n == file.path@.len() || file.path@[n] != '/'
                        }
                },
                Report::Canonical(None) => step == 1 && action == Action::End(
                    Err(RequestError::NotFound),
                ),
                Report::Canonical(Some(path)) => step == 1 && action == if root.len() <= path@.len()
                    && forall|k: int|
                    0 <= k < root.len() ==> root[k] == (#[trigger] path@[k])@ {
                    Action::Stat
                } else {
                    Action::End(Err(RequestError::OutsideRoot))
                },
                Report::Stat(None) => step == 2 && action == Action::End(
                    Err(RequestError::NoMetadata),
                ),
                Report::Stat(Some(stat)) => step == 2 && action == if stat.len == 0 {
                    Action::End(Ok(()))
                } else {
                    Action::Open
                },
                Report::Opened(opened) => step == 3 && if opened {
                    action matches Action::Advise { position, len } && position == file.start && len
                        == all
                } else {
                    action == Action::End(Err(RequestError::OpenFailed))
                },
                Report::Advised(false) => step == 4 && action == Action::End(
                    Err(RequestError::AdviseFailed),
                ),
                Report::Chunk(None) => step >= 5 && action == Action::End(
                    Err(RequestError::ReadFailed),
                ),
                Report::Chunk(Some(data)) => {
                    &&& step >= 5
                    &&& moves[step - 1].action matches Action::Read { position, len } && {
                        &&& position == file.start + sent
                        &&& len == chunk
                        &&& data@.len() == len
                    }
                    &&& action matches Action::Send(Event::AckFile(part)) && {
                        &&& part.fid == file.fid
                        &&& part.start == file.start + sent
                        &&& part.data@ == data@
                    }
                },
                Report::Sent(false) => step >= 6 && action is Resend,
                Report::Advised(true) | Report::Sent(true) => {
                    &&& step >= 4
                    &&& moves.last().report is Advised ==> step == 4 && sent == 0
                    &&& moves.last().report is Sent ==> sent > 0
                    &&& sent == all ==> action == Action::End(Ok(()))
                    &&& sent < all ==> (action matches Action::Read { position, len } && position
                        == file.start + sent && len == chunk)
                    &&& sent <= all
                },
            }
        }),
{
    let begin = RequestView { root, state: State::Received(Event::File(file)) };
    let earlier = moves.drop_last();
    let last = moves.last();
    lemma_file_run(root, file, earlier);
    lemma_file_run(root, file, moves);
    let before = stands(begin, earlier);
    if earlier.len() > 0 {
        assert(earlier.last() == moves[moves.len() - 2]);
    }
    if earlier.len() >= 3 {
        assert(earlier[2] == moves[2]);
    }
    match last.report {
        Report::Client(_) => {
            let n = law_only_leading_slashes_are_dropped(file.path@);
            assert(file.path@.skip(n) == file.path@.skip(n));
        },
        Report::Canonical(Some(path)) => {
            lemma_inside_name_by_name(root, path);
        },
        _ => {},
    }
}

/// A request for bytes of a file is counted under its identifier from the moment it
/// is taken on until it ends, and no other identifier is touched; nor is any by a
/// request that is refused. To give up on it has the same effect as its end.
pub proof fn law_file_request_holds_its_id(
    root: Seq<Seq<u8>>,
    file: FileRequest,
    moves: Seq<Move>,
    ids: Set<u64>,
)
    requires
        happened(
            (RequestView { root, state: State::Received(Event::File(file)) }),
            moves,
        ),
    ensures
        ({
            let view = stands(
                RequestView { root, state: State::Received(Event::File(file)) },
                moves,
            );
            &&& moves.len() == 1 ==> moves[0].ids_now == if moves[0].action is End {
                moves[0].ids
            } else {
                moves[0].ids.insert(file.fid)
            }
            &&& moves.len() > 1 ==> moves.last().ids_now == if moves.last().action is End {
                moves.last().ids.remove(file.fid)
            } else {
                moves.last().ids
            }
            &&& released(ids, view.state) == if moves.len() == 0 || moves.last().action is End {
                ids
            } else {
                ids.remove(file.fid)
            }
        }),
{
    lemma_file_run(root, file, moves);
    if moves.len() > 0 {
        lemma_file_run(root, file, moves.drop_last());
    }
}

/// A request that ends well was sent what it asked for: the parts that it was told
/// to send follow one another without a hole and without an overlap, from the first
/// byte that it asked for on, as many bytes as it asked for but no more than the
/// file has. Of a range that lies in the file that is the whole range. Each part but
/// the last is as long as a part may be.
pub proof fn law_file_request_is_sent_its_range(
    root: Seq<Seq<u8>>,
    file: FileRequest,
    moves: Seq<Move>,
)
    requires
        happened(
            (RequestView { root, state: State::Received(Event::File(file)) }),
            moves,
        ),
        moves.len() > 0,
        moves.last().action == Action::End(Ok(())),
    ensures
        moves.len() >= 3,
        moves[2].report matches Report::Stat(Some(stat)) && {
            let sent = parts(moves);
            let all = if file.end <= file.start {
                0
            } else if file.end - file.start <= stat.len {
                file.end - file.start
            } else {
                stat.len as int
            };
            &&& all == 0 <==> sent.len() == 0
            &&& file.start <= file.end <= stat.len ==> file.start + all == file.end
            &&& sent.len() > 0 ==> {
                &&& sent[0].start == file.start
                &&& sent.last().start + sent.last().data@.len() == file.start + all
            }
            &&& forall|k: int|
                0 <= k < sent.len() ==> (#[trigger] sent[k]).fid == file.fid && 0
                    < sent[k].data@.len() <= 1024
            &&& forall|k: int, m: int|
                0 <= k && m == k + 1 && m < sent.len() ==> {
                    &&& (#[trigger] sent[k]).start + sent[k].data@.len() == (
                    #[trigger] sent[m]).start
                    &&& sent[k].data@.len() == 1024
                }
        },
{
    let earlier = moves.drop_last();
    lemma_file_run(root, file, moves);
    lemma_file_run(root, file, earlier);
    law_file_request_step_by_step(root, file, moves);
    if earlier.len() >= 3 {
        assert(earlier[2] == moves[2]);
    }
    let sent = parts(moves);
    let all = due(file, stat_len(moves));
    assert(tiles(sent, file.fid, file.start, sent_bytes(moves) as int, all));
    assert forall|k: int, m: int| 0 <= k && m == k + 1 && m < sent.len() implies {
        &&& (#[trigger] sent[k]).start + sent[k].data@.len() == (#[trigger] sent[m]).start
        &&& sent[k].data@.len() == 1024
    } by {
        assert(sent[m].start < file.start + all);
    }
}

/// Whether what was read is what `content` holds there.
pub open spec fn reads_content(moves: Seq<Move>, content: Seq<u8>) -> bool {
    forall|i: int, j: int|
        0 <= i && j == i + 1 && j < moves.len() ==> ((
        #[trigger] moves[i]).action matches Action::Read { position, len } ==> ((
        #[trigger] moves[j]).report matches Report::Chunk(Some(data)) ==> position + len
            <= content.len() && data@ == content.subrange(position as int, position + len)))
}

/// If what is read is what the file holds, every part that is to be sent holds the
/// bytes of the file from its start on.
pub proof fn law_sent_parts_hold_the_content(
    root: Seq<Seq<u8>>,
    file: FileRequest,
    moves: Seq<Move>,
    content: Seq<u8>,
)
    requires
        happened(
            (RequestView { root, state: State::Received(Event::File(file)) }),
            moves,
        ),
        reads_content(moves, content),
    ensures
        forall|k: int|
            0 <= k < parts(moves).len() ==> {
                let part = #[trigger] parts(moves)[k];
                &&& part.start + part.data@.len() <= content.len()
                &&& part.data@ == content.subrange(
                    part.start as int,
                    part.start + part.data@.len(),
                )
            },
    decreases moves.len(),
{
    if moves.len() > 0 {
        let earlier = moves.drop_last();
        assert forall|i: int, j: int| 0 <= i && j == i + 1 && j < earlier.len() implies ((
        #[trigger] earlier[i]).action matches Action::Read { position, len } ==> ((
        #[trigger] earlier[j]).report matches Report::Chunk(Some(data)) ==> position + len
            <= content.len() && data@ == content.subrange(position as int, position + len))) by {
            assert(earlier[i] == moves[i] && earlier[j] == moves[j]);
        }
        law_sent_parts_hold_the_content(root, file, earlier, content);
        law_file_request_step_by_step(root, file, moves);
        lemma_file_run(root, file, earlier);
        let step = moves.len() - 1;
        assert(moves.last() == moves[step]);
        if let Action::Send(Event::AckFile(part)) = moves.last().action {
            if let Report::Chunk(Some(data)) = moves.last().report {
                assert(moves[step - 1].action is Read);
            }
        }
    }
}

/// What a request for the metadata of a file does at each step: it looks the path
/// up, without leading slashes, refuses what lies outside `root` and what is not a
/// file, and tells the size of the file as it was found, to the byte. It concerns no
/// identifier.
pub proof fn law_metadata_request_step_by_step(
    root: Seq<Seq<u8>>,
    asked: String,
    moves: Seq<Move>,
    ids: Set<u64>,
)
    requires
        happened(
            (RequestView { root, state: State::Received(Event::Metadata(asked)) }),
            moves,
        ),
    ensures
        released(
            ids,
            stands(
                RequestView { root, state: State::Received(Event::Metadata(asked)) },
                moves,
            ).state,
        ) == ids,
        moves.len() > 0 ==> {
            let step = moves.len() - 1;
            let action = moves.last().action;
            &&& moves.last().ids_now == moves.last().ids
            &&& match moves.last().report {
                Report::Client(known) => step == 0 && if !known {
                    action == Action::End(Err(RequestError::UnknownClient))
                } else {
                    action matches Action::Canonicalize(path) && exists|n: int|
                        {
                            &&& 0 <= n <= asked@.len()
                            &&& path@ == #[trigger] asked@.skip(n)
                            &&& forall|i: int| 0 <= i < n ==> #[trigger] asked@[i] == '/'
                            &&& n == asked@.len() || asked@[n] != '/'
                        }
                },
                Report::Canonical(None) => step == 1 && action == Action::End(
                    Err(RequestError::NotFound),
                ),
                Report::Canonical(Some(path)) => step == 1 && action == if root.len() <= path@.len()
                    && forall|k: int|
                    0 <= k < root.len() ==> root[k] == (#[trigger] path@[k])@ {
                    Action::Stat
                } else {
                    Action::End(Err(RequestError::OutsideRoot))
                },
                Report::Stat(None) => step == 2 && action == Action::End(
                    Err(RequestError::NoMetadata),
                ),
                Report::Stat(Some(stat)) => step == 2 && action == if stat.is_file {
                    Action::Send(Event::AckMetadata(Metadata { size: stat.len }))
                } else {
                    Action::End(Err(RequestError::NotAFile))
                },
                Report::Sent(sent) => step == 3 && action == if sent {
                    Action::End(Ok(()))
                } else {
                    Action::End(Err(RequestError::SendFailed))
                },
                _ => false,
            }
        },
{
    lemma_metadata_run(root, asked, moves);
    if moves.len() > 0 {
        lemma_metadata_run(root, asked, moves.drop_last());
        match moves.last().report {
            Report::Client(_) => {
                let n = law_only_leading_slashes_are_dropped(asked@);
                assert(asked@.skip(n) == asked@.skip(n));
            },
            Report::Canonical(Some(path)) => {
                lemma_inside_name_by_name(root, path);
            },
            _ => {},
        }
    }
}

/// Where a request for metadata stands.
proof fn lemma_metadata_run(root: Seq<Seq<u8>>, asked: String, moves: Seq<Move>)
    requires
        happened(
            (RequestView { root, state: State::Received(Event::Metadata(asked)) }),
            moves,
        ),
    ensures
        ({
            let view = stands(
                RequestView { root, state: State::Received(Event::Metadata(asked)) },
                moves,
            );
            &&& view.root == root
            &&& match view.state {
                State::Received(event) => moves.len() == 0 && event == Event::Metadata(asked),
                State::Resolving(job) => moves.len() == 1 && job is Info,
                State::Sizing(job) => moves.len() == 2 && job is Info,
                State::SendingInfo => moves.len() == 3,
                State::Ended => moves.len() > 0,
                _ => false,
            }
        }),
    decreases moves.len(),
{
    if moves.len() > 0 {
        lemma_metadata_run(root, asked, moves.drop_last());
    }
}

/// An event that asks for neither metadata nor bytes of a file is done with at once,
/// and nothing is done for it.
pub proof fn law_other_events_are_done_with(
    root: Seq<Seq<u8>>,
    event: Event,
    moves: Seq<Move>,
    ids: Set<u64>,
)
    requires
        !(event is Metadata),
        !(event is File),
        happened((RequestView { root, state: State::Received(event) }), moves),
    ensures
        moves.len() <= 1,
        moves.len() == 1 ==> stands(
            RequestView { root, state: State::Received(event) },
            moves,
        ).state is Ended,
        released(
            ids,
            stands(RequestView { root, state: State::Received(event) }, moves).state,
        ) == ids,
        moves.len() == 1 ==> (moves[0].report matches Report::Client(known) && {
            &&& moves[0].ids_now == moves[0].ids
            &&& moves[0].action == if known {
                Action::End(Ok(()))
            } else {
                Action::End(Err(RequestError::UnknownClient))
            }
        }),
    decreases moves.len(),
{
    if moves.len() > 0 {
        law_other_events_are_done_with(root, event, moves.drop_last(), ids);
        if moves.len() == 1 {
            assert(moves.last() == moves[0]);
        }
    }
}

/// Whatever comes of an action can be reported: whether the client is there, first
/// of all, and then every result that the action can have. What was read has the
/// length that was asked for.
pub proof fn law_every_result_can_be_reported(begin: RequestView, moves: Seq<Move>, event: Event)
    requires
        begin.state == State::Received(event),
        happened(begin, moves),
    ensures
        ({
            let state = stands(begin, moves).state;
            &&& moves.len() == 0 ==> forall|known: bool| #[trigger]
                answers(state, Report::Client(known))
            &&& moves.len() > 0 ==> match moves.last().action {
                Action::Canonicalize(_) => forall|path: Option<Vec<Vec<u8>>>| #[trigger]
                    answers(state, Report::Canonical(path)),
                Action::Stat => forall|stat: Option<FileStat>| #[trigger]
                    answers(state, Report::Stat(stat)),
                Action::Open => forall|opened: bool| #[trigger]
                    answers(state, Report::Opened(opened)),
                Action::Advise { position, len } => forall|advised: bool| #[trigger]
                    answers(state, Report::Advised(advised)),
                Action::Read { position, len } => {
                    &&& answers(state, Report::Chunk(None))
                    &&& forall|data: Vec<u8>|
                        data@.len() == len && position + len <= u64::MAX ==> #[trigger] answers(
                            state,
                            Report::Chunk(Some(data)),
                        )
                },
                Action::Send(_) | Action::Resend => forall|sent: bool| #[trigger]
                    answers(state, Report::Sent(sent)),
                Action::End(_) => state is Ended,
                Action::FindClient => false,
            }
        }),
    decreases moves.len(),
{
    if moves.len() > 0 {
        law_every_result_can_be_reported(begin, moves.drop_last(), event);
    }
}

/// A part holds at most a kibibyte, and a tenth of a second passes before it is sent
/// again.
pub proof fn law_limits_of_a_part()
    ensures
        CHUNK_SIZE == 1024,
        RESEND_PAUSE_MILLIS == 100,
{
}

/// The names of a path are its names, all of them and in order.
pub proof fn law_names_are_kept(path: Vec<Vec<u8>>)
    ensures
        names(path).len() == path@.len(),
        forall|k: int| 0 <= k < path@.len() ==> (#[trigger] names(path)[k]) == path@[k]@,
{
}

} // verus!
