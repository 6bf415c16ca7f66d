//! What the downloading and the serving side achieve together.
use crate::client::{
    advanced, asks, begun, brings, complete, delivered, file_after, genuine,
    law_delivered_download_ends, law_finished_download_is_the_file,
    law_request_asks_for_missing_bytes, ran, wanted, DownloadState, Outcome, Reply,
    MAX_REQUEST_RANGES, REQUEST_WINDOW,
};
use crate::progress::invert::{gaps, law_gaps_of_ordered_list};
use crate::progress::merge::{law_merge_covers_both, merged};
use crate::progress::{covered, lemma_covered_by_front_or_last, ordered, within, ProgressEntry};
use crate::server::{
    chunk_len, chunks, is_part, law_range_in_file_is_sent_whole, past_chunk, transfer_of, Transfer,
};
use crate::server::run::{
    happened, law_file_request_is_sent_its_range, law_metadata_request_step_by_step,
    law_sent_parts_hold_the_content, parts, reads_content, Move,
};
use crate::server::{Action, Report, RequestView, State};
use crate::{Event, FilePart, FileRequest, RangesRequest};
use vstd::prelude::*;

verus! {

/// A part that is sent holds the bytes of the file from its start on, if those
/// were read.
pub proof fn law_sent_part_is_genuine(
    part: FilePart,
    transfer: Transfer,
    data: Seq<u8>,
    content: Seq<u8>,
)
    requires
        transfer.position + chunk_len(transfer) <= content.len(),
        data == content.subrange(
            transfer.position as int,
            transfer.position + chunk_len(transfer),
        ),
        is_part(part, transfer, data),
    ensures
        genuine(part, content),
{
}

/// A progress list to which `ranges` were added in turn.
pub open spec fn merged_all(
    entries: Seq<ProgressEntry>,
    ranges: Seq<ProgressEntry>,
) -> Seq<ProgressEntry>
    decreases ranges.len(),
{
    if ranges.len() == 0 {
        entries
    } else {
        merged_all(merged(entries, ranges[0]), ranges.drop_first())
    }
}

/// Once all parts of a transfer have arrived, its bytes are covered besides those
/// that were, and no others.
pub proof fn law_sent_range_arrives(entries: Seq<ProgressEntry>, transfer: Transfer)
    requires
        ordered(entries),
        transfer.position + transfer.remaining <= u64::MAX,
    ensures
        ordered(merged_all(entries, chunks(transfer))),
        forall|b: int| #[trigger]
            covered(merged_all(entries, chunks(transfer)), b) <==> covered(entries, b)
                || transfer.position <= b < transfer.position + transfer.remaining,
    decreases transfer.remaining,
{
    if transfer.remaining > 0 {
        let first = chunks(transfer)[0];
        let rest = past_chunk(transfer);
        assert(chunks(transfer).drop_first() =~= chunks(rest));
        law_merge_covers_both(entries, first);
        law_sent_range_arrives(merged(entries, first), rest);
        assert forall|b: int| #[trigger]
            covered(merged_all(entries, chunks(transfer)), b) <==> covered(entries, b)
                || transfer.position <= b < transfer.position + transfer.remaining by {
            assert(covered(merged(entries, first), b) <==> covered(entries, b) || within(first, b));
        }
    }
}

/// A progress list to which all parts were added that are sent for `requests`, of
/// a file of `len` bytes.
pub open spec fn served_all(
    entries: Seq<ProgressEntry>,
    requests: Seq<FileRequest>,
    len: u64,
) -> Seq<ProgressEntry>
    decreases requests.len(),
{
    if requests.len() == 0 {
        entries
    } else {
        merged_all(
            served_all(entries, requests.drop_last(), len),
            chunks(transfer_of(requests.last(), len)),
        )
    }
}

/// Whether `requests` ask for `ranges`, one for one.
pub open spec fn ask_for(requests: Seq<FileRequest>, ranges: Seq<ProgressEntry>) -> bool {
    &&& requests.len() == ranges.len()
    &&& forall|k: int|
        0 <= k < ranges.len() ==> (#[trigger] requests[k]).start == ranges[k].start
            && requests[k].end == ranges[k].end
}

/// What is sent for ranges that lie in the file comes to be covered, besides what
/// was, and nothing else.
pub proof fn law_served_ranges_arrive(
    entries: Seq<ProgressEntry>,
    requests: Seq<FileRequest>,
    ranges: Seq<ProgressEntry>,
    len: u64,
)
    requires
        ordered(entries),
        ask_for(requests, ranges),
        forall|k: int|
            0 <= k < ranges.len() ==> (#[trigger] ranges[k]).start <= ranges[k].end <= len,
    ensures
        ordered(served_all(entries, requests, len)),
        forall|b: int| #[trigger]
            covered(served_all(entries, requests, len), b) <==> covered(entries, b) || covered(
                ranges,
                b,
            ),
    decreases requests.len(),
{
    if requests.len() > 0 {
        let last = requests.len() - 1;
        let front = requests.drop_last();
        let front_ranges = ranges.drop_last();
        assert forall|k: int| 0 <= k < front_ranges.len() implies (#[trigger] front[k]).start
            == front_ranges[k].start && front[k].end == front_ranges[k].end by {
            assert(front[k] == requests[k]);
        }
        assert forall|k: int| 0 <= k < front_ranges.len() implies (#[trigger] front_ranges[k]).start
            <= front_ranges[k].end <= len by {
            assert(front_ranges[k] == ranges[k]);
        }
        law_served_ranges_arrive(entries, front, front_ranges, len);
        assert(requests[last].start == ranges[last].start);
        let before = served_all(entries, front, len);
        let transfer = transfer_of(requests.last(), len);
        law_range_in_file_is_sent_whole(requests.last(), len);
        law_sent_range_arrives(before, transfer);
        assert forall|b: int| #[trigger]
            covered(served_all(entries, requests, len), b) <==> covered(entries, b) || covered(
                ranges,
                b,
            ) by {
            lemma_covered_by_front_or_last(ranges, b);
            assert(covered(before, b) <==> covered(entries, b) || covered(front_ranges, b));
        }
    }
}

/// One round without loss fills what it asked for: when all parts have arrived
/// that are sent for the ranges that a download wants, those ranges are covered.
/// If they were all the gaps there are, the download is complete.
pub proof fn law_lossless_round_fills_the_gaps(state: DownloadState, requests: Seq<FileRequest>)
    requires
        ordered(state.progress),
        forall|i: int|
            0 <= i < state.progress.len() ==> (#[trigger] state.progress[i]).end <= state.size,
        ask_for(requests, wanted(state)),
    ensures
        ({
            let arrived = served_all(state.progress, requests, state.size);
            &&& ordered(arrived)
            &&& forall|b: int| #[trigger]
                covered(arrived, b) <==> covered(state.progress, b) || covered(wanted(state), b)
            &&& gaps(state.progress, 0, state.size, REQUEST_WINDOW).len() <= MAX_REQUEST_RANGES
                ==> complete((DownloadState { progress: arrived, ..state }))
        }),
{
    let all = gaps(state.progress, 0, state.size, REQUEST_WINDOW);
    law_gaps_of_ordered_list(state.progress, state.size, REQUEST_WINDOW);
    law_request_asks_for_missing_bytes(state);
    assert forall|k: int| 0 <= k < wanted(state).len() implies (#[trigger] wanted(state)[k]).start
        <= wanted(state)[k].end <= state.size by {
        assert(wanted(state)[k] == all[k]);
    }
    law_served_ranges_arrive(state.progress, requests, wanted(state), state.size);
    if all.len() <= MAX_REQUEST_RANGES {
        let arrived = served_all(state.progress, requests, state.size);
        assert forall|b: int| 0 <= b < state.size implies #[trigger] covered(arrived, b) by {
            if !covered(state.progress, b) {
                assert(covered(wanted(state), b));
            }
        }
    }
}

/// The size that a download is begun with is the length of what is served: a request
/// for metadata that finds a file of the length of `content` is answered with that
/// length, and the download that is begun with the answer is one of that many bytes.
pub proof fn law_announced_size_is_the_length(
    root: Seq<Seq<u8>>,
    asked: String,
    moves: Seq<Move>,
    content: Seq<u8>,
    file_id: u64,
)
    requires
        happened(
            (RequestView { root, state: State::Received(Event::Metadata(asked)) }),
            moves,
        ),
        moves.len() > 0,
        moves.last().report matches Report::Stat(Some(stat)) && stat.is_file && stat.len
            == content.len(),
    ensures
        moves.last().action matches Action::Send(Event::AckMetadata(announced)) && {
            &&& announced.size == content.len()
            &&& begun(asked@, announced.size, file_id).size == content.len()
            &&& begun(asked@, announced.size, file_id).path == asked@
            &&& forall|event: Event, action_id: u64| #[trigger]
                asks(event, begun(asked@, announced.size, file_id), action_id) && content.len() > 0
                    ==> (event matches Event::Ranges(request) && request.ranges@ == seq![
                    (0u64, announced.size),
                ])
        },
{
    law_metadata_request_step_by_step(root, asked, moves, Set::empty());
    let size = content.len() as u64;
    assert(gaps(Seq::empty(), 0, size, REQUEST_WINDOW).len() == if size == 0 {
        0int
    } else {
        1int
    });
}

/// A byte between the first and the last of consecutive parts lies in one of them.
proof fn lemma_byte_in_a_part(sent: Seq<FilePart>, b: int) -> (k: int)
    requires
        sent.len() > 0,
        sent[0].start <= b < sent.last().start + sent.last().data@.len(),
        forall|k: int, m: int|
            0 <= k && m == k + 1 && m < sent.len() ==> (#[trigger] sent[k]).start
                + sent[k].data@.len() == (#[trigger] sent[m]).start,
    ensures
        0 <= k < sent.len(),
        sent[k].start <= b < sent[k].start + sent[k].data@.len(),
    decreases sent.len(),
{
    if sent.last().start <= b {
        sent.len() - 1
    } else {
        let front = sent.drop_last();
        assert(sent.len() > 1);
        assert(front.last() == sent[sent.len() - 2]);
        assert(sent[sent.len() - 2].start + sent[sent.len() - 2].data@.len() == sent[sent.len()
            - 1].start);
        assert forall|k: int, m: int| 0 <= k && m == k + 1 && m < front.len() implies (
        #[trigger] front[k]).start + front[k].data@.len() == (#[trigger] front[m]).start by {
            assert(front[k] == sent[k] && front[m] == sent[m]);
        }
        lemma_byte_in_a_part(front, b)
    }
}

/// A download without loss has the file after one round: begun with the length of
/// the content, its first request is served as one request for a range, and if what
/// is read is the content, and the parts that are to be sent arrive in turn, followed
/// by the announcement of the end, then the download is over and the file that was
/// written is the content, whatever it held before.
pub proof fn law_download_without_loss_is_the_file(
    path: Seq<char>,
    content: Seq<u8>,
    old_file: Seq<u8>,
    request: RangesRequest,
    action_id: u64,
    root: Seq<Seq<u8>>,
    file: FileRequest,
    moves: Seq<Move>,
)
    requires
        0 < content.len() <= u64::MAX,
        old_file.len() == content.len(),
        asks(
            Event::Ranges(request),
            begun(path, content.len() as u64, request.file_id),
            action_id,
        ),
        file.start == request.ranges@[0].0,
        file.end == request.ranges@[0].1,
        file.fid == request.file_id,
        happened(
            (RequestView { root, state: State::Received(Event::File(file)) }),
            moves,
        ),
        moves.len() > 2,
        moves.last().action == Action::End(Ok(())),
        moves[2].report matches Report::Stat(Some(stat)) && stat.len == content.len(),
        reads_content(moves, content),
    ensures
        ({
            let begin = begun(path, content.len() as u64, request.file_id);
            let outcomes = Seq::new(
                parts(moves).len(),
                |k: int| Outcome::Received(Reply::Message(Event::AckFile(parts(moves)[k]))),
            ).push(Outcome::Received(Reply::Message(Event::FileEnd(request.file_id))));
            &&& ran(begin, outcomes).phase is Finished
            &&& file_after(begin, old_file, outcomes) == content
        }),
{
    let id = request.file_id;
    let size = content.len() as u64;
    let begin = begun(path, size, id);
    let sent = parts(moves);
    let came = Seq::new(
        sent.len(),
        |k: int| Outcome::Received(Reply::Message(Event::AckFile(sent[k]))),
    );
    let last = Outcome::Received(Reply::Message(Event::FileEnd(id)));
    let outcomes = came.push(last);
    assert(gaps(Seq::empty(), 0, size, REQUEST_WINDOW).len() == 1);
    assert(request.ranges@[0] == (0u64, size));
    law_file_request_is_sent_its_range(root, file, moves);
    law_sent_parts_hold_the_content(root, file, moves, content);
    assert forall|b: int| 0 <= b < content.len() implies #[trigger] delivered(came, id, b) by {
        let k = lemma_byte_in_a_part(sent, b);
        assert(brings(came[k], id, b));
    }
    assert forall|k: int| 0 <= k < sent.len() implies genuine(#[trigger] sent[k], content) by {
        assert(parts(moves)[k] == sent[k]);
    }
    law_delivered_download_ends(path, id, content, came, last);
    assert(outcomes.drop_last() =~= came);
    assert(ran(begin, outcomes) == advanced(ran(begin, came), last));
    law_finished_download_is_the_file(path, id, content, old_file, outcomes);
    assert(outcomes =~= Seq::new(
        parts(moves).len(),
        |k: int| Outcome::Received(Reply::Message(Event::AckFile(parts(moves)[k]))),
    ).push(last));
}

} // verus!
