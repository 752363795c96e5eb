//! State shown to the user: connection and poller status, received messages,
//! and the error kinds that reach the user.
use vstd::prelude::*;
use vstd::string::*;
use crate::markdown::{blocks_view, BlockView};
use crate::messages::{
    format_message, format_time_short, message_blocks, message_preview, preview_of, sender_of,
    time_short, ReceiptMessage,
};
use crate::scheduler::{dispatch_spec, finish_spec, Dispatch, PrintJob, PrintScheduler};

verus! {

#[derive(Debug, Clone, PartialEq, Eq)]
pub enum ConnectionStatus {
    Disconnected,
    Scanning,
    Connected { model: String, serial: Option<String> },
    Error(String),
}

#[derive(Debug, Clone, PartialEq, Eq)]
pub enum PollerStatus {
    Disabled,
    Connecting,
    Polling,
    Error(String),
}

#[derive(Debug, Clone, PartialEq, Eq)]
pub enum MessagePrintStatus {
    Printing,
    Printed,
    Failed(String),
}

/// A message as listed on screen.
#[derive(Debug, Clone)]
pub struct ReceivedMessage {
    pub id: i64,
    pub sender: String,
    pub content_preview: String,
    pub content_full: String,
    pub time: String,
    pub image_bytes: Option<Vec<u8>>,
    pub status: MessagePrintStatus,
}

/// How many received messages are kept on screen.
pub const MAX_LISTED: usize = 50;

pub open spec fn listed_ids(l: Seq<ReceivedMessage>) -> Seq<i64> {
    l.map_values(|m: ReceivedMessage| m.id)
}

/// Lists a newly received message, unless one with its id is listed already
/// (the same message can arrive again before it is marked printed). The list
/// keeps the most recent 50. Returns whether the message was new.
pub fn record_received(list: &mut Vec<ReceivedMessage>, msg: &ReceiptMessage) -> (r: bool)
    requires
        old(list)@.len() <= MAX_LISTED,
    ensures
        r == !listed_ids(old(list)@).contains(msg.id),
        !r ==> final(list)@ == old(list)@,
        r ==> {
            let grown = listed_ids(old(list)@).push(msg.id);
            listed_ids(final(list)@) == if grown.len() > MAX_LISTED {
                grown.drop_first()
            } else {
                grown
            }
        },
        r ==> final(list)@.last().sender@ == sender_of(*msg) && final(list)@.last().content_preview@
            == preview_of(msg.content@) && final(list)@.last().time@ == time_short(msg.created_at@)
            && final(list)@.last().status == MessagePrintStatus::Printing,
        final(list)@.len() <= MAX_LISTED,
{
    let mut i: usize = 0;
    while i < list.len()
        invariant
            i <= list@.len(),
            list@ == old(list)@,
            list@.len() <= MAX_LISTED,
            forall|k: int| 0 <= k < i ==> (#[trigger] list@[k]).id != msg.id,
        decreases list.len() - i,
    {
        if list[i].id == msg.id {
            assert(listed_ids(list@)[i as int] == msg.id);
            return false;
        }
        i = i + 1;
    }
    assert(!listed_ids(list@).contains(msg.id)) by {
        if listed_ids(list@).contains(msg.id) {
            let k = choose|k: int| 0 <= k < listed_ids(list@).len() && listed_ids(list@)[k] == msg.id;
            assert(list@[k].id == msg.id);
        }
    }
    let sender = match &msg.sender_name {
        Some(n) => n.clone(),
        None => match &msg.sender_ip {
            Some(ip) => ip.clone(),
            None => String::from_str("anonymous"),
        },
    };
    let entry = ReceivedMessage {
        id: msg.id,
        sender,
        content_preview: message_preview(msg.content.as_str()),
        content_full: msg.content.clone(),
        time: format_time_short(msg.created_at.as_str()),
        image_bytes: None,
        status: MessagePrintStatus::Printing,
    };
    let ghost before = listed_ids(list@);
    list.push(entry);
    assert(listed_ids(list@) =~= before.push(msg.id));
    if list.len() > MAX_LISTED {
        let ghost grown = list@;
        list.remove(0);
        assert(list@ =~= grown.drop_first());
        assert(listed_ids(list@) =~= before.push(msg.id).drop_first());
    }
    true
}

/// The error kinds that reach the user.
#[derive(Debug, Clone)]
pub enum AppError {
    NoPrinterFound,
    Usb(String),
    Printer(String),
    PrinterOffline,
    PaperOut,
    CoverOpen,
    Platform(String),
    PermissionDenied(String),
}

pub open spec fn error_text(e: AppError) -> Seq<char> {
    match e {
        AppError::NoPrinterFound => "No Epson printer found on USB"@,
        AppError::Usb(s) => "USB error: "@ + s@,
        AppError::Printer(s) => "Printer error: "@ + s@,
        AppError::PrinterOffline => "Printer offline"@,
        AppError::PaperOut => "Paper out"@,
        AppError::CoverOpen => "Cover open"@,
        AppError::Platform(s) => "Platform error: "@ + s@,
        AppError::PermissionDenied(s) => "Permission denied: "@ + s@,
    }
}

impl AppError {
    /// The readable text of the error.
    pub fn message(&self) -> (r: String)
        ensures
            r@ == error_text(*self),
    {
        let (head, detail): (&str, Option<&String>) = match self {
            AppError::NoPrinterFound => ("No Epson printer found on USB", None),
            AppError::Usb(s) => ("USB error: ", Some(s)),
            AppError::Printer(s) => ("Printer error: ", Some(s)),
            AppError::PrinterOffline => ("Printer offline", None),
            AppError::PaperOut => ("Paper out", None),
            AppError::CoverOpen => ("Cover open", None),
            AppError::Platform(s) => ("Platform error: ", Some(s)),
            AppError::PermissionDenied(s) => ("Permission denied: ", Some(s)),
        };
        let mut r = String::from_str(head);
        match detail {
            Some(d) => r.append(d.as_str()),
            None => {},
        }
        r
    }
}


// ---------------------------------------------------------------------------
// Received messages and their print jobs
/// What a queued job holds: its id, its blocks, and whether its image arrived.
pub struct JobView {
    pub id: i64,
    pub blocks: Seq<BlockView>,
    pub has_image: bool,
}

pub open spec fn job_view(j: PrintJob) -> JobView {
    JobView { id: j.id, blocks: blocks_view(j.blocks@), has_image: j.image is Some }
}

pub open spec fn jobs_view(q: Seq<PrintJob>) -> Seq<JobView> {
    q.map_values(|j: PrintJob| job_view(j))
}

/// The job a new message queues: its receipt layout, no image yet.
pub open spec fn queued_for(m: ReceiptMessage) -> JobView {
    JobView { id: m.id, blocks: message_blocks(m), has_image: false }
}

/// The listed ids after one more, keeping the most recent 50.
pub open spec fn capped(ids: Seq<i64>) -> Seq<i64> {
    if ids.len() > MAX_LISTED {
        ids.drop_first()
    } else {
        ids
    }
}

/// The listed ids and the new messages, after a batch is taken in order: a
/// message whose id is listed is a repeat and is skipped.
pub struct Intake {
    pub listed: Seq<i64>,
    pub new: Seq<ReceiptMessage>,
}

pub open spec fn intake(listed: Seq<i64>, msgs: Seq<ReceiptMessage>) -> Intake
    decreases msgs.len(),
{
    if msgs.len() == 0 {
        Intake { listed, new: Seq::empty() }
    } else {
        let p = intake(listed, msgs.drop_last());
        let m = msgs.last();
        if p.listed.contains(m.id) {
            p
        } else {
            Intake { listed: capped(p.listed.push(m.id)), new: p.new.push(m) }
        }
    }
}

pub open spec fn any_without_image(ms: Seq<ReceiptMessage>) -> bool {
    exists|k: int| 0 <= k < ms.len() && (#[trigger] ms[k]).image_url is None
}

/// Takes a batch of received messages: each new one is listed and queues one
/// job with its receipt layout and no image; repeats queue nothing. If a new
/// message has no image to wait for and no job is in flight, the backlog's
/// head is dispatched (or fails at once when no printer is selected).
pub fn receive_messages(
    list: &mut Vec<ReceivedMessage>,
    sched: &mut PrintScheduler,
    msgs: &Vec<ReceiptMessage>,
    printer_available: bool,
) -> (r: Dispatch)
    requires
        old(list)@.len() <= MAX_LISTED,
    ensures
        ({
            let i = intake(listed_ids(old(list)@), msgs@);
            let all = jobs_view(old(sched).queue@) + i.new.map_values(|m: ReceiptMessage| queued_for(m));
            let wake = !old(sched).printing && any_without_image(i.new);
            &&& listed_ids(final(list)@) == i.listed
            &&& final(list)@.len() <= MAX_LISTED
            &&& !wake ==> r is Idle && jobs_view(final(sched).queue@) == all && final(sched).printing
                == old(sched).printing
            &&& wake && printer_available ==> (r matches Dispatch::Start(j) && job_view(j) == all[0])
                && jobs_view(final(sched).queue@) == all.drop_first() && final(sched).printing
            &&& wake && !printer_available ==> r == Dispatch::NoPrinter(all[0].id) && jobs_view(
                final(sched).queue@,
            ) == all.drop_first() && !final(sched).printing
        }),
{
    let ghost old_jobs = jobs_view(sched.queue@);
    let ghost listed0 = listed_ids(list@);
    let mut wake = false;
    let mut i: usize = 0;
    assert(msgs@.subrange(0, 0) =~= Seq::<ReceiptMessage>::empty());
    while i < msgs.len()
        invariant
            i <= msgs@.len(),
            list@.len() <= MAX_LISTED,
            sched.printing == old(sched).printing,
            ({
                let it = intake(listed0, msgs@.subrange(0, i as int));
                &&& listed_ids(list@) == it.listed
                &&& jobs_view(sched.queue@) == old_jobs + it.new.map_values(
                    |m: ReceiptMessage| queued_for(m),
                )
                &&& wake == any_without_image(it.new)
            }),
        decreases msgs.len() - i,
    {
        let m = &msgs[i];
        let ghost pre = intake(listed0, msgs@.subrange(0, i as int));
        assert(msgs@.subrange(0, i + 1).drop_last() =~= msgs@.subrange(0, i as int));
        assert(msgs@.subrange(0, i + 1).last() == *m);
        let ghost q0 = sched.queue@;
        if record_received(list, m) {
            let blocks = format_message(m);
            let job = PrintJob { id: m.id, blocks, image: None };
            assert(job_view(job) == queued_for(*m));
            sched.submit(job);
            assert(jobs_view(sched.queue@) =~= jobs_view(q0).push(job_view(job)));
            let ghost nw = pre.new.push(*m);
            assert(nw.map_values(|x: ReceiptMessage| queued_for(x)) =~= pre.new.map_values(
                |x: ReceiptMessage| queued_for(x),
            ).push(queued_for(*m)));
            if m.image_url.is_none() {
                wake = true;
                assert(nw[nw.len() - 1] == *m);
            }
            proof {
                if any_without_image(nw) != (any_without_image(pre.new) || m.image_url is None) {
                    if any_without_image(nw) {
                        let k = choose|k: int| 0 <= k < nw.len() && (#[trigger] nw[k]).image_url is None;
                        if k < pre.new.len() {
                            assert(nw[k] == pre.new[k]);
                        }
                    } else if any_without_image(pre.new) {
                        let k = choose|k: int| 0 <= k < pre.new.len() && (#[trigger] pre.new[k]).image_url is None;
                        assert(nw[k] == pre.new[k]);
                    }
                }
            }
        }
        i = i + 1;
    }
    assert(msgs@.subrange(0, msgs@.len() as int) =~= msgs@);
    if wake && !sched.printing {
        let ghost q = sched.queue@;
        let r = sched.try_dispatch(printer_available);
        assert(jobs_view(q.drop_first()) =~= jobs_view(q).drop_first());
        r
    } else {
        Dispatch::Idle
    }
}

/// The status a finished job gives its listed message.
pub open spec fn status_after(result: Result<(), String>) -> MessagePrintStatus {
    match result {
        Ok(_) => MessagePrintStatus::Printed,
        Err(e) => MessagePrintStatus::Failed(e),
    }
}

pub open spec fn with_status(m: ReceivedMessage, s: MessagePrintStatus) -> ReceivedMessage {
    ReceivedMessage {
        id: m.id,
        sender: m.sender,
        content_preview: m.content_preview,
        content_full: m.content_full,
        time: m.time,
        image_bytes: m.image_bytes,
        status: s,
    }
}

/// Records a finished job on the first listed message with its id: Printed
/// (and one more in the printed count, saturating) or Failed with the error.
/// Returns whether such a message is listed.
pub fn record_print_result(
    list: &mut Vec<ReceivedMessage>,
    printed_count: &mut u32,
    id: i64,
    result: &Result<(), String>,
) -> (r: bool)
    ensures
        r == listed_ids(old(list)@).contains(id),
        !r ==> final(list)@ == old(list)@,
        r ==> exists|k: int|
            0 <= k < old(list)@.len() && (#[trigger] old(list)@[k]).id == id && (forall|j: int|
                0 <= j < k ==> (#[trigger] old(list)@[j]).id != id) && final(list)@ == old(
                list,
            )@.update(k, with_status(old(list)@[k], status_after(*result))),
        *final(printed_count) == if r && result is Ok && *old(printed_count) < u32::MAX {
            (*old(printed_count) + 1) as u32
        } else {
            *old(printed_count)
        },
{
    let mut i: usize = 0;
    while i < list.len()
        invariant
            i <= list@.len(),
            list@ == old(list)@,
            *printed_count == *old(printed_count),
            forall|j: int| 0 <= j < i ==> (#[trigger] list@[j]).id != id,
        decreases list.len() - i,
    {
        if list[i].id == id {
            let status = match result {
                Ok(()) => MessagePrintStatus::Printed,
                Err(e) => MessagePrintStatus::Failed(e.clone()),
            };
            let ok = result.is_ok();
            let mut m = list.remove(i);
            let ghost before = m;
            m.status = status;
            list.insert(i, m);
            assert(m == with_status(before, status_after(*result)));
            assert(list@ =~= old(list)@.update(i as int, m));
            assert(listed_ids(old(list)@)[i as int] == id);
            if ok && *printed_count < u32::MAX {
                *printed_count = *printed_count + 1;
            }
            return true;
        }
        i = i + 1;
    }
    assert(!listed_ids(list@).contains(id)) by {
        if listed_ids(list@).contains(id) {
            let k = choose|k: int| 0 <= k < listed_ids(list@).len() && listed_ids(list@)[k] == id;
            assert(list@[k].id == id);
        }
    }
    false
}

/// A job has finished: its result goes on its listed message, no job is in
/// flight any more, and the backlog's head is dispatched.
pub fn finish_job(
    list: &mut Vec<ReceivedMessage>,
    printed_count: &mut u32,
    sched: &mut PrintScheduler,
    id: i64,
    result: &Result<(), String>,
    printer_available: bool,
) -> (r: Dispatch)
    ensures
        listed_ids(old(list)@).contains(id) ==> exists|k: int|
            0 <= k < old(list)@.len() && (#[trigger] old(list)@[k]).id == id && final(list)@ == old(
                list,
            )@.update(k, with_status(old(list)@[k], status_after(*result))),
        !listed_ids(old(list)@).contains(id) ==> final(list)@ == old(list)@,
        final(sched)@ == dispatch_spec(finish_spec(old(sched)@), printer_available).0,
        old(sched).queue@.len() == 0 ==> r is Idle && !final(sched).printing,
        old(sched).queue@.len() > 0 && printer_available ==> r == Dispatch::Start(
            old(sched).queue@[0],
        ) && final(sched).queue@ == old(sched).queue@.drop_first() && final(sched).printing,
        old(sched).queue@.len() > 0 && !printer_available ==> r == Dispatch::NoPrinter(
            old(sched).queue@[0].id,
        ) && final(sched).queue@ == old(sched).queue@.drop_first() && !final(sched).printing,
{
    record_print_result(list, printed_count, id, result);
    sched.finish();
    sched.try_dispatch(printer_available)
}
} // verus!
