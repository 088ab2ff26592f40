use vstd::prelude::*;

verus! {

/// Minimum gap, in milliseconds, between two empty pose reports of a camera.
pub open spec fn empty_report_gap() -> u64 {
    5
}

/// Decide whether a frame without detections, seen at `now_ms`, is reported: it is when
/// nothing has been reported yet, or when more than 5 ms passed since the last empty report.
/// Returns the decision and the time of the last empty report afterwards.
pub fn empty_frame_step(last_time: Option<u64>, now_ms: u64) -> (r: (bool, Option<u64>))
    requires
        last_time matches Some(t) ==> t <= now_ms,
    ensures
        r.0 == (last_time is None || now_ms - last_time->0 > empty_report_gap()),
        r.1 == if r.0 {
            Some(now_ms)
        } else {
            last_time
        },
{
    let report = match last_time {
        None => true,
        Some(t) => now_ms - t > 5,
    };
    if report {
        (true, Some(now_ms))
    } else {
        (false, last_time)
    }
}

/// Number of detections as reported on the wire, saturating at 255.
pub fn tag_count(detections: usize) -> (n: u8)
    ensures
        n == if detections <= u8::MAX {
            detections
        } else {
            u8::MAX as usize
        },
{
    if detections <= 255 {
        detections as u8
    } else {
        255
    }
}

/// What publishing a pose for a camera does.
#[derive(Clone, Copy, PartialEq, Eq, Debug, Structural)]
pub enum CommAction {
    /// Send the pose through the camera's client.
    Send,
    /// The camera has no client yet: create and register one (nothing is sent).
    Register,
    /// The client table is busy: do nothing.
    Skip,
}

/// Decide what publishing does, given whether the client table could be read without
/// waiting and whether it holds a client for the camera.
pub fn comm_step(read_locked: bool, has_client: bool) -> (a: CommAction)
    ensures
        a == if !read_locked {
            CommAction::Skip
        } else if has_client {
            CommAction::Send
        } else {
            CommAction::Register
        },
{
    let mut has_init = true;
    let mut send = false;
    if read_locked {
        if has_client {
            send = true;
        } else {
            has_init = false;
        }
    }
    if !has_init {
        CommAction::Register
    } else if send {
        CommAction::Send
    } else {
        CommAction::Skip
    }
}

/// Indices of the detections that feed the pose solver, among the first `n`: those of a tag
/// present in the field layout whose four corners could all be unprojected.
pub open spec fn usable_upto(known: Seq<bool>, unprojected: Seq<usize>, n: int) -> Seq<usize>
    decreases n,
{
    if n <= 0 {
        seq![]
    } else {
        let prev = usable_upto(known, unprojected, n - 1);
        if known[n - 1] && unprojected[n - 1] == 4 {
            prev.push((n - 1) as usize)
        } else {
            prev
        }
    }
}

/// Pick the detections whose tag is in the field layout (`known`) and whose corners all
/// unprojected (`unprojected` counts them), in detection order.
pub fn usable_detections(known: &[bool], unprojected: &[usize]) -> (idx: Vec<usize>)
    requires
        known.len() == unprojected.len(),
    ensures
        idx@ == usable_upto(known@, unprojected@, known.len() as int),
{
    let mut idx: Vec<usize> = Vec::new();
    let mut i: usize = 0;
    while i < known.len()
        invariant
            i <= known.len(),
            known.len() == unprojected.len(),
            idx@ == usable_upto(known@, unprojected@, i as int),
        decreases known.len() - i,
    {
        if known[i] && unprojected[i] == 4 {
            idx.push(i);
        }
        i = i + 1;
    }
    idx
}

/// What the AprilTag task does with one input message.
#[derive(Clone, Copy, PartialEq, Eq, Debug, Structural)]
pub enum AprilAction {
    /// The message has no time stamp or no image: nothing to do.
    Idle,
    /// Solve the robot pose from the detections and, when a pose is found, publish it with
    /// this tag count and frame age in microseconds.
    Solve { tag_count: u8, age_us: u64 },
    /// Publish an empty report (no tags) with this frame age in microseconds.
    ReportEmpty { age_us: u64 },
    /// A frame without detections too soon after the last empty report: publish nothing.
    Skip,
}

/// Decide what the AprilTag task does with a message: its time stamp `time_us` (if it has
/// one), whether it carries an image, how many tags were detected in it, the time of the
/// last empty report, and the clock now in milliseconds and microseconds. Returns the action
/// and the time of the last empty report afterwards.
pub fn april_step(
    time_us: Option<u64>,
    has_payload: bool,
    detections: usize,
    last_time: Option<u64>,
    now_ms: u64,
    now_us: u64,
) -> (r: (AprilAction, Option<u64>))
    requires
        has_payload && time_us is Some ==> time_us->0 <= now_us,
        has_payload && time_us is Some && detections == 0 && last_time is Some ==> last_time->0
            <= now_ms,
    ensures
        time_us is None || !has_payload ==> r == (AprilAction::Idle, last_time),
        has_payload && time_us is Some && detections > 0 ==> r == (
            AprilAction::Solve {
                tag_count: if detections <= u8::MAX {
                    detections as u8
                } else {
                    u8::MAX
                },
                age_us: (now_us - time_us->0) as u64,
            },
            last_time,
        ),
        has_payload && time_us is Some && detections == 0 ==> {
            let report = last_time is None || now_ms - last_time->0 > empty_report_gap();
            r == (
                if report {
                    AprilAction::ReportEmpty { age_us: (now_us - time_us->0) as u64 }
                } else {
                    AprilAction::Skip
                },
                if report {
                    Some(now_ms)
                } else {
                    last_time
                },
            )
        },
{
    let t = match time_us {
        None => {
            return (AprilAction::Idle, last_time);
        },
        Some(t) => t,
    };
    if !has_payload {
        return (AprilAction::Idle, last_time);
    }
    if detections > 0 {
        let tags = tag_count(detections);
        (AprilAction::Solve { tag_count: tags, age_us: now_us - t }, last_time)
    } else {
        let age = now_us - t;
        let (report, next) = empty_frame_step(last_time, now_ms);
        if report {
            (AprilAction::ReportEmpty { age_us: age }, next)
        } else {
            (AprilAction::Skip, next)
        }
    }
}

} // verus!
