//! The load generator: which runs a benchmark is made of, what each client does in a run, and
//! what is made of the results.
use vstd::multiset::Multiset;
use vstd::pervasive::unreached;
use vstd::prelude::*;
use vstd::string::StringExecFns;

use crate::histogram::{
    add_values, buckets, histogram_buckets, new_histogram, precision, record_value, recorded, top,
    Samples,
};
use crate::proto::{Insert, Range};
use crate::text::{
    cat, cat_text, decimal, decimal_text, joined, join_texts, run_of, same_text, text, texts,
};

verus! {

/// What the clients of a run do.
#[derive(Debug, Clone, Copy, PartialEq, Eq, PartialOrd, Ord, Hash, Structural)]
pub enum WorkloadKind {
    /// Inserts alone.
    Write,
    /// Queries alone.
    Read,
    /// Inserts and queries, in a given proportion.
    Mixed,
    /// Inserts for the most part, and queries on recent records.
    Tail,
    /// As many inserts as queries.
    Bulk,
}

/// The place of a workload in the order of workloads.
pub open spec fn rank(w: WorkloadKind) -> int {
    match w {
        WorkloadKind::Write => 0,
        WorkloadKind::Read => 1,
        WorkloadKind::Mixed => 2,
        WorkloadKind::Tail => 3,
        WorkloadKind::Bulk => 4,
    }
}

/// The name of a workload.
pub open spec fn workload_name(w: WorkloadKind) -> Seq<char> {
    match w {
        WorkloadKind::Write => "write"@,
        WorkloadKind::Read => "read"@,
        WorkloadKind::Mixed => "mixed"@,
        WorkloadKind::Tail => "tail"@,
        WorkloadKind::Bulk => "bulk"@,
    }
}

/// The name of a workload in capitals.
pub open spec fn workload_capitals(w: WorkloadKind) -> Seq<char> {
    match w {
        WorkloadKind::Write => "WRITE"@,
        WorkloadKind::Read => "READ"@,
        WorkloadKind::Mixed => "MIXED"@,
        WorkloadKind::Tail => "TAIL"@,
        WorkloadKind::Bulk => "BULK"@,
    }
}

/// The name of a workload with a capital at its beginning.
pub open spec fn workload_title(w: WorkloadKind) -> Seq<char> {
    match w {
        WorkloadKind::Write => "Write"@,
        WorkloadKind::Read => "Read"@,
        WorkloadKind::Mixed => "Mixed"@,
        WorkloadKind::Tail => "Tail"@,
        WorkloadKind::Bulk => "Bulk"@,
    }
}

/// The workload of this name.
pub open spec fn workload_named(s: Seq<char>) -> Option<WorkloadKind> {
    if s == "write"@ {
        Some(WorkloadKind::Write)
    } else if s == "read"@ {
        Some(WorkloadKind::Read)
    } else if s == "mixed"@ {
        Some(WorkloadKind::Mixed)
    } else if s == "tail"@ {
        Some(WorkloadKind::Tail)
    } else if s == "bulk"@ {
        Some(WorkloadKind::Bulk)
    } else {
        None
    }
}

/// Every workload is found under its name.
pub proof fn law_workload_names(w: WorkloadKind)
    ensures
        workload_named(workload_name(w)) == Some(w),
{
    reveal_strlit("write");
    reveal_strlit("read");
    reveal_strlit("mixed");
    reveal_strlit("tail");
    reveal_strlit("bulk");
    assert("write"@[0] == 'w' && "read"@[0] == 'r' && "mixed"@[0] == 'm' && "tail"@[0] == 't'
        && "bulk"@[0] == 'b');
}

impl WorkloadKind {
    /// The place of the workload in the order of workloads.
    pub fn rank(&self) -> (n: u8)
        ensures
            n == rank(*self),
    {
        match self {
            WorkloadKind::Write => 0,
            WorkloadKind::Read => 1,
            WorkloadKind::Mixed => 2,
            WorkloadKind::Tail => 3,
            WorkloadKind::Bulk => 4,
        }
    }

    /// The name of the workload.
    pub fn name(&self) -> (s: &'static str)
        ensures
            s@ == workload_name(*self),
    {
        match self {
            WorkloadKind::Write => "write",
            WorkloadKind::Read => "read",
            WorkloadKind::Mixed => "mixed",
            WorkloadKind::Tail => "tail",
            WorkloadKind::Bulk => "bulk",
        }
    }

    /// The name of the workload in capitals.
    pub fn capitals(&self) -> (s: &'static str)
        ensures
            s@ == workload_capitals(*self),
    {
        match self {
            WorkloadKind::Write => "WRITE",
            WorkloadKind::Read => "READ",
            WorkloadKind::Mixed => "MIXED",
            WorkloadKind::Tail => "TAIL",
            WorkloadKind::Bulk => "BULK",
        }
    }

    /// The name of the workload with a capital at its beginning.
    pub fn title(&self) -> (s: &'static str)
        ensures
            s@ == workload_title(*self),
    {
        match self {
            WorkloadKind::Write => "Write",
            WorkloadKind::Read => "Read",
            WorkloadKind::Mixed => "Mixed",
            WorkloadKind::Tail => "Tail",
            WorkloadKind::Bulk => "Bulk",
        }
    }
}

/// Reads the name of a workload.
pub fn workload_parser(arg: &str) -> (r: Result<WorkloadKind, String>)
    ensures
        r is Ok <==> workload_named(arg@) is Some,
        r matches Ok(w) ==> workload_named(arg@) == Some(w),
        r matches Err(e) ==> e@
            == "unrecognised workload, expected: write, read, mixed, tail, or bulk"@,
{
    if same_text(arg, "write") {
        Ok(WorkloadKind::Write)
    } else if same_text(arg, "read") {
        Ok(WorkloadKind::Read)
    } else if same_text(arg, "mixed") {
        Ok(WorkloadKind::Mixed)
    } else if same_text(arg, "tail") {
        Ok(WorkloadKind::Tail)
    } else if same_text(arg, "bulk") {
        Ok(WorkloadKind::Bulk)
    } else {
        Err(text("unrecognised workload, expected: write, read, mixed, tail, or bulk"))
    }
}

/// Whether records are inserted before a run of the workload.
pub fn needs_prefill(workload: WorkloadKind) -> (r: bool)
    ensures
        r == !(workload is Write),
{
    match workload {
        WorkloadKind::Write => false,
        _ => true,
    }
}

/// Whether a client makes a query next, given how a coin fell that is weighted as the workload
/// asks.
pub fn wants_range(workload: WorkloadKind, coin: bool) -> (r: bool)
    ensures
        r == (workload is Read || (coin && !(workload is Write))),
{
    match workload {
        WorkloadKind::Write => false,
        WorkloadKind::Read => true,
        _ => coin,
    }
}

/// One run of a benchmark.
#[derive(Debug, Clone, Copy, PartialEq, Eq, Structural)]
pub struct RunPlan {
    pub run_id: usize,
    pub workload: WorkloadKind,
    pub concurrency: u32,
}

/// The numbers of clients from `from` to `max`: in steps of `step`, but from 1 on to 2.
pub open spec fn levels(from: int, max: u32, step: u32) -> Seq<u32>
    decreases
            (if from > max {
                0
            } else {
                max - from + 1
            }),
{
    if from > max || (from != 1 && step == 0) {
        Seq::empty()
    } else {
        seq![from as u32] + levels(
            if from == 1 {
                2
            } else {
                from + step
            },
            max,
            step,
        )
    }
}

/// The runs of a benchmark: for each workload one for each number of clients, numbered from
/// zero on.
pub open spec fn planned(workloads: Seq<WorkloadKind>, min: u32, max: u32, step: u32) -> Seq<RunPlan>
    decreases workloads.len(),
{
    if workloads.len() == 0 {
        Seq::empty()
    } else {
        let front = planned(workloads.drop_last(), min, max, step);
        let nums = levels(min as int, max, step);
        front + Seq::new(
            nums.len(),
            |i: int|
                RunPlan {
                    run_id: (front.len() + i) as usize,
                    workload: workloads.last(),
                    concurrency: nums[i],
                },
        )
    }
}

/// The numbers of clients from `min` to `max`.
pub fn concurrency_levels(min: u32, max: u32, step: u32) -> (v: Vec<u32>)
    requires
        step > 0 || min > max || (min == 1 && max == 1),
    ensures
        v@ == levels(min as int, max, step),
{
    let mut v: Vec<u32> = Vec::new();
    let mut c: u64 = min as u64;
    assert(v@ + levels(c as int, max, step) =~= levels(min as int, max, step));
    while c <= max as u64
        invariant
            step > 0 || c > max || (c == 1 && max == 1),
            v@ + levels(c as int, max, step) == levels(min as int, max, step),
            c <= 0x1_ffff_ffff,
        decreases 0x2_0000_0000 - c,
    {
        let ghost before = v@;
        let ghost here = c as int;
        v.push(c as u32);
        if c == 1 {
            c = 2;
        } else {
            c = c + step as u64;
        }
        assert(before + levels(here, max, step) =~= v@ + levels(c as int, max, step));
    }
    assert(v@ + Seq::<u32>::empty() =~= v@);
    v
}

/// The runs of a benchmark.
pub fn build_run_configs(workloads: &Vec<WorkloadKind>, min: u32, max: u32, step: u32) -> (v: Vec<
    RunPlan,
>)
    requires
        step > 0 || min > max || (min == 1 && max == 1),
    ensures
        v@ == planned(workloads@, min, max, step),
{
    let nums = concurrency_levels(min, max, step);
    let ghost all = levels(min as int, max, step);
    let mut v: Vec<RunPlan> = Vec::new();
    let mut i: usize = 0;
    assert(workloads@.take(0) =~= Seq::<WorkloadKind>::empty());
    assert(v@ =~= planned(workloads@.take(0), min, max, step));
    while i < workloads.len()
        invariant
            i <= workloads@.len(),
            nums@ == all,
            all == levels(min as int, max, step),
            v@ == planned(workloads@.take(i as int), min, max, step),
        decreases workloads@.len() - i,
    {
        let workload = workloads[i];
        let ghost front = v@;
        let mut j: usize = 0;
        assert(workloads@.take(i + 1).drop_last() =~= workloads@.take(i as int));
        assert(workloads@.take(i + 1).last() == workload);
        assert(v@ =~= front + Seq::new(
            0,
            |k: int|
                RunPlan {
                    run_id: (front.len() + k) as usize,
                    workload,
                    concurrency: all[k],
                },
        ));
        while j < nums.len()
            invariant
                j <= nums@.len(),
                nums@ == all,
                v@ == front + Seq::new(
                    j as nat,
                    |k: int|
                        RunPlan {
                            run_id: (front.len() + k) as usize,
                            workload,
                            concurrency: all[k],
                        },
                ),
            decreases nums@.len() - j,
        {
            let run_id: usize = v.len();
            v.push(RunPlan { run_id, workload, concurrency: nums[j] });
            assert(v@ =~= front + Seq::new(
                (j + 1) as nat,
                |k: int|
                    RunPlan {
                        run_id: (front.len() + k) as usize,
                        workload,
                        concurrency: all[k],
                    },
            ));
            j += 1;
        }
        i += 1;
    }
    assert(workloads@.take(workloads@.len() as int) =~= workloads@);
    v
}

/// The runs of a benchmark are numbered from zero on.
pub proof fn law_runs_numbered(workloads: Seq<WorkloadKind>, min: u32, max: u32, step: u32, i: int)
    requires
        0 <= i < planned(workloads, min, max, step).len() <= usize::MAX,
    ensures
        planned(workloads, min, max, step)[i].run_id == i,
    decreases workloads.len(),
{
    let front = planned(workloads.drop_last(), min, max, step);
    if i < front.len() {
        law_runs_numbered(workloads.drop_last(), min, max, step, i);
    }
}

/// The names of the workloads with `sep` between them.
pub open spec fn workload_list(workloads: Seq<WorkloadKind>, sep: Seq<char>) -> Seq<char> {
    joined(Seq::new(workloads.len(), |i: int| workload_name(workloads[i])), sep)
}

/// The names of the workloads with `sep` between them.
pub fn join_workloads(workloads: &Vec<WorkloadKind>, sep: &str) -> (r: String)
    ensures
        r@ == workload_list(workloads@, sep@),
{
    let mut names: Vec<String> = Vec::new();
    let mut i: usize = 0;
    while i < workloads.len()
        invariant
            i <= workloads@.len(),
            names@.len() == i,
            forall|j: int| 0 <= j < i ==> (#[trigger] names@[j])@ == workload_name(workloads@[j]),
        decreases workloads@.len() - i,
    {
        names.push(text(workloads[i].name()));
        i += 1;
    }
    assert(texts(names@) =~= Seq::new(workloads@.len(), |k: int| workload_name(workloads@[k])));
    join_texts(&names, sep)
}

/// The path of the results of a benchmark that ended at `ts` milliseconds.
pub open spec fn result_path(ts: u64, workloads: Seq<WorkloadKind>, tag: Option<Seq<char>>) -> Seq<
    char,
> {
    match tag {
        Some(tag) => cat(
            seq![
                "prof/json/"@,
                decimal(ts as nat),
                "_"@,
                workload_list(workloads, "_"@),
                "__"@,
                tag,
                ".json"@,
            ],
        ),
        None => cat(
            seq![
                "prof/json/"@,
                decimal(ts as nat),
                "_"@,
                workload_list(workloads, "_"@),
                ".json"@,
            ],
        ),
    }
}

/// The path of the results of a benchmark that ended at `ts` milliseconds.
pub fn default_path(ts: u64, workloads: &Vec<WorkloadKind>, tag: Option<&str>) -> (r: String)
    ensures
        tag matches Some(t) ==> r@ == result_path(ts, workloads@, Some(t@)),
        tag is None ==> r@ == result_path(ts, workloads@, None),
{
    let names = join_workloads(workloads, "_");
    match tag {
        Some(tag) => {
            let parts = vec![
                text("prof/json/"),
                decimal_text(ts),
                text("_"),
                names,
                text("__"),
                text(tag),
                text(".json"),
            ];
            assert(texts(parts@) =~= seq![
                "prof/json/"@,
                decimal(ts as nat),
                "_"@,
                workload_list(workloads@, "_"@),
                "__"@,
                tag@,
                ".json"@,
            ]);
            cat_text(&parts)
        },
        None => {
            let parts = vec![
                text("prof/json/"),
                decimal_text(ts),
                text("_"),
                names,
                text(".json"),
            ];
            assert(texts(parts@) =~= seq![
                "prof/json/"@,
                decimal(ts as nat),
                "_"@,
                workload_list(workloads@, "_"@),
                ".json"@,
            ]);
            cat_text(&parts)
        },
    }
}

/// The line that is shown before a run: its place among all runs, its workload, how many clients
/// it has and how long it takes.
pub open spec fn run_heading(
    place: nat,
    total: nat,
    workload: WorkloadKind,
    concurrency: nat,
    duration_secs: nat,
) -> Seq<char> {
    cat(
        seq![
            "["@,
            decimal(place),
            "/"@,
            decimal(total),
            "] "@,
            workload_name(workload),
            " | "@,
            decimal(concurrency),
            "-client"@,
            (if concurrency == 1 {
                ""@
            } else {
                "s"@
            }),
            " ("@,
            decimal(duration_secs),
            "s) ...\n"@,
        ],
    )
}

/// The line that is shown before the run `plan`.
pub fn start_line(plan: &RunPlan, total: usize, duration_secs: u32) -> (r: String)
    requires
        plan.run_id < usize::MAX,
    ensures
        r@ == run_heading(
            (plan.run_id + 1) as nat,
            total as nat,
            plan.workload,
            plan.concurrency as nat,
            duration_secs as nat,
        ),
{
    let plural = if plan.concurrency == 1 {
        text("")
    } else {
        text("s")
    };
    let parts = vec![
        text("["),
        decimal_text(plan.run_id as u64 + 1),
        text("/"),
        decimal_text(total as u64),
        text("] "),
        text(plan.workload.name()),
        text(" | "),
        decimal_text(plan.concurrency as u64),
        text("-client"),
        plural,
        text(" ("),
        decimal_text(duration_secs as u64),
        text("s) ...\n"),
    ];
    assert(texts(parts@) =~= seq![
        "["@,
        decimal((plan.run_id + 1) as nat),
        "/"@,
        decimal(total as nat),
        "] "@,
        workload_name(plan.workload),
        " | "@,
        decimal(plan.concurrency as nat),
        "-client"@,
        (if plan.concurrency == 1 {
            ""@
        } else {
            "s"@
        }),
        " ("@,
        decimal(duration_secs as nat),
        "s) ...\n"@,
    ]);
    cat_text(&parts)
}

/// The line that is shown after a run: how many inserts and queries it made, and how many
/// seconds it took.
pub fn end_line(inserts: &str, ranges: &str, secs: &str) -> (r: String)
    ensures
        r@ == cat(
            seq!["  \u{2713} "@, inserts@, " inserts, "@, ranges@, " ranges ("@, secs@, "s)\n"@],
        ),
{
    let parts = vec![
        text("  \u{2713} "),
        text(inserts),
        text(" inserts, "),
        text(ranges),
        text(" ranges ("),
        text(secs),
        text("s)\n"),
    ];
    assert(texts(parts@) =~= seq![
        "  \u{2713} "@,
        inserts@,
        " inserts, "@,
        ranges@,
        " ranges ("@,
        secs@,
        "s)\n"@,
    ]);
    cat_text(&parts)
}

/// The highest latency that a client tells from higher ones, in microseconds: a minute.
pub const HIST_MAX: u64 = 60_000_000;

/// What came of the requests of a client.
#[derive(Debug)]
pub struct ClientResult {
    pub inserts_completed: u64,
    pub inserts_failed: u64,
    pub insert_latencies: Samples,
    pub range_queries_completed: u64,
    pub ranges_failed: u64,
    pub range_latencies: Samples,
    pub records_scanned: u64,
}

/// What came of requests, as plain numbers and collections.
pub struct ClientTally {
    pub inserts: nat,
    pub failed_inserts: nat,
    pub insert_latencies: Multiset<u64>,
    pub ranges: nat,
    pub failed_ranges: nat,
    pub range_latencies: Multiset<u64>,
    pub scanned: nat,
}

impl View for ClientResult {
    type V = ClientTally;

    open spec fn view(&self) -> ClientTally {
        ClientTally {
            inserts: self.inserts_completed as nat,
            failed_inserts: self.inserts_failed as nat,
            insert_latencies: recorded(self.insert_latencies),
            ranges: self.range_queries_completed as nat,
            failed_ranges: self.ranges_failed as nat,
            range_latencies: recorded(self.range_latencies),
            scanned: self.records_scanned as nat,
        }
    }
}

impl ClientTally {
    /// Both together.
    pub open spec fn plus(self, other: ClientTally) -> ClientTally {
        ClientTally {
            inserts: self.inserts + other.inserts,
            failed_inserts: self.failed_inserts + other.failed_inserts,
            insert_latencies: self.insert_latencies.add(other.insert_latencies),
            ranges: self.ranges + other.ranges,
            failed_ranges: self.failed_ranges + other.failed_ranges,
            range_latencies: self.range_latencies.add(other.range_latencies),
            scanned: self.scanned + other.scanned,
        }
    }

    /// Every number is a 64-bit number.
    pub open spec fn fits(self) -> bool {
        &&& self.inserts <= u64::MAX
        &&& self.failed_inserts <= u64::MAX
        &&& self.ranges <= u64::MAX
        &&& self.failed_ranges <= u64::MAX
        &&& self.scanned <= u64::MAX
    }

    /// No requests.
    pub open spec fn none() -> ClientTally {
        ClientTally {
            inserts: 0,
            failed_inserts: 0,
            insert_latencies: Multiset::empty(),
            ranges: 0,
            failed_ranges: 0,
            range_latencies: Multiset::empty(),
            scanned: 0,
        }
    }
}

/// The latencies with one more, unless that is too high to be told.
pub open spec fn with_latency(before: Multiset<u64>, us: u64, after: Multiset<u64>) -> bool {
    after == before.insert(us) || (us > HIST_MAX && after == before)
}

fn latencies() -> (h: Samples)
    ensures
        recorded(h) == Multiset::<u64>::empty(),
        top(h) == HIST_MAX,
        precision(h) == 3,
{
    match new_histogram(HIST_MAX, 3) {
        Some(h) => h,
        None => unreached(),
    }
}

impl ClientResult {
    /// The latencies are kept to the same range and precision.
    pub open spec fn wf(&self) -> bool {
        &&& top(self.insert_latencies) == HIST_MAX
        &&& top(self.range_latencies) == HIST_MAX
        &&& precision(self.insert_latencies) == 3
        &&& precision(self.range_latencies) == 3
    }

    /// No requests.
    pub fn new() -> (r: Self)
        ensures
            r.wf(),
            r@ == ClientTally::none(),
    {
        ClientResult {
            inserts_completed: 0,
            inserts_failed: 0,
            insert_latencies: latencies(),
            range_queries_completed: 0,
            ranges_failed: 0,
            range_latencies: latencies(),
            records_scanned: 0,
        }
    }

    /// Adds what came of the requests of another client.
    pub fn merge(&mut self, other: ClientResult)
        requires
            old(self).wf(),
            other.wf(),
            old(self)@.plus(other@).fits(),
        ensures
            final(self).wf(),
            final(self)@ == old(self)@.plus(other@),
    {
        self.inserts_completed = self.inserts_completed + other.inserts_completed;
        self.range_queries_completed = self.range_queries_completed
            + other.range_queries_completed;
        self.records_scanned = self.records_scanned + other.records_scanned;
        self.inserts_failed = self.inserts_failed + other.inserts_failed;
        self.ranges_failed = self.ranges_failed + other.ranges_failed;
        let _ = add_values(&mut self.insert_latencies, &other.insert_latencies);
        let _ = add_values(&mut self.range_latencies, &other.range_latencies);
    }

    /// The latencies of inserts and those of queries, each with the number of times it was
    /// recorded.
    pub fn latency_buckets(&self) -> (r: (Vec<(u64, u64)>, Vec<(u64, u64)>))
        ensures
            r.0@ == buckets(self.insert_latencies),
            r.1@ == buckets(self.range_latencies),
    {
        (histogram_buckets(&self.insert_latencies), histogram_buckets(&self.range_latencies))
    }

    /// Notes a batch of `n` records that was inserted in `us` microseconds, or that failed.
    pub fn batch_done(&mut self, n: u64, us: Option<u64>)
        requires
            old(self).wf(),
            old(self)@.inserts + n <= u64::MAX,
            old(self)@.failed_inserts + n <= u64::MAX,
        ensures
            final(self).wf(),
            us is None ==> final(self)@ == (ClientTally {
                failed_inserts: old(self)@.failed_inserts + n as nat,
                ..old(self)@
            }),
            us matches Some(us) ==> final(self)@ == (ClientTally {
                inserts: old(self)@.inserts + n as nat,
                insert_latencies: final(self)@.insert_latencies,
                ..old(self)@
            }) && with_latency(
                old(self)@.insert_latencies,
                us,
                final(self)@.insert_latencies,
            ),
    {
        match us {
            Some(us) => {
                let _ = record_value(&mut self.insert_latencies, us);
                self.inserts_completed = self.inserts_completed + n;
            },
            None => {
                self.inserts_failed = self.inserts_failed + n;
            },
        }
    }

    /// Notes a query that gave `n` records in `us` microseconds, or that failed.
    pub fn range_done(&mut self, done: Option<(u64, u64)>)
        requires
            old(self).wf(),
            old(self)@.ranges < u64::MAX,
            old(self)@.failed_ranges < u64::MAX,
            done matches Some((n, us)) ==> old(self)@.scanned + n <= u64::MAX,
        ensures
            final(self).wf(),
            done is None ==> final(self)@ == (ClientTally {
                failed_ranges: old(self)@.failed_ranges + 1,
                ..old(self)@
            }),
            done matches Some((n, us)) ==> final(self)@ == (ClientTally {
                ranges: old(self)@.ranges + 1,
                scanned: old(self)@.scanned + n as nat,
                range_latencies: final(self)@.range_latencies,
                ..old(self)@
            }) && with_latency(old(self)@.range_latencies, us, final(self)@.range_latencies),
    {
        match done {
            Some((n, us)) => {
                let _ = record_value(&mut self.range_latencies, us);
                self.range_queries_completed = self.range_queries_completed + 1;
                self.records_scanned = self.records_scanned + n;
            },
            None => {
                self.ranges_failed = self.ranges_failed + 1;
            },
        }
    }
}

/// In what unit a number is shown: by what it is divided, how many digits are shown behind the
/// point, and the unit. A number that is divided by 1 is shown as it is.
#[derive(Debug, Clone, Copy)]
pub struct Scale {
    pub divisor: u64,
    pub decimals: u8,
    pub unit: &'static str,
}

/// What a scale says.
pub open spec fn scale_view(s: Scale) -> (u64, u8, Seq<char>) {
    (s.divisor, s.decimals, s.unit@)
}

/// In what unit a number of bytes is shown.
pub open spec fn byte_unit(b: u64) -> (u64, u8, Seq<char>) {
    if b >= 1_000_000_000 {
        (1_000_000_000, 2, "GB"@)
    } else if b >= 1_000_000 {
        (1_000_000, 2, "MB"@)
    } else if b >= 1_000 {
        (1_000, 1, "KB"@)
    } else {
        (1, 0, "B"@)
    }
}

/// In what unit a count is shown.
pub open spec fn count_unit(n: u64) -> (u64, u8, Seq<char>) {
    if n >= 1_000_000_000 {
        (1_000_000_000, 2, "B"@)
    } else if n >= 1_000_000 {
        (1_000_000, 2, "M"@)
    } else if n >= 10_000 {
        (1_000, 0, "K"@)
    } else if n >= 1_000 {
        (1_000, 1, "K"@)
    } else {
        (1, 0, ""@)
    }
}

/// In what unit a number of kilobytes is shown.
pub open spec fn size_unit(kb: u64) -> (u64, u8, Seq<char>) {
    if kb < 1024 {
        (1, 0, "KB"@)
    } else if kb < 1_048_576 {
        (1024, 1, "MB"@)
    } else {
        (1_048_576, 1, "GB"@)
    }
}

/// In what unit a number of bytes is shown.
pub fn fmt_bytes(b: u64) -> (r: Scale)
    ensures
        scale_view(r) == byte_unit(b),
{
    if b >= 1_000_000_000 {
        Scale { divisor: 1_000_000_000, decimals: 2, unit: "GB" }
    } else if b >= 1_000_000 {
        Scale { divisor: 1_000_000, decimals: 2, unit: "MB" }
    } else if b >= 1_000 {
        Scale { divisor: 1_000, decimals: 1, unit: "KB" }
    } else {
        Scale { divisor: 1, decimals: 0, unit: "B" }
    }
}

/// In what unit a count is shown.
pub fn fmt_count(n: u64) -> (r: Scale)
    ensures
        scale_view(r) == count_unit(n),
{
    if n >= 1_000_000_000 {
        Scale { divisor: 1_000_000_000, decimals: 2, unit: "B" }
    } else if n >= 1_000_000 {
        Scale { divisor: 1_000_000, decimals: 2, unit: "M" }
    } else if n >= 10_000 {
        Scale { divisor: 1_000, decimals: 0, unit: "K" }
    } else if n >= 1_000 {
        Scale { divisor: 1_000, decimals: 1, unit: "K" }
    } else {
        Scale { divisor: 1, decimals: 0, unit: "" }
    }
}

/// In what unit a number of kilobytes is shown.
pub fn format_size(kb: u64) -> (r: Scale)
    ensures
        scale_view(r) == size_unit(kb),
{
    if kb < 1024 {
        Scale { divisor: 1, decimals: 0, unit: "KB" }
    } else if kb < 1_048_576 {
        Scale { divisor: 1024, decimals: 1, unit: "MB" }
    } else {
        Scale { divisor: 1_048_576, decimals: 1, unit: "GB" }
    }
}

/// The positions of the runs of a workload.
pub open spec fn runs_of(kinds: Seq<WorkloadKind>, w: WorkloadKind) -> Seq<usize>
    decreases kinds.len(),
{
    if kinds.len() == 0 {
        Seq::empty()
    } else {
        let front = runs_of(kinds.drop_last(), w);
        if kinds.last() == w {
            front.push((kinds.len() - 1) as usize)
        } else {
            front
        }
    }
}

/// The workloads in their order.
pub open spec fn all_workloads() -> Seq<WorkloadKind> {
    seq![
        WorkloadKind::Write,
        WorkloadKind::Read,
        WorkloadKind::Mixed,
        WorkloadKind::Tail,
        WorkloadKind::Bulk,
    ]
}

/// The first `n` workloads of which there are at least two runs, in their order, with the
/// positions of those.
pub open spec fn groups(kinds: Seq<WorkloadKind>, n: nat) -> Seq<(WorkloadKind, Seq<usize>)>
    decreases n,
{
    if n == 0 {
        Seq::empty()
    } else {
        let front = groups(kinds, (n - 1) as nat);
        let w = all_workloads()[n - 1];
        if runs_of(kinds, w).len() >= 2 {
            front.push((w, runs_of(kinds, w)))
        } else {
            front
        }
    }
}

/// The workload and the positions of each group.
pub open spec fn group_views(v: Seq<(WorkloadKind, Vec<usize>)>) -> Seq<
    (WorkloadKind, Seq<usize>),
> {
    Seq::new(v.len(), |i: int| (v[i].0, v[i].1@))
}

fn positions_of(kinds: &[WorkloadKind], w: WorkloadKind) -> (v: Vec<usize>)
    ensures
        v@ == runs_of(kinds@, w),
{
    let mut v: Vec<usize> = Vec::new();
    let mut i: usize = 0;
    assert(kinds@.take(0) =~= Seq::<WorkloadKind>::empty());
    while i < kinds.len()
        invariant
            i <= kinds@.len(),
            v@ == runs_of(kinds@.take(i as int), w),
        decreases kinds@.len() - i,
    {
        assert(kinds@.take(i + 1).drop_last() =~= kinds@.take(i as int));
        if kinds[i] == w {
            v.push(i);
        }
        i += 1;
    }
    assert(kinds@.take(kinds@.len() as int) =~= kinds@);
    v
}

/// The workloads whose throughput over the numbers of clients can be looked at, since there
/// are at least two runs of them, in their order, with the positions of those runs.
pub fn compute_saturations(kinds: &[WorkloadKind]) -> (v: Vec<(WorkloadKind, Vec<usize>)>)
    ensures
        group_views(v@) == groups(kinds@, 5),
{
    let all: [WorkloadKind; 5] = [
        WorkloadKind::Write,
        WorkloadKind::Read,
        WorkloadKind::Mixed,
        WorkloadKind::Tail,
        WorkloadKind::Bulk,
    ];
    let mut v: Vec<(WorkloadKind, Vec<usize>)> = Vec::new();
    let mut i: usize = 0;
    assert(all@ =~= all_workloads());
    assert(group_views(v@) =~= groups(kinds@, 0));
    while i < 5
        invariant
            i <= 5,
            all@ == all_workloads(),
            group_views(v@) == groups(kinds@, i as nat),
        decreases 5 - i,
    {
        let w = all[i];
        let at = positions_of(kinds, w);
        if at.len() >= 2 {
            let ghost before = group_views(v@);
            let ghost positions = at@;
            v.push((w, at));
            assert(group_views(v@) =~= before.push((w, positions)));
        }
        i += 1;
    }
    v
}

/// The time range of a query that is made `elapsed_ms` after the start: it ends then, and
/// starts `window_secs` before, but not before the start.
pub fn query_window(elapsed_ms: i64, window_secs: u32) -> (r: (i64, i64))
    requires
        elapsed_ms - window_secs * 1000 >= i64::MIN,
    ensures
        r.1 == elapsed_ms,
        r.0 == (if elapsed_ms - window_secs * 1000 > 0 {
            elapsed_ms - window_secs * 1000
        } else {
            0
        }),
{
    let start: i64 = elapsed_ms - window_secs as i64 * 1000;
    if start > 0 {
        (start, elapsed_ms)
    } else {
        (0, elapsed_ms)
    }
}

/// The name of the `i`-th key.
pub open spec fn key_name(i: nat) -> Seq<char> {
    "key_"@ + decimal(i)
}

/// The name of the `i`-th key.
pub fn key_text(i: u32) -> (r: String)
    ensures
        r@ == key_name(i as nat),
{
    let mut r = text("key_");
    let n = decimal_text(i as u64);
    r.append(n.as_str());
    r
}

/// The letter `s` repeated `n` times.
pub fn repeated(s: &str, n: u32) -> (r: String)
    requires
        s@.len() == 1,
    ensures
        r@ == run_of(s@[0], n as nat),
{
    let mut r = String::new();
    let mut i: u32 = 0;
    assert(r@ =~= run_of(s@[0], 0));
    while i < n
        invariant
            i <= n,
            s@.len() == 1,
            r@ == run_of(s@[0], i as nat),
        decreases n - i,
    {
        r.append(s);
        i += 1;
        assert(r@ =~= run_of(s@[0], i as nat));
    }
    r
}

/// What a client does in a run.
#[derive(Debug)]
pub struct ClientWork {
    pub workload: WorkloadKind,
    pub batch_size: usize,
    pub value_size: u32,
    pub range_window: u32,
    /// The records that are gathered.
    pub pending: Vec<Insert>,
    /// How many records were gathered since the run began.
    pub insert_count: i64,
}

/// What chance decided for a request.
#[derive(Debug, Clone, Copy)]
pub struct Draw {
    /// How the coin fell that is weighted as the workload asks.
    pub coin: bool,
    /// Which source.
    pub source: u32,
    /// Which key.
    pub key: u32,
    /// Whether a query has a filter.
    pub filtered: bool,
}

/// What a client is to do next.
#[derive(Debug)]
pub enum WorkStep {
    /// Make a query.
    Query(Range),
    /// Insert records together.
    Flush(Vec<Insert>),
    /// Nothing yet.
    Gather,
}

impl ClientWork {
    /// The records that are gathered.
    pub open spec fn gathered(&self) -> Seq<Insert> {
        self.pending@
    }

    /// How many records were gathered since the run began.
    pub open spec fn inserted(&self) -> i64 {
        self.insert_count
    }

    /// A client at the beginning of a run.
    pub fn new(workload: WorkloadKind, batch_size: usize, value_size: u32, range_window: u32) -> (r:
        Self)
        ensures
            r.workload == workload,
            r.batch_size == batch_size,
            r.value_size == value_size,
            r.range_window == range_window,
            r.gathered() == Seq::<Insert>::empty(),
            r.inserted() == 0,
    {
        ClientWork {
            workload,
            batch_size,
            value_size,
            range_window,
            pending: Vec::new(),
            insert_count: 0,
        }
    }

    /// The next request, `elapsed_ms` after the server started: a query on a recent window, or
    /// one more record, whose timestamp is later by one with each. The records that are
    /// gathered are inserted when they fill a batch.
    pub fn step(&mut self, draw: Draw, elapsed_ms: i64) -> (r: WorkStep)
        requires
            elapsed_ms - old(self).range_window * 1000 >= i64::MIN,
            elapsed_ms + old(self).inserted() <= i64::MAX,
            0 <= old(self).inserted() < i64::MAX,
        ensures
            final(self).workload == old(self).workload,
            final(self).batch_size == old(self).batch_size,
            final(self).value_size == old(self).value_size,
            final(self).range_window == old(self).range_window,
            ({
                let query = old(self).workload is Read || (draw.coin && !(old(self).workload
                    is Write));
                let window = old(self).range_window * 1000;
                if query {
                    &&& final(self).gathered() == old(self).gathered()
                    &&& final(self).inserted() == old(self).inserted()
                    &&& r matches WorkStep::Query(q) && q.source_id == draw.source && q.key@
                        == key_name(draw.key as nat) && q.end_ts == elapsed_ms && q.start_ts == (
                    if elapsed_ms - window > 0 {
                        elapsed_ms - window
                    } else {
                        0
                    }) && q.filter@ == (if draw.filtered {
                        "a"@
                    } else {
                        Seq::<char>::empty()
                    })
                } else {
                    let n = old(self).gathered().len();
                    let all = if r is Flush {
                        r->Flush_0@
                    } else {
                        final(self).gathered()
                    };
                    &&& final(self).inserted() == old(self).inserted() + 1
                    &&& all.len() == n + 1
                    &&& all.take(n as int) == old(self).gathered()
                    &&& all[n as int].source_id == draw.source
                    &&& all[n as int].ts == elapsed_ms + old(self).inserted()
                    &&& all[n as int].key@ == key_name(draw.key as nat)
                    &&& all[n as int].value@ == run_of('a', old(self).value_size as nat)
                    &&& r is Flush <==> n + 1 >= old(self).batch_size
                    &&& r is Flush ==> final(self).gathered() == Seq::<Insert>::empty()
                    &&& r is Flush || r is Gather
                }
            }),
    {
        proof {
            reveal_strlit("a");
        }
        if wants_range(self.workload, draw.coin) {
            let (start_ts, end_ts) = query_window(elapsed_ms, self.range_window);
            let filter = if draw.filtered {
                text("a")
            } else {
                String::new()
            };
            return WorkStep::Query(
                Range {
                    source_id: draw.source as i64,
                    key: key_text(draw.key),
                    start_ts,
                    end_ts,
                    filter,
                },
            );
        }
        let ghost before = self.pending@;
        let ts: i64 = elapsed_ms + self.insert_count;
        self.insert_count = self.insert_count + 1;
        let rec = Insert {
            source_id: draw.source as i64,
            ts,
            key: key_text(draw.key),
            value: repeated("a", self.value_size),
        };
        self.pending.push(rec);
        assert(self.pending@.take(before.len() as int) =~= before);
        if self.pending.len() >= self.batch_size {
            WorkStep::Flush(self.take_pending())
        } else {
            WorkStep::Gather
        }
    }

    /// Hands over the records that are gathered.
    pub fn take_pending(&mut self) -> (v: Vec<Insert>)
        ensures
            v@ == old(self).gathered(),
            final(self).gathered() == Seq::<Insert>::empty(),
            final(self).inserted() == old(self).inserted(),
            final(self).workload == old(self).workload,
            final(self).batch_size == old(self).batch_size,
            final(self).value_size == old(self).value_size,
            final(self).range_window == old(self).range_window,
    {
        let mut v: Vec<Insert> = Vec::new();
        std::mem::swap(&mut v, &mut self.pending);
        v
    }
}

/// The numbers of clients go up from the lowest one, from one to two and then in steps, as long
/// as they are no more than the highest one: none of them is left out.
pub proof fn law_levels(from: u32, max: u32, step: u32, i: int)
    requires
        step > 0,
    ensures
        from > max ==> levels(from as int, max, step).len() == 0,
        from <= max ==> levels(from as int, max, step).len() > 0 && levels(
            from as int,
            max,
            step,
        )[0] == from,
        0 <= i < levels(from as int, max, step).len() ==> from <= levels(from as int, max, step)[i]
            <= max,
        0 <= i && i + 1 < levels(from as int, max, step).len() ==> levels(from as int, max, step)[i
            + 1] == (if levels(from as int, max, step)[i] == 1 {
            2
        } else {
            levels(from as int, max, step)[i] + step
        }),
        levels(from as int, max, step).len() > 0 ==> ({
            let last = levels(from as int, max, step).last();
            if last == 1 {
                max < 2
            } else {
                last + step > max
            }
        }),
{
    lemma_levels(from as int, max, step, i);
}

proof fn lemma_levels(from: int, max: u32, step: u32, i: int)
    requires
        step > 0,
        from >= 0,
    ensures
        from > max ==> levels(from, max, step).len() == 0,
        from <= max ==> levels(from, max, step).len() > 0 && levels(from, max, step)[0] == from,
        0 <= i < levels(from, max, step).len() ==> from <= levels(from, max, step)[i] <= max,
        0 <= i && i + 1 < levels(from, max, step).len() ==> levels(from, max, step)[i + 1] == (
        if levels(from, max, step)[i] == 1 {
            2
        } else {
            levels(from, max, step)[i] + step
        }),
        levels(from, max, step).len() > 0 ==> ({
            let last = levels(from, max, step).last();
            if last == 1 {
                max < 2
            } else {
                last + step > max
            }
        }),
    decreases
            (if from > max {
                0
            } else {
                max - from + 1
            }),
{
    if from <= max {
        let next = if from == 1 {
            2
        } else {
            from + step
        };
        lemma_levels(next, max, step, i - 1);
        let rest = levels(next, max, step);
        assert(levels(from, max, step) == seq![from as u32] + rest);
        if i > 0 {
            assert((seq![from as u32] + rest)[i] == rest[i - 1] || i >= rest.len() + 1);
        }
        if rest.len() > 0 {
            assert(levels(from, max, step).last() == rest.last());
        }
    }
}

/// Each workload is run with each number of clients, one workload after the other in their
/// order, and the runs are numbered one after the other.
pub proof fn law_plan_order(
    workloads: Seq<WorkloadKind>,
    min: u32,
    max: u32,
    step: u32,
    i: int,
    j: int,
)
    requires
        0 <= i < workloads.len(),
        0 <= j < levels(min as int, max, step).len(),
        planned(workloads, min, max, step).len() <= usize::MAX,
    ensures
        planned(workloads, min, max, step).len() == workloads.len() * levels(
            min as int,
            max,
            step,
        ).len(),
        ({
            let k = i * levels(min as int, max, step).len() + j;
            let run = planned(workloads, min, max, step)[k];
            &&& 0 <= k < planned(workloads, min, max, step).len()
            &&& run.run_id == k
            &&& run.workload == workloads[i]
            &&& run.concurrency == levels(min as int, max, step)[j]
        }),
    decreases workloads.len(),
{
    let nums = levels(min as int, max, step);
    let front = planned(workloads.drop_last(), min, max, step);
    let n = nums.len();
    lemma_plan_len(workloads, min, max, step);
    lemma_plan_len(workloads.drop_last(), min, max, step);
    let k = i * n + j;
    assert(k < workloads.len() * n) by (nonlinear_arith)
        requires
            k == i * n + j,
            i < workloads.len(),
            j < n,
    ;
    assert(0 <= i * n) by (nonlinear_arith)
        requires
            i >= 0,
    ;
    if i == workloads.len() - 1 {
        assert(front.len() == i * n);
    } else {
        assert(workloads.drop_last()[i] == workloads[i]);
        law_plan_order(workloads.drop_last(), min, max, step, i, j);
    }
}

proof fn lemma_plan_len(workloads: Seq<WorkloadKind>, min: u32, max: u32, step: u32)
    ensures
        planned(workloads, min, max, step).len() == workloads.len() * levels(
            min as int,
            max,
            step,
        ).len(),
    decreases workloads.len(),
{
    let n = levels(min as int, max, step).len();
    if workloads.len() > 0 {
        lemma_plan_len(workloads.drop_last(), min, max, step);
        assert((workloads.len() - 1) * n + n == workloads.len() * n) by (nonlinear_arith);
    } else {
        assert(workloads.len() * n == 0) by (nonlinear_arith)
            requires
                workloads.len() == 0,
        ;
    }
}

/// It does not matter in which order the results of clients are put together, a client that has
/// done nothing adds nothing, and what one client did of one kind is added to that kind alone.
pub proof fn law_results_added(a: ClientTally, b: ClientTally, c: ClientTally, n: nat)
    ensures
        a.plus(b) == b.plus(a),
        a.plus(b).plus(c) == a.plus(b.plus(c)),
        a.plus(ClientTally::none()) == a,
        a.plus((ClientTally { inserts: n, ..ClientTally::none() })) == (ClientTally {
            inserts: a.inserts + n,
            ..a
        }),
        a.plus((ClientTally { failed_inserts: n, ..ClientTally::none() })) == (ClientTally {
            failed_inserts: a.failed_inserts + n,
            ..a
        }),
        a.plus((ClientTally { ranges: n, ..ClientTally::none() })) == (ClientTally {
            ranges: a.ranges + n,
            ..a
        }),
        a.plus((ClientTally { failed_ranges: n, ..ClientTally::none() })) == (ClientTally {
            failed_ranges: a.failed_ranges + n,
            ..a
        }),
        a.plus((ClientTally { scanned: n, ..ClientTally::none() })) == (ClientTally {
            scanned: a.scanned + n,
            ..a
        }),
        a.plus(b).insert_latencies == a.insert_latencies.add(b.insert_latencies),
        a.plus(b).range_latencies == a.range_latencies.add(b.range_latencies),
{
    broadcast use vstd::multiset::group_multiset_axioms;

    let none = ClientTally::none();
    assert(a.insert_latencies.add(b.insert_latencies) =~= b.insert_latencies.add(
        a.insert_latencies,
    ));
    assert(a.range_latencies.add(b.range_latencies) =~= b.range_latencies.add(a.range_latencies));
    assert(a.plus(b).plus(c).insert_latencies =~= a.plus(b.plus(c)).insert_latencies);
    assert(a.plus(b).plus(c).range_latencies =~= a.plus(b.plus(c)).range_latencies);
    assert(a.insert_latencies.add(none.insert_latencies) =~= a.insert_latencies);
    assert(a.range_latencies.add(none.range_latencies) =~= a.range_latencies);
}

/// What is counted of a client is what its result holds, under the same names.
pub proof fn law_result_counts(r: ClientResult)
    ensures
        r@.inserts == r.inserts_completed,
        r@.failed_inserts == r.inserts_failed,
        r@.ranges == r.range_queries_completed,
        r@.failed_ranges == r.ranges_failed,
        r@.scanned == r.records_scanned,
        r@.insert_latencies == recorded(r.insert_latencies),
        r@.range_latencies == recorded(r.range_latencies),
{
}

/// A number of bytes is told in the largest unit of which there is at least one: each unit is a
/// thousand of the one before. The larger the unit, the more digits are told behind the point.
pub proof fn law_byte_units(b: u64, more: u64)
    requires
        b <= more,
    ensures
        ({
            let (divisor, decimals, unit) = byte_unit(b);
            &&& divisor == 1 || b >= divisor
            &&& b < 1000 * divisor || divisor == 1_000_000_000
            &&& divisor == 1 || divisor == 1_000 || divisor == 1_000_000 || divisor
                == 1_000_000_000
            &&& divisor == 1 ==> unit == "B"@ && decimals == 0
            &&& divisor == 1_000 ==> unit == "KB"@ && decimals == 1
            &&& divisor == 1_000_000 ==> unit == "MB"@ && decimals == 2
            &&& divisor == 1_000_000_000 ==> unit == "GB"@ && decimals == 2
            &&& divisor <= byte_unit(more).0
        }),
{
}

/// A number is told in the largest unit of which there is at least one. Of thousands one digit
/// is told behind the point while there are fewer than ten of them.
pub proof fn law_count_units(n: u64, more: u64)
    requires
        n <= more,
    ensures
        ({
            let (divisor, decimals, unit) = count_unit(n);
            &&& divisor == 1 || n >= divisor
            &&& n < 1000 * divisor || divisor == 1_000_000_000
            &&& divisor == 1 || divisor == 1_000 || divisor == 1_000_000 || divisor
                == 1_000_000_000
            &&& divisor == 1 ==> unit == ""@ && decimals == 0
            &&& divisor == 1_000 ==> unit == "K"@ && (decimals == 1 <==> n < 10 * divisor) && (
            decimals == 0 <==> n >= 10 * divisor)
            &&& divisor == 1_000_000 ==> unit == "M"@ && decimals == 2
            &&& divisor == 1_000_000_000 ==> unit == "B"@ && decimals == 2
            &&& divisor <= count_unit(more).0
        }),
{
}

/// A number of kilobytes is told in the largest unit of which there is at least one: each unit
/// is 1024 of the one before.
pub proof fn law_size_units(kb: u64, more: u64)
    requires
        kb <= more,
    ensures
        ({
            let (divisor, decimals, unit) = size_unit(kb);
            &&& divisor == 1 || kb >= divisor
            &&& kb < 1024 * divisor || divisor == 1024 * 1024
            &&& divisor == 1 || divisor == 1024 || divisor == 1024 * 1024
            &&& divisor == 1 ==> unit == "KB"@ && decimals == 0
            &&& divisor == 1024 ==> unit == "MB"@ && decimals == 1
            &&& divisor == 1024 * 1024 ==> unit == "GB"@ && decimals == 1
            &&& divisor <= size_unit(more).0
        }),
{
}

/// The runs of a workload are all runs with that workload and no others, in their order.
pub proof fn law_runs_of(kinds: Seq<WorkloadKind>, w: WorkloadKind)
    requires
        kinds.len() <= usize::MAX,
    ensures
        forall|k: int|
            0 <= k < runs_of(kinds, w).len() ==> (#[trigger] runs_of(kinds, w)[k]) < kinds.len()
                && kinds[runs_of(kinds, w)[k] as int] == w,
        forall|k: int, l: int|
            0 <= k < l < runs_of(kinds, w).len() ==> #[trigger] runs_of(kinds, w)[k]
                < #[trigger] runs_of(kinds, w)[l],
        forall|i: int|
            0 <= i < kinds.len() && #[trigger] kinds[i] == w ==> runs_of(kinds, w).contains(
                i as usize,
            ),
    decreases kinds.len(),
{
    if kinds.len() > 0 {
        let front = kinds.drop_last();
        law_runs_of(front, w);
        let g = runs_of(front, w);
        let o = runs_of(kinds, w);
        assert forall|k: int| 0 <= k < o.len() implies (#[trigger] o[k]) < kinds.len()
            && kinds[o[k] as int] == w by {
            if k < g.len() {
                assert(o[k] == g[k]);
                assert(front[g[k] as int] == kinds[g[k] as int]);
            }
        }
        assert forall|k: int, l: int| 0 <= k < l < o.len() implies #[trigger] o[k] < #[trigger] o[l] by {
            assert(o[k] == g[k]);
            if l < g.len() {
                assert(o[l] == g[l]);
            }
        }
        assert forall|i: int| 0 <= i < kinds.len() && #[trigger] kinds[i] == w implies o.contains(
            i as usize,
        ) by {
            if i < front.len() {
                assert(front[i] == kinds[i]);
                let k = choose|k: int| 0 <= k < g.len() && g[k] == i as usize;
                assert(o[k] == i as usize);
            } else {
                assert(o[o.len() - 1] == i as usize);
            }
        }
    }
}

/// A workload is looked at for its saturation just where it was run twice or more, with all its
/// runs.
pub proof fn law_saturated(kinds: Seq<WorkloadKind>, w: WorkloadKind)
    ensures
        (exists|k: int|
            0 <= k < groups(kinds, 5).len() && #[trigger] groups(kinds, 5)[k] == (
                w,
                runs_of(kinds, w),
            )) <==> runs_of(kinds, w).len() >= 2,
        groups(kinds, 5).len() <= 5,
        forall|k: int, l: int|
            0 <= k < l < groups(kinds, 5).len() ==> rank((#[trigger] groups(kinds, 5)[k]).0) < rank(
                (#[trigger] groups(kinds, 5)[l]).0,
            ),
{
    lemma_groups(kinds, 5, w);
}

proof fn lemma_groups(kinds: Seq<WorkloadKind>, n: nat, w: WorkloadKind)
    requires
        n <= 5,
    ensures
        (exists|k: int|
            0 <= k < groups(kinds, n).len() && #[trigger] groups(kinds, n)[k] == (
                w,
                runs_of(kinds, w),
            )) <==> runs_of(kinds, w).len() >= 2 && rank(w) < n,
        groups(kinds, n).len() <= n,
        forall|k: int|
            0 <= k < groups(kinds, n).len() ==> rank((#[trigger] groups(kinds, n)[k]).0) < n,
        forall|k: int, l: int|
            0 <= k < l < groups(kinds, n).len() ==> rank((#[trigger] groups(kinds, n)[k]).0) < rank(
                (#[trigger] groups(kinds, n)[l]).0,
            ),
    decreases n,
{
    if n > 0 {
        let m = (n - 1) as nat;
        lemma_groups(kinds, m, w);
        let g = groups(kinds, m);
        let o = groups(kinds, n);
        let last = all_workloads()[m as int];
        assert(rank(last) == m);
        if runs_of(kinds, w).len() >= 2 && rank(w) < n {
            if rank(w) < m {
                let k = choose|k: int|
                    0 <= k < g.len() && #[trigger] g[k] == (w, runs_of(kinds, w));
                assert(o[k] == g[k]);
            } else {
                assert(w == last);
                assert(o[o.len() - 1] == (w, runs_of(kinds, w)));
            }
        }
        if exists|k: int| 0 <= k < o.len() && #[trigger] o[k] == (w, runs_of(kinds, w)) {
            let k = choose|k: int| 0 <= k < o.len() && #[trigger] o[k] == (w, runs_of(kinds, w));
            if k < g.len() {
                assert(g[k] == o[k]);
            }
        }
        assert forall|k: int, l: int| 0 <= k < l < o.len() implies rank((#[trigger] o[k]).0) < rank(
            (#[trigger] o[l]).0,
        ) by {
            assert(o[k] == g[k]);
            if l < g.len() {
                assert(o[l] == g[l]);
            }
        }
        assert forall|k: int| 0 <= k < o.len() implies rank((#[trigger] o[k]).0) < n by {
            if k < g.len() {
                assert(o[k] == g[k]);
            }
        }
    }
}

/// All workloads but one that only writes need records to be there first. One that only writes
/// never asks, one that only reads always does, and the others ask where the coin says so.
pub proof fn law_workload_kinds(w: WorkloadKind, coin: bool, prefill: bool, asks: bool)
    requires
        call_ensures(needs_prefill, (w,), prefill),
        call_ensures(wants_range, (w, coin), asks),
    ensures
        prefill <==> w != WorkloadKind::Write,
        w == WorkloadKind::Write ==> !asks,
        w == WorkloadKind::Read ==> asks,
        w != WorkloadKind::Write && w != WorkloadKind::Read ==> asks == coin,
{
}

/// A query looks back from now as far as it should, but not before the beginning.
pub proof fn law_query_window(elapsed_ms: i64, window_secs: u32, r: (i64, i64))
    requires
        call_ensures(query_window, (elapsed_ms, window_secs), r),
        elapsed_ms >= 0,
    ensures
        r.1 == elapsed_ms,
        0 <= r.0 <= r.1,
        r.1 - r.0 <= 1000 * window_secs,
        elapsed_ms >= 1000 * window_secs ==> r.1 - r.0 == 1000 * window_secs,
        elapsed_ms < 1000 * window_secs ==> r.0 == 0,
{
}

/// How numbers are told: in which unit, divided by what and with how many digits behind the
/// point.
pub proof fn law_scales(n: u64, bytes: Scale, count: Scale, size: Scale)
    requires
        call_ensures(fmt_bytes, (n,), bytes),
        call_ensures(fmt_count, (n,), count),
        call_ensures(format_size, (n,), size),
    ensures
        bytes.divisor == byte_unit(n).0 && bytes.decimals == byte_unit(n).1 && bytes.unit@
            == byte_unit(n).2,
        count.divisor == count_unit(n).0 && count.decimals == count_unit(n).1 && count.unit@
            == count_unit(n).2,
        size.divisor == size_unit(n).0 && size.decimals == size_unit(n).1 && size.unit@
            == size_unit(n).2,
{
}

/// A batch that went through counts each of its records as inserted and its time once; one that
/// failed counts each as failed, and no time. Nothing else changes.
pub proof fn law_batch_counted(c: &mut ClientResult, n: u64, us: Option<u64>)
    requires
        call_ensures(ClientResult::batch_done, (c, n, us), ()),
    ensures
        us is Some ==> final(c).inserts_completed == old(c).inserts_completed + n
            && final(c).inserts_failed == old(c).inserts_failed,
        us is None ==> final(c).inserts_failed == old(c).inserts_failed + n
            && final(c).inserts_completed == old(c).inserts_completed,
        us is None ==> recorded(final(c).insert_latencies) == recorded(old(c).insert_latencies),
        us matches Some(t) ==> (t <= 60_000_000 ==> recorded(final(c).insert_latencies)
            == recorded(old(c).insert_latencies).insert(t)),
        final(c).range_queries_completed == old(c).range_queries_completed,
        final(c).ranges_failed == old(c).ranges_failed,
        final(c).records_scanned == old(c).records_scanned,
        recorded(final(c).range_latencies) == recorded(old(c).range_latencies),
{
    let (a, b) = (*old(c), *final(c));
    assert(b@.inserts == b.inserts_completed && a@.inserts == a.inserts_completed);
    assert(b@.failed_inserts == b.inserts_failed && a@.failed_inserts == a.inserts_failed);
    assert(b@.ranges == b.range_queries_completed && a@.ranges == a.range_queries_completed);
    assert(b@.failed_ranges == b.ranges_failed && a@.failed_ranges == a.ranges_failed);
    assert(b@.scanned == b.records_scanned && a@.scanned == a.records_scanned);
}

/// A query that went through counts once, with its records and its time; one that failed counts
/// once as failed. Nothing else changes.
pub proof fn law_query_counted(c: &mut ClientResult, done: Option<(u64, u64)>)
    requires
        call_ensures(ClientResult::range_done, (c, done), ()),
    ensures
        done matches Some((n, us)) ==> final(c).range_queries_completed
            == old(c).range_queries_completed + 1 && final(c).ranges_failed
            == old(c).ranges_failed && final(c).records_scanned == old(c).records_scanned + n,
        done is None ==> final(c).ranges_failed == old(c).ranges_failed + 1
            && final(c).range_queries_completed == old(c).range_queries_completed
            && final(c).records_scanned == old(c).records_scanned && recorded(
            final(c).range_latencies,
        ) == recorded(old(c).range_latencies),
        done matches Some((n, us)) ==> (us <= 60_000_000 ==> recorded(final(c).range_latencies)
            == recorded(old(c).range_latencies).insert(us)),
        final(c).inserts_completed == old(c).inserts_completed,
        final(c).inserts_failed == old(c).inserts_failed,
        recorded(final(c).insert_latencies) == recorded(old(c).insert_latencies),
{
    let (a, b) = (*old(c), *final(c));
    assert(b@.inserts == b.inserts_completed && a@.inserts == a.inserts_completed);
    assert(b@.failed_inserts == b.inserts_failed && a@.failed_inserts == a.inserts_failed);
    assert(b@.ranges == b.range_queries_completed && a@.ranges == a.range_queries_completed);
    assert(b@.failed_ranges == b.ranges_failed && a@.failed_ranges == a.ranges_failed);
    assert(b@.scanned == b.records_scanned && a@.scanned == a.records_scanned);
}

/// The results of two clients put together have what both have done.
pub proof fn law_clients_merged(c: &mut ClientResult, other: ClientResult)
    requires
        call_ensures(ClientResult::merge, (c, other), ()),
    ensures
        final(c).inserts_completed == old(c).inserts_completed + other.inserts_completed,
        final(c).inserts_failed == old(c).inserts_failed + other.inserts_failed,
        final(c).range_queries_completed == old(c).range_queries_completed
            + other.range_queries_completed,
        final(c).ranges_failed == old(c).ranges_failed + other.ranges_failed,
        final(c).records_scanned == old(c).records_scanned + other.records_scanned,
        recorded(final(c).insert_latencies) == recorded(old(c).insert_latencies).add(
            recorded(other.insert_latencies),
        ),
        recorded(final(c).range_latencies) == recorded(old(c).range_latencies).add(
            recorded(other.range_latencies),
        ),
{
    let (a, b) = (*old(c), *final(c));
    assert(b@ == a@.plus(other@));
    assert(b@.inserts == b.inserts_completed && a@.inserts == a.inserts_completed);
    assert(b@.failed_inserts == b.inserts_failed && a@.failed_inserts == a.inserts_failed);
    assert(b@.ranges == b.range_queries_completed && a@.ranges == a.range_queries_completed);
    assert(b@.failed_ranges == b.ranges_failed && a@.failed_ranges == a.ranges_failed);
    assert(b@.scanned == b.records_scanned && a@.scanned == a.records_scanned);
}

/// A client either asks, and then keeps what it has gathered, or gathers one record more, and
/// sends all that it has gathered as soon as that is a whole batch. Nothing that it has gathered
/// is lost, and each record is later than the one before by what was inserted meanwhile.
pub proof fn law_client_step(c: &mut ClientWork, draw: Draw, elapsed_ms: i64, r: WorkStep)
    requires
        call_ensures(ClientWork::step, (c, draw, elapsed_ms), r),
        elapsed_ms >= 0,
    ensures
        ({
            let asks = old(c).workload == WorkloadKind::Read || draw.coin && old(c).workload
                != WorkloadKind::Write;
            let n = old(c).pending@.len() as int;
            &&& r is Query <==> asks
            &&& r is Query ==> final(c).pending@ == old(c).pending@ && final(c).insert_count
                == old(c).insert_count
            &&& (r matches WorkStep::Query(q) ==> q.source_id == draw.source && q.key@ == "key_"@
                + decimal(draw.key as nat) && 0 <= q.start_ts <= q.end_ts && q.end_ts == elapsed_ms
                && q.end_ts - q.start_ts <= 1000 * old(c).range_window && (draw.filtered
                <==> q.filter@.len() > 0))
            &&& r is Flush <==> !asks && n + 1 >= old(c).batch_size
            &&& r is Gather <==> !asks && n + 1 < old(c).batch_size
            &&& r is Gather ==> final(c).pending@.len() == n + 1 && final(c).pending@.take(n)
                == old(c).pending@
            &&& (r matches WorkStep::Flush(v) ==> v@.len() == n + 1 && v@.take(n)
                == old(c).pending@ && final(c).pending@.len() == 0)
            &&& !asks ==> final(c).insert_count == old(c).insert_count + 1
            &&& (!asks ==> {
                let all = if r is Flush {
                    r->Flush_0@
                } else {
                    final(c).pending@
                };
                &&& all[n].source_id == draw.source
                &&& all[n].key@ == "key_"@ + decimal(draw.key as nat)
                &&& all[n].ts == elapsed_ms + old(c).insert_count
                &&& all[n].value@.len() == old(c).value_size
            })
        }),
{
    reveal_strlit("a");
    assert("a"@.len() == 1);
}

/// The name of a workload is one word, in capitals it is the same word in capitals, and as a
/// title it is the same word with a capital first letter. Only these words name a workload.
pub proof fn law_workload_words(w: WorkloadKind, s: Seq<char>, i: int)
    ensures
        w is Write <==> workload_name(w) == "write"@,
        w is Read <==> workload_name(w) == "read"@,
        w is Mixed <==> workload_name(w) == "mixed"@,
        w is Tail <==> workload_name(w) == "tail"@,
        w is Bulk <==> workload_name(w) == "bulk"@,
        workload_named(s) == Some(w) <==> s == workload_name(w),
        workload_capitals(w).len() == workload_name(w).len(),
        workload_title(w).len() == workload_name(w).len(),
        0 <= i < workload_name(w).len() ==> workload_capitals(w)[i] as int == workload_name(
            w,
        )[i] as int - 32,
        0 < i < workload_name(w).len() ==> workload_title(w)[i] == workload_name(w)[i],
        workload_title(w)[0] == workload_capitals(w)[0],
{
    reveal_strlit("write");
    reveal_strlit("read");
    reveal_strlit("mixed");
    reveal_strlit("tail");
    reveal_strlit("bulk");
    reveal_strlit("WRITE");
    reveal_strlit("READ");
    reveal_strlit("MIXED");
    reveal_strlit("TAIL");
    reveal_strlit("BULK");
    reveal_strlit("Write");
    reveal_strlit("Read");
    reveal_strlit("Mixed");
    reveal_strlit("Tail");
    reveal_strlit("Bulk");
    assert("write"@[0] == 'w' && "read"@[0] == 'r' && "mixed"@[0] == 'm' && "tail"@[0] == 't'
        && "bulk"@[0] == 'b');
}

/// A result is kept under its time, its workloads and its tag.
pub proof fn law_result_path(ts: u64, workloads: Seq<WorkloadKind>, tag: Seq<char>)
    ensures
        result_path(ts, workloads, None) == "prof/json/"@ + decimal(ts as nat) + "_"@
            + workload_list(workloads, "_"@) + ".json"@,
        result_path(ts, workloads, Some(tag)) == "prof/json/"@ + decimal(ts as nat) + "_"@
            + workload_list(workloads, "_"@) + "__"@ + tag + ".json"@,
{
    reveal_with_fuel(cat, 8);
    let a = seq![
        "prof/json/"@,
        decimal(ts as nat),
        "_"@,
        workload_list(workloads, "_"@),
        ".json"@,
    ];
    let b = seq![
        "prof/json/"@,
        decimal(ts as nat),
        "_"@,
        workload_list(workloads, "_"@),
        "__"@,
        tag,
        ".json"@,
    ];
    assert(cat(a) =~= "prof/json/"@ + decimal(ts as nat) + "_"@ + workload_list(workloads, "_"@)
        + ".json"@);
    assert(cat(b) =~= "prof/json/"@ + decimal(ts as nat) + "_"@ + workload_list(workloads, "_"@)
        + "__"@ + tag + ".json"@);
}

/// What is said when a run begins: which it is of how many, its workload, with how many clients
/// and for how long it runs.
pub proof fn law_run_heading(place: nat, total: nat, w: WorkloadKind, clients: nat, secs: nat)
    ensures
        run_heading(place, total, w, clients, secs) == "["@ + decimal(place) + "/"@ + decimal(total)
            + "] "@ + workload_name(w) + " | "@ + decimal(clients) + (if clients == 1 {
            "-client"@
        } else {
            "-client"@ + "s"@
        }) + " ("@ + decimal(secs) + "s) ...\n"@,
{
    reveal_with_fuel(cat, 14);
    let s = if clients == 1 {
        ""@
    } else {
        "s"@
    };
    let a = seq![
        "["@,
        decimal(place),
        "/"@,
        decimal(total),
        "] "@,
        workload_name(w),
        " | "@,
        decimal(clients),
        "-client"@,
        s,
        " ("@,
        decimal(secs),
        "s) ...\n"@,
    ];
    reveal_strlit("");
    assert(cat(a) =~= a[0] + a[1] + a[2] + a[3] + a[4] + a[5] + a[6] + a[7] + a[8] + a[9] + a[10]
        + a[11] + a[12]);
    assert(run_heading(place, total, w, clients, secs) =~= "["@ + decimal(place) + "/"@ + decimal(
        total,
    ) + "] "@ + workload_name(w) + " | "@ + decimal(clients) + (if clients == 1 {
        "-client"@
    } else {
        "-client"@ + "s"@
    }) + " ("@ + decimal(secs) + "s) ...\n"@);
}

} // verus!
