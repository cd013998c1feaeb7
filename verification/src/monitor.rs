//! Process-monitor bookkeeping: live-service rows, log file naming, log
//! retention, and terminal-mode restoration.
//!
//! A monitor accompanies one supervisor process. On start it records the
//! supervised child in a shared table of live services; on stop it removes
//! that record, restores the terminal, and names the stale log files to
//! purge. The database and the terminal device themselves live outside this
//! crate; here they are modeled by [`SandboxTable`], [`FilesystemTable`] and
//! [`Terminal`], which the callers mirror onto the real resources.

use vstd::prelude::*;

use crate::error::{MonoutilsError, MonoutilsResult};

verus! {

/// The suffix of every rotating log file name.
pub const LOG_SUFFIX: &'static str = "log";

/// The log file prefix for microVM supervisors.
pub const MCRUN_LOG_PREFIX: &'static str = "mcrun";

/// The log file prefix for NFS server supervisors.
pub const MFSRUN_LOG_PREFIX: &'static str = "mfsrun";

/// The character of a single decimal digit.
pub open spec fn digit_char(d: nat) -> char {
    if d == 0 {
        '0'
    } else if d == 1 {
        '1'
    } else if d == 2 {
        '2'
    } else if d == 3 {
        '3'
    } else if d == 4 {
        '4'
    } else if d == 5 {
        '5'
    } else if d == 6 {
        '6'
    } else if d == 7 {
        '7'
    } else if d == 8 {
        '8'
    } else {
        '9'
    }
}

/// The decimal rendering of a natural number, without leading zeros except
/// for zero itself.
pub open spec fn dec_str(n: nat) -> Seq<char>
    decreases n,
{
    if n < 10 {
        seq![digit_char(n)]
    } else {
        dec_str(n / 10).push(digit_char(n % 10))
    }
}

/// The string of a single decimal digit.
fn digit_str(d: u64) -> (r: &'static str)
    requires
        d < 10,
    ensures
        r@ == seq![digit_char(d as nat)],
{
    proof {
        reveal_strlit("0");
        reveal_strlit("1");
        reveal_strlit("2");
        reveal_strlit("3");
        reveal_strlit("4");
        reveal_strlit("5");
        reveal_strlit("6");
        reveal_strlit("7");
        reveal_strlit("8");
        reveal_strlit("9");
    }
    let r = if d == 0 {
        "0"
    } else if d == 1 {
        "1"
    } else if d == 2 {
        "2"
    } else if d == 3 {
        "3"
    } else if d == 4 {
        "4"
    } else if d == 5 {
        "5"
    } else if d == 6 {
        "6"
    } else if d == 7 {
        "7"
    } else if d == 8 {
        "8"
    } else {
        "9"
    };
    proof {
        assert(r@ =~= seq![digit_char(d as nat)]);
    }
    r
}

/// Renders a number in decimal.
pub fn dec_string(n: u64) -> (r: String)
    ensures
        r@ == dec_str(n as nat),
    decreases n,
{
    let d = digit_str(n % 10);
    if n < 10 {
        String::from_str(d)
    } else {
        let r = dec_string(n / 10).concat(d);
        proof {
            assert(r@ =~= dec_str((n / 10) as nat).push(digit_char((n % 10) as nat)));
        }
        r
    }
}

/// The name of a supervisor's log file:
/// `<prefix>-<service>-<unix_seconds>-<pid>.log`.
pub open spec fn log_file_name_spec(prefix: Seq<char>, name: Seq<char>, ts: nat, pid: nat) -> Seq<
    char,
> {
    prefix + "-"@ + name + "-"@ + dec_str(ts) + "-"@ + dec_str(pid) + "."@ + "log"@
}

/// Builds a log file name from its parts.
pub fn log_file_name(prefix: &str, name: &str, timestamp: u64, pid: u32) -> (r: String)
    ensures
        r@ == log_file_name_spec(prefix@, name@, timestamp as nat, pid as nat),
{
    let ts = dec_string(timestamp);
    let pd = dec_string(pid as u64);
    String::from_str(prefix).concat("-").concat(name).concat("-").concat(ts.as_str()).concat(
        "-",
    ).concat(pd.as_str()).concat(".").concat("log")
}

/// Relies on `std::time::SystemTime::now`: seconds since the Unix epoch,
/// or 0 where the clock reads before the epoch. Nothing further can be
/// promised of a clock reading.
#[verifier::external_body]
pub fn now_unix_secs() -> u64 {
    match std::time::SystemTime::now().duration_since(std::time::UNIX_EPOCH) {
        Result::Ok(d) => d.as_secs(),
        Result::Err(_) => 0,
    }
}

/// Whether `p` is a prefix of `s`.
pub open spec fn seq_is_prefix(p: Seq<char>, s: Seq<char>) -> bool {
    p.len() <= s.len() && s.subrange(0, p.len() as int) == p
}

/// Whether `p` is a suffix of `s`.
pub open spec fn seq_is_suffix(p: Seq<char>, s: Seq<char>) -> bool {
    p.len() <= s.len() && s.subrange(s.len() - p.len(), s.len() as int) == p
}

/// Whether a log directory entry is purged on stop: its name carries the
/// monitor's prefix and the log suffix, and it was last modified longer ago
/// than the retention window.
pub open spec fn should_purge_spec(
    file_name: Seq<char>,
    prefix: Seq<char>,
    modified_secs: nat,
    now_secs: nat,
    retention_secs: nat,
) -> bool {
    seq_is_prefix(prefix, file_name) && seq_is_suffix("log"@, file_name) && now_secs
        > modified_secs + retention_secs
}

/// Whether `s` starts with `prefix`.
fn starts_with(s: &str, prefix: &str) -> (r: bool)
    ensures
        r == seq_is_prefix(prefix@, s@),
{
    let n = prefix.unicode_len();
    let m = s.unicode_len();
    if n > m {
        return false;
    }
    let mut i: usize = 0;
    while i < n
        invariant
            0 <= i <= n <= m,
            n == prefix@.len(),
            m == s@.len(),
            forall|j: int| 0 <= j < i ==> s@[j] == prefix@[j],
        decreases n - i,
    {
        if s.get_char(i) != prefix.get_char(i) {
            assert(s@.subrange(0, n as int)[i as int] != prefix@[i as int]);
            return false;
        }
        i += 1;
    }
    assert(s@.subrange(0, n as int) =~= prefix@);
    true
}

/// Whether `s` ends with `suffix`.
fn ends_with(s: &str, suffix: &str) -> (r: bool)
    ensures
        r == seq_is_suffix(suffix@, s@),
{
    let n = suffix.unicode_len();
    let m = s.unicode_len();
    if n > m {
        return false;
    }
    let off = m - n;
    let mut i: usize = 0;
    while i < n
        invariant
            0 <= i <= n <= m,
            off == m - n,
            n == suffix@.len(),
            m == s@.len(),
            forall|j: int| 0 <= j < i ==> s@[off + j] == suffix@[j],
        decreases n - i,
    {
        if s.get_char(off + i) != suffix.get_char(i) {
            assert(s@.subrange(off as int, m as int)[i as int] != suffix@[i as int]);
            return false;
        }
        i += 1;
    }
    assert(s@.subrange(off as int, m as int) =~= suffix@);
    true
}

/// A log directory entry: a file name and its last-modified time in seconds
/// since the Unix epoch.
pub struct LogFileInfo {
    /// The file's name within the log directory.
    pub name: String,
    /// The file's last modification time, in seconds since the Unix epoch.
    pub modified_secs: u64,
}

/// Decides for one log directory entry whether it is purged.
pub fn should_purge(
    file_name: &str,
    prefix: &str,
    modified_secs: u64,
    now_secs: u64,
    retention_secs: u64,
) -> (r: bool)
    ensures
        r == should_purge_spec(
            file_name@,
            prefix@,
            modified_secs as nat,
            now_secs as nat,
            retention_secs as nat,
        ),
{
    if !starts_with(file_name, prefix) {
        return false;
    }
    if !ends_with(file_name, "log") {
        return false;
    }
    now_secs > modified_secs && now_secs - modified_secs > retention_secs
}

/// The names among `entries` that the purge rule selects, in order.
pub open spec fn purge_names(
    entries: Seq<LogFileInfo>,
    prefix: Seq<char>,
    now_secs: nat,
    retention_secs: nat,
) -> Seq<Seq<char>>
    decreases entries.len(),
{
    if entries.len() == 0 {
        Seq::<Seq<char>>::empty()
    } else {
        let rest = purge_names(entries.drop_last(), prefix, now_secs, retention_secs);
        if should_purge_spec(
            entries.last().name@,
            prefix,
            entries.last().modified_secs as nat,
            now_secs,
            retention_secs,
        ) {
            rest.push(entries.last().name@)
        } else {
            rest
        }
    }
}

/// Selects from a log directory listing the file names to purge.
pub fn purge_candidates(
    entries: &Vec<LogFileInfo>,
    prefix: &str,
    now_secs: u64,
    retention_secs: u64,
) -> (r: Vec<String>)
    ensures
        r@.map_values(|x: String| x@) == purge_names(
            entries@,
            prefix@,
            now_secs as nat,
            retention_secs as nat,
        ),
{
    let mut out: Vec<String> = Vec::new();
    let mut i: usize = 0;
    proof {
        assert(out@.map_values(|x: String| x@) =~= purge_names(
            entries@.take(0),
            prefix@,
            now_secs as nat,
            retention_secs as nat,
        ));
    }
    while i < entries.len()
        invariant
            0 <= i <= entries@.len(),
            out@.map_values(|x: String| x@) == purge_names(
                entries@.take(i as int),
                prefix@,
                now_secs as nat,
                retention_secs as nat,
            ),
        decreases entries@.len() - i,
    {
        proof {
            assert(entries@.take(i + 1int).drop_last() =~= entries@.take(i as int));
            assert(entries@.take(i + 1int).last() == entries@[i as int]);
        }
        let e = &entries[i];
        let take_it = should_purge(e.name.as_str(), prefix, e.modified_secs, now_secs,
            retention_secs);
        if take_it {
            out.push(e.name.clone());
            proof {
                assert(out@.map_values(|x: String| x@) =~= purge_names(
                    entries@.take(i as int),
                    prefix@,
                    now_secs as nat,
                    retention_secs as nat,
                ).push(e.name@));
            }
        }
        i += 1;
    }
    proof {
        assert(entries@.take(entries@.len() as int) =~= entries@);
    }
    out
}

/// The rows that survive deleting a supervisor: those owned by some other
/// supervisor PID.
pub open spec fn keeps_other_supervisor(pid: u32) -> spec_fn(SandboxRow) -> bool {
    |r: SandboxRow| r.supervisor_pid != pid
}

/// One live-service record, keyed by the service name.
pub struct SandboxRow {
    /// The service name; the table's primary key.
    pub name: String,
    /// The PID of the supervisor process.
    pub supervisor_pid: u32,
    /// The PID of the microVM child process.
    pub microvm_pid: u32,
    /// The service's current status text.
    pub status: String,
    /// The path of the merged root filesystem.
    pub root_path: String,
    /// The VM's own address within its group, if one was assigned.
    pub assigned_ip: Option<String>,
    /// The group's gateway address, if any.
    pub group_ip: Option<String>,
}

/// The table of live services, mirrored onto the shared database.
///
/// A row exists exactly between "child spawned" and "child reaped".
pub struct SandboxTable {
    /// The rows, in insertion order.
    pub rows: Vec<SandboxRow>,
}

impl SandboxTable {
    /// Well-formedness: the service name is a primary key, so no two rows
    /// share one.
    pub open spec fn wf(self) -> bool {
        forall|i: int, j: int|
            0 <= i < j < self.rows@.len() ==> self.rows@[i].name@ != self.rows@[j].name@
    }

    /// Whether some row carries this service name.
    pub open spec fn spec_contains_name(self, name: Seq<char>) -> bool {
        exists|i: int| 0 <= i < self.rows@.len() && self.rows@[i].name@ == name
    }

    /// Creates an empty table.
    pub fn new() -> (r: SandboxTable)
        ensures
            r.rows@ =~= Seq::<SandboxRow>::empty(),
            r.wf(),
    {
        SandboxTable { rows: Vec::new() }
    }

    /// Whether a row with this service name exists.
    pub fn contains_name(&self, name: &str) -> (r: bool)
        ensures
            r == self.spec_contains_name(name@),
    {
        let mut i: usize = 0;
        while i < self.rows.len()
            invariant
                0 <= i <= self.rows@.len(),
                forall|j: int| 0 <= j < i ==> self.rows@[j].name@ != name@,
            decreases self.rows@.len() - i,
        {
            if self.rows[i].name.as_str().unicode_len() == name.unicode_len() && starts_with(
                self.rows[i].name.as_str(),
                name,
            ) {
                proof {
                    assert(self.rows@[i as int].name@ =~= name@);
                }
                return true;
            }
            proof {
                if self.rows@[i as int].name@ == name@ {
                    assert(self.rows@[i as int].name@.subrange(0, name@.len() as int) =~= name@);
                    assert(seq_is_prefix(name@, self.rows@[i as int].name@));
                }
            }
            i += 1;
        }
        false
    }

    /// Inserts a row. Fails, leaving the table unchanged, exactly when a
    /// row with the same name already exists (a primary-key violation).
    pub fn insert(&mut self, row: SandboxRow) -> (r: MonoutilsResult<()>)
        requires
            old(self).wf(),
        ensures
            final(self).wf(),
            r is Ok <==> !old(self).spec_contains_name(row.name@),
            r is Ok ==> final(self).rows@ == old(self).rows@.push(row),
            r is Err ==> final(self).rows@ == old(self).rows@ && r matches Result::Err(
                MonoutilsError::Custom(_),
            ),
    {
        if self.contains_name(row.name.as_str()) {
            return Result::Err(MonoutilsError::Custom(row.name));
        }
        self.rows.push(row);
        Result::Ok(())
    }

    /// Removes every row carrying this supervisor PID.
    pub fn delete_by_supervisor_pid(&mut self, pid: u32)
        requires
            old(self).wf(),
        ensures
            final(self).wf(),
            final(self).rows@ == old(self).rows@.filter(keeps_other_supervisor(pid)),
    {
        let ghost pred = keeps_other_supervisor(pid);
        let ghost orig = self.rows@;
        let mut out: Vec<SandboxRow> = Vec::new();
        let mut i: usize = 0;
        proof {
            reveal(Seq::filter);
            assert(out@ =~= orig.take(0).filter(pred));
        }
        while i < self.rows.len()
            invariant
                0 <= i <= self.rows@.len(),
                orig == self.rows@,
                old(self).wf(),
                orig == old(self).rows@,
                pred == keeps_other_supervisor(pid),
                out@ == orig.take(i as int).filter(pred),
            decreases self.rows@.len() - i,
        {
            let keep = self.rows[i].supervisor_pid != pid;
            if keep {
                let ghost prev = out@;
                let r = SandboxRow {
                    name: self.rows[i].name.clone(),
                    supervisor_pid: self.rows[i].supervisor_pid,
                    microvm_pid: self.rows[i].microvm_pid,
                    status: self.rows[i].status.clone(),
                    root_path: self.rows[i].root_path.clone(),
                    assigned_ip: match &self.rows[i].assigned_ip {
                        Option::Some(s) => Option::Some(s.clone()),
                        Option::None => Option::None,
                    },
                    group_ip: match &self.rows[i].group_ip {
                        Option::Some(s) => Option::Some(s.clone()),
                        Option::None => Option::None,
                    },
                };
                proof {
                    assert(r == orig[i as int]);
                }
                out.push(r);
                proof {
                    assert(out@ =~= prev.push(orig[i as int]));
                }
            }
            proof {
                reveal(Seq::filter);
                assert(orig.take(i + 1int).drop_last() =~= orig.take(i as int));
                assert(orig.take(i + 1int).last() == orig[i as int]);
                assert(orig.take(i + 1int).len() > 0);
                if keep {
                    assert(pred(orig[i as int]));
                    assert(orig.take(i + 1int).filter(pred) == orig.take(i as int).filter(
                        pred,
                    ).push(orig[i as int]));
                } else {
                    assert(!pred(orig[i as int]));
                    assert(orig.take(i + 1int).filter(pred) == orig.take(i as int).filter(pred));
                }
                assert(out@ == orig.take(i + 1int).filter(pred));
            }
            i += 1;
        }
        proof {
            assert(orig.take(orig.len() as int) =~= orig);
            assert(out@ == orig.filter(pred));
            assert forall|a: int, b: int|
                0 <= a < b < out@.len() implies out@[a].name@ != out@[b].name@ by {
                lemma_filter_distinct(orig, pred, a, b);
                let (i2, j2) = choose|i2: int, j2: int|
                    0 <= i2 < j2 < orig.len() && orig.filter(pred)[a] == orig[i2] && orig.filter(
                        pred,
                    )[b] == orig[j2];
                assert(orig[i2].name@ != orig[j2].name@);
            };
        }
        self.rows = out;
    }

    /// Removes every row: the table after a full teardown.
    pub fn clear(&mut self)
        ensures
            final(self).rows@ =~= Seq::<SandboxRow>::empty(),
            final(self).wf(),
    {
        self.rows = Vec::new();
    }
}

/// Distinct positions of a filtered sequence come from distinct positions
/// of the original, in order.
pub proof fn lemma_filter_distinct<A>(s: Seq<A>, pred: spec_fn(A) -> bool, a: int, b: int)
    requires
        0 <= a < b < s.filter(pred).len(),
    ensures
        exists|i: int, j: int|
            0 <= i < j < s.len() && s.filter(pred)[a] == s[i] && s.filter(pred)[b] == s[j],
    decreases s.len(),
{
    reveal(Seq::filter);
    if s.len() > 0 {
        let rest = s.drop_last().filter(pred);
        if pred(s.last()) {
            if b < rest.len() {
                lemma_filter_distinct(s.drop_last(), pred, a, b);
                let (i, j) = choose|i: int, j: int|
                    0 <= i < j < s.drop_last().len() && s.drop_last().filter(pred)[a]
                        == s.drop_last()[i] && s.drop_last().filter(pred)[b] == s.drop_last()[j];
                assert(s.filter(pred)[a] == s[i] && s.filter(pred)[b] == s[j]);
            } else {
                // b is the appended last element
                assert(s.filter(pred)[b] == s.last());
                lemma_filter_from(s.drop_last(), pred, a);
                let i = choose|i: int|
                    0 <= i < s.drop_last().len() && s.drop_last().filter(pred)[a]
                        == s.drop_last()[i];
                assert(s.filter(pred)[a] == s[i]);
                assert(s.filter(pred)[b] == s[s.len() - 1]);
            }
        } else {
            lemma_filter_distinct(s.drop_last(), pred, a, b);
            let (i, j) = choose|i: int, j: int|
                0 <= i < j < s.drop_last().len() && s.drop_last().filter(pred)[a]
                    == s.drop_last()[i] && s.drop_last().filter(pred)[b] == s.drop_last()[j];
            assert(s.filter(pred)[a] == s[i] && s.filter(pred)[b] == s[j]);
        }
    }
}

/// Whether two strings hold the same characters.
fn str_eq(a: &str, b: &str) -> (r: bool)
    ensures
        r == (a@ == b@),
{
    if a.unicode_len() != b.unicode_len() {
        return false;
    }
    let r = starts_with(a, b);
    proof {
        if a@ == b@ {
            assert(a@.subrange(0, b@.len() as int) =~= b@);
        }
        if r {
            assert(a@.subrange(0, b@.len() as int) =~= a@);
        }
    }
    r
}

/// The terminal mode `cfmakeraw` switches to; the monitor saves the prior
/// mode before entering it.
pub const RAW_TERMINAL_MODE: u64 = 0;

/// The controlling terminal's settings, mirrored from the real device by
/// the caller.
pub struct Terminal {
    /// The current terminal mode word.
    pub mode: u64,
}

/// The terminal mode after a monitor start: raw in TTY mode, untouched
/// otherwise.
pub open spec fn term_after_start(mode: u64, tty: bool) -> u64 {
    if tty {
        RAW_TERMINAL_MODE as u64
    } else {
        mode
    }
}

/// What a monitor start saves: the prior mode in TTY mode, nothing
/// otherwise.
pub open spec fn saved_after_start(mode: u64, tty: bool) -> Option<u64> {
    if tty {
        Some(mode)
    } else {
        Option::None
    }
}

/// The terminal mode after restoration: the saved mode if one was saved,
/// the current mode otherwise.
pub open spec fn term_after_restore(saved: Option<u64>, mode: u64) -> u64 {
    match saved {
        Option::Some(m) => m,
        Option::None => mode,
    }
}

/// Terminal settings after a start→stop cycle equal those before it,
/// whether or not the start entered raw TTY mode.
pub proof fn lemma_terminal_restored(mode: u64, tty: bool)
    ensures
        term_after_restore(saved_after_start(mode, tty), term_after_start(mode, tty)) == mode,
{
}

/// A process monitor for microVMs: it records the live service in the
/// sandbox table, names the rotating log, and restores the terminal on
/// stop. The shared database, the log files and the terminal device are the
/// caller's to drive; this type decides exactly what they must hold.
pub struct MicroVmMonitor {
    /// The PID of the supervisor that owns this monitor.
    pub supervisor_pid: u32,
    /// The directory that holds the rotating logs.
    pub log_dir: String,
    /// The merged root filesystem path of the supervised microVM.
    pub root_path: String,
    /// How long rolled log files are kept, in seconds.
    pub retention_secs: u64,
    /// The current microVM log path, between start and stop.
    pub log_path: Option<String>,
    /// The terminal mode saved on entering raw mode, if any.
    pub original_term: Option<u64>,
    /// Whether child output is echoed to the parent's stdout and stderr.
    pub forward_output: bool,
}

impl MicroVmMonitor {
    /// The parts of a monitor that start and stop never change.
    pub open spec fn same_settings(self, other: MicroVmMonitor) -> bool {
        self.supervisor_pid == other.supervisor_pid && self.log_dir@ == other.log_dir@
            && self.root_path@ == other.root_path@ && self.retention_secs == other.retention_secs
            && self.forward_output == other.forward_output
    }

    /// Creates a new microVM monitor.
    pub fn new(
        supervisor_pid: u32,
        log_dir: String,
        root_path: String,
        retention_secs: u64,
        forward_output: bool,
    ) -> (r: MicroVmMonitor)
        ensures
            r.supervisor_pid == supervisor_pid,
            r.log_dir@ == log_dir@,
            r.root_path@ == root_path@,
            r.retention_secs == retention_secs,
            r.forward_output == forward_output,
            r.log_path is None,
            r.original_term is None,
    {
        MicroVmMonitor {
            supervisor_pid,
            log_dir,
            root_path,
            retention_secs,
            log_path: Option::None,
            original_term: Option::None,
            forward_output,
        }
    }

    /// Generates a unique log name from the service name, the child PID and
    /// the clock: `mcrun-<name>-<timestamp>-<pid>.log`.
    fn generate_log_name(&self, child_pid: u32, name: &str) -> (r: String)
        ensures
            exists|ts: nat|
                r@ == log_file_name_spec("mcrun"@, name@, ts, child_pid as nat),
    {
        let timestamp = now_unix_secs();
        let r = log_file_name(MCRUN_LOG_PREFIX, name, timestamp, child_pid);
        proof {
            assert(r@ == log_file_name_spec("mcrun"@, name@, timestamp as nat, child_pid as nat));
        }
        r
    }

    /// Begins monitoring a spawned child: opens the log path and inserts
    /// the service's row, with status `STARTING`, into the sandbox table;
    /// in TTY mode it then saves the terminal settings and enters raw mode.
    ///
    /// Fails, touching neither table nor terminal, exactly when a row with
    /// the same service name already exists.
    pub fn start(
        &mut self,
        table: &mut SandboxTable,
        term: &mut Terminal,
        pid: u32,
        name: String,
        tty: bool,
    ) -> (r: MonoutilsResult<()>)
        requires
            old(table).wf(),
        ensures
            final(table).wf(),
            final(self).same_settings(*old(self)),
            r is Ok <==> !old(table).spec_contains_name(name@),
            final(self).log_path is Some,
            exists|ts: nat|
                final(self).log_path.unwrap()@ == old(self).log_dir@ + "/"@ + log_file_name_spec(
                    "mcrun"@,
                    name@,
                    ts,
                    pid as nat,
                ),
            r is Ok ==> {
                &&& final(table).rows@.len() == old(table).rows@.len() + 1
                &&& final(table).rows@.drop_last() == old(table).rows@
                &&& final(table).rows@.last().name@ == name@
                &&& final(table).rows@.last().supervisor_pid == old(self).supervisor_pid
                &&& final(table).rows@.last().microvm_pid == pid
                &&& final(table).rows@.last().status@ == "STARTING"@
                &&& final(table).rows@.last().root_path@ == old(self).root_path@
                &&& final(table).rows@.last().assigned_ip is None
                &&& final(table).rows@.last().group_ip is None
                &&& final(term).mode == term_after_start(old(term).mode, tty)
                &&& (tty ==> final(self).original_term == saved_after_start(old(term).mode, tty))
                &&& (!tty ==> final(self).original_term == old(self).original_term)
            },
            r is Err ==> final(table).rows@ == old(table).rows@ && *final(term) == *old(term)
                && final(self).original_term == old(self).original_term && r matches Result::Err(
                MonoutilsError::Custom(_),
            ),
    {
        let log_name = self.generate_log_name(pid, name.as_str());
        let log_path = self.log_dir.clone().concat("/").concat(log_name.as_str());
        self.log_path = Option::Some(log_path);
        let row = SandboxRow {
            name,
            supervisor_pid: self.supervisor_pid,
            microvm_pid: pid,
            status: String::from_str("STARTING"),
            root_path: self.root_path.clone(),
            assigned_ip: Option::None,
            group_ip: Option::None,
        };
        match table.insert(row) {
            Result::Ok(()) => {
                proof {
                    assert(table.rows@.drop_last() =~= old(table).rows@);
                }
                if tty {
                    self.original_term = Option::Some(term.mode);
                    term.mode = RAW_TERMINAL_MODE;
                }
                Result::Ok(())
            },
            Result::Err(e) => Result::Err(e),
        }
    }

    /// Restores the terminal settings saved by a TTY-mode start, if any are
    /// held; afterwards none are, so a second call changes nothing.
    pub fn restore_terminal_settings(&mut self, term: &mut Terminal)
        ensures
            final(self).same_settings(*old(self)),
            final(self).log_path == old(self).log_path,
            final(self).original_term is None,
            final(term).mode == term_after_restore(old(self).original_term, old(term).mode),
    {
        match self.original_term {
            Option::Some(m) => {
                term.mode = m;
                self.original_term = Option::None;
            },
            Option::None => {},
        }
    }

    /// Stops monitoring: restores the terminal, deletes this supervisor's
    /// rows from the sandbox table, clears the log path, and returns the
    /// names of the stale log files to purge — those with the `mcrun`
    /// prefix and log suffix whose age exceeds the retention window.
    pub fn stop(
        &mut self,
        table: &mut SandboxTable,
        term: &mut Terminal,
        entries: &Vec<LogFileInfo>,
    ) -> (purge: Vec<String>)
        requires
            old(table).wf(),
        ensures
            final(table).wf(),
            final(self).same_settings(*old(self)),
            final(table).rows@ == old(table).rows@.filter(
                keeps_other_supervisor(old(self).supervisor_pid),
            ),
            final(term).mode == term_after_restore(old(self).original_term, old(term).mode),
            final(self).original_term is None,
            final(self).log_path is None,
            exists|now: nat|
                purge@.map_values(|x: String| x@) == purge_names(
                    entries@,
                    "mcrun"@,
                    now,
                    old(self).retention_secs as nat,
                ),
    {
        self.restore_terminal_settings(term);
        table.delete_by_supervisor_pid(self.supervisor_pid);
        let now = now_unix_secs();
        let purge = purge_candidates(entries, MCRUN_LOG_PREFIX, now, self.retention_secs);
        self.log_path = Option::None;
        purge
    }
}

/// At most one sandbox row carries any service name: in a well-formed
/// table, two rows with the same name are the same row.
pub proof fn lemma_sandbox_name_unique(t: SandboxTable, i: int, j: int)
    requires
        t.wf(),
        0 <= i < t.rows@.len(),
        0 <= j < t.rows@.len(),
        t.rows@[i].name@ == t.rows@[j].name@,
    ensures
        i == j,
{
    if i < j {
        assert(t.rows@[i].name@ != t.rows@[j].name@);
    }
    if j < i {
        assert(t.rows@[j].name@ != t.rows@[i].name@);
    }
}

/// One live-filesystem record, keyed by the filesystem name.
pub struct FilesystemRow {
    /// The filesystem name; the table's primary key.
    pub name: String,
    /// The directory where the filesystem is mounted.
    pub mount_dir: String,
    /// The PID of the supervisor process.
    pub supervisor_pid: u32,
    /// The PID of the NFS server child process.
    pub nfsserver_pid: u32,
}

/// The rows that survive deleting a filesystem: those under another mount
/// directory or another supervisor.
pub open spec fn keeps_other_filesystem(mount_dir: Seq<char>, pid: u32) -> spec_fn(
    FilesystemRow,
) -> bool {
    |r: FilesystemRow| !(r.mount_dir@ == mount_dir && r.supervisor_pid == pid)
}

/// The table of live filesystems, mirrored onto the shared database.
pub struct FilesystemTable {
    /// The rows, in insertion order.
    pub rows: Vec<FilesystemRow>,
}

impl FilesystemTable {
    /// Well-formedness: the filesystem name is a primary key.
    pub open spec fn wf(self) -> bool {
        forall|i: int, j: int|
            0 <= i < j < self.rows@.len() ==> self.rows@[i].name@ != self.rows@[j].name@
    }

    /// Whether some row carries this filesystem name.
    pub open spec fn spec_contains_name(self, name: Seq<char>) -> bool {
        exists|i: int| 0 <= i < self.rows@.len() && self.rows@[i].name@ == name
    }

    /// Creates an empty table.
    pub fn new() -> (r: FilesystemTable)
        ensures
            r.rows@ =~= Seq::<FilesystemRow>::empty(),
            r.wf(),
    {
        FilesystemTable { rows: Vec::new() }
    }

    /// Inserts a row. Fails, leaving the table unchanged, exactly when a
    /// row with the same name already exists (a primary-key violation).
    pub fn insert(&mut self, row: FilesystemRow) -> (r: MonoutilsResult<()>)
        requires
            old(self).wf(),
        ensures
            final(self).wf(),
            r is Ok <==> !old(self).spec_contains_name(row.name@),
            r is Ok ==> final(self).rows@ == old(self).rows@.push(row),
            r is Err ==> final(self).rows@ == old(self).rows@ && r matches Result::Err(
                MonoutilsError::Custom(_),
            ),
    {
        let mut i: usize = 0;
        while i < self.rows.len()
            invariant
                0 <= i <= self.rows@.len(),
                self.rows@ == old(self).rows@,
                old(self).wf(),
                forall|j: int| 0 <= j < i ==> self.rows@[j].name@ != row.name@,
            decreases self.rows@.len() - i,
        {
            if str_eq(self.rows[i].name.as_str(), row.name.as_str()) {
                return Result::Err(MonoutilsError::Custom(row.name));
            }
            i += 1;
        }
        self.rows.push(row);
        Result::Ok(())
    }

    /// Removes every row carrying this mount directory and supervisor PID.
    pub fn delete_by_mount_and_supervisor(&mut self, mount_dir: &str, pid: u32)
        requires
            old(self).wf(),
        ensures
            final(self).wf(),
            final(self).rows@ == old(self).rows@.filter(
                keeps_other_filesystem(mount_dir@, pid),
            ),
    {
        let ghost pred = keeps_other_filesystem(mount_dir@, pid);
        let ghost orig = self.rows@;
        let mut out: Vec<FilesystemRow> = Vec::new();
        let mut i: usize = 0;
        proof {
            reveal(Seq::filter);
            assert(out@ =~= orig.take(0).filter(pred));
        }
        while i < self.rows.len()
            invariant
                0 <= i <= self.rows@.len(),
                orig == self.rows@,
                old(self).wf(),
                orig == old(self).rows@,
                pred == keeps_other_filesystem(mount_dir@, pid),
                out@ == orig.take(i as int).filter(pred),
            decreases self.rows@.len() - i,
        {
            let keep = !(str_eq(self.rows[i].mount_dir.as_str(), mount_dir)
                && self.rows[i].supervisor_pid == pid);
            if keep {
                let ghost prev = out@;
                let r = FilesystemRow {
                    name: self.rows[i].name.clone(),
                    mount_dir: self.rows[i].mount_dir.clone(),
                    supervisor_pid: self.rows[i].supervisor_pid,
                    nfsserver_pid: self.rows[i].nfsserver_pid,
                };
                proof {
                    assert(r == orig[i as int]);
                }
                out.push(r);
                proof {
                    assert(out@ =~= prev.push(orig[i as int]));
                }
            }
            proof {
                reveal(Seq::filter);
                assert(orig.take(i + 1int).drop_last() =~= orig.take(i as int));
                assert(orig.take(i + 1int).last() == orig[i as int]);
                assert(orig.take(i + 1int).len() > 0);
                if keep {
                    assert(pred(orig[i as int]));
                    assert(orig.take(i + 1int).filter(pred) == orig.take(i as int).filter(
                        pred,
                    ).push(orig[i as int]));
                } else {
                    assert(!pred(orig[i as int]));
                    assert(orig.take(i + 1int).filter(pred) == orig.take(i as int).filter(pred));
                }
                assert(out@ == orig.take(i + 1int).filter(pred));
            }
            i += 1;
        }
        proof {
            assert(orig.take(orig.len() as int) =~= orig);
            assert(out@ == orig.filter(pred));
            assert forall|a: int, b: int|
                0 <= a < b < out@.len() implies out@[a].name@ != out@[b].name@ by {
                lemma_filter_distinct(orig, pred, a, b);
                let (i2, j2) = choose|i2: int, j2: int|
                    0 <= i2 < j2 < orig.len() && orig.filter(pred)[a] == orig[i2] && orig.filter(
                        pred,
                    )[b] == orig[j2];
                assert(orig[i2].name@ != orig[j2].name@);
            };
        }
        self.rows = out;
    }
}

/// A process monitor for NFS servers: it records the live filesystem in the
/// filesystem table and names the rotating log. The shared database and the
/// log files are the caller's to drive.
pub struct NfsServerMonitor {
    /// The PID of the supervisor that owns this monitor.
    pub supervisor_pid: u32,
    /// The directory where the served filesystem is mounted.
    pub mount_dir: String,
    /// The directory that holds the rotating logs.
    pub log_dir: String,
    /// The current server log path, between start and stop.
    pub log_path: Option<String>,
}

impl NfsServerMonitor {
    /// The parts of a monitor that start and stop never change.
    pub open spec fn same_settings(self, other: NfsServerMonitor) -> bool {
        self.supervisor_pid == other.supervisor_pid && self.mount_dir@ == other.mount_dir@
            && self.log_dir@ == other.log_dir@
    }

    /// Creates a new NFS server monitor.
    pub fn new(supervisor_pid: u32, mount_dir: String, log_dir: String) -> (r: NfsServerMonitor)
        ensures
            r.supervisor_pid == supervisor_pid,
            r.mount_dir@ == mount_dir@,
            r.log_dir@ == log_dir@,
            r.log_path is None,
    {
        NfsServerMonitor { supervisor_pid, mount_dir, log_dir, log_path: Option::None }
    }

    /// Begins monitoring a spawned NFS server: opens the log path and
    /// inserts the filesystem's row into the filesystem table.
    ///
    /// Fails, leaving the table unchanged, exactly when a row with the same
    /// filesystem name already exists.
    pub fn start(&mut self, table: &mut FilesystemTable, pid: u32, name: String) -> (r:
        MonoutilsResult<()>)
        requires
            old(table).wf(),
        ensures
            final(table).wf(),
            final(self).same_settings(*old(self)),
            r is Ok <==> !old(table).spec_contains_name(name@),
            final(self).log_path is Some,
            exists|ts: nat|
                final(self).log_path.unwrap()@ == old(self).log_dir@ + "/"@ + log_file_name_spec(
                    "mfsrun"@,
                    name@,
                    ts,
                    pid as nat,
                ),
            r is Ok ==> {
                &&& final(table).rows@.len() == old(table).rows@.len() + 1
                &&& final(table).rows@.drop_last() == old(table).rows@
                &&& final(table).rows@.last().name@ == name@
                &&& final(table).rows@.last().mount_dir@ == old(self).mount_dir@
                &&& final(table).rows@.last().supervisor_pid == old(self).supervisor_pid
                &&& final(table).rows@.last().nfsserver_pid == pid
            },
            r is Err ==> final(table).rows@ == old(table).rows@ && r matches Result::Err(
                MonoutilsError::Custom(_),
            ),
    {
        let timestamp = now_unix_secs();
        let log_name = log_file_name(MFSRUN_LOG_PREFIX, name.as_str(), timestamp, pid);
        let log_path = self.log_dir.clone().concat("/").concat(log_name.as_str());
        self.log_path = Option::Some(log_path);
        let row = FilesystemRow {
            name,
            mount_dir: self.mount_dir.clone(),
            supervisor_pid: self.supervisor_pid,
            nfsserver_pid: pid,
        };
        match table.insert(row) {
            Result::Ok(()) => {
                proof {
                    assert(table.rows@.drop_last() =~= old(table).rows@);
                }
                Result::Ok(())
            },
            Result::Err(e) => Result::Err(e),
        }
    }

    /// Stops monitoring: deletes this monitor's row from the filesystem
    /// table, clears the log path, and hands back the log file to delete.
    pub fn stop(&mut self, table: &mut FilesystemTable) -> (removed_log: Option<String>)
        requires
            old(table).wf(),
        ensures
            final(table).wf(),
            final(self).same_settings(*old(self)),
            final(table).rows@ == old(table).rows@.filter(
                keeps_other_filesystem(old(self).mount_dir@, old(self).supervisor_pid),
            ),
            final(self).log_path is None,
            removed_log == old(self).log_path,
    {
        let mount = self.mount_dir.clone();
        table.delete_by_mount_and_supervisor(mount.as_str(), self.supervisor_pid);
        let removed = match &self.log_path {
            Option::Some(p) => Option::Some(p.clone()),
            Option::None => Option::None,
        };
        self.log_path = Option::None;
        removed
    }
}

/// Every element of a filtered sequence comes from the original.
pub proof fn lemma_filter_from<A>(s: Seq<A>, pred: spec_fn(A) -> bool, a: int)
    requires
        0 <= a < s.filter(pred).len(),
    ensures
        exists|i: int| 0 <= i < s.len() && s.filter(pred)[a] == s[i],
    decreases s.len(),
{
    reveal(Seq::filter);
    if s.len() > 0 {
        let rest = s.drop_last().filter(pred);
        if pred(s.last()) && a == rest.len() {
            assert(s.filter(pred)[a] == s[s.len() - 1]);
        } else {
            lemma_filter_from(s.drop_last(), pred, a);
            let i = choose|i: int|
                0 <= i < s.drop_last().len() && s.drop_last().filter(pred)[a] == s.drop_last()[i];
            assert(s.filter(pred)[a] == s[i]);
        }
    }
}

} // verus!
