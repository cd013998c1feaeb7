//! Service and group descriptors, and the runtime state of a microVM.

use vstd::prelude::*;

use crate::monitor::now_unix_secs;
use crate::vm::{EnvPair, LinuxRlimit, PathPair, PortPair};

verus! {

/// A named workload descriptor.
#[derive(Debug)]
pub struct Service {
    /// The service name, unique within a configuration.
    pub name: String,
    /// The base image reference, `repo:tag`.
    pub base: String,
    /// The group the service belongs to.
    pub group: String,
    /// The command path run in the guest.
    pub command: String,
    /// The command's argument list.
    pub args: Vec<String>,
    /// The environment bindings for the command.
    pub envs: Vec<EnvPair>,
    /// The declared number of vCPUs.
    pub cpus: u8,
    /// The declared RAM in MiB.
    pub ram_mib: u32,
    /// The host-to-guest port mappings.
    pub ports: Vec<PortPair>,
    /// The host-to-guest volume mounts.
    pub volumes: Vec<PathPair>,
    /// The guest resource limits.
    pub rlimits: Vec<LinuxRlimit>,
    /// The names of the services this one depends on.
    pub depends_on: Vec<String>,
}

/// Whether two service descriptors agree in every field.
pub open spec fn service_eq(a: &Service, b: &Service) -> bool {
    &&& a.name@ == b.name@
    &&& a.base@ == b.base@
    &&& a.group@ == b.group@
    &&& a.command@ == b.command@
    &&& a.args@.map_values(|s: String| s@) == b.args@.map_values(|s: String| s@)
    &&& a.envs@.map_values(|e: EnvPair| e@) == b.envs@.map_values(|e: EnvPair| e@)
    &&& a.cpus == b.cpus
    &&& a.ram_mib == b.ram_mib
    &&& a.ports@ == b.ports@
    &&& a.volumes@.map_values(|p: PathPair| p@) == b.volumes@.map_values(|p: PathPair| p@)
    &&& a.rlimits@.map_values(|l: LinuxRlimit| l@) == b.rlimits@.map_values(
        |l: LinuxRlimit| l@,
    )
    &&& a.depends_on@.map_values(|s: String| s@) == b.depends_on@.map_values(|s: String| s@)
}

/// Whether two strings hold the same characters.
pub fn string_eq(a: &str, b: &str) -> (r: bool)
    ensures
        r == (a@ == b@),
{
    let n = a.unicode_len();
    let m = b.unicode_len();
    if n != m {
        return false;
    }
    let mut i: usize = 0;
    while i < n
        invariant
            0 <= i <= n,
            n == a@.len(),
            n == b@.len(),
            forall|j: int| 0 <= j < i ==> a@[j] == b@[j],
        decreases n - i,
    {
        if a.get_char(i) != b.get_char(i) {
            return false;
        }
        i += 1;
    }
    proof {
        assert(a@ =~= b@);
    }
    true
}

/// Whether two string lists hold the same strings in the same order.
pub fn string_vecs_eq(a: &Vec<String>, b: &Vec<String>) -> (r: bool)
    ensures
        r == (a@.map_values(|s: String| s@) == b@.map_values(|s: String| s@)),
{
    if a.len() != b.len() {
        proof {
            assert(a@.map_values(|s: String| s@).len() != b@.map_values(|s: String| s@).len());
        }
        return false;
    }
    let mut i: usize = 0;
    while i < a.len()
        invariant
            0 <= i <= a@.len(),
            a@.len() == b@.len(),
            forall|j: int| 0 <= j < i ==> a@[j]@ == b@[j]@,
        decreases a@.len() - i,
    {
        if !string_eq(a[i].as_str(), b[i].as_str()) {
            proof {
                assert(a@.map_values(|s: String| s@)[i as int] != b@.map_values(
                    |s: String| s@,
                )[i as int]);
            }
            return false;
        }
        i += 1;
    }
    proof {
        assert(a@.map_values(|s: String| s@) =~= b@.map_values(|s: String| s@));
    }
    true
}

impl Service {
    /// Copies this descriptor.
    pub fn duplicate(&self) -> (r: Service)
        ensures
            service_eq(&r, self),
    {
        let mut args: Vec<String> = Vec::new();
        let mut i: usize = 0;
        while i < self.args.len()
            invariant
                0 <= i <= self.args@.len(),
                args@.len() == i,
                forall|j: int| 0 <= j < i ==> #[trigger] args@[j]@ == self.args@[j]@,
            decreases self.args@.len() - i,
        {
            args.push(self.args[i].clone());
            i += 1;
        }
        let mut envs: Vec<EnvPair> = Vec::new();
        let mut i: usize = 0;
        while i < self.envs.len()
            invariant
                0 <= i <= self.envs@.len(),
                envs@.len() == i,
                forall|j: int| 0 <= j < i ==> #[trigger] envs@[j]@ == self.envs@[j]@,
            decreases self.envs@.len() - i,
        {
            envs.push(
                EnvPair { name: self.envs[i].name.clone(), value: self.envs[i].value.clone() },
            );
            i += 1;
        }
        let mut ports: Vec<PortPair> = Vec::new();
        let mut i: usize = 0;
        while i < self.ports.len()
            invariant
                0 <= i <= self.ports@.len(),
                ports@.len() == i,
                forall|j: int| 0 <= j < i ==> #[trigger] ports@[j] == self.ports@[j],
            decreases self.ports@.len() - i,
        {
            ports.push(self.ports[i]);
            i += 1;
        }
        let mut volumes: Vec<PathPair> = Vec::new();
        let mut i: usize = 0;
        while i < self.volumes.len()
            invariant
                0 <= i <= self.volumes@.len(),
                volumes@.len() == i,
                forall|j: int| 0 <= j < i ==> #[trigger] volumes@[j]@ == self.volumes@[j]@,
            decreases self.volumes@.len() - i,
        {
            volumes.push(
                PathPair {
                    host: self.volumes[i].host.clone(),
                    guest: self.volumes[i].guest.clone(),
                },
            );
            i += 1;
        }
        let mut rlimits: Vec<LinuxRlimit> = Vec::new();
        let mut i: usize = 0;
        while i < self.rlimits.len()
            invariant
                0 <= i <= self.rlimits@.len(),
                rlimits@.len() == i,
                forall|j: int| 0 <= j < i ==> #[trigger] rlimits@[j]@ == self.rlimits@[j]@,
            decreases self.rlimits@.len() - i,
        {
            rlimits.push(
                LinuxRlimit {
                    name: self.rlimits[i].name.clone(),
                    soft: self.rlimits[i].soft,
                    hard: self.rlimits[i].hard,
                },
            );
            i += 1;
        }
        let mut depends_on: Vec<String> = Vec::new();
        let mut i: usize = 0;
        while i < self.depends_on.len()
            invariant
                0 <= i <= self.depends_on@.len(),
                depends_on@.len() == i,
                forall|j: int| 0 <= j < i ==> #[trigger] depends_on@[j]@ == self.depends_on@[j]@,
            decreases self.depends_on@.len() - i,
        {
            depends_on.push(self.depends_on[i].clone());
            i += 1;
        }
        let r = Service {
            name: self.name.clone(),
            base: self.base.clone(),
            group: self.group.clone(),
            command: self.command.clone(),
            args,
            envs,
            cpus: self.cpus,
            ram_mib: self.ram_mib,
            ports,
            volumes,
            rlimits,
            depends_on,
        };
        proof {
            assert(r.args@.map_values(|s: String| s@) =~= self.args@.map_values(|s: String| s@));
            assert(r.envs@.map_values(|e: EnvPair| e@) =~= self.envs@.map_values(
                |e: EnvPair| e@,
            ));
            assert(r.ports@ =~= self.ports@);
            assert(r.volumes@.map_values(|p: PathPair| p@) =~= self.volumes@.map_values(
                |p: PathPair| p@,
            ));
            assert(r.rlimits@.map_values(|l: LinuxRlimit| l@) =~= self.rlimits@.map_values(
                |l: LinuxRlimit| l@,
            ));
            assert(r.depends_on@.map_values(|s: String| s@) =~= self.depends_on@.map_values(
                |s: String| s@,
            ));
        }
        r
    }

    /// Whether this descriptor equals `other` in every field; an update is
    /// needed exactly when this is false for the running descriptor.
    pub fn same_as(&self, other: &Service) -> (r: bool)
        ensures
            r == service_eq(self, other),
    {
        if !string_eq(self.name.as_str(), other.name.as_str()) {
            return false;
        }
        if !string_eq(self.base.as_str(), other.base.as_str()) {
            return false;
        }
        if !string_eq(self.group.as_str(), other.group.as_str()) {
            return false;
        }
        if !string_eq(self.command.as_str(), other.command.as_str()) {
            return false;
        }
        if !string_vecs_eq(&self.args, &other.args) {
            return false;
        }
        if self.cpus != other.cpus || self.ram_mib != other.ram_mib {
            return false;
        }
        // environment bindings
        if self.envs.len() != other.envs.len() {
            proof {
                assert(self.envs@.map_values(|e: EnvPair| e@).len() != other.envs@.map_values(
                    |e: EnvPair| e@,
                ).len());
            }
            return false;
        }
        let mut i: usize = 0;
        while i < self.envs.len()
            invariant
                0 <= i <= self.envs@.len(),
                self.envs@.len() == other.envs@.len(),
                forall|j: int| 0 <= j < i ==> self.envs@[j]@ == other.envs@[j]@,
            decreases self.envs@.len() - i,
        {
            if !string_eq(self.envs[i].name.as_str(), other.envs[i].name.as_str()) || !string_eq(
                self.envs[i].value.as_str(),
                other.envs[i].value.as_str(),
            ) {
                proof {
                    assert(self.envs@.map_values(|e: EnvPair| e@)[i as int]
                        != other.envs@.map_values(|e: EnvPair| e@)[i as int]);
                }
                return false;
            }
            i += 1;
        }
        proof {
            assert(self.envs@.map_values(|e: EnvPair| e@) =~= other.envs@.map_values(
                |e: EnvPair| e@,
            ));
        }
        // port mappings
        if self.ports.len() != other.ports.len() {
            return false;
        }
        let mut i: usize = 0;
        while i < self.ports.len()
            invariant
                0 <= i <= self.ports@.len(),
                self.ports@.len() == other.ports@.len(),
                forall|j: int| 0 <= j < i ==> self.ports@[j] == other.ports@[j],
            decreases self.ports@.len() - i,
        {
            if !(self.ports[i] == other.ports[i]) {
                return false;
            }
            i += 1;
        }
        proof {
            assert(self.ports@ =~= other.ports@);
        }
        // volume mounts
        if self.volumes.len() != other.volumes.len() {
            proof {
                assert(self.volumes@.map_values(|p: PathPair| p@).len()
                    != other.volumes@.map_values(|p: PathPair| p@).len());
            }
            return false;
        }
        let mut i: usize = 0;
        while i < self.volumes.len()
            invariant
                0 <= i <= self.volumes@.len(),
                self.volumes@.len() == other.volumes@.len(),
                forall|j: int| 0 <= j < i ==> self.volumes@[j]@ == other.volumes@[j]@,
            decreases self.volumes@.len() - i,
        {
            if !string_eq(self.volumes[i].host.as_str(), other.volumes[i].host.as_str()) || !string_eq(
                self.volumes[i].guest.as_str(),
                other.volumes[i].guest.as_str(),
            ) {
                proof {
                    assert(self.volumes@.map_values(|p: PathPair| p@)[i as int]
                        != other.volumes@.map_values(|p: PathPair| p@)[i as int]);
                }
                return false;
            }
            i += 1;
        }
        proof {
            assert(self.volumes@.map_values(|p: PathPair| p@) =~= other.volumes@.map_values(
                |p: PathPair| p@,
            ));
        }
        // resource limits
        if self.rlimits.len() != other.rlimits.len() {
            proof {
                assert(self.rlimits@.map_values(|l: LinuxRlimit| l@).len()
                    != other.rlimits@.map_values(|l: LinuxRlimit| l@).len());
            }
            return false;
        }
        let mut i: usize = 0;
        while i < self.rlimits.len()
            invariant
                0 <= i <= self.rlimits@.len(),
                self.rlimits@.len() == other.rlimits@.len(),
                forall|j: int| 0 <= j < i ==> self.rlimits@[j]@ == other.rlimits@[j]@,
            decreases self.rlimits@.len() - i,
        {
            if !string_eq(self.rlimits[i].name.as_str(), other.rlimits[i].name.as_str())
                || self.rlimits[i].soft != other.rlimits[i].soft || self.rlimits[i].hard
                != other.rlimits[i].hard {
                proof {
                    assert(self.rlimits@.map_values(|l: LinuxRlimit| l@)[i as int]
                        != other.rlimits@.map_values(|l: LinuxRlimit| l@)[i as int]);
                }
                return false;
            }
            i += 1;
        }
        proof {
            assert(self.rlimits@.map_values(|l: LinuxRlimit| l@) =~= other.rlimits@.map_values(
                |l: LinuxRlimit| l@,
            ));
        }
        if !string_vecs_eq(&self.depends_on, &other.depends_on) {
            return false;
        }
        true
    }
}

/// An IPv4 subnet: a network address and a prefix length.
#[derive(Debug, Clone, Copy, PartialEq, Eq, Structural)]
pub struct Subnet {
    /// The network address, as a 32-bit value.
    pub network: u32,
    /// The prefix length, at most 32.
    pub prefix: u8,
}

/// A named collection of services sharing a network domain.
#[derive(Debug)]
pub struct Group {
    /// The group name.
    pub name: String,
    /// The group's address pool, if it assigns addresses.
    pub subnet: Option<Subnet>,
}

/// The status of the microVM subprocess.
#[derive(Debug, Clone, PartialEq, Eq)]
pub enum MicroVmStatus {
    /// The subprocess is not started.
    Unstarted,
    /// The subprocess is starting.
    Starting,
    /// The subprocess is started.
    Started,
    /// The subprocess is stopping.
    Stopping,
    /// The subprocess is stopped.
    Stopped {
        /// The exit code of the subprocess.
        exit_code: i32,
    },
    /// The subprocess failed.
    Failed {
        /// The error that occurred.
        error: String,
    },
}

/// The metrics of the microVM subprocess.
#[derive(Debug, Clone, Copy, PartialEq, Eq, Default, Structural)]
pub struct MicroVmMetrics {
    /// The CPU usage, in millionths of the fraction 0..1.
    pub cpu_usage: u64,
    /// The memory usage, in bytes.
    pub memory_usage: u64,
}

/// The runtime state of one microVM subprocess.
#[derive(Debug)]
pub struct MicroVmState {
    /// The OS PID of the subprocess, once known.
    pub pid: Option<u32>,
    /// When the record was created, in seconds since the Unix epoch.
    pub created_at: u64,
    /// When the record was last modified, in seconds since the Unix epoch.
    pub modified_at: u64,
    /// The service the subprocess runs.
    pub service: Service,
    /// The group the service belongs to.
    pub group: Group,
    /// The merged root filesystem path.
    pub rootfs_path: String,
    /// The subprocess status.
    pub status: MicroVmStatus,
    /// The subprocess metrics.
    pub metrics: MicroVmMetrics,
}

impl MicroVmState {
    /// Creates a fresh record for a service: unstarted, with both
    /// timestamps read from the clock at the same instant and zeroed
    /// metrics.
    pub fn new(service: Service, group: Group, rootfs_path: String) -> (r: MicroVmState)
        ensures
            r.pid is None,
            r.created_at == r.modified_at,
            service_eq(&r.service, &service),
            r.group.name@ == group.name@,
            r.group.subnet == group.subnet,
            r.rootfs_path@ == rootfs_path@,
            r.status == MicroVmStatus::Unstarted,
            r.metrics == (MicroVmMetrics { cpu_usage: 0, memory_usage: 0 }),
    {
        let now = now_unix_secs();
        MicroVmState {
            pid: Option::None,
            created_at: now,
            modified_at: now,
            service,
            group,
            rootfs_path,
            status: MicroVmStatus::Unstarted,
            metrics: MicroVmMetrics { cpu_usage: 0, memory_usage: 0 },
        }
    }

    /// The subprocess PID, once known.
    pub fn get_pid(&self) -> (r: Option<u32>)
        ensures
            r == self.pid,
    {
        self.pid
    }

    /// The subprocess status.
    pub fn get_status(&self) -> (r: &MicroVmStatus)
        ensures
            r == self.status,
    {
        &self.status
    }

    /// Sets the subprocess status, stamping the modification time.
    pub fn set_status(&mut self, status: MicroVmStatus)
        ensures
            final(self).status == status,
            final(self).pid == old(self).pid,
            final(self).created_at == old(self).created_at,
            service_eq(&final(self).service, &old(self).service),
    {
        self.status = status;
        self.modified_at = now_unix_secs();
    }
}

} // verus!
