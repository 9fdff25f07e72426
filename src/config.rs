use vstd::prelude::*;
use crate::lock::LockMode;
use crate::wal::{DurabilityMode, WalConfig};

verus! {

/// Relies on num_cpus::get: the number of logical CPUs this process may use,
/// which its documentation promises is at least 1.
#[verifier::external_body]
fn cpu_count() -> (r: usize)
    ensures
        r >= 1,
{
    num_cpus::get()
}

/// Workloads below this size are never split across threads.
pub const PARALLEL_THRESHOLD: usize = 100;

/// When work is spread over threads: only with more than two cores, and only for
/// workloads of at least `PARALLEL_THRESHOLD` items.
#[derive(Clone, Copy, Debug)]
pub struct ThreadPoolConfig {
    pub available_cores: usize,
    pub use_parallel: bool,
}

impl ThreadPoolConfig {
    /// The configuration for the cores of this machine.
    pub fn new() -> (r: ThreadPoolConfig)
        ensures
            r.available_cores >= 1,
            r.use_parallel == (r.available_cores > 2),
    {
        Self::with_cores(cpu_count())
    }

    /// The configuration for `cores` cores.
    pub fn with_cores(cores: usize) -> (r: ThreadPoolConfig)
        ensures
            r.available_cores == cores,
            r.use_parallel == (cores > 2),
    {
        ThreadPoolConfig { available_cores: cores, use_parallel: cores > 2 }
    }

    /// Threads worth using for `workload` items: one for small workloads or
    /// without parallelism; else half, three quarters or all of the cores but one,
    /// as the workload passes 1,000 and 10,000 items, and never fewer than one.
    pub fn optimal_threads(&self, workload: usize) -> (r: usize)
        ensures
            r == if !self.use_parallel || workload < 100 || self.available_cores == 0 {
                1
            } else {
                let m = if self.available_cores - 1 >= 1 { self.available_cores - 1 } else { 1 };
                let t = if workload < 1000 {
                    m / 2
                } else if workload < 10000 {
                    m * 3 / 4
                } else {
                    m
                };
                if t >= 1 { t } else { 1 }
            },
    {
        if !self.use_parallel || workload < 100 || self.available_cores == 0 {
            return 1;
        }
        let m = if self.available_cores - 1 >= 1 { self.available_cores - 1 } else { 1 };
        let t = if workload < 1000 {
            m / 2
        } else if workload < 10000 {
            (m / 4) * 3 + (m % 4) * 3 / 4
        } else {
            m
        };
        proof {
            if 1000 <= workload && workload < 10000 {
                assert((m / 4) * 3 + (m % 4) * 3 / 4 == m * 3 / 4) by (nonlinear_arith);
            }
        }
        if t >= 1 { t } else { 1 }
    }

    /// Whether `workload` items are worth spreading over threads.
    pub fn should_parallelize(&self, workload: usize) -> (r: bool)
        ensures
            r == (self.use_parallel && workload >= PARALLEL_THRESHOLD),
    {
        self.use_parallel && workload >= PARALLEL_THRESHOLD
    }

    /// What the store reports about parallelism on this machine.
    pub fn system_info(&self) -> (r: SystemInfo)
        ensures
            r.available_cores as int == if self.available_cores > u32::MAX { u32::MAX as int } else { self.available_cores as int },
            r.parallel_enabled == self.use_parallel,
            r.recommended_batch_size == if self.use_parallel { 1000u32 } else { 100u32 },
    {
        let cores: u32 = if self.available_cores > 4294967295usize { 4294967295u32 } else { self.available_cores as u32 };
        SystemInfo {
            available_cores: cores,
            parallel_enabled: self.use_parallel,
            recommended_batch_size: if self.use_parallel { 1000 } else { 100 },
        }
    }
}

/// Resources the store reports for tuning.
#[derive(Clone, Copy, Debug)]
pub struct SystemInfo {
    pub available_cores: u32,
    pub parallel_enabled: bool,
    pub recommended_batch_size: u32,
}

/// How a database is opened.
#[derive(Clone, Copy, Debug)]
pub struct DBOptions {
    pub lock_mode: LockMode,
    pub durability: DurabilityMode,
    pub wal_batch_size: usize,
    pub wal_flush_ms: u64,
}

impl Default for DBOptions {
    fn default() -> (r: DBOptions)
        ensures
            r.lock_mode == LockMode::Exclusive,
            r.durability == DurabilityMode::Batched,
            r.wal_batch_size == 1000,
            r.wal_flush_ms == 10,
    {
        DBOptions {
            lock_mode: LockMode::Exclusive,
            durability: DurabilityMode::Batched,
            wal_batch_size: 1000,
            wal_flush_ms: 10,
        }
    }
}

impl DBOptions {
    /// The options of the older constructor: no locking, and a batched log or none.
    pub fn legacy(wal: bool) -> (r: DBOptions)
        ensures
            r.lock_mode == LockMode::Unlocked,
            r.durability == if wal { DurabilityMode::Batched } else { DurabilityMode::Off },
            r.wal_batch_size == 1000,
            r.wal_flush_ms == 10,
    {
        DBOptions {
            lock_mode: LockMode::Unlocked,
            durability: if wal { DurabilityMode::Batched } else { DurabilityMode::Off },
            wal_batch_size: 1000,
            wal_flush_ms: 10,
        }
    }

    /// Options from their names. A batch size or flush interval left out is the
    /// one of the durability mode's preset (1000 records and 10 ms where the mode
    /// keeps no log).
    pub fn from_names(lock_mode: &str, durability: &str, wal_batch_size: Option<u32>, wal_flush_ms: Option<u32>) -> (r: DBOptions)
        ensures
            r.lock_mode == LockMode::from_str_spec(lock_mode@),
            r.durability == DurabilityMode::from_str_spec(durability@),
            r.wal_batch_size == match wal_batch_size {
                Some(n) => n as usize,
                None => match r.durability {
                    DurabilityMode::Sync => 1,
                    _ => 1000,
                },
            },
            r.wal_flush_ms == match wal_flush_ms {
                Some(n) => n as u64,
                None => match r.durability {
                    DurabilityMode::Lazy => 100,
                    DurabilityMode::Sync => 0,
                    _ => 10,
                },
            },
    {
        let mode = DurabilityMode::from_str(durability);
        let preset = match mode.to_config() {
            Some(c) => c,
            None => WalConfig { batch_size: 1000, flush_interval_ms: 10, fsync: true },
        };
        DBOptions {
            lock_mode: LockMode::from_str(lock_mode),
            durability: mode,
            wal_batch_size: match wal_batch_size { Some(n) => n as usize, None => preset.batch_size },
            wal_flush_ms: match wal_flush_ms { Some(n) => n as u64, None => preset.flush_interval_ms },
        }
    }

    /// The log writer settings: the batch size and interval given here, with the
    /// fsync choice of the durability mode; none where the mode keeps no log.
    pub fn wal_config(&self) -> (r: Option<WalConfig>)
        ensures
            self.durability == DurabilityMode::Off <==> r is None,
            r is Some ==> r->0.batch_size == self.wal_batch_size && r->0.flush_interval_ms == self.wal_flush_ms
                && r->0.fsync,
    {
        match self.durability.to_config() {
            Some(c) => Some(WalConfig { batch_size: self.wal_batch_size, flush_interval_ms: self.wal_flush_ms, fsync: c.fsync }),
            None => None,
        }
    }
}

} // verus!
