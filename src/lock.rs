use vstd::prelude::*;
use crate::path::{is_digit, digits_value, all_digits};
use crate::pattern::same_text;
use crate::text::{nat_text, u128_text};

verus! {

/// Why the process lock could not be taken.
#[derive(Debug)]
pub enum LockError {
    /// A live process holds it.
    AlreadyLocked,
    /// The file system failed; the text says how.
    Io(String),
    StaleLock,
}

/// How a database handle guards its file against other processes.
#[derive(Clone, Copy, Debug, PartialEq, Eq, Structural)]
pub enum LockMode {
    /// Hold an exclusive lock.
    Exclusive,
    /// Take no lock, but refuse a file that a live process holds.
    Shared,
    /// No locking.
    Unlocked,
}

impl LockMode {
    pub open spec fn from_str_spec(s: Seq<char>) -> LockMode {
        if s == "exclusive"@ {
            LockMode::Exclusive
        } else if s == "shared"@ {
            LockMode::Shared
        } else {
            LockMode::Unlocked
        }
    }

    /// `"exclusive"` and `"shared"` name their modes; anything else means no locking.
    pub fn from_str(s: &str) -> (r: LockMode)
        ensures
            r == Self::from_str_spec(s@),
    {
        if same_text(s, "exclusive") {
            LockMode::Exclusive
        } else if same_text(s, "shared") {
            LockMode::Shared
        } else {
            LockMode::Unlocked
        }
    }
}

/// The lock file that guards the database at `db`.
pub fn lock_file_path(db: &str) -> (r: String)
    ensures
        r@ == db@ + ".process_lock"@,
{
    String::from_str(db).concat(".process_lock")
}

/// The text written into a held lock file: the owner's PID and a line break.
pub fn lock_file_text(pid: u32) -> (r: String)
    ensures
        r@ == nat_text(pid as nat) + "\n"@,
{
    u128_text(pid as u128).concat("\n")
}

pub open spec fn is_space(c: char) -> bool {
    c == ' ' || c == '\t' || c == '\n' || c == '\r' || c == '\x0b' || c == '\x0c'
}

/// `t` without its leading white space.
pub open spec fn trim_front(t: Seq<char>) -> Seq<char>
    decreases t.len(),
{
    if t.len() > 0 && is_space(t[0]) {
        trim_front(t.drop_first())
    } else {
        t
    }
}

/// `t` without its trailing white space.
pub open spec fn trim_back(t: Seq<char>) -> Seq<char>
    decreases t.len(),
{
    if t.len() > 0 && is_space(t.last()) {
        trim_back(t.drop_last())
    } else {
        t
    }
}

/// The PID a lock file names: its text without surrounding white space, read as
/// a decimal number that fits 32 bits.
pub open spec fn pid_of(t: Seq<char>) -> Option<u32> {
    let s = trim_back(trim_front(t));
    if s.len() > 0 && all_digits(s) && digits_value(s) <= u32::MAX {
        Some(digits_value(s) as u32)
    } else {
        None
    }
}

fn space_at(text: &str, i: usize) -> (r: bool)
    requires
        i < text@.len(),
    ensures
        r == is_space(text@[i as int]),
{
    let c = text.get_char(i);
    c == ' ' || c == '\t' || c == '\n' || c == '\r' || c == '\x0b' || c == '\x0c'
}

/// Reads the PID out of a lock file's text.
pub fn parse_pid(text: &str) -> (r: Option<u32>)
    ensures
        r == pid_of(text@),
{
    let n = text.unicode_len();
    let mut a: usize = 0;
    proof {
        assert(text@.subrange(0, n as int) =~= text@);
    }
    while a < n && space_at(text, a)
        invariant
            n == text@.len(),
            0 <= a <= n,
            trim_front(text@) == trim_front(text@.subrange(a as int, n as int)),
        decreases n - a,
    {
        proof {
            assert(text@.subrange(a as int, n as int).drop_first() =~= text@.subrange(a as int + 1, n as int));
        }
        a = a + 1;
    }
    proof {
        assert(trim_front(text@.subrange(a as int, n as int)) == text@.subrange(a as int, n as int));
    }
    let mut b: usize = n;
    while b > a && space_at(text, b - 1)
        invariant
            n == text@.len(),
            0 <= a <= b <= n,
            trim_back(trim_front(text@)) == trim_back(text@.subrange(a as int, b as int)),
        decreases b - a,
    {
        proof {
            assert(text@.subrange(a as int, b as int).drop_last() =~= text@.subrange(a as int, b as int - 1));
        }
        b = b - 1;
    }
    let ghost s = text@.subrange(a as int, b as int);
    proof {
        assert(trim_back(s) == s);
    }
    if a == b {
        return None;
    }
    let mut i: usize = a;
    let mut acc: u64 = 0;
    while i < b
        invariant
            n == text@.len(),
            0 <= a <= i <= b <= n,
            s == text@.subrange(a as int, b as int),
            trim_back(trim_front(text@)) == s,
            forall|j: int| a <= j < i ==> is_digit(#[trigger] text@[j]),
            acc as int == digits_value(text@.subrange(a as int, i as int)),
            acc <= u32::MAX,
        decreases b - i,
    {
        let c = text.get_char(i);
        if !('0' <= c && c <= '9') {
            proof {
                assert(s[i - a] == c);
            }
            return None;
        }
        proof {
            assert(text@.subrange(a as int, i as int + 1).drop_last() =~= text@.subrange(a as int, i as int));
        }
        acc = acc * 10 + (c as u32 - '0' as u32) as u64;
        if acc > 4294967295u64 {
            proof {
                assert(s.subrange(0, i - a + 1) =~= text@.subrange(a as int, i as int + 1));
                if all_digits(s) {
                    lemma_prefix_value(s, i - a + 1);
                }
            }
            return None;
        }
        i = i + 1;
    }
    proof {
        assert(text@.subrange(a as int, b as int) =~= s);
        assert(forall|j: int| 0 <= j < s.len() ==> #[trigger] s[j] == text@[a + j]);
    }
    Some(acc as u32)
}

proof fn lemma_prefix_value(s: Seq<char>, i: int)
    requires
        0 <= i <= s.len(),
    ensures
        all_digits(s) ==> digits_value(s.subrange(0, i)) <= digits_value(s),
    decreases s.len() - i,
{
    if i < s.len() {
        lemma_prefix_value(s, i + 1);
        assert(s.subrange(0, i + 1).drop_last() =~= s.subrange(0, i));
        if all_digits(s) {
            lemma_value_nonneg(s.subrange(0, i));
        }
    } else {
        assert(s.subrange(0, i) =~= s);
    }
}

proof fn lemma_value_nonneg(s: Seq<char>)
    requires
        all_digits(s),
    ensures
        digits_value(s) >= 0,
    decreases s.len(),
{
    if s.len() > 0 {
        assert(all_digits(s.drop_last())) by {
            assert forall|i: int| 0 <= i < s.drop_last().len() implies is_digit(#[trigger] s.drop_last()[i]) by {
                assert(s.drop_last()[i] == s[i]);
            }
        }
        lemma_value_nonneg(s.drop_last());
    }
}

/// Where taking the exclusive lock stands.
#[derive(Clone, Copy, Debug, PartialEq, Eq, Structural)]
pub enum LockStage {
    /// The first attempt on the lock file is under way.
    First,
    /// The first attempt failed; the owner recorded in the file is being read.
    ReadingOwner,
    /// The owner's PID is being probed.
    Probing,
    /// The stale file was replaced and the lock is tried once more.
    Retrying,
    /// The lock is held.
    Held,
    /// The lock was refused.
    Refused,
}

/// What was observed since the last step.
#[derive(Debug)]
pub enum LockEvent {
    /// Whether a non-blocking exclusive lock was obtained.
    Attempt(bool),
    /// The text of the lock file.
    OwnerText(String),
    /// Whether the probed process exists.
    OwnerAlive(bool),
}

/// What to do next.
#[derive(Clone, Copy, Debug, PartialEq, Eq, Structural)]
pub enum LockAction {
    ReadOwner,
    ProbePid(u32),
    /// Delete the lock file, create it again and try the lock once more.
    RecreateAndRetry,
    /// Truncate the file and write this process's PID into it.
    WritePid,
    FailAlreadyLocked,
    /// The event does not fit the stage; nothing to do.
    Ignore,
}

/// One step of taking the exclusive lock: a failed attempt leads to the owner's
/// PID, an unreadable or dead owner to one retry on a fresh file, and a live owner
/// or a failed retry to `AlreadyLocked`.
pub fn lock_step(stage: LockStage, ev: LockEvent) -> (r: (LockStage, LockAction))
    ensures
        match (stage, ev) {
            (LockStage::First, LockEvent::Attempt(true)) => r == (LockStage::Held, LockAction::WritePid),
            (LockStage::First, LockEvent::Attempt(false)) => r == (LockStage::ReadingOwner, LockAction::ReadOwner),
            (LockStage::ReadingOwner, LockEvent::OwnerText(t)) => match pid_of(t@) {
                Some(p) => r == (LockStage::Probing, LockAction::ProbePid(p)),
                None => r == (LockStage::Retrying, LockAction::RecreateAndRetry),
            },
            (LockStage::Probing, LockEvent::OwnerAlive(true)) => r == (LockStage::Refused, LockAction::FailAlreadyLocked),
            (LockStage::Probing, LockEvent::OwnerAlive(false)) => r == (LockStage::Retrying, LockAction::RecreateAndRetry),
            (LockStage::Retrying, LockEvent::Attempt(true)) => r == (LockStage::Held, LockAction::WritePid),
            (LockStage::Retrying, LockEvent::Attempt(false)) => r == (LockStage::Refused, LockAction::FailAlreadyLocked),
            _ => r == (stage, LockAction::Ignore),
        },
{
    match (stage, ev) {
        (LockStage::First, LockEvent::Attempt(true)) => (LockStage::Held, LockAction::WritePid),
        (LockStage::First, LockEvent::Attempt(false)) => (LockStage::ReadingOwner, LockAction::ReadOwner),
        (LockStage::ReadingOwner, LockEvent::OwnerText(t)) => {
            match parse_pid(t.as_str()) {
                Some(p) => (LockStage::Probing, LockAction::ProbePid(p)),
                None => (LockStage::Retrying, LockAction::RecreateAndRetry),
            }
        },
        (LockStage::Probing, LockEvent::OwnerAlive(true)) => (LockStage::Refused, LockAction::FailAlreadyLocked),
        (LockStage::Probing, LockEvent::OwnerAlive(false)) => (LockStage::Retrying, LockAction::RecreateAndRetry),
        (LockStage::Retrying, LockEvent::Attempt(true)) => (LockStage::Held, LockAction::WritePid),
        (LockStage::Retrying, LockEvent::Attempt(false)) => (LockStage::Refused, LockAction::FailAlreadyLocked),
        _ => (stage, LockAction::Ignore),
    }
}

} // verus!
