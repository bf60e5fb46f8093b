use vstd::prelude::*;

verus! {

/// The conservative file-descriptor target the engine asks for at open.
pub open spec fn default_nofile_limit() -> u64 {
    16384
}

/// Relies on `rlimit::Resource::NOFILE.get()`: the process's current
/// soft and hard file-descriptor limits, whatever the system reports.
#[verifier::external_body]
fn get_nofile_limits() -> (r: Option<(u64, u64)>)
{
    rlimit::Resource::NOFILE.get().ok()
}

/// Relies on `rlimit::Resource::NOFILE.set()`: asks the system for new
/// limits; whether it took effect is reported, nothing more.
#[verifier::external_body]
fn set_nofile_limits(soft: u64, hard: u64) -> (r: bool)
{
    rlimit::Resource::NOFILE.set(soft, hard).is_ok()
}

/// Tries to raise the file-descriptor soft limit to the default target,
/// clamped to the hard limit, and reports the soft limit that now holds;
/// `None` when the system refused to tell or to change it. Failure is
/// tolerated: the caller goes on regardless.
pub fn increase_nofile_limit() -> (r: Option<u64>)
{
    let (soft, hard) = match get_nofile_limits() {
        Some(p) => p,
        None => {
            return None;
        },
    };
    let target = if default_nofile_limit_exec() < hard {
        default_nofile_limit_exec()
    } else {
        hard
    };
    if soft >= target {
        // already generous enough; do not shrink it
        return Some(soft);
    }
    if set_nofile_limits(target, target) {
        Some(target)
    } else {
        None
    }
}

fn default_nofile_limit_exec() -> (r: u64)
    ensures
        r == default_nofile_limit(),
{
    16384
}

} // verus!
