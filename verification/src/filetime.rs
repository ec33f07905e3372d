use vstd::prelude::*;

verus! {

/// Creation, modification and access times of a record, in seconds since the
/// Unix epoch.
#[derive(Clone, Copy, Debug, PartialEq, Eq)]
pub struct FileTimes {
    pub created: u64,
    pub modified: u64,
    pub accessed: u64,
}

impl FileTimes {
    /// All three times set to `t`.
    pub fn at(t: u64) -> (r: FileTimes)
        ensures
            r == (FileTimes { created: t, modified: t, accessed: t }),
    {
        FileTimes { created: t, modified: t, accessed: t }
    }

    /// Records an access at time `t`.
    pub fn set_accessed(&mut self, t: u64)
        ensures
            *final(self) == (FileTimes { accessed: t, ..*old(self) }),
    {
        self.accessed = t;
    }

    /// Records a modification at time `t`.
    pub fn set_modified(&mut self, t: u64)
        ensures
            *final(self) == (FileTimes { modified: t, ..*old(self) }),
    {
        self.modified = t;
    }
}

impl Default for FileTimes {
    fn default() -> (r: FileTimes)
        ensures
            r == (FileTimes { created: 0, modified: 0, accessed: 0 }),
    {
        FileTimes { created: 0, modified: 0, accessed: 0 }
    }
}

#[verifier::external_type_specification]
#[verifier::external_body]
pub struct ExSystemTime(std::time::SystemTime);

/// `std::time::SystemTime::now`. Nothing is stated of the value: it is the
/// machine's clock.
#[verifier::external_body]
fn system_now() -> std::time::SystemTime {
    std::time::SystemTime::now()
}

/// `std::time::SystemTime::duration_since` the Unix epoch; `None` for a time
/// before it. Nothing is stated of the value: the time is the machine's clock
/// reading.
#[verifier::external_body]
fn since_epoch(t: &std::time::SystemTime) -> Option<std::time::Duration> {
    match t.duration_since(std::time::UNIX_EPOCH) {
        Ok(d) => Some(d),
        Err(_) => None,
    }
}

/// `std::time::Duration::as_secs`: the whole seconds of `d`. Nothing is
/// stated of the value: a `Duration` is opaque here, and the durations that
/// reach it are clock readings.
#[verifier::external_body]
fn whole_seconds(d: &std::time::Duration) -> u64 {
    d.as_secs()
}

/// The current time, for stamping records: the whole seconds since the Unix
/// epoch, or 0 where the clock reads a time before it.
pub fn now() -> (r: FileTimes)
    ensures
        r.created == r.modified && r.modified == r.accessed,
{
    let t = system_now();
    let secs: u64 = match since_epoch(&t) {
        Some(d) => whole_seconds(&d),
        None => 0,
    };
    FileTimes::at(secs)
}

} // verus!
