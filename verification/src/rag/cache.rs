//! Expiry and eviction decisions of the query cache, and its time source.
use vstd::prelude::*;

verus! {

/// Calls `SystemTime::now().duration_since(UNIX_EPOCH)` and returns whole
/// seconds, or 0 when the clock is before the epoch. Nothing is claimed of the
/// value: it is the machine's clock.
#[verifier::external_body]
pub fn current_timestamp_secs() -> u64 {
    match std::time::SystemTime::now().duration_since(std::time::UNIX_EPOCH) {
        Ok(d) => d.as_secs(),
        Err(_) => 0,
    }
}

/// An entry made at `created_at` is live at `now` when no time to live is set
/// (`ttl == 0`) or fewer than `ttl` seconds have passed; a clock that went
/// back counts as no time passed.
pub open spec fn still_live(created_at: u64, ttl: u64, now: u64) -> bool {
    ttl == 0 || (if now >= created_at { now - created_at } else { 0 }) < ttl
}

/// Which entries, made at the times `created`, are live at `now`.
pub fn live_mask(created: &Vec<u64>, ttl: u64, now: u64) -> (r: Vec<bool>)
    ensures
        r@.len() == created@.len(),
        forall|i: int| 0 <= i < created@.len() ==> r@[i] == still_live(#[trigger] created@[i], ttl, now),
{
    let mut r: Vec<bool> = Vec::new();
    let mut i: usize = 0;
    while i < created.len()
        invariant
            i <= created@.len(),
            r@.len() == i,
            forall|j: int| 0 <= j < i ==> r@[j] == still_live(#[trigger] created@[j], ttl, now),
        decreases created@.len() - i,
    {
        let c = created[i];
        let age = now.saturating_sub(c);
        r.push(ttl == 0 || age < ttl);
        i = i + 1;
    }
    r
}

/// Reads the clock once and tells which entries are live at that moment;
/// returns the moment read with the answer, which holds whatever it was.
pub fn live_mask_now(created: &Vec<u64>, ttl: u64) -> (r: (u64, Vec<bool>))
    ensures
        r.1@.len() == created@.len(),
        forall|i: int| 0 <= i < created@.len() ==> r.1@[i] == still_live(#[trigger] created@[i], ttl, r.0),
{
    let now = current_timestamp_secs();
    (now, live_mask(created, ttl, now))
}

/// The entry to evict: the first of those accessed least recently.
pub fn lru_victim(last_accessed: &Vec<u64>) -> (r: Option<usize>)
    ensures
        r is None <==> last_accessed@.len() == 0,
        r matches Some(i) ==> {
            &&& i < last_accessed@.len()
            &&& forall|j: int| 0 <= j < last_accessed@.len() ==> last_accessed@[i as int] <= #[trigger] last_accessed@[j]
            &&& forall|j: int| 0 <= j < i ==> last_accessed@[i as int] < #[trigger] last_accessed@[j]
        },
{
    if last_accessed.len() == 0 {
        return None;
    }
    let mut best: usize = 0;
    let mut i: usize = 1;
    while i < last_accessed.len()
        invariant
            1 <= i <= last_accessed@.len(),
            best < i,
            forall|j: int| 0 <= j < i ==> last_accessed@[best as int] <= #[trigger] last_accessed@[j],
            forall|j: int| 0 <= j < best ==> last_accessed@[best as int] < #[trigger] last_accessed@[j],
        decreases last_accessed@.len() - i,
    {
        if last_accessed[i] < last_accessed[best] {
            best = i;
        }
        i = i + 1;
    }
    Some(best)
}

} // verus!
