//! Load generation: who runs which session, and when a session is over.
use vstd::prelude::*;

use crate::stats::{percentile, percentile_of};
use crate::text::{chars_of, has_part, is_part, law_parts_are_cut_out};

verus! {

/// Sessions that a worker may run without touching another one's ids.
pub const SESSIONS_PER_WORKER: u64 = 1_000_000;

/// Workers, and sessions of each: enough of them for all sessions.
pub fn share_sessions(n_sessions: usize, concurrency: usize) -> (r: (usize, usize))
    ensures
        r.0 == if concurrency == 0 {
            1
        } else {
            concurrency as int
        },
        r.1 * r.0 >= n_sessions,
        r.1 > 0 ==> (r.1 - 1) * r.0 < n_sessions,
{
    let workers: usize = if concurrency == 0 {
        1
    } else {
        concurrency
    };
    let whole: usize = n_sessions / workers;
    proof {
        let (n, w, q) = (n_sessions as int, workers as int, whole as int);
        assert(n == w * q + n % w) by (nonlinear_arith)
            requires
                q == n / w,
                w > 0,
        ;
        assert(w * q == q * w) by (nonlinear_arith);
        assert((q + 1) * w == q * w + w) by (nonlinear_arith);
        assert((q - 1) * w == q * w - w) by (nonlinear_arith);
        if n % w != 0 {
            assert(q < n) by (nonlinear_arith)
                requires
                    n == w * q + n % w,
                    n % w > 0,
                    w >= 1,
                    q >= 0,
            ;
        }
    }
    let each: usize = if n_sessions % workers == 0 {
        whole
    } else {
        whole + 1
    };
    (workers, each)
}

/// Id of a worker's session.
pub open spec fn session_id_spec(worker: int, i: int) -> int {
    worker * SESSIONS_PER_WORKER + i
}

/// Id of session `i` of a worker.
pub fn session_id(worker: u32, i: u64) -> (id: u64)
    requires
        i < SESSIONS_PER_WORKER,
    ensures
        id == session_id_spec(worker as int, i as int),
{
    worker as u64 * SESSIONS_PER_WORKER + i
}

/// No two sessions share an id, so workers never share recognition state.
pub proof fn law_session_ids_are_unique(w: int, i: int, v: int, j: int)
    requires
        0 <= i < SESSIONS_PER_WORKER,
        0 <= j < SESSIONS_PER_WORKER,
        session_id_spec(w, i) == session_id_spec(v, j),
    ensures
        w == v && i == j,
{
}

/// A batch holds more than its header.
pub fn is_worth_sending(batch_len: usize) -> (r: bool)
    ensures
        r == (batch_len > 16),
{
    batch_len > 16
}

/// A server event ends the session.
pub open spec fn is_final_event(text: Seq<char>) -> bool {
    has_part(text, "\"matched\""@) || has_part(text, "\"no_match\""@)
}

/// Whether a server event ends the session.
pub fn ends_session(text: &str) -> (r: bool)
    ensures
        r == is_final_event(text@),
{
    let cs: Vec<char> = chars_of(text);
    is_part(&cs, &chars_of("\"matched\"")) || is_part(&cs, &chars_of("\"no_match\""))
}

/// Latencies of the sessions that went through.
#[derive(Debug, Clone, Copy, PartialEq, Eq, Structural)]
pub struct LoadReport {
    pub sessions_ok: usize,
    pub sessions_failed: usize,
    pub p50_us: u64,
    pub p95_us: u64,
    pub p99_us: u64,
}

/// Sums up a run of `sessions` sessions from the latencies of those that went
/// through.
pub fn load_report(sessions: usize, latencies: &Vec<u64>) -> (r: LoadReport)
    requires
        latencies.len() <= sessions,
    ensures
        r == (LoadReport {
            sessions_ok: latencies.len(),
            sessions_failed: (sessions - latencies.len()) as usize,
            p50_us: percentile_of(latencies@, 50),
            p95_us: percentile_of(latencies@, 95),
            p99_us: percentile_of(latencies@, 99),
        }),
{
    LoadReport {
        sessions_ok: latencies.len(),
        sessions_failed: sessions - latencies.len(),
        p50_us: percentile(latencies, 50),
        p95_us: percentile(latencies, 95),
        p99_us: percentile(latencies, 99),
    }
}

/// The sessions of a worker are numbered from its number times a million.
pub proof fn law_session_ids_are_by_the_million(w: int, i: int)
    ensures
        session_id_spec(w, i) == 1_000_000 * w + i,
{
}

/// An event ends the session exactly if it says matched or no match, in
/// quotes.
pub proof fn law_final_events_say_so(a: Seq<char>, b: Seq<char>, text: Seq<char>)
    ensures
        is_final_event(a + "\"matched\""@ + b),
        is_final_event(a + "\"no_match\""@ + b),
        is_final_event(text) ==> exists|x: Seq<char>, y: Seq<char>|
            text == #[trigger] ((x + "\"matched\""@) + y) || text == (x + "\"no_match\""@) + y,
{
    law_parts_are_cut_out(a, "\"matched\""@, b, text);
    law_parts_are_cut_out(a, "\"no_match\""@, b, text);
    if has_part(text, "\"no_match\""@) {
        let (x, y) = choose|x: Seq<char>, y: Seq<char>|
            text == #[trigger] ((x + "\"no_match\""@) + y);
        assert(text == (x + "\"no_match\""@) + y);
        let z = (x + "\"matched\""@) + y;
        assert(z == (x + "\"matched\""@) + y);
    }
}

} // verus!
